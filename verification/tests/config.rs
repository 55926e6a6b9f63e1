//! Rules documents, scopes, labels and the notation of numbers.

use quota_gate::decimal::read_billionths;
use quota_gate::rules::{rules_from_rows, RuleRow};
use quota_gate::{rules_from_json, LimitRule, Scope};

/// A row that says nothing.
fn empty_row() -> RuleRow {
    RuleRow {
        model: None,
        window_seconds: None,
        max_tokens: None,
        max_requests: None,
        max_cost: None,
        max_concurrent: None,
        scope: None,
        buckets_per_window: None,
        precise: None,
        name: None,
    }
}

#[test]
fn numbers_are_read_to_nine_places() {
    assert_eq!(read_billionths("0"), Some(0));
    assert_eq!(read_billionths("60"), Some(60_000_000_000));
    assert_eq!(read_billionths("-2.5"), Some(-2_500_000_000));
    assert_eq!(read_billionths("0.000000001"), Some(1));
    assert_eq!(read_billionths("0.0000000019"), Some(1));
    assert_eq!(read_billionths("-0.0000000019"), Some(-1));
    assert_eq!(read_billionths("1e12"), Some(1_000_000_000_000_000_000_000));
    assert_eq!(read_billionths("1.25E+2"), Some(125_000_000_000));
    assert_eq!(read_billionths("12345e-3"), Some(12_345_000_000));
    assert_eq!(read_billionths("7e-9"), Some(7));
    assert_eq!(read_billionths("7e-10"), Some(0));
    assert_eq!(read_billionths("7e-9999"), Some(0));
    assert_eq!(read_billionths("007"), Some(7_000_000_000));
    assert_eq!(read_billionths("1e300"), Some(i128::MAX));
    assert_eq!(read_billionths("-1e300"), Some(-i128::MAX));
    assert_eq!(
        read_billionths("170141183460469231731687303715.884105727"),
        Some(i128::MAX)
    );
    assert_eq!(
        read_billionths("170141183460469231731687303715.884105726"),
        Some(i128::MAX - 1)
    );
}

#[test]
fn other_texts_are_no_numbers() {
    for text in [
        "", "-", ".5", "5.", "1e", "1e+", "1e12345", "e5", "1.2.3", "0x10", "+1", " 1", "1 ",
        "inf", "NaN", "1_000", "١",
    ] {
        assert_eq!(read_billionths(text), None, "{text}");
    }
}

#[test]
fn scopes_are_read_in_any_case() {
    assert_eq!("global".parse::<Scope>(), Ok(Scope::Global));
    assert_eq!("TENANT".parse::<Scope>(), Ok(Scope::Tenant));
    assert_eq!("User".parse::<Scope>(), Ok(Scope::User));
    assert_eq!(
        "Team".parse::<Scope>(),
        Err("unknown scope \"team\"".to_string())
    );
    assert_eq!(
        "ÄTeam".parse::<Scope>(),
        Err("unknown scope \"äteam\"".to_string())
    );
    assert_eq!(Scope::from_lowercase("user"), Ok(Scope::User));
    assert_eq!(
        Scope::from_lowercase("User"),
        Err("unknown scope \"User\"".to_string())
    );
    assert_eq!(Scope::Global.as_str(), "global");
    assert_eq!(Scope::Tenant.as_str(), "tenant");
    assert_eq!(Scope::User.as_str(), "user");
}

#[test]
fn a_label_is_the_name_or_is_made_up() {
    let rule = LimitRule::new("gpt-4o", 60_000_000_000).scope(Scope::Tenant);
    assert_eq!(rule.label(), "gpt-4o:tenant:60s");
    let rule = LimitRule::new("m", 1_999_999_999).scope(Scope::User);
    assert_eq!(rule.label(), "m:user:1s");
    let rule = LimitRule::new("m", -1_999_999_999);
    assert_eq!(rule.label(), "m:global:-1s");
    assert_eq!(rule.name("mine").label(), "mine");
}

#[test]
fn a_rule_is_split_into_buckets() {
    let rule = LimitRule::new("m", 60_000_000_000);
    assert_eq!(rule.bucket_seconds(), 1_000_000_000);
    assert!(!rule.has_usage_limit());
    let rule = rule.buckets_per_window(7).max_cost(1);
    assert_eq!(rule.bucket_seconds(), 8_571_428_572);
    assert!(rule.has_usage_limit());
    assert_eq!(rule.clone().buckets_per_window(0).bucket_seconds(), 60_000_000_000);
    assert_eq!(rule.clone().buckets_per_window(-5).bucket_seconds(), 60_000_000_000);
    assert_eq!(rule.precise(true).bucket_seconds(), 0);
    assert!(!LimitRule::new("m", 1).max_concurrent(1).has_usage_limit());
}

#[test]
fn every_setting_of_a_rule_is_read() {
    let text = r#"{ "rules": [ {
        "model": "gpt-4o", "scope": "User", "window_seconds": 0.5,
        "max_tokens": 1.5e3, "max_requests": 40, "max_cost": 0.25,
        "max_concurrent": 3, "buckets_per_window": 10, "precise": true, "name": "mine"
    } ], "comment": null }"#;
    let rules = rules_from_json(text).unwrap();
    assert_eq!(rules.len(), 1);
    let r = &rules[0];
    assert_eq!(r.model, "gpt-4o");
    assert_eq!(r.scope, Scope::User);
    assert_eq!(r.window_seconds, 500_000_000);
    assert_eq!(r.max_tokens, Some(1_500_000_000_000));
    assert_eq!(r.max_requests, Some(40_000_000_000));
    assert_eq!(r.max_cost, Some(250_000_000));
    assert_eq!(r.max_concurrent, Some(3));
    assert_eq!(r.buckets_per_window, 10);
    assert!(r.precise);
    assert_eq!(r.name.as_deref(), Some("mine"));
}

#[test]
fn what_a_rule_does_not_say_has_a_default() {
    let text = r#"{ "rules": [ { "model": "a" }, {
        "model": "b", "window_seconds": "60", "max_tokens": "many", "max_concurrent": 2.5,
        "scope": 7, "buckets_per_window": 99999999999999999999, "precise": "yes", "name": 1
    } ] }"#;
    let rules = rules_from_json(text).unwrap();
    assert_eq!(rules.len(), 2);
    for r in &rules {
        assert_eq!(r.scope, Scope::Global);
        assert_eq!(r.window_seconds, 60_000_000_000);
        assert_eq!(r.max_tokens, None);
        assert_eq!(r.max_requests, None);
        assert_eq!(r.max_cost, None);
        assert_eq!(r.max_concurrent, None);
        assert_eq!(r.buckets_per_window, 60);
        assert!(!r.precise);
        assert_eq!(r.name, None);
    }
    assert_eq!(rules[0].model, "a");
    assert_eq!(rules[1].model, "b");
    assert!(rules_from_json(r#"{ "rules": [] }"#).unwrap().is_empty());
}

#[test]
fn numbers_of_a_document_are_exact() {
    let text = r#"{ "rules": [ { "model": "m", "max_tokens": 0.1, "max_requests": 1e12,
        "max_cost": -3, "window_seconds": 1e300, "max_concurrent": -4 } ] }"#;
    let r = &rules_from_json(text).unwrap()[0];
    assert_eq!(r.max_tokens, Some(100_000_000));
    assert_eq!(r.max_requests, Some(1_000_000_000_000_000_000_000));
    assert_eq!(r.max_cost, Some(-3_000_000_000));
    assert_eq!(r.window_seconds, i64::MAX);
    assert_eq!(r.max_concurrent, Some(-4));
}

#[test]
fn a_document_without_rules_is_refused() {
    let none = "document has no \"rules\" array";
    assert_eq!(rules_from_json("{}").unwrap_err(), none);
    assert_eq!(rules_from_json("[]").unwrap_err(), none);
    assert_eq!(rules_from_json(r#"{ "rules": {} }"#).unwrap_err(), none);
    assert_eq!(rules_from_json("null").unwrap_err(), none);
}

#[test]
fn a_text_that_is_no_json_is_refused_with_the_reason() {
    let text = "{ \"rules\": [ }";
    let expected = serde_json::from_str::<serde_json::Value>(text)
        .unwrap_err()
        .to_string();
    assert_eq!(rules_from_json(text).unwrap_err(), expected);
    assert!(expected.contains("line 1"));
}

#[test]
fn the_first_bad_rule_is_reported() {
    let missing = "rule is missing \"model\"";
    assert_eq!(
        rules_from_json(r#"{ "rules": [ { "scope": "team" } ] }"#).unwrap_err(),
        missing
    );
    assert_eq!(
        rules_from_json(r#"{ "rules": [ { "model": 5 } ] }"#).unwrap_err(),
        missing
    );
    assert_eq!(rules_from_json(r#"{ "rules": [ 5 ] }"#).unwrap_err(), missing);
    assert_eq!(
        rules_from_json(
            r#"{ "rules": [ { "model": "a" }, { "model": "b", "scope": "Team" }, {} ] }"#
        )
        .unwrap_err(),
        "unknown scope \"team\""
    );
}

#[test]
fn rows_make_rules() {
    assert_eq!(
        empty_row().rule().unwrap_err(),
        "rule is missing \"model\""
    );
    let row = RuleRow {
        model: Some("m".to_string()),
        window_seconds: Some("-1e30".to_string()),
        max_cost: Some("0.5".to_string()),
        max_tokens: Some("plenty".to_string()),
        ..empty_row()
    };
    let rule = row.rule().unwrap();
    assert_eq!(rule.window_seconds, i64::MIN);
    assert_eq!(rule.max_cost, Some(500_000_000));
    assert_eq!(rule.max_tokens, None);
    let rules = rules_from_rows(&vec![row, empty_row()]);
    assert_eq!(rules.unwrap_err(), "rule is missing \"model\"");
}
