//! Back-pressure headers.

use quota_gate::{rate_limit_headers, Acquire, Decision, LimitRule, Limiter, Listing};

fn decision(retry_after: i128, remaining: Listing<i128>) -> Decision {
    Decision {
        allowed: retry_after == 0,
        model: "m".to_string(),
        retry_after,
        tripped_rule: None,
        scope: None,
        remaining,
        suggested_fallback: None,
    }
}

#[test]
fn an_admission_tells_the_headroom() {
    let mut l = Limiter::new(vec![LimitRule::new("m", 60_000_000_000)
        .max_tokens(1_000_000_000_000)
        .max_requests(5_000_000_000)
        .max_cost(2_500_000_000)]);
    let d = l.try_acquire(
        "m",
        &Acquire::new().tokens(100_500_000_000).cost(1_000_000_000).now(0),
    );
    let headers = rate_limit_headers(&d, None);
    assert_eq!(headers.len(), 3);
    assert_eq!(headers.get("X-RateLimit-Remaining-Tokens").unwrap(), "899");
    assert_eq!(headers.get("X-RateLimit-Remaining-Requests").unwrap(), "4");
    assert_eq!(headers.get("X-RateLimit-Remaining-Cost").unwrap(), "1");
    let headers = rate_limit_headers(&d, Some(&l.rules()[0]));
    assert_eq!(headers.len(), 5);
    assert_eq!(headers.get("X-RateLimit-Limit-Requests").unwrap(), "5");
    assert_eq!(headers.get("X-RateLimit-Limit-Tokens").unwrap(), "1000");
}

#[test]
fn a_wait_is_rounded_up_to_full_seconds() {
    for (wait, text) in [
        (1, "1"),
        (999_999_999, "1"),
        (1_000_000_000, "1"),
        (1_000_000_001, "2"),
        (60_000_000_000, "60"),
        (i128::MAX, "9223372036854775807"),
    ] {
        let headers = rate_limit_headers(&decision(wait, Listing::new()), None);
        assert_eq!(headers.len(), 1);
        assert_eq!(headers.get("Retry-After").unwrap(), text);
    }
    assert_eq!(
        rate_limit_headers(&decision(0, Listing::new()), None).len(),
        0
    );
}

#[test]
fn a_given_rule_goes_before_the_tripped_one() {
    let mut d = decision(1, Listing::new());
    d.tripped_rule = Some(LimitRule::new("m", 1).max_requests(7_000_000_000));
    let headers = rate_limit_headers(&d, None);
    assert_eq!(headers.get("X-RateLimit-Limit-Requests").unwrap(), "7");
    let given = LimitRule::new("m", 1).max_tokens(-1_500_000_000);
    let headers = rate_limit_headers(&d, Some(&given));
    assert_eq!(headers.get("X-RateLimit-Limit-Requests"), None);
    assert_eq!(headers.get("X-RateLimit-Limit-Tokens").unwrap(), "-1");
}

#[test]
fn names_are_capitalised() {
    let mut remaining = Listing::new();
    remaining.insert("tokens".to_string(), 1_000_000_000);
    remaining.insert("éclairs".to_string(), 2_000_000_000);
    remaining.insert("ßig".to_string(), 3_000_000_000);
    remaining.insert("Upper".to_string(), 4_000_000_000);
    remaining.insert("9lives".to_string(), 5_000_000_000);
    remaining.insert("".to_string(), 6_000_000_000);
    let headers = rate_limit_headers(&decision(0, remaining), None);
    assert_eq!(headers.get("X-RateLimit-Remaining-Tokens").unwrap(), "1");
    assert_eq!(headers.get("X-RateLimit-Remaining-Éclairs").unwrap(), "2");
    assert_eq!(headers.get("X-RateLimit-Remaining-SSig").unwrap(), "3");
    assert_eq!(headers.get("X-RateLimit-Remaining-Upper").unwrap(), "4");
    assert_eq!(headers.get("X-RateLimit-Remaining-9lives").unwrap(), "5");
    assert_eq!(headers.get("X-RateLimit-Remaining-").unwrap(), "6");
}

#[test]
fn the_later_of_two_equal_names_stands() {
    let mut remaining = Listing::new();
    remaining.insert("tokens".to_string(), 1_000_000_000);
    remaining.insert("Tokens".to_string(), 2_000_000_000);
    let headers = rate_limit_headers(&decision(0, remaining), None);
    assert_eq!(headers.len(), 1);
    assert_eq!(headers.get("X-RateLimit-Remaining-Tokens").unwrap(), "2");
}
