//! Cost estimation from list prices.

use quota_gate::pricing::estimate_cost_with;
use quota_gate::{estimate_cost, UnknownModel, PRICES};

#[test]
fn costs_follow_the_list_prices() {
    assert_eq!(estimate_cost("gpt-4o", 0, 200_000), Ok(2_000_000_000));
    assert_eq!(estimate_cost("gpt-4o", 1_000_000, 0), Ok(2_500_000_000));
    assert_eq!(estimate_cost("gpt-4o-mini", 1_000, 500), Ok(450_000));
    assert_eq!(estimate_cost("gemini-1.5-flash", 1_000_000, 1_000_000), Ok(375_000_000));
    assert_eq!(estimate_cost("deepseek-reasoner", 1_000_000, 1_000_000), Ok(2_740_000_000));
    assert_eq!(estimate_cost("grok-2", 3, 4), Ok(46_000));
    assert_eq!(estimate_cost("o3", 0, 0), Ok(0));
}

#[test]
fn costs_are_rounded_to_six_places() {
    // 75 billionths a token: 6 tokens are 450, 7 are 525, and 20 are 1500.
    assert_eq!(estimate_cost("gemini-1.5-flash", 6, 0), Ok(0));
    assert_eq!(estimate_cost("gemini-1.5-flash", 7, 0), Ok(1_000));
    assert_eq!(estimate_cost("gemini-1.5-flash", 20, 0), Ok(2_000));
    assert_eq!(estimate_cost("gemini-1.5-flash", -6, 0), Ok(0));
    assert_eq!(estimate_cost("gemini-1.5-flash", -20, 0), Ok(-2_000));
}

#[test]
fn the_largest_counts_do_not_overflow() {
    let most = i64::MAX as i128;
    let exact = most * 2_500 + most * 10_000;
    let cost = estimate_cost("gpt-4o", i64::MAX, i64::MAX).unwrap();
    assert!((cost - exact).abs() <= 500);
    assert!(estimate_cost("gpt-4o", i64::MIN, i64::MIN).unwrap() < 0);
}

#[test]
fn more_tokens_cost_no_less() {
    let mut last = 0;
    for tokens in 0..1_000 {
        let cost = estimate_cost("llama-3.1-8b", tokens, tokens / 2).unwrap();
        assert!(cost >= last);
        last = cost;
    }
}

#[test]
fn an_unknown_model_is_an_error() {
    let error = estimate_cost("gpt-0", 1, 1).unwrap_err();
    assert_eq!(error, UnknownModel("gpt-0".to_string()));
    assert_eq!(error.message(), "unknown model \"gpt-0\"");
    assert!(estimate_cost("", 1, 1).is_err());
    assert!(estimate_cost("GPT-4o", 1, 1).is_err());
}

#[test]
fn every_listed_model_has_its_own_price() {
    for (name, input, output) in PRICES {
        assert_eq!(
            estimate_cost(name, 1_000, 0),
            Ok(input as i128 * 1_000),
            "{name}"
        );
        assert_eq!(estimate_cost(name, 0, 1_000), Ok(output as i128 * 1_000));
    }
}

#[test]
fn another_table_can_be_used() {
    let table = [("mine", 7_000, 9_000), ("mine", 1, 1)];
    assert_eq!(estimate_cost_with(&table, "mine", 2, 1), Ok(23_000));
    assert!(estimate_cost_with(&table, "gpt-4o", 2, 1).is_err());
    assert!(estimate_cost_with(&[], "mine", 2, 1).is_err());
}
