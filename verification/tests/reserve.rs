//! Reserve on the estimate, then reconcile to the actual - the standard meter model.

use quota_gate::{Acquire, LimitRule, Limiter, Scope};

/// A quantity in billionths.
fn amount(x: f64) -> i128 {
    (x * 1e9).round() as i128
}

/// A time in billionths of a second.
fn secs(x: f64) -> i64 {
    (x * 1e9).round() as i64
}

fn reserve_limiter() -> Limiter {
    Limiter::new(vec![LimitRule::new("gpt-4o", secs(60.0))
        .max_tokens(amount(1000.0))
        .scope(Scope::Global)])
}

#[test]
fn reserve_consumes_the_estimated_headroom() {
    let mut l = reserve_limiter();
    let (decision, res) = l.reserve("gpt-4o", &Acquire::new().tokens(amount(800.0)).now(secs(0.0)));
    assert!(decision.allowed && res.is_some());
    // 800 is reserved, so a 300-token call no longer fits.
    assert!(
        !l.try_acquire("gpt-4o", &Acquire::new().tokens(amount(300.0)).now(secs(0.0)))
            .allowed
    );
}

#[test]
fn commit_reconciles_down_and_frees_capacity() {
    let mut l = reserve_limiter();
    let (_, res) = l.reserve("gpt-4o", &Acquire::new().tokens(amount(800.0)).now(secs(0.0)));
    let mut res = res.unwrap();
    // The call actually used only 100 tokens.
    l.commit(&mut res, Some(amount(100.0)), None);
    // 900 tokens of headroom are back.
    assert!(
        l.try_acquire("gpt-4o", &Acquire::new().tokens(amount(300.0)).now(secs(0.0)))
            .allowed
    );
}

#[test]
fn commit_reconciles_up() {
    let mut l = reserve_limiter();
    let (_, res) = l.reserve("gpt-4o", &Acquire::new().tokens(amount(100.0)).now(secs(0.0)));
    let mut res = res.unwrap();
    l.commit(&mut res, Some(amount(900.0)), None);
    // Now 900 are used; a 200-token call trips the cap.
    assert!(
        !l.try_acquire("gpt-4o", &Acquire::new().tokens(amount(200.0)).now(secs(0.0)))
            .allowed
    );
}

#[test]
fn refund_returns_everything_on_a_failed_call() {
    let mut l = reserve_limiter();
    let (_, res) = l.reserve("gpt-4o", &Acquire::new().tokens(amount(900.0)).now(secs(0.0)));
    let mut res = res.unwrap();
    l.refund(&mut res);
    assert!(
        l.try_acquire("gpt-4o", &Acquire::new().tokens(amount(1000.0)).now(secs(0.0)))
            .allowed
    );
}

#[test]
fn double_commit_is_a_noop() {
    let mut l = reserve_limiter();
    let (_, res) = l.reserve("gpt-4o", &Acquire::new().tokens(amount(100.0)).now(secs(0.0)));
    let mut res = res.unwrap();
    l.commit(&mut res, Some(amount(500.0)), None);
    l.commit(&mut res, Some(amount(999.0)), None); // ignored
                                           // Used is 500, so 400 still fits but 600 does not.
    assert!(
        l.try_acquire("gpt-4o", &Acquire::new().tokens(amount(400.0)).now(secs(0.0)))
            .allowed
    );
    assert!(
        !l.try_acquire("gpt-4o", &Acquire::new().tokens(amount(600.0)).now(secs(0.0)))
            .allowed
    );
}
