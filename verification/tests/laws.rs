//! One concrete case for each law of the library.

use quota_gate::{
    Acquire, Clock, Handle, InMemoryStore, LimitRule, Limiter, Listing, Scope, Store, COST,
    REQUESTS, TOKENS,
};

/// A quantity in billionths.
fn amount(x: f64) -> i128 {
    (x * 1e9).round() as i128
}

/// A time in billionths of a second.
fn secs(x: f64) -> i64 {
    (x * 1e9).round() as i64
}

fn call(tokens: f64, now: f64) -> Acquire {
    Acquire::new().tokens(amount(tokens)).now(secs(now))
}

fn tokens_at(store: &mut InMemoryStore, key: &str, now: f64) -> i128 {
    store.snapshot(key, secs(now), secs(60.0), secs(1.0)).0
}

#[test]
fn a_refund_leaves_every_total() {
    let mut l = Limiter::new(vec![
        LimitRule::new("m", secs(60.0)).max_tokens(amount(1000.0)),
        LimitRule::new("*", secs(3600.0))
            .max_cost(amount(5.0))
            .precise(true),
    ]);
    l.try_acquire("m", &call(100.0, 10.0).cost(amount(0.5)));
    let before_m = l.store_mut().snapshot("0|g", secs(12.0), secs(60.0), secs(1.0));
    let before_all = l.store_mut().snapshot("1|g", secs(12.0), secs(3600.0), secs(0.0));
    let (_, res) = l.reserve("m", &call(250.0, 12.0).cost(amount(1.0)));
    let mut res = res.unwrap();
    assert_ne!(
        l.store_mut().snapshot("0|g", secs(12.0), secs(60.0), secs(1.0)),
        before_m
    );
    l.refund(&mut res);
    assert!(res.committed);
    assert_eq!(
        l.store_mut().snapshot("0|g", secs(12.0), secs(60.0), secs(1.0)),
        before_m
    );
    assert_eq!(
        l.store_mut().snapshot("1|g", secs(12.0), secs(3600.0), secs(0.0)),
        before_all
    );
    // A second refund does nothing.
    l.refund(&mut res);
    assert_eq!(
        l.store_mut().snapshot("0|g", secs(12.0), secs(60.0), secs(1.0)),
        before_m
    );
}

#[test]
fn a_commit_counts_as_the_actual_usage() {
    let rules = || {
        vec![
            LimitRule::new("m", secs(60.0)).max_tokens(amount(1000.0)),
            LimitRule::new("m", secs(60.0))
                .max_tokens(amount(1000.0))
                .precise(true),
        ]
    };
    let mut reserved = Limiter::new(rules());
    let mut direct = Limiter::new(rules());
    let (_, res) = reserved.reserve("m", &call(800.0, 5.0).cost(amount(2.0)));
    let mut res = res.unwrap();
    reserved.commit(&mut res, Some(amount(120.0)), None);
    assert_eq!(res.tokens, amount(120.0));
    assert_eq!(res.cost, amount(2.0));
    direct.try_acquire("m", &call(120.0, 5.0).cost(amount(2.0)));
    for now in [5.0, 30.0, 64.5, 65.0, 66.0] {
        for (key, bucket) in [("0|g", 1.0), ("1|g", 0.0)] {
            assert_eq!(
                reserved
                    .store_mut()
                    .snapshot(key, secs(now), secs(60.0), secs(bucket)),
                direct
                    .store_mut()
                    .snapshot(key, secs(now), secs(60.0), secs(bucket))
            );
        }
    }
    // What is committed is frozen, for a refund too.
    reserved.refund(&mut res);
    assert_eq!(res.tokens, amount(120.0));
    assert_eq!(
        tokens_at(reserved.store_mut(), "0|g", 5.0),
        amount(120.0)
    );
}

#[test]
fn reconciling_may_come_after_other_calls() {
    let mut late = InMemoryStore::new();
    let mut early = InMemoryStore::new();
    let first = late.add("k", secs(1.0), secs(60.0), secs(1.0), [100, 1, 0]);
    late.add("k", secs(1.5), secs(60.0), secs(1.0), [7, 1, 0]);
    late.add("k", secs(9.0), secs(60.0), secs(1.0), [5, 1, 0]);
    late.adjust("k", &first, [-60, 0, 0]);
    let first = early.add("k", secs(1.0), secs(60.0), secs(1.0), [100, 1, 0]);
    early.adjust("k", &first, [-60, 0, 0]);
    early.add("k", secs(1.5), secs(60.0), secs(1.0), [7, 1, 0]);
    early.add("k", secs(9.0), secs(60.0), secs(1.0), [5, 1, 0]);
    for now in [9.0, 61.5, 70.0] {
        assert_eq!(
            late.snapshot("k", secs(now), secs(60.0), secs(1.0)),
            early.snapshot("k", secs(now), secs(60.0), secs(1.0))
        );
    }
}

#[test]
fn a_refusal_uses_nothing() {
    let mut l = Limiter::new(vec![
        LimitRule::new("m", secs(60.0)).max_tokens(amount(100.0)),
        LimitRule::new("m", secs(60.0)).max_requests(amount(10.0)),
    ]);
    assert!(l.try_acquire("m", &call(90.0, 0.0)).allowed);
    let d = l.try_acquire("m", &call(20.0, 0.0));
    assert!(!d.allowed);
    assert_eq!(d.remaining.len(), 0);
    assert_eq!(tokens_at(l.store_mut(), "0|g", 0.0), amount(90.0));
    assert_eq!(
        l.store_mut().snapshot("1|g", secs(0.0), secs(60.0), secs(1.0)).1,
        amount(1.0)
    );
    let (d, res) = l.reserve("m", &call(20.0, 0.0));
    assert!(!d.allowed && res.is_none());
    assert_eq!(tokens_at(l.store_mut(), "0|g", 0.0), amount(90.0));
}

#[test]
fn the_longest_wait_is_reported_first_come() {
    let mut l = Limiter::new(vec![
        LimitRule::new("m", secs(10.0))
            .max_requests(amount(1.0))
            .precise(true)
            .name("short"),
        LimitRule::new("m", secs(100.0))
            .max_requests(amount(1.0))
            .precise(true)
            .name("long"),
        LimitRule::new("*", secs(100.0))
            .max_requests(amount(1.0))
            .precise(true)
            .name("as long"),
    ]);
    assert!(l.try_acquire("m", &call(0.0, 0.0)).allowed);
    let d = l.try_acquire("m", &call(0.0, 4.0));
    assert!(!d.allowed);
    assert_eq!(d.retry_after, amount(96.0));
    assert_eq!(d.tripped_rule.unwrap().name.unwrap(), "long");
    assert_eq!(d.scope, Some(Scope::Global));
}

#[test]
fn waiting_as_told_clears_the_call_and_no_sooner_in_a_log() {
    let mut l = Limiter::new(vec![LimitRule::new("m", secs(60.0))
        .max_tokens(amount(100.0))
        .precise(true)]);
    l.try_acquire("m", &call(30.0, 0.0));
    l.try_acquire("m", &call(50.0, 10.0));
    l.try_acquire("m", &call(20.0, 20.0));
    let d = l.try_acquire("m", &call(70.0, 25.0));
    // 30 leave at 60 and 50 at 70: together they make room for 70.
    assert_eq!(d.retry_after, amount(45.0));
    let then = secs(25.0) + d.retry_after as i64;
    let early = Acquire::new().tokens(amount(70.0)).now(then - 1);
    assert!(!l.try_acquire("m", &early).allowed);
    let told = Acquire::new().tokens(amount(70.0)).now(then);
    assert!(l.try_acquire("m", &told).allowed);
}

#[test]
fn a_wait_for_a_partly_aged_bucket_is_long_enough() {
    // One bucket of ten seconds holds 100 tokens and is nine tenths aged: it counts for
    // 10, and its end gives back no more than that.
    let mut l = Limiter::new(vec![LimitRule::new("m", secs(60.0))
        .max_tokens(amount(100.0))
        .buckets_per_window(6)]);
    assert!(l.try_acquire("m", &call(100.0, 0.0)).allowed);
    assert!(l.try_acquire("m", &call(90.0, 69.0)).allowed);
    let d = l.try_acquire("m", &call(20.0, 69.0));
    assert!(!d.allowed);
    assert_eq!(d.retry_after, amount(61.0));
    assert!(!l.try_acquire("m", &call(20.0, 70.0)).allowed);
    let told = Acquire::new()
        .tokens(amount(20.0))
        .now(secs(69.0) + d.retry_after as i64);
    assert!(l.try_acquire("m", &told).allowed);
    // What the aged bucket still counts for is enough for a smaller call.
    let mut l = Limiter::new(vec![LimitRule::new("m", secs(60.0))
        .max_tokens(amount(100.0))
        .buckets_per_window(6)]);
    assert!(l.try_acquire("m", &call(100.0, 0.0)).allowed);
    assert!(l.try_acquire("m", &call(90.0, 69.0)).allowed);
    let d = l.try_acquire("m", &call(10.0, 69.0));
    assert_eq!(d.retry_after, amount(1.0));
    assert!(l.try_acquire("m", &call(10.0, 70.0)).allowed);
}

#[test]
fn a_call_larger_than_the_cap_waits_for_a_whole_window() {
    let mut l = Limiter::new(vec![LimitRule::new("m", secs(60.0)).max_tokens(amount(10.0))]);
    let d = l.try_acquire("m", &call(11.0, 0.0));
    assert!(!d.allowed);
    assert_eq!(d.retry_after, amount(60.0));
    assert!(!l.try_acquire("m", &call(11.0, 1000.0)).allowed);
}

#[test]
fn an_admitted_call_keeps_every_cap() {
    let mut l = Limiter::new(vec![LimitRule::new("m", secs(60.0))
        .max_tokens(amount(100.0))
        .max_cost(amount(1.0))]);
    for i in 0..50 {
        l.try_acquire("m", &call(7.0, i as f64 * 0.5).cost(amount(0.01)));
        let (t, _, c) = l.store_mut().snapshot(
            "0|g",
            secs(i as f64 * 0.5),
            secs(60.0),
            secs(1.0),
        );
        assert!(t <= amount(100.0) + 1);
        assert!(c <= amount(1.0) + 1);
    }
}

#[test]
fn the_slack_of_a_billionth_is_admitted() {
    let mut l = Limiter::new(vec![LimitRule::new("m", secs(60.0)).max_tokens(amount(1.0))]);
    let over = Acquire::new().tokens(amount(1.0) + 2).now(0);
    assert!(!l.try_acquire("m", &over).allowed);
    let slack = Acquire::new().tokens(amount(1.0) + 1).now(0);
    assert!(l.try_acquire("m", &slack).allowed);
}

#[test]
fn the_headroom_is_what_is_left() {
    let mut l = Limiter::new(vec![
        LimitRule::new("m", secs(60.0)).max_tokens(amount(100.0)),
        LimitRule::new("*", secs(60.0))
            .max_tokens(amount(70.0))
            .max_requests(amount(9.0)),
    ]);
    let d = l.try_acquire("m", &call(40.0, 0.0));
    assert_eq!(d.remaining.get("tokens"), Some(&amount(30.0)));
    assert_eq!(d.remaining.get("requests"), Some(&amount(8.0)));
    assert_eq!(d.remaining.get("cost"), None);
    assert!(!l.try_acquire("m", &call(30.1, 0.0)).allowed);
    assert!(l.try_acquire("m", &call(30.0, 0.0)).allowed);
    // A reservation tells the headroom before it is taken.
    let mut l = Limiter::new(vec![LimitRule::new("m", secs(60.0)).max_tokens(amount(100.0))]);
    let (d, _) = l.reserve("m", &call(40.0, 0.0));
    assert_eq!(d.remaining.get("tokens"), Some(&amount(100.0)));
}

#[test]
fn the_headroom_is_never_negative() {
    let mut l = Limiter::new(vec![LimitRule::new("m", secs(60.0)).max_tokens(amount(100.0))]);
    let (_, res) = l.reserve("m", &call(50.0, 0.0));
    l.commit(&mut res.unwrap(), Some(amount(500.0)), None);
    let d = l.try_acquire("m", &call(-450.0, 0.0));
    assert!(d.allowed);
    assert_eq!(d.remaining.get("tokens"), Some(&amount(50.0)));
    let mut l = Limiter::new(vec![LimitRule::new("m", secs(60.0)).max_requests(amount(1.0))]);
    l.store_mut()
        .add("0|g", 0, secs(60.0), secs(1.0), [0, amount(0.5), 0]);
    assert!(!l.try_acquire("m", &call(0.0, 0.0)).allowed);
}

#[test]
fn the_order_of_calls_does_not_matter() {
    for bucket in [0.0, 1.0, 7.0] {
        let mut a = InMemoryStore::new();
        let mut b = InMemoryStore::new();
        a.add("k", secs(3.0), secs(60.0), secs(bucket), [10, 1, 2]);
        a.add("k", secs(50.0), secs(60.0), secs(bucket), [5, 1, 0]);
        b.add("k", secs(50.0), secs(60.0), secs(bucket), [5, 1, 0]);
        b.add("k", secs(3.0), secs(60.0), secs(bucket), [10, 1, 2]);
        for now in [50.0, 63.0, 64.5, 65.0, 109.0, 120.0] {
            assert_eq!(
                a.snapshot("k", secs(now), secs(60.0), secs(bucket)),
                b.snapshot("k", secs(now), secs(60.0), secs(bucket))
            );
        }
    }
}

#[test]
fn buckets_and_log_differ_by_one_bucket_at_most() {
    let mut buckets = InMemoryStore::new();
    let mut log = InMemoryStore::new();
    let stamps = [0.2, 3.9, 4.1, 9.5, 12.0, 14.4, 19.9];
    for ts in stamps {
        buckets.add("k", secs(ts), secs(20.0), secs(5.0), [amount(1.0), 0, 0]);
        log.add("k", secs(ts), secs(20.0), secs(0.0), [amount(1.0), 0, 0]);
    }
    let mut differed = false;
    for tenth in 200..400 {
        let now = tenth as f64 / 10.0;
        let counted = buckets.snapshot("k", secs(now), secs(20.0), secs(5.0)).0;
        let exact = log.snapshot("k", secs(now), secs(20.0), secs(0.0)).0;
        let edge = ((now - 20.0) / 5.0).floor();
        let in_edge = stamps.iter().filter(|ts| (*ts / 5.0).floor() == edge).count();
        assert!((counted - exact).abs() <= amount(in_edge as f64));
        differed = differed || counted != exact;
    }
    assert!(differed);
}

#[test]
fn usage_counts_once_and_leaves_in_time() {
    let mut store = InMemoryStore::new();
    store.add("k", secs(10.0), secs(60.0), secs(1.0), [4, 1, 0]);
    store.add("k", secs(10.5), secs(60.0), secs(1.0), [6, 1, 0]);
    assert_eq!(tokens_at(&mut store, "k", 10.5), 10);
    assert_eq!(tokens_at(&mut store, "k", 70.0), 10);
    assert_eq!(tokens_at(&mut store, "k", 70.5), 5);
    assert_eq!(tokens_at(&mut store, "k", 71.0), 0);
}

#[test]
fn memory_is_unbounded_only_against_the_order_of_time() {
    let mut store = InMemoryStore::new();
    for i in 0..200 {
        store.add("k", secs(-(i as f64) * 100.0), secs(60.0), secs(1.0), [1, 1, 0]);
    }
    assert_eq!(store.total_buckets(), 200);
    store.add("k", secs(1000.0), secs(60.0), secs(1.0), [1, 1, 0]);
    assert_eq!(store.total_buckets(), 1);
    store.add("log", secs(0.0), secs(60.0), secs(0.0), [1, 1, 0]);
    assert_eq!(store.total_buckets(), 1);
}

#[test]
fn slots_are_all_or_nothing() {
    let mut l = Limiter::new(vec![
        LimitRule::new("m", secs(60.0)).max_concurrent(3),
        LimitRule::new("*", secs(60.0))
            .max_concurrent(1)
            .name("one at a time"),
    ]);
    let mut a = l.acquire_slot("m", &Acquire::new());
    assert!(a.ok && a.tripped_rule.is_none());
    assert_eq!(l.store().concurrency("conc|0|g"), 1);
    assert_eq!(l.store().concurrency("conc|1|g"), 1);
    let b = l.acquire_slot("m", &Acquire::new());
    assert!(!b.ok);
    assert_eq!(b.tripped_rule.unwrap().name.unwrap(), "one at a time");
    assert_eq!(l.store().concurrency("conc|0|g"), 1);
    assert_eq!(l.store().concurrency("conc|1|g"), 1);
    l.release_slot(&mut a);
    assert_eq!(l.store().concurrency("conc|0|g"), 0);
    assert_eq!(l.store().concurrency("conc|1|g"), 0);
    // Releasing again gives nothing back, and no count falls below zero.
    l.release_slot(&mut a);
    l.store_mut().release_concurrency("conc|0|g");
    assert_eq!(l.store().concurrency("conc|0|g"), 0);
    assert_eq!(l.store().concurrency("never seen"), 0);
}

#[test]
fn a_limit_of_zero_admits_no_slot() {
    let mut store = InMemoryStore::new();
    assert!(!store.try_add_concurrency("k", 0));
    assert!(!store.try_add_concurrency("k", -1));
    assert!(store.try_add_concurrency("k", 1));
    assert!(!store.try_add_concurrency("k", 1));
    assert_eq!(store.concurrency("k"), 1);
}

#[test]
fn rules_of_one_model_do_not_share_counters() {
    let mut l = Limiter::new(vec![
        LimitRule::new("m", secs(60.0)).max_requests(amount(1.0)),
        LimitRule::new("other", secs(60.0)).max_requests(amount(1.0)),
    ]);
    assert!(l.try_acquire("m", &call(0.0, 0.0)).allowed);
    assert!(l.try_acquire("other", &call(0.0, 0.0)).allowed);
    assert!(!l.try_acquire("m", &call(0.0, 0.0)).allowed);
}

#[test]
fn a_bar_in_a_name_does_not_merge_users() {
    let mut l = Limiter::new(vec![LimitRule::new("m", secs(60.0))
        .max_requests(amount(1.0))
        .scope(Scope::User)]);
    let callers = [("a|b", "c"), ("a", "b|c"), ("a\\", "b|c"), ("a\\|b", "c"), ("a", "c")];
    for (tenant, user) in callers {
        let ask = Acquire::new().tenant(tenant).user(user).now(0);
        assert!(l.try_acquire("m", &ask).allowed);
        assert!(!l.try_acquire("m", &ask).allowed);
    }
    // A bar or a backslash in a tenant's name is told from the bar after it.
    let requests = |l: &mut Limiter<InMemoryStore>, key: &str| {
        l.store_mut().snapshot(key, 0, secs(60.0), secs(1.0)).1
    };
    assert_eq!(requests(&mut l, "0|u|a\\|b|c"), amount(1.0));
    assert_eq!(requests(&mut l, "0|u|a|b|c"), amount(1.0));
    assert_eq!(requests(&mut l, "0|u|a\\\\|b|c"), amount(1.0));
    assert_eq!(requests(&mut l, "0|u|a\\\\\\|b|c"), amount(1.0));
    assert_eq!(requests(&mut l, "0|u|a|c"), amount(1.0));
}

#[test]
fn the_model_named_star_counts_once() {
    let mut l = Limiter::new(vec![LimitRule::new("*", secs(60.0))
        .max_requests(amount(2.0))
        .max_concurrent(1)]);
    let d = l.try_acquire("*", &call(0.0, 0.0));
    assert_eq!(d.remaining.get("requests"), Some(&amount(1.0)));
    assert_eq!(
        l.store_mut().snapshot("0|g", 0, secs(60.0), secs(1.0)).1,
        amount(1.0)
    );
    assert!(l.try_acquire("anything", &call(0.0, 0.0)).allowed);
    assert!(!l.try_acquire("*", &call(0.0, 0.0)).allowed);
    assert!(l.acquire_slot("*", &Acquire::new()).ok);
    assert_eq!(l.store().concurrency("conc|0|g"), 1);
    assert!(!l.acquire_slot("*", &Acquire::new()).ok);
}

#[test]
fn a_denied_fallback_reports_the_first_denial() {
    let mut fallbacks = Listing::new();
    fallbacks.insert("big".to_string(), "small".to_string());
    let mut l = Limiter::new(vec![
        LimitRule::new("big", secs(60.0))
            .max_requests(amount(0.0))
            .name("big cap"),
        LimitRule::new("small", secs(60.0)).max_requests(amount(1.0)),
    ])
    .with_fallbacks(fallbacks);
    let (d, chosen) = l.acquire_or_fallback("big", &call(0.0, 0.0));
    assert!(d.allowed);
    assert_eq!((chosen.as_str(), d.model.as_str()), ("small", "small"));
    let (d, chosen) = l.acquire_or_fallback("big", &call(0.0, 0.0));
    assert!(!d.allowed);
    assert_eq!(chosen, "big");
    assert_eq!(d.tripped_rule.unwrap().name.unwrap(), "big cap");
    assert_eq!(d.suggested_fallback.unwrap(), "small");
    let (d, chosen) = l.acquire_or_fallback("small", &call(0.0, 0.0));
    assert!(!d.allowed && d.suggested_fallback.is_none());
    assert_eq!(chosen, "small");
}

#[test]
fn handles_name_entries() {
    let mut store = InMemoryStore::new();
    assert_eq!(
        store.add("b", secs(-0.5), secs(60.0), secs(1.0), [1, 1, 1]),
        Handle::Bucket(-1)
    );
    assert_eq!(
        store.add("l", secs(5.0), secs(60.0), secs(0.0), [1, 1, 1]),
        Handle::Precise(0)
    );
    assert_eq!(
        store.add("l", secs(4.0), secs(60.0), secs(0.0), [2, 1, 1]),
        Handle::Precise(1)
    );
    // A handle that names nothing, or belongs to another engine, changes nothing.
    let before = store.snapshot("l", secs(5.0), secs(60.0), secs(0.0));
    store.adjust("l", &Handle::Precise(7), [9, 9, 9]);
    store.adjust("l", &Handle::Bucket(5), [9, 9, 9]);
    store.adjust("nowhere", &Handle::Bucket(5), [9, 9, 9]);
    assert_eq!(store.snapshot("l", secs(5.0), secs(60.0), secs(0.0)), before);
    store.adjust("l", &Handle::Precise(1), [-2, 0, 0]);
    assert_eq!(
        store.snapshot("l", secs(5.0), secs(60.0), secs(0.0)),
        (1, 2, 2)
    );
}

#[test]
fn waits_follow_each_dimension() {
    let mut store = InMemoryStore::new();
    store.add("k", secs(0.0), secs(60.0), secs(10.0), [5, 0, 2]);
    store.add("k", secs(10.0), secs(60.0), secs(10.0), [0, 3, 2]);
    let now = secs(20.0);
    let (w, b) = (secs(60.0), secs(10.0));
    assert_eq!(store.time_to_free("k", now, w, b, 5, TOKENS), amount(50.0));
    assert_eq!(store.time_to_free("k", now, w, b, 3, REQUESTS), amount(60.0));
    assert_eq!(store.time_to_free("k", now, w, b, 3, COST), amount(50.0));
    assert_eq!(store.time_to_free("k", now, w, b, 4, COST), amount(60.0));
    assert_eq!(store.time_to_free("k", now, w, b, 99, TOKENS), amount(60.0));
    assert_eq!(store.time_to_free("new", now, w, b, 1, TOKENS), amount(60.0));
}

/// A clock that always shows the same time.
struct Stopped(i64);

impl Clock for Stopped {
    fn now(&self) -> i64 {
        self.0
    }
}

#[test]
fn a_call_without_a_time_takes_the_clock() {
    let rule = || {
        vec![LimitRule::new("m", secs(60.0))
            .max_requests(amount(1.0))
            .precise(true)]
    };
    let mut l = Limiter::new(rule()).with_clock(Stopped(secs(100.0)));
    assert!(l.try_acquire("m", &Acquire::new()).allowed);
    let d = l.try_acquire("m", &Acquire::new().now(secs(130.0)));
    assert_eq!(d.retry_after, amount(30.0));
    // The wall clock is the default; two calls in a row fall into one window.
    let mut l = Limiter::new(rule());
    assert!(l.try_acquire("m", &Acquire::default()).allowed);
    let d = l.try_acquire("m", &Acquire::default());
    assert!(!d.allowed);
    assert!(d.retry_after > 0 && d.retry_after <= amount(60.0));
}

/// A store that counts nothing and refuses every slot.
struct Nothing;

impl Store for Nothing {
    fn snapshot(&mut self, _: &str, _: i64, _: i64, _: i64) -> (i128, i128, i128) {
        (0, 0, 0)
    }

    fn add(&mut self, _: &str, _: i64, _: i64, _: i64, _: [i128; 3]) -> Handle {
        Handle::Bucket(0)
    }

    fn adjust(&mut self, _: &str, _: &Handle, _: [i128; 3]) {}

    fn time_to_free(&mut self, _: &str, _: i64, _: i64, _: i64, _: i128, _: usize) -> i128 {
        0
    }

    fn concurrency(&self, _: &str) -> i64 {
        0
    }

    fn try_add_concurrency(&mut self, _: &str, _: i64) -> bool {
        false
    }

    fn release_concurrency(&mut self, _: &str) {}
}

#[test]
fn another_store_can_be_plugged_in() {
    let mut l = Limiter::new(vec![LimitRule::new("m", secs(60.0))
        .max_requests(amount(1.0))
        .max_concurrent(5)])
    .with_store(Nothing);
    for _ in 0..5 {
        assert!(l.try_acquire("m", &call(0.0, 0.0)).allowed);
    }
    assert!(!l.acquire_slot("m", &Acquire::new()).ok);
    assert_eq!(l.store().total_buckets(), 0);
}

#[test]
fn a_reservation_uses_what_an_acquisition_does() {
    let rules = || {
        vec![
            LimitRule::new("m", secs(60.0))
                .max_tokens(amount(100.0))
                .buckets_per_window(6),
            LimitRule::new("*", secs(60.0))
                .max_cost(amount(1.0))
                .scope(Scope::Tenant)
                .precise(true),
        ]
    };
    let mut acquired = Limiter::new(rules());
    let mut reserved = Limiter::new(rules());
    for i in 0..20 {
        let ask = call(23.0, i as f64 * 7.0).cost(amount(0.2)).tenant("t");
        let d = acquired.try_acquire("m", &ask);
        let (e, res) = reserved.reserve("m", &ask);
        assert_eq!(d.allowed, e.allowed);
        assert_eq!(d.allowed, res.is_some());
        assert_eq!(d.retry_after, e.retry_after);
        for (key, bucket) in [("0|g", 10.0), ("1|t|t", 0.0)] {
            let now = secs(i as f64 * 7.0);
            assert_eq!(
                acquired.store_mut().snapshot(key, now, secs(60.0), secs(bucket)),
                reserved.store_mut().snapshot(key, now, secs(60.0), secs(bucket))
            );
        }
    }
}

#[test]
fn an_adjustment_shifts_the_totals() {
    for bucket in [0.0, 10.0] {
        let mut store = InMemoryStore::new();
        let (w, b) = (secs(60.0), secs(bucket));
        store.add("k", secs(3.0), w, b, [5, 1, 2]);
        let entry = store.add("k", secs(12.0), w, b, [40, 1, 8]);
        let before = store.snapshot("k", secs(30.0), w, b);
        store.adjust("k", &entry, [-15, 0, 7]);
        assert_eq!(
            store.snapshot("k", secs(30.0), w, b),
            (before.0 - 15, before.1, before.2 + 7)
        );
    }
}

#[test]
fn buckets_count_the_prorated_sum() {
    let mut store = InMemoryStore::new();
    let (w, b) = (secs(60.0), secs(10.0));
    store.add("k", secs(1.0), w, b, [60, 0, 0]);
    store.add("k", secs(9.0), w, b, [40, 0, 0]);
    store.add("k", secs(15.0), w, b, [7, 0, 0]);
    // The window opens at 2.5: three quarters of the first bucket lie inside.
    assert_eq!(store.snapshot("k", secs(62.5), w, b).0, 75 + 7);
    assert_eq!(store.snapshot("k", secs(60.0), w, b).0, 107);
    assert_eq!(store.snapshot("k", secs(70.0), w, b).0, 7);
}

#[test]
fn what_is_admitted_stays_within_the_cap_and_one_bucket() {
    let mut l = Limiter::new(vec![LimitRule::new("m", secs(60.0))
        .max_requests(amount(10.0))
        .buckets_per_window(6)]);
    let mut admitted: Vec<f64> = Vec::new();
    let mut most = 0;
    for i in 0..400 {
        let now = i as f64 * 0.7;
        if l.try_acquire("m", &call(0.0, now)).allowed {
            admitted.push(now);
            let opens = now - 60.0;
            let counted = admitted.iter().filter(|ts| **ts > opens).count();
            let edge = (opens / 10.0).floor();
            let cut = admitted.iter().filter(|ts| (**ts / 10.0).floor() == edge).count();
            assert!(counted <= 10 + cut);
            most = most.max(counted);
        }
    }
    // The cut bucket does make a difference.
    assert!(most > 10);
}

#[test]
fn what_is_admitted_precisely_stays_within_the_cap() {
    let mut l = Limiter::new(vec![LimitRule::new("m", secs(10.0))
        .max_requests(amount(4.0))
        .scope(Scope::Tenant)
        .precise(true)]);
    let mut admitted: Vec<(usize, i64)> = Vec::new();
    for i in 0..300 {
        let now = secs(i as f64 * 0.9);
        let ask = Acquire::new().tenant(["a", "b"][i % 2]).now(now);
        if l.try_acquire("m", &ask).allowed {
            admitted.push((i % 2, now));
        }
    }
    for t in 0..300 {
        for tenant in [0, 1] {
            let (lo, hi) = (secs(t as f64) - secs(10.0), secs(t as f64));
            let counted = admitted
                .iter()
                .filter(|(who, ts)| *who == tenant && *ts > lo && *ts <= hi)
                .count();
            assert!(counted <= 4);
        }
    }
    assert!(admitted.len() > 100);
}

#[test]
fn a_scope_reads_back() {
    for scope in [Scope::Global, Scope::Tenant, Scope::User] {
        assert_eq!(scope.as_str().parse::<Scope>().unwrap(), scope);
        let shouted = scope.as_str().to_uppercase();
        assert_eq!(shouted.parse::<Scope>().unwrap(), scope);
    }
}
