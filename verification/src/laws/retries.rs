//! Laws of retrying: a refused call that waits as long as it was told is admitted.

use super::decisions::refuses;
use super::waiting::{fits_alone, never_negative, unsaturated};
use crate::admission::{ask_window, breaches, examined, excess, rule_wait, Ask};
use crate::fixed::{SLACK, UNIT};
use crate::rules::LimitRule;
use crate::store::StoreModel;
use crate::window::{WindowModel, COST, REQUESTS, TOKENS};
use vstd::prelude::*;

verus! {

/// Whether waiting can clear a call of one cap: the call fits under the cap alone, and no
/// amount in the window is negative.
pub open spec fn cap_can_clear(
    window: WindowModel,
    now: i64,
    cap: Option<i128>,
    asked: i128,
    dim: usize,
) -> bool {
    match cap {
        Some(cap) => {
            &&& never_negative(window, dim)
            &&& unsaturated(window, dim)
            &&& fits_alone(cap, asked)
            &&& window.totals(now).along(dim) + asked < i128::MAX
        },
        None => true,
    }
}

/// Whether waiting can clear a call of a rule.
pub open spec fn can_clear(rule: LimitRule, window: WindowModel, ask: Ask) -> bool {
    &&& cap_can_clear(window, ask.now, rule.max_tokens, ask.tokens, TOKENS)
    &&& cap_can_clear(window, ask.now, rule.max_requests, UNIT, REQUESTS)
    &&& cap_can_clear(window, ask.now, rule.max_cost, ask.cost, COST)
}

/// A cap that can clear is clear once its wait is over.
proof fn lemma_cap_clears(
    window: WindowModel,
    now: i64,
    cap: Option<i128>,
    asked: i128,
    dim: usize,
    later: i64,
)
    requires
        window.wf(),
        cap_can_clear(window, now, cap, asked, dim),
        now <= later,
        excess(cap, window.totals(now).along(dim), asked) matches Some(over) ==> now
            + window.wait(now, over as int, dim) <= later,
    ensures
        excess(cap, window.totals(later).along(dim), asked) is None,
{
    if let Some(limit) = cap {
        let used = window.totals(now).along(dim);
        super::waiting::usage_only_ages(window, now, later, dim);
        if excess(cap, used, asked) is Some {
            super::waiting::waiting_clears_a_cap(window, now, limit, asked, dim, later);
        }
    }
}

/// A window of a well-formed store is well formed.
proof fn lemma_window_wf(rules: Seq<LimitRule>, place: usize, store: StoreModel, ask: Ask)
    requires
        store.wf(),
    ensures
        ask_window(rules, place, store, ask).wf(),
{
}

/// A call that was refused is admitted once it has waited as long as it was told, or
/// longer, if nothing else was recorded meanwhile: provided that it fits under every cap
/// alone and that no amount is negative.
pub proof fn waiting_as_told_clears_the_call(
    rules: Seq<LimitRule>,
    places: Seq<usize>,
    store: StoreModel,
    ask: Ask,
    later: i64,
)
    requires
        store.wf(),
        examined(rules, places, store, ask, places.len() as int).worst matches Some(worst)
            && ask.now + worst.wait <= later,
        forall|p: int|
            0 <= p < places.len() && rules[(#[trigger] places[p]) as int].caps_usage()
                ==> can_clear(
                rules[places[p] as int],
                ask_window(rules, places[p], store, ask),
                ask,
            ),
    ensures
        examined(
            rules,
            places,
            examined(rules, places, store, ask, places.len() as int).store,
            Ask { now: later, ..ask },
            places.len() as int,
        ).worst is None,
{
    let n = places.len() as int;
    let worst = examined(rules, places, store, ask, n).worst->0;
    let after = examined(rules, places, store, ask, n).store;
    let again = Ask { now: later, ..ask };
    super::decisions::the_toughest_rule_wins(rules, places, store, ask);
    let first = choose|p: int| 0 <= p < n && #[trigger] places[p] == worst.place;
    super::decisions::a_call_must_clear_every_rule(rules, places, after, again);
    assert forall|p: int| 0 <= p < n implies !refuses(
        rules,
        #[trigger] places[p],
        after,
        again,
    ) by {
        let place = places[p];
        let rule = rules[place as int];
        let window = ask_window(rules, place, store, ask);
        super::decisions::lemma_reading(rules, places, store, ask, n, place, again);
        assert(ask_window(rules, place, after, again) == window);
        lemma_window_wf(rules, place, store, ask);
        if rule.caps_usage() {
            let used = window.totals(ask.now);
            let found = breaches(&rule, used, ask.tokens, ask.cost);
            if refuses(rules, places[p], store, ask) {
                assert(rule_wait(&rule, window, ask)->0 <= worst.wait);
            }
            assert(worst.wait >= 0);
            lemma_cap_clears(window, ask.now, rule.max_tokens, ask.tokens, TOKENS, later);
            lemma_cap_clears(window, ask.now, rule.max_requests, UNIT, REQUESTS, later);
            lemma_cap_clears(window, ask.now, rule.max_cost, ask.cost, COST, later);
        }
    }
}

/// A call that an exact log refused for the longest is refused at any earlier time too:
/// the wait it was told is not a moment too long.
pub proof fn a_log_does_not_make_a_call_wait_too_long(
    rules: Seq<LimitRule>,
    places: Seq<usize>,
    store: StoreModel,
    ask: Ask,
    later: i64,
)
    requires
        store.wf(),
        examined(rules, places, store, ask, places.len() as int).worst matches Some(worst) && {
            &&& ask.now <= later < ask.now + worst.wait
            &&& ask_window(rules, worst.place, store, ask) is Log
            &&& can_clear(
                rules[worst.place as int],
                ask_window(rules, worst.place, store, ask),
                ask,
            )
        },
    ensures
        examined(
            rules,
            places,
            examined(rules, places, store, ask, places.len() as int).store,
            Ask { now: later, ..ask },
            places.len() as int,
        ).worst is Some,
{
    let n = places.len() as int;
    let worst = examined(rules, places, store, ask, n).worst->0;
    let after = examined(rules, places, store, ask, n).store;
    let again = Ask { now: later, ..ask };
    super::decisions::the_toughest_rule_wins(rules, places, store, ask);
    let p = choose|p: int|
        {
            &&& 0 <= p < places.len()
            &&& #[trigger] places[p] == worst.place
            &&& refuses(rules, places[p], store, ask)
            &&& rule_wait(
                &rules[places[p] as int],
                ask_window(rules, places[p], store, ask),
                ask,
            ) == Some(worst.wait)
        };
    let place = places[p];
    let rule = rules[place as int];
    let window = ask_window(rules, place, store, ask);
    super::decisions::a_call_must_clear_every_rule(rules, places, after, again);
    super::decisions::lemma_reading(rules, places, store, ask, n, place, again);
    lemma_window_wf(rules, place, store, ask);
    lemma_cap_still_refuses(window, ask.now, rule.max_tokens, ask.tokens, TOKENS, later);
    lemma_cap_still_refuses(window, ask.now, rule.max_requests, UNIT, REQUESTS, later);
    lemma_cap_still_refuses(window, ask.now, rule.max_cost, ask.cost, COST, later);
    assert(refuses(rules, places[p], after, again));
}

/// Before the wait for a cap is over, a log still refuses.
proof fn lemma_cap_still_refuses(
    window: WindowModel,
    now: i64,
    cap: Option<i128>,
    asked: i128,
    dim: usize,
    later: i64,
)
    requires
        window is Log,
        window.wf(),
        cap_can_clear(window, now, cap, asked, dim),
        now <= later,
    ensures
        excess(cap, window.totals(now).along(dim), asked) matches Some(over) ==> later < now
            + window.wait(now, over as int, dim) ==> excess(
            cap,
            window.totals(later).along(dim),
            asked,
        ) is Some,
{
    if let Some(limit) = cap {
        if excess(cap, window.totals(now).along(dim), asked) is Some {
            super::waiting::a_log_waits_exactly_as_long_as_needed(
                window,
                now,
                limit,
                asked,
                dim,
                later,
            );
        }
    }
}

/// One step before the wait for a cap is over, and at any time before that, the cap still
/// refuses.
proof fn lemma_cap_refuses_early(
    window: WindowModel,
    now: i64,
    cap: Option<i128>,
    asked: i128,
    dim: usize,
    later: i64,
)
    requires
        window.wf(),
        cap_can_clear(window, now, cap, asked, dim),
        now <= later,
    ensures
        excess(cap, window.totals(now).along(dim), asked) matches Some(over) ==> later
            + super::waiting::grain(window) <= now + window.wait(now, over as int, dim) ==> excess(
            cap,
            window.totals(later).along(dim),
            asked,
        ) is Some,
{
    if let Some(limit) = cap {
        let used = window.totals(now).along(dim);
        if excess(cap, used, asked) is Some {
            let over = excess(cap, used, asked)->0 as int;
            super::waiting::usage_only_ages(window, now, later, dim);
            super::waiting::usage_only_ages(window, now, now, dim);
            if later + super::waiting::grain(window) <= now + window.wait(now, over, dim) {
                super::waiting::a_wait_is_not_too_long(window, now, over, dim, later);
            }
        }
    }
}

/// A call is not told to wait too long: one bucket before the wait that it was told is over,
/// under an exact log one moment, and at any time before that, it is still refused.
pub proof fn no_call_is_told_to_wait_too_long(
    rules: Seq<LimitRule>,
    places: Seq<usize>,
    store: StoreModel,
    ask: Ask,
    later: i64,
)
    requires
        store.wf(),
        examined(rules, places, store, ask, places.len() as int).worst matches Some(worst) && {
            &&& ask.now <= later
            &&& later + super::waiting::grain(ask_window(rules, worst.place, store, ask))
                <= ask.now + worst.wait
            &&& can_clear(
                rules[worst.place as int],
                ask_window(rules, worst.place, store, ask),
                ask,
            )
        },
    ensures
        examined(
            rules,
            places,
            examined(rules, places, store, ask, places.len() as int).store,
            Ask { now: later, ..ask },
            places.len() as int,
        ).worst is Some,
{
    let n = places.len() as int;
    let worst = examined(rules, places, store, ask, n).worst->0;
    let after = examined(rules, places, store, ask, n).store;
    let again = Ask { now: later, ..ask };
    super::decisions::the_toughest_rule_wins(rules, places, store, ask);
    let p = choose|p: int|
        {
            &&& 0 <= p < places.len()
            &&& #[trigger] places[p] == worst.place
            &&& refuses(rules, places[p], store, ask)
            &&& rule_wait(
                &rules[places[p] as int],
                ask_window(rules, places[p], store, ask),
                ask,
            ) == Some(worst.wait)
        };
    let place = places[p];
    let rule = rules[place as int];
    let window = ask_window(rules, place, store, ask);
    super::decisions::a_call_must_clear_every_rule(rules, places, after, again);
    super::decisions::lemma_reading(rules, places, store, ask, n, place, again);
    lemma_window_wf(rules, place, store, ask);
    lemma_cap_refuses_early(window, ask.now, rule.max_tokens, ask.tokens, TOKENS, later);
    lemma_cap_refuses_early(window, ask.now, rule.max_requests, UNIT, REQUESTS, later);
    lemma_cap_refuses_early(window, ask.now, rule.max_cost, ask.cost, COST, later);
    assert(super::waiting::grain(window) >= 1);
    assert(refuses(rules, places[p], after, again));
}

/// Whether a call is larger than a cap, in a dimension in which nothing is negative.
pub open spec fn larger_than(
    window: WindowModel,
    cap: Option<i128>,
    asked: i128,
    dim: usize,
) -> bool {
    &&& cap is Some
    &&& asked > cap->0 + SLACK
    &&& never_negative(window, dim)
    &&& unsaturated(window, dim)
}

proof fn lemma_larger(
    window: WindowModel,
    cap: Option<i128>,
    asked: i128,
    now: i64,
    dim: usize,
)
    requires
        window.wf(),
    ensures
        larger_than(window, cap, asked, dim) ==> excess(
            cap,
            window.totals(now).along(dim),
            asked,
        ) is Some,
{
    if larger_than(window, cap, asked, dim) {
        super::waiting::usage_only_ages(window, now, now, dim);
    }
}

/// A call that is larger than a cap is refused whatever was used before, and whenever it
/// comes, where no amount is negative: there is nothing to wait for.
pub proof fn a_call_larger_than_a_cap_is_always_refused(
    rules: Seq<LimitRule>,
    places: Seq<usize>,
    store: StoreModel,
    ask: Ask,
    p: int,
)
    requires
        store.wf(),
        0 <= p < places.len(),
        ({
            let rule = rules[places[p] as int];
            let window = ask_window(rules, places[p], store, ask);
            ||| larger_than(window, rule.max_tokens, ask.tokens, TOKENS)
            ||| larger_than(window, rule.max_requests, UNIT, REQUESTS)
            ||| larger_than(window, rule.max_cost, ask.cost, COST)
        }),
    ensures
        examined(rules, places, store, ask, places.len() as int).worst is Some,
{
    let window = ask_window(rules, places[p], store, ask);
    lemma_window_wf(rules, places[p], store, ask);
    lemma_larger(window, rules[places[p] as int].max_tokens, ask.tokens, ask.now, TOKENS);
    lemma_larger(window, rules[places[p] as int].max_requests, UNIT, ask.now, REQUESTS);
    lemma_larger(window, rules[places[p] as int].max_cost, ask.cost, ask.now, COST);
    super::decisions::a_call_must_clear_every_rule(rules, places, store, ask);
    assert(refuses(rules, places[p], store, ask));
}

} // verus!
