//! What a caller of the limiter can rely on from one call to the next.

use super::reservations::can_reconcile_all;
use super::retries::can_clear;
use super::windows::can_reconcile;
use crate::admission::{
    ask_added, ask_key, ask_touched, ask_window, examined, reconciled, recorded, surveyed, Ask,
};
use crate::clock::Clock;
use crate::fixed::{sat, UNIT};
use crate::limiter::{change_to, Decision, Limiter, Reservation};
use crate::rules::LimitRule;
use crate::store::{Store, StoreModel};
use crate::window::Usage;
use vstd::prelude::*;

verus! {

/// A denied call that is made again once it has waited as long as the denial told, or
/// longer, is admitted, if nothing was recorded meanwhile: provided that it fits under
/// every cap alone and that no amount is negative.
pub proof fn a_denied_call_is_admitted_after_its_wait<S: Store, C: Clock>(
    before: Limiter<S, C>,
    between: Limiter<S, C>,
    after: Limiter<S, C>,
    model: Seq<char>,
    ask: Ask,
    later: i64,
    record: bool,
    record_later: bool,
    first: Decision,
    second: Decision,
)
    requires
        S::obeys_model(),
        before.backing().model().wf(),
        before.decided(between, model, ask, record, first),
        !first.allowed,
        ask.now + first.retry_after <= later,
        between.decided(after, model, Ask { now: later, ..ask }, record_later, second),
        forall|p: int|
            0 <= p < before.applies(model).len() && before.rule_list()[(
            #[trigger] before.applies(model)[p]) as int].caps_usage() ==> can_clear(
                before.rule_list()[before.applies(model)[p] as int],
                ask_window(
                    before.rule_list(),
                    before.applies(model)[p],
                    before.backing().model(),
                    ask,
                ),
                ask,
            ),
    ensures
        second.allowed,
{
    super::retries::waiting_as_told_clears_the_call(
        before.rule_list(),
        before.applies(model),
        before.backing().model(),
        ask,
        later,
    );
}

/// A denied call that is made again one bucket before the wait that the denial told is over,
/// under an exact log one moment, or earlier, is denied again, if nothing was recorded
/// meanwhile: provided that it fits under the caps of the rule that denied it alone, and
/// that no amount is negative.
pub proof fn a_denied_call_is_denied_before_its_wait<S: Store, C: Clock>(
    before: Limiter<S, C>,
    between: Limiter<S, C>,
    after: Limiter<S, C>,
    model: Seq<char>,
    ask: Ask,
    later: i64,
    record: bool,
    record_later: bool,
    first: Decision,
    second: Decision,
    place: usize,
)
    requires
        S::obeys_model(),
        before.backing().model().wf(),
        before.decided(between, model, ask, record, first),
        !first.allowed,
        before.findings(model, ask).worst matches Some(worst) && worst.place == place,
        ask.now <= later,
        later + super::waiting::grain(
            ask_window(before.rule_list(), place, before.backing().model(), ask),
        ) <= ask.now + first.retry_after,
        between.decided(after, model, Ask { now: later, ..ask }, record_later, second),
        can_clear(
            before.rule_list()[place as int],
            ask_window(before.rule_list(), place, before.backing().model(), ask),
            ask,
        ),
    ensures
        !second.allowed,
{
    super::retries::no_call_is_told_to_wait_too_long(
        before.rule_list(),
        before.applies(model),
        before.backing().model(),
        ask,
        later,
    );
}

/// Which windows are looked up does not depend on how much is asked for, or when.
proof fn lemma_same_lookups(
    rules: Seq<LimitRule>,
    places: Seq<usize>,
    store: StoreModel,
    ask: Ask,
    other: Ask,
    n: int,
)
    requires
        super::decisions::same_caller(ask, other),
    ensures
        examined(rules, places, store, ask, n).store == examined(
            rules,
            places,
            store,
            other,
            n,
        ).store,
        surveyed(rules, places, store, ask, n).store == surveyed(
            rules,
            places,
            store,
            other,
            n,
        ).store,
    decreases n,
{
    if n > 0 {
        lemma_same_lookups(rules, places, store, ask, other, n - 1);
    }
}

/// Looking windows up for a survey changes no total and no count of calls in flight.
proof fn lemma_survey_uses_nothing(
    rules: Seq<LimitRule>,
    places: Seq<usize>,
    store: StoreModel,
    ask: Ask,
    n: int,
    key: Seq<char>,
    window: i64,
    bucket: i64,
    now: i64,
)
    ensures
        surveyed(rules, places, store, ask, n).store.window_for(key, window, bucket).totals(now)
            == store.window_for(key, window, bucket).totals(now),
    decreases n,
{
    if n > 0 {
        lemma_survey_uses_nothing(
            rules,
            places,
            store,
            ask,
            n - 1,
            key,
            window,
            bucket,
            now,
        );
        let place = places[n - 1];
        super::decisions::lemma_touched_total(
            surveyed(rules, places, store, ask, n - 1).store,
            ask_key(rules, place, ask),
            rules[place as int].window_seconds,
            rules[place as int].width() as i64,
            key,
            window,
            bucket,
            now,
        );
    }
}

/// A denial leaves every total, under every key and at any time, as it was.
pub proof fn a_denial_uses_nothing<S: Store, C: Clock>(
    before: Limiter<S, C>,
    after: Limiter<S, C>,
    model: Seq<char>,
    ask: Ask,
    record: bool,
    decision: Decision,
    key: Seq<char>,
    window: i64,
    bucket: i64,
    now: i64,
)
    requires
        S::obeys_model(),
        before.decided(after, model, ask, record, decision),
        !decision.allowed,
    ensures
        after.backing().model().window_for(key, window, bucket).totals(now)
            == before.backing().model().window_for(key, window, bucket).totals(now),
        after.backing().model().in_flight == before.backing().model().in_flight,
{
    super::decisions::a_refusal_uses_nothing(
        before.rule_list(),
        before.applies(model),
        before.backing().model(),
        ask,
        before.applies(model).len() as int,
        key,
        window,
        bucket,
        now,
    );
}

/// A window that is looked up after a call was recorded might as well be looked up
/// before.
proof fn lemma_touched_before(
    rules: Seq<LimitRule>,
    places: Seq<usize>,
    store: StoreModel,
    ask: Ask,
    n: int,
    place: usize,
)
    ensures
        ask_touched(rules, place, recorded(rules, places, store, ask, n), ask) == recorded(
            rules,
            places,
            ask_touched(rules, place, store, ask),
            ask,
            n,
        ),
    decreases n,
{
    if n > 0 {
        lemma_touched_before(rules, places, store, ask, n - 1, place);
        let before = recorded(rules, places, store, ask, n - 1);
        let other = places[n - 1];
        if other != place {
            super::admissions::lemma_other_key(rules, other, place, ask);
        }
        assert(ask_touched(rules, place, ask_added(rules, other, before, ask), ask) =~= ask_added(
            rules,
            other,
            ask_touched(rules, place, before, ask),
            ask,
        ));
    }
}

/// Surveying the headroom and recording a call can be done in either order.
proof fn lemma_surveyed_before(
    rules: Seq<LimitRule>,
    places: Seq<usize>,
    store: StoreModel,
    ask: Ask,
    n: int,
    m: int,
)
    ensures
        surveyed(rules, places, recorded(rules, places, store, ask, n), ask, m).store == recorded(
            rules,
            places,
            surveyed(rules, places, store, ask, m).store,
            ask,
            n,
        ),
    decreases m,
{
    if m > 0 {
        lemma_surveyed_before(rules, places, store, ask, n, m - 1);
        lemma_touched_before(
            rules,
            places,
            surveyed(rules, places, store, ask, m - 1).store,
            ask,
            n,
            places[m - 1],
        );
    }
}

/// A reservation is decided as an acquisition at that time would be, and leaves the store
/// exactly as that would.
pub proof fn a_reservation_uses_what_an_acquisition_does<S: Store, C: Clock>(
    before: Limiter<S, C>,
    acquired: Limiter<S, C>,
    reserved: Limiter<S, C>,
    model: Seq<char>,
    ask: Ask,
    decision: Decision,
    other_decision: Decision,
    reservation: Option<Reservation>,
)
    requires
        S::obeys_model(),
        before.decided(acquired, model, ask, true, decision),
        before.reserved(reserved, model, ask, other_decision, reservation),
    ensures
        decision.allowed == other_decision.allowed,
        decision.allowed == (reservation is Some),
        !decision.allowed ==> decision.retry_after == other_decision.retry_after
            && decision.tripped_rule == other_decision.tripped_rule,
        acquired.backing().model() == reserved.backing().model(),
{
    let places = before.applies(model);
    let n = places.len() as int;
    lemma_surveyed_before(
        before.rule_list(),
        places,
        before.findings(model, ask).store,
        ask,
        n,
        n,
    );
}

/// Looking windows up keeps a store well formed.
proof fn lemma_lookups_keep_well_formed(
    rules: Seq<LimitRule>,
    places: Seq<usize>,
    store: StoreModel,
    ask: Ask,
    n: int,
)
    requires
        store.wf(),
    ensures
        examined(rules, places, store, ask, n).store.wf(),
        surveyed(rules, places, store, ask, n).store.wf(),
    decreases n,
{
    if n > 0 {
        lemma_lookups_keep_well_formed(rules, places, store, ask, n - 1);
    }
}

/// What a rule reads is the same before a call and once it was admitted, if it was not
/// recorded, and so it can be reconciled as before.
pub proof fn lemma_admitted_reading<S: Store, C: Clock>(
    before: Limiter<S, C>,
    model: Seq<char>,
    ask: Ask,
    actual: Usage,
)
    requires
        before.backing().model().wf(),
        can_reconcile_all(
            before.rule_list(),
            before.applies(model),
            before.backing().model(),
            ask,
            actual,
        ),
    ensures
        before.store_after(model, ask, false).wf(),
        can_reconcile_all(
            before.rule_list(),
            before.applies(model),
            before.store_after(model, ask, false),
            ask,
            actual,
        ),
{
    let rules = before.rule_list();
    let places = before.applies(model);
    let n = places.len() as int;
    let store = before.backing().model();
    let found = before.findings(model, ask).store;
    lemma_lookups_keep_well_formed(rules, places, store, ask, n);
    lemma_lookups_keep_well_formed(rules, places, found, ask, n);
    let after = before.store_after(model, ask, false);
    assert forall|p: int|
        0 <= p < places.len() && rules[(#[trigger] places[p]) as int].caps_usage() implies
        can_reconcile(
        ask_window(rules, places[p], after, ask),
        ask.now,
        ask.used(),
        actual,
    ) by {
        super::decisions::lemma_reading(rules, places, store, ask, n, places[p], ask);
        super::admissions::lemma_survey_reading(rules, places, found, ask, n, places[p], ask);
    }
}

/// A reservation that is committed to its actual figures leaves the store exactly as a
/// reservation on those figures would have left it.
pub proof fn a_commit_is_a_reservation_on_the_actual_figures<S: Store, C: Clock>(
    before: Limiter<S, C>,
    reserved: Limiter<S, C>,
    committed: Limiter<S, C>,
    model: Seq<char>,
    ask: Ask,
    decision: Decision,
    reservation: Reservation,
    tokens: Option<i128>,
    cost: Option<i128>,
    actual: Ask,
    direct: Limiter<S, C>,
    direct_decision: Decision,
    direct_reservation: Reservation,
)
    requires
        S::obeys_model(),
        before.reserved(reserved, model, ask, decision, Some(reservation)),
        committed.backing().model() == reconciled(
            reserved.backing().model(),
            reservation.entries(),
            Usage {
                tokens: change_to(reservation.tokens, tokens),
                requests: 0,
                cost: change_to(reservation.cost, cost),
            },
            reservation.entries().len() as int,
        ),
        actual == (Ask {
            tokens: match tokens {
                Some(tokens) => tokens,
                None => ask.tokens,
            },
            cost: match cost {
                Some(cost) => cost,
                None => ask.cost,
            },
            ..ask
        }),
        before.reserved(direct, model, actual, direct_decision, Some(direct_reservation)),
        before.backing().model().wf(),
        before.rule_list().len() <= usize::MAX,
        can_reconcile_all(
            before.rule_list(),
            before.applies(model),
            before.backing().model(),
            ask,
            actual.used(),
        ),
    ensures
        committed.backing().model() == direct.backing().model(),
{
    let rules = before.rule_list();
    let places = before.applies(model);
    let n = places.len() as int;
    let found = before.findings(model, ask).store;
    lemma_same_lookups(rules, places, before.backing().model(), ask, actual, n);
    lemma_same_lookups(rules, places, found, ask, actual, n);
    assert(before.store_after(model, ask, false) == before.store_after(model, actual, false));
    super::admissions::no_rule_applies_twice(rules, model);
    lemma_admitted_reading(before, model, ask, actual.used());
    super::reservations::committing_counts_the_actual_usage(
        rules,
        places,
        before.store_after(model, ask, false),
        ask,
        actual.tokens,
        actual.cost,
    );
}

/// A reservation that is refunded leaves every total, at the time of the call and later,
/// as it was before the reservation.
pub proof fn a_refund_undoes_a_reservation<S: Store, C: Clock>(
    before: Limiter<S, C>,
    reserved: Limiter<S, C>,
    refunded: Limiter<S, C>,
    model: Seq<char>,
    ask: Ask,
    decision: Decision,
    reservation: Reservation,
    key: Seq<char>,
    window: i64,
    bucket: i64,
    later: i64,
)
    requires
        S::obeys_model(),
        before.reserved(reserved, model, ask, decision, Some(reservation)),
        refunded.backing().model() == reconciled(
            reserved.backing().model(),
            reservation.entries(),
            Usage {
                tokens: sat(-reservation.tokens) as i128,
                requests: (-UNIT) as i128,
                cost: sat(-reservation.cost) as i128,
            },
            reservation.entries().len() as int,
        ),
        ask.now <= later,
        before.backing().model().wf(),
        before.rule_list().len() <= usize::MAX,
        can_reconcile_all(
            before.rule_list(),
            before.applies(model),
            before.backing().model(),
            ask,
            Usage::none(),
        ),
    ensures
        refunded.backing().model().window_for(key, window, bucket).totals(later)
            == before.backing().model().window_for(key, window, bucket).totals(later),
{
    let rules = before.rule_list();
    let places = before.applies(model);
    let n = places.len() as int;
    let store = before.backing().model();
    super::admissions::no_rule_applies_twice(rules, model);
    lemma_admitted_reading(before, model, ask, Usage::none());
    super::reservations::refunding_leaves_every_total(
        rules,
        places,
        before.store_after(model, ask, false),
        ask,
        key,
        window,
        bucket,
        later,
    );
    super::decisions::a_refusal_uses_nothing(
        rules,
        places,
        store,
        ask,
        n,
        key,
        window,
        bucket,
        later,
    );
    lemma_survey_uses_nothing(
        rules,
        places,
        before.findings(model, ask).store,
        ask,
        n,
        key,
        window,
        bucket,
        later,
    );
}

} // verus!
