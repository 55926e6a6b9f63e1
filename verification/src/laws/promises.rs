//! What the calls of the limiter promise, stated of what goes in and what comes out.

use super::admissions::cap_along;
use super::coverage::{
    caps_anything, counted, counted_together, covers, fits_under, fits_under_all, toughest,
};
use super::reservations::can_reconcile_all;
use crate::admission::{
    applicable, ask_key, ask_window, examined, reconciled, recorded, recorded_entries, surveyed,
    Ask,
};
use crate::clock::Clock;
use crate::fixed::sat;
use crate::limiter::{Acquire, Decision, Limiter, Reservation};
use crate::rules::LimitRule;
use crate::store::{Store, StoreModel};
use crate::window::{Handle, Usage, COST, REQUESTS, TOKENS};
use vstd::prelude::*;

verus! {

/// A call at a time.
pub open spec fn ask_of(a: Acquire, now: i64) -> Ask {
    Ask { tokens: a.tokens, cost: a.cost, tenant: a.tenant@, user: a.user@, now }
}

/// Whether a time is the one that a call pins or, if it pins none, one that the clock of
/// the limiter shows.
pub open spec fn time_of<S: Store, C: Clock>(l: Limiter<S, C>, a: Acquire, now: i64) -> bool {
    match a.now {
        Some(time) => now == time,
        None => call_ensures(C::now, (&l.time_source(),), now),
    }
}

/// Whether a limiter has the rules, the fallbacks and the clock of another.
pub open spec fn set_up_as<S: Store, C: Clock>(a: Limiter<S, C>, b: Limiter<S, C>) -> bool {
    &&& a.rule_list() == b.rule_list()
    &&& a.fallback_map() == b.fallback_map()
    &&& a.time_source() == b.time_source()
}

/// Whether what every rule reads, for everyone, is as before but for a use at a time that
/// counts once under every rule for a model that caps usage, for the callers that the rule
/// counts together with the one who asked.
pub open spec fn counts_once(
    rules: Seq<LimitRule>,
    model: Seq<char>,
    store: StoreModel,
    after: StoreModel,
    ask: Ask,
    used: Usage,
) -> bool {
    forall|place: usize, caller: Ask|
        place < rules.len() ==> #[trigger] ask_window(rules, place, after, caller) == if covers(
            rules[place as int],
            model,
        ) && caps_anything(rules[place as int]) && counted_together(
            rules[place as int].scope,
            ask,
            caller,
        ) {
            ask_window(rules, place, store, caller).added(ask.now, used)
        } else {
            ask_window(rules, place, store, caller)
        }
}

/// Whether what every rule reads, for everyone, is as before.
pub open spec fn counts_nothing(
    rules: Seq<LimitRule>,
    store: StoreModel,
    after: StoreModel,
) -> bool {
    forall|place: usize, caller: Ask|
        place < rules.len() ==> #[trigger] ask_window(rules, place, after, caller) == ask_window(
            rules,
            place,
            store,
            caller,
        )
}

/// What the cap of a rule leaves in one dimension: never less than nothing.
pub open spec fn left(
    rules: Seq<LimitRule>,
    i: int,
    store: StoreModel,
    ask: Ask,
    dim: usize,
) -> int {
    let room = sat(cap_along(rules[i], dim)->0 - counted(rules, i, store, ask, dim));
    if room < 0 {
        0
    } else {
        room
    }
}

/// Whether the headroom told under a name is the least that a rule for a model leaves in
/// one dimension; it is told if and only if some such rule caps the dimension.
pub open spec fn headroom_told(
    told: Map<Seq<char>, i128>,
    name: Seq<char>,
    rules: Seq<LimitRule>,
    model: Seq<char>,
    store: StoreModel,
    ask: Ask,
    dim: usize,
) -> bool {
    &&& told.contains_key(name) <==> exists|i: int|
        0 <= i < rules.len() && covers(#[trigger] rules[i], model) && cap_along(
            rules[i],
            dim,
        ) is Some
    &&& told.contains_key(name) ==> {
        &&& forall|i: int|
            0 <= i < rules.len() && covers(#[trigger] rules[i], model) && cap_along(
                rules[i],
                dim,
            ) is Some ==> told[name] <= left(rules, i, store, ask, dim)
        &&& exists|i: int|
            0 <= i < rules.len() && covers(#[trigger] rules[i], model) && cap_along(
                rules[i],
                dim,
            ) is Some && told[name] == left(rules, i, store, ask, dim)
    }
}

/// Whether a headroom is what the rules for a model leave in tokens, requests and cost.
pub open spec fn headrooms_told(
    told: Map<Seq<char>, i128>,
    rules: Seq<LimitRule>,
    model: Seq<char>,
    store: StoreModel,
    ask: Ask,
) -> bool {
    &&& headroom_told(told, "tokens"@, rules, model, store, ask, TOKENS)
    &&& headroom_told(told, "requests"@, rules, model, store, ask, REQUESTS)
    &&& headroom_told(told, "cost"@, rules, model, store, ask, COST)
    &&& forall|name: Seq<char>| #[trigger]
        told.contains_key(name) ==> name == "tokens"@ || name == "requests"@ || name == "cost"@
}

/// What an admission says.
pub open spec fn says_yes(model: Seq<char>, decision: Decision) -> bool {
    &&& decision.allowed
    &&& decision.model@ == model
    &&& decision.retry_after == 0
    &&& decision.tripped_rule is None
    &&& decision.scope is None
    &&& decision.suggested_fallback is None
}

/// What a refusal says: the toughest of the rules that the call does not fit under, how
/// long to wait for it, and the fallback of the model if it has one.
pub open spec fn says_no<S: Store, C: Clock>(
    l: Limiter<S, C>,
    model: Seq<char>,
    ask: Ask,
    decision: Decision,
) -> bool {
    &&& !decision.allowed
    &&& decision.model@ == model
    &&& decision.remaining@ == Map::<Seq<char>, i128>::empty()
    &&& exists|i: int|
        {
            &&& #[trigger] toughest(
                l.rule_list(),
                model,
                l.backing().model(),
                ask,
                i,
                decision.retry_after as int,
            )
            &&& decision.tripped_rule == Some(l.rule_list()[i])
            &&& decision.scope == Some(l.rule_list()[i].scope)
        }
    &&& match decision.suggested_fallback {
        Some(fallback) => l.fallback_map().contains_key(model) && fallback@
            == l.fallback_map()[model]@,
        None => !l.fallback_map().contains_key(model),
    }
}

/// Whether a decision on a call is right, and what it left behind: a call that fits under
/// every rule for its model is admitted and counts once, and any other is refused and
/// counts nowhere.
pub open spec fn rightly_decided<S: Store, C: Clock>(
    before: Limiter<S, C>,
    after: Limiter<S, C>,
    model: Seq<char>,
    ask: Ask,
    decision: Decision,
) -> bool {
    let (rules, store, then) = (
        before.rule_list(),
        before.backing().model(),
        after.backing().model(),
    );
    &&& set_up_as(after, before)
    &&& then.in_flight == store.in_flight
    &&& if fits_under_all(rules, model, store, ask) {
        &&& says_yes(model, decision)
        &&& headrooms_told(decision.remaining@, rules, model, then, ask)
        &&& counts_once(rules, model, store, then, ask, ask.used())
        &&& ask.used().tokens == ask.tokens
        &&& ask.used().requests == 1_000_000_000
        &&& ask.used().cost == ask.cost
    } else {
        &&& says_no(before, model, ask, decision)
        &&& counts_nothing(rules, store, then)
    }
}

/// The least that applicable rules leave is the least that covering rules leave.
proof fn lemma_headroom(
    rules: Seq<LimitRule>,
    model: Seq<char>,
    store: StoreModel,
    ask: Ask,
    dim: usize,
    name: Seq<char>,
)
    requires
        rules.len() <= usize::MAX,
        (name == "tokens"@ && dim == TOKENS) || (name == "requests"@ && dim == REQUESTS) || (name
            == "cost"@ && dim == COST),
    ensures
        headroom_told(
            surveyed(
                rules,
                applicable(rules, model),
                store,
                ask,
                applicable(rules, model).len() as int,
            ).room.named(),
            name,
            rules,
            model,
            store,
            ask,
            dim,
        ),
{
    let places = applicable(rules, model);
    let n = places.len() as int;
    let room = surveyed(rules, places, store, ask, n).room;
    let told = room.named();
    super::coverage::the_rules_that_apply_are_those_that_cover(rules, model);
    super::admissions::headroom_is_the_least_that_is_left(rules, places, store, ask, n, dim);
    super::admissions::lemma_named(room);
    assert forall|i: int| 0 <= i < rules.len() && covers(#[trigger] rules[i], model) && cap_along(
        rules[i],
        dim,
    ) is Some implies told.contains_key(name) && told[name] <= left(
        rules,
        i,
        store,
        ask,
        dim,
    ) by {
        assert(places.contains(i as usize));
        let p = choose|p: int| 0 <= p < places.len() && places[p] == i as usize;
        assert(cap_along(rules[places[p] as int], dim) is Some);
    }
    if told.contains_key(name) {
        let least = super::admissions::room_along(room, dim)->0;
        let p = choose|p: int|
            0 <= p < n && cap_along(rules[(#[trigger] places[p]) as int], dim) is Some && least
                == super::admissions::left_by(rules, places[p], store, ask, dim);
        let i = places[p] as int;
        assert(covers(rules[i], model));
        assert(told[name] == left(rules, i, store, ask, dim));
    }
}

/// No dimension but the three is told.
proof fn lemma_told_names(room: crate::admission::Headroom, name: Seq<char>)
    ensures
        room.named().contains_key(name) ==> name == "tokens"@ || name == "requests"@ || name
            == "cost"@,
{
}

/// Recording under every rule for a model counts a use once.
proof fn lemma_counts_once(
    rules: Seq<LimitRule>,
    model: Seq<char>,
    store: StoreModel,
    ask: Ask,
)
    requires
        rules.len() <= usize::MAX,
    ensures
        counts_once(
            rules,
            model,
            store,
            recorded(
                rules,
                applicable(rules, model),
                store,
                ask,
                applicable(rules, model).len() as int,
            ),
            ask,
            ask.used(),
        ),
        recorded(
            rules,
            applicable(rules, model),
            store,
            ask,
            applicable(rules, model).len() as int,
        ).in_flight == store.in_flight,
{
    let places = applicable(rules, model);
    let after = recorded(rules, places, store, ask, places.len() as int);
    assert forall|place: usize, caller: Ask| place < rules.len() implies #[trigger] ask_window(
        rules,
        place,
        after,
        caller,
    ) == if covers(rules[place as int], model) && caps_anything(rules[place as int])
        && counted_together(rules[place as int].scope, ask, caller) {
        ask_window(rules, place, store, caller).added(ask.now, ask.used())
    } else {
        ask_window(rules, place, store, caller)
    } by {
        super::coverage::a_recorded_call_counts_once_under_every_rule_for_it(
            rules,
            model,
            store,
            ask,
            place,
            caller,
        );
    }
    lemma_recorded_in_flight(rules, places, store, ask, places.len() as int);
}

proof fn lemma_recorded_in_flight(
    rules: Seq<LimitRule>,
    places: Seq<usize>,
    store: StoreModel,
    ask: Ask,
    n: int,
)
    ensures
        recorded(rules, places, store, ask, n).in_flight == store.in_flight,
        examined(rules, places, store, ask, n).store.in_flight == store.in_flight,
        surveyed(rules, places, store, ask, n).store.in_flight == store.in_flight,
    decreases n,
{
    if n > 0 {
        lemma_recorded_in_flight(rules, places, store, ask, n - 1);
    }
}

/// What the limiter decides is right.
proof fn lemma_rightly_decided<S: Store, C: Clock>(
    before: Limiter<S, C>,
    after: Limiter<S, C>,
    model: Seq<char>,
    ask: Ask,
    decision: Decision,
)
    requires
        S::obeys_model(),
        before.decided(after, model, ask, true, decision),
    ensures
        rightly_decided(before, after, model, ask, decision),
{
    let rules = before.rule_list();
    let places = before.applies(model);
    let n = places.len() as int;
    let store = before.backing().model();
    let found = before.findings(model, ask);
    let then = after.backing().model();
    before.lemma_rule_count();
    super::coverage::what_fits_under_every_rule_is_admitted(rules, model, store, ask);
    lemma_recorded_in_flight(rules, places, store, ask, n);
    if fits_under_all(rules, model, store, ask) {
        let kept = recorded(rules, places, found.store, ask, n);
        lemma_counts_once(rules, model, found.store, ask);
        lemma_recorded_in_flight(rules, places, kept, ask, n);
        assert forall|place: usize, caller: Ask| place < rules.len() implies #[trigger] ask_window(
            rules,
            place,
            then,
            caller,
        ) == if covers(rules[place as int], model) && caps_anything(rules[place as int])
            && counted_together(rules[place as int].scope, ask, caller) {
            ask_window(rules, place, store, caller).added(ask.now, ask.used())
        } else {
            ask_window(rules, place, store, caller)
        } by {
            super::coverage::looking_changes_nothing(rules, places, store, ask, place, caller);
            super::coverage::looking_changes_nothing(rules, places, kept, ask, place, caller);
            assert(ask_window(rules, place, kept, caller) == if covers(
                rules[place as int],
                model,
            ) && caps_anything(rules[place as int]) && counted_together(
                rules[place as int].scope,
                ask,
                caller,
            ) {
                ask_window(rules, place, found.store, caller).added(ask.now, ask.used())
            } else {
                ask_window(rules, place, found.store, caller)
            });
        }
        let told = decision.remaining@;
        assert(told == surveyed(rules, places, kept, ask, n).room.named());
        lemma_headroom(rules, model, kept, ask, TOKENS, "tokens"@);
        lemma_headroom(rules, model, kept, ask, REQUESTS, "requests"@);
        lemma_headroom(rules, model, kept, ask, COST, "cost"@);
        assert forall|i: int| 0 <= i < rules.len() implies #[trigger] ask_window(
            rules,
            i as usize,
            then,
            ask,
        ) == ask_window(rules, i as usize, kept, ask) by {
            super::coverage::looking_changes_nothing(rules, places, kept, ask, i as usize, ask);
        }
        lemma_same_headroom(told, "tokens"@, rules, model, kept, then, ask, TOKENS);
        lemma_same_headroom(told, "requests"@, rules, model, kept, then, ask, REQUESTS);
        lemma_same_headroom(told, "cost"@, rules, model, kept, then, ask, COST);
        assert forall|name: Seq<char>| #[trigger] told.contains_key(name) implies name
            == "tokens"@ || name == "requests"@ || name == "cost"@ by {
            lemma_told_names(surveyed(rules, places, kept, ask, n).room, name);
        }
    } else {
        super::coverage::a_refusal_tells_the_toughest_rule(rules, model, store, ask);
        let i = found.worst->0.place as int;
        assert(toughest(rules, model, store, ask, i, decision.retry_after as int));
        assert forall|place: usize, caller: Ask| place < rules.len() implies #[trigger] ask_window(
            rules,
            place,
            then,
            caller,
        ) == ask_window(rules, place, store, caller) by {
            super::coverage::looking_changes_nothing(rules, places, store, ask, place, caller);
        }
    }
}

/// A headroom that was told of one store is that of another that reads the same.
proof fn lemma_same_headroom(
    told: Map<Seq<char>, i128>,
    name: Seq<char>,
    rules: Seq<LimitRule>,
    model: Seq<char>,
    store: StoreModel,
    then: StoreModel,
    ask: Ask,
    dim: usize,
)
    requires
        rules.len() <= usize::MAX,
        headroom_told(told, name, rules, model, store, ask, dim),
        forall|i: int|
            0 <= i < rules.len() ==> #[trigger] ask_window(rules, i as usize, then, ask)
                == ask_window(rules, i as usize, store, ask),
    ensures
        headroom_told(told, name, rules, model, then, ask, dim),
{
    assert forall|i: int| 0 <= i < rules.len() implies #[trigger] left(rules, i, then, ask, dim)
        == left(rules, i, store, ask, dim) by {
        assert(ask_window(rules, i as usize, then, ask) == ask_window(
            rules,
            i as usize,
            store,
            ask,
        ));
    }
    if told.contains_key(name) {
        let i = choose|i: int|
            0 <= i < rules.len() && covers(#[trigger] rules[i], model) && cap_along(
                rules[i],
                dim,
            ) is Some && told[name] == left(rules, i, store, ask, dim);
        assert(told[name] == left(rules, i, then, ask, dim));
        assert(covers(rules[i], model));
    }
}

/// An acquisition is decided rightly, at the time that the call pins or that the clock
/// shows: it is admitted if and only if it fits under every rule for its model.
pub proof fn an_acquisition_is_decided_rightly<S: Store, C: Clock>(
    l: &mut Limiter<S, C>,
    model: &str,
    a: &Acquire,
    decision: Decision,
)
    requires
        S::obeys_model(),
        call_ensures(Limiter::<S, C>::try_acquire, (l, model, a), decision),
    ensures
        exists|now: i64|
            time_of(*old(l), *a, now) && #[trigger] rightly_decided(
                *old(l),
                *final(l),
                model@,
                ask_of(*a, now),
                decision,
            ),
{
    let now = choose|now: i64|
        l.taken_at(a.now, now) && l.decided(
            *final(l),
            model@,
            #[trigger] a.at(now),
            true,
            decision,
        );
    lemma_rightly_decided(*l, *final(l), model@, a.at(now), decision);
    assert(rightly_decided(*l, *final(l), model@, ask_of(*a, now), decision));
}

/// A run of calls is one that acquisitions make.
pub proof fn an_acquisition_makes_a_run<S: Store, C: Clock>(
    l: &mut Limiter<S, C>,
    model: &str,
    a: &Acquire,
    decision: Decision,
)
    requires
        call_ensures(Limiter::<S, C>::try_acquire, (l, model, a), decision),
    ensures
        exists|now: i64|
            time_of(*old(l), *a, now) && #[trigger] old(l).decided(
                *final(l),
                model@,
                ask_of(*a, now),
                true,
                decision,
            ),
{
    let now = choose|now: i64|
        l.taken_at(a.now, now) && l.decided(
            *final(l),
            model@,
            #[trigger] a.at(now),
            true,
            decision,
        );
    assert(l.decided(*final(l), model@, ask_of(*a, now), true, decision));
}

/// Whether no two entries are under one key.
pub open spec fn keys_differ(entries: Seq<(Seq<char>, Handle)>) -> bool {
    forall|i: int, j: int|
        0 <= i < j < entries.len() ==> (#[trigger] entries[i]).0 != (#[trigger] entries[j]).0
}

/// Whether a decision on a reservation is right, and what it left behind: as for an
/// acquisition, but that the headroom told is that before the call. The reservation holds
/// the estimates of the call.
pub open spec fn rightly_reserved<S: Store, C: Clock>(
    before: Limiter<S, C>,
    after: Limiter<S, C>,
    model: Seq<char>,
    ask: Ask,
    decision: Decision,
    reservation: Option<Reservation>,
) -> bool {
    let (rules, store, then) = (
        before.rule_list(),
        before.backing().model(),
        after.backing().model(),
    );
    &&& set_up_as(after, before)
    &&& then.in_flight == store.in_flight
    &&& if fits_under_all(rules, model, store, ask) {
        &&& says_yes(model, decision)
        &&& headrooms_told(decision.remaining@, rules, model, store, ask)
        &&& counts_once(rules, model, store, then, ask, ask.used())
        &&& reservation matches Some(reservation) && {
            &&& reservation.model@ == model
            &&& reservation.tokens == ask.tokens
            &&& reservation.cost == ask.cost
            &&& !reservation.committed
            &&& keys_differ(reservation.entries())
        }
    } else {
        &&& says_no(before, model, ask, decision)
        &&& counts_nothing(rules, store, then)
        &&& reservation is None
    }
}

/// The entries that a recorded call makes are under different keys.
proof fn lemma_keys_differ(
    rules: Seq<LimitRule>,
    places: Seq<usize>,
    store: StoreModel,
    ask: Ask,
    n: int,
)
    requires
        places.no_duplicates(),
        0 <= n <= places.len(),
    ensures
        keys_differ(recorded_entries(rules, places, store, ask, n)),
    decreases n,
{
    if n > 0 {
        lemma_keys_differ(rules, places, store, ask, n - 1);
        let fewer = recorded_entries(rules, places, store, ask, n - 1);
        let entries = recorded_entries(rules, places, store, ask, n);
        let key = ask_key(rules, places[n - 1], ask);
        assert forall|p: int| 0 <= p < n - 1 implies ask_key(rules, #[trigger] places[p], ask)
            != key by {
            super::admissions::lemma_other_key(rules, places[p], places[n - 1], ask);
        }
        super::reservations::lemma_entry_keys(rules, places, store, ask, n - 1, key);
        assert forall|i: int, j: int| 0 <= i < j < entries.len() implies (
        #[trigger] entries[i]).0 != (#[trigger] entries[j]).0 by {
            assert(entries[i] == fewer[i]);
            if j < fewer.len() {
                assert(entries[j] == fewer[j]);
            }
        }
    }
}

/// What the limiter reserves is right.
proof fn lemma_rightly_reserved<S: Store, C: Clock>(
    before: Limiter<S, C>,
    after: Limiter<S, C>,
    model: Seq<char>,
    ask: Ask,
    decision: Decision,
    reservation: Option<Reservation>,
)
    requires
        S::obeys_model(),
        before.reserved(after, model, ask, decision, reservation),
    ensures
        rightly_reserved(before, after, model, ask, decision, reservation),
{
    let rules = before.rule_list();
    let places = before.applies(model);
    let n = places.len() as int;
    let store = before.backing().model();
    let found = before.findings(model, ask);
    let kept = before.store_after(model, ask, false);
    let then = after.backing().model();
    before.lemma_rule_count();
    super::coverage::what_fits_under_every_rule_is_admitted(rules, model, store, ask);
    lemma_recorded_in_flight(rules, places, store, ask, n);
    lemma_recorded_in_flight(rules, places, found.store, ask, n);
    assert forall|place: usize, caller: Ask| place < rules.len() implies #[trigger] ask_window(
        rules,
        place,
        kept,
        caller,
    ) == ask_window(rules, place, store, caller) by {
        super::coverage::looking_changes_nothing(rules, places, store, ask, place, caller);
        super::coverage::looking_changes_nothing(rules, places, found.store, ask, place, caller);
    }
    if fits_under_all(rules, model, store, ask) {
        lemma_counts_once(rules, model, kept, ask);
        super::admissions::no_rule_applies_twice(rules, model);
        lemma_keys_differ(rules, places, kept, ask, n);
        assert(counts_once(rules, model, kept, then, ask, ask.used()));
        lemma_counts_once_from(rules, model, store, kept, then, ask, ask.used());
        let told = decision.remaining@;
        assert(told == surveyed(rules, places, found.store, ask, n).room.named());
        lemma_headroom(rules, model, found.store, ask, TOKENS, "tokens"@);
        lemma_headroom(rules, model, found.store, ask, REQUESTS, "requests"@);
        lemma_headroom(rules, model, found.store, ask, COST, "cost"@);
        assert forall|i: int| 0 <= i < rules.len() implies #[trigger] ask_window(
            rules,
            i as usize,
            store,
            ask,
        ) == ask_window(rules, i as usize, found.store, ask) by {
            super::coverage::looking_changes_nothing(rules, places, store, ask, i as usize, ask);
        }
        lemma_same_headroom(told, "tokens"@, rules, model, found.store, store, ask, TOKENS);
        lemma_same_headroom(told, "requests"@, rules, model, found.store, store, ask, REQUESTS);
        lemma_same_headroom(told, "cost"@, rules, model, found.store, store, ask, COST);
        assert forall|name: Seq<char>| #[trigger] told.contains_key(name) implies name
            == "tokens"@ || name == "requests"@ || name == "cost"@ by {
            lemma_told_names(surveyed(rules, places, found.store, ask, n).room, name);
        }
    } else {
        super::coverage::a_refusal_tells_the_toughest_rule(rules, model, store, ask);
        let i = found.worst->0.place as int;
        assert(toughest(rules, model, store, ask, i, decision.retry_after as int));
    }
}

/// What counts once beyond a store counts once beyond another that reads the same.
proof fn lemma_counts_once_from(
    rules: Seq<LimitRule>,
    model: Seq<char>,
    store: StoreModel,
    kept: StoreModel,
    then: StoreModel,
    ask: Ask,
    used: Usage,
)
    requires
        counts_nothing(rules, store, kept),
        counts_once(rules, model, kept, then, ask, used),
    ensures
        counts_once(rules, model, store, then, ask, used),
{
    assert forall|place: usize, caller: Ask| place < rules.len() implies #[trigger] ask_window(
        rules,
        place,
        then,
        caller,
    ) == if covers(rules[place as int], model) && caps_anything(rules[place as int])
        && counted_together(rules[place as int].scope, ask, caller) {
        ask_window(rules, place, store, caller).added(ask.now, used)
    } else {
        ask_window(rules, place, store, caller)
    } by {
        assert(ask_window(rules, place, kept, caller) == ask_window(rules, place, store, caller));
    }
}

/// A reservation is decided rightly, at the time that the call pins or that the clock
/// shows.
pub proof fn a_reservation_is_decided_rightly<S: Store, C: Clock>(
    l: &mut Limiter<S, C>,
    model: &str,
    a: &Acquire,
    result: (Decision, Option<Reservation>),
)
    requires
        S::obeys_model(),
        call_ensures(Limiter::<S, C>::reserve, (l, model, a), result),
    ensures
        exists|now: i64|
            time_of(*old(l), *a, now) && #[trigger] rightly_reserved(
                *old(l),
                *final(l),
                model@,
                ask_of(*a, now),
                result.0,
                result.1,
            ) && old(l).reserved(
                *final(l),
                model@,
                ask_of(*a, now),
                result.0,
                result.1,
            ),
{
    let now = choose|now: i64|
        l.taken_at(a.now, now) && l.reserved(
            *final(l),
            model@,
            #[trigger] a.at(now),
            result.0,
            result.1,
        );
    lemma_rightly_reserved(*l, *final(l), model@, a.at(now), result.0, result.1);
    assert(rightly_reserved(*l, *final(l), model@, ask_of(*a, now), result.0, result.1));
}

/// Whether every entry of a list was changed by the same amounts, and nothing else.
pub open spec fn entries_changed(
    store: StoreModel,
    after: StoreModel,
    entries: Seq<(Seq<char>, Handle)>,
    delta: Usage,
) -> bool {
    &&& after.in_flight == store.in_flight
    &&& after.windows.dom() == store.windows.dom()
    &&& forall|i: int|
        0 <= i < entries.len() && store.windows.contains_key((#[trigger] entries[i]).0)
            ==> after.windows[entries[i].0] == store.windows[entries[i].0].adjusted(
            entries[i].1,
            delta,
        )
    &&& forall|key: Seq<char>|
        (forall|i: int| 0 <= i < entries.len() ==> (#[trigger] entries[i]).0 != key)
            && store.windows.contains_key(key) ==> #[trigger] after.windows[key]
            == store.windows[key]
}

/// Changing the first entries of a list changes each of them once.
proof fn lemma_entries_changed(
    store: StoreModel,
    entries: Seq<(Seq<char>, Handle)>,
    delta: Usage,
    n: int,
)
    requires
        keys_differ(entries),
        0 <= n <= entries.len(),
    ensures
        entries_changed(store, reconciled(store, entries, delta, n), entries.take(n), delta),
    decreases n,
{
    let after = reconciled(store, entries, delta, n);
    if n > 0 {
        lemma_entries_changed(store, entries, delta, n - 1);
        let before = reconciled(store, entries, delta, n - 1);
        let (fewer, more) = (entries.take(n - 1), entries.take(n));
        let last = entries[n - 1];
        assert forall|i: int| 0 <= i < fewer.len() implies (#[trigger] fewer[i]).0 != last.0 by {
            assert(entries[i].0 != entries[n - 1].0);
        }
        assert(after.windows.dom() =~= store.windows.dom());
        if store.windows.contains_key(last.0) {
            assert(before.windows[last.0] == store.windows[last.0]);
        }
        assert forall|i: int|
            0 <= i < more.len() && store.windows.contains_key((#[trigger] more[i]).0) implies
            after.windows[more[i].0] == store.windows[more[i].0].adjusted(more[i].1, delta) by {
            if i < n - 1 {
                assert(fewer[i] == more[i]);
                assert(before.windows.contains_key(fewer[i].0));
            }
        }
        assert forall|key: Seq<char>|
            (forall|i: int| 0 <= i < more.len() ==> (#[trigger] more[i]).0 != key)
                && store.windows.contains_key(key) implies #[trigger] after.windows[key]
            == store.windows[key] by {
            assert(more[n - 1].0 != key);
            assert forall|i: int| 0 <= i < fewer.len() implies (#[trigger] fewer[i]).0 != key by {
                assert(more[i].0 != key);
            }
            assert(before.windows[key] == store.windows[key]);
        }
    } else {
        assert(after.windows.dom() =~= store.windows.dom());
    }
}

/// A commit changes every entry of an open reservation by what the actual figures differ
/// from the estimates, in tokens and in cost, and nothing else. The reservation is closed
/// and holds the actual figures. A figure that is not given stays, and a closed reservation
/// changes nothing.
pub proof fn a_commit_changes_every_entry<S: Store, C: Clock>(
    l: &mut Limiter<S, C>,
    r: &mut Reservation,
    tokens: Option<i128>,
    cost: Option<i128>,
)
    requires
        S::obeys_model(),
        call_ensures(Limiter::<S, C>::commit, (l, r, tokens, cost), ()),
        keys_differ(r.entries()),
        tokens matches Some(tokens) ==> i128::MIN <= tokens - r.tokens <= i128::MAX,
        cost matches Some(cost) ==> i128::MIN <= cost - r.cost <= i128::MAX,
    ensures
        set_up_as(*final(l), *old(l)),
        final(r).committed,
        old(r).committed ==> *final(l) == *old(l) && *final(r) == *old(r),
        !old(r).committed ==> {
            let tokens = match tokens {
                Some(tokens) => tokens,
                None => old(r).tokens,
            };
            let cost = match cost {
                Some(cost) => cost,
                None => old(r).cost,
            };
            &&& final(r).model == old(r).model
            &&& final(r).tokens == tokens
            &&& final(r).cost == cost
            &&& entries_changed(
                old(l).backing().model(),
                final(l).backing().model(),
                old(r).entries(),
                Usage {
                    tokens: (tokens - old(r).tokens) as i128,
                    requests: 0,
                    cost: (cost - old(r).cost) as i128,
                },
            )
        },
{
    if !r.committed {
        let entries = r.entries();
        let delta = Usage {
            tokens: crate::limiter::change_to(r.tokens, tokens),
            requests: 0,
            cost: crate::limiter::change_to(r.cost, cost),
        };
        lemma_entries_changed(l.backing().model(), entries, delta, entries.len() as int);
        assert(entries.take(entries.len() as int) =~= entries);
    }
}

/// A refund takes what an open reservation recorded out of every entry, its request too,
/// and changes nothing else. The reservation is closed, and a closed reservation changes
/// nothing.
pub proof fn a_refund_changes_every_entry<S: Store, C: Clock>(
    l: &mut Limiter<S, C>,
    r: &mut Reservation,
)
    requires
        S::obeys_model(),
        call_ensures(Limiter::<S, C>::refund, (l, r), ()),
        keys_differ(r.entries()),
        r.tokens > i128::MIN,
        r.cost > i128::MIN,
    ensures
        set_up_as(*final(l), *old(l)),
        final(r).committed,
        old(r).committed ==> *final(l) == *old(l) && *final(r) == *old(r),
        !old(r).committed ==> {
            &&& final(r).model == old(r).model
            &&& final(r).tokens == old(r).tokens
            &&& final(r).cost == old(r).cost
            &&& entries_changed(
                old(l).backing().model(),
                final(l).backing().model(),
                old(r).entries(),
                Usage {
                    tokens: (-old(r).tokens) as i128,
                    requests: (-1_000_000_000) as i128,
                    cost: (-old(r).cost) as i128,
                },
            )
        },
{
    if !r.committed {
        let entries = r.entries();
        let delta = Usage {
            tokens: (-r.tokens) as i128,
            requests: (-1_000_000_000) as i128,
            cost: (-r.cost) as i128,
        };
        lemma_entries_changed(l.backing().model(), entries, delta, entries.len() as int);
        assert(entries.take(entries.len() as int) =~= entries);
    }
}

/// A reservation that is committed counts once, as what was actually used, under every
/// rule for its model.
pub proof fn a_committed_call_counts_as_what_it_used<S: Store, C: Clock>(
    before: Limiter<S, C>,
    l: &mut Limiter<S, C>,
    r: &mut Reservation,
    model: Seq<char>,
    ask: Ask,
    decision: Decision,
    tokens: Option<i128>,
    cost: Option<i128>,
    used: Usage,
)
    requires
        S::obeys_model(),
        before.backing().model().wf(),
        before.reserved(*l, model, ask, decision, Some(*r)),
        call_ensures(Limiter::<S, C>::commit, (l, r, tokens, cost), ()),
        used == (Usage {
            tokens: match tokens {
                Some(tokens) => tokens,
                None => ask.tokens,
            },
            requests: 1_000_000_000,
            cost: match cost {
                Some(cost) => cost,
                None => ask.cost,
            },
        }),
        can_reconcile_all(
            before.rule_list(),
            before.applies(model),
            before.backing().model(),
            ask,
            used,
        ),
    ensures
        counts_once(
            before.rule_list(),
            model,
            before.backing().model(),
            final(l).backing().model(),
            ask,
            used,
        ),
        final(l).backing().model().in_flight == before.backing().model().in_flight,
{
    let rules = before.rule_list();
    let places = before.applies(model);
    let n = places.len() as int;
    let store = before.backing().model();
    let found = before.findings(model, ask).store;
    let kept = before.store_after(model, ask, false);
    let actual = Ask { tokens: used.tokens, cost: used.cost, ..ask };
    before.lemma_rule_count();
    assert(actual.used() == used);
    super::admissions::no_rule_applies_twice(rules, model);
    super::callers::lemma_admitted_reading(before, model, ask, used);
    super::reservations::committing_counts_the_actual_usage(
        rules,
        places,
        kept,
        ask,
        actual.tokens,
        actual.cost,
    );
    lemma_counts_once(rules, model, kept, actual);
    lemma_recorded_in_flight(rules, places, store, ask, n);
    lemma_recorded_in_flight(rules, places, found, ask, n);
    assert forall|place: usize, caller: Ask| place < rules.len() implies #[trigger] ask_window(
        rules,
        place,
        kept,
        caller,
    ) == ask_window(rules, place, store, caller) by {
        super::coverage::looking_changes_nothing(rules, places, store, ask, place, caller);
        super::coverage::looking_changes_nothing(rules, places, found, ask, place, caller);
    }
    let then = final(l).backing().model();
    assert(then == recorded(rules, places, kept, actual, n));
    lemma_counts_once_from(rules, model, store, kept, then, actual, used);
    assert forall|place: usize, caller: Ask| place < rules.len() implies #[trigger] ask_window(
        rules,
        place,
        then,
        caller,
    ) == if covers(rules[place as int], model) && caps_anything(rules[place as int])
        && counted_together(rules[place as int].scope, ask, caller) {
        ask_window(rules, place, store, caller).added(ask.now, used)
    } else {
        ask_window(rules, place, store, caller)
    } by {
        assert(counted_together(rules[place as int].scope, ask, caller) == counted_together(
            rules[place as int].scope,
            actual,
            caller,
        ));
    }
}

/// A reservation that is refunded leaves what every rule counts, for everyone, as it was
/// before, at the time of the call and later.
pub proof fn a_refunded_call_counts_for_nothing<S: Store, C: Clock>(
    before: Limiter<S, C>,
    l: &mut Limiter<S, C>,
    r: &mut Reservation,
    model: Seq<char>,
    ask: Ask,
    decision: Decision,
    place: usize,
    caller: Ask,
    later: i64,
)
    requires
        S::obeys_model(),
        before.backing().model().wf(),
        before.reserved(*l, model, ask, decision, Some(*r)),
        call_ensures(Limiter::<S, C>::refund, (l, r), ()),
        can_reconcile_all(
            before.rule_list(),
            before.applies(model),
            before.backing().model(),
            ask,
            Usage { tokens: 0, requests: 0, cost: 0 },
        ),
        ask.now <= later,
    ensures
        ask_window(before.rule_list(), place, final(l).backing().model(), caller).totals(later)
            == ask_window(before.rule_list(), place, before.backing().model(), caller).totals(
            later,
        ),
{
    before.lemma_rule_count();
    super::callers::a_refund_undoes_a_reservation(
        before,
        *l,
        *final(l),
        model,
        ask,
        decision,
        *r,
        crate::admission::ask_key(before.rule_list(), place, caller),
        before.rule_list()[place as int].window_seconds,
        before.rule_list()[place as int].width() as i64,
        later,
    );
}

/// Whether a choice between a model and its fallback is right. A call that fits under every
/// rule for the model asked for stays with it, and the fallback is not touched. Otherwise
/// the fallback is asked, if there is one, and chosen if the call fits under every rule for
/// it; if not, the refusal is that of the model asked for.
pub open spec fn rightly_chosen<S: Store, C: Clock>(
    before: Limiter<S, C>,
    after: Limiter<S, C>,
    model: Seq<char>,
    ask: Ask,
    again: Ask,
    decision: Decision,
    choice: Seq<char>,
) -> bool {
    let (rules, store) = (before.rule_list(), before.backing().model());
    if fits_under_all(rules, model, store, ask) || !before.fallback_map().contains_key(model) {
        &&& choice == model
        &&& rightly_decided(before, after, model, ask, decision)
    } else {
        let fallback = before.fallback_map()[model]@;
        if fits_under_all(rules, fallback, store, again) {
            &&& choice == fallback
            &&& rightly_decided(before, after, fallback, again, decision)
        } else {
            &&& choice == model
            &&& says_no(before, model, ask, decision)
            &&& set_up_as(after, before)
            &&& counts_nothing(rules, store, after.backing().model())
            &&& after.backing().model().in_flight == store.in_flight
        }
    }
}

/// What fits under every rule for a model still does in a store that reads the same.
proof fn lemma_same_fit(
    rules: Seq<LimitRule>,
    model: Seq<char>,
    store: StoreModel,
    then: StoreModel,
    ask: Ask,
)
    requires
        rules.len() <= usize::MAX,
        counts_nothing(rules, store, then),
    ensures
        fits_under_all(rules, model, then, ask) == fits_under_all(rules, model, store, ask),
{
    assert forall|i: int| 0 <= i < rules.len() implies #[trigger] fits_under(
        rules,
        i,
        then,
        ask,
    ) == fits_under(rules, i, store, ask) by {
        assert(ask_window(rules, i as usize, then, ask) == ask_window(
            rules,
            i as usize,
            store,
            ask,
        ));
    }
}

/// A choice between a model and its fallback is right, each at the time that the call pins
/// or that the clock shows.
pub proof fn a_fallback_is_only_for_a_refused_model<S: Store, C: Clock>(
    l: &mut Limiter<S, C>,
    model: &str,
    a: &Acquire,
    result: (Decision, String),
)
    requires
        S::obeys_model(),
        call_ensures(Limiter::<S, C>::acquire_or_fallback, (l, model, a), result),
    ensures
        exists|now: i64, later: i64|
            time_of(*old(l), *a, now) && time_of(*old(l), *a, later)
                && #[trigger] rightly_chosen(
                *old(l),
                *final(l),
                model@,
                ask_of(*a, now),
                ask_of(*a, later),
                result.0,
                result.1@,
            ),
{
    let (now, later, between, first, second): (
        i64,
        i64,
        Limiter<S, C>,
        Decision,
        Decision,
    ) = choose|
        now: i64,
        later: i64,
        between: Limiter<S, C>,
        first: Decision,
        second: Decision,
    |
        l.taken_at(a.now, now) && l.taken_at(a.now, later) && #[trigger] l.chosen(
            between,
            *final(l),
            model@,
            a.at(now),
            a.at(later),
            result.0,
            first,
            second,
            result.1@,
        );
    let before = *l;
    let after = *final(l);
    let rules = before.rule_list();
    let store = before.backing().model();
    let (ask, again) = (a.at(now), a.at(later));
    before.lemma_rule_count();
    lemma_rightly_decided(before, between, model@, ask, first);
    if !fits_under_all(rules, model@, store, ask) && before.fallback_map().contains_key(model@) {
        let fallback = before.fallback_map()[model@]@;
        let mid = between.backing().model();
        lemma_rightly_decided(between, after, fallback, again, second);
        lemma_same_fit(rules, fallback, store, mid, again);
        if fits_under_all(rules, fallback, store, again) {
            lemma_counts_once_from(
                rules,
                fallback,
                store,
                mid,
                after.backing().model(),
                again,
                again.used(),
            );
        } else {
            assert forall|place: usize, caller: Ask| place < rules.len() implies
                #[trigger] ask_window(rules, place, after.backing().model(), caller) == ask_window(
                rules,
                place,
                store,
                caller,
            ) by {
                assert(ask_window(rules, place, mid, caller) == ask_window(
                    rules,
                    place,
                    store,
                    caller,
                ));
            }
        }
    }
    assert(rightly_chosen(
        before,
        after,
        model@,
        ask_of(*a, now),
        ask_of(*a, later),
        result.0,
        result.1@,
    ));
}

} // verus!
