//! Laws of concurrency slots: no more than the limit, and what is taken can be given
//! back.

use super::coverage::{comes_before, counted_together, covers};
use crate::admission::{
    applicable, occurrences, slot_free, slot_key, slot_keys, slots_held, slots_returned, Ask,
};
use crate::clock::Clock;
use crate::limiter::{Acquire, Limiter, Slot};
use crate::rules::LimitRule;
use crate::store::{Store, StoreModel};
use vstd::prelude::*;

verus! {

/// Taking a slot never brings the calls in flight beyond the limit, and giving one back
/// never below zero.
pub proof fn a_count_stays_within_its_limit(store: StoreModel, key: Seq<char>, limit: i64)
    requires
        store.wf(),
    ensures
        store.in_flight[key] <= limit ==> store.slot_taken(key, limit).in_flight[key] <= limit,
        store.slot_taken(key, limit).wf(),
        store.slot_returned(key).in_flight[key] >= 0,
        store.slot_returned(key).wf(),
{
}

/// Giving back every slot that was taken for a call leaves the store as it was before.
pub proof fn what_was_taken_can_be_given_back(store: StoreModel, keys: Seq<Seq<char>>)
    requires
        store.wf(),
    ensures
        slots_returned(slots_held(store, keys), keys, keys.len() as int) == store,
{
    crate::admission::lemma_all_slots_returned(store, keys);
}

/// A call that gets its slots leaves the calls in flight within the limit of every rule
/// that applies to it.
pub proof fn slots_stay_within_every_limit(
    rules: Seq<LimitRule>,
    places: Seq<usize>,
    store: StoreModel,
    ask: Ask,
    n: int,
    p: int,
)
    requires
        store.wf(),
        0 <= p < n <= places.len(),
        forall|q: int| 0 <= q < n ==> #[trigger] slot_free(rules, places, store, ask, q),
        rules[places[p] as int].max_concurrent is Some,
    ensures
        slots_held(store, slot_keys(rules, places, ask, n)).in_flight[slot_key(
            places[p] as nat,
            rules[places[p] as int].scope,
            ask.tenant,
            ask.user,
        )] <= rules[places[p] as int].max_concurrent->0,
    decreases n,
{
    let place = places[p];
    let key = slot_key(place as nat, rules[place as int].scope, ask.tenant, ask.user);
    let last = places[n - 1];
    let before = slot_keys(rules, places, ask, n - 1);
    assert(slot_free(rules, places, store, ask, n - 1));
    if rules[last as int].max_concurrent is Some {
        let taken = slot_key(last as nat, rules[last as int].scope, ask.tenant, ask.user);
        assert(before.push(taken).drop_last() =~= before);
        if last != place {
            super::keys::rules_do_not_share_keys(
                last as nat,
                rules[last as int].scope,
                ask.tenant,
                ask.user,
                place as nat,
                rules[place as int].scope,
                ask.tenant,
                ask.user,
            );
            slots_stay_within_every_limit(rules, places, store, ask, n - 1, p);
        }
    } else {
        slots_stay_within_every_limit(rules, places, store, ask, n - 1, p);
    }
}

/// How many calls are in flight for a caller under the rule at a place.
pub open spec fn in_flight_for(
    rules: Seq<LimitRule>,
    i: int,
    store: StoreModel,
    caller: Ask,
) -> int {
    store.in_flight[slot_key(i as nat, rules[i].scope, caller.tenant, caller.user)]
}

/// Whether a rule is for a model and caps its calls in flight.
pub open spec fn caps_slots(rule: LimitRule, model: Seq<char>) -> bool {
    covers(rule, model) && rule.max_concurrent is Some
}

/// Whether a rule is for a model and has no slot left for a caller.
pub open spec fn full(
    rules: Seq<LimitRule>,
    i: int,
    model: Seq<char>,
    store: StoreModel,
    caller: Ask,
) -> bool {
    &&& caps_slots(rules[i], model)
    &&& in_flight_for(rules, i, store, caller) >= rules[i].max_concurrent->0
}

/// Whether a key is that of some rule for a model that caps the calls in flight.
pub open spec fn slot_key_of_some(
    rules: Seq<LimitRule>,
    model: Seq<char>,
    ask: Ask,
    key: Seq<char>,
) -> bool {
    exists|i: int|
        0 <= i < rules.len() && caps_slots(#[trigger] rules[i], model) && key == slot_key(
            i as nat,
            rules[i].scope,
            ask.tenant,
            ask.user,
        )
}

/// Callers have one slot key of a rule if and only if the rule counts them together, and
/// different rules have different slot keys.
pub proof fn slot_keys_tell_budgets_apart(
    rules: Seq<LimitRule>,
    i: usize,
    j: usize,
    a: Ask,
    b: Ask,
)
    ensures
        slot_key(i as nat, rules[i as int].scope, a.tenant, a.user) == slot_key(
            j as nat,
            rules[j as int].scope,
            b.tenant,
            b.user,
        ) <==> i == j && counted_together(rules[i as int].scope, a, b),
{
    if i == j {
        super::coverage::keys_tell_budgets_apart(rules, i, a, b);
        super::keys::slots_are_keyed_as_usage_is(
            i as nat,
            rules[i as int].scope,
            a.tenant,
            a.user,
            b.tenant,
            b.user,
        );
    } else {
        super::keys::rules_do_not_share_keys(
            i as nat,
            rules[i as int].scope,
            a.tenant,
            a.user,
            j as nat,
            rules[j as int].scope,
            b.tenant,
            b.user,
        );
    }
}

/// The slot keys of the first applicable rules are those of the ones that cap the calls in
/// flight, each once.
proof fn lemma_slot_keys(
    rules: Seq<LimitRule>,
    places: Seq<usize>,
    ask: Ask,
    n: int,
    key: Seq<char>,
)
    requires
        places.no_duplicates(),
        0 <= n <= places.len(),
    ensures
        slot_keys(rules, places, ask, n).no_duplicates(),
        slot_keys(rules, places, ask, n).contains(key) <==> exists|p: int|
            0 <= p < n && rules[(#[trigger] places[p]) as int].max_concurrent is Some && key
                == slot_key(
                places[p] as nat,
                rules[places[p] as int].scope,
                ask.tenant,
                ask.user,
            ),
        occurrences(slot_keys(rules, places, ask, n), key) == if slot_keys(
            rules,
            places,
            ask,
            n,
        ).contains(key) {
            1int
        } else {
            0int
        },
    decreases n,
{
    if n > 0 {
        let place = places[n - 1];
        let before = slot_keys(rules, places, ask, n - 1);
        let last = slot_key(place as nat, rules[place as int].scope, ask.tenant, ask.user);
        lemma_slot_keys(rules, places, ask, n - 1, key);
        lemma_slot_keys(rules, places, ask, n - 1, last);
        if rules[place as int].max_concurrent is Some {
            let after = before.push(last);
            assert(after.drop_last() =~= before);
            if before.contains(last) {
                let p = choose|p: int|
                    0 <= p < n - 1 && rules[(#[trigger] places[p]) as int].max_concurrent is Some
                        && last == slot_key(
                        places[p] as nat,
                        rules[places[p] as int].scope,
                        ask.tenant,
                        ask.user,
                    );
                slot_keys_tell_budgets_apart(rules, places[p], place, ask, ask);
                assert(places[p] == places[n - 1]);
            }
            assert(after[after.len() - 1] == last);
            assert(after.contains(key) <==> before.contains(key) || key == last) by {
                if before.contains(key) {
                    let q = choose|q: int| 0 <= q < before.len() && before[q] == key;
                    assert(after[q] == key);
                }
                if after.contains(key) {
                    let q = choose|q: int| 0 <= q < after.len() && after[q] == key;
                    if q < before.len() {
                        assert(before[q] == key);
                    }
                }
            }
            if key == last {
                assert(rules[places[n - 1] as int].max_concurrent is Some);
            }
        }
    }
}

/// What giving a slot leaves behind: it counts once under every rule for the model that
/// caps the calls in flight, for the callers that the rule counts together with the one who
/// asked, and nothing else changes.
pub open spec fn slot_given(
    rules: Seq<LimitRule>,
    store: StoreModel,
    then: StoreModel,
    model: Seq<char>,
    ask: Ask,
    slot: Slot,
) -> bool {
    &&& slot.ok
    &&& slot.tripped_rule is None
    &&& then.windows == store.windows
    &&& slot.held().no_duplicates()
    &&& forall|key: Seq<char>| #[trigger]
        slot.held().contains(key) <==> slot_key_of_some(rules, model, ask, key)
    &&& forall|key: Seq<char>| #[trigger]
        then.in_flight[key] == store.in_flight[key] + if slot_key_of_some(
            rules,
            model,
            ask,
            key,
        ) {
            1int
        } else {
            0int
        }
    &&& forall|i: int, caller: Ask|
        0 <= i < rules.len() ==> #[trigger] in_flight_for(rules, i, then, caller)
            == in_flight_for(rules, i, store, caller) + if caps_slots(rules[i], model)
            && counted_together(rules[i].scope, ask, caller) {
            1int
        } else {
            0int
        }
}

/// What refusing a slot leaves behind: nothing changes, and the first rule that is full is
/// named.
pub open spec fn slot_refused(
    rules: Seq<LimitRule>,
    store: StoreModel,
    then: StoreModel,
    model: Seq<char>,
    ask: Ask,
    slot: Slot,
) -> bool {
    &&& !slot.ok
    &&& then == store
    &&& slot.held() == Seq::<Seq<char>>::empty()
    &&& exists|i: int|
        {
            &&& 0 <= i < rules.len()
            &&& #[trigger] full(rules, i, model, store, ask)
            &&& slot.tripped_rule == Some(rules[i])
            &&& forall|j: int|
                0 <= j < rules.len() && comes_before(rules, model, j, i) ==> !(#[trigger] full(
                    rules,
                    j,
                    model,
                    store,
                    ask,
                ))
        }
}

/// Whether a slot was rightly given or refused: it is given if and only if no rule for the
/// model is full.
pub open spec fn rightly_slotted<S: Store, C: Clock>(
    before: Limiter<S, C>,
    after: Limiter<S, C>,
    model: Seq<char>,
    ask: Ask,
    slot: Slot,
) -> bool {
    let (rules, store, then) = (
        before.rule_list(),
        before.backing().model(),
        after.backing().model(),
    );
    &&& after.rule_list() == rules
    &&& after.fallback_map() == before.fallback_map()
    &&& after.time_source() == before.time_source()
    &&& if exists|i: int| 0 <= i < rules.len() && #[trigger] full(rules, i, model, store, ask) {
        slot_refused(rules, store, then, model, ask, slot)
    } else {
        slot_given(rules, store, then, model, ask, slot)
    }
}

/// A slot is rightly given or refused, whatever the time.
#[verifier::spinoff_prover]
pub proof fn a_slot_counts_under_every_rule_for_it<S: Store, C: Clock>(
    l: &mut Limiter<S, C>,
    model: &str,
    a: &Acquire,
    slot: Slot,
)
    requires
        S::obeys_model(),
        call_ensures(Limiter::<S, C>::acquire_slot, (l, model, a), slot),
    ensures
        rightly_slotted(
            *old(l),
            *final(l),
            model@,
            Ask {
                tokens: a.tokens,
                cost: a.cost,
                tenant: a.tenant@,
                user: a.user@,
                now: 0,
            },
            slot,
        ),
{
    let (before, after) = (*l, *final(l));
    let rules = before.rule_list();
    let places = before.applies(model@);
    let n = places.len() as int;
    let (store, then) = (before.backing().model(), after.backing().model());
    let ask = a.at(0);
    before.lemma_rule_count();
    super::coverage::the_rules_that_apply_are_those_that_cover(rules, model@);
    super::coverage::rules_are_examined_in_order(rules, model@);
    super::admissions::no_rule_applies_twice(rules, model@);
    assert forall|p: int| 0 <= p < n implies (#[trigger] slot_free(rules, places, store, ask, p)
        <==> !full(rules, places[p] as int, model@, store, ask)) by {
        let place = places[p];
        let key = slot_key(place as nat, rules[place as int].scope, ask.tenant, ask.user);
        lemma_slot_keys(rules, places, ask, p, key);
        if slot_keys(rules, places, ask, p).contains(key) {
            let q = choose|q: int|
                0 <= q < p && rules[(#[trigger] places[q]) as int].max_concurrent is Some && key
                    == slot_key(
                    places[q] as nat,
                    rules[places[q] as int].scope,
                    ask.tenant,
                    ask.user,
                );
            slot_keys_tell_budgets_apart(rules, places[q], place, ask, ask);
        }
        assert(covers(rules[places[p] as int], model@));
    }
    assert forall|i: int| 0 <= i < rules.len() && covers(rules[i], model@) implies exists|p: int|
        0 <= p < n && #[trigger] places[p] == i as usize by {
        assert(places.contains(i as usize));
    }
    if slot.ok {
        assert forall|i: int| 0 <= i < rules.len() implies !(#[trigger] full(
            rules,
            i,
            model@,
            store,
            ask,
        )) by {
            if covers(rules[i], model@) {
                let p = choose|p: int| 0 <= p < n && #[trigger] places[p] == i as usize;
                assert(slot_free(rules, places, store, ask, p));
            }
        }
        assert forall|key: Seq<char>| #[trigger] slot.held().contains(key)
            <==> slot_key_of_some(rules, model@, ask, key) by {
            lemma_slot_keys(rules, places, ask, n, key);
            lemma_held(rules, model@, ask, key);
        }
        assert forall|key: Seq<char>| #[trigger] then.in_flight[key] == store.in_flight[key]
            + if slot_key_of_some(rules, model@, ask, key) {
            1int
        } else {
            0int
        } by {
            lemma_slot_keys(rules, places, ask, n, key);
            assert(slot.held().contains(key) <==> slot_key_of_some(rules, model@, ask, key));
        }
        lemma_slot_keys(rules, places, ask, n, Seq::empty());
        assert forall|i: int, caller: Ask| 0 <= i < rules.len() implies #[trigger] in_flight_for(
            rules,
            i,
            then,
            caller,
        ) == in_flight_for(rules, i, store, caller) + if caps_slots(rules[i], model@)
            && counted_together(rules[i].scope, ask, caller) {
            1int
        } else {
            0int
        } by {
            let key = slot_key(i as nat, rules[i].scope, caller.tenant, caller.user);
            slot_keys_tell_budgets_apart(rules, i as usize, i as usize, ask, caller);
            assert(then.in_flight[key] == store.in_flight[key] + if slot_key_of_some(
                rules,
                model@,
                ask,
                key,
            ) {
                1int
            } else {
                0int
            });
            if slot_key_of_some(rules, model@, ask, key) {
                let j = choose|j: int|
                    0 <= j < rules.len() && caps_slots(#[trigger] rules[j], model@) && key
                        == slot_key(j as nat, rules[j].scope, ask.tenant, ask.user);
                slot_keys_tell_budgets_apart(rules, j as usize, i as usize, ask, caller);
            } else if caps_slots(rules[i], model@) && counted_together(
                rules[i].scope,
                ask,
                caller,
            ) {
                assert(caps_slots(rules[i], model@));
            }
        }
        assert(slot_given(rules, store, then, model@, ask, slot));
    } else {
        let p = choose|p: int|
            {
                &&& 0 <= p < places.len()
                &&& !(#[trigger] slot_free(rules, places, store, ask, p))
                &&& forall|q: int|
                    0 <= q < p ==> #[trigger] slot_free(rules, places, store, ask, q)
                &&& slot.tripped_rule == Some(rules[places[p] as int])
            };
        let i = places[p] as int;
        assert(full(rules, i, model@, store, ask));
        assert forall|j: int| 0 <= j < rules.len() && comes_before(rules, model@, j, i) implies !(
        #[trigger] full(rules, j, model@, store, ask)) by {
            if covers(rules[j], model@) {
                let q = choose|q: int| 0 <= q < n && #[trigger] places[q] == j as usize;
                assert(places[q] as int == j && places[p] as int == i);
                assert(q < p);
                assert(slot_free(rules, places, store, ask, q));
            }
        }
        assert(slot_refused(rules, store, then, model@, ask, slot));
    }
}

/// The slot keys of applicable rules are those of rules for the model.
proof fn lemma_held(rules: Seq<LimitRule>, model: Seq<char>, ask: Ask, key: Seq<char>)
    requires
        rules.len() <= usize::MAX,
    ensures
        slot_key_of_some(rules, model, ask, key) <==> exists|p: int|
            0 <= p < applicable(rules, model).len() && rules[(#[trigger] applicable(
                rules,
                model,
            )[p]) as int].max_concurrent is Some && key == slot_key(
                applicable(rules, model)[p] as nat,
                rules[applicable(rules, model)[p] as int].scope,
                ask.tenant,
                ask.user,
            ),
{
    let places = applicable(rules, model);
    super::coverage::the_rules_that_apply_are_those_that_cover(rules, model);
    if slot_key_of_some(rules, model, ask, key) {
        let i = choose|i: int|
            0 <= i < rules.len() && caps_slots(#[trigger] rules[i], model) && key == slot_key(
                i as nat,
                rules[i].scope,
                ask.tenant,
                ask.user,
            );
        assert(places.contains(i as usize));
        let p = choose|p: int| 0 <= p < places.len() && places[p] == i as usize;
        assert(rules[places[p] as int].max_concurrent is Some);
    }
    if exists|p: int|
        0 <= p < places.len() && rules[(#[trigger] places[p]) as int].max_concurrent is Some && key
            == slot_key(
            places[p] as nat,
            rules[places[p] as int].scope,
            ask.tenant,
            ask.user,
        ) {
        let p = choose|p: int|
            0 <= p < places.len() && rules[(#[trigger] places[p]) as int].max_concurrent is Some
                && key == slot_key(
                places[p] as nat,
                rules[places[p] as int].scope,
                ask.tenant,
                ask.user,
            );
        let i = places[p] as int;
        assert(caps_slots(rules[i], model));
    }
}

/// Giving back the first slots of a list takes one from the count of each key in it, and
/// no count falls below zero.
proof fn lemma_given_back(store: StoreModel, keys: Seq<Seq<char>>, n: int, key: Seq<char>)
    requires
        store.wf(),
        keys.no_duplicates(),
        0 <= n <= keys.len(),
    ensures
        slots_returned(store, keys, n).windows == store.windows,
        slots_returned(store, keys, n).in_flight[key] == if keys.take(n).contains(key)
            && store.in_flight[key] > 0 {
            store.in_flight[key] - 1
        } else {
            store.in_flight[key]
        },
    decreases n,
{
    if n > 0 {
        lemma_given_back(store, keys, n - 1, key);
        let (fewer, more) = (keys.take(n - 1), keys.take(n));
        assert(more.contains(key) <==> fewer.contains(key) || keys[n - 1] == key) by {
            assert(more[n - 1] == keys[n - 1]);
            if fewer.contains(key) {
                let q = choose|q: int| 0 <= q < fewer.len() && fewer[q] == key;
                assert(more[q] == key);
            }
            if more.contains(key) {
                let q = choose|q: int| 0 <= q < more.len() && more[q] == key;
                if q < n - 1 {
                    assert(fewer[q] == key);
                }
            }
        }
        if keys[n - 1] == key && fewer.contains(key) {
            let q = choose|q: int| 0 <= q < fewer.len() && fewer[q] == key;
            assert(keys[q] == keys[n - 1]);
        }
    }
}

/// Releasing a slot takes one from the count of every key that it holds, never below zero,
/// and changes nothing else. The slot then holds nothing.
pub proof fn a_released_slot_no_longer_counts<S: Store, C: Clock>(
    l: &mut Limiter<S, C>,
    slot: &mut Slot,
)
    requires
        S::obeys_model(),
        l.backing().model().wf(),
        call_ensures(Limiter::<S, C>::release_slot, (l, slot), ()),
        slot.held().no_duplicates(),
    ensures
        final(l).rule_list() == old(l).rule_list(),
        final(l).fallback_map() == old(l).fallback_map(),
        final(l).time_source() == old(l).time_source(),
        final(l).backing().model().windows == old(l).backing().model().windows,
        forall|key: Seq<char>| #[trigger]
            final(l).backing().model().in_flight[key] == if old(slot).held().contains(key)
                && old(l).backing().model().in_flight[key] > 0 {
                old(l).backing().model().in_flight[key] - 1
            } else {
                old(l).backing().model().in_flight[key]
            },
        final(slot).held() == Seq::<Seq<char>>::empty(),
        final(slot).ok == old(slot).ok,
        final(slot).tripped_rule == old(slot).tripped_rule,
{
    let keys = slot.held();
    let store = l.backing().model();
    let n = keys.len() as int;
    assert(keys.take(n) =~= keys);
    lemma_given_back(store, keys, n, Seq::empty());
    assert forall|key: Seq<char>| #[trigger] slots_returned(store, keys, n).in_flight[key]
        == if keys.contains(key) && store.in_flight[key] > 0 {
        store.in_flight[key] - 1
    } else {
        store.in_flight[key]
    } by {
        lemma_given_back(store, keys, n, key);
    }
}

} // verus!
