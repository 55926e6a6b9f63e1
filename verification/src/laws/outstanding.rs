//! Laws of runs of slots: what is in flight is what was given out and not given back.

use super::coverage::{counted_together, covers};
use super::slots::{caps_slots, in_flight_for, rightly_slotted, slot_key_of_some};
use crate::admission::{slot_key, Ask};
use crate::clock::Clock;
use crate::limiter::{Limiter, Slot};
use crate::rules::LimitRule;
use crate::store::{Store, StoreModel};
use vstd::prelude::*;

verus! {

/// A turn of a run: a slot is asked for, or the slot of an earlier turn is given back.
pub enum Turn {
    Take { model: Seq<char>, ask: Ask, slot: Slot },
    Give { turn: int },
}

/// Whether the slot of a turn was given back in one of the first `n` turns.
pub open spec fn given_back(turns: Seq<Turn>, t: int, n: int) -> bool {
    exists|j: int| 0 <= j < n && (#[trigger] turns[j] matches Turn::Give { turn } && turn == t)
}

/// What giving a slot back leaves behind.
pub open spec fn slot_returned(store: StoreModel, then: StoreModel, slot: Slot) -> bool {
    forall|key: Seq<char>| #[trigger]
        then.in_flight[key] == if slot.held().contains(key) && store.in_flight[key] > 0 {
            store.in_flight[key] - 1
        } else {
            store.in_flight[key]
        }
}

/// A run of slots: a limiter with nothing in flight gave slots out and took them back, each
/// at most once.
pub open spec fn took_turns<S: Store, C: Clock>(
    states: Seq<Limiter<S, C>>,
    turns: Seq<Turn>,
) -> bool {
    &&& states.len() == turns.len() + 1
    &&& forall|key: Seq<char>| #[trigger] states[0].backing().model().in_flight[key] == 0
    &&& forall|n: int|
        0 <= n < turns.len() ==> match #[trigger] turns[n] {
            Turn::Take { model, ask, slot } => rightly_slotted(
                states[n],
                states[n + 1],
                model,
                ask,
                slot,
            ),
            Turn::Give { turn } => {
                &&& 0 <= turn < n
                &&& !given_back(turns, turn, n)
                &&& turns[turn] matches Turn::Take { model, ask, slot } && slot.ok
                    && slot_returned(
                    states[n].backing().model(),
                    states[n + 1].backing().model(),
                    slot,
                )
                &&& states[n + 1].rule_list() == states[n].rule_list()
            },
        }
}

/// Whether a turn gave out a slot that counts, under a rule, for a caller.
pub open spec fn gave_out(rule: LimitRule, turn: Turn, caller: Ask) -> bool {
    turn matches Turn::Take { model, ask, slot } && slot.ok && covers(rule, model)
        && rule.max_concurrent is Some && counted_together(rule.scope, ask, caller)
}

/// How many of the first `m` turns gave out a slot that counts, under a rule, for a caller,
/// and that was not given back in the first `n` turns.
pub open spec fn outstanding(
    rule: LimitRule,
    turns: Seq<Turn>,
    caller: Ask,
    m: int,
    n: int,
) -> int
    decreases m,
{
    if m <= 0 {
        0
    } else {
        outstanding(rule, turns, caller, m - 1, n) + if gave_out(rule, turns[m - 1], caller)
            && !given_back(turns, m - 1, n) {
            1int
        } else {
            0int
        }
    }
}

/// A turn that gives nothing back leaves what is outstanding of the turns before.
proof fn lemma_nothing_given(rule: LimitRule, turns: Seq<Turn>, caller: Ask, m: int, n: int)
    requires
        0 <= m <= n < turns.len(),
        turns[n] is Take,
    ensures
        outstanding(rule, turns, caller, m, n + 1) == outstanding(rule, turns, caller, m, n),
    decreases m,
{
    if m > 0 {
        lemma_nothing_given(rule, turns, caller, m - 1, n);
        lemma_given_back(turns, m - 1, n);
    }
}

/// What was given back by a turn is what was before, and what that turn gives back.
proof fn lemma_given_back(turns: Seq<Turn>, t: int, n: int)
    requires
        0 <= n < turns.len(),
    ensures
        given_back(turns, t, n + 1) <==> given_back(turns, t, n) || (
        turns[n] matches Turn::Give { turn } && turn == t),
{
    if given_back(turns, t, n) {
        let j = choose|j: int|
            0 <= j < n && (#[trigger] turns[j] matches Turn::Give { turn } && turn == t);
        assert(turns[j] matches Turn::Give { turn } && turn == t);
    }
}

/// A turn that gives a slot back takes it from what is outstanding.
proof fn lemma_one_given(
    rule: LimitRule,
    turns: Seq<Turn>,
    caller: Ask,
    m: int,
    n: int,
    given: int,
)
    requires
        0 <= m <= n < turns.len(),
        turns[n] == (Turn::Give { turn: given }),
        0 <= given < n,
        !given_back(turns, given, n),
    ensures
        outstanding(rule, turns, caller, m, n + 1) == outstanding(rule, turns, caller, m, n)
            - if given < m && gave_out(rule, turns[given], caller) {
            1int
        } else {
            0int
        },
        outstanding(rule, turns, caller, m, n + 1) >= 0,
    decreases m,
{
    if m > 0 {
        lemma_one_given(rule, turns, caller, m - 1, n, given);
        lemma_given_back(turns, m - 1, n);
    }
}

/// What is in flight under a rule for a caller is what was given out and not given back, and
/// never more than the rule allows.
pub proof fn no_more_is_in_flight_than_a_rule_allows<S: Store, C: Clock>(
    states: Seq<Limiter<S, C>>,
    turns: Seq<Turn>,
    i: int,
    caller: Ask,
    n: int,
)
    requires
        took_turns(states, turns),
        0 <= n <= turns.len(),
        0 <= i < states[0].rule_list().len(),
    ensures
        states[n].rule_list() == states[0].rule_list(),
        ({
            let rules = states[0].rule_list();
            let count = outstanding(rules[i], turns, caller, n, n);
            &&& in_flight_for(rules, i, states[n].backing().model(), caller) == count
            &&& rules[i].max_concurrent matches Some(limit) ==> 0 <= count && (count == 0
                || count <= limit)
        }),
    decreases n,
{
    let rules = states[0].rule_list();
    if n > 0 {
        no_more_is_in_flight_than_a_rule_allows(states, turns, i, caller, n - 1);
        let (before, after) = (states[n - 1], states[n]);
        let (store, then) = (before.backing().model(), after.backing().model());
        let key = slot_key(i as nat, rules[i].scope, caller.tenant, caller.user);
        before.lemma_rule_count();
        match turns[n - 1] {
            Turn::Take { model, ask, slot } => {
                assert(rightly_slotted(states[n - 1], states[n - 1 + 1], model, ask, slot));
                lemma_nothing_given(rules[i], turns, caller, n - 1, n - 1);
                assert(!given_back(turns, n - 1, n)) by {
                    if given_back(turns, n - 1, n) {
                        let j = choose|j: int|
                            0 <= j < n && (#[trigger] turns[j] matches Turn::Give { turn } && turn
                                == n - 1);
                        assert(turns[j] matches Turn::Give { turn } && turn == n - 1);
                    }
                }
                if slot.ok {
                    assert(in_flight_for(rules, i, then, caller) == in_flight_for(
                        rules,
                        i,
                        store,
                        caller,
                    ) + if caps_slots(rules[i], model) && counted_together(
                        rules[i].scope,
                        ask,
                        caller,
                    ) {
                        1int
                    } else {
                        0int
                    });
                    if gave_out(rules[i], turns[n - 1], caller) {
                        super::slots::slot_keys_tell_budgets_apart(
                            rules,
                            i as usize,
                            i as usize,
                            ask,
                            caller,
                        );
                        assert(!super::slots::full(rules, i, model, store, ask));
                    }
                }
            },
            Turn::Give { turn } => {
                lemma_one_given(rules[i], turns, caller, n - 1, n - 1, turn);
                assert(turns[n - 1] is Give);
                if let Turn::Take { model, ask, slot } = turns[turn] {
                    assert(rightly_slotted(
                        states[turn],
                        states[turn + 1],
                        model,
                        ask,
                        slot,
                    ));
                    no_more_is_in_flight_than_a_rule_allows(states, turns, i, caller, turn);
                    lemma_held_by(rules, i, model, ask, caller);
                    assert(slot.held().contains(key) <==> slot_key_of_some(
                        rules,
                        model,
                        ask,
                        key,
                    ));
                    assert(then.in_flight[key] == if slot.held().contains(key)
                        && store.in_flight[key] > 0 {
                        store.in_flight[key] - 1
                    } else {
                        store.in_flight[key]
                    });
                }
            },
        }
    }
}

/// The keys of a slot are those of the rules that count it for a caller.
proof fn lemma_held_by(
    rules: Seq<LimitRule>,
    i: int,
    model: Seq<char>,
    ask: Ask,
    caller: Ask,
)
    requires
        0 <= i < rules.len() <= usize::MAX,
    ensures
        slot_key_of_some(
            rules,
            model,
            ask,
            slot_key(i as nat, rules[i].scope, caller.tenant, caller.user),
        ) <==> caps_slots(rules[i], model) && counted_together(rules[i].scope, ask, caller),
{
    let key = slot_key(i as nat, rules[i].scope, caller.tenant, caller.user);
    super::slots::slot_keys_tell_budgets_apart(rules, i as usize, i as usize, ask, caller);
    if slot_key_of_some(rules, model, ask, key) {
        let j = choose|j: int|
            0 <= j < rules.len() && caps_slots(#[trigger] rules[j], model) && key == slot_key(
                j as nat,
                rules[j].scope,
                ask.tenant,
                ask.user,
            );
        super::slots::slot_keys_tell_budgets_apart(rules, j as usize, i as usize, ask, caller);
    }
    if caps_slots(rules[i], model) && counted_together(rules[i].scope, ask, caller) {
        assert(caps_slots(rules[i], model));
    }
}

} // verus!
