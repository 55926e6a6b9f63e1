//! Laws of histories: what a limiter admitted, over any run of acquisitions, stays within
//! every cap.

use super::accuracy::{
    admitted_in_order, all_by, call_weight, calls_at_least_zero, prorated, replayed, used_after,
    used_between, used_in_all, used_in_cut_bucket, Recorded,
};
use super::admissions::cap_along;
use super::coverage::{asked, counted_together, covers, fits, fits_under, fits_under_all};
use crate::admission::{applicable, ask_key, ask_window, recorded, Ask};
use crate::clock::Clock;
use crate::fixed::{sat, SLACK};
use crate::limiter::{Decision, Limiter};
use crate::rules::LimitRule;
use crate::store::{Store, StoreModel};
use crate::window::{Usage, WindowModel, COST, REQUESTS, TOKENS};
use vstd::prelude::*;

verus! {

/// A call that asked for admission.
pub struct Call {
    pub model: Seq<char>,
    pub ask: Ask,
}

/// A run of acquisitions: a limiter that nothing was recorded in yet decided on the calls
/// one after the other. Its states are those before the first call and after each.
pub open spec fn ran<S: Store, C: Clock>(
    states: Seq<Limiter<S, C>>,
    calls: Seq<Call>,
    decisions: Seq<Decision>,
) -> bool {
    &&& states.len() == calls.len() + 1
    &&& decisions.len() == calls.len()
    &&& states[0].backing().model().windows == Map::<Seq<char>, WindowModel>::empty()
    &&& forall|i: int|
        0 <= i < calls.len() ==> states[i].decided(
            states[i + 1],
            (#[trigger] calls[i]).model,
            calls[i].ask,
            true,
            decisions[i],
        )
}

/// Whether the calls were made in the order of time.
pub open spec fn in_order_of_time(calls: Seq<Call>) -> bool {
    forall|i: int, j: int|
        0 <= i <= j < calls.len() ==> (#[trigger] calls[i]).ask.now <= (
        #[trigger] calls[j]).ask.now
}

/// Whether the rule at a place counts a call together with those of some caller.
pub open spec fn counts_for(
    rules: Seq<LimitRule>,
    place: usize,
    call: Call,
    caller: Ask,
) -> bool {
    &&& applicable(rules, call.model).contains(place)
    &&& ask_key(rules, place, call.ask) == ask_key(rules, place, caller)
}

/// What was admitted of the first `n` calls and counts, for the rule at a place, together
/// with the calls of some caller.
pub open spec fn admitted(
    rules: Seq<LimitRule>,
    calls: Seq<Call>,
    decisions: Seq<Decision>,
    place: usize,
    caller: Ask,
    n: int,
) -> Seq<Recorded>
    decreases n,
{
    if n <= 0 {
        Seq::empty()
    } else {
        let before = admitted(rules, calls, decisions, place, caller, n - 1);
        if decisions[n - 1].allowed && counts_for(rules, place, calls[n - 1], caller) {
            before.push(Recorded { ts: calls[n - 1].ask.now, used: calls[n - 1].ask.used() })
        } else {
            before
        }
    }
}

/// Recording a call adds it to the window of a rule once, if the rule counts it, and
/// changes nothing there otherwise.
proof fn lemma_recorded_reading(
    rules: Seq<LimitRule>,
    store: StoreModel,
    call: Call,
    place: usize,
    caller: Ask,
)
    requires
        rules.len() <= usize::MAX,
        rules[place as int].caps_usage(),
    ensures
        ({
            let places = applicable(rules, call.model);
            let after = recorded(rules, places, store, call.ask, places.len() as int);
            ask_window(rules, place, after, caller) == if counts_for(rules, place, call, caller) {
                ask_window(rules, place, store, caller).added(call.ask.now, call.ask.used())
            } else {
                ask_window(rules, place, store, caller)
            }
        }),
{
    let places = applicable(rules, call.model);
    let n = places.len() as int;
    let key = ask_key(rules, place, caller);
    if counts_for(rules, place, call, caller) {
        let p = choose|p: int| 0 <= p < places.len() && places[p] == place;
        super::admissions::no_rule_applies_twice(rules, call.model);
        super::admissions::lemma_recorded_once(rules, places, store, call.ask, n, p);
    } else {
        assert forall|p: int| 0 <= p < n implies ask_key(rules, #[trigger] places[p], call.ask)
            != key by {
            if places[p] == place {
                assert(places.contains(place));
            } else {
                super::keys::rules_do_not_share_keys(
                    places[p] as nat,
                    rules[places[p] as int].scope,
                    call.ask.tenant,
                    call.ask.user,
                    place as nat,
                    rules[place as int].scope,
                    caller.tenant,
                    caller.user,
                );
            }
        }
        super::decisions::a_call_counts_under_its_own_keys_only(
            rules,
            places,
            store,
            call.ask,
            n,
            key,
        );
    }
}

/// The setup stays as it is over a run.
pub proof fn lemma_same_rules<S: Store, C: Clock>(
    states: Seq<Limiter<S, C>>,
    calls: Seq<Call>,
    decisions: Seq<Decision>,
    n: int,
)
    requires
        ran(states, calls, decisions),
        0 <= n <= calls.len(),
    ensures
        states[n].rule_list() == states[0].rule_list(),
    decreases n,
{
    if n > 0 {
        lemma_same_rules(states, calls, decisions, n - 1);
        let (i, call) = (n - 1, calls[n - 1]);
        assert(states[i].decided(states[i + 1], call.model, call.ask, true, decisions[i]));
    }
}

/// The window of a rule holds exactly the calls that were admitted and that it counts.
pub proof fn a_window_holds_what_was_admitted<S: Store, C: Clock>(
    states: Seq<Limiter<S, C>>,
    calls: Seq<Call>,
    decisions: Seq<Decision>,
    place: usize,
    caller: Ask,
    n: int,
)
    requires
        S::obeys_model(),
        ran(states, calls, decisions),
        0 <= n <= calls.len(),
        states[0].rule_list().len() <= usize::MAX,
        states[0].rule_list()[place as int].caps_usage(),
    ensures
        ({
            let rules = states[0].rule_list();
            ask_window(rules, place, states[n].backing().model(), caller) == replayed(
                rules[place as int].window_seconds,
                rules[place as int].width() as i64,
                admitted(rules, calls, decisions, place, caller, n),
            )
        }),
    decreases n,
{
    let rules = states[0].rule_list();
    let history = admitted(rules, calls, decisions, place, caller, n);
    if n > 0 {
        a_window_holds_what_was_admitted(states, calls, decisions, place, caller, n - 1);
        lemma_same_rules(states, calls, decisions, n - 1);
        let (before, call) = (states[n - 1], calls[n - 1]);
        let places = before.applies(call.model);
        let len = places.len() as int;
        let found = before.findings(call.model, call.ask).store;
        super::decisions::lemma_reading(
            rules,
            places,
            before.backing().model(),
            call.ask,
            len,
            place,
            caller,
        );
        let shorter = admitted(rules, calls, decisions, place, caller, n - 1);
        if decisions[n - 1].allowed {
            let after = recorded(rules, places, found, call.ask, len);
            super::admissions::lemma_survey_reading(
                rules,
                places,
                after,
                call.ask,
                len,
                place,
                caller,
            );
            lemma_recorded_reading(rules, found, call, place, caller);
            if counts_for(rules, place, call, caller) {
                assert(history.drop_last() =~= shorter);
            }
        }
    }
}

/// A history of calls that were made in order, each admitted under every cap.
proof fn lemma_admitted_in_order<S: Store, C: Clock>(
    states: Seq<Limiter<S, C>>,
    calls: Seq<Call>,
    decisions: Seq<Decision>,
    place: usize,
    caller: Ask,
    dim: usize,
    n: int,
)
    requires
        S::obeys_model(),
        ran(states, calls, decisions),
        0 <= n <= calls.len(),
        states[0].rule_list().len() <= usize::MAX,
        cap_along(states[0].rule_list()[place as int], dim) is Some,
        in_order_of_time(calls),
    ensures
        ({
            let rules = states[0].rule_list();
            let rule = rules[place as int];
            let history = admitted(rules, calls, decisions, place, caller, n);
            &&& admitted_in_order(
                rule.window_seconds,
                rule.width() as i64,
                cap_along(rule, dim)->0,
                history,
                dim,
            )
            &&& n > 0 ==> all_by(history, calls[n - 1].ask.now as int)
            &&& (forall|i: int|
                0 <= i < calls.len() ==> (#[trigger] calls[i]).ask.used().along(dim) >= 0)
                ==> calls_at_least_zero(history, dim)
        }),
    decreases n,
{
    if n > 0 {
        lemma_admitted_in_order(states, calls, decisions, place, caller, dim, n - 1);
        lemma_same_rules(states, calls, decisions, n - 1);
        let rules = states[0].rule_list();
        let rule = rules[place as int];
        let (before, call) = (states[n - 1], calls[n - 1]);
        let shorter = admitted(rules, calls, decisions, place, caller, n - 1);
        let history = admitted(rules, calls, decisions, place, caller, n);
        if n > 1 {
            assert(calls[n - 2].ask.now <= calls[n - 1].ask.now);
        }
        if decisions[n - 1].allowed && counts_for(rules, place, call, caller) {
            assert(history.drop_last() =~= shorter);
            let places = before.applies(call.model);
            let p = choose|p: int| 0 <= p < places.len() && places[p] == place;
            a_window_holds_what_was_admitted(
                states,
                calls,
                decisions,
                place,
                caller,
                n - 1,
            );
            super::decisions::a_call_must_clear_every_rule(
                rules,
                places,
                before.backing().model(),
                call.ask,
            );
            assert(!super::decisions::refuses(
                rules,
                places[p],
                before.backing().model(),
                call.ask,
            ));
            assert forall|i: int| 0 <= i < history.len() implies (#[trigger] history[i]).ts
                <= call.ask.now by {
                if i < shorter.len() {
                    assert(history[i] == shorter[i]);
                }
            }
            if forall|i: int|
                0 <= i < calls.len() ==> (#[trigger] calls[i]).ask.used().along(dim) >= 0 {
                assert forall|i: int| 0 <= i < history.len() implies (
                #[trigger] history[i]).used.along(dim) >= 0 by {
                    if i < shorter.len() {
                        assert(history[i] == shorter[i]);
                    }
                }
            }
        } else {
            assert(history == shorter);
        }
    }
}

/// What was admitted of the first `n` calls and counts, under a rule, together with a
/// call: the rule is for its model, and counts the two callers together.
pub open spec fn spent(
    rule: LimitRule,
    calls: Seq<Call>,
    decisions: Seq<Decision>,
    caller: Ask,
    n: int,
) -> Seq<Recorded>
    decreases n,
{
    if n <= 0 {
        Seq::empty()
    } else {
        let before = spent(rule, calls, decisions, caller, n - 1);
        let call = calls[n - 1];
        if decisions[n - 1].allowed && covers(rule, call.model) && counted_together(
            rule.scope,
            call.ask,
            caller,
        ) {
            before.push(
                Recorded {
                    ts: call.ask.now,
                    used: Usage {
                        tokens: call.ask.tokens,
                        requests: 1_000_000_000,
                        cost: call.ask.cost,
                    },
                },
            )
        } else {
            before
        }
    }
}

/// What was spent is what was admitted and counts.
pub proof fn lemma_spent(
    rules: Seq<LimitRule>,
    calls: Seq<Call>,
    decisions: Seq<Decision>,
    place: usize,
    caller: Ask,
    n: int,
)
    requires
        place < rules.len() <= usize::MAX,
    ensures
        spent(rules[place as int], calls, decisions, caller, n) == admitted(
            rules,
            calls,
            decisions,
            place,
            caller,
            n,
        ),
    decreases n,
{
    if n > 0 {
        lemma_spent(rules, calls, decisions, place, caller, n - 1);
        let call = calls[n - 1];
        let i = place as int;
        super::coverage::the_rules_that_apply_are_those_that_cover(rules, call.model);
        super::coverage::keys_tell_budgets_apart(rules, place, call.ask, caller);
        assert(applicable(rules, call.model).contains(i as usize) <==> covers(
            rules[i],
            call.model,
        ));
    }
}

/// How much of the bucket that a time falls into, of the given width and counted from the
/// epoch on, lies after `lo`.
pub open spec fn part_inside(ts: int, width: int, lo: int) -> int {
    let inside = ts / width * width + width - lo;
    if inside <= 0 {
        0
    } else if inside >= width {
        width
    } else {
        inside
    }
}

/// What the calls of a history used in one dimension, each weighted by how much of its
/// bucket lies after `lo`.
pub open spec fn in_parts(calls: Seq<Recorded>, width: int, lo: int, dim: usize) -> int
    decreases calls.len(),
{
    if calls.len() == 0 {
        0
    } else {
        in_parts(calls.drop_last(), width, lo, dim) + calls.last().used.along(dim)
            * part_inside(calls.last().ts as int, width, lo)
    }
}

proof fn lemma_in_parts(calls: Seq<Recorded>, width: int, lo: int, dim: usize)
    ensures
        in_parts(calls, width, lo, dim) == prorated(calls, width, lo, dim),
    decreases calls.len(),
{
    if calls.len() > 0 {
        lemma_in_parts(calls.drop_last(), width, lo, dim);
    }
}

/// What a history comes to, for a rule, at a time: what was used in the window to the
/// moment, or bucket by bucket with the part that still lies in the window.
pub open spec fn comes_to(rule: LimitRule, history: Seq<Recorded>, now: i64, dim: usize) -> int {
    let lo = now - rule.window_seconds;
    if rule.precise || rule.window_seconds <= 0 {
        used_after(history, lo, dim)
    } else {
        in_parts(history, rule.width(), lo, dim) / rule.width()
    }
}

/// Whether a call stays within the cap of a rule in one dimension, given what was spent.
/// The slack is one billionth. Sums saturate.
pub open spec fn affordable(
    rule: LimitRule,
    history: Seq<Recorded>,
    ask: Ask,
    dim: usize,
) -> bool {
    cap_along(rule, dim) matches Some(cap) ==> sat(
        comes_to(rule, history, ask.now, dim) + asked(ask, dim),
    ) <= sat(cap + 1)
}

/// A width of zero or less makes a log, whatever it is.
pub proof fn lemma_any_log(window: i64, bucket: i64, calls: Seq<Recorded>)
    requires
        bucket <= 0,
    ensures
        replayed(window, bucket, calls) == replayed(window, 0, calls),
    decreases calls.len(),
{
    if calls.len() > 0 {
        lemma_any_log(window, bucket, calls.drop_last());
    }
}

/// A rule reads what its history comes to.
proof fn lemma_comes_to(rule: LimitRule, history: Seq<Recorded>, now: i64, dim: usize)
    requires
        call_weight(history, dim) <= i128::MAX,
        all_by(history, now as int),
    ensures
        replayed(rule.window_seconds, rule.width() as i64, history).totals(now).along(dim)
            == comes_to(rule, history, now, dim),
{
    super::memory::a_bucket_is_the_window_by_parts(rule);
    let lo = now - rule.window_seconds;
    if rule.precise || rule.window_seconds <= 0 {
        lemma_any_log(rule.window_seconds, rule.width() as i64, history);
        super::accuracy::a_log_is_exact(rule.window_seconds, history, now, dim);
    } else {
        lemma_in_parts(history, rule.width(), lo, dim);
        super::accuracy::buckets_count_the_prorated_sum(
            rule.window_seconds,
            rule.width() as i64,
            history,
            now,
            dim,
        );
    }
}

/// What was spent by a time lies before it.
proof fn lemma_spent_by(
    rule: LimitRule,
    calls: Seq<Call>,
    decisions: Seq<Decision>,
    caller: Ask,
    n: int,
    now: int,
)
    requires
        0 <= n <= calls.len(),
        forall|j: int| 0 <= j < n ==> (#[trigger] calls[j]).ask.now <= now,
    ensures
        all_by(spent(rule, calls, decisions, caller, n), now),
    decreases n,
{
    if n > 0 {
        lemma_spent_by(rule, calls, decisions, caller, n - 1, now);
        let before = spent(rule, calls, decisions, caller, n - 1);
        let after = spent(rule, calls, decisions, caller, n);
        assert(calls[n - 1].ask.now <= now);
        assert forall|k: int| 0 <= k < after.len() implies (#[trigger] after[k]).ts <= now by {
            if k < before.len() {
                assert(after[k] == before[k]);
            }
        }
    }
}

/// A call is admitted if and only if, under every rule for its model and in every
/// dimension that the rule caps, what was admitted before and still counts leaves room for
/// it. Nothing else plays a part: not what was refused, not other models that the rule is
/// not for, and not callers that the rule counts apart.
pub proof fn what_was_admitted_before_decides<S: Store, C: Clock>(
    states: Seq<Limiter<S, C>>,
    calls: Seq<Call>,
    decisions: Seq<Decision>,
    n: int,
)
    requires
        S::obeys_model(),
        ran(states, calls, decisions),
        0 <= n < calls.len(),
        forall|j: int| 0 <= j < n ==> (#[trigger] calls[j]).ask.now <= calls[n].ask.now,
        states[0].rule_list().len() <= usize::MAX,
        forall|i: int, dim: usize|
            #![trigger cap_along(states[0].rule_list()[i], dim)]
            0 <= i < states[0].rule_list().len() && dim < 3 ==> call_weight(
                spent(states[0].rule_list()[i], calls, decisions, calls[n].ask, n),
                dim,
            ) <= i128::MAX,
    ensures
        decisions[n].allowed <==> forall|i: int, dim: usize|
            #![trigger cap_along(states[0].rule_list()[i], dim)]
            0 <= i < states[0].rule_list().len() && dim < 3 && covers(
                states[0].rule_list()[i],
                calls[n].model,
            ) ==> affordable(
                states[0].rule_list()[i],
                spent(states[0].rule_list()[i], calls, decisions, calls[n].ask, n),
                calls[n].ask,
                dim,
            ),
{
    let rules = states[0].rule_list();
    let (before, call) = (states[n], calls[n]);
    let ask = call.ask;
    let store = before.backing().model();
    lemma_same_rules(states, calls, decisions, n);
    assert(states[n].decided(states[n + 1], call.model, ask, true, decisions[n]));
    super::coverage::what_fits_under_every_rule_is_admitted(rules, call.model, store, ask);
    assert(decisions[n].allowed <==> fits_under_all(rules, call.model, store, ask));
    assert forall|i: int, dim: usize|
        #![trigger cap_along(rules[i], dim)]
        0 <= i < rules.len() && dim < 3 && cap_along(rules[i], dim) is Some implies (affordable(
        rules[i],
        spent(rules[i], calls, decisions, ask, n),
        ask,
        dim,
    ) <==> fits(rules, i, store, ask, dim)) by {
        let place = i as usize;
        let history = spent(rules[i], calls, decisions, ask, n);
        lemma_spent(rules, calls, decisions, place, ask, n);
        a_window_holds_what_was_admitted(states, calls, decisions, place, ask, n);
        lemma_spent_by(rules[i], calls, decisions, ask, n, ask.now as int);
        lemma_comes_to(rules[i], history, ask.now, dim);
        assert(dim == TOKENS || dim == REQUESTS || dim == COST);
    }
    if fits_under_all(rules, call.model, store, ask) {
        assert forall|i: int, dim: usize|
            #![trigger cap_along(rules[i], dim)]
            0 <= i < rules.len() && dim < 3 && covers(rules[i], call.model) implies affordable(
            rules[i],
            spent(rules[i], calls, decisions, ask, n),
            ask,
            dim,
        ) by {
            assert(fits_under(rules, i, store, ask));
            assert(dim == TOKENS || dim == REQUESTS || dim == COST);
        }
    } else {
        let i = choose|i: int|
            0 <= i < rules.len() && covers(#[trigger] rules[i], call.model) && !fits_under(
                rules,
                i,
                store,
                ask,
            );
        let dim = if !fits(rules, i, store, ask, TOKENS) {
            TOKENS
        } else if !fits(rules, i, store, ask, REQUESTS) {
            REQUESTS
        } else {
            COST
        };
        assert(cap_along(rules[i], dim) is Some);
        assert(!affordable(rules[i], spent(rules[i], calls, decisions, ask, n), ask, dim));
    }
}

/// What a limiter admits under a rule that counts in buckets stays within every cap of
/// the rule, plus what one bucket holds: the one that the opening of the window cut in two
/// at the last admitted call. It holds in every window from then on, for every caller that
/// the rule counts apart, and in every dimension in which no call asks for a negative
/// amount, as none does in requests.
pub proof fn what_is_admitted_stays_within_the_cap_and_one_bucket<S: Store, C: Clock>(
    states: Seq<Limiter<S, C>>,
    calls: Seq<Call>,
    decisions: Seq<Decision>,
    place: usize,
    caller: Ask,
    dim: usize,
    now: i64,
)
    requires
        S::obeys_model(),
        ran(states, calls, decisions),
        in_order_of_time(calls),
        forall|i: int|
            0 <= i < calls.len() ==> (#[trigger] calls[i]).ask.used().along(dim) >= 0,
        states[0].rule_list().len() <= usize::MAX,
        1 <= states[0].rule_list()[place as int].width() <= i64::MAX,
        cap_along(states[0].rule_list()[place as int], dim) is Some,
        ({
            let history = admitted(
                states[0].rule_list(),
                calls,
                decisions,
                place,
                caller,
                calls.len() as int,
            );
            &&& history.len() > 0
            &&& history.last().ts <= now
            &&& used_in_all(history, dim) < i128::MAX
        }),
    ensures
        ({
            let rule = states[0].rule_list()[place as int];
            let history = admitted(
                states[0].rule_list(),
                calls,
                decisions,
                place,
                caller,
                calls.len() as int,
            );
            used_after(history, now - rule.window_seconds, dim) <= cap_along(rule, dim)->0 + SLACK
                + used_in_cut_bucket(
                history,
                rule.width(),
                history.last().ts - rule.window_seconds,
                dim,
            )
        }),
{
    let rules = states[0].rule_list();
    let rule = rules[place as int];
    let n = calls.len() as int;
    lemma_admitted_in_order(states, calls, decisions, place, caller, dim, n);
    super::accuracy::admissions_stay_within_the_cap_and_one_bucket(
        rule.window_seconds,
        rule.width() as i64,
        cap_along(rule, dim)->0,
        admitted(rules, calls, decisions, place, caller, n),
        now,
        dim,
    );
}

/// What a limiter admits under a precise rule stays within every cap of the rule in every
/// window of its width, whenever it ends, for every caller that the rule counts apart, and
/// in every dimension in which no call asks for a negative amount.
pub proof fn what_is_admitted_precisely_stays_within_the_cap<S: Store, C: Clock>(
    states: Seq<Limiter<S, C>>,
    calls: Seq<Call>,
    decisions: Seq<Decision>,
    place: usize,
    caller: Ask,
    dim: usize,
    t: int,
)
    requires
        S::obeys_model(),
        ran(states, calls, decisions),
        in_order_of_time(calls),
        forall|i: int|
            0 <= i < calls.len() ==> (#[trigger] calls[i]).ask.used().along(dim) >= 0,
        states[0].rule_list().len() <= usize::MAX,
        states[0].rule_list()[place as int].precise,
        cap_along(states[0].rule_list()[place as int], dim) is Some,
        0 <= cap_along(states[0].rule_list()[place as int], dim)->0 + SLACK,
        used_in_all(
            admitted(
                states[0].rule_list(),
                calls,
                decisions,
                place,
                caller,
                calls.len() as int,
            ),
            dim,
        ) < i128::MAX,
    ensures
        ({
            let rule = states[0].rule_list()[place as int];
            let history = admitted(
                states[0].rule_list(),
                calls,
                decisions,
                place,
                caller,
                calls.len() as int,
            );
            used_between(history, t - rule.window_seconds, t, dim) <= cap_along(rule, dim)->0
                + SLACK
        }),
{
    let rules = states[0].rule_list();
    let rule = rules[place as int];
    let n = calls.len() as int;
    lemma_admitted_in_order(states, calls, decisions, place, caller, dim, n);
    super::accuracy::admissions_of_a_log_stay_within_the_cap(
        rule.window_seconds,
        cap_along(rule, dim)->0,
        admitted(rules, calls, decisions, place, caller, n),
        t,
        dim,
    );
}

} // verus!
