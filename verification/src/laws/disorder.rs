//! Laws of calls that come in any order of time: what a window counts at any time, also one
//! before calls that were recorded already.

use super::accuracy::{call_weight, replayed, weighted, width_inside, Recorded};
use super::admissions::cap_along;
use super::bucket_sums::bucket_weight;
use super::coverage::{asked, covers, fits, fits_under, fits_under_all};
use super::events::{event_sum, event_weight, size};
use super::histories::{part_inside, ran, spent, Call};
use super::windows::lemma_bucket_of;
use crate::admission::Ask;
use crate::clock::Clock;
use crate::fixed::sat;
use crate::limiter::{Decision, Limiter};
use crate::rules::LimitRule;
use crate::store::Store;
use crate::window::{
    ascending, bucket_end, bucket_index, bucket_live, bucket_place, bucket_recorded, event_place,
    has_bucket, live_buckets, live_events, Bucket, Event, Usage, WindowModel, COST, REQUESTS,
    TOKENS,
};
use vstd::prelude::*;

verus! {

/// The later of two times.
pub open spec fn later_of(a: int, b: int) -> int {
    if a < b {
        b
    } else {
        a
    }
}

/// What the calls of a history used after `lo`, in one dimension, and had not left the
/// window yet when any of the calls after them came.
pub open spec fn used_since(calls: Seq<Recorded>, window: i64, lo: int, dim: usize) -> int
    decreases calls.len(),
{
    if calls.len() == 0 {
        0
    } else {
        used_since(
            calls.drop_last(),
            window,
            later_of(lo, calls.last().ts - window),
            dim,
        ) + if calls.last().ts > lo {
            calls.last().used.along(dim) as int
        } else {
            0int
        }
    }
}

/// Dropping events and summing up the rest leaves those that are after both times.
proof fn lemma_sum_both(events: Seq<Event>, dropped: int, lo: int, dim: usize)
    ensures
        event_sum(live_events(events, dropped), lo, dim) == event_sum(
            events,
            later_of(lo, dropped),
            dim,
        ),
        event_weight(live_events(events, dropped), dim) <= event_weight(events, dim),
    decreases events.len(),
{
    reveal(Seq::filter);
    if events.len() > 0 {
        let pred = |e: Event| e.ts > dropped;
        let shorter = events.drop_last();
        lemma_sum_both(shorter, dropped, lo, dim);
        if pred(events.last()) {
            let kept = live_events(shorter, dropped);
            assert(live_events(events, dropped) =~= kept.push(events.last()));
            assert(kept.push(events.last()).drop_last() =~= kept);
        }
    }
}

/// What a log of a history holds.
proof fn lemma_log_since(window: i64, calls: Seq<Recorded>, lo: int, dim: usize)
    ensures
        replayed(window, 0, calls).wf(),
        replayed(window, 0, calls) matches WindowModel::Log { window: w, events, .. } && w
            == window && event_weight(events, dim) <= call_weight(calls, dim) && event_sum(
            events,
            lo,
            dim,
        ) == used_since(calls, window, lo, dim),
    decreases calls.len(),
{
    if calls.len() > 0 {
        let call = calls.last();
        let dropped = call.ts - window;
        lemma_log_since(window, calls.drop_last(), later_of(lo, dropped), dim);
        let before = replayed(window, 0, calls.drop_last());
        super::windows::recording_keeps_windows_well_formed(before, call.ts, call.used);
        match before {
            WindowModel::Log { window: w, events, next_id } => {
                let kept = live_events(events, dropped);
                let event = Event { id: next_id, ts: call.ts, used: call.used };
                lemma_sum_both(events, dropped, lo, dim);
                super::events::lemma_live(events, dropped);
                super::events::lemma_recorded_in_order(kept, event);
                super::events::lemma_sum_insert(
                    kept,
                    event_place(kept, call.ts as int),
                    event,
                    lo,
                    dim,
                );
            },
            _ => {},
        }
    }
}

/// An exact log counts, at any time, what was used inside the window and had not left it
/// when a later call was recorded, whatever the order of the calls.
pub proof fn a_log_is_exact_in_any_order(
    window: i64,
    calls: Seq<Recorded>,
    now: i64,
    dim: usize,
)
    requires
        call_weight(calls, dim) <= i128::MAX,
    ensures
        replayed(window, 0, calls).totals(now).along(dim) == used_since(
            calls,
            window,
            now - window,
            dim,
        ),
{
    lemma_log_since(window, calls, now - window, dim);
    super::waiting::lemma_totals(replayed(window, 0, calls), now, dim);
}

/// What the calls of a history used in one dimension, each weighted by how much of its
/// bucket lies after `lo`, as far as the bucket ended after `dropped` and had not left the
/// window yet when any of the calls after it came.
pub open spec fn parts_since(
    calls: Seq<Recorded>,
    window: i64,
    width: int,
    dropped: int,
    lo: int,
    dim: usize,
) -> int
    decreases calls.len(),
{
    if calls.len() == 0 {
        0
    } else {
        let ts = calls.last().ts as int;
        parts_since(
            calls.drop_last(),
            window,
            width,
            later_of(dropped, ts - window),
            lo,
            dim,
        ) + if ts / width * width + width > dropped {
            calls.last().used.along(dim) * part_inside(ts, width, lo)
        } else {
            0int
        }
    }
}

/// What the buckets of a list that end after a time hold in one dimension, each weighted by
/// how much of its width lies after `lo`.
spec fn weighted_from(
    buckets: Seq<Bucket>,
    width: int,
    dropped: int,
    lo: int,
    dim: usize,
) -> int
    decreases buckets.len(),
{
    if buckets.len() == 0 {
        0
    } else {
        weighted_from(buckets.drop_last(), width, dropped, lo, dim) + counted_from(
            buckets.last(),
            width,
            dropped,
            lo,
            dim,
        )
    }
}

/// What one bucket counts for.
spec fn counted_from(bucket: Bucket, width: int, dropped: int, lo: int, dim: usize) -> int {
    if bucket_live(bucket, width, dropped) {
        bucket.used.along(dim) * width_inside(bucket.index as int, width, lo)
    } else {
        0
    }
}

proof fn lemma_insert_from(
    buckets: Seq<Bucket>,
    at: int,
    bucket: Bucket,
    width: int,
    dropped: int,
    lo: int,
    dim: usize,
)
    requires
        0 <= at <= buckets.len(),
    ensures
        weighted_from(buckets.insert(at, bucket), width, dropped, lo, dim) == weighted_from(
            buckets,
            width,
            dropped,
            lo,
            dim,
        ) + counted_from(bucket, width, dropped, lo, dim),
        bucket_weight(buckets.insert(at, bucket), dim) == bucket_weight(buckets, dim) + size(
            bucket.used.along(dim) as int,
        ),
    decreases buckets.len(),
{
    if at == buckets.len() {
        assert(buckets.insert(at, bucket).drop_last() =~= buckets);
    } else {
        lemma_insert_from(buckets.drop_last(), at, bucket, width, dropped, lo, dim);
        assert(buckets.insert(at, bucket).drop_last() =~= buckets.drop_last().insert(at, bucket));
    }
}

proof fn lemma_update_from(
    buckets: Seq<Bucket>,
    at: int,
    bucket: Bucket,
    width: int,
    dropped: int,
    lo: int,
    dim: usize,
)
    requires
        0 <= at < buckets.len(),
    ensures
        weighted_from(buckets.update(at, bucket), width, dropped, lo, dim) == weighted_from(
            buckets,
            width,
            dropped,
            lo,
            dim,
        ) + counted_from(bucket, width, dropped, lo, dim) - counted_from(
            buckets[at],
            width,
            dropped,
            lo,
            dim,
        ),
        bucket_weight(buckets.update(at, bucket), dim) == bucket_weight(buckets, dim) + size(
            bucket.used.along(dim) as int,
        ) - size(buckets[at].used.along(dim) as int),
    decreases buckets.len(),
{
    if at == buckets.len() - 1 {
        assert(buckets.update(at, bucket).drop_last() =~= buckets.drop_last());
    } else {
        lemma_update_from(buckets.drop_last(), at, bucket, width, dropped, lo, dim);
        assert(buckets.update(at, bucket).drop_last() =~= buckets.drop_last().update(at, bucket));
    }
}

/// Dropping buckets at one time and leaving some out at another leaves those that end after
/// both.
proof fn lemma_live_from(
    buckets: Seq<Bucket>,
    width: int,
    earlier: int,
    dropped: int,
    lo: int,
    dim: usize,
)
    ensures
        weighted_from(live_buckets(buckets, width, earlier), width, dropped, lo, dim)
            == weighted_from(buckets, width, later_of(dropped, earlier), lo, dim),
        bucket_weight(live_buckets(buckets, width, earlier), dim) <= bucket_weight(buckets, dim),
    decreases buckets.len(),
{
    reveal(Seq::filter);
    if buckets.len() > 0 {
        let pred = |b: Bucket| bucket_live(b, width, earlier);
        let shorter = buckets.drop_last();
        let last = buckets.last();
        lemma_live_from(shorter, width, earlier, dropped, lo, dim);
        let kept = live_buckets(shorter, width, earlier);
        if pred(last) {
            assert(live_buckets(buckets, width, earlier) =~= kept.push(last));
            assert(kept.push(last).drop_last() =~= kept);
        } else {
            assert(live_buckets(buckets, width, earlier) =~= kept);
        }
    }
}

/// Recording usage adds it once.
proof fn lemma_recorded_from(
    buckets: Seq<Bucket>,
    at: i64,
    used: Usage,
    width: int,
    dropped: int,
    lo: int,
    dim: usize,
)
    requires
        ascending(buckets),
        bucket_weight(buckets, dim) + size(used.along(dim) as int) <= i128::MAX,
    ensures
        weighted_from(bucket_recorded(buckets, at, used), width, dropped, lo, dim)
            == weighted_from(buckets, width, dropped, lo, dim) + if bucket_end(
            at as int,
            width,
        ) > dropped {
            used.along(dim) * width_inside(at as int, width, lo)
        } else {
            0
        },
        bucket_weight(bucket_recorded(buckets, at, used), dim) <= bucket_weight(buckets, dim)
            + size(used.along(dim) as int),
{
    crate::window::lemma_bucket_place(buckets, at as int);
    let place = bucket_place(buckets, at as int);
    if has_bucket(buckets, at as int) {
        super::counting::lemma_one_of(buckets, place, dim);
        let changed = Bucket { index: at, used: buckets[place].used.and(used) };
        lemma_update_from(buckets, place, changed, width, dropped, lo, dim);
        let (v, u, part) = (
            buckets[place].used.along(dim) as int,
            used.along(dim) as int,
            width_inside(at as int, width, lo),
        );
        assert(changed.used.along(dim) == v + u);
        assert((v + u) * part == v * part + u * part) by (nonlinear_arith);
    } else {
        lemma_insert_from(buckets, place, Bucket { index: at, used }, width, dropped, lo, dim);
    }
}

/// What the buckets of a history hold.
proof fn lemma_buckets_since(
    window: i64,
    width: i64,
    calls: Seq<Recorded>,
    dropped: int,
    lo: int,
    dim: usize,
)
    requires
        width >= 1,
        call_weight(calls, dim) <= i128::MAX,
    ensures
        replayed(window, width, calls).wf(),
        replayed(window, width, calls) matches WindowModel::Buckets { window: w, width: v, buckets }
            && w == window && v == width && bucket_weight(buckets, dim) <= call_weight(calls, dim)
            && weighted_from(buckets, width as int, dropped, lo, dim) == parts_since(
            calls,
            window,
            width as int,
            dropped,
            lo,
            dim,
        ),
    decreases calls.len(),
{
    let w = width as int;
    if calls.len() > 0 {
        let call = calls.last();
        let earlier = call.ts - window;
        super::accuracy::lemma_shorter(calls, 0, dim);
        lemma_buckets_since(
            window,
            width,
            calls.drop_last(),
            later_of(dropped, earlier),
            lo,
            dim,
        );
        let before = replayed(window, width, calls.drop_last());
        super::windows::recording_keeps_windows_well_formed(before, call.ts, call.used);
        match before {
            WindowModel::Buckets { window: _, width: _, buckets } => {
                let kept = live_buckets(buckets, w, earlier);
                let at = bucket_index(call.ts as int, w) as i64;
                lemma_bucket_of(call.ts, width);
                lemma_live_from(buckets, w, earlier, dropped, lo, dim);
                super::contents::lemma_content_live(buckets, w, earlier, 0);
                lemma_recorded_from(kept, at, call.used, w, dropped, lo, dim);
            },
            _ => {},
        }
    }
}

/// Buckets that ended by the opening of a window count for nothing in it anyway.
proof fn lemma_weighted_from(buckets: Seq<Bucket>, width: int, lo: int, dim: usize)
    ensures
        weighted_from(buckets, width, lo, lo, dim) == weighted(buckets, width, lo, dim),
    decreases buckets.len(),
{
    if buckets.len() > 0 {
        lemma_weighted_from(buckets.drop_last(), width, lo, dim);
        assert(buckets.last().used.along(dim) * 0 == 0);
    }
}

/// Buckets count, at any time, the prorated sum of what was recorded and had not left the
/// window when a later call was recorded, whatever the order of the calls.
pub proof fn buckets_count_the_prorated_sum_in_any_order(
    window: i64,
    width: i64,
    calls: Seq<Recorded>,
    now: i64,
    dim: usize,
)
    requires
        width >= 1,
        call_weight(calls, dim) <= i128::MAX,
    ensures
        replayed(window, width, calls).totals(now).along(dim) == parts_since(
            calls,
            window,
            width as int,
            now - window,
            now - window,
            dim,
        ) / (width as int),
{
    let lo = now - window;
    lemma_buckets_since(window, width, calls, lo, lo, dim);
    let model = replayed(window, width, calls);
    if let WindowModel::Buckets { buckets, .. } = model {
        lemma_weighted_from(buckets, width as int, lo, dim);
        super::accuracy::lemma_sum_is_quotient(buckets, width as int, lo, dim);
    }
    super::waiting::lemma_totals(model, now, dim);
}

/// What a history comes to, for a rule, at any time.
pub open spec fn comes_to_at(
    rule: LimitRule,
    history: Seq<Recorded>,
    now: i64,
    dim: usize,
) -> int {
    let lo = now - rule.window_seconds;
    if rule.precise || rule.window_seconds <= 0 {
        used_since(history, rule.window_seconds, lo, dim)
    } else {
        parts_since(history, rule.window_seconds, rule.width(), lo, lo, dim) / rule.width()
    }
}

/// A rule reads what its history comes to.
proof fn lemma_comes_to_at(rule: LimitRule, history: Seq<Recorded>, now: i64, dim: usize)
    requires
        call_weight(history, dim) <= i128::MAX,
    ensures
        replayed(rule.window_seconds, rule.width() as i64, history).totals(now).along(dim)
            == comes_to_at(rule, history, now, dim),
{
    super::memory::a_bucket_is_the_window_by_parts(rule);
    if rule.precise || rule.window_seconds <= 0 {
        super::histories::lemma_any_log(rule.window_seconds, rule.width() as i64, history);
        a_log_is_exact_in_any_order(rule.window_seconds, history, now, dim);
    } else {
        buckets_count_the_prorated_sum_in_any_order(
            rule.window_seconds,
            rule.width() as i64,
            history,
            now,
            dim,
        );
    }
}

/// Whether a call stays within the cap of a rule in one dimension, given what was spent.
/// The slack is one billionth. Sums saturate.
pub open spec fn affordable_at(
    rule: LimitRule,
    history: Seq<Recorded>,
    ask: Ask,
    dim: usize,
) -> bool {
    cap_along(rule, dim) matches Some(cap) ==> sat(
        comes_to_at(rule, history, ask.now, dim) + asked(ask, dim),
    ) <= sat(cap + 1)
}

/// A call is admitted if and only if, under every rule for its model and in every dimension
/// that the rule caps, what was admitted before and still counts leaves room for it. The
/// calls may come in any order of time.
pub proof fn what_was_admitted_before_decides_in_any_order<S: Store, C: Clock>(
    states: Seq<Limiter<S, C>>,
    calls: Seq<Call>,
    decisions: Seq<Decision>,
    n: int,
)
    requires
        S::obeys_model(),
        ran(states, calls, decisions),
        0 <= n < calls.len(),
        forall|i: int, dim: usize|
            #![trigger cap_along(states[0].rule_list()[i], dim)]
            0 <= i < states[0].rule_list().len() && dim < 3 ==> call_weight(
                spent(states[0].rule_list()[i], calls, decisions, calls[n].ask, n),
                dim,
            ) <= i128::MAX,
    ensures
        decisions[n].allowed <==> forall|i: int, dim: usize|
            #![trigger cap_along(states[0].rule_list()[i], dim)]
            0 <= i < states[0].rule_list().len() && dim < 3 && covers(
                states[0].rule_list()[i],
                calls[n].model,
            ) ==> affordable_at(
                states[0].rule_list()[i],
                spent(states[0].rule_list()[i], calls, decisions, calls[n].ask, n),
                calls[n].ask,
                dim,
            ),
{
    let rules = states[0].rule_list();
    let (before, call) = (states[n], calls[n]);
    let ask = call.ask;
    let store = before.backing().model();
    states[0].lemma_rule_count();
    super::histories::lemma_same_rules(states, calls, decisions, n);
    assert(states[n].decided(states[n + 1], call.model, ask, true, decisions[n]));
    super::coverage::what_fits_under_every_rule_is_admitted(rules, call.model, store, ask);
    assert(decisions[n].allowed <==> fits_under_all(rules, call.model, store, ask));
    assert forall|i: int, dim: usize|
        #![trigger cap_along(rules[i], dim)]
        0 <= i < rules.len() && dim < 3 && cap_along(rules[i], dim) is Some implies (
    affordable_at(rules[i], spent(rules[i], calls, decisions, ask, n), ask, dim) <==> fits(
        rules,
        i,
        store,
        ask,
        dim,
    )) by {
        let place = i as usize;
        let history = spent(rules[i], calls, decisions, ask, n);
        super::histories::lemma_spent(rules, calls, decisions, place, ask, n);
        super::histories::a_window_holds_what_was_admitted(
            states,
            calls,
            decisions,
            place,
            ask,
            n,
        );
        lemma_comes_to_at(rules[i], history, ask.now, dim);
        assert(dim == TOKENS || dim == REQUESTS || dim == COST);
    }
    if fits_under_all(rules, call.model, store, ask) {
        assert forall|i: int, dim: usize|
            #![trigger cap_along(rules[i], dim)]
            0 <= i < rules.len() && dim < 3 && covers(rules[i], call.model) implies affordable_at(
            rules[i],
            spent(rules[i], calls, decisions, ask, n),
            ask,
            dim,
        ) by {
            assert(fits_under(rules, i, store, ask));
            assert(dim == TOKENS || dim == REQUESTS || dim == COST);
        }
    } else {
        let i = choose|i: int|
            0 <= i < rules.len() && covers(#[trigger] rules[i], call.model) && !fits_under(
                rules,
                i,
                store,
                ask,
            );
        let dim = if !fits(rules, i, store, ask, TOKENS) {
            TOKENS
        } else if !fits(rules, i, store, ask, REQUESTS) {
            REQUESTS
        } else {
            COST
        };
        assert(cap_along(rules[i], dim) is Some);
        assert(!affordable_at(rules[i], spent(rules[i], calls, decisions, ask, n), ask, dim));
    }
}

} // verus!
