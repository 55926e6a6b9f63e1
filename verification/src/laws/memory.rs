//! Laws of memory: buckets are bounded in number, whatever the traffic.

use super::accuracy::{replayed, Recorded};
use super::windows::lemma_bucket_of;
use crate::rules::{ceil_div, LimitRule};
use crate::window::{
    ascending, bucket_index, bucket_live, bucket_place, bucket_recorded, event_place,
    event_recorded, has_bucket, live_buckets, live_events, Bucket, Event, WindowModel,
};
use vstd::prelude::*;

verus! {

/// Whether the calls of a history were recorded in the order of time.
pub open spec fn in_order(calls: Seq<Recorded>) -> bool {
    forall|i: int, j: int|
        0 <= i < j < calls.len() ==> (#[trigger] calls[i]).ts <= (#[trigger] calls[j]).ts
}

/// Ascending indices between two bounds are no more than fit between them.
proof fn lemma_fit_between(buckets: Seq<Bucket>, from: int, to: int)
    requires
        ascending(buckets),
        forall|i: int|
            0 <= i < buckets.len() ==> from <= (#[trigger] buckets[i]).index && buckets[i].index
                <= to,
        from <= to + 1,
    ensures
        buckets.len() <= to - from + 1,
    decreases buckets.len(),
{
    if buckets.len() > 0 {
        let shorter = buckets.drop_last();
        super::contents::lemma_content_drop_last(buckets, 0);
        let last = buckets[buckets.len() - 1];
        assert(from <= last.index <= to);
        assert forall|i: int| 0 <= i < shorter.len() implies from <= (#[trigger] shorter[i]).index
            && shorter[i].index <= last.index - 1 by {
            assert(from <= buckets[i].index);
            assert(buckets[i].index < buckets[buckets.len() - 1].index);
        }
        lemma_fit_between(shorter, from, last.index - 1);
    }
}

/// Recording adds no bucket but the one recorded in.
proof fn lemma_recorded_from(buckets: Seq<Bucket>, at: i64, used: crate::window::Usage, i: int)
    requires
        ascending(buckets),
        0 <= i < bucket_recorded(buckets, at, used).len(),
    ensures
        bucket_recorded(buckets, at, used)[i].index == at || exists|j: int|
            0 <= j < buckets.len() && (#[trigger] buckets[j]).index == bucket_recorded(
                buckets,
                at,
                used,
            )[i].index,
{
    crate::window::lemma_bucket_place(buckets, at as int);
    let place = bucket_place(buckets, at as int);
    let longer = bucket_recorded(buckets, at, used);
    if has_bucket(buckets, at as int) {
        assert(buckets[i].index == longer[i].index);
    } else if i < place {
        assert(buckets[i].index == longer[i].index);
    } else if i > place {
        assert(buckets[i - 1].index == longer[i].index);
    }
}

/// After calls in the order of time, every bucket is no later than the last call and has
/// not left its window.
proof fn lemma_buckets_between(window: i64, width: i64, calls: Seq<Recorded>)
    requires
        width >= 1,
        window >= 0,
        in_order(calls),
        calls.len() > 0,
    ensures
        replayed(window, width, calls).wf(),
        replayed(window, width, calls) matches WindowModel::Buckets { window: w, width: v, buckets }
            && w == window && v == width && forall|i: int|
            0 <= i < buckets.len() ==> (#[trigger] buckets[i]).index <= bucket_index(
                calls.last().ts as int,
                width as int,
            ) && bucket_live(buckets[i], width as int, calls.last().ts - window),
    decreases calls.len(),
{
    let w = width as int;
    let call = calls.last();
    let shorter = calls.drop_last();
    let before = replayed(window, width, shorter);
    let at = bucket_index(call.ts as int, w) as i64;
    lemma_bucket_of(call.ts, width);
    if shorter.len() > 0 {
        assert(in_order(shorter)) by {
            assert forall|i: int, j: int| 0 <= i < j < shorter.len() implies (
            #[trigger] shorter[i]).ts <= (#[trigger] shorter[j]).ts by {
                assert(calls[i].ts <= calls[j].ts);
            }
        }
        lemma_buckets_between(window, width, shorter);
        assert(calls[calls.len() - 2].ts <= calls[calls.len() - 1].ts);
        vstd::arithmetic::div_mod::lemma_div_is_ordered(
            shorter.last().ts as int,
            call.ts as int,
            w,
        );
    }
    super::windows::recording_keeps_windows_well_formed(before, call.ts, call.used);
    match before {
        WindowModel::Buckets { window: _, width: _, buckets } => {
            let lo = call.ts - window;
            let kept = live_buckets(buckets, w, lo);
            super::contents::lemma_live(buckets, w, lo);
            let longer = bucket_recorded(kept, at, call.used);
            assert forall|i: int| 0 <= i < longer.len() implies (#[trigger] longer[i]).index <= at
                && bucket_live(longer[i], w, lo) by {
                lemma_recorded_from(kept, at, call.used, i);
                if longer[i].index != at {
                    let j = choose|j: int|
                        0 <= j < kept.len() && (#[trigger] kept[j]).index == longer[i].index;
                    assert(bucket_live(kept[j], w, lo));
                    assert(buckets.contains(kept[j]));
                    let k = choose|k: int| 0 <= k < buckets.len() && buckets[k] == kept[j];
                    assert(buckets[k].index <= bucket_index(shorter.last().ts as int, w));
                }
            }
        },
        _ => {},
    }
}

/// After any number of calls in the order of time, a window holds no more buckets than
/// fit into it, and two for its edges.
pub proof fn buckets_are_bounded(window: i64, width: i64, calls: Seq<Recorded>)
    requires
        width >= 1,
        window >= 0,
        in_order(calls),
    ensures
        replayed(window, width, calls).bucket_count() <= window / width + 2,
{
    let (span, w) = (window as int, width as int);
    assert(0 <= span / w) by {
        vstd::arithmetic::div_mod::lemma_div_pos_is_pos(span, w);
    }
    if calls.len() > 0 {
        lemma_buckets_between(window, width, calls);
        let now = calls.last().ts as int;
        let lo = now - span;
        let (from, to) = (bucket_index(lo, w), bucket_index(now, w));
        match replayed(window, width, calls) {
            WindowModel::Buckets { buckets, .. } => {
                assert forall|i: int| 0 <= i < buckets.len() implies from <= (
                #[trigger] buckets[i]).index && buckets[i].index <= to by {
                    assert(bucket_live(buckets[i], w, lo));
                    let index = buckets[i].index as int;
                    assert(from <= index) by (nonlinear_arith)
                        requires
                            index * w + w > lo,
                            from == lo / w,
                            w >= 1,
                    ;
                }
                vstd::arithmetic::div_mod::lemma_div_is_ordered(lo, now, w);
                lemma_fit_between(buckets, from, to);
                assert(to - from <= span / w + 1) by (nonlinear_arith)
                    requires
                        from == (now - span) / w,
                        to == now / w,
                        w >= 1,
                        span >= 0,
                ;
            },
            _ => {},
        }
    }
}

/// How many buckets a rule splits its window into: at least one.
pub open spec fn parts(rule: LimitRule) -> int {
    if rule.buckets_per_window < 1 {
        1
    } else {
        rule.buckets_per_window as int
    }
}

/// The buckets of a rule are as narrow as they can be for as many of them as the rule
/// says, at least one, to fill its window; an exact log has none.
pub proof fn a_bucket_is_the_window_by_parts(rule: LimitRule)
    ensures
        rule.precise ==> rule.width() == 0,
        !rule.precise ==> {
            let n = if rule.buckets_per_window < 1 {
                1
            } else {
                rule.buckets_per_window as int
            };
            (rule.width() - 1) * n < rule.window_seconds <= rule.width() * n
        },
        i64::MIN <= rule.width() <= i64::MAX,
        !rule.precise ==> (rule.width() >= 1 <==> rule.window_seconds >= 1),
{
    let n = parts(rule);
    let span = rule.window_seconds as int;
    let w = ceil_div(span, n);
    vstd::arithmetic::div_mod::lemma_fundamental_div_mod(span + n - 1, n);
    vstd::arithmetic::div_mod::lemma_mod_bound(span + n - 1, n);
    assert((w - 1) * n < span <= w * n) by (nonlinear_arith)
        requires
            span + n - 1 == n * w + (span + n - 1) % n,
            0 <= (span + n - 1) % n < n,
            n >= 1,
    ;
    assert(i64::MIN <= w <= i64::MAX && (w >= 1 <==> span >= 1)) by (nonlinear_arith)
        requires
            (w - 1) * n < span <= w * n,
            n >= 1,
            i64::MIN <= span <= i64::MAX,
    ;
}

/// A rule that splits its window into `n` buckets holds no more than `n + 2` of them, for
/// a key, after any number of calls in the order of time.
pub proof fn a_rule_bounds_its_memory(rule: LimitRule, calls: Seq<Recorded>)
    requires
        !rule.precise,
        rule.window_seconds >= 0,
        in_order(calls),
    ensures
        replayed(rule.window_seconds, rule.width() as i64, calls).bucket_count() <= parts(rule)
            + 2,
{
    let n = parts(rule);
    let span = rule.window_seconds as int;
    let width = rule.width();
    assert(0 <= ceil_div(span, n) <= span && (span > 0 ==> ceil_div(span, n) > 0)) by (
        nonlinear_arith)
        requires
            n >= 1,
            span >= 0,
            ceil_div(span, n) == (span + n - 1) / n,
    ;
    if span == 0 {
        lemma_log_has_no_buckets(rule.window_seconds, calls);
    } else {
        buckets_are_bounded(rule.window_seconds, width as i64, calls);
        assert(span / width <= n) by (nonlinear_arith)
            requires
                width == (span + n - 1) / n,
                width >= 1,
                n >= 1,
                span >= 1,
        ;
    }
}

/// Recording drops what has left the window: a window then holds nothing but what still
/// counts, and what was just recorded.
pub proof fn what_has_left_is_dropped(window: WindowModel, now: i64, used: crate::window::Usage)
    requires
        window.wf(),
    ensures
        match window.added(now, used) {
            WindowModel::Buckets { window: span, width, buckets } => forall|i: int|
                0 <= i < buckets.len() ==> (#[trigger] buckets[i]).index * width + width > now
                    - span || buckets[i].index == now as int / width as int,
            WindowModel::Log { window: span, events, next_id } => forall|i: int|
                0 <= i < events.len() ==> (#[trigger] events[i]).ts > now - span || events[i].ts
                    == now,
        },
{
    match window {
        WindowModel::Buckets { window: span, width, buckets } => {
            let w = width as int;
            let kept = live_buckets(buckets, w, now - span);
            let at = bucket_index(now as int, w) as i64;
            lemma_bucket_of(now, width);
            super::contents::lemma_live(buckets, w, now - span);
            let longer = bucket_recorded(kept, at, used);
            assert forall|i: int| 0 <= i < longer.len() implies (#[trigger] longer[i]).index * width
                + width > now - span || longer[i].index == now as int / w by {
                lemma_recorded_from(kept, at, used, i);
                if longer[i].index != at {
                    let j = choose|j: int|
                        0 <= j < kept.len() && (#[trigger] kept[j]).index == longer[i].index;
                    assert(bucket_live(kept[j], w, now - span));
                }
            }
        },
        WindowModel::Log { window: span, events, next_id } => {
            let kept = live_events(events, now - span);
            let event = Event { id: next_id, ts: now, used };
            super::events::lemma_live(events, now - span);
            super::events::lemma_recorded_in_order(kept, event);
            let place = event_place(kept, now as int);
            let longer = event_recorded(kept, event);
            assert forall|i: int| 0 <= i < longer.len() implies (#[trigger] longer[i]).ts > now
                - span || longer[i].ts == now by {
                if i < place {
                    assert(longer[i] == kept[i]);
                } else if i > place {
                    assert(longer[i] == kept[i - 1]);
                }
            }
        },
    }
}

proof fn lemma_log_has_no_buckets(window: i64, calls: Seq<Recorded>)
    ensures
        replayed(window, 0, calls).bucket_count() == 0,
        replayed(window, 0, calls) is Log,
    decreases calls.len(),
{
    if calls.len() > 0 {
        lemma_log_has_no_buckets(window, calls.drop_last());
    }
}

} // verus!
