//! Laws of the two sliding-window engines.

use super::contents::content;
use super::events::all_changed;
use crate::fixed::sat;
use crate::window::{
    ascending, bucket_adjusted, bucket_end, bucket_index, bucket_place, bucket_recorded,
    event_adjusted, event_place, event_recorded, has_bucket, id_after, ids_distinct, live_buckets,
    live_events, Bucket, Event, Handle, Usage, WindowModel,
};
use vstd::prelude::*;

verus! {

/// What turns one usage into another.
pub open spec fn difference(to: Usage, from: Usage) -> Usage {
    Usage {
        tokens: sat(to.tokens - from.tokens) as i128,
        requests: sat(to.requests - from.requests) as i128,
        cost: sat(to.cost - from.cost) as i128,
    }
}

/// The index of the bucket that holds a point in time is an `i64`, and the bucket has not
/// ended.
pub proof fn lemma_bucket_of(now: i64, width: i64)
    requires
        width >= 1,
    ensures
        i64::MIN <= bucket_index(now as int, width as int) <= i64::MAX,
        bucket_end(bucket_index(now as int, width as int), width as int) > now,
        bucket_index(now as int, width as int) * width <= now,
{
    let (t, w) = (now as int, width as int);
    vstd::arithmetic::div_mod::lemma_fundamental_div_mod(t, w);
    assert(w * (t / w) == (t / w) * w) by (nonlinear_arith);
    assert(i64::MIN <= t / w <= i64::MAX) by (nonlinear_arith)
        requires
            w >= 1,
            i64::MIN <= t <= i64::MAX,
    ;
}

/// Recording usage leaves a window well formed.
pub proof fn recording_keeps_windows_well_formed(window: WindowModel, now: i64, used: Usage)
    requires
        window.wf(),
    ensures
        window.added(now, used).wf(),
{
    match window {
        WindowModel::Buckets { window, width, buckets } => {
            super::contents::lemma_content_live(buckets, width as int, now - window, 0);
            super::contents::lemma_content_recorded(
                live_buckets(buckets, width as int, now - window),
                bucket_index(now as int, width as int) as i64,
                used,
                0,
            );
        },
        WindowModel::Log { window, events, next_id } => {
            let lo = now - window;
            let kept = live_events(events, lo);
            let event = Event { id: next_id, ts: now, used };
            super::events::lemma_live(events, lo);
            super::events::lemma_recorded_in_order(kept, event);
            if id_after(next_id) < u64::MAX {
                let place = event_place(kept, now as int);
                let longer = event_recorded(kept, event);
                assert(ids_distinct(kept, next_id));
                assert forall|i: int| 0 <= i < longer.len() implies (#[trigger] longer[i]).id
                    < id_after(next_id) by {
                    if i < place {
                        assert(longer[i] == kept[i]);
                    } else if i > place {
                        assert(longer[i] == kept[i - 1]);
                    }
                }
                assert forall|i: int, j: int| 0 <= i < j < longer.len() implies (
                #[trigger] longer[i]).id != (#[trigger] longer[j]).id by {
                    let a = if i < place {
                        i
                    } else {
                        i - 1
                    };
                    let b = if j < place {
                        j
                    } else {
                        j - 1
                    };
                    if i != place {
                        assert(longer[i] == kept[a]);
                    }
                    if j != place {
                        assert(longer[j] == kept[b]);
                    }
                    if i != place && j != place {
                        assert(kept[a].id != kept[b].id);
                    }
                }
            }
        },
    }
}

/// Recording no usage at all changes no total, at that time or later.
pub proof fn recording_nothing_changes_no_total(window: WindowModel, now: i64, later: i64)
    requires
        window.wf(),
        now <= later,
    ensures
        window.added(now, Usage::none()).totals(later) == window.totals(later),
{
    match window {
        WindowModel::Buckets { window, width, buckets } => {
            let w = width as int;
            let index = bucket_index(now as int, w) as i64;
            let kept = live_buckets(buckets, w, now - window);
            let longer = bucket_recorded(kept, index, Usage::none());
            super::contents::lemma_content_live(buckets, w, now - window, 0);
            super::contents::lemma_content_recorded(kept, index, Usage::none(), 0);
            assert forall|i: int| bucket_end(i, w) > later - window implies #[trigger] content(
                longer,
                i,
            ) == content(buckets, i) by {
                super::contents::lemma_content_live(buckets, w, now - window, i);
                super::contents::lemma_content_recorded(kept, index, Usage::none(), i);
                let held = content(kept, i);
                assert(held.and(Usage::none()) == held);
            }
            super::contents::lemma_total_by_content(longer, buckets, w, later - window);
        },
        WindowModel::Log { window, events, next_id } => {
            let kept = live_events(events, now - window);
            let event = Event { id: next_id, ts: now, used: Usage::none() };
            super::events::lemma_live(events, now - window);
            super::events::lemma_recorded_in_order(kept, event);
            super::events::lemma_total_insert_nothing(
                kept,
                event_place(kept, now as int),
                event,
                later - window,
            );
            super::events::lemma_total_live(events, now - window, later - window);
        },
    }
}

/// Whether two usages can be added, dimension by dimension, without leaving `i128`.
pub open spec fn can_add(a: Usage, b: Usage) -> bool {
    &&& i128::MIN <= a.tokens + b.tokens <= i128::MAX
    &&& i128::MIN <= a.requests + b.requests <= i128::MAX
    &&& i128::MIN <= a.cost + b.cost <= i128::MAX
}

/// Whether one usage can be taken from another, dimension by dimension, without leaving
/// `i128`.
pub open spec fn can_subtract(a: Usage, b: Usage) -> bool {
    &&& i128::MIN <= a.tokens - b.tokens <= i128::MAX
    &&& i128::MIN <= a.requests - b.requests <= i128::MAX
    &&& i128::MIN <= a.cost - b.cost <= i128::MAX
}

/// Whether usage that is recorded at `now` can be reconciled to another without loss: no
/// sum saturates, and the ids of a log have not run out.
pub open spec fn can_reconcile(
    window: WindowModel,
    now: i64,
    estimate: Usage,
    actual: Usage,
) -> bool {
    &&& can_subtract(actual, estimate)
    &&& match window {
        WindowModel::Buckets { window, width, buckets } => {
            let held = content(
                live_buckets(buckets, width as int, now - window),
                bucket_index(now as int, width as int),
            );
            can_add(held, estimate) && can_add(held, actual)
        },
        WindowModel::Log { next_id, .. } => next_id < u64::MAX,
    }
}

/// Recording an estimate and then reconciling the entry to the actual usage is the same
/// as recording the actual usage in the first place.
pub proof fn reconciling_records_the_actual_usage(
    window: WindowModel,
    now: i64,
    estimate: Usage,
    actual: Usage,
)
    requires
        window.wf(),
        can_reconcile(window, now, estimate, actual),
    ensures
        window.added(now, estimate).adjusted(window.handle(now), difference(actual, estimate))
            == window.added(now, actual),
{
    let delta = difference(actual, estimate);
    match window {
        WindowModel::Buckets { window, width, buckets } => {
            let w = width as int;
            lemma_bucket_of(now, width);
            let index = bucket_index(now as int, w) as i64;
            let kept = live_buckets(buckets, w, now - window);
            super::contents::lemma_content_live(buckets, w, now - window, index as int);
            let longer = bucket_recorded(kept, index, estimate);
            super::contents::lemma_content_recorded(kept, index, estimate, index as int);
            crate::window::lemma_bucket_place(kept, index as int);
            let place = bucket_place(kept, index as int);
            assert(longer[place].index == index);
            super::contents::lemma_content_at(longer, place);
            assert(bucket_adjusted(longer, index, delta) =~= bucket_recorded(kept, index, actual));
        },
        WindowModel::Log { window, events, next_id } => {
            let kept = live_events(events, now - window);
            let event = Event { id: next_id, ts: now, used: estimate };
            super::events::lemma_live(events, now - window);
            super::events::lemma_recorded_in_order(kept, event);
            assert(ids_distinct(kept, next_id));
            let place = event_place(kept, now as int);
            let longer = event_recorded(kept, event);
            assert forall|i: int| 0 <= i < longer.len() && i != place implies (
            #[trigger] longer[i]).id != next_id by {
                if i < place {
                    assert(longer[i] == kept[i]);
                } else {
                    assert(longer[i] == kept[i - 1]);
                }
            }
            assert(longer[place] == event);
            assert(crate::window::event_found(longer, next_id, place));
            let at = choose|at: int| crate::window::event_found(longer, next_id, at);
            assert(at == place);
            assert(event_adjusted(longer, next_id, delta) =~= event_recorded(
                kept,
                Event { id: next_id, ts: now, used: actual },
            ));
        },
    }
}

/// Whether an entry that a window holds can be reconciled before or after more usage is
/// recorded: no sum saturates, the ids of a log have not run out, and a bucket has not
/// left the window while it is still being recorded in.
pub open spec fn can_wait(
    window: WindowModel,
    handle: Handle,
    delta: Usage,
    later: i64,
    used: Usage,
) -> bool {
    match (window, handle) {
        (WindowModel::Buckets { window, width, buckets }, Handle::Bucket(index)) => {
            let held = content(buckets, index as int);
            &&& has_bucket(buckets, index as int)
            &&& bucket_index(later as int, width as int) == index ==> {
                &&& window >= 0
                &&& can_add(held, delta)
                &&& can_add(held, used)
                &&& can_add(held.and(delta), used)
            }
        },
        (WindowModel::Log { next_id, .. }, Handle::Precise(id)) => id < next_id
            < u64::MAX - 1,
        _ => false,
    }
}

/// What buckets hold at an index once one was adjusted and one recorded in, in either
/// order.
proof fn lemma_either_order(
    buckets: Seq<Bucket>,
    width: int,
    lo: int,
    place: i64,
    used: Usage,
    index: i64,
    delta: Usage,
    i: int,
)
    requires
        ascending(buckets),
        has_bucket(buckets, index as int),
        place == index ==> {
            let held = content(buckets, index as int);
            &&& bucket_end(index as int, width) > lo
            &&& can_add(held, delta)
            &&& can_add(held, used)
            &&& can_add(held.and(delta), used)
        },
    ensures
        ({
            let one = bucket_adjusted(
                bucket_recorded(live_buckets(buckets, width, lo), place, used),
                index,
                delta,
            );
            let two = bucket_recorded(
                live_buckets(bucket_adjusted(buckets, index, delta), width, lo),
                place,
                used,
            );
            &&& ascending(one)
            &&& ascending(two)
            &&& content(one, i) == content(two, i)
            &&& has_bucket(one, i) == has_bucket(two, i)
        }),
{
    let kept = live_buckets(buckets, width, lo);
    let longer = bucket_recorded(kept, place, used);
    let adjusted = bucket_adjusted(buckets, index, delta);
    let left = live_buckets(adjusted, width, lo);
    super::contents::lemma_content_live(buckets, width, lo, index as int);
    super::contents::lemma_content_recorded(kept, place, used, index as int);
    super::contents::lemma_content_live(buckets, width, lo, i);
    super::contents::lemma_content_recorded(kept, place, used, i);
    super::contents::lemma_content_adjusted(longer, index, delta, i);
    super::contents::lemma_content_adjusted(buckets, index, delta, i);
    super::contents::lemma_content_live(adjusted, width, lo, i);
    super::contents::lemma_content_recorded(left, place, used, i);
}

/// Reconciling an entry and recording more usage, at whatever time, can be done in either
/// order.
pub proof fn reconciling_and_recording_commute(
    window: WindowModel,
    handle: Handle,
    delta: Usage,
    later: i64,
    used: Usage,
)
    requires
        window.wf(),
        can_wait(window, handle, delta, later, used),
    ensures
        window.added(later, used).adjusted(handle, delta) == window.adjusted(
            handle,
            delta,
        ).added(later, used),
{
    match (window, handle) {
        (WindowModel::Buckets { window, width, buckets }, Handle::Bucket(index)) => {
            let w = width as int;
            let lo = later - window;
            let place = bucket_index(later as int, w) as i64;
            lemma_bucket_of(later, width);
            let one = bucket_adjusted(
                bucket_recorded(live_buckets(buckets, w, lo), place, used),
                index,
                delta,
            );
            let two = bucket_recorded(
                live_buckets(bucket_adjusted(buckets, index, delta), w, lo),
                place,
                used,
            );
            assert forall|i: int|
                #![trigger content(one, i)]
                content(one, i) == content(two, i) && has_bucket(one, i) == has_bucket(
                    two,
                    i,
                ) by {
                lemma_either_order(buckets, w, lo, place, used, index, delta, i);
            }
            lemma_either_order(buckets, w, lo, place, used, index, delta, 0);
            super::contents::lemma_same_contents(one, two);
        },
        (WindowModel::Log { window, events, next_id }, Handle::Precise(id)) => {
            let lo = later - window;
            let event = Event { id: next_id, ts: later, used };
            let kept = live_events(events, lo);
            let longer = event_recorded(kept, event);
            let place = event_place(kept, later as int);
            super::events::lemma_live(events, lo);
            super::events::lemma_recorded_in_order(kept, event);
            recording_keeps_windows_well_formed(
                WindowModel::Log { window, events, next_id },
                later,
                used,
            );
            super::events::lemma_adjusted(longer, id_after(next_id), id, delta);
            super::events::lemma_adjusted(events, next_id, id, delta);
            super::events::lemma_changed_keeps_order(events, id, delta, later as int, lo);
            super::events::lemma_changed_keeps_order(kept, id, delta, later as int, lo);
            assert(all_changed(longer, id, delta) =~= all_changed(kept, id, delta).insert(
                place,
                event,
            ));
        },
        _ => {},
    }
}

} // verus!
