//! Laws of counting: what is recorded counts once, from then until it has left the
//! window, whatever the order.

use super::bucket_sums::{bucket_sum, bucket_weight};
use super::contents::content;
use super::events::{event_sum, event_weight, size};
use super::waiting::{exact_total, weight};
use super::windows::lemma_bucket_of;
use crate::window::{
    ascending, bucket_adjusted, bucket_end, bucket_index, bucket_live, bucket_place,
    bucket_recorded, bucket_share, bucket_start, event_adjusted, event_found, event_place,
    event_total, has_bucket, live_buckets, live_events, usage_of, Bucket, Event, Handle, Usage,
    WindowModel, COST, REQUESTS, TOKENS,
};
use vstd::prelude::*;

verus! {

/// Whether a window has room for some sizes beyond what it holds, so that no sum
/// saturates.
pub open spec fn room_for(window: WindowModel, a: Usage, b: Usage) -> bool {
    forall|dim: usize| #[trigger]
        weight(window, dim) + size(a.along(dim) as int) + size(b.along(dim) as int) <= i128::MAX
}

/// Whether what is recorded at `now` counts in full at a later time.
pub open spec fn counts_in_full(window: WindowModel, now: i64, later: i64) -> bool {
    match window {
        WindowModel::Buckets { window, width, .. } => bucket_start(
            bucket_index(now as int, width as int),
            width as int,
        ) >= later - window,
        WindowModel::Log { window, .. } => now > later - window,
    }
}

/// Whether what is recorded at `now` no longer counts at a later time.
pub open spec fn has_left(window: WindowModel, now: i64, later: i64) -> bool {
    match window {
        WindowModel::Buckets { window, width, .. } => bucket_end(
            bucket_index(now as int, width as int),
            width as int,
        ) <= later - window,
        WindowModel::Log { window, .. } => now <= later - window,
    }
}

/// Usage has left a window once the width of the window and of one bucket have passed; in
/// an exact log, once the width of the window has.
pub proof fn usage_leaves_in_time(window: WindowModel, now: i64, later: i64)
    requires
        window.wf(),
        now + window.span() + match window {
            WindowModel::Buckets { width, .. } => width as int,
            WindowModel::Log { .. } => 0,
        } <= later,
    ensures
        has_left(window, now, later),
{
    if let WindowModel::Buckets { window, width, .. } = window {
        lemma_bucket_of(now, width);
    }
}

/// An event that is over changes no total, wherever it is put.
proof fn lemma_total_insert_over(events: Seq<Event>, at: int, event: Event, lo: int)
    requires
        0 <= at <= events.len(),
        event.ts <= lo,
    ensures
        event_total(events.insert(at, event), lo) == event_total(events, lo),
    decreases events.len(),
{
    if at == events.len() {
        assert(events.insert(at, event).drop_last() =~= events);
    } else {
        lemma_total_insert_over(events.drop_last(), at, event, lo);
        assert(events.insert(at, event).drop_last() =~= events.drop_last().insert(at, event));
    }
}

/// What has left a window does not count: the totals are as if it had never been
/// recorded.
pub proof fn what_has_left_does_not_count(
    window: WindowModel,
    now: i64,
    used: Usage,
    later: i64,
)
    requires
        window.wf(),
        now <= later,
        has_left(window, now, later),
    ensures
        window.added(now, used).totals(later) == window.totals(later),
{
    match window {
        WindowModel::Buckets { window, width, buckets } => {
            let w = width as int;
            let index = bucket_index(now as int, w) as i64;
            let kept = live_buckets(buckets, w, now - window);
            let longer = bucket_recorded(kept, index, used);
            lemma_bucket_of(now, width);
            super::contents::lemma_content_live(buckets, w, now - window, 0);
            super::contents::lemma_content_recorded(kept, index, used, 0);
            assert forall|i: int| bucket_end(i, w) > later - window implies #[trigger] content(
                longer,
                i,
            ) == content(buckets, i) by {
                super::contents::lemma_content_live(buckets, w, now - window, i);
                super::contents::lemma_content_recorded(kept, index, used, i);
            }
            super::contents::lemma_total_by_content(longer, buckets, w, later - window);
        },
        WindowModel::Log { window, events, next_id } => {
            let kept = live_events(events, now - window);
            let event = Event { id: next_id, ts: now, used };
            super::events::lemma_live(events, now - window);
            super::events::lemma_recorded_in_order(kept, event);
            lemma_total_insert_over(
                kept,
                event_place(kept, now as int),
                event,
                later - window,
            );
            super::events::lemma_total_live(events, now - window, later - window);
        },
    }
}

/// One more bucket adds its share, wherever it is put.
proof fn lemma_sum_insert(
    buckets: Seq<Bucket>,
    at: int,
    bucket: Bucket,
    width: int,
    lo: int,
    dim: usize,
)
    requires
        0 <= at <= buckets.len(),
    ensures
        bucket_sum(buckets.insert(at, bucket), width, lo, dim) == bucket_sum(
            buckets,
            width,
            lo,
            dim,
        ) + bucket_share(bucket, width, lo).along(dim),
        bucket_weight(buckets.insert(at, bucket), dim) == bucket_weight(buckets, dim) + size(
            bucket.used.along(dim) as int,
        ),
    decreases buckets.len(),
{
    if at == buckets.len() {
        assert(buckets.insert(at, bucket).drop_last() =~= buckets);
    } else {
        lemma_sum_insert(buckets.drop_last(), at, bucket, width, lo, dim);
        assert(buckets.insert(at, bucket).drop_last() =~= buckets.drop_last().insert(at, bucket));
    }
}

/// A changed bucket counts for its share now in place of its share before.
proof fn lemma_sum_update(
    buckets: Seq<Bucket>,
    at: int,
    bucket: Bucket,
    width: int,
    lo: int,
    dim: usize,
)
    requires
        0 <= at < buckets.len(),
    ensures
        bucket_sum(buckets.update(at, bucket), width, lo, dim) == bucket_sum(
            buckets,
            width,
            lo,
            dim,
        ) + bucket_share(bucket, width, lo).along(dim) - bucket_share(
            buckets[at],
            width,
            lo,
        ).along(dim),
        bucket_weight(buckets.update(at, bucket), dim) == bucket_weight(buckets, dim) + size(
            bucket.used.along(dim) as int,
        ) - size(buckets[at].used.along(dim) as int),
    decreases buckets.len(),
{
    if at == buckets.len() - 1 {
        assert(buckets.update(at, bucket).drop_last() =~= buckets.drop_last());
    } else {
        lemma_sum_update(buckets.drop_last(), at, bucket, width, lo, dim);
        assert(buckets.update(at, bucket).drop_last() =~= buckets.drop_last().update(at, bucket));
    }
}

/// Dropping buckets that had left the window before changes no sum.
proof fn lemma_sum_live(buckets: Seq<Bucket>, width: int, dropped: int, lo: int, dim: usize)
    requires
        dropped <= lo,
    ensures
        bucket_sum(live_buckets(buckets, width, dropped), width, lo, dim) == bucket_sum(
            buckets,
            width,
            lo,
            dim,
        ),
        bucket_weight(live_buckets(buckets, width, dropped), dim) <= bucket_weight(buckets, dim),
    decreases buckets.len(),
{
    reveal(Seq::filter);
    if buckets.len() > 0 {
        let pred = |b: Bucket| bucket_live(b, width, dropped);
        let shorter = buckets.drop_last();
        let last = buckets.last();
        lemma_sum_live(shorter, width, dropped, lo, dim);
        let kept = live_buckets(shorter, width, dropped);
        if pred(last) {
            assert(live_buckets(buckets, width, dropped) =~= kept.push(last));
            assert(kept.push(last).drop_last() =~= kept);
        } else {
            assert(live_buckets(buckets, width, dropped) =~= kept);
        }
    }
}

/// A bucket of a list holds no more than all of it.
pub proof fn lemma_one_of(buckets: Seq<Bucket>, at: int, dim: usize)
    requires
        0 <= at < buckets.len(),
    ensures
        size(buckets[at].used.along(dim) as int) <= bucket_weight(buckets, dim),
    decreases buckets.len(),
{
    super::bucket_sums::lemma_bucket_sum_within(buckets.drop_last(), 1, 0, dim);
    if at < buckets.len() - 1 {
        lemma_one_of(buckets.drop_last(), at, dim);
    }
}

/// What is recorded counts at once, and once: where it counts in full, the exact total is
/// larger by it.
pub proof fn what_is_recorded_counts_once(
    window: WindowModel,
    now: i64,
    used: Usage,
    later: i64,
    dim: usize,
)
    requires
        window.wf(),
        room_for(window, used, Usage::none()),
        now <= later,
        counts_in_full(window, now, later),
    ensures
        exact_total(window.added(now, used), later, dim) == exact_total(window, later, dim)
            + used.along(dim),
        weight(window.added(now, used), dim) <= weight(window, dim) + size(
            used.along(dim) as int,
        ),
{
    assert(weight(window, dim) + size(used.along(dim) as int) + size(
        Usage::none().along(dim) as int,
    ) <= i128::MAX);
    match window {
        WindowModel::Buckets { window, width, buckets } => {
            let w = width as int;
            let lo = later - window;
            let index = bucket_index(now as int, w) as i64;
            let kept = live_buckets(buckets, w, now - window);
            lemma_bucket_of(now, width);
            super::contents::lemma_content_live(buckets, w, now - window, 0);
            lemma_sum_live(buckets, w, now - window, lo, dim);
            crate::window::lemma_bucket_place(kept, index as int);
            let place = bucket_place(kept, index as int);
            if has_bucket(kept, index as int) {
                lemma_one_of(kept, place, dim);
                lemma_sum_update(
                    kept,
                    place,
                    Bucket { index, used: kept[place].used.and(used) },
                    w,
                    lo,
                    dim,
                );
            } else {
                lemma_sum_insert(kept, place, Bucket { index, used }, w, lo, dim);
            }
        },
        WindowModel::Log { window, events, next_id } => {
            let lo = later - window;
            let kept = live_events(events, now - window);
            let event = Event { id: next_id, ts: now, used };
            super::events::lemma_live(events, now - window);
            super::events::lemma_recorded_in_order(kept, event);
            super::events::lemma_sum_live(events, now - window, lo, dim);
            super::events::lemma_sum_insert(
                kept,
                event_place(kept, now as int),
                event,
                lo,
                dim,
            );
        },
    }
}

/// Whether a handle names an entry that a window holds and that counts in full.
pub open spec fn entry_counts_in_full(window: WindowModel, handle: Handle, now: i64) -> bool {
    match (window, handle) {
        (WindowModel::Buckets { window, width, buckets }, Handle::Bucket(index)) => {
            &&& has_bucket(buckets, index as int)
            &&& bucket_start(index as int, width as int) >= now - window
        },
        (WindowModel::Log { window, events, .. }, Handle::Precise(id)) => exists|at: int|
            event_found(events, id, at) && (#[trigger] events[at]).ts > now - window,
        _ => false,
    }
}

/// A changed event counts for its amount now in place of its amount before.
proof fn lemma_event_sum_update(events: Seq<Event>, at: int, event: Event, lo: int, dim: usize)
    requires
        0 <= at < events.len(),
        event.ts == events[at].ts,
    ensures
        event_sum(events.update(at, event), lo, dim) == event_sum(events, lo, dim) + if event.ts
            > lo {
            event.used.along(dim) - events[at].used.along(dim)
        } else {
            0int
        },
        event_weight(events.update(at, event), dim) == event_weight(events, dim) + size(
            event.used.along(dim) as int,
        ) - size(events[at].used.along(dim) as int),
        size(events[at].used.along(dim) as int) <= event_weight(events, dim),
    decreases events.len(),
{
    super::events::lemma_sum_within_weight(events.drop_last(), lo, dim);
    if at == events.len() - 1 {
        assert(events.update(at, event).drop_last() =~= events.drop_last());
    } else {
        lemma_event_sum_update(events.drop_last(), at, event, lo, dim);
        assert(events.update(at, event).drop_last() =~= events.drop_last().update(at, event));
    }
}

/// Adjusting an entry shifts the totals by the change, in every dimension, as long as the
/// entry counts in full.
pub proof fn adjusting_shifts_the_totals(
    window: WindowModel,
    handle: Handle,
    delta: Usage,
    now: i64,
    dim: usize,
)
    requires
        window.wf(),
        entry_counts_in_full(window, handle, now),
        weight(window, dim) + size(delta.along(dim) as int) <= i128::MAX,
    ensures
        window.adjusted(handle, delta).totals(now).along(dim) == window.totals(now).along(dim)
            + delta.along(dim),
{
    let after = window.adjusted(handle, delta);
    match (window, handle) {
        (WindowModel::Buckets { window, width, buckets }, Handle::Bucket(index)) => {
            let w = width as int;
            let lo = now - window;
            crate::window::lemma_bucket_place(buckets, index as int);
            let place = bucket_place(buckets, index as int);
            let changed = Bucket { index, used: buckets[place].used.and(delta) };
            lemma_one_of(buckets, place, dim);
            lemma_sum_update(buckets, place, changed, w, lo, dim);
            super::contents::lemma_content_adjusted(buckets, index, delta, 0);
            assert(bucket_adjusted(buckets, index, delta) =~= buckets.update(place, changed));
        },
        (WindowModel::Log { window, events, .. }, Handle::Precise(id)) => {
            let lo = now - window;
            let found = choose|at: int|
                event_found(events, id, at) && (#[trigger] events[at]).ts > now - window;
            let at = choose|at: int| event_found(events, id, at);
            assert(at == found);
            let changed = Event { used: events[at].used.and(delta), ..events[at] };
            lemma_event_sum_update(events, at, changed, lo, dim);
            assert(event_adjusted(events, id, delta) =~= events.update(at, changed));
            super::events::lemma_total_is_sum(events.update(at, changed), lo, dim);
            super::events::lemma_total_is_sum(events, lo, dim);
        },
        _ => {},
    }
    if let WindowModel::Buckets { .. } = window {
        super::waiting::lemma_totals(after, now, dim);
        super::waiting::lemma_totals(window, now, dim);
    }
}

/// What a list holds at an index is no more than all that it holds.
proof fn lemma_content_size(buckets: Seq<Bucket>, index: int, dim: usize)
    requires
        ascending(buckets),
    ensures
        size(content(buckets, index).along(dim) as int) <= bucket_weight(buckets, dim),
{
    super::bucket_sums::lemma_bucket_sum_within(buckets, 1, 0, dim);
    crate::window::lemma_bucket_place(buckets, index);
    if has_bucket(buckets, index) {
        lemma_one_of(buckets, bucket_place(buckets, index), dim);
    }
}

/// The order in which two calls are recorded does not matter: every total, from the later
/// of their times on, is the same.
pub proof fn order_does_not_matter(
    window: WindowModel,
    one: i64,
    a: Usage,
    two: i64,
    b: Usage,
    now: i64,
)
    requires
        window.wf(),
        room_for(window, a, b),
        one <= now,
        two <= now,
    ensures
        window.added(one, a).added(two, b).totals(now) == window.added(two, b).added(
            one,
            a,
        ).totals(now),
{
    super::windows::recording_keeps_windows_well_formed(window, one, a);
    super::windows::recording_keeps_windows_well_formed(window, two, b);
    super::windows::recording_keeps_windows_well_formed(window.added(one, a), two, b);
    super::windows::recording_keeps_windows_well_formed(window.added(two, b), one, a);
    assert(weight(window, TOKENS) + size(a.along(TOKENS) as int) + size(b.along(TOKENS) as int)
        <= i128::MAX);
    assert(weight(window, REQUESTS) + size(a.along(REQUESTS) as int) + size(
        b.along(REQUESTS) as int,
    ) <= i128::MAX);
    assert(weight(window, COST) + size(a.along(COST) as int) + size(b.along(COST) as int)
        <= i128::MAX);
    match window {
        WindowModel::Buckets { window, width, buckets } => {
            let w = width as int;
            let lo = now - window;
            let (i, j) = (
                bucket_index(one as int, w) as i64,
                bucket_index(two as int, w) as i64,
            );
            let first = bucket_recorded(live_buckets(buckets, w, one - window), i, a);
            let second = bucket_recorded(live_buckets(buckets, w, two - window), j, b);
            let x = bucket_recorded(live_buckets(first, w, two - window), j, b);
            let y = bucket_recorded(live_buckets(second, w, one - window), i, a);
            super::contents::lemma_content_live(buckets, w, one - window, 0);
            super::contents::lemma_content_live(buckets, w, two - window, 0);
            super::contents::lemma_content_live(first, w, two - window, 0);
            super::contents::lemma_content_live(second, w, one - window, 0);
            assert forall|at: int| bucket_end(at, w) > lo implies #[trigger] content(x, at)
                == content(y, at) by {
                super::contents::lemma_content_live(buckets, w, one - window, at);
                super::contents::lemma_content_live(buckets, w, two - window, at);
                super::contents::lemma_content_recorded(
                    live_buckets(buckets, w, one - window),
                    i,
                    a,
                    at,
                );
                super::contents::lemma_content_recorded(
                    live_buckets(buckets, w, two - window),
                    j,
                    b,
                    at,
                );
                super::contents::lemma_content_live(first, w, two - window, at);
                super::contents::lemma_content_live(second, w, one - window, at);
                super::contents::lemma_content_recorded(
                    live_buckets(first, w, two - window),
                    j,
                    b,
                    at,
                );
                super::contents::lemma_content_recorded(
                    live_buckets(second, w, one - window),
                    i,
                    a,
                    at,
                );
                lemma_content_size(buckets, at, TOKENS);
                lemma_content_size(buckets, at, REQUESTS);
                lemma_content_size(buckets, at, COST);
            }
            super::contents::lemma_total_by_content(x, y, w, lo);
        },
        WindowModel::Log { .. } => {
            lemma_log_order(window, one, a, two, b, now);
            lemma_log_order(window, two, b, one, a, now);
            let x = window.added(one, a).added(two, b).totals(now);
            let y = window.added(two, b).added(one, a).totals(now);
            assert(x.along(TOKENS) == y.along(TOKENS));
            assert(x.along(REQUESTS) == y.along(REQUESTS));
            assert(x.along(COST) == y.along(COST));
        },
    }
}

/// What a log totals after two more calls.
proof fn lemma_log_order(window: WindowModel, one: i64, a: Usage, two: i64, b: Usage, now: i64)
    requires
        window is Log,
        window.wf(),
        room_for(window, a, b) || room_for(window, b, a),
        one <= now,
        two <= now,
    ensures
        forall|dim: usize|
            #![trigger window.added(one, a).added(two, b).totals(now).along(dim)]
            window.added(one, a).added(two, b).totals(now).along(dim) == exact_total(
                window,
                now,
                dim,
            ) + (if one > now - window.span() {
                a.along(dim) as int
            } else {
                0int
            }) + (if two > now - window.span() {
                b.along(dim) as int
            } else {
                0int
            }),
{
    super::windows::recording_keeps_windows_well_formed(window, one, a);
    super::windows::recording_keeps_windows_well_formed(window.added(one, a), two, b);
    let after = window.added(one, a).added(two, b);
    assert forall|dim: usize| #[trigger] weight(after, dim) <= i128::MAX by {
        lemma_log_more(window, one, a, now, dim);
        lemma_log_more(window.added(one, a), two, b, now, dim);
        assert(weight(window, dim) >= 0);
    }
    assert forall|dim: usize|
        #![trigger window.added(one, a).added(two, b).totals(now).along(dim)]
        window.added(one, a).added(two, b).totals(now).along(dim) == exact_total(
            window,
            now,
            dim,
        ) + (if one > now - window.span() {
            a.along(dim) as int
        } else {
            0int
        }) + (if two > now - window.span() {
            b.along(dim) as int
        } else {
            0int
        }) by {
        assert(weight(after, dim) <= i128::MAX);
        super::waiting::lemma_totals(after, now, dim);
        lemma_log_more(window, one, a, now, dim);
        lemma_log_more(window.added(one, a), two, b, now, dim);
    }
}

/// What a log totals after one more call.
proof fn lemma_log_more(window: WindowModel, at: i64, used: Usage, now: i64, dim: usize)
    requires
        window is Log,
        window.wf(),
        at <= now,
    ensures
        window.added(at, used) is Log,
        window.added(at, used).span() == window.span(),
        exact_total(window.added(at, used), now, dim) == exact_total(window, now, dim) + if at
            > now - window.span() {
            used.along(dim) as int
        } else {
            0int
        },
        0 <= weight(window, dim),
        weight(window.added(at, used), dim) <= weight(window, dim) + size(
            used.along(dim) as int,
        ),
{
    if let WindowModel::Log { window, events, next_id } = window {
        let lo = now - window;
        let kept = live_events(events, at - window);
        let event = Event { id: next_id, ts: at, used };
        super::events::lemma_live(events, at - window);
        super::events::lemma_recorded_in_order(kept, event);
        super::events::lemma_sum_live(events, at - window, lo, dim);
        super::events::lemma_sum_insert(kept, event_place(kept, at as int), event, lo, dim);
        super::events::lemma_sum_within_weight(events, lo, dim);
    }
}

/// The dimensions are numbered in the order in which amounts are given: tokens, requests,
/// cost.
pub proof fn dimensions_are_in_the_order_of_amounts(amounts: [i128; 3], dim: usize)
    requires
        dim < 3,
    ensures
        usage_of(amounts).along(dim) == amounts[dim as int],
        usage_of(amounts).along(TOKENS) == amounts[0],
        usage_of(amounts).along(REQUESTS) == amounts[1],
        usage_of(amounts).along(COST) == amounts[2],
        TOKENS < 3,
        REQUESTS < 3,
        COST < 3,
        usage_of(amounts).tokens == amounts[0],
        usage_of(amounts).requests == amounts[1],
        usage_of(amounts).cost == amounts[2],
{
}

/// A handle names the bucket that holds the time, counted from the epoch in widths of a
/// bucket, or the event by its number in the log.
pub proof fn a_handle_names_its_entry(window: WindowModel, now: i64)
    requires
        window.wf(),
    ensures
        match window {
            WindowModel::Buckets { width, .. } => window.handle(now) matches Handle::Bucket(index)
                && index * width <= now < index * width + width,
            WindowModel::Log { next_id, .. } => window.handle(now) == Handle::Precise(next_id),
        },
{
    if let WindowModel::Buckets { width, .. } = window {
        lemma_bucket_of(now, width);
    }
}

/// A handle that names nothing that a window holds changes nothing.
pub proof fn a_handle_without_an_entry_changes_nothing(
    window: WindowModel,
    handle: Handle,
    delta: Usage,
)
    requires
        window.wf(),
        match (window, handle) {
            (WindowModel::Buckets { buckets, .. }, Handle::Bucket(index)) => forall|i: int|
                0 <= i < buckets.len() ==> (#[trigger] buckets[i]).index != index,
            (WindowModel::Log { events, .. }, Handle::Precise(id)) => forall|i: int|
                0 <= i < events.len() ==> (#[trigger] events[i]).id != id,
            _ => true,
        },
    ensures
        window.adjusted(handle, delta) == window,
{
    match (window, handle) {
        (WindowModel::Buckets { buckets, .. }, Handle::Bucket(index)) => {
            super::contents::lemma_content_none(buckets, index as int);
        },
        _ => {},
    }
}

} // verus!
