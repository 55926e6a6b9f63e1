//! Laws of time: usage ages out of a window, and waiting as long as was said clears a
//! call.

use super::bucket_sums::{bucket_sum, bucket_weight, buckets_at_least_zero};
use super::events::{event_sum, event_weight};
use crate::admission::excess;
use crate::fixed::SLACK;
use crate::window::{
    bucket_end, bucket_release, bucket_start, event_freed, event_release, event_suffices,
    in_time_order, Event, WindowModel,
};
use vstd::prelude::*;

verus! {

/// Whether no event of a log holds a negative amount in a dimension.
pub open spec fn events_at_least_zero(events: Seq<Event>, dim: usize) -> bool {
    forall|i: int| 0 <= i < events.len() ==> (#[trigger] events[i]).used.along(dim) >= 0
}

/// Whether a window holds no negative amount in a dimension.
pub open spec fn never_negative(window: WindowModel, dim: usize) -> bool {
    match window {
        WindowModel::Buckets { buckets, .. } => buckets_at_least_zero(buckets, dim),
        WindowModel::Log { events, .. } => events_at_least_zero(events, dim),
    }
}

/// The sizes, in one dimension, of all that a window holds, added up.
pub open spec fn weight(window: WindowModel, dim: usize) -> int {
    match window {
        WindowModel::Buckets { buckets, .. } => bucket_weight(buckets, dim),
        WindowModel::Log { events, .. } => event_weight(events, dim),
    }
}

/// Whether the amounts of a window are small enough for no total in a dimension to
/// saturate.
pub open spec fn unsaturated(window: WindowModel, dim: usize) -> bool {
    weight(window, dim) <= i128::MAX
}

/// The first events of a log that holds nothing negative hold nothing negative.
proof fn lemma_events_take(events: Seq<Event>, n: int, lo: int, dim: usize)
    requires
        0 <= n <= events.len(),
    ensures
        0 <= event_weight(events.take(n), dim) <= event_weight(events, dim),
        events_at_least_zero(events, dim) ==> {
            &&& events_at_least_zero(events.take(n), dim)
            &&& 0 <= event_sum(events.take(n), lo, dim) <= event_sum(events, lo, dim)
        },
    decreases events.len(), n,
{
    super::events::lemma_sum_within_weight(events, lo, dim);
    if events_at_least_zero(events, dim) {
        assert forall|i: int| 0 <= i < n implies (#[trigger] events.take(n)[i]).used.along(dim)
            >= 0 by {
            assert(events[i].used.along(dim) >= 0);
        }
    }
    if n == events.len() {
        assert(events.take(n) =~= events);
        if n > 0 {
            lemma_events_take(events, n - 1, lo, dim);
            assert(events.drop_last() =~= events.take(n - 1));
            assert(events[n - 1] == events.last());
        }
    } else {
        lemma_events_take(events.drop_last(), n, lo, dim);
        assert(events.drop_last().take(n) =~= events.take(n));
        if events_at_least_zero(events, dim) {
            assert(events_at_least_zero(events.drop_last(), dim)) by {
                assert forall|i: int| 0 <= i < events.len() - 1 implies (
                #[trigger] events.drop_last()[i]).used.along(dim) >= 0 by {
                    assert(events[i].used.along(dim) >= 0);
                }
            }
            assert(events[events.len() - 1].used.along(dim) >= 0);
        }
    }
}

/// What happened up to some time is what a window that opens then no longer counts.
proof fn lemma_sum_from(events: Seq<Event>, lo: int, mid: int, dim: usize)
    requires
        in_time_order(events),
        lo <= mid,
    ensures
        event_sum(events, mid, dim) == event_sum(events, lo, dim) - event_sum(
            events.take(crate::window::event_place(events, mid)),
            lo,
            dim,
        ),
    decreases events.len(),
{
    crate::window::lemma_event_place(events, mid);
    let place = crate::window::event_place(events, mid);
    if place == events.len() {
        assert(events.take(place) =~= events);
        lemma_none_after(events, mid, dim);
    } else {
        let shorter = events.drop_last();
        lemma_order_of_fewer(events);
        lemma_sum_from(shorter, lo, mid, dim);
        assert(shorter.take(place) =~= events.take(place));
        assert(events[events.len() - 1].ts > mid);
    }
}

proof fn lemma_order_of_fewer(events: Seq<Event>)
    requires
        in_time_order(events),
        events.len() > 0,
    ensures
        in_time_order(events.drop_last()),
{
    let shorter = events.drop_last();
    assert forall|i: int, j: int| 0 <= i < j < shorter.len() implies (#[trigger] shorter[i]).ts <= (
    #[trigger] shorter[j]).ts by {
        assert(events[i].ts <= events[j].ts);
    }
}

/// Events that all happened by some time count for nothing afterwards.
proof fn lemma_none_after(events: Seq<Event>, mid: int, dim: usize)
    requires
        forall|i: int| 0 <= i < events.len() ==> (#[trigger] events[i]).ts <= mid,
    ensures
        event_sum(events, mid, dim) == 0,
    decreases events.len(),
{
    if events.len() > 0 {
        let shorter = events.drop_last();
        assert forall|i: int| 0 <= i < shorter.len() implies (#[trigger] shorter[i]).ts
            <= mid by {
            assert(events[i].ts <= mid);
        }
        assert(events[events.len() - 1].ts <= mid);
        lemma_none_after(shorter, mid, dim);
    }
}

/// No total of a window that holds no negative amount grows as time passes.
pub proof fn usage_only_ages(window: WindowModel, now: i64, later: i64, dim: usize)
    requires
        window.wf(),
        never_negative(window, dim),
        unsaturated(window, dim),
        now <= later,
    ensures
        0 <= window.totals(later).along(dim) <= window.totals(now).along(dim),
{
    lemma_totals(window, now, dim);
    lemma_totals(window, later, dim);
    match window {
        WindowModel::Buckets { window, width, buckets } => {
            assert(buckets_at_least_zero(buckets, dim));
            super::bucket_sums::lemma_bucket_sum_ages(
                buckets,
                width as int,
                now - window,
                later - window,
                dim,
            );
            lemma_bucket_sum_at_least_zero(buckets, width as int, later - window, dim);
        },
        WindowModel::Log { window, events, .. } => {
            assert(events_at_least_zero(events, dim));
            lemma_sum_from(events, now - window, later - window, dim);
            crate::window::lemma_event_place(events, later - window);
            lemma_events_take(
                events,
                crate::window::event_place(events, later - window),
                now - window,
                dim,
            );
            lemma_events_take(events, events.len() as int, later - window, dim);
            assert(events.take(events.len() as int) =~= events);
        },
    }
}

proof fn lemma_bucket_sum_at_least_zero(
    buckets: Seq<crate::window::Bucket>,
    width: int,
    lo: int,
    dim: usize,
)
    requires
        width >= 1,
        buckets_at_least_zero(buckets, dim),
    ensures
        bucket_sum(buckets, width, lo, dim) >= 0,
    decreases buckets.len(),
{
    if buckets.len() > 0 {
        let shorter = buckets.drop_last();
        assert forall|i: int| 0 <= i < shorter.len() implies (#[trigger] shorter[i]).used.along(
            dim,
        ) >= 0 by {
            assert(buckets[i].used.along(dim) >= 0);
        }
        assert(buckets[buckets.len() - 1].used.along(dim) >= 0);
        lemma_bucket_sum_at_least_zero(shorter, width, lo, dim);
        super::bucket_sums::lemma_bucket_share(buckets.last(), width, lo, dim);
    }
}

/// The exact total of a window in one dimension.
pub open spec fn exact_total(window: WindowModel, now: i64, dim: usize) -> int {
    match window {
        WindowModel::Buckets { window, width, buckets } => bucket_sum(
            buckets,
            width as int,
            now - window,
            dim,
        ),
        WindowModel::Log { window, events, .. } => event_sum(events, now - window, dim),
    }
}

/// Where no total saturates, the totals are exact.
pub proof fn lemma_totals(window: WindowModel, now: i64, dim: usize)
    requires
        window.wf(),
        unsaturated(window, dim),
    ensures
        window.totals(now).along(dim) == exact_total(window, now, dim),
{
    match window {
        WindowModel::Buckets { window, width, buckets } => {
            super::bucket_sums::lemma_bucket_total_is_sum(
                buckets,
                width as int,
                now - window,
                dim,
            );
        },
        WindowModel::Log { window, events, .. } => {
            super::events::lemma_total_is_sum(events, now - window, dim);
        },
    }
}

/// Whether a call that a cap refuses would pass it if nothing else had been used.
pub open spec fn fits_alone(cap: i128, asked: i128) -> bool {
    0 <= asked <= cap + SLACK
}

/// By how much a call exceeds a cap, where nothing saturates.
proof fn lemma_excess(cap: i128, used: i128, asked: i128)
    requires
        fits_alone(cap, asked),
        0 <= used,
        used + asked < i128::MAX,
    ensures
        excess(Some(cap), used, asked) is Some <==> used + asked > cap + SLACK,
        excess(Some(cap), used, asked) is Some ==> excess(Some(cap), used, asked)->0 == used
            + asked - cap,
{
}

/// Once the wait that a window tells for some amount is over, at least that amount of what
/// was counted has aged out, up to the slack; and the wait is not over at once.
pub proof fn a_wait_frees_what_it_is_for(
    window: WindowModel,
    now: i64,
    over: int,
    dim: usize,
    later: i64,
)
    requires
        window.wf(),
        never_negative(window, dim),
        unsaturated(window, dim),
        SLACK < over <= window.totals(now).along(dim) + SLACK,
        now + window.wait(now, over, dim) <= later,
    ensures
        window.wait(now, over, dim) > 0,
        window.totals(later).along(dim) <= window.totals(now).along(dim) - over + SLACK,
{
    lemma_totals(window, now, dim);
    lemma_totals(window, later, dim);
    match window {
        WindowModel::Buckets { window, width, buckets } => {
            let w = width as int;
            let lo = now - window;
            super::bucket_sums::lemma_freed_is_sum(buckets, w, lo, dim);
            assert(buckets.take(buckets.len() as int) =~= buckets);
            super::bucket_sums::lemma_release_exists(
                buckets,
                w,
                lo,
                dim,
                over,
                buckets.len() as int,
            );
            let at = choose|at: int| bucket_release(buckets, w, lo, dim, over, at);
            let end = bucket_end(buckets[at].index as int, w);
            assert(end + window <= later);
            super::bucket_sums::lemma_take_at_least_zero(buckets, at + 1, dim);
            super::bucket_sums::lemma_bucket_weight_take(buckets, at + 1, dim);
            super::bucket_sums::lemma_freed_is_sum(buckets.take(at + 1), w, lo, dim);
            super::bucket_sums::lemma_sum_past_end(buckets, w, lo, at, dim);
            super::bucket_sums::lemma_bucket_sum_ages(buckets, w, end, later - window, dim);
        },
        WindowModel::Log { window, events, .. } => {
            let lo = now - window;
            super::events::lemma_freed_is_sum(events, lo, dim);
            assert(events.take(events.len() as int) =~= events);
            lemma_log_release_exists(events, lo, dim, over, events.len() as int);
            let at = choose|at: int| event_release(events, lo, dim, over, at);
            assert(events[at].ts + window <= later);
            let mid = later - window;
            lemma_sum_from(events, lo, mid, dim);
            crate::window::lemma_event_place(events, mid);
            let place = crate::window::event_place(events, mid);
            assert(place > at) by {
                if place <= at {
                    assert(events[at].ts > mid);
                }
            }
            lemma_events_take(events, at + 1, lo, dim);
            super::events::lemma_freed_is_sum(events.take(at + 1), lo, dim);
            lemma_events_take(events, place, lo, dim);
            lemma_events_take(events.take(place), at + 1, lo, dim);
            assert(events.take(place).take(at + 1) =~= events.take(at + 1));
        },
    }
}

/// The finest step in which usage leaves a window at once: one bucket, or in an exact log
/// the resolution of the clock.
pub open spec fn grain(window: WindowModel) -> int {
    match window {
        WindowModel::Buckets { width, .. } => width as int,
        WindowModel::Log { .. } => 1,
    }
}

/// A wait is not too long: one bucket before it is over, in an exact log one moment, and at
/// any time before that, too little of what was counted has aged out.
pub proof fn a_wait_is_not_too_long(
    window: WindowModel,
    now: i64,
    over: int,
    dim: usize,
    later: i64,
)
    requires
        window.wf(),
        never_negative(window, dim),
        unsaturated(window, dim),
        SLACK < over <= window.totals(now).along(dim) + SLACK,
        now <= later,
        later + grain(window) <= now + window.wait(now, over, dim),
    ensures
        window.totals(later).along(dim) > window.totals(now).along(dim) - over + SLACK,
{
    lemma_totals(window, now, dim);
    lemma_totals(window, later, dim);
    match window {
        WindowModel::Buckets { window, width, buckets } => {
            let w = width as int;
            let lo = now - window;
            super::bucket_sums::lemma_freed_is_sum(buckets, w, lo, dim);
            assert(buckets.take(buckets.len() as int) =~= buckets);
            super::bucket_sums::lemma_release_exists(
                buckets,
                w,
                lo,
                dim,
                over,
                buckets.len() as int,
            );
            let at = choose|at: int| bucket_release(buckets, w, lo, dim, over, at);
            let start = bucket_start(buckets[at].index as int, w);
            assert(later - window <= start);
            super::bucket_sums::lemma_take_at_least_zero(buckets, at, dim);
            super::bucket_sums::lemma_bucket_weight_take(buckets, at, dim);
            super::bucket_sums::lemma_freed_is_sum(buckets.take(at), w, lo, dim);
            super::bucket_sums::lemma_not_enough_before(buckets, w, lo, dim, over, at, at);
            super::bucket_sums::lemma_sum_from_start(buckets, w, lo, at, dim);
            super::bucket_sums::lemma_bucket_sum_ages(buckets, w, later - window, start, dim);
        },
        WindowModel::Log { window, events, .. } => {
            let lo = now - window;
            super::events::lemma_freed_is_sum(events, lo, dim);
            assert(events.take(events.len() as int) =~= events);
            lemma_log_release_exists(events, lo, dim, over, events.len() as int);
            let at = choose|at: int| event_release(events, lo, dim, over, at);
            let mid = later - window;
            lemma_sum_from(events, lo, mid, dim);
            crate::window::lemma_event_place(events, mid);
            let place = crate::window::event_place(events, mid);
            assert(place <= at) by {
                if place > at {
                    assert(events[at].ts <= mid);
                }
            }
            lemma_not_enough_before(events, lo, dim, over, at, place);
            lemma_events_take(events, place, lo, dim);
            super::events::lemma_freed_is_sum(events.take(place), lo, dim);
        },
    }
}

/// A wait in buckets is over when some bucket that counts now has just left the window.
pub proof fn a_bucketed_wait_ends_with_a_bucket(
    window: WindowModel,
    now: i64,
    over: int,
    dim: usize,
)
    requires
        window is Buckets,
        window.wf(),
        never_negative(window, dim),
        unsaturated(window, dim),
        SLACK < over <= window.totals(now).along(dim) + SLACK,
    ensures
        window matches WindowModel::Buckets { window: span, width, buckets } && exists|at: int|
            0 <= at < buckets.len() && (#[trigger] buckets[at]).used.along(dim) > 0 && now
                + window.wait(now, over, dim) == buckets[at].index * width + width + span,
{
    lemma_totals(window, now, dim);
    match window {
        WindowModel::Buckets { window, width, buckets } => {
            let w = width as int;
            let lo = now - window;
            super::bucket_sums::lemma_freed_is_sum(buckets, w, lo, dim);
            assert(buckets.take(buckets.len() as int) =~= buckets);
            super::bucket_sums::lemma_release_exists(
                buckets,
                w,
                lo,
                dim,
                over,
                buckets.len() as int,
            );
            let at = choose|at: int| bucket_release(buckets, w, lo, dim, over, at);
            assert(buckets[at].used.along(dim) > 0);
        },
        _ => {},
    }
}

/// Where less is counted than has to age out, the wait is a whole window: nothing that is
/// counted now is left after it.
pub proof fn what_is_not_counted_is_waited_for_a_whole_window(
    window: WindowModel,
    now: i64,
    over: int,
    dim: usize,
)
    requires
        window.wf(),
        never_negative(window, dim),
        unsaturated(window, dim),
        window.totals(now).along(dim) + SLACK < over,
    ensures
        window.wait(now, over, dim) == window.span(),
{
    lemma_totals(window, now, dim);
    match window {
        WindowModel::Buckets { window, width, buckets } => {
            let w = width as int;
            let lo = now - window;
            if exists|at: int| bucket_release(buckets, w, lo, dim, over, at) {
                let at = choose|at: int| bucket_release(buckets, w, lo, dim, over, at);
                super::bucket_sums::lemma_take_at_least_zero(buckets, at + 1, dim);
                super::bucket_sums::lemma_bucket_weight_take(buckets, at + 1, dim);
                super::bucket_sums::lemma_freed_is_sum(buckets.take(at + 1), w, lo, dim);
                lemma_take_counts_no_more(buckets, at + 1, w, lo, dim);
            }
        },
        WindowModel::Log { window, events, .. } => {
            let lo = now - window;
            if exists|at: int| event_release(events, lo, dim, over, at) {
                let at = choose|at: int| event_release(events, lo, dim, over, at);
                lemma_events_take(events, at + 1, lo, dim);
                super::events::lemma_freed_is_sum(events.take(at + 1), lo, dim);
            }
        },
    }
}

/// The first buckets of a list count for no more than all of it.
proof fn lemma_take_counts_no_more(
    buckets: Seq<crate::window::Bucket>,
    n: int,
    width: int,
    lo: int,
    dim: usize,
)
    requires
        width >= 1,
        0 <= n <= buckets.len(),
        buckets_at_least_zero(buckets, dim),
    ensures
        bucket_sum(buckets.take(n), width, lo, dim) <= bucket_sum(buckets, width, lo, dim),
    decreases buckets.len(),
{
    if n == buckets.len() {
        assert(buckets.take(n) =~= buckets);
    } else {
        let shorter = buckets.drop_last();
        assert(shorter =~= buckets.take(buckets.len() - 1));
        super::bucket_sums::lemma_take_at_least_zero(buckets, buckets.len() - 1, dim);
        lemma_take_counts_no_more(shorter, n, width, lo, dim);
        assert(shorter.take(n) =~= buckets.take(n));
        assert(buckets[buckets.len() - 1].used.along(dim) >= 0);
        super::bucket_sums::lemma_bucket_share(buckets.last(), width, lo, dim);
    }
}

/// Waiting as long as a window says clears a call that was refused for one dimension, and
/// so does waiting longer: provided that the call fits under the cap alone and that no
/// amount is negative.
pub proof fn waiting_clears_a_cap(
    window: WindowModel,
    now: i64,
    cap: i128,
    asked: i128,
    dim: usize,
    later: i64,
)
    requires
        window.wf(),
        never_negative(window, dim),
        unsaturated(window, dim),
        fits_alone(cap, asked),
        window.totals(now).along(dim) + asked < i128::MAX,
        excess(Some(cap), window.totals(now).along(dim), asked) matches Some(over) && now
            + window.wait(now, over as int, dim) <= later,
    ensures
        now < later,
        excess(Some(cap), window.totals(later).along(dim), asked) is None,
{
    let used = window.totals(now).along(dim);
    let over = excess(Some(cap), used, asked)->0 as int;
    usage_only_ages(window, now, now, dim);
    lemma_excess(cap, used, asked);
    a_wait_frees_what_it_is_for(window, now, over, dim, later);
    usage_only_ages(window, now, later, dim);
    lemma_excess(cap, window.totals(later).along(dim), asked);
}

/// Where the events of a log together give back enough, there is a first one that does.
proof fn lemma_log_release_exists(events: Seq<Event>, lo: int, dim: usize, over: int, n: int)
    requires
        0 <= n <= events.len(),
        event_freed(events.take(n), lo, dim) >= over - SLACK,
        over - SLACK > 0,
    ensures
        exists|at: int| event_release(events, lo, dim, over, at),
    decreases n,
{
    if n == 0 {
        assert(events.take(0).len() == 0);
    } else {
        let taken = events.take(n);
        assert(taken.drop_last() =~= events.take(n - 1));
        assert(taken.last() == events[n - 1]);
        if event_freed(events.take(n - 1), lo, dim) >= over - SLACK {
            lemma_log_release_exists(events, lo, dim, over, n - 1);
        } else {
            assert(event_suffices(events, lo, dim, over, n - 1));
            lemma_first_event(events, lo, dim, over, n - 1);
        }
    }
}

/// Where some event suffices, there is a first one.
proof fn lemma_first_event(events: Seq<Event>, lo: int, dim: usize, over: int, at: int)
    requires
        event_suffices(events, lo, dim, over, at),
    ensures
        exists|first: int| event_release(events, lo, dim, over, first),
    decreases at,
{
    if exists|q: int| 0 <= q < at && event_suffices(events, lo, dim, over, q) {
        let q = choose|q: int| 0 <= q < at && event_suffices(events, lo, dim, over, q);
        lemma_first_event(events, lo, dim, over, q);
    } else {
        assert(event_release(events, lo, dim, over, at));
    }
}

/// Before the event that suffices, the events of a log have not given back enough.
proof fn lemma_not_enough_before(
    events: Seq<Event>,
    lo: int,
    dim: usize,
    over: int,
    at: int,
    n: int,
)
    requires
        event_release(events, lo, dim, over, at),
        over - SLACK > 0,
        0 <= n <= at,
    ensures
        event_freed(events.take(n), lo, dim) < over - SLACK,
    decreases n,
{
    if n > 0 {
        lemma_not_enough_before(events, lo, dim, over, at, n - 1);
        let taken = events.take(n);
        assert(taken.drop_last() =~= events.take(n - 1));
        assert(taken.last() == events[n - 1]);
        assert(!event_suffices(events, lo, dim, over, n - 1));
    }
}

/// An exact log says exactly how long to wait: a call that a cap refuses is still refused
/// at any time before the wait is over, and no longer refused from then on.
pub proof fn a_log_waits_exactly_as_long_as_needed(
    window: WindowModel,
    now: i64,
    cap: i128,
    asked: i128,
    dim: usize,
    later: i64,
)
    requires
        window is Log,
        window.wf(),
        never_negative(window, dim),
        unsaturated(window, dim),
        fits_alone(cap, asked),
        window.totals(now).along(dim) + asked < i128::MAX,
        excess(Some(cap), window.totals(now).along(dim), asked) is Some,
        now <= later,
    ensures
        excess(Some(cap), window.totals(later).along(dim), asked) is None <==> later >= now
            + window.wait(
            now,
            excess(Some(cap), window.totals(now).along(dim), asked)->0 as int,
            dim,
        ),
{
    let used = window.totals(now).along(dim);
    let over = excess(Some(cap), used, asked)->0 as int;
    if later >= now + window.wait(now, over, dim) {
        waiting_clears_a_cap(window, now, cap, asked, dim, later);
    } else {
        usage_only_ages(window, now, later, dim);
        usage_only_ages(window, now, now, dim);
        lemma_totals(window, now, dim);
        lemma_totals(window, later, dim);
        lemma_excess(cap, used, asked);
        lemma_excess(cap, window.totals(later).along(dim), asked);
        match window {
            WindowModel::Log { window, events, .. } => {
                let lo = now - window;
                assert(event_weight(events, dim) <= i128::MAX);
                super::events::lemma_freed_is_sum(events, lo, dim);
                assert(events.take(events.len() as int) =~= events);
                lemma_log_release_exists(events, lo, dim, over, events.len() as int);
                let at = choose|at: int| event_release(events, lo, dim, over, at);
                let mid = later - window;
                lemma_sum_from(events, lo, mid, dim);
                crate::window::lemma_event_place(events, mid);
                let place = crate::window::event_place(events, mid);
                assert(place <= at) by {
                    if place > at {
                        assert(events[at].ts <= mid);
                    }
                }
                lemma_not_enough_before(events, lo, dim, over, at, place);
                lemma_events_take(events, place, lo, dim);
                super::events::lemma_freed_is_sum(events.take(place), lo, dim);
            },
            _ => {},
        }
    }
}

} // verus!
