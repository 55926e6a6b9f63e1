//! Laws of accuracy and memory: what the engines make of a history of calls.

use super::bucket_sums::{bucket_sum, bucket_weight};
use super::events::{event_sum, event_weight, size};
use super::windows::lemma_bucket_of;
use crate::admission::excess;
use crate::fixed::SLACK;
use crate::window::{
    ascending, bucket_end, bucket_index, bucket_live, bucket_place, bucket_recorded, bucket_start,
    event_place, has_bucket, live_buckets, live_events, Bucket, Event, Usage, WindowModel,
};
use vstd::prelude::*;

verus! {

/// A call that was recorded: when, and what it used.
pub struct Recorded {
    pub ts: i64,
    pub used: Usage,
}

/// A window that some calls were recorded in, one after the other.
pub open spec fn replayed(window: i64, bucket: i64, calls: Seq<Recorded>) -> WindowModel
    decreases calls.len(),
{
    if calls.len() == 0 {
        WindowModel::fresh(window, bucket)
    } else {
        replayed(window, bucket, calls.drop_last()).added(calls.last().ts, calls.last().used)
    }
}

/// What the calls of a history used, in one dimension, after `lo`.
pub open spec fn used_after(calls: Seq<Recorded>, lo: int, dim: usize) -> int
    decreases calls.len(),
{
    if calls.len() == 0 {
        0
    } else {
        used_after(calls.drop_last(), lo, dim) + if calls.last().ts > lo {
            calls.last().used.along(dim) as int
        } else {
            0int
        }
    }
}

/// What all calls of a history used in one dimension.
pub open spec fn used_in_all(calls: Seq<Recorded>, dim: usize) -> int
    decreases calls.len(),
{
    if calls.len() == 0 {
        0
    } else {
        used_in_all(calls.drop_last(), dim) + calls.last().used.along(dim)
    }
}

/// What the calls of a history used, in one dimension, in the bucket with the given
/// index.
pub open spec fn used_in_bucket(calls: Seq<Recorded>, width: int, index: int, dim: usize) -> int
    decreases calls.len(),
{
    if calls.len() == 0 {
        0
    } else {
        used_in_bucket(calls.drop_last(), width, index, dim) + if bucket_index(
            calls.last().ts as int,
            width,
        ) == index {
            calls.last().used.along(dim) as int
        } else {
            0int
        }
    }
}

/// What the calls of a history used, in one dimension, in later buckets than that.
spec fn used_above(calls: Seq<Recorded>, width: int, index: int, dim: usize) -> int
    decreases calls.len(),
{
    if calls.len() == 0 {
        0
    } else {
        used_above(calls.drop_last(), width, index, dim) + if bucket_index(
            calls.last().ts as int,
            width,
        ) > index {
            calls.last().used.along(dim) as int
        } else {
            0int
        }
    }
}

/// The sizes, in one dimension, of what the calls of a history used, added up.
pub open spec fn call_weight(calls: Seq<Recorded>, dim: usize) -> int
    decreases calls.len(),
{
    if calls.len() == 0 {
        0
    } else {
        call_weight(calls.drop_last(), dim) + size(calls.last().used.along(dim) as int)
    }
}

/// Whether no call of a history used a negative amount in a dimension.
pub open spec fn calls_at_least_zero(calls: Seq<Recorded>, dim: usize) -> bool {
    forall|i: int| 0 <= i < calls.len() ==> (#[trigger] calls[i]).used.along(dim) >= 0
}

/// Whether every call of a history was made by some time.
pub open spec fn all_by(calls: Seq<Recorded>, now: int) -> bool {
    forall|i: int| 0 <= i < calls.len() ==> (#[trigger] calls[i]).ts <= now
}

/// What holds of a history holds of it without its last call.
pub proof fn lemma_shorter(calls: Seq<Recorded>, now: int, dim: usize)
    requires
        calls.len() > 0,
    ensures
        0 <= call_weight(calls.drop_last(), dim) <= call_weight(calls, dim),
        calls_at_least_zero(calls, dim) ==> calls_at_least_zero(calls.drop_last(), dim)
            && calls.last().used.along(dim) >= 0,
        all_by(calls, now) ==> all_by(calls.drop_last(), now) && calls.last().ts <= now,
{
    let shorter = calls.drop_last();
    lemma_weight_at_least_zero(shorter, dim);
    if calls_at_least_zero(calls, dim) {
        assert(calls[calls.len() - 1].used.along(dim) >= 0);
        assert forall|i: int| 0 <= i < shorter.len() implies (#[trigger] shorter[i]).used.along(
            dim,
        ) >= 0 by {
            assert(calls[i].used.along(dim) >= 0);
        }
    }
    if all_by(calls, now) {
        assert(calls[calls.len() - 1].ts <= now);
        assert forall|i: int| 0 <= i < shorter.len() implies (#[trigger] shorter[i]).ts
            <= now by {
            assert(calls[i].ts <= now);
        }
    }
}

proof fn lemma_weight_at_least_zero(calls: Seq<Recorded>, dim: usize)
    ensures
        0 <= call_weight(calls, dim),
    decreases calls.len(),
{
    if calls.len() > 0 {
        lemma_weight_at_least_zero(calls.drop_last(), dim);
    }
}

/// Where nothing is negative, the parts of what a history used are no more than all of
/// it, and that is its size.
proof fn lemma_parts(calls: Seq<Recorded>, lo: int, width: int, index: int, dim: usize)
    requires
        calls_at_least_zero(calls, dim),
    ensures
        used_in_all(calls, dim) == call_weight(calls, dim),
        0 <= used_after(calls, lo, dim) <= used_in_all(calls, dim),
        0 <= used_in_bucket(calls, width, index, dim),
        0 <= used_above(calls, width, index, dim),
        used_in_bucket(calls, width, index, dim) + used_above(calls, width, index, dim)
            <= used_in_all(calls, dim),
    decreases calls.len(),
{
    if calls.len() > 0 {
        lemma_shorter(calls, 0, dim);
        lemma_parts(calls.drop_last(), lo, width, index, dim);
    }
}

/// An exact log counts exactly what was used inside the window. The calls may have been
/// recorded in any order.
pub proof fn a_log_is_exact(window: i64, calls: Seq<Recorded>, now: i64, dim: usize)
    requires
        call_weight(calls, dim) <= i128::MAX,
        all_by(calls, now as int),
    ensures
        replayed(window, 0, calls).wf(),
        replayed(window, 0, calls).totals(now).along(dim) == used_after(
            calls,
            now - window,
            dim,
        ),
{
    lemma_log(window, calls, now, dim);
    super::waiting::lemma_totals(replayed(window, 0, calls), now, dim);
}

/// What a log of a history looks like in one dimension.
spec fn log_tallies(window: i64, calls: Seq<Recorded>, now: i64, dim: usize) -> bool {
    let model = replayed(window, 0, calls);
    &&& model.wf()
    &&& model matches WindowModel::Log { window: w, events, .. } && {
        &&& w == window
        &&& event_weight(events, dim) <= call_weight(calls, dim)
        &&& event_sum(events, now - window, dim) == used_after(calls, now - window, dim)
    }
}

proof fn lemma_log(window: i64, calls: Seq<Recorded>, now: i64, dim: usize)
    requires
        all_by(calls, now as int),
    ensures
        log_tallies(window, calls, now, dim),
    decreases calls.len(),
{
    if calls.len() > 0 {
        let call = calls.last();
        lemma_shorter(calls, now as int, dim);
        lemma_log(window, calls.drop_last(), now, dim);
        let before = replayed(window, 0, calls.drop_last());
        super::windows::recording_keeps_windows_well_formed(before, call.ts, call.used);
        match before {
            WindowModel::Log { window: w, events, next_id } => {
                let dropped = call.ts - window;
                let kept = live_events(events, dropped);
                let event = Event { id: next_id, ts: call.ts, used: call.used };
                super::events::lemma_sum_live(events, dropped, now - window, dim);
                super::events::lemma_live(events, dropped);
                super::events::lemma_recorded_in_order(kept, event);
                super::events::lemma_sum_insert(
                    kept,
                    event_place(kept, call.ts as int),
                    event,
                    now - window,
                    dim,
                );
            },
            _ => {},
        }
    }
}

/// How much of the width of a bucket lies in a window that opens at `lo`: all of it, none,
/// or the part after `lo`.
pub open spec fn width_inside(index: int, width: int, lo: int) -> int {
    let inside = bucket_end(index, width) - lo;
    if inside <= 0 {
        0
    } else if inside >= width {
        width
    } else {
        inside
    }
}

/// What the calls of a history used in one dimension, each call weighted by how much of
/// the width of its bucket lies in a window that opens at `lo`.
pub open spec fn prorated(calls: Seq<Recorded>, width: int, lo: int, dim: usize) -> int
    decreases calls.len(),
{
    if calls.len() == 0 {
        0
    } else {
        prorated(calls.drop_last(), width, lo, dim) + calls.last().used.along(dim)
            * width_inside(bucket_index(calls.last().ts as int, width), width, lo)
    }
}

/// What a list of buckets holds in one dimension, each bucket weighted by how much of its
/// width lies in a window that opens at `lo`.
pub open spec fn weighted(buckets: Seq<Bucket>, width: int, lo: int, dim: usize) -> int
    decreases buckets.len(),
{
    if buckets.len() == 0 {
        0
    } else {
        weighted(buckets.drop_last(), width, lo, dim) + buckets.last().used.along(dim)
            * width_inside(buckets.last().index as int, width, lo)
    }
}

proof fn lemma_insert(
    buckets: Seq<Bucket>,
    at: int,
    bucket: Bucket,
    width: int,
    lo: int,
    dim: usize,
)
    requires
        0 <= at <= buckets.len(),
    ensures
        weighted(buckets.insert(at, bucket), width, lo, dim) == weighted(buckets, width, lo, dim)
            + bucket.used.along(dim) * width_inside(bucket.index as int, width, lo),
        bucket_weight(buckets.insert(at, bucket), dim) == bucket_weight(buckets, dim) + size(
            bucket.used.along(dim) as int,
        ),
    decreases buckets.len(),
{
    if at == buckets.len() {
        assert(buckets.insert(at, bucket).drop_last() =~= buckets);
    } else {
        lemma_insert(buckets.drop_last(), at, bucket, width, lo, dim);
        assert(buckets.insert(at, bucket).drop_last() =~= buckets.drop_last().insert(at, bucket));
    }
}

proof fn lemma_update(
    buckets: Seq<Bucket>,
    at: int,
    bucket: Bucket,
    width: int,
    lo: int,
    dim: usize,
)
    requires
        0 <= at < buckets.len(),
        bucket.index == buckets[at].index,
    ensures
        weighted(buckets.update(at, bucket), width, lo, dim) == weighted(buckets, width, lo, dim)
            + (bucket.used.along(dim) - buckets[at].used.along(dim)) * width_inside(
            bucket.index as int,
            width,
            lo,
        ),
        bucket_weight(buckets.update(at, bucket), dim) == bucket_weight(buckets, dim) + size(
            bucket.used.along(dim) as int,
        ) - size(buckets[at].used.along(dim) as int),
    decreases buckets.len(),
{
    if at == buckets.len() - 1 {
        assert(buckets.update(at, bucket).drop_last() =~= buckets.drop_last());
        let (new, old, part) = (
            bucket.used.along(dim) as int,
            buckets[at].used.along(dim) as int,
            width_inside(bucket.index as int, width, lo),
        );
        assert(new * part == old * part + (new - old) * part) by (nonlinear_arith);
    } else {
        lemma_update(buckets.drop_last(), at, bucket, width, lo, dim);
        assert(buckets.update(at, bucket).drop_last() =~= buckets.drop_last().update(at, bucket));
    }
}

/// Dropping buckets that had left the window before changes nothing.
proof fn lemma_live(buckets: Seq<Bucket>, width: int, dropped: int, lo: int, dim: usize)
    requires
        dropped <= lo,
    ensures
        weighted(live_buckets(buckets, width, dropped), width, lo, dim) == weighted(
            buckets,
            width,
            lo,
            dim,
        ),
        bucket_weight(live_buckets(buckets, width, dropped), dim) <= bucket_weight(buckets, dim),
    decreases buckets.len(),
{
    reveal(Seq::filter);
    if buckets.len() > 0 {
        let pred = |b: Bucket| bucket_live(b, width, dropped);
        let shorter = buckets.drop_last();
        let last = buckets.last();
        lemma_live(shorter, width, dropped, lo, dim);
        let kept = live_buckets(shorter, width, dropped);
        if pred(last) {
            assert(live_buckets(buckets, width, dropped) =~= kept.push(last));
            assert(kept.push(last).drop_last() =~= kept);
        } else {
            assert(live_buckets(buckets, width, dropped) =~= kept);
            assert(width_inside(last.index as int, width, lo) == 0);
            assert(last.used.along(dim) * 0 == 0);
        }
    }
}

/// Recording usage adds it once.
proof fn lemma_recorded(
    buckets: Seq<Bucket>,
    at: i64,
    used: Usage,
    width: int,
    lo: int,
    dim: usize,
)
    requires
        ascending(buckets),
        bucket_weight(buckets, dim) + size(used.along(dim) as int) <= i128::MAX,
    ensures
        weighted(bucket_recorded(buckets, at, used), width, lo, dim) == weighted(
            buckets,
            width,
            lo,
            dim,
        ) + used.along(dim) * width_inside(at as int, width, lo),
        bucket_weight(bucket_recorded(buckets, at, used), dim) <= bucket_weight(buckets, dim)
            + size(used.along(dim) as int),
{
    crate::window::lemma_bucket_place(buckets, at as int);
    let place = bucket_place(buckets, at as int);
    if has_bucket(buckets, at as int) {
        super::counting::lemma_one_of(buckets, place, dim);
        let changed = Bucket { index: at, used: buckets[place].used.and(used) };
        lemma_update(buckets, place, changed, width, lo, dim);
    } else {
        lemma_insert(buckets, place, Bucket { index: at, used }, width, lo, dim);
    }
}

/// What the buckets of a history look like in one dimension.
spec fn bucket_tallies(
    window: i64,
    width: i64,
    calls: Seq<Recorded>,
    lo: int,
    dim: usize,
) -> bool {
    let model = replayed(window, width, calls);
    &&& model.wf()
    &&& model matches WindowModel::Buckets { window: w, width: v, buckets } && {
        &&& w == window
        &&& v == width
        &&& bucket_weight(buckets, dim) <= call_weight(calls, dim)
        &&& weighted(buckets, width as int, lo, dim) == prorated(calls, width as int, lo, dim)
    }
}

proof fn lemma_bucket_tallies(
    window: i64,
    width: i64,
    calls: Seq<Recorded>,
    now: i64,
    dim: usize,
)
    requires
        width >= 1,
        call_weight(calls, dim) <= i128::MAX,
        all_by(calls, now as int),
    ensures
        bucket_tallies(window, width, calls, now - window, dim),
    decreases calls.len(),
{
    let w = width as int;
    let lo = now - window;
    if calls.len() > 0 {
        let call = calls.last();
        lemma_shorter(calls, now as int, dim);
        lemma_bucket_tallies(window, width, calls.drop_last(), now, dim);
        let before = replayed(window, width, calls.drop_last());
        super::windows::recording_keeps_windows_well_formed(before, call.ts, call.used);
        match before {
            WindowModel::Buckets { window: _, width: _, buckets } => {
                let dropped = call.ts - window;
                let kept = live_buckets(buckets, w, dropped);
                let at = bucket_index(call.ts as int, w) as i64;
                lemma_bucket_of(call.ts, width);
                lemma_live(buckets, w, dropped, lo, dim);
                super::contents::lemma_content_live(buckets, w, dropped, 0);
                lemma_recorded(kept, at, call.used, w, lo, dim);
            },
            _ => {},
        }
    }
}

/// What buckets sum to is what they hold, prorated, rounded down once: at most one of them
/// is partly inside the window.
pub proof fn lemma_sum_is_quotient(buckets: Seq<Bucket>, width: int, lo: int, dim: usize)
    requires
        ascending(buckets),
        width >= 1,
    ensures
        bucket_sum(buckets, width, lo, dim) == weighted(buckets, width, lo, dim) / width,
        buckets.len() > 0 && bucket_start(buckets.last().index as int, width) < lo
            && !bucket_live(buckets.last(), width, lo) ==> weighted(buckets, width, lo, dim) == 0,
    decreases buckets.len(),
{
    if buckets.len() > 0 {
        let shorter = buckets.drop_last();
        let last = buckets.last();
        super::contents::lemma_content_drop_last(buckets, 0);
        super::bucket_sums::lemma_bucket_share(last, width, lo, dim);
        lemma_sum_is_quotient(shorter, width, lo, dim);
        let x = weighted(shorter, width, lo, dim);
        let v = last.used.along(dim) as int;
        if bucket_start(last.index as int, width) >= lo {
            vstd::arithmetic::div_mod::lemma_hoist_over_denominator(x, v, width as nat);
        } else {
            if shorter.len() > 0 {
                assert(buckets[shorter.len() - 1].index < buckets[buckets.len() - 1].index);
                let (a, b) = (shorter.last().index as int, last.index as int);
                assert(a * width + width <= b * width) by (nonlinear_arith)
                    requires
                        a + 1 <= b,
                        width >= 1,
                ;
            }
            assert(x == 0);
            assert(v * 0 == 0);
        }
        assert(0int / width == 0) by (nonlinear_arith)
            requires
                width >= 1,
        ;
    } else {
        assert(0int / width == 0) by (nonlinear_arith)
            requires
                width >= 1,
        ;
    }
}

/// Buckets count the prorated sum of what was recorded, rounded down: a call whose bucket
/// lies inside the window counts in full, one whose bucket the window opens in by the
/// fraction of the bucket that is still inside, and one whose bucket has ended not at all.
/// The calls may have been recorded in any order.
pub proof fn buckets_count_the_prorated_sum(
    window: i64,
    width: i64,
    calls: Seq<Recorded>,
    now: i64,
    dim: usize,
)
    requires
        width >= 1,
        call_weight(calls, dim) <= i128::MAX,
        all_by(calls, now as int),
    ensures
        replayed(window, width, calls).totals(now).along(dim) == prorated(
            calls,
            width as int,
            now - window,
            dim,
        ) / (width as int),
{
    lemma_bucket_tallies(window, width, calls, now, dim);
    let model = replayed(window, width, calls);
    if let WindowModel::Buckets { buckets, .. } = model {
        lemma_sum_is_quotient(buckets, width as int, now - window, dim);
    }
    super::waiting::lemma_totals(model, now, dim);
}

/// What the calls of a history used, in one dimension, in the bucket that a window which
/// opens at `lo` cuts in two; nothing where it opens between two buckets.
pub open spec fn used_in_cut_bucket(calls: Seq<Recorded>, width: int, lo: int, dim: usize) -> int {
    if lo % width == 0 {
        0
    } else {
        used_in_bucket(calls, width, bucket_index(lo, width), dim)
    }
}

/// Where nothing is negative, both the prorated sum and what was used after `lo` lie
/// between what was used in later buckets than that of `lo` and that plus what was used in
/// this one.
proof fn lemma_bounds(calls: Seq<Recorded>, width: int, lo: int, dim: usize)
    requires
        width >= 1,
        calls_at_least_zero(calls, dim),
    ensures
        ({
            let index = bucket_index(lo, width);
            let above = used_above(calls, width, index, dim);
            let inside = used_in_bucket(calls, width, index, dim);
            &&& above * width <= prorated(calls, width, lo, dim) <= (above + inside) * width
            &&& above <= used_after(calls, lo, dim) <= above + inside
            &&& lo % width == 0 ==> used_after(calls, lo, dim) * width <= prorated(
                calls,
                width,
                lo,
                dim,
            )
        }),
    decreases calls.len(),
{
    let index = bucket_index(lo, width);
    vstd::arithmetic::div_mod::lemma_fundamental_div_mod(lo, width);
    vstd::arithmetic::div_mod::lemma_mod_bound(lo, width);
    assert(width * index == index * width) by (nonlinear_arith);
    if calls.len() == 0 {
        assert(0 * width == 0);
    } else {
        let shorter = calls.drop_last();
        let last = calls.last();
        lemma_shorter(calls, 0, dim);
        lemma_bounds(shorter, width, lo, dim);
        let ts = last.ts as int;
        let at = bucket_index(ts, width);
        let v = last.used.along(dim) as int;
        if ts > lo {
            vstd::arithmetic::div_mod::lemma_div_is_ordered(lo, ts, width);
        } else {
            vstd::arithmetic::div_mod::lemma_div_is_ordered(ts, lo, width);
        }
        let part = width_inside(at, width, lo);
        if at > index {
            assert(index * width + width <= at * width) by (nonlinear_arith)
                requires
                    index + 1 <= at,
                    width >= 1,
            ;
            assert(part == width);
        } else if at < index {
            assert(at * width + width <= index * width) by (nonlinear_arith)
                requires
                    at + 1 <= index,
                    width >= 1,
            ;
            assert(part == 0);
        }
        assert(0 <= v * part <= v * width) by (nonlinear_arith)
            requires
                0 <= v,
                0 <= part <= width,
        ;
        let (a, b, u) = (
            used_above(shorter, width, index, dim),
            used_in_bucket(shorter, width, index, dim),
            used_after(shorter, lo, dim),
        );
        assert((a + v) * width == a * width + v * width) by (nonlinear_arith);
        assert((a + v + b) * width == (a + b) * width + v * width) by (nonlinear_arith);
        assert((a + (b + v)) * width == (a + b) * width + v * width) by (nonlinear_arith);
        assert((u + v) * width == u * width + v * width) by (nonlinear_arith);
        assert(v * 0 == 0);
    }
}

/// Buckets count what was used inside the window to within what was used in one bucket.
/// They fall short by no more than what was used in the bucket that the opening of the
/// window cuts in two, and exceed by no more than what was used in the bucket it falls
/// into. The calls may have been recorded in any order.
pub proof fn buckets_are_accurate_to_one_bucket(
    window: i64,
    width: i64,
    calls: Seq<Recorded>,
    now: i64,
    dim: usize,
)
    requires
        width >= 1,
        calls_at_least_zero(calls, dim),
        used_in_all(calls, dim) <= i128::MAX,
        all_by(calls, now as int),
    ensures
        -used_in_cut_bucket(calls, width as int, now - window, dim) <= replayed(
            window,
            width,
            calls,
        ).totals(now).along(dim) - used_after(calls, now - window, dim) <= used_in_bucket(
            calls,
            width as int,
            bucket_index(now - window, width as int),
            dim,
        ),
        0 <= replayed(window, width, calls).totals(now).along(dim) <= used_in_all(calls, dim),
{
    let w = width as int;
    let lo = now - window;
    let index = bucket_index(lo, w);
    lemma_parts(calls, lo, w, index, dim);
    buckets_count_the_prorated_sum(window, width, calls, now, dim);
    lemma_bounds(calls, w, lo, dim);
    let p = prorated(calls, w, lo, dim);
    let total = p / w;
    let (above, inside, exact) = (
        used_above(calls, w, index, dim),
        used_in_bucket(calls, w, index, dim),
        used_after(calls, lo, dim),
    );
    assert(above <= total <= above + inside) by (nonlinear_arith)
        requires
            above * w <= p <= (above + inside) * w,
            total == p / w,
            w >= 1,
    ;
    if lo % w == 0 {
        assert(exact <= total) by (nonlinear_arith)
            requires
                exact * w <= p,
                total == p / w,
                w >= 1,
        ;
    }
}

/// Whether every call of a history was admitted under a cap by a window that held the
/// calls before it, in the order of time.
pub open spec fn admitted_in_order(
    window: i64,
    bucket: i64,
    cap: i128,
    calls: Seq<Recorded>,
    dim: usize,
) -> bool
    decreases calls.len(),
{
    calls.len() > 0 ==> {
        &&& admitted_in_order(window, bucket, cap, calls.drop_last(), dim)
        &&& all_by(calls, calls.last().ts as int)
        &&& excess(
            Some(cap),
            replayed(window, bucket, calls.drop_last()).totals(calls.last().ts).along(dim),
            calls.last().used.along(dim),
        ) is None
    }
}

/// In any sliding window, what is admitted stays within the cap plus what one bucket
/// holds: the bucket that the opening of the last admitted call's window cuts in two.
pub proof fn admissions_stay_within_the_cap_and_one_bucket(
    window: i64,
    width: i64,
    cap: i128,
    calls: Seq<Recorded>,
    now: i64,
    dim: usize,
)
    requires
        width >= 1,
        calls_at_least_zero(calls, dim),
        calls.len() > 0,
        used_in_all(calls, dim) < i128::MAX,
        admitted_in_order(window, width, cap, calls, dim),
        calls.last().ts <= now,
    ensures
        used_after(calls, now - window, dim) <= cap + SLACK + used_in_cut_bucket(
            calls,
            width as int,
            calls.last().ts - window,
            dim,
        ),
{
    let w = width as int;
    let last = calls.last();
    let shorter = calls.drop_last();
    let lo = last.ts - window;
    let index = bucket_index(lo, w);
    lemma_shorter(calls, last.ts as int, dim);
    lemma_parts(calls, lo, w, index, dim);
    lemma_parts(shorter, lo, w, index, dim);
    buckets_are_accurate_to_one_bucket(window, width, shorter, last.ts, dim);
    lemma_used_after_ages(calls, lo, now - window, dim);
}

/// What was used after a later time is no more.
proof fn lemma_used_after_ages(calls: Seq<Recorded>, lo: int, later: int, dim: usize)
    requires
        calls_at_least_zero(calls, dim),
        lo <= later,
    ensures
        used_after(calls, later, dim) <= used_after(calls, lo, dim),
    decreases calls.len(),
{
    if calls.len() > 0 {
        lemma_shorter(calls, 0, dim);
        lemma_used_after_ages(calls.drop_last(), lo, later, dim);
    }
}

/// What the calls of a history used, in one dimension, after `lo` and up to `hi`.
pub open spec fn used_between(calls: Seq<Recorded>, lo: int, hi: int, dim: usize) -> int
    decreases calls.len(),
{
    if calls.len() == 0 {
        0
    } else {
        used_between(calls.drop_last(), lo, hi, dim) + if lo < calls.last().ts <= hi {
            calls.last().used.along(dim) as int
        } else {
            0int
        }
    }
}

/// Up to a time by which every call was made, nothing is left out.
proof fn lemma_between_all(calls: Seq<Recorded>, lo: int, hi: int, dim: usize)
    requires
        all_by(calls, hi),
    ensures
        used_between(calls, lo, hi, dim) == used_after(calls, lo, dim),
    decreases calls.len(),
{
    if calls.len() > 0 {
        lemma_shorter(calls, hi, dim);
        lemma_between_all(calls.drop_last(), lo, hi, dim);
    }
}

/// What an exact log admits stays within the cap in every window of its width, whenever it
/// ends.
pub proof fn admissions_of_a_log_stay_within_the_cap(
    window: i64,
    cap: i128,
    calls: Seq<Recorded>,
    t: int,
    dim: usize,
)
    requires
        calls_at_least_zero(calls, dim),
        used_in_all(calls, dim) < i128::MAX,
        admitted_in_order(window, 0, cap, calls, dim),
        0 <= cap + SLACK,
    ensures
        used_between(calls, t - window, t, dim) <= cap + SLACK,
    decreases calls.len(),
{
    if calls.len() > 0 {
        let last = calls.last();
        let shorter = calls.drop_last();
        let lo = last.ts - window;
        lemma_shorter(calls, last.ts as int, dim);
        lemma_parts(calls, lo, 1, 0, dim);
        lemma_parts(shorter, lo, 1, 0, dim);
        if t < last.ts {
            admissions_of_a_log_stay_within_the_cap(window, cap, shorter, t, dim);
        } else {
            assert(all_by(calls, t));
            lemma_between_all(calls, t - window, t, dim);
            lemma_used_after_ages(calls, lo, t - window, dim);
            a_log_is_exact(window, shorter, last.ts, dim);
        }
    }
}

} // verus!
