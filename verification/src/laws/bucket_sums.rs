//! What a list of buckets sums to, exactly.

use super::events::size;
use crate::fixed::share;
use crate::window::{
    ascending, bucket_end, bucket_freed, bucket_frees, bucket_live, bucket_release, bucket_share,
    bucket_start, bucket_suffices, bucket_total, Bucket,
};
use vstd::prelude::*;

verus! {

/// The exact sum, in one dimension, of what a list of buckets contributes to a window
/// that opens at `lo`.
pub open spec fn bucket_sum(buckets: Seq<Bucket>, width: int, lo: int, dim: usize) -> int
    decreases buckets.len(),
{
    if buckets.len() == 0 {
        0
    } else {
        bucket_sum(buckets.drop_last(), width, lo, dim) + bucket_share(
            buckets.last(),
            width,
            lo,
        ).along(dim)
    }
}

/// The sizes, in one dimension, of all buckets of a list, added up.
pub open spec fn bucket_weight(buckets: Seq<Bucket>, dim: usize) -> int
    decreases buckets.len(),
{
    if buckets.len() == 0 {
        0
    } else {
        bucket_weight(buckets.drop_last(), dim) + size(buckets.last().used.along(dim) as int)
    }
}

/// Whether no bucket of a list holds a negative amount in a dimension.
pub open spec fn buckets_at_least_zero(buckets: Seq<Bucket>, dim: usize) -> bool {
    forall|i: int| 0 <= i < buckets.len() ==> (#[trigger] buckets[i]).used.along(dim) >= 0
}

/// A fraction of an amount lies between nothing and all of it.
pub proof fn lemma_share_bounds(value: int, part: int, whole: int)
    requires
        0 <= part <= whole,
        0 < whole,
    ensures
        value >= 0 ==> 0 <= share(value, part, whole) <= value,
        value < 0 ==> value <= share(value, part, whole) <= 0,
{
    let p = value * part;
    if value >= 0 {
        assert(0 <= p <= value * whole) by (nonlinear_arith)
            requires
                0 <= part <= whole,
                value >= 0,
                p == value * part,
        ;
    } else {
        assert(value * whole <= p <= 0) by (nonlinear_arith)
            requires
                0 <= part <= whole,
                value < 0,
                p == value * part,
        ;
    }
    vstd::arithmetic::div_mod::lemma_fundamental_div_mod(p, whole);
    let q = p / whole;
    assert(0 <= p % whole < whole) by {
        vstd::arithmetic::div_mod::lemma_mod_bound(p, whole);
    }
    assert(whole * q <= p < whole * q + whole);
    if value >= 0 {
        assert(0 <= q <= value) by (nonlinear_arith)
            requires
                0 <= p <= value * whole,
                whole * q <= p < whole * q + whole,
                0 < whole,
        ;
    } else {
        assert(value <= q <= 0) by (nonlinear_arith)
            requires
                value * whole <= p <= 0,
                whole * q <= p < whole * q + whole,
                0 < whole,
        ;
    }
}

/// A larger fraction of an amount that is not negative is no smaller.
proof fn lemma_share_monotone(value: int, part: int, more: int, whole: int)
    requires
        0 <= value,
        0 <= part <= more,
        0 < whole,
    ensures
        share(value, part, whole) <= share(value, more, whole),
{
    assert(value * part <= value * more) by (nonlinear_arith)
        requires
            0 <= value,
            part <= more,
    ;
    vstd::arithmetic::div_mod::lemma_div_is_ordered(value * part, value * more, whole);
}

/// What a bucket contributes in a dimension, between nothing and all of it.
pub proof fn lemma_bucket_share(bucket: Bucket, width: int, lo: int, dim: usize)
    requires
        width >= 1,
    ensures
        bucket.used.along(dim) >= 0 ==> 0 <= bucket_share(bucket, width, lo).along(dim)
            <= bucket.used.along(dim),
        bucket.used.along(dim) < 0 ==> bucket.used.along(dim) <= bucket_share(
            bucket,
            width,
            lo,
        ).along(dim) <= 0,
        bucket_live(bucket, width, lo) && bucket_start(bucket.index as int, width) < lo
            ==> bucket_share(bucket, width, lo).along(dim) == share(
            bucket.used.along(dim) as int,
            bucket_end(bucket.index as int, width) - lo,
            width,
        ),
{
    if bucket_live(bucket, width, lo) && bucket_start(bucket.index as int, width) < lo {
        let part = bucket_end(bucket.index as int, width) - lo;
        assert(0 <= part <= width);
        lemma_share_bounds(bucket.used.tokens as int, part, width);
        lemma_share_bounds(bucket.used.requests as int, part, width);
        lemma_share_bounds(bucket.used.cost as int, part, width);
    }
}

/// A bucket contributes no more to a window that opens later.
pub proof fn lemma_bucket_share_ages(bucket: Bucket, width: int, lo: int, later: int, dim: usize)
    requires
        width >= 1,
        lo <= later,
        bucket.used.along(dim) >= 0,
    ensures
        bucket_share(bucket, width, later).along(dim) <= bucket_share(bucket, width, lo).along(
            dim,
        ),
{
    lemma_bucket_share(bucket, width, lo, dim);
    lemma_bucket_share(bucket, width, later, dim);
    let end = bucket_end(bucket.index as int, width);
    if bucket_live(bucket, width, later) && bucket_start(bucket.index as int, width) < lo {
        lemma_share_monotone(bucket.used.along(dim) as int, end - later, end - lo, width);
    }
}

/// A sum is no larger than the sizes it is made of.
pub proof fn lemma_bucket_sum_within(buckets: Seq<Bucket>, width: int, lo: int, dim: usize)
    requires
        width >= 1,
    ensures
        0 <= bucket_weight(buckets, dim),
        -bucket_weight(buckets, dim) <= bucket_sum(buckets, width, lo, dim) <= bucket_weight(
            buckets,
            dim,
        ),
    decreases buckets.len(),
{
    if buckets.len() > 0 {
        lemma_bucket_sum_within(buckets.drop_last(), width, lo, dim);
        lemma_bucket_share(buckets.last(), width, lo, dim);
    }
}

/// Where the sizes fit into `i128`, no total saturates.
pub proof fn lemma_bucket_total_is_sum(buckets: Seq<Bucket>, width: int, lo: int, dim: usize)
    requires
        width >= 1,
        bucket_weight(buckets, dim) <= i128::MAX,
    ensures
        bucket_total(buckets, width, lo).along(dim) == bucket_sum(buckets, width, lo, dim),
    decreases buckets.len(),
{
    if buckets.len() > 0 {
        lemma_bucket_total_is_sum(buckets.drop_last(), width, lo, dim);
        lemma_bucket_sum_within(buckets, width, lo, dim);
    }
}

/// A sum is no larger for a window that opens later.
pub proof fn lemma_bucket_sum_ages(
    buckets: Seq<Bucket>,
    width: int,
    lo: int,
    later: int,
    dim: usize,
)
    requires
        width >= 1,
        lo <= later,
        buckets_at_least_zero(buckets, dim),
    ensures
        bucket_sum(buckets, width, later, dim) <= bucket_sum(buckets, width, lo, dim),
    decreases buckets.len(),
{
    if buckets.len() > 0 {
        assert(buckets_at_least_zero(buckets.drop_last(), dim)) by {
            assert forall|i: int| 0 <= i < buckets.len() - 1 implies (
            #[trigger] buckets.drop_last()[i]).used.along(dim) >= 0 by {
                assert(buckets[i].used.along(dim) >= 0);
            }
        }
        lemma_bucket_sum_ages(buckets.drop_last(), width, lo, later, dim);
        assert(buckets[buckets.len() - 1].used.along(dim) >= 0);
        lemma_bucket_share_ages(buckets.last(), width, lo, later, dim);
    }
}

/// The first buckets of a list that holds nothing negative hold nothing negative.
pub proof fn lemma_take_at_least_zero(buckets: Seq<Bucket>, n: int, dim: usize)
    requires
        buckets_at_least_zero(buckets, dim),
        0 <= n <= buckets.len(),
    ensures
        buckets_at_least_zero(buckets.take(n), dim),
{
    assert forall|i: int| 0 <= i < n implies (#[trigger] buckets.take(n)[i]).used.along(dim)
        >= 0 by {
        assert(buckets[i].used.along(dim) >= 0);
    }
}

/// Fewer buckets weigh no more.
pub proof fn lemma_bucket_weight_take(buckets: Seq<Bucket>, n: int, dim: usize)
    requires
        0 <= n <= buckets.len(),
    ensures
        0 <= bucket_weight(buckets.take(n), dim) <= bucket_weight(buckets, dim),
    decreases buckets.len(),
{
    if n == buckets.len() {
        assert(buckets.take(n) =~= buckets);
        lemma_bucket_sum_within(buckets, 1, 0, dim);
    } else {
        lemma_bucket_weight_take(buckets.drop_last(), n, dim);
        assert(buckets.drop_last().take(n) =~= buckets.take(n));
    }
}

/// What a list of buckets gives back is what it contributes now.
pub proof fn lemma_freed_is_sum(buckets: Seq<Bucket>, width: int, lo: int, dim: usize)
    requires
        width >= 1,
        buckets_at_least_zero(buckets, dim),
        bucket_weight(buckets, dim) <= i128::MAX,
    ensures
        bucket_freed(buckets, width, lo, dim) == bucket_sum(buckets, width, lo, dim),
    decreases buckets.len(),
{
    if buckets.len() > 0 {
        let shorter = buckets.drop_last();
        assert(shorter =~= buckets.take(buckets.len() - 1));
        lemma_take_at_least_zero(buckets, buckets.len() - 1, dim);
        lemma_bucket_weight_take(buckets, buckets.len() - 1, dim);
        lemma_freed_is_sum(shorter, width, lo, dim);
        let last = buckets[buckets.len() - 1];
        assert(last.used.along(dim) >= 0);
        lemma_bucket_share(last, width, lo, dim);
        lemma_bucket_sum_within(buckets, width, lo, dim);
    }
}

/// Once the end of a bucket has left the window, the buckets up to it count for nothing
/// and the others for all they hold.
pub proof fn lemma_sum_past_end(buckets: Seq<Bucket>, width: int, lo: int, at: int, dim: usize)
    requires
        ascending(buckets),
        width >= 1,
        0 <= at < buckets.len(),
        bucket_live(buckets[at], width, lo),
    ensures
        bucket_sum(buckets, width, bucket_end(buckets[at].index as int, width), dim)
            == bucket_sum(buckets, width, lo, dim) - bucket_sum(
            buckets.take(at + 1),
            width,
            lo,
            dim,
        ),
    decreases buckets.len(),
{
    let end = bucket_end(buckets[at].index as int, width);
    if at == buckets.len() - 1 {
        assert(buckets.take(at + 1) =~= buckets);
        lemma_all_past(buckets, width, end, dim);
    } else {
        let shorter = buckets.drop_last();
        super::contents::lemma_content_drop_last(buckets, 0);
        assert(shorter[at] == buckets[at]);
        lemma_sum_past_end(shorter, width, lo, at, dim);
        assert(shorter.take(at + 1) =~= buckets.take(at + 1));
        let last = buckets.last();
        assert(buckets[at].index < buckets[buckets.len() - 1].index);
        assert(last.index * width >= buckets[at].index * width + width) by (nonlinear_arith)
            requires
                last.index >= buckets[at].index + 1,
                width >= 1,
        ;
    }
}

/// Buckets up to one whose end has left the window count for nothing.
proof fn lemma_all_past(buckets: Seq<Bucket>, width: int, end: int, dim: usize)
    requires
        ascending(buckets),
        width >= 1,
        buckets.len() > 0 ==> bucket_end(buckets.last().index as int, width) <= end,
    ensures
        bucket_sum(buckets, width, end, dim) == 0,
    decreases buckets.len(),
{
    if buckets.len() > 0 {
        let shorter = buckets.drop_last();
        super::contents::lemma_content_drop_last(buckets, 0);
        if shorter.len() > 0 {
            assert(buckets[shorter.len() - 1].index < buckets[buckets.len() - 1].index);
            let (a, b) = (shorter.last().index as int, buckets.last().index as int);
            assert(a * width + width <= b * width + width) by (nonlinear_arith)
                requires
                    a <= b,
                    width >= 1,
            ;
        }
        lemma_all_past(shorter, width, end, dim);
    }
}

/// Where the buckets of a list together give back enough, there is a first one that does.
pub proof fn lemma_release_exists(
    buckets: Seq<Bucket>,
    width: int,
    lo: int,
    dim: usize,
    over: int,
    n: int,
)
    requires
        0 <= n <= buckets.len(),
        bucket_freed(buckets.take(n), width, lo, dim) >= over - crate::fixed::SLACK,
        over - crate::fixed::SLACK > 0,
    ensures
        exists|at: int| bucket_release(buckets, width, lo, dim, over, at),
    decreases n,
{
    if n == 0 {
        assert(buckets.take(0).len() == 0);
    } else {
        let taken = buckets.take(n);
        assert(taken.drop_last() =~= buckets.take(n - 1));
        assert(taken.last() == buckets[n - 1]);
        if bucket_freed(buckets.take(n - 1), width, lo, dim) >= over - crate::fixed::SLACK {
            lemma_release_exists(buckets, width, lo, dim, over, n - 1);
        } else {
            assert(bucket_frees(buckets[n - 1], width, lo, dim));
            assert(bucket_suffices(buckets, width, lo, dim, over, n - 1));
            lemma_first_sufficient(buckets, width, lo, dim, over, n - 1);
        }
    }
}

/// Where some bucket suffices, there is a first one.
proof fn lemma_first_sufficient(
    buckets: Seq<Bucket>,
    width: int,
    lo: int,
    dim: usize,
    over: int,
    at: int,
)
    requires
        bucket_suffices(buckets, width, lo, dim, over, at),
    ensures
        exists|first: int| bucket_release(buckets, width, lo, dim, over, first),
    decreases at,
{
    if exists|q: int| 0 <= q < at && bucket_suffices(buckets, width, lo, dim, over, q) {
        let q = choose|q: int| 0 <= q < at && bucket_suffices(buckets, width, lo, dim, over, q);
        lemma_first_sufficient(buckets, width, lo, dim, over, q);
    } else {
        assert(bucket_release(buckets, width, lo, dim, over, at));
    }
}

/// Before the bucket that suffices, the buckets of a list have not given back enough.
pub proof fn lemma_not_enough_before(
    buckets: Seq<Bucket>,
    width: int,
    lo: int,
    dim: usize,
    over: int,
    at: int,
    n: int,
)
    requires
        bucket_release(buckets, width, lo, dim, over, at),
        over - crate::fixed::SLACK > 0,
        0 <= n <= at,
    ensures
        bucket_freed(buckets.take(n), width, lo, dim) < over - crate::fixed::SLACK,
    decreases n,
{
    if n > 0 {
        lemma_not_enough_before(buckets, width, lo, dim, over, at, n - 1);
        let taken = buckets.take(n);
        assert(taken.drop_last() =~= buckets.take(n - 1));
        assert(taken.last() == buckets[n - 1]);
        assert(!bucket_suffices(buckets, width, lo, dim, over, n - 1));
    }
}

/// When the window opens where a bucket starts, the buckets before it count for nothing
/// and the others for all they hold.
pub proof fn lemma_sum_from_start(buckets: Seq<Bucket>, width: int, lo: int, at: int, dim: usize)
    requires
        ascending(buckets),
        width >= 1,
        0 <= at < buckets.len(),
        bucket_start(buckets[at].index as int, width) >= lo,
    ensures
        bucket_sum(buckets, width, bucket_start(buckets[at].index as int, width), dim)
            == bucket_sum(buckets, width, lo, dim) - bucket_sum(
            buckets.take(at),
            width,
            lo,
            dim,
        ),
    decreases buckets.len(),
{
    let start = bucket_start(buckets[at].index as int, width);
    let shorter = buckets.drop_last();
    super::contents::lemma_content_drop_last(buckets, 0);
    if at == buckets.len() - 1 {
        assert(buckets.take(at) =~= shorter);
        if shorter.len() > 0 {
            assert(buckets[shorter.len() - 1].index < buckets[at].index);
            let (a, b) = (shorter.last().index as int, buckets[at].index as int);
            assert(a * width + width <= b * width) by (nonlinear_arith)
                requires
                    a + 1 <= b,
                    width >= 1,
            ;
        }
        lemma_all_past(shorter, width, start, dim);
    } else {
        assert(shorter[at] == buckets[at]);
        lemma_sum_from_start(shorter, width, lo, at, dim);
        assert(shorter.take(at) =~= buckets.take(at));
        let last = buckets.last();
        assert(buckets[at].index < buckets[buckets.len() - 1].index);
        assert(last.index * width >= buckets[at].index * width + width) by (nonlinear_arith)
            requires
                last.index >= buckets[at].index + 1,
                width >= 1,
        ;
    }
}

} // verus!
