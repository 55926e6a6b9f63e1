//! The two sliding-window engines: time buckets in bounded memory, and an exact log
//! of events.

use crate::fixed::{minus, plus, prorate, sat, share, SLACK};
use vstd::prelude::*;

verus! {

/// Token dimension index.
pub const TOKENS: usize = 0;

/// Request dimension index.
pub const REQUESTS: usize = 1;

/// Cost dimension index.
pub const COST: usize = 2;

/// An opaque handle to a recorded entry, returned when usage is recorded and passed
/// back to reconcile it later.
#[derive(Debug, Clone, Copy, PartialEq, Eq, Structural)]
pub enum Handle {
    /// A bucket index in a bucketed window.
    Bucket(i64),
    /// An event id in a precise window.
    Precise(u64),
}

/// An amount of usage in each of the three dimensions.
#[derive(Debug, Clone, Copy, PartialEq, Eq, Structural)]
pub struct Usage {
    pub tokens: i128,
    pub requests: i128,
    pub cost: i128,
}

/// The usage that a `[tokens, requests, cost]` triple stands for.
pub open spec fn usage_of(amounts: [i128; 3]) -> Usage {
    Usage { tokens: amounts@[0], requests: amounts@[1], cost: amounts@[2] }
}

impl Usage {
    /// No usage at all.
    pub open spec fn none() -> Usage {
        Usage { tokens: 0, requests: 0, cost: 0 }
    }

    /// The sum of two usages, dimension by dimension.
    pub open spec fn and(self, other: Usage) -> Usage {
        Usage {
            tokens: sat(self.tokens + other.tokens) as i128,
            requests: sat(self.requests + other.requests) as i128,
            cost: sat(self.cost + other.cost) as i128,
        }
    }

    /// The fraction `part / whole` of a usage, dimension by dimension.
    pub open spec fn fraction(self, part: int, whole: int) -> Usage {
        Usage {
            tokens: share(self.tokens as int, part, whole) as i128,
            requests: share(self.requests as int, part, whole) as i128,
            cost: share(self.cost as int, part, whole) as i128,
        }
    }

    /// The amount in one dimension.
    pub open spec fn along(self, dim: usize) -> i128 {
        if dim == TOKENS {
            self.tokens
        } else if dim == REQUESTS {
            self.requests
        } else {
            self.cost
        }
    }

    /// The three amounts in order.
    pub open spec fn triple(self) -> (i128, i128, i128) {
        (self.tokens, self.requests, self.cost)
    }

    fn from_amounts(amounts: [i128; 3]) -> (usage: Usage)
        ensures
            usage == usage_of(amounts),
    {
        Usage { tokens: amounts[TOKENS], requests: amounts[REQUESTS], cost: amounts[COST] }
    }

    fn zero() -> (usage: Usage)
        ensures
            usage == Usage::none(),
    {
        Usage { tokens: 0, requests: 0, cost: 0 }
    }

    fn sum(self, other: Usage) -> (usage: Usage)
        ensures
            usage == self.and(other),
    {
        Usage {
            tokens: plus(self.tokens, other.tokens),
            requests: plus(self.requests, other.requests),
            cost: plus(self.cost, other.cost),
        }
    }

    fn part(self, part: i64, whole: i64) -> (usage: Usage)
        requires
            0 <= part <= whole,
            0 < whole,
        ensures
            usage == self.fraction(part as int, whole as int),
    {
        Usage {
            tokens: prorate(self.tokens, part, whole),
            requests: prorate(self.requests, part, whole),
            cost: prorate(self.cost, part, whole),
        }
    }

    fn amount(self, dim: usize) -> (amount: i128)
        ensures
            amount == self.along(dim),
    {
        if dim == TOKENS {
            self.tokens
        } else if dim == REQUESTS {
            self.requests
        } else {
            self.cost
        }
    }
}

/// The usage recorded in one time bucket.
#[derive(Debug, Clone, Copy, PartialEq, Eq, Structural)]
pub struct Bucket {
    pub index: i64,
    pub used: Usage,
}

/// Where the bucket with the given index starts.
pub open spec fn bucket_start(index: int, width: int) -> int {
    index * width
}

/// Where the bucket with the given index ends.
pub open spec fn bucket_end(index: int, width: int) -> int {
    index * width + width
}

/// The index of the bucket that holds a point in time.
pub open spec fn bucket_index(now: int, width: int) -> int {
    now / width
}

/// Whether any part of a bucket lies after `lo`.
pub open spec fn bucket_live(bucket: Bucket, width: int, lo: int) -> bool {
    bucket_end(bucket.index as int, width) > lo
}

/// What a bucket contributes to a window that opens at `lo`: all of it when the whole
/// bucket lies inside, the fraction still inside when `lo` falls within it, and
/// nothing once it has ended.
pub open spec fn bucket_share(bucket: Bucket, width: int, lo: int) -> Usage {
    if !bucket_live(bucket, width, lo) {
        Usage::none()
    } else if bucket_start(bucket.index as int, width) < lo {
        bucket.used.fraction(bucket_end(bucket.index as int, width) - lo, width)
    } else {
        bucket.used
    }
}

/// The total that a list of buckets contributes to a window that opens at `lo`.
pub open spec fn bucket_total(buckets: Seq<Bucket>, width: int, lo: int) -> Usage
    decreases buckets.len(),
{
    if buckets.len() == 0 {
        Usage::none()
    } else {
        bucket_total(buckets.drop_last(), width, lo).and(bucket_share(buckets.last(), width, lo))
    }
}

/// The buckets in ascending order of index, none twice.
pub open spec fn ascending(buckets: Seq<Bucket>) -> bool {
    forall|i: int, j: int|
        0 <= i < j < buckets.len() ==> (#[trigger] buckets[i]).index < (#[trigger] buckets[j]).index
}

/// The buckets that are still live in a window that opens at `lo`.
pub open spec fn live_buckets(buckets: Seq<Bucket>, width: int, lo: int) -> Seq<Bucket> {
    buckets.filter(|b: Bucket| bucket_live(b, width, lo))
}

/// How many leading buckets have an index below `index`.
pub open spec fn bucket_place(buckets: Seq<Bucket>, index: int) -> int
    decreases buckets.len(),
{
    if buckets.len() == 0 {
        0
    } else if buckets.last().index < index {
        buckets.len() as int
    } else {
        bucket_place(buckets.drop_last(), index)
    }
}

/// Whether there is a bucket with the given index.
pub open spec fn has_bucket(buckets: Seq<Bucket>, index: int) -> bool {
    let at = bucket_place(buckets, index);
    at < buckets.len() && buckets[at].index == index
}

/// The buckets after `used` went into the one with the given index, if there is one.
pub open spec fn bucket_adjusted(buckets: Seq<Bucket>, index: i64, used: Usage) -> Seq<Bucket> {
    if has_bucket(buckets, index as int) {
        let at = bucket_place(buckets, index as int);
        buckets.update(at, Bucket { index, used: buckets[at].used.and(used) })
    } else {
        buckets
    }
}

/// The buckets after `used` was recorded in the one with the given index, which is
/// made at its place if there is none yet.
pub open spec fn bucket_recorded(buckets: Seq<Bucket>, index: i64, used: Usage) -> Seq<Bucket> {
    if has_bucket(buckets, index as int) {
        bucket_adjusted(buckets, index, used)
    } else {
        buckets.insert(bucket_place(buckets, index as int), Bucket { index, used })
    }
}

/// Whether a bucket counts when usage in a dimension is to age out.
pub open spec fn bucket_frees(bucket: Bucket, width: int, lo: int, dim: usize) -> bool {
    bucket_live(bucket, width, lo) && bucket.used.along(dim) > 0
}

/// What the buckets of a list give back in a dimension once all of them have aged out: of
/// each, what it contributes to the window now.
pub open spec fn bucket_freed(buckets: Seq<Bucket>, width: int, lo: int, dim: usize) -> int
    decreases buckets.len(),
{
    if buckets.len() == 0 {
        0
    } else {
        let before = bucket_freed(buckets.drop_last(), width, lo, dim);
        if bucket_frees(buckets.last(), width, lo, dim) {
            sat(before + bucket_share(buckets.last(), width, lo).along(dim))
        } else {
            before
        }
    }
}

/// Whether bucket `at` is one whose end gives back at least `over`, up to the slack.
pub open spec fn bucket_suffices(
    buckets: Seq<Bucket>,
    width: int,
    lo: int,
    dim: usize,
    over: int,
    at: int,
) -> bool {
    &&& 0 <= at < buckets.len()
    &&& bucket_frees(buckets[at], width, lo, dim)
    &&& bucket_freed(buckets.take(at + 1), width, lo, dim) >= over - SLACK
}

/// Whether bucket `at` is the first whose end gives back at least `over`.
pub open spec fn bucket_release(
    buckets: Seq<Bucket>,
    width: int,
    lo: int,
    dim: usize,
    over: int,
    at: int,
) -> bool {
    &&& bucket_suffices(buckets, width, lo, dim, over, at)
    &&& forall|q: int| 0 <= q < at ==> !bucket_suffices(buckets, width, lo, dim, over, q)
}

/// How long until `over` units of a dimension age out of a list of buckets: until the
/// end of the first bucket that suffices leaves the window, or for a whole window if
/// none does.
pub open spec fn bucket_wait(
    buckets: Seq<Bucket>,
    window: int,
    width: int,
    now: int,
    over: int,
    dim: usize,
) -> int {
    let lo = now - window;
    if exists|at: int| bucket_release(buckets, width, lo, dim, over, at) {
        let at = choose|at: int| bucket_release(buckets, width, lo, dim, over, at);
        at_least_zero(bucket_end(buckets[at].index as int, width) + window - now)
    } else {
        window
    }
}

/// `x`, or zero if it is negative.
pub open spec fn at_least_zero(x: int) -> int {
    if x < 0 {
        0
    } else {
        x
    }
}

/// Fixed-size time buckets. Memory is bounded by the number of buckets that fit into
/// the window, whatever the traffic; the trailing bucket is prorated by the fraction of
/// it that is still inside the window.
#[derive(Debug)]
pub struct BucketWindow {
    window: i64,
    bucket: i64,
    buckets: Vec<Bucket>,
}

/// Bounds that keep bucket edges inside the range of `i128`.
proof fn lemma_edge_bounds(index: int, width: int)
    requires
        i64::MIN <= index <= i64::MAX,
        1 <= width <= i64::MAX,
    ensures
        -0x4000_0000_0000_0000_0000_0000_0000_0000 <= index * width
            <= 0x4000_0000_0000_0000_0000_0000_0000_0000,
{
    assert(-0x4000_0000_0000_0000_0000_0000_0000_0000 <= index * width
        <= 0x4000_0000_0000_0000_0000_0000_0000_0000) by (nonlinear_arith)
        requires
            i64::MIN <= index <= i64::MAX,
            1 <= width <= i64::MAX,
    ;
}

/// The place of an index splits an ascending list into the buckets before it and the
/// buckets from it on.
pub proof fn lemma_bucket_place(buckets: Seq<Bucket>, index: int)
    requires
        ascending(buckets),
    ensures
        0 <= bucket_place(buckets, index) <= buckets.len(),
        forall|i: int|
            0 <= i < bucket_place(buckets, index) ==> (#[trigger] buckets[i]).index < index,
        forall|i: int|
            bucket_place(buckets, index) <= i < buckets.len() ==> (#[trigger] buckets[i]).index
                >= index,
    decreases buckets.len(),
{
    if buckets.len() > 0 && buckets.last().index >= index {
        lemma_bucket_place(buckets.drop_last(), index);
        let at = bucket_place(buckets, index);
        assert forall|i: int| 0 <= i < at implies (#[trigger] buckets[i]).index < index by {
            assert(buckets.drop_last()[i] == buckets[i]);
        }
        assert forall|i: int| at <= i < buckets.len() implies (#[trigger] buckets[i]).index
            >= index by {
            if i < buckets.len() - 1 {
                assert(buckets.drop_last()[i] == buckets[i]);
            }
        }
    }
}

/// A split of an ascending list at an index is the place of that index.
proof fn lemma_bucket_place_is(buckets: Seq<Bucket>, index: int, at: int)
    requires
        ascending(buckets),
        0 <= at <= buckets.len(),
        forall|i: int| 0 <= i < at ==> (#[trigger] buckets[i]).index < index,
        at < buckets.len() ==> buckets[at].index >= index,
    ensures
        bucket_place(buckets, index) == at,
{
    lemma_bucket_place(buckets, index);
    let place = bucket_place(buckets, index);
    if place < at {
        assert(buckets[place].index < index);
    }
    if at < place {
        assert(buckets[at].index < index);
    }
}

impl BucketWindow {
    pub closed spec fn window(&self) -> i64 {
        self.window
    }

    pub closed spec fn width(&self) -> i64 {
        self.bucket
    }

    pub closed spec fn buckets(&self) -> Seq<Bucket> {
        self.buckets@
    }

    pub open spec fn wf(&self) -> bool {
        &&& self.width() >= 1
        &&& ascending(self.buckets())
    }

    /// An empty window. A bucket is never narrower than the resolution of the clock.
    pub fn new(window: i64, bucket: i64) -> (result: BucketWindow)
        ensures
            result.wf(),
            result.window() == window,
            result.width() == if bucket < 1 {
                1
            } else {
                bucket
            },
            result.buckets() == Seq::<Bucket>::empty(),
    {
        BucketWindow {
            window,
            bucket: if bucket < 1 {
                1
            } else {
                bucket
            },
            buckets: Vec::new(),
        }
    }

    fn end_of(&self, index: i64) -> (end: i128)
        requires
            self.wf(),
        ensures
            end == bucket_end(index as int, self.width() as int),
            -0x5000_0000_0000_0000_0000_0000_0000_0000 <= end
                <= 0x5000_0000_0000_0000_0000_0000_0000_0000,
    {
        proof {
            lemma_edge_bounds(index as int, self.bucket as int);
        }
        (index as i128) * (self.bucket as i128) + self.bucket as i128
    }

    /// Drops every bucket that ended at or before the opening of the window.
    fn evict(&mut self, now: i64)
        requires
            old(self).wf(),
        ensures
            final(self).wf(),
            final(self).window() == old(self).window(),
            final(self).width() == old(self).width(),
            final(self).buckets() == live_buckets(
                old(self).buckets(),
                old(self).width() as int,
                now - old(self).window(),
            ),
    {
        let lo: i128 = now as i128 - self.window as i128;
        let ghost pred = |b: Bucket| bucket_live(b, self.bucket as int, lo as int);
        let mut kept: Vec<Bucket> = Vec::new();
        let mut i: usize = 0;
        assert(self.buckets@.take(0).filter(pred) =~= Seq::<Bucket>::empty()) by {
            reveal(Seq::filter);
        }
        while i < self.buckets.len()
            invariant
                self.wf(),
                *self == *old(self),
                0 <= i <= self.buckets.len(),
                lo == now - self.window,
                pred == (|b: Bucket| bucket_live(b, self.bucket as int, lo as int)),
                kept@ == self.buckets@.take(i as int).filter(pred),
                ascending(kept@),
                i < self.buckets.len() ==> forall|k: int|
                    0 <= k < kept.len() ==> (#[trigger] kept@[k]).index
                        < self.buckets@[i as int].index,
            decreases self.buckets.len() - i,
        {
            let bucket: Bucket = self.buckets[i];
            proof {
                reveal(Seq::filter);
                assert(self.buckets@.take(i + 1).drop_last() =~= self.buckets@.take(i as int));
                assert(self.buckets@.take(i + 1).last() == bucket);
            }
            if self.end_of(bucket.index) > lo {
                kept.push(bucket);
            }
            i += 1;
        }
        assert(self.buckets@.take(i as int) =~= self.buckets@);
        self.buckets = kept;
    }

    /// What a bucket contributes to a window that opens at `lo`.
    fn share_of(&self, bucket: Bucket, lo: i128) -> (usage: Usage)
        requires
            self.wf(),
        ensures
            usage == bucket_share(bucket, self.width() as int, lo as int),
    {
        let end: i128 = self.end_of(bucket.index);
        let start: i128 = end - self.bucket as i128;
        if end <= lo {
            Usage::zero()
        } else if start < lo {
            bucket.used.part((end - lo) as i64, self.bucket)
        } else {
            bucket.used
        }
    }

    /// The current `(tokens, requests, cost)` totals.
    pub fn snapshot(&self, now: i64) -> (total: Usage)
        requires
            self.wf(),
        ensures
            total == bucket_total(self.buckets(), self.width() as int, now - self.window()),
    {
        let lo: i128 = now as i128 - self.window as i128;
        let mut total: Usage = Usage::zero();
        let mut i: usize = 0;
        assert(self.buckets@.take(0) =~= Seq::<Bucket>::empty());
        while i < self.buckets.len()
            invariant
                self.wf(),
                0 <= i <= self.buckets.len(),
                lo == now - self.window,
                total == bucket_total(self.buckets@.take(i as int), self.bucket as int, lo as int),
            decreases self.buckets.len() - i,
        {
            let bucket: Bucket = self.buckets[i];
            proof {
                assert(self.buckets@.take(i + 1).drop_last() =~= self.buckets@.take(i as int));
                assert(self.buckets@.take(i + 1).last() == bucket);
            }
            total = total.sum(self.share_of(bucket, lo));
            i += 1;
        }
        assert(self.buckets@.take(i as int) =~= self.buckets@);
        total
    }

    /// How many leading buckets have an index below `index`.
    fn place_of(&self, index: i64) -> (at: usize)
        requires
            self.wf(),
        ensures
            at == bucket_place(self.buckets(), index as int),
            at <= self.buckets().len(),
    {
        let mut at: usize = self.buckets.len();
        while at > 0 && self.buckets[at - 1].index >= index
            invariant
                self.wf(),
                at <= self.buckets.len(),
                forall|i: int|
                    at <= i < self.buckets.len() ==> (#[trigger] self.buckets@[i]).index >= index,
            decreases at,
        {
            at -= 1;
        }
        proof {
            assert forall|i: int| 0 <= i < at implies (#[trigger] self.buckets@[i]).index
                < index by {
                assert(self.buckets@[at - 1].index < index);
            }
            lemma_bucket_place_is(self.buckets@, index as int, at as int);
        }
        at
    }

    /// Records usage in the bucket that holds `now`.
    pub fn add(&mut self, now: i64, used: Usage) -> (handle: Handle)
        requires
            old(self).wf(),
        ensures
            final(self).wf(),
            final(self).window() == old(self).window(),
            final(self).width() == old(self).width(),
            handle == Handle::Bucket(bucket_index(now as int, old(self).width() as int) as i64),
            final(self).buckets() == bucket_recorded(
                live_buckets(
                    old(self).buckets(),
                    old(self).width() as int,
                    now - old(self).window(),
                ),
                bucket_index(now as int, old(self).width() as int) as i64,
                used,
            ),
    {
        self.evict(now);
        proof {
            lemma_index_bounds(now as int, self.bucket as int);
        }
        let index: i64 = now.checked_div_euclid(self.bucket).unwrap();
        let at: usize = self.place_of(index);
        proof {
            lemma_bucket_place(self.buckets@, index as int);
        }
        if at < self.buckets.len() && self.buckets[at].index == index {
            let bucket: Bucket = Bucket { index, used: self.buckets[at].used.sum(used) };
            self.buckets.set(at, bucket);
        } else {
            self.buckets.insert(at, Bucket { index, used });
        }
        Handle::Bucket(index)
    }

    /// Reconciles the bucket that a handle names, if it is still there.
    pub fn adjust(&mut self, handle: &Handle, delta: Usage)
        requires
            old(self).wf(),
        ensures
            final(self).wf(),
            final(self).window() == old(self).window(),
            final(self).width() == old(self).width(),
            final(self).buckets() == match *handle {
                Handle::Bucket(index) => bucket_adjusted(old(self).buckets(), index, delta),
                Handle::Precise(_) => old(self).buckets(),
            },
    {
        if let Handle::Bucket(index) = *handle {
            let at: usize = self.place_of(index);
            if at < self.buckets.len() && self.buckets[at].index == index {
                let bucket: Bucket = Bucket { index, used: self.buckets[at].used.sum(delta) };
                self.buckets.set(at, bucket);
            }
        }
    }

    /// How long until `over` units of a dimension age out.
    pub fn time_to_free(&self, now: i64, over: i128, dim: usize) -> (wait: i128)
        requires
            self.wf(),
            dim < 3,
        ensures
            wait == bucket_wait(
                self.buckets(),
                self.window() as int,
                self.width() as int,
                now as int,
                over as int,
                dim,
            ),
    {
        let lo: i128 = now as i128 - self.window as i128;
        let need: i128 = minus(over, SLACK);
        let mut freed: i128 = 0;
        let mut i: usize = 0;
        assert(self.buckets@.take(0) =~= Seq::<Bucket>::empty());
        while i < self.buckets.len()
            invariant
                self.wf(),
                0 <= i <= self.buckets.len(),
                lo == now - self.window,
                need == sat(over - SLACK),
                freed == bucket_freed(
                    self.buckets@.take(i as int),
                    self.bucket as int,
                    lo as int,
                    dim,
                ),
                forall|q: int|
                    0 <= q < i ==> !bucket_suffices(
                        self.buckets@,
                        self.bucket as int,
                        lo as int,
                        dim,
                        over as int,
                        q,
                    ),
            decreases self.buckets.len() - i,
        {
            let bucket: Bucket = self.buckets[i];
            proof {
                assert(self.buckets@.take(i + 1).drop_last() =~= self.buckets@.take(i as int));
                assert(self.buckets@.take(i + 1).last() == bucket);
            }
            let end: i128 = self.end_of(bucket.index);
            if end > lo && bucket.used.amount(dim) > 0 {
                freed = plus(freed, self.share_of(bucket, lo).amount(dim));
                if freed >= need {
                    assert(bucket_release(
                        self.buckets@,
                        self.bucket as int,
                        lo as int,
                        dim,
                        over as int,
                        i as int,
                    ));
                    proof {
                        lemma_bucket_release_unique(
                            self.buckets@,
                            self.bucket as int,
                            lo as int,
                            dim,
                            over as int,
                            i as int,
                        );
                    }
                    let wait: i128 = end + self.window as i128 - now as i128;
                    return if wait < 0 {
                        0
                    } else {
                        wait
                    };
                }
            }
            i += 1;
        }
        self.window as i128
    }

    /// The number of buckets held.
    pub fn bucket_count(&self) -> (count: usize)
        ensures
            count == self.buckets().len(),
    {
        self.buckets.len()
    }
}

proof fn lemma_bucket_release_unique(
    buckets: Seq<Bucket>,
    width: int,
    lo: int,
    dim: usize,
    over: int,
    at: int,
)
    requires
        bucket_release(buckets, width, lo, dim, over, at),
    ensures
        forall|q: int| bucket_release(buckets, width, lo, dim, over, q) ==> q == at,
{
}

/// The bucket index of a point in time is in the range of `i64`.
proof fn lemma_index_bounds(now: int, width: int)
    requires
        i64::MIN <= now <= i64::MAX,
        1 <= width <= i64::MAX,
    ensures
        i64::MIN <= bucket_index(now, width) <= i64::MAX,
{
    assert(i64::MIN <= now / width <= i64::MAX) by (nonlinear_arith)
        requires
            i64::MIN <= now <= i64::MAX,
            1 <= width,
    ;
}

/// One recorded event.
#[derive(Debug, Clone, Copy, PartialEq, Eq, Structural)]
pub struct Event {
    pub id: u64,
    pub ts: i64,
    pub used: Usage,
}

/// The total of the events of a list that happened after `lo`.
pub open spec fn event_total(events: Seq<Event>, lo: int) -> Usage
    decreases events.len(),
{
    if events.len() == 0 {
        Usage::none()
    } else {
        let before = event_total(events.drop_last(), lo);
        if events.last().ts > lo {
            before.and(events.last().used)
        } else {
            before
        }
    }
}

/// The events in the order in which they happened.
pub open spec fn in_time_order(events: Seq<Event>) -> bool {
    forall|i: int, j: int|
        0 <= i < j < events.len() ==> (#[trigger] events[i]).ts <= (#[trigger] events[j]).ts
}

/// No two events share an id, and all ids were given out before `next_id`.
pub open spec fn ids_distinct(events: Seq<Event>, next_id: u64) -> bool {
    &&& forall|i: int| 0 <= i < events.len() ==> (#[trigger] events[i]).id < next_id
    &&& forall|i: int, j: int|
        0 <= i < j < events.len() ==> (#[trigger] events[i]).id != (#[trigger] events[j]).id
}

/// The events that happened after `lo`.
pub open spec fn live_events(events: Seq<Event>, lo: int) -> Seq<Event> {
    events.filter(|e: Event| e.ts > lo)
}

/// How many leading events happened no later than `now`.
pub open spec fn event_place(events: Seq<Event>, now: int) -> int
    decreases events.len(),
{
    if events.len() == 0 {
        0
    } else if events.last().ts <= now {
        events.len() as int
    } else {
        event_place(events.drop_last(), now)
    }
}

/// The events after one more was recorded: it goes behind all that happened no later.
pub open spec fn event_recorded(events: Seq<Event>, event: Event) -> Seq<Event> {
    events.insert(event_place(events, event.ts as int), event)
}

/// Whether event `at` is the first with the given id.
pub open spec fn event_found(events: Seq<Event>, id: u64, at: int) -> bool {
    &&& 0 <= at < events.len()
    &&& events[at].id == id
    &&& forall|q: int| 0 <= q < at ==> (#[trigger] events[q]).id != id
}

/// The events after `delta` went into the one with the given id, if there is one.
pub open spec fn event_adjusted(events: Seq<Event>, id: u64, delta: Usage) -> Seq<Event> {
    if exists|at: int| event_found(events, id, at) {
        let at = choose|at: int| event_found(events, id, at);
        events.update(at, Event { used: events[at].used.and(delta), ..events[at] })
    } else {
        events
    }
}

/// What the live events of a list give back in a dimension once all have aged out.
pub open spec fn event_freed(events: Seq<Event>, lo: int, dim: usize) -> int
    decreases events.len(),
{
    if events.len() == 0 {
        0
    } else {
        let before = event_freed(events.drop_last(), lo, dim);
        if events.last().ts > lo {
            sat(before + events.last().used.along(dim))
        } else {
            before
        }
    }
}

/// Whether event `at` is one whose leaving gives back at least `over`, up to the slack.
pub open spec fn event_suffices(
    events: Seq<Event>,
    lo: int,
    dim: usize,
    over: int,
    at: int,
) -> bool {
    &&& 0 <= at < events.len()
    &&& events[at].ts > lo
    &&& event_freed(events.take(at + 1), lo, dim) >= over - SLACK
}

/// Whether event `at` is the first whose leaving gives back at least `over`.
pub open spec fn event_release(
    events: Seq<Event>,
    lo: int,
    dim: usize,
    over: int,
    at: int,
) -> bool {
    &&& event_suffices(events, lo, dim, over, at)
    &&& forall|q: int| 0 <= q < at ==> !event_suffices(events, lo, dim, over, q)
}

/// How long until `over` units of a dimension age out of a list of events: until the
/// first event that suffices leaves the window, or for a whole window if none does.
pub open spec fn event_wait(
    events: Seq<Event>,
    window: int,
    now: int,
    over: int,
    dim: usize,
) -> int {
    let lo = now - window;
    if exists|at: int| event_release(events, lo, dim, over, at) {
        let at = choose|at: int| event_release(events, lo, dim, over, at);
        at_least_zero(events[at].ts + window - now)
    } else {
        window
    }
}

/// The place of a point in time splits a time-ordered list into the events up to it
/// and the events after it.
pub proof fn lemma_event_place(events: Seq<Event>, now: int)
    requires
        in_time_order(events),
    ensures
        0 <= event_place(events, now) <= events.len(),
        forall|i: int| 0 <= i < event_place(events, now) ==> (#[trigger] events[i]).ts <= now,
        forall|i: int|
            event_place(events, now) <= i < events.len() ==> (#[trigger] events[i]).ts > now,
    decreases events.len(),
{
    if events.len() > 0 && events.last().ts > now {
        lemma_event_place(events.drop_last(), now);
        let at = event_place(events, now);
        assert forall|i: int| 0 <= i < at implies (#[trigger] events[i]).ts <= now by {
            assert(events.drop_last()[i] == events[i]);
        }
        assert forall|i: int| at <= i < events.len() implies (#[trigger] events[i]).ts > now by {
            if i < events.len() - 1 {
                assert(events.drop_last()[i] == events[i]);
            }
        }
    }
}

/// A split of a time-ordered list at a point in time is the place of that point.
proof fn lemma_event_place_is(events: Seq<Event>, now: int, at: int)
    requires
        in_time_order(events),
        0 <= at <= events.len(),
        at > 0 ==> events[at - 1].ts <= now,
        forall|i: int| at <= i < events.len() ==> (#[trigger] events[i]).ts > now,
    ensures
        event_place(events, now) == at,
{
    lemma_event_place(events, now);
    let place = event_place(events, now);
    if place < at {
        assert(events[at - 1].ts > now);
    }
    if at < place {
        assert(events[at].ts <= now);
    }
}

/// An exact per-event log. Memory grows with the traffic inside the window, in exchange
/// for exact enforcement and retry timing. The events are held in the order in which
/// they happened.
#[derive(Debug)]
pub struct PreciseWindow {
    window: i64,
    events: Vec<Event>,
    next_id: u64,
}

impl PreciseWindow {
    pub closed spec fn window(&self) -> i64 {
        self.window
    }

    pub closed spec fn events(&self) -> Seq<Event> {
        self.events@
    }

    pub closed spec fn next_id(&self) -> u64 {
        self.next_id
    }

    pub open spec fn wf(&self) -> bool {
        &&& in_time_order(self.events())
        &&& self.next_id() < u64::MAX ==> ids_distinct(self.events(), self.next_id())
    }

    /// An empty window.
    pub fn new(window: i64) -> (result: PreciseWindow)
        ensures
            result.wf(),
            result.window() == window,
            result.events() == Seq::<Event>::empty(),
            result.next_id() == 0,
    {
        PreciseWindow { window, events: Vec::new(), next_id: 0 }
    }

    /// Drops every event that happened at or before the opening of the window.
    fn evict(&mut self, now: i64)
        requires
            old(self).wf(),
        ensures
            final(self).wf(),
            final(self).window() == old(self).window(),
            final(self).next_id() == old(self).next_id(),
            final(self).events() == live_events(old(self).events(), now - old(self).window()),
    {
        let lo: i128 = now as i128 - self.window as i128;
        let ghost pred = |e: Event| e.ts > lo;
        let mut kept: Vec<Event> = Vec::new();
        let mut i: usize = 0;
        assert(self.events@.take(0).filter(pred) =~= Seq::<Event>::empty()) by {
            reveal(Seq::filter);
        }
        while i < self.events.len()
            invariant
                self.wf(),
                *self == *old(self),
                0 <= i <= self.events.len(),
                lo == now - self.window,
                pred == (|e: Event| e.ts > lo),
                kept@ == self.events@.take(i as int).filter(pred),
                forall|k: int|
                    0 <= k < kept.len() ==> exists|j: int|
                        0 <= j < i && (#[trigger] kept@[k]) == self.events@[j],
                in_time_order(kept@),
                self.next_id < u64::MAX ==> ids_distinct(kept@, self.next_id),
            decreases self.events.len() - i,
        {
            let event: Event = self.events[i];
            proof {
                reveal(Seq::filter);
                assert(self.events@.take(i + 1).drop_last() =~= self.events@.take(i as int));
                assert(self.events@.take(i + 1).last() == event);
            }
            if event.ts as i128 > lo {
                kept.push(event);
            }
            i += 1;
        }
        assert(self.events@.take(i as int) =~= self.events@);
        self.events = kept;
    }

    /// The current `(tokens, requests, cost)` totals.
    pub fn snapshot(&self, now: i64) -> (total: Usage)
        requires
            self.wf(),
        ensures
            total == event_total(self.events(), now - self.window()),
    {
        let lo: i128 = now as i128 - self.window as i128;
        let mut total: Usage = Usage::zero();
        let mut i: usize = 0;
        assert(self.events@.take(0) =~= Seq::<Event>::empty());
        while i < self.events.len()
            invariant
                0 <= i <= self.events.len(),
                lo == now - self.window,
                total == event_total(self.events@.take(i as int), lo as int),
            decreases self.events.len() - i,
        {
            let event: Event = self.events[i];
            proof {
                assert(self.events@.take(i + 1).drop_last() =~= self.events@.take(i as int));
                assert(self.events@.take(i + 1).last() == event);
            }
            if event.ts as i128 > lo {
                total = total.sum(event.used);
            }
            i += 1;
        }
        assert(self.events@.take(i as int) =~= self.events@);
        total
    }

    /// Records usage as an event of its own at `now`. Ids count up and stay at the last
    /// one once they run out.
    pub fn add(&mut self, now: i64, used: Usage) -> (handle: Handle)
        requires
            old(self).wf(),
        ensures
            final(self).wf(),
            final(self).window() == old(self).window(),
            handle == Handle::Precise(old(self).next_id()),
            final(self).next_id() == id_after(old(self).next_id()),
            final(self).events() == event_recorded(
                live_events(old(self).events(), now - old(self).window()),
                Event { id: old(self).next_id(), ts: now, used },
            ),
    {
        self.evict(now);
        let id: u64 = self.next_id;
        if id < u64::MAX {
            self.next_id = id + 1;
        }
        let mut at: usize = self.events.len();
        while at > 0 && self.events[at - 1].ts > now
            invariant
                in_time_order(self.events@),
                at <= self.events.len(),
                forall|i: int|
                    at <= i < self.events.len() ==> (#[trigger] self.events@[i]).ts > now,
            decreases at,
        {
            at -= 1;
        }
        proof {
            lemma_event_place_is(self.events@, now as int, at as int);
            lemma_event_place(self.events@, now as int);
        }
        self.events.insert(at, Event { id, ts: now, used });
        Handle::Precise(id)
    }

    /// Reconciles the event that a handle names, if it is still there.
    pub fn adjust(&mut self, handle: &Handle, delta: Usage)
        requires
            old(self).wf(),
        ensures
            final(self).wf(),
            final(self).window() == old(self).window(),
            final(self).next_id() == old(self).next_id(),
            final(self).events() == match *handle {
                Handle::Precise(id) => event_adjusted(old(self).events(), id, delta),
                Handle::Bucket(_) => old(self).events(),
            },
    {
        if let Handle::Precise(id) = *handle {
            let mut i: usize = 0;
            while i < self.events.len()
                invariant
                    *self == *old(self),
                    old(self).wf(),
                    0 <= i <= self.events.len(),
                    forall|q: int| 0 <= q < i ==> (#[trigger] self.events@[q]).id != id,
                    *handle == Handle::Precise(id),
                decreases self.events.len() - i,
            {
                let event: Event = self.events[i];
                if event.id == id {
                    assert(event_found(self.events@, id, i as int));
                    let adjusted: Event = Event {
                        id,
                        ts: event.ts,
                        used: event.used.sum(delta),
                    };
                    self.events.set(i, adjusted);
                    return;
                }
                i += 1;
            }
        }
    }

    /// How long until `over` units of a dimension age out. Any dimension beyond the
    /// first two is the cost.
    pub fn time_to_free(&self, now: i64, over: i128, dim: usize) -> (wait: i128)
        requires
            self.wf(),
        ensures
            wait == event_wait(
                self.events(),
                self.window() as int,
                now as int,
                over as int,
                dim,
            ),
    {
        let lo: i128 = now as i128 - self.window as i128;
        let need: i128 = minus(over, SLACK);
        let mut freed: i128 = 0;
        let mut i: usize = 0;
        assert(self.events@.take(0) =~= Seq::<Event>::empty());
        while i < self.events.len()
            invariant
                0 <= i <= self.events.len(),
                lo == now - self.window,
                need == sat(over - SLACK),
                freed == event_freed(self.events@.take(i as int), lo as int, dim),
                forall|q: int|
                    0 <= q < i ==> !event_suffices(
                        self.events@,
                        lo as int,
                        dim,
                        over as int,
                        q,
                    ),
            decreases self.events.len() - i,
        {
            let event: Event = self.events[i];
            proof {
                assert(self.events@.take(i + 1).drop_last() =~= self.events@.take(i as int));
                assert(self.events@.take(i + 1).last() == event);
            }
            if event.ts as i128 > lo {
                freed = plus(freed, event.used.amount(dim));
                if freed >= need {
                    assert(event_release(
                        self.events@,
                        lo as int,
                        dim,
                        over as int,
                        i as int,
                    ));
                    proof {
                        lemma_event_release_unique(
                            self.events@,
                            lo as int,
                            dim,
                            over as int,
                            i as int,
                        );
                    }
                    let wait: i128 = event.ts as i128 + self.window as i128 - now as i128;
                    return if wait < 0 {
                        0
                    } else {
                        wait
                    };
                }
            }
            i += 1;
        }
        self.window as i128
    }
}

/// The id after `id`; the last one is its own successor.
pub open spec fn id_after(id: u64) -> u64 {
    if id < u64::MAX {
        (id + 1) as u64
    } else {
        id
    }
}

proof fn lemma_event_release_unique(
    events: Seq<Event>,
    lo: int,
    dim: usize,
    over: int,
    at: int,
)
    requires
        event_release(events, lo, dim, over, at),
    ensures
        forall|q: int| event_release(events, lo, dim, over, q) ==> q == at,
{
}

/// A window as a mathematical value.
#[verifier::ext_equal]
pub enum WindowModel {
    /// Time buckets of the given width.
    Buckets { window: i64, width: i64, buckets: Seq<Bucket> },
    /// An exact log.
    Log { window: i64, events: Seq<Event>, next_id: u64 },
}

impl WindowModel {
    /// A window that nothing was recorded in: an exact log for a bucket width of zero or
    /// less, and buckets of that width otherwise.
    pub open spec fn fresh(window: i64, bucket: i64) -> WindowModel {
        if bucket <= 0 {
            WindowModel::Log { window, events: Seq::empty(), next_id: 0 }
        } else {
            WindowModel::Buckets { window, width: bucket, buckets: Seq::empty() }
        }
    }

    pub open spec fn wf(self) -> bool {
        match self {
            WindowModel::Buckets { window, width, buckets } => width >= 1 && ascending(buckets),
            WindowModel::Log { window, events, next_id } => {
                &&& in_time_order(events)
                &&& next_id < u64::MAX ==> ids_distinct(events, next_id)
            },
        }
    }

    /// The width of the window.
    pub open spec fn span(self) -> i64 {
        match self {
            WindowModel::Buckets { window, .. } => window,
            WindowModel::Log { window, .. } => window,
        }
    }

    /// The totals at `now`.
    pub open spec fn totals(self, now: i64) -> Usage {
        match self {
            WindowModel::Buckets { window, width, buckets } => bucket_total(
                buckets,
                width as int,
                now - window,
            ),
            WindowModel::Log { window, events, .. } => event_total(events, now - window),
        }
    }

    /// The handle that the next recording at `now` returns.
    pub open spec fn handle(self, now: i64) -> Handle {
        match self {
            WindowModel::Buckets { width, .. } => Handle::Bucket(
                bucket_index(now as int, width as int) as i64,
            ),
            WindowModel::Log { next_id, .. } => Handle::Precise(next_id),
        }
    }

    /// The window after `used` was recorded at `now`: what has left the window is
    /// dropped first.
    pub open spec fn added(self, now: i64, used: Usage) -> WindowModel {
        match self {
            WindowModel::Buckets { window, width, buckets } => WindowModel::Buckets {
                window,
                width,
                buckets: bucket_recorded(
                    live_buckets(buckets, width as int, now - window),
                    bucket_index(now as int, width as int) as i64,
                    used,
                ),
            },
            WindowModel::Log { window, events, next_id } => WindowModel::Log {
                window,
                events: event_recorded(
                    live_events(events, now - window),
                    Event { id: next_id, ts: now, used },
                ),
                next_id: id_after(next_id),
            },
        }
    }

    /// The window after the entry that a handle names was changed by `delta`; a handle
    /// that names no entry changes nothing.
    pub open spec fn adjusted(self, handle: Handle, delta: Usage) -> WindowModel {
        match (self, handle) {
            (
                WindowModel::Buckets { window, width, buckets },
                Handle::Bucket(index),
            ) => WindowModel::Buckets {
                window,
                width,
                buckets: bucket_adjusted(buckets, index, delta),
            },
            (
                WindowModel::Log { window, events, next_id },
                Handle::Precise(id),
            ) => WindowModel::Log { window, events: event_adjusted(events, id, delta), next_id },
            _ => self,
        }
    }

    /// How long from `now` until `over` units of a dimension age out.
    pub open spec fn wait(self, now: i64, over: int, dim: usize) -> int {
        match self {
            WindowModel::Buckets { window, width, buckets } => bucket_wait(
                buckets,
                window as int,
                width as int,
                now as int,
                over,
                dim,
            ),
            WindowModel::Log { window, events, .. } => event_wait(
                events,
                window as int,
                now as int,
                over,
                dim,
            ),
        }
    }

    /// The number of buckets held; an exact log has none.
    pub open spec fn bucket_count(self) -> nat {
        match self {
            WindowModel::Buckets { buckets, .. } => buckets.len(),
            WindowModel::Log { .. } => 0,
        }
    }
}

/// A per-key sliding-window aggregate.
#[derive(Debug)]
pub enum Window {
    Buckets(BucketWindow),
    Precise(PreciseWindow),
}

impl View for Window {
    type V = WindowModel;

    open spec fn view(&self) -> WindowModel {
        match self {
            Window::Buckets(w) => WindowModel::Buckets {
                window: w.window(),
                width: w.width(),
                buckets: w.buckets(),
            },
            Window::Precise(w) => WindowModel::Log {
                window: w.window(),
                events: w.events(),
                next_id: w.next_id(),
            },
        }
    }
}

impl Window {
    /// A new window: an exact log for a bucket width of zero or less, and buckets of
    /// that width otherwise.
    pub fn new(window: i64, bucket: i64) -> (result: Window)
        ensures
            result@ == WindowModel::fresh(window, bucket),
            result@.wf(),
    {
        if bucket <= 0 {
            Window::Precise(PreciseWindow::new(window))
        } else {
            Window::Buckets(BucketWindow::new(window, bucket))
        }
    }

    /// The current totals.
    pub fn snapshot(&self, now: i64) -> (total: Usage)
        requires
            self@.wf(),
        ensures
            total == self@.totals(now),
    {
        match self {
            Window::Buckets(w) => w.snapshot(now),
            Window::Precise(w) => w.snapshot(now),
        }
    }

    /// Records usage `[tokens, requests, cost]`.
    pub fn add(&mut self, now: i64, amounts: [i128; 3]) -> (handle: Handle)
        requires
            old(self)@.wf(),
        ensures
            final(self)@.wf(),
            final(self)@ == old(self)@.added(now, usage_of(amounts)),
            handle == old(self)@.handle(now),
    {
        let used: Usage = Usage::from_amounts(amounts);
        match self {
            Window::Buckets(w) => w.add(now, used),
            Window::Precise(w) => w.add(now, used),
        }
    }

    /// Reconciles a recorded entry by `[tokens, requests, cost]` deltas.
    pub fn adjust(&mut self, handle: &Handle, deltas: [i128; 3])
        requires
            old(self)@.wf(),
        ensures
            final(self)@.wf(),
            final(self)@ == old(self)@.adjusted(*handle, usage_of(deltas)),
    {
        let delta: Usage = Usage::from_amounts(deltas);
        match self {
            Window::Buckets(w) => w.adjust(handle, delta),
            Window::Precise(w) => w.adjust(handle, delta),
        }
    }

    /// How long until `over` units of a dimension age out.
    pub fn time_to_free(&self, now: i64, over: i128, dim: usize) -> (wait: i128)
        requires
            self@.wf(),
            dim < 3 || self@ is Log,
        ensures
            wait == self@.wait(now, over as int, dim),
    {
        match self {
            Window::Buckets(w) => w.time_to_free(now, over, dim),
            Window::Precise(w) => w.time_to_free(now, over, dim),
        }
    }

    /// The number of buckets held, for a bucketed window.
    pub fn bucket_count(&self) -> (count: Option<usize>)
        ensures
            match count {
                Some(count) => self@ is Buckets && count == self@.bucket_count(),
                None => self@ is Log,
            },
    {
        match self {
            Window::Buckets(w) => Some(w.bucket_count()),
            Window::Precise(_) => None,
        }
    }
}

} // verus!
