//! What a list of buckets holds at each index, and how recording, adjusting and dropping
//! buckets changes it.

use crate::fixed::share;
use crate::window::{
    ascending, bucket_adjusted, bucket_end, bucket_live, bucket_place, bucket_recorded,
    bucket_share, bucket_total, has_bucket, live_buckets, Bucket, Usage,
};
use vstd::prelude::*;

verus! {

/// What a list of buckets holds at an index.
pub open spec fn content(buckets: Seq<Bucket>, index: int) -> Usage {
    if has_bucket(buckets, index) {
        buckets[bucket_place(buckets, index)].used
    } else {
        Usage::none()
    }
}

/// A bucket of a list is what the list holds at its index.
pub proof fn lemma_content_at(buckets: Seq<Bucket>, at: int)
    requires
        ascending(buckets),
        0 <= at < buckets.len(),
    ensures
        bucket_place(buckets, buckets[at].index as int) == at,
        has_bucket(buckets, buckets[at].index as int),
        content(buckets, buckets[at].index as int) == buckets[at].used,
{
    let index = buckets[at].index as int;
    crate::window::lemma_bucket_place(buckets, index);
    let place = bucket_place(buckets, index);
    if place < at {
        assert(buckets[place].index >= index);
        assert(buckets[place].index < buckets[at].index);
    }
    if at < place {
        assert(buckets[at].index < index);
    }
}

/// A list holds nothing at an index that none of its buckets has.
pub proof fn lemma_content_none(buckets: Seq<Bucket>, index: int)
    requires
        ascending(buckets),
        forall|i: int| 0 <= i < buckets.len() ==> (#[trigger] buckets[i]).index != index,
    ensures
        !has_bucket(buckets, index),
        content(buckets, index) == Usage::none(),
{
    crate::window::lemma_bucket_place(buckets, index);
}

/// Dropping the last bucket takes away its content and nothing else.
pub proof fn lemma_content_drop_last(buckets: Seq<Bucket>, index: int)
    requires
        ascending(buckets),
        buckets.len() > 0,
    ensures
        ascending(buckets.drop_last()),
        content(buckets.drop_last(), index) == if index == buckets.last().index {
            Usage::none()
        } else {
            content(buckets, index)
        },
{
    let shorter = buckets.drop_last();
    assert forall|i: int, j: int| 0 <= i < j < shorter.len() implies (#[trigger] shorter[i]).index
        < (#[trigger] shorter[j]).index by {
        assert(buckets[i].index < buckets[j].index);
    }
    if exists|i: int| 0 <= i < shorter.len() && (#[trigger] shorter[i]).index == index {
        let i = choose|i: int| 0 <= i < shorter.len() && (#[trigger] shorter[i]).index == index;
        lemma_content_at(shorter, i);
        lemma_content_at(buckets, i);
        assert(buckets[i].index < buckets[buckets.len() - 1].index);
    } else {
        lemma_content_none(shorter, index);
        if index != buckets.last().index {
            assert forall|i: int| 0 <= i < buckets.len() implies (#[trigger] buckets[i]).index
                != index by {
                if i < shorter.len() {
                    assert(shorter[i] == buckets[i]);
                }
            }
            lemma_content_none(buckets, index);
        }
    }
}

/// A fraction of nothing is nothing.
proof fn lemma_share_of_nothing(bucket: Bucket, width: int, lo: int)
    requires
        width >= 1,
        bucket.used == Usage::none(),
    ensures
        bucket_share(bucket, width, lo) == Usage::none(),
{
    let part = bucket_end(bucket.index as int, width) - lo;
    assert(share(0, part, width) == 0) by (nonlinear_arith)
        requires
            width >= 1,
    {
        assert(0 * part == 0);
        assert(0int / width == 0);
    }
}

/// What a window totals depends only on what its live buckets hold.
pub proof fn lemma_total_by_content(a: Seq<Bucket>, b: Seq<Bucket>, width: int, lo: int)
    requires
        ascending(a),
        ascending(b),
        width >= 1,
        forall|index: int|
            bucket_end(index, width) > lo ==> #[trigger] content(a, index) == content(b, index),
    ensures
        bucket_total(a, width, lo) == bucket_total(b, width, lo),
    decreases a.len() + b.len(),
{
    if a.len() == 0 && b.len() == 0 {
    } else if a.len() > 0 && (b.len() == 0 || a.last().index > b.last().index) {
        lemma_last_holds_nothing(a, b, width, lo);
        assert forall|index: int| bucket_end(index, width) > lo implies #[trigger] content(
            a.drop_last(),
            index,
        ) == content(b, index) by {
            lemma_content_drop_last(a, index);
            assert(content(a, index) == content(b, index));
            if index == a.last().index {
                lemma_above_last(b, index);
            }
        }
        lemma_content_drop_last(a, 0);
        lemma_total_by_content(a.drop_last(), b, width, lo);
    } else if b.len() > 0 && (a.len() == 0 || b.last().index > a.last().index) {
        assert forall|index: int| bucket_end(index, width) > lo implies #[trigger] content(
            b,
            index,
        ) == content(a, index) by {
            assert(content(a, index) == content(b, index));
        }
        lemma_last_holds_nothing(b, a, width, lo);
        assert forall|index: int| bucket_end(index, width) > lo implies #[trigger] content(
            a,
            index,
        ) == content(b.drop_last(), index) by {
            lemma_content_drop_last(b, index);
            assert(content(a, index) == content(b, index));
            if index == b.last().index {
                lemma_above_last(a, index);
            }
        }
        lemma_content_drop_last(b, 0);
        lemma_total_by_content(a, b.drop_last(), width, lo);
    } else {
        let index = a.last().index as int;
        lemma_content_at(a, a.len() - 1);
        lemma_content_at(b, b.len() - 1);
        assert(bucket_end(index, width) > lo ==> content(a, index) == content(b, index));
        assert forall|i: int| bucket_end(i, width) > lo implies #[trigger] content(
            a.drop_last(),
            i,
        ) == content(b.drop_last(), i) by {
            lemma_content_drop_last(a, i);
            lemma_content_drop_last(b, i);
            assert(content(a, i) == content(b, i));
        }
        lemma_content_drop_last(a, 0);
        lemma_content_drop_last(b, 0);
        lemma_total_by_content(a.drop_last(), b.drop_last(), width, lo);
    }
}

/// A list holds nothing above its last bucket.
proof fn lemma_above_last(buckets: Seq<Bucket>, index: int)
    requires
        ascending(buckets),
        buckets.len() > 0 ==> buckets.last().index < index,
    ensures
        content(buckets, index) == Usage::none(),
{
    assert forall|i: int| 0 <= i < buckets.len() implies (#[trigger] buckets[i]).index
        != index by {
        if i < buckets.len() - 1 {
            assert(buckets[i].index < buckets[buckets.len() - 1].index);
        }
    }
    lemma_content_none(buckets, index);
}

/// A last bucket that the other list has nothing to match counts for nothing.
proof fn lemma_last_holds_nothing(a: Seq<Bucket>, b: Seq<Bucket>, width: int, lo: int)
    requires
        ascending(a),
        ascending(b),
        width >= 1,
        a.len() > 0,
        b.len() > 0 ==> b.last().index < a.last().index,
        forall|index: int|
            bucket_end(index, width) > lo ==> #[trigger] content(a, index) == content(b, index),
    ensures
        bucket_total(a, width, lo) == bucket_total(a.drop_last(), width, lo),
{
    let last = a.last();
    lemma_content_at(a, a.len() - 1);
    lemma_above_last(b, last.index as int);
    if bucket_live(last, width, lo) {
        assert(content(a, last.index as int) == content(b, last.index as int));
        lemma_share_of_nothing(last, width, lo);
    }
    let before = bucket_total(a.drop_last(), width, lo);
    assert(before.and(Usage::none()) == before);
}

/// Filtering an ascending list keeps it ascending, and keeps exactly the buckets that
/// pass.
proof fn lemma_filter(buckets: Seq<Bucket>, pred: spec_fn(Bucket) -> bool)
    requires
        ascending(buckets),
    ensures
        ascending(buckets.filter(pred)),
        forall|i: int|
            0 <= i < buckets.filter(pred).len() ==> pred(#[trigger] buckets.filter(pred)[i])
                && buckets.contains(buckets.filter(pred)[i]),
        forall|i: int|
            0 <= i < buckets.len() && pred(#[trigger] buckets[i]) ==> buckets.filter(
                pred,
            ).contains(buckets[i]),
    decreases buckets.len(),
{
    reveal(Seq::filter);
    if buckets.len() > 0 {
        let shorter = buckets.drop_last();
        lemma_content_drop_last(buckets, 0);
        lemma_filter(shorter, pred);
        let kept = shorter.filter(pred);
        let all = buckets.filter(pred);
        let last = buckets.last();
        assert forall|i: int| 0 <= i < all.len() implies pred(#[trigger] all[i])
            && buckets.contains(all[i]) by {
            if i < kept.len() {
                assert(shorter.contains(kept[i]));
                let j = choose|j: int| 0 <= j < shorter.len() && shorter[j] == kept[i];
                assert(buckets[j] == all[i]);
            } else {
                assert(buckets[buckets.len() - 1] == all[i]);
            }
        }
        assert forall|i: int| 0 <= i < buckets.len() && pred(#[trigger] buckets[i]) implies
            all.contains(buckets[i]) by {
            if i < shorter.len() {
                assert(shorter[i] == buckets[i]);
                assert(kept.contains(buckets[i]));
                let j = choose|j: int| 0 <= j < kept.len() && kept[j] == buckets[i];
                assert(all[j] == buckets[i]);
            } else {
                assert(all[all.len() - 1] == buckets[i]);
            }
        }
        assert forall|i: int, j: int| 0 <= i < j < all.len() implies (#[trigger] all[i]).index < (
        #[trigger] all[j]).index by {
            if j < kept.len() {
                assert(kept[i].index < kept[j].index);
            } else {
                assert(shorter.contains(kept[i]));
                let k = choose|k: int| 0 <= k < shorter.len() && shorter[k] == kept[i];
                assert(buckets[k].index < buckets[buckets.len() - 1].index);
            }
        }
    }
}

/// The buckets that are left once others have left a window are live, and were there.
pub proof fn lemma_live(buckets: Seq<Bucket>, width: int, lo: int)
    requires
        ascending(buckets),
    ensures
        ascending(live_buckets(buckets, width, lo)),
        forall|i: int|
            0 <= i < live_buckets(buckets, width, lo).len() ==> bucket_live(
                #[trigger] live_buckets(buckets, width, lo)[i],
                width,
                lo,
            ) && buckets.contains(live_buckets(buckets, width, lo)[i]),
{
    let pred = |b: Bucket| bucket_live(b, width, lo);
    lemma_filter(buckets, pred);
    assert forall|i: int| 0 <= i < live_buckets(buckets, width, lo).len() implies bucket_live(
        #[trigger] live_buckets(buckets, width, lo)[i],
        width,
        lo,
    ) && buckets.contains(live_buckets(buckets, width, lo)[i]) by {
        assert(pred(buckets.filter(pred)[i]));
    }
}

/// Dropping the buckets that have left a window leaves the contents of the others.
pub proof fn lemma_content_live(buckets: Seq<Bucket>, width: int, lo: int, index: int)
    requires
        ascending(buckets),
    ensures
        ascending(live_buckets(buckets, width, lo)),
        content(live_buckets(buckets, width, lo), index) == if bucket_end(index, width) > lo {
            content(buckets, index)
        } else {
            Usage::none()
        },
        has_bucket(live_buckets(buckets, width, lo), index) == (bucket_end(index, width) > lo
            && has_bucket(buckets, index)),
{
    let pred = |b: Bucket| bucket_live(b, width, lo);
    let kept = live_buckets(buckets, width, lo);
    lemma_filter(buckets, pred);
    if exists|i: int| 0 <= i < kept.len() && (#[trigger] kept[i]).index == index {
        let i = choose|i: int| 0 <= i < kept.len() && (#[trigger] kept[i]).index == index;
        lemma_content_at(kept, i);
        assert(pred(kept[i]));
        assert(buckets.contains(kept[i]));
        let j = choose|j: int| 0 <= j < buckets.len() && buckets[j] == kept[i];
        lemma_content_at(buckets, j);
    } else {
        lemma_content_none(kept, index);
        if bucket_end(index, width) > lo {
            assert forall|i: int| 0 <= i < buckets.len() implies (#[trigger] buckets[i]).index
                != index by {
                if buckets[i].index == index {
                    assert(pred(buckets[i]));
                    assert(kept.contains(buckets[i]));
                }
            }
            lemma_content_none(buckets, index);
        }
    }
}

/// Changing a bucket that is there changes the content at its index only.
pub proof fn lemma_content_adjusted(buckets: Seq<Bucket>, at: i64, used: Usage, index: int)
    requires
        ascending(buckets),
    ensures
        ascending(bucket_adjusted(buckets, at, used)),
        content(bucket_adjusted(buckets, at, used), index) == if index == at && has_bucket(
            buckets,
            at as int,
        ) {
            content(buckets, index).and(used)
        } else {
            content(buckets, index)
        },
        has_bucket(bucket_adjusted(buckets, at, used), index) == has_bucket(buckets, index),
{
    if has_bucket(buckets, at as int) {
        crate::window::lemma_bucket_place(buckets, at as int);
        let place = bucket_place(buckets, at as int);
        let changed = bucket_adjusted(buckets, at, used);
        assert(changed.len() == buckets.len());
        assert forall|i: int| 0 <= i < buckets.len() implies (#[trigger] changed[i]).index
            == buckets[i].index by {}
        assert(ascending(changed)) by {
            assert forall|i: int, j: int| 0 <= i < j < changed.len() implies (
            #[trigger] changed[i]).index < (#[trigger] changed[j]).index by {
                assert(buckets[i].index < buckets[j].index);
            }
        }
        lemma_same_indices(buckets, changed, index);
        if has_bucket(buckets, index) {
            crate::window::lemma_bucket_place(buckets, index);
            let other = bucket_place(buckets, index);
            assert(changed[other].index == buckets[other].index);
            lemma_content_at(changed, other);
            assert(other == place <==> index == at);
        }
    }
}

/// Lists with the same indices hold something at the same indices.
proof fn lemma_same_indices(a: Seq<Bucket>, b: Seq<Bucket>, index: int)
    requires
        ascending(a),
        ascending(b),
        a.len() == b.len(),
        forall|i: int| 0 <= i < a.len() ==> (#[trigger] b[i]).index == a[i].index,
    ensures
        has_bucket(a, index) == has_bucket(b, index),
        has_bucket(a, index) ==> bucket_place(a, index) == bucket_place(b, index),
{
    if exists|i: int| 0 <= i < a.len() && (#[trigger] a[i]).index == index {
        let i = choose|i: int| 0 <= i < a.len() && (#[trigger] a[i]).index == index;
        assert(b[i].index == index);
        lemma_content_at(a, i);
        lemma_content_at(b, i);
    } else {
        lemma_content_none(a, index);
        assert forall|i: int| 0 <= i < b.len() implies (#[trigger] b[i]).index != index by {
            assert(b[i].index == a[i].index);
        }
        lemma_content_none(b, index);
    }
}

/// Recording usage adds to the content at one index only.
pub proof fn lemma_content_recorded(buckets: Seq<Bucket>, at: i64, used: Usage, index: int)
    requires
        ascending(buckets),
    ensures
        ascending(bucket_recorded(buckets, at, used)),
        content(bucket_recorded(buckets, at, used), index) == if index == at {
            content(buckets, index).and(used)
        } else {
            content(buckets, index)
        },
        has_bucket(bucket_recorded(buckets, at, used), index) == (index == at || has_bucket(
            buckets,
            index,
        )),
{
    if has_bucket(buckets, at as int) {
        lemma_content_adjusted(buckets, at, used, index);
    } else {
        crate::window::lemma_bucket_place(buckets, at as int);
        let place = bucket_place(buckets, at as int);
        let longer = bucket_recorded(buckets, at, used);
        assert forall|i: int| 0 <= i < buckets.len() implies (#[trigger] buckets[i]).index
            != at by {
            if buckets[i].index == at {
                lemma_content_at(buckets, i);
            }
        }
        assert(longer[place] == (Bucket { index: at, used }));
        assert(ascending(longer)) by {
            assert forall|i: int, j: int| 0 <= i < j < longer.len() implies (
            #[trigger] longer[i]).index < (#[trigger] longer[j]).index by {
                let a = if i < place {
                    i
                } else {
                    i - 1
                };
                let b = if j < place {
                    j
                } else {
                    j - 1
                };
                if i != place {
                    assert(longer[i] == buckets[a]);
                }
                if j != place {
                    assert(longer[j] == buckets[b]);
                }
                if i != place && j != place {
                    assert(buckets[a].index < buckets[b].index);
                }
            }
        }
        if index == at {
            lemma_content_at(longer, place);
            lemma_content_none(buckets, index);
            assert(Usage::none().and(used) == used);
        } else if exists|i: int| 0 <= i < buckets.len() && (#[trigger] buckets[i]).index
            == index {
            let i = choose|i: int| 0 <= i < buckets.len() && (#[trigger] buckets[i]).index
                == index;
            lemma_content_at(buckets, i);
            let j = if i < place {
                i
            } else {
                i + 1
            };
            assert(longer[j] == buckets[i]);
            lemma_content_at(longer, j);
        } else {
            lemma_content_none(buckets, index);
            assert forall|j: int| 0 <= j < longer.len() implies (#[trigger] longer[j]).index
                != index by {
                if j < place {
                    assert(longer[j] == buckets[j]);
                } else if j > place {
                    assert(longer[j] == buckets[j - 1]);
                }
            }
            lemma_content_none(longer, index);
        }
    }
}

/// Ascending lists that hold the same at the same indices are the same.
pub proof fn lemma_same_contents(a: Seq<Bucket>, b: Seq<Bucket>)
    requires
        ascending(a),
        ascending(b),
        forall|index: int|
            #![trigger content(a, index)]
            content(a, index) == content(b, index) && has_bucket(a, index) == has_bucket(b, index),
    ensures
        a == b,
    decreases a.len(),
{
    if a.len() > 0 {
        lemma_content_at(a, a.len() - 1);
        let top = a.last().index as int;
        assert(content(a, top) == content(b, top));
        lemma_highest(b, top);
        if b.last().index > top {
            lemma_content_at(b, b.len() - 1);
            let other = b.last().index as int;
            assert(content(a, other) == content(b, other));
            lemma_highest(a, other);
        }
        assert(b.last().index == top);
        lemma_content_at(b, b.len() - 1);
        lemma_content_drop_last(a, 0);
        lemma_content_drop_last(b, 0);
        assert forall|index: int|
            #![trigger content(a.drop_last(), index)]
            content(a.drop_last(), index) == content(b.drop_last(), index) && has_bucket(
                a.drop_last(),
                index,
            ) == has_bucket(b.drop_last(), index) by {
            assert(content(a, index) == content(b, index));
            lemma_content_drop_last(a, index);
            lemma_content_drop_last(b, index);
            lemma_has_drop_last(a, index);
            lemma_has_drop_last(b, index);
        }
        lemma_same_contents(a.drop_last(), b.drop_last());
        assert(a =~= a.drop_last().push(a.last()));
        assert(b =~= b.drop_last().push(b.last()));
    } else if b.len() > 0 {
        lemma_content_at(b, b.len() - 1);
        assert(content(a, b.last().index as int) == content(b, b.last().index as int));
    }
}

/// An index that a list has is no higher than its last.
proof fn lemma_highest(buckets: Seq<Bucket>, index: int)
    requires
        ascending(buckets),
        has_bucket(buckets, index),
    ensures
        buckets.len() > 0,
        index <= buckets.last().index,
{
    crate::window::lemma_bucket_place(buckets, index);
    let place = bucket_place(buckets, index);
    if place < buckets.len() - 1 {
        assert(buckets[place].index < buckets[buckets.len() - 1].index);
    }
}

/// Dropping the last bucket takes away its index and no other.
proof fn lemma_has_drop_last(buckets: Seq<Bucket>, index: int)
    requires
        ascending(buckets),
        buckets.len() > 0,
    ensures
        has_bucket(buckets.drop_last(), index) == (has_bucket(buckets, index) && index
            != buckets.last().index),
{
    let shorter = buckets.drop_last();
    lemma_content_drop_last(buckets, index);
    if exists|i: int| 0 <= i < shorter.len() && (#[trigger] shorter[i]).index == index {
        let i = choose|i: int| 0 <= i < shorter.len() && (#[trigger] shorter[i]).index == index;
        lemma_content_at(shorter, i);
        lemma_content_at(buckets, i);
        assert(buckets[i].index < buckets[buckets.len() - 1].index);
    } else {
        lemma_content_none(shorter, index);
        if has_bucket(buckets, index) {
            crate::window::lemma_bucket_place(buckets, index);
            let place = bucket_place(buckets, index);
            if place < shorter.len() {
                assert(shorter[place] == buckets[place]);
            }
        }
    }
}

} // verus!
