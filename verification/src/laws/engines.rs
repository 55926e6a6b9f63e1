//! What the two window engines promise, each on its own.

use crate::window::{BucketWindow, Event, Handle, PreciseWindow, Usage, WindowModel};
use vstd::prelude::*;

verus! {

/// A window of buckets as a mathematical value.
pub open spec fn bucketed(w: BucketWindow) -> WindowModel {
    WindowModel::Buckets { window: w.window(), width: w.width(), buckets: w.buckets() }
}

/// An exact log as a mathematical value.
pub open spec fn logged(w: PreciseWindow) -> WindowModel {
    WindowModel::Log { window: w.window(), events: w.events(), next_id: w.next_id() }
}

/// A new window of buckets is empty and has the widths that it was given, that of a bucket
/// at least the resolution of the clock; a new log is empty and has the width that it was
/// given.
pub proof fn a_new_window_is_empty(
    window: i64,
    bucket: i64,
    buckets: BucketWindow,
    log: PreciseWindow,
)
    requires
        call_ensures(BucketWindow::new, (window, bucket), buckets),
        call_ensures(PreciseWindow::new, (window,), log),
    ensures
        buckets.window() == window,
        buckets.width() == if bucket < 1 {
            1
        } else {
            bucket
        },
        buckets.buckets().len() == 0,
        log.window() == window,
        log.events() == Seq::<Event>::empty(),
        log.next_id() == 0,
{
}

/// A window of buckets counts, records, adjusts and waits as buckets do.
pub proof fn a_bucket_window_is_one_of_buckets(
    read: &BucketWindow,
    now: i64,
    total: Usage,
    over: i128,
    dim: usize,
    wait: i128,
    count: usize,
    written: &mut BucketWindow,
    used: Usage,
    handle: Handle,
    changed: &mut BucketWindow,
    entry: &Handle,
    delta: Usage,
)
    requires
        call_ensures(BucketWindow::snapshot, (read, now), total),
        call_ensures(BucketWindow::time_to_free, (read, now, over, dim), wait),
        call_ensures(BucketWindow::bucket_count, (read,), count),
        call_ensures(BucketWindow::add, (written, now, used), handle),
        call_ensures(BucketWindow::adjust, (changed, entry, delta), ()),
    ensures
        total == bucketed(*read).totals(now),
        wait == bucketed(*read).wait(now, over as int, dim),
        count == read.buckets().len(),
        bucketed(*final(written)) == bucketed(*old(written)).added(now, used),
        handle == bucketed(*old(written)).handle(now),
        bucketed(*final(changed)) == bucketed(*old(changed)).adjusted(*entry, delta),
{
}

/// An exact log counts, records, adjusts and waits as a log does.
pub proof fn a_precise_window_is_a_log(
    read: &PreciseWindow,
    now: i64,
    total: Usage,
    over: i128,
    dim: usize,
    wait: i128,
    written: &mut PreciseWindow,
    used: Usage,
    handle: Handle,
    changed: &mut PreciseWindow,
    entry: &Handle,
    delta: Usage,
)
    requires
        call_ensures(PreciseWindow::snapshot, (read, now), total),
        call_ensures(PreciseWindow::time_to_free, (read, now, over, dim), wait),
        call_ensures(PreciseWindow::add, (written, now, used), handle),
        call_ensures(PreciseWindow::adjust, (changed, entry, delta), ()),
    ensures
        total == logged(*read).totals(now),
        wait == logged(*read).wait(now, over as int, dim),
        logged(*final(written)) == logged(*old(written)).added(now, used),
        handle == logged(*old(written)).handle(now),
        logged(*final(changed)) == logged(*old(changed)).adjusted(*entry, delta),
{
}

} // verus!
