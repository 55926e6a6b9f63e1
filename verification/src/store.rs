//! The storage seam: per-key sliding windows and in-flight counters, behind a `Store`
//! trait that can be implemented over a shared database for a fleet.

use crate::table::Table;
use crate::window::{usage_of, Handle, Usage, Window, WindowModel};
use vstd::prelude::*;

verus! {

/// A store as a mathematical value: one window per key that was used so far, and an
/// in-flight count for every key.
#[verifier::ext_equal]
pub struct StoreModel {
    pub windows: Map<Seq<char>, WindowModel>,
    pub in_flight: Map<Seq<char>, int>,
}

impl StoreModel {
    /// A store that nothing was recorded in.
    pub open spec fn empty() -> StoreModel {
        StoreModel { windows: Map::empty(), in_flight: Map::total(|key: Seq<char>| 0int) }
    }

    pub open spec fn wf(self) -> bool {
        &&& forall|key: Seq<char>| #[trigger]
            self.windows.contains_key(key) ==> self.windows[key].wf()
        &&& forall|key: Seq<char>| #[trigger] self.in_flight.contains_key(key)
        &&& forall|key: Seq<char>| 0 <= #[trigger] self.in_flight[key] <= i64::MAX
    }

    /// The window of a key: the one it has, or a new one. A window keeps the widths that
    /// it was made with.
    pub open spec fn window_for(self, key: Seq<char>, window: i64, bucket: i64) -> WindowModel {
        if self.windows.contains_key(key) {
            self.windows[key]
        } else {
            WindowModel::fresh(window, bucket)
        }
    }

    /// The store with a key's window replaced.
    pub open spec fn with_window(self, key: Seq<char>, window: WindowModel) -> StoreModel {
        StoreModel { windows: self.windows.insert(key, window), in_flight: self.in_flight }
    }

    /// The store after a key's window was looked up, and made if it was not there.
    pub open spec fn touched(self, key: Seq<char>, window: i64, bucket: i64) -> StoreModel {
        self.with_window(key, self.window_for(key, window, bucket))
    }

    /// The store after usage was recorded under a key.
    pub open spec fn added(
        self,
        key: Seq<char>,
        now: i64,
        window: i64,
        bucket: i64,
        used: Usage,
    ) -> StoreModel {
        self.with_window(key, self.window_for(key, window, bucket).added(now, used))
    }

    /// The store after an entry recorded under a key was changed by `delta`.
    pub open spec fn adjusted(self, key: Seq<char>, handle: Handle, delta: Usage) -> StoreModel {
        if self.windows.contains_key(key) {
            self.with_window(key, self.windows[key].adjusted(handle, delta))
        } else {
            self
        }
    }

    /// The store with a key's in-flight count replaced.
    pub open spec fn with_in_flight(self, key: Seq<char>, count: int) -> StoreModel {
        StoreModel { windows: self.windows, in_flight: self.in_flight.insert(key, count) }
    }

    /// The store after an attempt to take a slot under a key.
    pub open spec fn slot_taken(self, key: Seq<char>, limit: i64) -> StoreModel {
        if self.in_flight[key] < limit {
            self.with_in_flight(key, self.in_flight[key] + 1)
        } else {
            self
        }
    }

    /// The store after a slot was given back under a key.
    pub open spec fn slot_returned(self, key: Seq<char>) -> StoreModel {
        if self.in_flight[key] > 0 {
            self.with_in_flight(key, self.in_flight[key] - 1)
        } else {
            self
        }
    }
}

/// Looking a window up once more changes nothing.
pub proof fn lemma_touched_again(store: StoreModel, key: Seq<char>, window: i64, bucket: i64)
    ensures
        store.touched(key, window, bucket).touched(key, window, bucket) == store.touched(
            key,
            window,
            bucket,
        ),
        store.touched(key, window, bucket).window_for(key, window, bucket) == store.window_for(
            key,
            window,
            bucket,
        ),
{
    let once = store.touched(key, window, bucket);
    assert(once.touched(key, window, bucket) =~= once);
}

/// The number of buckets that the windows of the given keys hold.
pub open spec fn buckets_held(
    windows: Map<Seq<char>, WindowModel>,
    keys: Seq<Seq<char>>,
) -> nat
    decreases keys.len(),
{
    if keys.len() == 0 {
        0
    } else {
        buckets_held(windows, keys.drop_last()) + windows[keys.last()].bucket_count()
    }
}

/// The persistence seam. Implement it over a shared database (an atomic increment plus
/// a time to live per bucket) for distributed enforcement across replicas.
///
/// An implementation says in `obeys_model` whether it behaves as `StoreModel` lays down;
/// only then is anything promised of what its methods return and change. One that other
/// processes write to does not.
pub trait Store: Sized + Send {
    /// Whether the store behaves as its model.
    open spec fn obeys_model() -> bool {
        false
    }

    /// What the store holds.
    open spec fn model(&self) -> StoreModel {
        StoreModel::empty()
    }

    open spec fn wf(&self) -> bool {
        true
    }

    /// Whether a window accepts dimensions beyond the three constants, for the cost.
    open spec fn takes_any_dimension(&self, key: Seq<char>, bucket: i64) -> bool {
        false
    }

    /// Returns the current `(tokens, requests, cost)` totals for a key.
    fn snapshot(&mut self, key: &str, now: i64, window: i64, bucket: i64) -> (totals: (
        i128,
        i128,
        i128,
    ))
        requires
            old(self).wf(),
        ensures
            final(self).wf(),
            Self::obeys_model() ==> {
                &&& final(self).model().wf()
                &&& final(self).model() == old(self).model().touched(key@, window, bucket)
                &&& totals == old(self).model().window_for(key@, window, bucket).totals(
                    now,
                ).triple()
            },
    ;

    /// Records usage `[tokens, requests, cost]` and returns a handle for later
    /// adjustment.
    fn add(
        &mut self,
        key: &str,
        now: i64,
        window: i64,
        bucket: i64,
        amounts: [i128; 3],
    ) -> (handle: Handle)
        requires
            old(self).wf(),
        ensures
            final(self).wf(),
            Self::obeys_model() ==> {
                &&& final(self).model().wf()
                &&& final(self).model() == old(self).model().added(
                    key@,
                    now,
                    window,
                    bucket,
                    usage_of(amounts),
                )
                &&& handle == old(self).model().window_for(key@, window, bucket).handle(now)
            },
    ;

    /// Reconciles a previously recorded entry by `[tokens, requests, cost]` deltas.
    fn adjust(&mut self, key: &str, handle: &Handle, deltas: [i128; 3])
        requires
            old(self).wf(),
        ensures
            final(self).wf(),
            Self::obeys_model() ==> {
                &&& final(self).model().wf()
                &&& final(self).model() == old(self).model().adjusted(
                    key@,
                    *handle,
                    usage_of(deltas),
                )
            },
    ;

    /// Returns how long until `over` units of a dimension age out.
    fn time_to_free(
        &mut self,
        key: &str,
        now: i64,
        window: i64,
        bucket: i64,
        over: i128,
        dim: usize,
    ) -> (wait: i128)
        requires
            old(self).wf(),
            dim < 3 || old(self).takes_any_dimension(key@, bucket),
        ensures
            final(self).wf(),
            Self::obeys_model() ==> {
                &&& final(self).model().wf()
                &&& final(self).model() == old(self).model().touched(key@, window, bucket)
                &&& wait == old(self).model().window_for(key@, window, bucket).wait(
                    now,
                    over as int,
                    dim,
                )
            },
    ;

    /// Returns the current in-flight count for a key.
    fn concurrency(&self, key: &str) -> (count: i64)
        requires
            self.wf(),
        ensures
            Self::obeys_model() ==> count == self.model().in_flight[key@],
    ;

    /// Increments the in-flight count if it is below the limit.
    fn try_add_concurrency(&mut self, key: &str, limit: i64) -> (taken: bool)
        requires
            old(self).wf(),
        ensures
            final(self).wf(),
            Self::obeys_model() ==> {
                &&& final(self).model().wf()
                &&& final(self).model() == old(self).model().slot_taken(key@, limit)
                &&& taken == (old(self).model().in_flight[key@] < limit)
            },
    ;

    /// Decrements the in-flight count, never below zero.
    fn release_concurrency(&mut self, key: &str)
        requires
            old(self).wf(),
        ensures
            final(self).wf(),
            Self::obeys_model() ==> {
                &&& final(self).model().wf()
                &&& final(self).model() == old(self).model().slot_returned(key@)
            },
    ;

    /// Total live buckets across every bucketed window (introspection/monitoring).
    fn total_buckets(&self) -> (count: usize)
        requires
            self.wf(),
        default_ensures
            count == 0,
    {
        0
    }
}

/// The single-process default. One window and one counter per key. Not safe for
/// concurrent use; shard per worker or plug in a shared store for a multi-threaded
/// server.
pub struct InMemoryStore {
    windows: Table<Window>,
    concurrency: Table<i64>,
}

impl InMemoryStore {
    /// Returns an empty in-memory store.
    pub fn new() -> (store: InMemoryStore)
        ensures
            store.wf(),
            store.model() == StoreModel::empty(),
    {
        let store = InMemoryStore { windows: Table::new(), concurrency: Table::new() };
        assert(store.model() =~= StoreModel::empty());
        store
    }

    /// Where the window of a key stands, after making it if it is not there.
    fn window_for(&mut self, key: &str, window: i64, bucket: i64) -> (at: usize)
        requires
            old(self).wf(),
        ensures
            final(self).wf(),
            final(self).model() == old(self).model().touched(key@, window, bucket),
            at < final(self).windows.order().len(),
            final(self).windows.order()[at as int] == key@,
            final(self).windows@.contains_key(key@),
    {
        match self.windows.find(key) {
            Some(at) => {
                assert(self.model() =~= self.model().touched(key@, window, bucket));
                at
            },
            None => {
                let at: usize = self.windows.len();
                self.windows.append(key.to_owned(), Window::new(window, bucket));
                assert(self.model() =~= old(self).model().touched(key@, window, bucket));
                at
            },
        }
    }

    /// Where the counter of a key stands, after making it if it is not there.
    fn counter_for(&mut self, key: &str) -> (at: usize)
        requires
            old(self).wf(),
        ensures
            final(self).wf(),
            final(self).model() == old(self).model(),
            at < final(self).concurrency.order().len(),
            final(self).concurrency.order()[at as int] == key@,
            final(self).concurrency@.contains_key(key@),
    {
        match self.concurrency.find(key) {
            Some(at) => at,
            None => {
                let at: usize = self.concurrency.len();
                self.concurrency.append(key.to_owned(), 0);
                assert(self.model() =~= old(self).model());
                at
            },
        }
    }
}

impl Default for InMemoryStore {
    fn default() -> (store: InMemoryStore)
        ensures
            store.wf(),
            store.model() == StoreModel::empty(),
    {
        InMemoryStore::new()
    }
}

impl Store for InMemoryStore {
    open spec fn obeys_model() -> bool {
        true
    }

    closed spec fn model(&self) -> StoreModel {
        StoreModel {
            windows: self.windows@.map_values(|w: Window| w@),
            in_flight: Map::total(
                |key: Seq<char>|
                    if self.concurrency@.contains_key(key) {
                        self.concurrency@[key] as int
                    } else {
                        0
                    },
            ),
        }
    }

    closed spec fn wf(&self) -> bool {
        &&& self.windows.wf()
        &&& self.concurrency.wf()
        &&& self.model().wf()
    }

    open spec fn takes_any_dimension(&self, key: Seq<char>, bucket: i64) -> bool {
        self.model().window_for(key, 0, bucket) is Log
    }

    fn snapshot(&mut self, key: &str, now: i64, window: i64, bucket: i64) -> (totals: (
        i128,
        i128,
        i128,
    )) {
        let at: usize = self.window_for(key, window, bucket);
        assert(self.model().windows.contains_key(key@));
        let total: Usage = self.windows.value(at).snapshot(now);
        (total.tokens, total.requests, total.cost)
    }

    fn add(
        &mut self,
        key: &str,
        now: i64,
        window: i64,
        bucket: i64,
        amounts: [i128; 3],
    ) -> (handle: Handle) {
        let at: usize = self.window_for(key, window, bucket);
        let ghost touched = *self;
        assert(self.model().windows.contains_key(key@));
        let handle: Handle = self.windows.value_mut(at).add(now, amounts);
        assert(self.model() =~= old(self).model().added(
            key@,
            now,
            window,
            bucket,
            usage_of(amounts),
        ));
        handle
    }

    fn adjust(&mut self, key: &str, handle: &Handle, deltas: [i128; 3]) {
        if let Some(at) = self.windows.find(key) {
            assert(self.model().windows.contains_key(key@));
            self.windows.value_mut(at).adjust(handle, deltas);
            assert(self.model() =~= old(self).model().adjusted(key@, *handle, usage_of(deltas)));
        }
    }

    fn time_to_free(
        &mut self,
        key: &str,
        now: i64,
        window: i64,
        bucket: i64,
        over: i128,
        dim: usize,
    ) -> (wait: i128) {
        let at: usize = self.window_for(key, window, bucket);
        assert(self.model().windows.contains_key(key@));
        self.windows.value(at).time_to_free(now, over, dim)
    }

    fn concurrency(&self, key: &str) -> (count: i64) {
        match self.concurrency.get(key) {
            Some(count) => *count,
            None => 0,
        }
    }

    fn try_add_concurrency(&mut self, key: &str, limit: i64) -> (taken: bool) {
        let at: usize = self.counter_for(key);
        let count: i64 = *self.concurrency.value(at);
        assert(count == self.model().in_flight[key@]);
        if count >= limit {
            return false;
        }
        *self.concurrency.value_mut(at) = count + 1;
        assert(self.model() =~= old(self).model().slot_taken(key@, limit));
        true
    }

    fn release_concurrency(&mut self, key: &str) {
        if let Some(at) = self.concurrency.find(key) {
            let count: i64 = *self.concurrency.value(at);
            assert(count == self.model().in_flight[key@]);
            if count > 0 {
                *self.concurrency.value_mut(at) = count - 1;
                assert(self.model() =~= old(self).model().slot_returned(key@));
            }
        }
    }

    fn total_buckets(&self) -> (count: usize)
        ensures
            exists|keys: Seq<Seq<char>>|
                {
                    &&& keys.no_duplicates()
                    &&& forall|key: Seq<char>|
                        keys.contains(key) <==> self.model().windows.contains_key(key)
                    &&& count == if buckets_held(self.model().windows, keys) > usize::MAX {
                        usize::MAX as nat
                    } else {
                        #[trigger] buckets_held(self.model().windows, keys)
                    }
                },
    {
        let ghost keys = self.windows.order();
        let ghost windows = self.model().windows;
        let mut count: usize = 0;
        let mut i: usize = 0;
        assert(keys.take(0) =~= Seq::<Seq<char>>::empty());
        while i < self.windows.len()
            invariant
                self.wf(),
                0 <= i <= keys.len(),
                keys == self.windows.order(),
                windows == self.model().windows,
                count == if buckets_held(windows, keys.take(i as int)) > usize::MAX {
                    usize::MAX as nat
                } else {
                    buckets_held(windows, keys.take(i as int))
                },
            decreases keys.len() - i,
        {
            proof {
                assert(keys.take(i + 1).drop_last() =~= keys.take(i as int));
                assert(keys.take(i + 1).last() == keys[i as int]);
                self.windows.lemma_order();
                assert(keys.contains(keys[i as int]));
            }
            if let Some(held) = self.windows.value(i).bucket_count() {
                count = count.saturating_add(held);
            }
            i += 1;
        }
        proof {
            assert(keys.take(i as int) =~= keys);
            self.windows.lemma_order();
        }
        count
    }
}

} // verus!
