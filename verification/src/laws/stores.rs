//! What the calls of a store promise, and what a limiter starts from.

use crate::clock::{Clock, WallClock};
use crate::limiter::Limiter;
use crate::listing::Listing;
use crate::rules::LimitRule;
use crate::store::{InMemoryStore, Store, StoreModel};
use crate::window::{Handle, Usage, WindowModel};
use vstd::prelude::*;

verus! {

/// Whether a store differs from another, if at all, in the window of one key, which is now
/// the given one.
pub open spec fn window_set(
    store: StoreModel,
    after: StoreModel,
    key: Seq<char>,
    window: WindowModel,
) -> bool {
    &&& after.in_flight == store.in_flight
    &&& after.windows.contains_key(key)
    &&& after.windows[key] == window
    &&& forall|other: Seq<char>|
        other != key ==> (#[trigger] after.windows.contains_key(other)
            <==> store.windows.contains_key(other))
    &&& forall|other: Seq<char>|
        other != key && store.windows.contains_key(other) ==> #[trigger] after.windows[other]
            == store.windows[other]
}

/// The window of a key: the one that the store has, or an empty one of the given widths.
pub open spec fn window_of(
    store: StoreModel,
    key: Seq<char>,
    window: i64,
    bucket: i64,
) -> WindowModel {
    if store.windows.contains_key(key) {
        store.windows[key]
    } else if bucket <= 0 {
        WindowModel::Log { window, events: Seq::empty(), next_id: 0 }
    } else {
        WindowModel::Buckets { window, width: bucket, buckets: Seq::empty() }
    }
}

/// Whether a store differs from another, if at all, in the count of one key, which is now
/// the given one.
pub open spec fn count_set(
    store: StoreModel,
    after: StoreModel,
    key: Seq<char>,
    count: int,
) -> bool {
    &&& after.windows == store.windows
    &&& after.in_flight[key] == count
    &&& forall|other: Seq<char>|
        other != key ==> #[trigger] after.in_flight[other] == store.in_flight[other]
}

/// The in-memory store behaves as its model.
pub proof fn the_in_memory_store_obeys()
    ensures
        InMemoryStore::obeys_model(),
{
}

/// A new in-memory store holds nothing.
pub proof fn a_new_store_is_empty(store: InMemoryStore)
    requires
        call_ensures(InMemoryStore::new, (), store),
    ensures
        store.wf(),
        store.model().windows == Map::<Seq<char>, WindowModel>::empty(),
        forall|key: Seq<char>| #[trigger] store.model().in_flight[key] == 0,
{
}

/// A snapshot tells the totals of the window of a key, and changes no window and no count.
pub proof fn a_snapshot_only_reads<S: Store>(
    s: &mut S,
    key: &str,
    now: i64,
    window: i64,
    bucket: i64,
    totals: (i128, i128, i128),
)
    requires
        S::obeys_model(),
        call_ensures(S::snapshot, (s, key, now, window, bucket), totals),
    ensures
        ({
            let held = window_of(old(s).model(), key@, window, bucket);
            &&& totals.0 == held.totals(now).tokens
            &&& totals.1 == held.totals(now).requests
            &&& totals.2 == held.totals(now).cost
            &&& window_set(old(s).model(), final(s).model(), key@, held)
        }),
{
}

/// Adding usage records it in the window of its key, and there only. The handle names the
/// bucket of that time, or the event that was made.
pub proof fn what_is_added_is_recorded<S: Store>(
    s: &mut S,
    key: &str,
    now: i64,
    window: i64,
    bucket: i64,
    amounts: [i128; 3],
    handle: Handle,
)
    requires
        S::obeys_model(),
        call_ensures(S::add, (s, key, now, window, bucket, amounts), handle),
    ensures
        ({
            let held = window_of(old(s).model(), key@, window, bucket);
            let used = Usage { tokens: amounts[0], requests: amounts[1], cost: amounts[2] };
            &&& window_set(old(s).model(), final(s).model(), key@, held.added(now, used))
            &&& handle == held.handle(now)
        }),
{
}

/// Adjusting an entry changes the window of its key, and that only; a key without a window
/// changes nothing.
pub proof fn what_is_adjusted_is_one_entry<S: Store>(
    s: &mut S,
    key: &str,
    handle: &Handle,
    deltas: [i128; 3],
)
    requires
        S::obeys_model(),
        call_ensures(S::adjust, (s, key, handle, deltas), ()),
    ensures
        ({
            let store = old(s).model();
            let delta = Usage { tokens: deltas[0], requests: deltas[1], cost: deltas[2] };
            if store.windows.contains_key(key@) {
                window_set(
                    store,
                    final(s).model(),
                    key@,
                    store.windows[key@].adjusted(*handle, delta),
                )
            } else {
                final(s).model() == store
            }
        }),
{
}

/// The time that usage takes to age out is that of the window of its key, and asking for it
/// changes no window and no count.
pub proof fn a_wait_only_reads<S: Store>(
    s: &mut S,
    key: &str,
    now: i64,
    window: i64,
    bucket: i64,
    over: i128,
    dim: usize,
    wait: i128,
)
    requires
        S::obeys_model(),
        call_ensures(S::time_to_free, (s, key, now, window, bucket, over, dim), wait),
    ensures
        ({
            let held = window_of(old(s).model(), key@, window, bucket);
            &&& wait == held.wait(now, over as int, dim)
            &&& window_set(old(s).model(), final(s).model(), key@, held)
        }),
{
}

/// The count of a key is what it is.
pub proof fn a_count_is_told<S: Store>(s: &S, key: &str, count: i64)
    requires
        S::obeys_model(),
        call_ensures(S::concurrency, (s, key), count),
    ensures
        count == s.model().in_flight[key@],
{
}

/// One more call in flight is counted if and only if there are fewer than the limit.
pub proof fn a_slot_is_taken_below_the_limit<S: Store>(
    s: &mut S,
    key: &str,
    limit: i64,
    taken: bool,
)
    requires
        S::obeys_model(),
        call_ensures(S::try_add_concurrency, (s, key, limit), taken),
    ensures
        taken <==> old(s).model().in_flight[key@] < limit,
        old(s).model().wf() ==> count_set(
            old(s).model(),
            final(s).model(),
            key@,
            old(s).model().in_flight[key@] + if taken {
                1int
            } else {
                0int
            },
        ),
{
}

/// One call in flight less is counted, if there is any.
pub proof fn a_slot_is_given_back<S: Store>(s: &mut S, key: &str)
    requires
        S::obeys_model(),
        call_ensures(S::release_concurrency, (s, key), ()),
    ensures
        old(s).model().wf() ==> count_set(
            old(s).model(),
            final(s).model(),
            key@,
            if old(s).model().in_flight[key@] > 0 {
                old(s).model().in_flight[key@] - 1
            } else {
                old(s).model().in_flight[key@]
            },
        ),
{
}

/// How many buckets the windows of some keys hold, logs none.
pub open spec fn buckets_of(
    windows: Map<Seq<char>, WindowModel>,
    keys: Seq<Seq<char>>,
) -> nat
    decreases keys.len(),
{
    if keys.len() == 0 {
        0
    } else {
        buckets_of(windows, keys.drop_last()) + match windows[keys.last()] {
            WindowModel::Buckets { buckets, .. } => buckets.len(),
            WindowModel::Log { .. } => 0,
        }
    }
}

proof fn lemma_buckets_of(windows: Map<Seq<char>, WindowModel>, keys: Seq<Seq<char>>)
    ensures
        buckets_of(windows, keys) == crate::store::buckets_held(windows, keys),
    decreases keys.len(),
{
    if keys.len() > 0 {
        lemma_buckets_of(windows, keys.drop_last());
    }
}

/// The total of buckets counts every window of the in-memory store once.
pub proof fn every_bucket_is_in_the_total(store: &InMemoryStore, count: usize)
    requires
        call_ensures(InMemoryStore::total_buckets, (store,), count),
    ensures
        exists|keys: Seq<Seq<char>>|
            {
                &&& keys.no_duplicates()
                &&& forall|key: Seq<char>|
                    keys.contains(key) <==> store.model().windows.contains_key(key)
                &&& #[trigger] buckets_of(store.model().windows, keys) <= usize::MAX ==> count
                    == buckets_of(store.model().windows, keys)
            },
{
    let keys = choose|keys: Seq<Seq<char>>|
        {
            &&& keys.no_duplicates()
            &&& forall|key: Seq<char>|
                keys.contains(key) <==> store.model().windows.contains_key(key)
            &&& count == if crate::store::buckets_held(store.model().windows, keys) > usize::MAX {
                usize::MAX as nat
            } else {
                #[trigger] crate::store::buckets_held(store.model().windows, keys)
            }
        };
    lemma_buckets_of(store.model().windows, keys);
    assert(buckets_of(store.model().windows, keys) <= usize::MAX ==> count == buckets_of(
        store.model().windows,
        keys,
    ));
}

/// A new limiter enforces the rules it is given, has no fallback and has counted nothing.
pub proof fn a_new_limiter_has_counted_nothing(
    rules: Vec<LimitRule>,
    l: Limiter<InMemoryStore, WallClock>,
)
    requires
        call_ensures(Limiter::<InMemoryStore, WallClock>::new, (rules,), l),
    ensures
        l.wf(),
        l.rule_list() == rules@,
        l.fallback_map() == Map::<Seq<char>, String>::empty(),
        l.backing().model().windows == Map::<Seq<char>, WindowModel>::empty(),
        forall|key: Seq<char>| #[trigger] l.backing().model().in_flight[key] == 0,
{
}

/// Setting the store, the clock or the fallbacks of a limiter sets that and nothing else.
pub proof fn a_setting_changes_nothing_else<S: Store, C: Clock, T: Store, D: Clock>(
    l: Limiter<S, C>,
    store: T,
    stored: Limiter<T, C>,
    clock: D,
    clocked: Limiter<S, D>,
    fallbacks: Listing<String>,
    backed: Limiter<S, C>,
)
    requires
        call_ensures(Limiter::<S, C>::with_store::<T>, (l, store), stored),
        call_ensures(Limiter::<S, C>::with_clock::<D>, (l, clock), clocked),
        call_ensures(Limiter::<S, C>::with_fallbacks, (l, fallbacks), backed),
    ensures
        stored.backing() == store,
        stored.rule_list() == l.rule_list(),
        stored.fallback_map() == l.fallback_map(),
        stored.time_source() == l.time_source(),
        clocked.time_source() == clock,
        clocked.rule_list() == l.rule_list(),
        clocked.fallback_map() == l.fallback_map(),
        clocked.backing() == l.backing(),
        backed.fallback_map() == fallbacks@,
        backed.rule_list() == l.rule_list(),
        backed.time_source() == l.time_source(),
        backed.backing() == l.backing(),
{
}

/// A limiter shows the rules that it enforces, and the store that it counts in.
pub proof fn a_limiter_shows_what_it_has<S: Store, C: Clock>(
    l: &Limiter<S, C>,
    rules: &[LimitRule],
    store: &S,
)
    requires
        call_ensures(Limiter::<S, C>::rules, (l,), rules),
        call_ensures(Limiter::<S, C>::store, (l,), store),
    ensures
        rules@ == l.rule_list(),
        *store == l.backing(),
{
}

/// The width of the buckets of a rule is the least, in billionths of a second, at which as
/// many buckets as the rule says, at least one, fill its window; it is zero for an exact
/// log.
pub proof fn as_many_buckets_as_told_fill_the_window(rule: LimitRule, width: i64)
    requires
        call_ensures(LimitRule::bucket_seconds, (&rule,), width),
    ensures
        rule.precise ==> width == 0,
        !rule.precise ==> {
            let n = if rule.buckets_per_window < 1 {
                1
            } else {
                rule.buckets_per_window as int
            };
            (width - 1) * n < rule.window_seconds <= width * n
        },
        width == rule.width(),
{
    super::memory::a_bucket_is_the_window_by_parts(rule);
}

} // verus!
