//! Laws of reservations: a committed one counts as the actual usage, and a refunded one
//! as nothing.

use super::windows::{can_reconcile, difference};
use crate::admission::{ask_key, ask_window, recorded, recorded_entries, reconciled, Ask};
use crate::fixed::{sat, UNIT};
use crate::rules::LimitRule;
use crate::store::StoreModel;
use crate::window::{Handle, Usage, WindowModel};
use vstd::prelude::*;

verus! {

/// Whether what the given rules record of a call can be reconciled to another usage
/// without loss.
pub open spec fn can_reconcile_all(
    rules: Seq<LimitRule>,
    places: Seq<usize>,
    store: StoreModel,
    ask: Ask,
    actual: Usage,
) -> bool {
    forall|p: int|
        0 <= p < places.len() && rules[(#[trigger] places[p]) as int].caps_usage()
            ==> can_reconcile(
            ask_window(rules, places[p], store, ask),
            ask.now,
            ask.used(),
            actual,
        )
}

/// The store after the first `n` of the given rules recorded some usage at the time of a
/// call.
pub open spec fn recorded_as(
    rules: Seq<LimitRule>,
    places: Seq<usize>,
    store: StoreModel,
    ask: Ask,
    used: Usage,
    n: int,
) -> StoreModel
    decreases n,
{
    if n <= 0 {
        store
    } else {
        let before = recorded_as(rules, places, store, ask, used, n - 1);
        let place = places[n - 1];
        if rules[place as int].caps_usage() {
            before.added(
                ask_key(rules, place, ask),
                ask.now,
                rules[place as int].window_seconds,
                rules[place as int].width() as i64,
                used,
            )
        } else {
            before
        }
    }
}

/// Recording a call is recording what it uses.
proof fn lemma_recorded_as(
    rules: Seq<LimitRule>,
    places: Seq<usize>,
    store: StoreModel,
    ask: Ask,
    n: int,
)
    ensures
        recorded(rules, places, store, ask, n) == recorded_as(
            rules,
            places,
            store,
            ask,
            ask.used(),
            n,
        ),
    decreases n,
{
    if n > 0 {
        lemma_recorded_as(rules, places, store, ask, n - 1);
    }
}

/// Recording goes by the time and the scope of a call and by what is recorded; it does
/// not matter what else the call says.
proof fn lemma_recorded_as_same(
    rules: Seq<LimitRule>,
    places: Seq<usize>,
    store: StoreModel,
    ask: Ask,
    other: Ask,
    used: Usage,
    n: int,
)
    requires
        ask.now == other.now,
        ask.tenant == other.tenant,
        ask.user == other.user,
    ensures
        recorded_as(rules, places, store, ask, used, n) == recorded_as(
            rules,
            places,
            store,
            other,
            used,
            n,
        ),
    decreases n,
{
    if n > 0 {
        lemma_recorded_as_same(rules, places, store, ask, other, used, n - 1);
    }
}

/// Recording leaves the window of a key alone that none of the rules records under.
proof fn lemma_untouched(
    rules: Seq<LimitRule>,
    places: Seq<usize>,
    store: StoreModel,
    ask: Ask,
    used: Usage,
    n: int,
    key: Seq<char>,
    window: i64,
    bucket: i64,
)
    requires
        forall|p: int| 0 <= p < n ==> ask_key(rules, #[trigger] places[p], ask) != key,
    ensures
        recorded_as(rules, places, store, ask, used, n).window_for(key, window, bucket)
            == store.window_for(key, window, bucket),
    decreases n,
{
    if n > 0 {
        assert(ask_key(rules, places[n - 1], ask) != key);
        lemma_untouched(rules, places, store, ask, used, n - 1, key, window, bucket);
    }
}

/// The entries that the first rules made are under their keys.
pub proof fn lemma_entry_keys(
    rules: Seq<LimitRule>,
    places: Seq<usize>,
    store: StoreModel,
    ask: Ask,
    n: int,
    key: Seq<char>,
)
    requires
        forall|p: int| 0 <= p < n ==> ask_key(rules, #[trigger] places[p], ask) != key,
    ensures
        forall|i: int|
            0 <= i < recorded_entries(rules, places, store, ask, n).len() ==> (
            #[trigger] recorded_entries(rules, places, store, ask, n)[i]).0 != key,
    decreases n,
{
    if n > 0 {
        lemma_entry_keys(rules, places, store, ask, n - 1, key);
        assert(ask_key(rules, places[n - 1], ask) != key);
        let fewer = recorded_entries(rules, places, store, ask, n - 1);
        let entries = recorded_entries(rules, places, store, ask, n);
        assert forall|i: int| 0 <= i < entries.len() implies (#[trigger] entries[i]).0 != key by {
            if i < fewer.len() {
                assert(entries[i] == fewer[i]);
            }
        }
    }
}

/// Changing entries under other keys and recording under a key can be done in either
/// order.
proof fn lemma_commute(
    store: StoreModel,
    entries: Seq<(Seq<char>, Handle)>,
    delta: Usage,
    m: int,
    key: Seq<char>,
    now: i64,
    window: i64,
    bucket: i64,
    used: Usage,
)
    requires
        0 <= m <= entries.len(),
        forall|i: int| 0 <= i < m ==> (#[trigger] entries[i]).0 != key,
    ensures
        reconciled(store.added(key, now, window, bucket, used), entries, delta, m)
            == reconciled(store, entries, delta, m).added(key, now, window, bucket, used),
    decreases m,
{
    if m > 0 {
        lemma_commute(store, entries, delta, m - 1, key, now, window, bucket, used);
        let before = reconciled(store, entries, delta, m - 1);
        let entry = entries[m - 1];
        assert(before.added(key, now, window, bucket, used).adjusted(entry.0, entry.1, delta)
            =~= before.adjusted(entry.0, entry.1, delta).added(key, now, window, bucket, used));
    }
}

/// Changing some entries goes by those entries only.
proof fn lemma_reconciled_prefix(
    store: StoreModel,
    entries: Seq<(Seq<char>, Handle)>,
    more: (Seq<char>, Handle),
    delta: Usage,
    m: int,
)
    requires
        0 <= m <= entries.len(),
    ensures
        reconciled(store, entries.push(more), delta, m) == reconciled(store, entries, delta, m),
    decreases m,
{
    if m > 0 {
        lemma_reconciled_prefix(store, entries, more, delta, m - 1);
    }
}

/// Reconciling every entry that was made for a call to some usage is the same as having
/// recorded that usage.
proof fn lemma_reconciled_as(
    rules: Seq<LimitRule>,
    places: Seq<usize>,
    store: StoreModel,
    ask: Ask,
    actual: Usage,
    n: int,
)
    requires
        store.wf(),
        places.no_duplicates(),
        0 <= n <= places.len(),
        can_reconcile_all(rules, places, store, ask, actual),
    ensures
        reconciled(
            recorded(rules, places, store, ask, n),
            recorded_entries(rules, places, store, ask, n),
            difference(actual, ask.used()),
            recorded_entries(rules, places, store, ask, n).len() as int,
        ) == recorded_as(rules, places, store, ask, actual, n),
    decreases n,
{
    if n > 0 {
        lemma_reconciled_as(rules, places, store, ask, actual, n - 1);
        let before = recorded(rules, places, store, ask, n - 1);
        let entries = recorded_entries(rules, places, store, ask, n - 1);
        let m = entries.len() as int;
        let place = places[n - 1];
        let rule = rules[place as int];
        let delta = difference(actual, ask.used());
        if rule.caps_usage() {
            let key = ask_key(rules, place, ask);
            let (window, bucket) = (rule.window_seconds, rule.width() as i64);
            let then = recorded_as(rules, places, store, ask, actual, n - 1);
            let held = store.window_for(key, window, bucket);
            assert forall|p: int| 0 <= p < n - 1 implies ask_key(
                rules,
                #[trigger] places[p],
                ask,
            ) != key by {
                super::admissions::lemma_other_key(rules, places[p], place, ask);
            }
            lemma_recorded_as(rules, places, store, ask, n - 1);
            lemma_untouched(
                rules,
                places,
                store,
                ask,
                ask.used(),
                n - 1,
                key,
                window,
                bucket,
            );
            lemma_untouched(rules, places, store, ask, actual, n - 1, key, window, bucket);
            lemma_entry_keys(rules, places, store, ask, n - 1, key);
            let handle = held.handle(ask.now);
            lemma_commute(
                before,
                entries,
                delta,
                m,
                key,
                ask.now,
                window,
                bucket,
                ask.used(),
            );
            lemma_reconciled_prefix(
                before.added(key, ask.now, window, bucket, ask.used()),
                entries,
                (key, handle),
                delta,
                m,
            );
            assert(held == ask_window(rules, places[n - 1], store, ask));
            super::windows::reconciling_records_the_actual_usage(
                held,
                ask.now,
                ask.used(),
                actual,
            );
            assert(then.added(key, ask.now, window, bucket, ask.used()).adjusted(
                key,
                handle,
                delta,
            ) =~= then.added(key, ask.now, window, bucket, actual));
        }
    }
}

/// A call that is reserved on an estimate and then committed to its actual figures counts
/// exactly as if it had been recorded with the actual figures in the first place.
pub proof fn committing_counts_the_actual_usage(
    rules: Seq<LimitRule>,
    places: Seq<usize>,
    store: StoreModel,
    ask: Ask,
    tokens: i128,
    cost: i128,
)
    requires
        store.wf(),
        places.no_duplicates(),
        can_reconcile_all(rules, places, store, ask, (Ask { tokens, cost, ..ask }).used()),
    ensures
        reconciled(
            recorded(rules, places, store, ask, places.len() as int),
            recorded_entries(rules, places, store, ask, places.len() as int),
            Usage {
                tokens: sat(tokens - ask.tokens) as i128,
                requests: 0,
                cost: sat(cost - ask.cost) as i128,
            },
            recorded_entries(rules, places, store, ask, places.len() as int).len() as int,
        ) == recorded(rules, places, store, Ask { tokens, cost, ..ask }, places.len() as int),
{
    let actual = Ask { tokens, cost, ..ask };
    let n = places.len() as int;
    lemma_reconciled_as(rules, places, store, ask, actual.used(), n);
    lemma_recorded_as_same(rules, places, store, ask, actual, actual.used(), n);
    lemma_recorded_as(rules, places, store, actual, n);
}

/// Recording no usage leaves every total, at that time and later.
proof fn lemma_recorded_nothing(
    rules: Seq<LimitRule>,
    places: Seq<usize>,
    store: StoreModel,
    ask: Ask,
    n: int,
    key: Seq<char>,
    window: i64,
    bucket: i64,
    later: i64,
)
    requires
        store.wf(),
        ask.now <= later,
    ensures
        recorded_as(rules, places, store, ask, Usage::none(), n).wf(),
        recorded_as(rules, places, store, ask, Usage::none(), n).window_for(
            key,
            window,
            bucket,
        ).totals(later) == store.window_for(key, window, bucket).totals(later),
    decreases n,
{
    if n > 0 {
        lemma_recorded_nothing(
            rules,
            places,
            store,
            ask,
            n - 1,
            key,
            window,
            bucket,
            later,
        );
        let before = recorded_as(rules, places, store, ask, Usage::none(), n - 1);
        let place = places[n - 1];
        let rule = rules[place as int];
        if rule.caps_usage() {
            let at = ask_key(rules, place, ask);
            let held = before.window_for(at, rule.window_seconds, rule.width() as i64);
            assert(WindowModel::fresh(rule.window_seconds, rule.width() as i64).wf());
            super::windows::recording_keeps_windows_well_formed(held, ask.now, Usage::none());
            super::windows::recording_nothing_changes_no_total(held, ask.now, later);
            let after = recorded_as(rules, places, store, ask, Usage::none(), n);
            assert forall|other: Seq<char>| #[trigger] after.windows.contains_key(
                other,
            ) implies after.windows[other].wf() by {
                if other != at {
                    assert(before.windows.contains_key(other));
                }
            }
            if at == key && !before.windows.contains_key(key) {
                assert(held.totals(later) == Usage::none());
                assert(before.window_for(key, window, bucket).totals(later) == Usage::none());
            }
        }
    }
}

/// A call that is reserved and then refunded leaves every total, at the time of the call
/// and later, as it was before the reservation.
pub proof fn refunding_leaves_every_total(
    rules: Seq<LimitRule>,
    places: Seq<usize>,
    store: StoreModel,
    ask: Ask,
    key: Seq<char>,
    window: i64,
    bucket: i64,
    later: i64,
)
    requires
        store.wf(),
        places.no_duplicates(),
        can_reconcile_all(rules, places, store, ask, Usage::none()),
        ask.now <= later,
    ensures
        reconciled(
            recorded(rules, places, store, ask, places.len() as int),
            recorded_entries(rules, places, store, ask, places.len() as int),
            Usage {
                tokens: sat(-ask.tokens) as i128,
                requests: (-UNIT) as i128,
                cost: sat(-ask.cost) as i128,
            },
            recorded_entries(rules, places, store, ask, places.len() as int).len() as int,
        ).window_for(key, window, bucket).totals(later) == store.window_for(
            key,
            window,
            bucket,
        ).totals(later),
{
    let n = places.len() as int;
    lemma_reconciled_as(rules, places, store, ask, Usage::none(), n);
    assert(difference(Usage::none(), ask.used()) == (Usage {
        tokens: sat(-ask.tokens) as i128,
        requests: (-UNIT) as i128,
        cost: sat(-ask.cost) as i128,
    }));
    lemma_recorded_nothing(rules, places, store, ask, n, key, window, bucket, later);
}

} // verus!
