//! What a log of events sums to, and how recording, adjusting and dropping events
//! changes it.

use crate::window::{
    event_adjusted, event_found, event_freed, event_place, event_recorded, event_total,
    ids_distinct, in_time_order, live_events, Event, Usage,
};
use vstd::prelude::*;

verus! {

/// The size of a number.
pub open spec fn size(x: int) -> int {
    if x < 0 {
        -x
    } else {
        x
    }
}

/// The exact sum, in one dimension, of the events of a list that happened after `lo`.
pub open spec fn event_sum(events: Seq<Event>, lo: int, dim: usize) -> int
    decreases events.len(),
{
    if events.len() == 0 {
        0
    } else {
        event_sum(events.drop_last(), lo, dim) + if events.last().ts > lo {
            events.last().used.along(dim) as int
        } else {
            0int
        }
    }
}

/// The sizes, in one dimension, of all events of a list, added up.
pub open spec fn event_weight(events: Seq<Event>, dim: usize) -> int
    decreases events.len(),
{
    if events.len() == 0 {
        0
    } else {
        event_weight(events.drop_last(), dim) + size(events.last().used.along(dim) as int)
    }
}

/// A sum is no larger than the sizes it is made of.
pub proof fn lemma_sum_within_weight(events: Seq<Event>, lo: int, dim: usize)
    ensures
        0 <= event_weight(events, dim),
        -event_weight(events, dim) <= event_sum(events, lo, dim) <= event_weight(events, dim),
    decreases events.len(),
{
    if events.len() > 0 {
        lemma_sum_within_weight(events.drop_last(), lo, dim);
    }
}

/// Where the sizes fit into `i128`, no total saturates.
pub proof fn lemma_total_is_sum(events: Seq<Event>, lo: int, dim: usize)
    requires
        event_weight(events, dim) <= i128::MAX,
    ensures
        event_total(events, lo).along(dim) == event_sum(events, lo, dim),
    decreases events.len(),
{
    if events.len() > 0 {
        lemma_total_is_sum(events.drop_last(), lo, dim);
        lemma_sum_within_weight(events, lo, dim);
    }
}

/// Where the sizes fit into `i128`, nothing saturates in what the events give back.
pub proof fn lemma_freed_is_sum(events: Seq<Event>, lo: int, dim: usize)
    requires
        event_weight(events, dim) <= i128::MAX,
    ensures
        event_freed(events, lo, dim) == event_sum(events, lo, dim),
    decreases events.len(),
{
    if events.len() > 0 {
        lemma_freed_is_sum(events.drop_last(), lo, dim);
        lemma_sum_within_weight(events, lo, dim);
    }
}

/// Dropping events that happened no later than the opening of the window changes no sum.
pub proof fn lemma_sum_live(events: Seq<Event>, dropped: int, lo: int, dim: usize)
    requires
        dropped <= lo,
    ensures
        event_sum(live_events(events, dropped), lo, dim) == event_sum(events, lo, dim),
        event_weight(live_events(events, dropped), dim) <= event_weight(events, dim),
    decreases events.len(),
{
    reveal(Seq::filter);
    if events.len() > 0 {
        let pred = |e: Event| e.ts > dropped;
        let shorter = events.drop_last();
        lemma_sum_live(shorter, dropped, lo, dim);
        if pred(events.last()) {
            let kept = live_events(shorter, dropped);
            assert(live_events(events, dropped) =~= kept.push(events.last()));
            assert(kept.push(events.last()).drop_last() =~= kept);
        }
    }
}

/// Dropping events that happened no later than the opening of the window changes no
/// total.
pub proof fn lemma_total_live(events: Seq<Event>, dropped: int, lo: int)
    requires
        dropped <= lo,
    ensures
        event_total(live_events(events, dropped), lo) == event_total(events, lo),
    decreases events.len(),
{
    reveal(Seq::filter);
    if events.len() > 0 {
        let pred = |e: Event| e.ts > dropped;
        let shorter = events.drop_last();
        lemma_total_live(shorter, dropped, lo);
        if pred(events.last()) {
            let kept = live_events(shorter, dropped);
            assert(live_events(events, dropped) =~= kept.push(events.last()));
            assert(kept.push(events.last()).drop_last() =~= kept);
        }
    }
}

/// One more event adds its own amount, wherever it is put.
pub proof fn lemma_sum_insert(events: Seq<Event>, at: int, event: Event, lo: int, dim: usize)
    requires
        0 <= at <= events.len(),
    ensures
        event_sum(events.insert(at, event), lo, dim) == event_sum(events, lo, dim) + if event.ts
            > lo {
            event.used.along(dim) as int
        } else {
            0int
        },
        event_weight(events.insert(at, event), dim) == event_weight(events, dim) + size(
            event.used.along(dim) as int,
        ),
    decreases events.len(),
{
    if at == events.len() {
        assert(events.insert(at, event).drop_last() =~= events);
    } else {
        lemma_sum_insert(events.drop_last(), at, event, lo, dim);
        assert(events.insert(at, event).drop_last() =~= events.drop_last().insert(at, event));
    }
}

/// An event that used nothing changes no total, wherever it is put.
pub proof fn lemma_total_insert_nothing(events: Seq<Event>, at: int, event: Event, lo: int)
    requires
        0 <= at <= events.len(),
        event.used == Usage::none(),
    ensures
        event_total(events.insert(at, event), lo) == event_total(events, lo),
    decreases events.len(),
{
    let before = event_total(events, lo);
    if at == events.len() {
        assert(events.insert(at, event).drop_last() =~= events);
        assert(before.and(Usage::none()) == before);
    } else {
        lemma_total_insert_nothing(events.drop_last(), at, event, lo);
        assert(events.insert(at, event).drop_last() =~= events.drop_last().insert(at, event));
    }
}

/// Filtering keeps the order of the events, keeps ids apart, and keeps exactly the events
/// that pass.
pub proof fn lemma_live(events: Seq<Event>, lo: int)
    ensures
        in_time_order(events) ==> in_time_order(live_events(events, lo)),
        forall|next_id: u64|
            ids_distinct(events, next_id) ==> #[trigger] ids_distinct(
                live_events(events, lo),
                next_id,
            ),
        forall|i: int|
            0 <= i < live_events(events, lo).len() ==> (#[trigger] live_events(events, lo)[i]).ts
                > lo && events.contains(live_events(events, lo)[i]),
        forall|i: int|
            0 <= i < events.len() && (#[trigger] events[i]).ts > lo ==> live_events(
                events,
                lo,
            ).contains(events[i]),
    decreases events.len(),
{
    reveal(Seq::filter);
    if events.len() > 0 {
        let pred = |e: Event| e.ts > lo;
        let shorter = events.drop_last();
        lemma_live(shorter, lo);
        let kept = live_events(shorter, lo);
        let all = live_events(events, lo);
        assert(all =~= if pred(events.last()) {
            kept.push(events.last())
        } else {
            kept
        });
        assert forall|i: int| 0 <= i < all.len() implies (#[trigger] all[i]).ts > lo
            && events.contains(all[i]) by {
            if i < kept.len() {
                assert(kept[i].ts > lo);
                let j = choose|j: int| 0 <= j < shorter.len() && shorter[j] == kept[i];
                assert(events[j] == all[i]);
            } else {
                assert(events[events.len() - 1] == all[i]);
            }
        }
        assert forall|i: int| 0 <= i < events.len() && (#[trigger] events[i]).ts > lo implies
            all.contains(events[i]) by {
            if i < shorter.len() {
                assert(shorter[i] == events[i]);
                assert(kept.contains(events[i]));
                let j = choose|j: int| 0 <= j < kept.len() && kept[j] == events[i];
                assert(all[j] == events[i]);
            } else {
                assert(all[all.len() - 1] == events[i]);
            }
        }
        if in_time_order(events) {
            assert(in_time_order(shorter)) by {
                assert forall|i: int, j: int| 0 <= i < j < shorter.len() implies (
                #[trigger] shorter[i]).ts <= (#[trigger] shorter[j]).ts by {
                    assert(events[i].ts <= events[j].ts);
                }
            }
            assert forall|i: int, j: int| 0 <= i < j < all.len() implies (#[trigger] all[i]).ts <= (
            #[trigger] all[j]).ts by {
                if j < kept.len() {
                    assert(kept[i].ts <= kept[j].ts);
                } else {
                    assert(kept[i].ts > lo);
                    let k = choose|k: int| 0 <= k < shorter.len() && shorter[k] == kept[i];
                    assert(events[k].ts <= events[events.len() - 1].ts);
                }
            }
        }
        assert forall|next_id: u64| ids_distinct(events, next_id) implies #[trigger] ids_distinct(
            all,
            next_id,
        ) by {
            assert(ids_distinct(shorter, next_id)) by {
                assert forall|i: int| 0 <= i < shorter.len() implies (#[trigger] shorter[i]).id
                    < next_id by {
                    assert(events[i].id < next_id);
                }
                assert forall|i: int, j: int| 0 <= i < j < shorter.len() implies (
                #[trigger] shorter[i]).id != (#[trigger] shorter[j]).id by {
                    assert(events[i].id != events[j].id);
                }
            }
            assert(ids_distinct(kept, next_id));
            assert forall|i: int| 0 <= i < all.len() implies (#[trigger] all[i]).id < next_id by {
                if i < kept.len() {
                    assert(kept[i].id < next_id);
                } else {
                    assert(events[events.len() - 1].id < next_id);
                }
            }
            assert forall|i: int, j: int| 0 <= i < j < all.len() implies (#[trigger] all[i]).id != (
            #[trigger] all[j]).id by {
                if j < kept.len() {
                    assert(kept[i].id != kept[j].id);
                } else {
                    assert(kept[i].ts > lo);
                    let k = choose|k: int| 0 <= k < shorter.len() && shorter[k] == kept[i];
                    assert(events[k].id != events[events.len() - 1].id);
                }
            }
        }
    }
}

/// Recording an event keeps the log in order.
pub proof fn lemma_recorded_in_order(events: Seq<Event>, event: Event)
    requires
        in_time_order(events),
    ensures
        0 <= event_place(events, event.ts as int) <= events.len(),
        in_time_order(event_recorded(events, event)),
{
    crate::window::lemma_event_place(events, event.ts as int);
    let place = event_place(events, event.ts as int);
    let longer = event_recorded(events, event);
    assert forall|i: int, j: int| 0 <= i < j < longer.len() implies (#[trigger] longer[i]).ts <= (
    #[trigger] longer[j]).ts by {
        let a = if i < place {
            i
        } else {
            i - 1
        };
        let b = if j < place {
            j
        } else {
            j - 1
        };
        if i != place {
            assert(longer[i] == events[a]);
        }
        if j != place {
            assert(longer[j] == events[b]);
        }
        if i != place && j != place {
            assert(events[a].ts <= events[b].ts);
        }
    }
}

/// An event after a change to the one with the given id.
pub open spec fn changed(event: Event, id: u64, delta: Usage) -> Event {
    if event.id == id {
        Event { used: event.used.and(delta), ..event }
    } else {
        event
    }
}

/// A log after a change to the event with the given id, event by event.
pub open spec fn all_changed(events: Seq<Event>, id: u64, delta: Usage) -> Seq<Event> {
    events.map_values(|e: Event| changed(e, id, delta))
}

/// Where ids are told apart, adjusting changes every event with the given id.
pub proof fn lemma_adjusted(events: Seq<Event>, next_id: u64, id: u64, delta: Usage)
    requires
        ids_distinct(events, next_id),
    ensures
        event_adjusted(events, id, delta) == all_changed(events, id, delta),
{
    if exists|at: int| event_found(events, id, at) {
        let at = choose|at: int| event_found(events, id, at);
        assert forall|i: int| 0 <= i < events.len() && i != at implies (#[trigger] events[i]).id
            != id by {
            if i < at {
                assert(events[i].id != events[at].id);
            } else {
                assert(events[at].id != events[i].id);
            }
        }
        assert(event_adjusted(events, id, delta) =~= all_changed(events, id, delta));
    } else {
        assert forall|i: int| 0 <= i < events.len() implies (#[trigger] events[i]).id != id by {
            if events[i].id == id {
                assert forall|q: int| 0 <= q < i implies (#[trigger] events[q]).id != id by {
                    assert(events[q].id != events[i].id);
                }
                assert(event_found(events, id, i));
            }
        }
        assert(all_changed(events, id, delta) =~= events);
    }
}

/// A change moves no event and drops none.
pub proof fn lemma_changed_keeps_order(events: Seq<Event>, id: u64, delta: Usage, now: int, lo: int)
    ensures
        event_place(all_changed(events, id, delta), now) == event_place(events, now),
        live_events(all_changed(events, id, delta), lo) == all_changed(
            live_events(events, lo),
            id,
            delta,
        ),
    decreases events.len(),
{
    reveal(Seq::filter);
    let after = all_changed(events, id, delta);
    if events.len() > 0 {
        let pred = |e: Event| e.ts > lo;
        let shorter = events.drop_last();
        lemma_changed_keeps_order(shorter, id, delta, now, lo);
        assert(after.drop_last() =~= all_changed(shorter, id, delta));
        assert(after.last() == changed(events.last(), id, delta));
        let kept = live_events(shorter, lo);
        if pred(events.last()) {
            assert(live_events(events, lo) =~= kept.push(events.last()));
            assert(live_events(after, lo) =~= live_events(after.drop_last(), lo).push(
                after.last(),
            ));
            assert(all_changed(kept.push(events.last()), id, delta) =~= all_changed(
                kept,
                id,
                delta,
            ).push(after.last()));
        } else {
            assert(live_events(events, lo) =~= kept);
            assert(live_events(after, lo) =~= live_events(after.drop_last(), lo));
        }
    } else {
        assert(after =~= events);
        assert(live_events(events, lo) =~= Seq::<Event>::empty());
        assert(all_changed(live_events(events, lo), id, delta) =~= live_events(events, lo));
    }
}

} // verus!
