//! Choosing a cutting plane and dealing a node's items to its two sides.

use std::collections::HashSet;
use vstd::prelude::*;
use crate::events::Event;

verus! {

broadcast use vstd::std_specs::hash::group_hash_axioms;

/// `b` is the first index that holds the least cost; `None` is an unusable
/// plane and is never chosen.
pub open spec fn is_first_minimum(costs: Seq<Option<u64>>, b: int) -> bool {
    &&& 0 <= b < costs.len()
    &&& costs[b] is Some
    &&& forall|i: int|
        0 <= i < costs.len() && costs[i] is Some ==> costs[b].unwrap() <= (#[trigger] costs[i]).unwrap()
    &&& forall|i: int|
        0 <= i < b && costs[i] is Some ==> costs[b].unwrap() < (#[trigger] costs[i]).unwrap()
}

/// Picks the cheapest plane.  Among equally cheap planes the first wins.
pub fn select_best(costs: &Vec<Option<u64>>) -> (best: Option<usize>)
    ensures
        best is None <==> forall|i: int| 0 <= i < costs@.len() ==> (#[trigger] costs@[i]) is None,
        best matches Some(b) ==> is_first_minimum(costs@, b as int),
{
    let mut best: Option<usize> = None;
    let mut best_cost: u64 = 0;
    let mut i: usize = 0;
    while i < costs.len()
        invariant
            i <= costs.len(),
            best is None <==> forall|k: int| 0 <= k < i ==> (#[trigger] costs@[k]) is None,
            best matches Some(b) ==> is_first_minimum(costs@.take(i as int), b as int)
                && best_cost == costs@[b as int].unwrap(),
        decreases costs.len() - i,
    {
        match costs[i] {
            Some(c) => {
                let better = match best {
                    None => true,
                    Some(_) => c < best_cost,
                };
                if better {
                    best = Some(i);
                    best_cost = c;
                }
            },
            None => {},
        }
        i += 1;
    }
    proof {
        assert(costs@.take(i as int) =~= costs@);
    }
    best
}

/// The item of an event.
pub open spec fn item_of() -> spec_fn(Event) -> usize {
    |e: Event| e.item
}

/// The test "sends its item to the low side of the cut at `plane`": the
/// event stands before the plane, or ends its item on the plane.
pub open spec fn sends_left(plane: i64) -> spec_fn(Event) -> bool {
    |e: Event| e.value < plane || (e.value == plane && !e.opens)
}

/// The test "sends its item to the high side of the cut at `plane`": the
/// event stands beyond the plane, or begins its item on the plane.
pub open spec fn sends_right(plane: i64) -> spec_fn(Event) -> bool {
    |e: Event| e.value > plane || (e.value == plane && e.opens)
}

/// Whether one of the events of `item` passes `test`.
pub open spec fn item_passes(events: Seq<Event>, item: usize, test: spec_fn(Event) -> bool) -> bool {
    exists|i: int| 0 <= i < events.len() && (#[trigger] events[i]).item == item && test(events[i])
}

/// The test "begins an item that one of its events sends to the low side".
pub open spec fn begins_left(events: Seq<Event>, plane: i64) -> spec_fn(Event) -> bool {
    |e: Event| e.opens && item_passes(events, e.item, sends_left(plane))
}

/// The test "begins an item that one of its events sends to the high side".
pub open spec fn begins_right(events: Seq<Event>, plane: i64) -> spec_fn(Event) -> bool {
    |e: Event| e.opens && item_passes(events, e.item, sends_right(plane))
}

/// Items on the low side of the cut at the plane of event `best`, in the
/// order in which they begin.  An event before the plane sends its item
/// there, and so does an event that ends its item on the plane.
pub open spec fn left_items(events: Seq<Event>, best: int) -> Seq<usize> {
    events.filter(begins_left(events, events[best].value)).map_values(item_of())
}

/// Items on the high side of the cut at the plane of event `best`, in the
/// order in which they begin.  An event beyond the plane sends its item
/// there, and so does an event that begins its item on the plane.
pub open spec fn right_items(events: Seq<Event>, best: int) -> Seq<usize> {
    events.filter(begins_right(events, events[best].value)).map_values(item_of())
}

/// An item that begins at event `o` is dealt to each side that one of its
/// events sends it to.
pub proof fn lemma_sides_hold(events: Seq<Event>, best: int, o: int)
    requires
        0 <= best < events.len(),
        0 <= o < events.len(),
        events[o].opens,
    ensures
        item_passes(events, events[o].item, sends_left(events[best].value)) ==> left_items(
            events,
            best,
        ).contains(events[o].item),
        item_passes(events, events[o].item, sends_right(events[best].value)) ==> right_items(
            events,
            best,
        ).contains(events[o].item),
{
    broadcast use vstd::seq_lib::group_seq_properties;

    let plane = events[best].value;
    let e = events[o];
    if item_passes(events, e.item, sends_left(plane)) {
        let low = events.filter(begins_left(events, plane));
        events.lemma_filter_contains(begins_left(events, plane), o);
        let w = choose|w: int| 0 <= w < low.len() && low[w] == e;
        assert(low.map_values(item_of())[w] == e.item);
    }
    if item_passes(events, e.item, sends_right(plane)) {
        let high = events.filter(begins_right(events, plane));
        events.lemma_filter_contains(begins_right(events, plane), o);
        let w = choose|w: int| 0 <= w < high.len() && high[w] == e;
        assert(high.map_values(item_of())[w] == e.item);
    }
}

/// Every item dealt to a side is the item of one of the events.
pub proof fn lemma_sides_from_events(events: Seq<Event>, best: int, id: usize)
    requires
        0 <= best < events.len(),
        left_items(events, best).contains(id) || right_items(events, best).contains(id),
    ensures
        exists|j: int| 0 <= j < events.len() && (#[trigger] events[j]).item == id,
{
    broadcast use vstd::seq_lib::group_seq_properties;

    let plane = events[best].value;
    let low = events.filter(begins_left(events, plane));
    let high = events.filter(begins_right(events, plane));
    if low.map_values(item_of()).contains(id) {
        let w = choose|w: int| 0 <= w < low.len() && low.map_values(item_of())[w] == id;
        assert(low.contains(low[w]));
        events.lemma_filter_contains_rev(begins_left(events, plane), low[w]);
        let j = choose|j: int| 0 <= j < events.len() && events[j] == low[w];
        assert(events[j].item == id);
    } else {
        let w = choose|w: int| 0 <= w < high.len() && high.map_values(item_of())[w] == id;
        assert(high.contains(high[w]));
        events.lemma_filter_contains_rev(begins_right(events, plane), high[w]);
        let j = choose|j: int| 0 <= j < events.len() && events[j] == high[w];
        assert(events[j].item == id);
    }
}

/// One more event widens the items that pass a test by the item of that
/// event, if the event passes.
proof fn lemma_passes_step(events: Seq<Event>, i: int, id: usize, test: spec_fn(Event) -> bool)
    requires
        0 <= i < events.len(),
    ensures
        item_passes(events.take(i + 1), id, test) <==> item_passes(events.take(i), id, test) || (
        events[i].item == id && test(events[i])),
{
    let shorter = events.take(i);
    let longer = events.take(i + 1);
    if item_passes(longer, id, test) {
        let w = choose|w: int|
            0 <= w < longer.len() && (#[trigger] longer[w]).item == id && test(longer[w]);
        if w < i {
            assert(shorter[w].item == id && test(shorter[w]));
        }
    }
    if item_passes(shorter, id, test) {
        let w = choose|w: int|
            0 <= w < shorter.len() && (#[trigger] shorter[w]).item == id && test(shorter[w]);
        assert(longer[w].item == id && test(longer[w]));
    }
    if events[i].item == id && test(events[i]) {
        assert(longer[i].item == id && test(longer[i]));
    }
}

/// Deals the items of a node to the two sides of the cut at the plane of
/// event `best`.  Each event sends its item to a side: to the low side if it
/// stands before the plane or ends the item on it, to the high side if it
/// stands beyond the plane or begins the item on it.  An item that reaches
/// across the plane is thus dealt to both sides.
pub fn classify(events: &Vec<Event>, best: usize) -> (sides: (Vec<usize>, Vec<usize>))
    requires
        best < events@.len(),
    ensures
        sides.0@ == left_items(events@, best as int),
        sides.1@ == right_items(events@, best as int),
{
    let plane = events[best].value;
    let mut low: HashSet<usize> = HashSet::new();
    let mut high: HashSet<usize> = HashSet::new();
    let mut i: usize = 0;
    proof {
        assert forall|id: usize|
            !item_passes(events@.take(0), id, sends_left(plane)) && !item_passes(
                events@.take(0),
                id,
                sends_right(plane),
            ) by {}
    }
    while i < events.len()
        invariant
            i <= events@.len(),
            forall|id: usize|
                low@.contains(id) <==> item_passes(events@.take(i as int), id, sends_left(plane)),
            forall|id: usize|
                high@.contains(id) <==> item_passes(events@.take(i as int), id, sends_right(plane)),
        decreases events.len() - i,
    {
        let e = events[i];
        if e.value < plane || (e.value == plane && !e.opens) {
            low.insert(e.item);
        }
        if e.value > plane || (e.value == plane && e.opens) {
            high.insert(e.item);
        }
        proof {
            assert forall|id: usize|
                low@.contains(id) <==> item_passes(
                    events@.take(i + 1),
                    id,
                    sends_left(plane),
                ) by {
                lemma_passes_step(events@, i as int, id, sends_left(plane));
            }
            assert forall|id: usize|
                high@.contains(id) <==> item_passes(
                    events@.take(i + 1),
                    id,
                    sends_right(plane),
                ) by {
                lemma_passes_step(events@, i as int, id, sends_right(plane));
            }
        }
        i += 1;
    }
    let mut left: Vec<usize> = Vec::new();
    let mut right: Vec<usize> = Vec::new();
    let mut k: usize = 0;
    proof {
        assert(events@.take(i as int) =~= events@);
        let none = events@.take(0);
        assert(none =~= Seq::<Event>::empty());
        none.lemma_filter_len(begins_left(events@, plane));
        none.lemma_filter_len(begins_right(events@, plane));
        assert(left@ =~= none.filter(begins_left(events@, plane)).map_values(item_of()));
        assert(right@ =~= none.filter(begins_right(events@, plane)).map_values(item_of()));
    }
    while k < events.len()
        invariant
            k <= events@.len(),
            forall|id: usize| low@.contains(id) <==> item_passes(events@, id, sends_left(plane)),
            forall|id: usize| high@.contains(id) <==> item_passes(events@, id, sends_right(plane)),
            left@ == events@.take(k as int).filter(begins_left(events@, plane)).map_values(
                item_of(),
            ),
            right@ == events@.take(k as int).filter(begins_right(events@, plane)).map_values(
                item_of(),
            ),
        decreases events.len() - k,
    {
        let e = events[k];
        if e.opens {
            if low.contains(&e.item) {
                left.push(e.item);
            }
            if high.contains(&e.item) {
                right.push(e.item);
            }
        }
        proof {
            let seen = events@.take(k as int);
            assert(events@.take(k + 1) =~= seen.push(e));
            seen.lemma_filter_push(e, begins_left(events@, plane));
            seen.lemma_filter_push(e, begins_right(events@, plane));
            seen.filter(begins_left(events@, plane)).lemma_push_map_commute(item_of(), e);
            seen.filter(begins_right(events@, plane)).lemma_push_map_commute(item_of(), e);
        }
        k += 1;
    }
    proof {
        assert(events@.take(k as int) =~= events@);
    }
    (left, right)
}

} // verus!
