//! Split events: where the items of a k-d tree node begin and end along an axis.

use vstd::prelude::*;
use crate::aabb::{AABB, Axis, max_key, min_key};
use crate::order::{is_stable_sort, sorted_by_key, stable_sort, Keyed};

verus! {

/// One end of an item's extent along an axis, clipped to the node.
#[derive(Copy, Clone, Debug, PartialEq, Eq, Structural)]
pub struct Event {
    /// Position of the candidate plane.
    pub value: i64,
    /// Whether the item begins here (`true`) or ends here (`false`).
    pub opens: bool,
    /// Index of the item among the indexed boxes.
    pub item: usize,
}

impl Keyed for Event {
    open spec fn key(&self) -> i64 {
        self.value
    }

    fn sort_key(&self) -> (k: i64) {
        self.value
    }
}

/// The event at which `item` begins along `axis` inside `space`.
pub open spec fn opening(space: AABB, bound: AABB, item: usize, axis: Axis) -> Event {
    Event { value: space.clip_low(bound, axis), opens: true, item }
}

/// The event at which `item` ends along `axis` inside `space`.
pub open spec fn closing(space: AABB, bound: AABB, item: usize, axis: Axis) -> Event {
    Event { value: space.clip_high(bound, axis), opens: false, item }
}

/// The events of the items `ids`, item by item, each item's opening event
/// directly before its closing event.
pub open spec fn raw_events(bounds: Seq<AABB>, ids: Seq<usize>, space: AABB, axis: Axis) -> Seq<
    Event,
> {
    Seq::new(
        2 * ids.len(),
        |j: int|
            if j % 2 == 0 {
                opening(space, bounds[ids[j / 2] as int], ids[j / 2], axis)
            } else {
                closing(space, bounds[ids[j / 2] as int], ids[j / 2], axis)
            },
    )
}

/// The two candidate planes that an item contributes along `axis`: the faces
/// of its box, moved onto the node's faces where the box sticks out.
pub fn perfect_splits(bound: &AABB, item: usize, space: &AABB, axis: Axis) -> (pair: (
    Event,
    Event,
))
    ensures
        pair.0 == opening(*space, *bound, item, axis),
        pair.1 == closing(*space, *bound, item, axis),
{
    let low = max_key(bound.min.get(axis), space.min.get(axis));
    let high = min_key(bound.max.get(axis), space.max.get(axis));
    (Event { value: low, opens: true, item }, Event { value: high, opens: false, item })
}

/// The events of the items `ids` along `axis`, in ascending order of their
/// planes.  Events on one plane keep the order of `raw_events`.
pub fn event_list(bounds: &Vec<AABB>, ids: &Vec<usize>, space: &AABB, axis: Axis) -> (events: Vec<
    Event,
>)
    requires
        forall|k: int| 0 <= k < ids@.len() ==> ids@[k] < bounds@.len(),
    ensures
        is_stable_sort(events@, raw_events(bounds@, ids@, *space, axis)),
        events@.len() == 2 * ids@.len(),
{
    let mut events: Vec<Event> = Vec::new();
    let mut k: usize = 0;
    while k < ids.len()
        invariant
            k <= ids.len(),
            forall|k: int| 0 <= k < ids@.len() ==> ids@[k] < bounds@.len(),
            events@ =~= raw_events(bounds@, ids@.take(k as int), *space, axis),
        decreases ids.len() - k,
    {
        let id = ids[k];
        let pair = perfect_splits(&bounds[id], id, space, axis);
        events.push(pair.0);
        events.push(pair.1);
        proof {
            assert(ids@.take(k + 1) =~= ids@.take(k as int).push(id));
        }
        k += 1;
    }
    proof {
        assert(ids@.take(k as int) =~= ids@);
    }
    stable_sort(&mut events);
    events
}

/// Every raw event is the opening or the closing event of one of the items.
pub proof fn lemma_raw_event(bounds: Seq<AABB>, ids: Seq<usize>, space: AABB, axis: Axis, e: Event)
    requires
        raw_events(bounds, ids, space, axis).contains(e),
    ensures
        exists|k: int|
            0 <= k < ids.len() && (#[trigger] ids[k]) == e.item && e == if e.opens {
                opening(space, bounds[ids[k] as int], ids[k], axis)
            } else {
                closing(space, bounds[ids[k] as int], ids[k], axis)
            },
{
    let raw = raw_events(bounds, ids, space, axis);
    let j = choose|j: int| 0 <= j < raw.len() && raw[j] == e;
    assert(ids[j / 2] == e.item);
}

/// Each item has its opening and its closing event among the raw events.
pub proof fn lemma_raw_has_both(bounds: Seq<AABB>, ids: Seq<usize>, space: AABB, axis: Axis, k: int)
    requires
        0 <= k < ids.len(),
    ensures
        raw_events(bounds, ids, space, axis).contains(
            opening(space, bounds[ids[k] as int], ids[k], axis),
        ),
        raw_events(bounds, ids, space, axis).contains(
            closing(space, bounds[ids[k] as int], ids[k], axis),
        ),
{
    let raw = raw_events(bounds, ids, space, axis);
    assert(raw[2 * k] == opening(space, bounds[ids[k] as int], ids[k], axis));
    assert(raw[2 * k + 1] == closing(space, bounds[ids[k] as int], ids[k], axis));
}

/// The test "is an opening event".
pub open spec fn is_open() -> spec_fn(Event) -> bool {
    |e: Event| e.opens
}

/// The test "is a closing event".
pub open spec fn is_close() -> spec_fn(Event) -> bool {
    |e: Event| !e.opens
}

/// The test "an item begins here, at or before `plane`".
pub open spec fn opens_upto(plane: i64) -> spec_fn(Event) -> bool {
    |e: Event| e.opens && e.value <= plane
}

/// The test "an item ends here, beyond `plane`".
pub open spec fn closes_beyond(plane: i64) -> spec_fn(Event) -> bool {
    |e: Event| !e.opens && e.value > plane
}

/// Number of items whose extent starts at or before `plane`.
pub open spec fn count_left(events: Seq<Event>, plane: i64) -> nat {
    events.filter(opens_upto(plane)).len()
}

/// Number of items whose extent ends beyond `plane`.
pub open spec fn count_right(events: Seq<Event>, plane: i64) -> nat {
    events.filter(closes_beyond(plane)).len()
}

/// Whether event `i` is the first of the sorted events that stands at its
/// plane.
pub open spec fn is_plane_start(events: Seq<Event>, i: int) -> bool {
    0 <= i < events.len() && (i == 0 || events[i - 1].value != events[i].value)
}

/// The test "the first event of a plane stands at this index".
pub open spec fn plane_start_test(events: Seq<Event>) -> spec_fn(int) -> bool {
    |i: int| is_plane_start(events, i)
}

/// The indices below `n` at which a new plane begins, ascending.
pub open spec fn plane_starts(events: Seq<Event>, n: int) -> Seq<int> {
    Seq::new(n as nat, |i: int| i).filter(plane_start_test(events))
}

/// A plane at which a node may be cut, with the item counts of the two sides.
#[derive(Copy, Clone, Debug, PartialEq, Eq, Structural)]
pub struct Candidate {
    /// Index of the first event that stands at the plane.
    pub event: usize,
    /// Items whose extent starts at or before the plane.
    pub n_left: usize,
    /// Items whose extent ends beyond the plane.
    pub n_right: usize,
}

/// The candidate at the plane of event `start`.
pub open spec fn candidate_at(events: Seq<Event>, start: int) -> Candidate {
    Candidate {
        event: start as usize,
        n_left: count_left(events, events[start].value) as usize,
        n_right: count_right(events, events[start].value) as usize,
    }
}

/// One candidate for each plane at which an event of the sorted `events`
/// stands, planes ascending.
pub open spec fn candidates(events: Seq<Event>) -> Seq<Candidate> {
    plane_starts(events, events.len() as int).map_values(
        |start: int| candidate_at(events, start),
    )
}

/// Number of opening events among the first `i` events.
spec fn opens_before(events: Seq<Event>, i: int) -> nat {
    events.take(i).filter(is_open()).len()
}

/// Number of closing events among the first `i` events.
spec fn closes_before(events: Seq<Event>, i: int) -> nat {
    events.take(i).filter(is_close()).len()
}

proof fn lemma_count_step(events: Seq<Event>, i: int)
    requires
        0 <= i < events.len(),
    ensures
        opens_before(events, i + 1) == opens_before(events, i) + if events[i].opens {
            1nat
        } else {
            0nat
        },
        closes_before(events, i + 1) == closes_before(events, i) + if events[i].opens {
            0nat
        } else {
            1nat
        },
        closes_before(events, i + 1) <= closes_before(events, events.len() as int),
{
    assert(events.take(i + 1) =~= events.take(i).push(events[i]));
    events.take(i).lemma_filter_push(events[i], is_open());
    events.take(i).lemma_filter_push(events[i], is_close());
    lemma_closes_monotone(events, i + 1, events.len() as int);
}

proof fn lemma_closes_monotone(events: Seq<Event>, i: int, j: int)
    requires
        0 <= i <= j <= events.len(),
    ensures
        closes_before(events, i) <= closes_before(events, j),
    decreases j - i,
{
    if i < j {
        lemma_closes_monotone(events, i, j - 1);
        assert(events.take(j) =~= events.take(j - 1).push(events[j - 1]));
        events.take(j - 1).lemma_filter_push(events[j - 1], is_close());
    }
}

proof fn lemma_plane_starts_step(events: Seq<Event>, i: int)
    requires
        0 <= i,
    ensures
        plane_starts(events, i + 1) == if is_plane_start(events, i) {
            plane_starts(events, i).push(i)
        } else {
            plane_starts(events, i)
        },
{
    let idx = Seq::new(i as nat, |k: int| k);
    assert(Seq::new((i + 1) as nat, |k: int| k) =~= idx.push(i));
    idx.lemma_filter_push(i, plane_start_test(events));
}

/// Two tests that agree on every record of a sequence keep the same records.
proof fn lemma_filter_same(s: Seq<Event>, p: spec_fn(Event) -> bool, q: spec_fn(Event) -> bool)
    requires
        forall|i: int| 0 <= i < s.len() ==> p(s[i]) == q(s[i]),
    ensures
        s.filter(p) == s.filter(q),
    decreases s.len(),
{
    if s.len() == 0 {
        s.lemma_filter_len(p);
        s.lemma_filter_len(q);
        assert(s.filter(p) =~= s.filter(q));
    } else {
        lemma_filter_same(s.drop_last(), p, q);
        s.drop_last().lemma_filter_push(s.last(), p);
        s.drop_last().lemma_filter_push(s.last(), q);
        assert(s.drop_last().push(s.last()) =~= s);
    }
}

/// A test that no record of a sequence passes keeps none.
proof fn lemma_filter_none(s: Seq<Event>, p: spec_fn(Event) -> bool)
    requires
        forall|i: int| 0 <= i < s.len() ==> !p(s[i]),
    ensures
        s.filter(p).len() == 0,
    decreases s.len(),
{
    if s.len() == 0 {
        s.lemma_filter_len(p);
    } else {
        lemma_filter_none(s.drop_last(), p);
        s.drop_last().lemma_filter_push(s.last(), p);
        assert(s.drop_last().push(s.last()) =~= s);
    }
}

/// Where the first `end` events are those at or before `plane`, the counts
/// of the plane are the opening events among them and the closing events
/// after them.
proof fn lemma_counts_at(events: Seq<Event>, plane: i64, end: int)
    requires
        0 <= end <= events.len(),
        forall|k: int| 0 <= k < end ==> events[k].value <= plane,
        forall|k: int| end <= k < events.len() ==> events[k].value > plane,
    ensures
        count_left(events, plane) == opens_before(events, end),
        count_right(events, plane) + closes_before(events, end) == closes_before(
            events,
            events.len() as int,
        ),
{
    let head = events.take(end);
    let tail = events.skip(end);
    assert(events =~= head + tail);
    assert(events.take(events.len() as int) =~= events);
    Seq::filter_distributes_over_add(head, tail, opens_upto(plane));
    Seq::filter_distributes_over_add(head, tail, closes_beyond(plane));
    Seq::filter_distributes_over_add(head, tail, is_close());
    lemma_filter_same(head, opens_upto(plane), is_open());
    lemma_filter_none(tail, opens_upto(plane));
    lemma_filter_none(head, closes_beyond(plane));
    lemma_filter_same(tail, closes_beyond(plane), is_close());
}

/// Each candidate names an event of the list.
pub proof fn lemma_candidate_event(events: Seq<Event>, k: int)
    requires
        0 <= k < candidates(events).len(),
        events.len() <= usize::MAX,
    ensures
        candidates(events)[k].event < events.len(),
{
    let starts = plane_starts(events, events.len() as int);
    Seq::new(events.len(), |i: int| i).lemma_filter_pred(plane_start_test(events), k);
    assert(is_plane_start(events, starts[k]));
}

/// Walks the sorted events of a node once and lists the planes at which the
/// node may be cut: one for each plane at which an event stands, with the
/// number of items that start at or before the plane and the number of items
/// that end beyond it.
pub fn sweep(events: &Vec<Event>) -> (found: Vec<Candidate>)
    requires
        sorted_by_key(events@),
    ensures
        found@ == candidates(events@),
{
    let mut closes: usize = 0;
    let mut j: usize = 0;
    proof {
        assert(events@.take(0) =~= Seq::<Event>::empty());
        events@.take(0).lemma_filter_len(is_open());
        events@.take(0).lemma_filter_len(is_close());
    }
    while j < events.len()
        invariant
            j <= events.len(),
            closes == closes_before(events@, j as int),
            closes <= j,
        decreases events.len() - j,
    {
        proof {
            lemma_count_step(events@, j as int);
        }
        if !events[j].opens {
            closes += 1;
        }
        j += 1;
    }
    let mut found: Vec<Candidate> = Vec::new();
    let mut n_left: usize = 0;
    let mut n_right: usize = closes;
    let mut i: usize = 0;
    proof {
        Seq::new(0nat, |k: int| k).lemma_filter_len(plane_start_test(events@));
        assert(plane_starts(events@, 0) =~= Seq::<int>::empty());
    }
    while i < events.len()
        invariant
            i <= events.len(),
            sorted_by_key(events@),
            closes == closes_before(events@, events@.len() as int),
            i < events.len() ==> is_plane_start(events@, i as int),
            n_left == opens_before(events@, i as int),
            n_left <= i,
            n_right + closes_before(events@, i as int) == closes,
            found@ == plane_starts(events@, i as int).map_values(
                |start: int| candidate_at(events@, start),
            ),
        decreases events.len() - i,
    {
        let start = i;
        let plane = events[start].value;
        proof {
            lemma_plane_starts_step(events@, start as int);
        }
        while i < events.len() && events[i].value == plane
            invariant
                start <= i <= events.len(),
                start < events.len(),
                plane == events@[start as int].value,
                closes == closes_before(events@, events@.len() as int),
                forall|k: int| start <= k < i ==> events@[k].value == plane,
                n_left == opens_before(events@, i as int),
                n_left <= i,
                n_right + closes_before(events@, i as int) == closes,
                plane_starts(events@, if i > start {
                    i as int
                } else {
                    start + 1
                }) == plane_starts(events@, start + 1),
            decreases events.len() - i,
        {
            proof {
                lemma_count_step(events@, i as int);
                if i > start {
                    lemma_plane_starts_step(events@, i as int);
                }
            }
            if events[i].opens {
                n_left += 1;
            } else {
                n_right -= 1;
            }
            i += 1;
        }
        found.push(Candidate { event: start, n_left, n_right });
        proof {
            let f = |s: int| candidate_at(events@, s);
            assert forall|k: int| 0 <= k < i implies events@[k].value <= plane by {
                if k < start {
                    assert(events@[k].key() <= events@[start as int].key());
                }
            }
            assert forall|k: int| i <= k < events@.len() implies events@[k].value > plane by {
                assert(events@[start as int].key() <= events@[i as int].key());
                assert(events@[i as int].key() <= events@[k].key());
            }
            lemma_counts_at(events@, plane, i as int);
            plane_starts(events@, start as int).lemma_push_map_commute(f, start as int);
            assert(found@ =~= plane_starts(events@, i as int).map_values(f));
        }
    }
    found
}

} // verus!
