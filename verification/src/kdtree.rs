//! A static k-d tree over bounding boxes.
//!
//! The tree is built once, top down.  At each node the items' faces are the
//! candidate cutting planes; the caller prices them, the cheapest plane wins,
//! and the node becomes a leaf when no plane is cheaper than keeping its
//! items together.  A query walks the boxes that pass a caller's test and
//! returns the items found there.  Whatever the prices are, the tree loses no
//! item: a query finds every item that a brute-force scan finds.
//!
//! Prices are order keys, as coordinates are: only their comparison matters.
//! `split_cost(space, axis, value, n_left, n_right)` prices the cut of `space`
//! at the plane `axis = value` with `n_left` items on the low side and
//! `n_right` on the high side, and answers `None` for a plane that must not be
//! used; `leaf_cost(n)` prices a leaf of `n` items.

use std::collections::HashSet;
use vstd::prelude::*;
use crate::aabb::{BoundingBox, Axis, Point, AABB};
use crate::events::{
    candidates, closing, event_list, lemma_candidate_event, lemma_raw_event, lemma_raw_has_both,
    opening, raw_events, sweep, Candidate, Event,
};
use crate::order::{is_stable_sort, lemma_sort_keeps_records};
use crate::split::{
    classify, is_first_minimum, item_passes, left_items, lemma_sides_from_events,
    lemma_sides_hold, right_items, select_best, sends_left, sends_right,
};

verus! {

broadcast use vstd::std_specs::hash::group_hash_axioms;

/// A node of the tree.
pub enum KDtreeNode {
    /// The items (by index) whose boxes reach into `space`.
    Leaf { space: AABB, items: Vec<usize> },
    /// Two subtrees, each with the region it covers.
    Node {
        left_space: AABB,
        left_node: Box<KDtreeNode>,
        right_space: AABB,
        right_node: Box<KDtreeNode>,
    },
}

impl KDtreeNode {
    /// The node is a leaf over `space` that lists exactly `listed`.
    pub open spec fn is_leaf(self, space: AABB, listed: Seq<usize>) -> bool {
        self matches KDtreeNode::Leaf { space: s, items } && s == space && items@ == listed
    }

    /// The items held in the leaves below this node.
    pub open spec fn ids(self) -> Set<usize>
        decreases self,
    {
        match self {
            KDtreeNode::Leaf { items, .. } => items@.to_set(),
            KDtreeNode::Node { left_node, right_node, .. } => left_node.ids().union(
                right_node.ids(),
            ),
        }
    }

    /// The items that a walk finds which descends into exactly the subtrees
    /// whose region passes `test`.
    pub open spec fn reach(self, test: spec_fn(AABB) -> bool) -> Set<usize>
        decreases self,
    {
        match self {
            KDtreeNode::Leaf { items, .. } => items@.to_set(),
            KDtreeNode::Node { left_space, left_node, right_space, right_node } => {
                let right = if test(right_space) {
                    right_node.reach(test)
                } else {
                    Set::empty()
                };
                let left = if test(left_space) {
                    left_node.reach(test)
                } else {
                    Set::empty()
                };
                right.union(left)
            },
        }
    }

    /// The subtree, covering `space`, loses nothing: wherever one of its
    /// items has a point inside `space`, one of the two children covers that
    /// point and holds that item.
    pub open spec fn covers(self, bounds: Seq<AABB>, space: AABB) -> bool
        decreases self,
    {
        match self {
            KDtreeNode::Leaf { space: s, items } => {
                &&& s == space
                &&& forall|k: int| 0 <= k < items@.len() ==> (#[trigger] items@[k]) < bounds.len()
            },
            KDtreeNode::Node { left_space, left_node, right_space, right_node } => {
                &&& left_node.covers(bounds, left_space)
                &&& right_node.covers(bounds, right_space)
                &&& forall|i: usize, q: Point|
                    self.ids().contains(i) && (#[trigger] bounds[i as int].contains(q))
                        && space.contains(q) ==> (left_space.contains(q) && left_node.ids().contains(
                        i,
                    )) || (right_space.contains(q) && right_node.ids().contains(i))
            },
        }
    }
}

/// Whether the plane `axis = value` passes strictly between two opposite
/// faces of `space`.  Only such a plane separates anything.
pub open spec fn cuts_inside(space: AABB, axis: Axis, value: i64) -> bool {
    space.min.coord(axis) < value < space.max.coord(axis)
}

/// Whether a face of one of the items `ids` passes strictly inside `space`
/// along `axis`.
pub open spec fn has_inside_plane(bounds: Seq<AABB>, ids: Seq<usize>, space: AABB, axis: Axis) -> bool {
    exists|j: int|
        0 <= j < raw_events(bounds, ids, space, axis).len() && cuts_inside(
            space,
            axis,
            (#[trigger] raw_events(bounds, ids, space, axis)[j]).value,
        )
}

/// Whether any plane at all may cut the node: a face of one of its items
/// passes strictly inside it.
pub open spec fn separable(bounds: Seq<AABB>, ids: Seq<usize>, space: AABB) -> bool {
    has_inside_plane(bounds, ids, space, Axis::X) || has_inside_plane(bounds, ids, space, Axis::Y)
        || has_inside_plane(bounds, ids, space, Axis::Z)
}

/// A chosen cut of a node.
pub struct Partition {
    /// Axis that the cutting plane is perpendicular to.
    pub axis: Axis,
    /// The node's events along that axis, in ascending order.
    pub events: Vec<Event>,
    /// Index of the first event that stands at the cutting plane.
    pub best: usize,
    /// Cost of the cut.
    pub cost: u64,
}

impl Partition {
    /// The cut is one of the node's own planes and separates its region.
    pub open spec fn cuts(self, bounds: Seq<AABB>, ids: Seq<usize>, space: AABB) -> bool {
        &&& is_stable_sort(self.events@, raw_events(bounds, ids, space, self.axis))
        &&& self.best < self.events@.len()
        &&& cuts_inside(space, self.axis, self.events@[self.best as int].value)
    }
}

/// A cut is made along an axis only where a face passes strictly inside.
proof fn lemma_cut_needs_plane(p: Partition, bounds: Seq<AABB>, ids: Seq<usize>, space: AABB)
    requires
        p.cuts(bounds, ids, space),
    ensures
        has_inside_plane(bounds, ids, space, p.axis),
        separable(bounds, ids, space),
{
    let raw = raw_events(bounds, ids, space, p.axis);
    let e = p.events@[p.best as int];
    assert(p.events@.contains(e));
    lemma_sort_keeps_records(p.events@, raw, e);
    let j = choose|j: int| 0 <= j < raw.len() && raw[j] == e;
    assert(cuts_inside(space, p.axis, raw[j].value));
}

/// The cheaper of two cuts; the first wins unless the second costs less.
pub fn cheaper(first: Option<Partition>, second: Option<Partition>) -> (winner: Option<Partition>)
    ensures
        winner == pick(first, second),
{
    let take_second = match (&first, &second) {
        (_, None) => false,
        (None, Some(_)) => true,
        (Some(a), Some(b)) => b.cost < a.cost,
    };
    if take_second {
        second
    } else {
        first
    }
}

/// What `split_cost` may answer for the candidate `plane`.  A plane on a
/// face of the node is not offered: its price is `None`.
pub open spec fn may_price<F: Fn(&AABB, Axis, i64, usize, usize) -> Option<u64>>(
    split_cost: F,
    space: AABB,
    axis: Axis,
    events: Seq<Event>,
    plane: Candidate,
    cost: Option<u64>,
) -> bool {
    let value = events[plane.event as int].value;
    if cuts_inside(space, axis, value) {
        call_ensures(split_cost, (&space, axis, value, plane.n_left, plane.n_right), cost)
    } else {
        cost is None
    }
}

/// `costs` prices the candidates of `events`, one by one.
pub open spec fn is_pricing<F: Fn(&AABB, Axis, i64, usize, usize) -> Option<u64>>(
    split_cost: F,
    space: AABB,
    axis: Axis,
    events: Seq<Event>,
    costs: Seq<Option<u64>>,
) -> bool {
    &&& costs.len() == candidates(events).len()
    &&& forall|k: int|
        0 <= k < costs.len() ==> may_price(
            split_cost,
            space,
            axis,
            events,
            candidates(events)[k],
            #[trigger] costs[k],
        )
}

/// `found` is the choice among the candidates of `events` priced by `costs`:
/// the first of the cheapest, or nothing where no candidate has a price.
pub open spec fn is_choice(
    found: Option<Partition>,
    axis: Axis,
    events: Seq<Event>,
    costs: Seq<Option<u64>>,
) -> bool {
    match found {
        None => forall|k: int| 0 <= k < costs.len() ==> (#[trigger] costs[k]) is None,
        Some(p) => {
            &&& p.axis == axis
            &&& p.events@ == events
            &&& exists|b: int|
                is_first_minimum(costs, b) && p.best == (#[trigger] candidates(events)[b]).event
                    && p.cost == costs[b].unwrap()
        },
    }
}

/// `found` is the cheapest cut of the node along `axis`: its events are
/// sorted, `split_cost` prices each plane at which an event stands, with the
/// number of items that start at or before the plane and the number that end
/// beyond it, and the first of the cheapest planes is taken.
pub open spec fn is_best_on_axis<F: Fn(&AABB, Axis, i64, usize, usize) -> Option<u64>>(
    found: Option<Partition>,
    bounds: Seq<AABB>,
    ids: Seq<usize>,
    space: AABB,
    axis: Axis,
    split_cost: F,
) -> bool {
    exists|events: Seq<Event>, costs: Seq<Option<u64>>|
        is_stable_sort(events, raw_events(bounds, ids, space, axis)) && #[trigger] is_pricing(
            split_cost,
            space,
            axis,
            events,
            costs,
        ) && is_choice(found, axis, events, costs)
}

/// The cheaper of two cuts, as a mathematical value.
pub open spec fn pick(first: Option<Partition>, second: Option<Partition>) -> Option<Partition> {
    if second is Some && (first is None || second.unwrap().cost < first.unwrap().cost) {
        second
    } else {
        first
    }
}

/// `x`, `y` and `z` are the cheapest cuts of the node along the three axes.
pub open spec fn are_best_on_axes<F: Fn(&AABB, Axis, i64, usize, usize) -> Option<u64>>(
    x: Option<Partition>,
    y: Option<Partition>,
    z: Option<Partition>,
    bounds: Seq<AABB>,
    ids: Seq<usize>,
    space: AABB,
    split_cost: F,
) -> bool {
    &&& is_best_on_axis(x, bounds, ids, space, Axis::X, split_cost)
    &&& is_best_on_axis(y, bounds, ids, space, Axis::Y, split_cost)
    &&& is_best_on_axis(z, bounds, ids, space, Axis::Z, split_cost)
}

/// `found` is the cheapest cut of the node over the three axes; of equally
/// cheap cuts the one on the earlier axis wins.
pub open spec fn is_partition<F: Fn(&AABB, Axis, i64, usize, usize) -> Option<u64>>(
    found: Option<Partition>,
    bounds: Seq<AABB>,
    ids: Seq<usize>,
    space: AABB,
    split_cost: F,
) -> bool {
    exists|x: Option<Partition>, y: Option<Partition>, z: Option<Partition>| #[trigger]
        are_best_on_axes(x, y, z, bounds, ids, space, split_cost) && found == pick(pick(x, y), z)
}

/// The cheapest usable cut of a node along one axis, if any plane has a
/// price.  Planes on a face of the node are never offered for pricing.
fn best_on_axis<F: Fn(&AABB, Axis, i64, usize, usize) -> Option<u64>>(
    bounds: &Vec<AABB>,
    ids: &Vec<usize>,
    space: &AABB,
    axis: Axis,
    split_cost: &F,
) -> (found: Option<Partition>)
    requires
        forall|k: int| 0 <= k < ids@.len() ==> ids@[k] < bounds@.len(),
        forall|b: &AABB, a: Axis, v: i64, l: usize, r: usize|
            call_requires(*split_cost, (b, a, v, l, r)),
    ensures
        found matches Some(p) ==> p.axis == axis && p.cuts(bounds@, ids@, *space),
        is_best_on_axis(found, bounds@, ids@, *space, axis, *split_cost),
{
    let events = event_list(bounds, ids, space, axis);
    proof {
        assert(events@.len() == events.len());
    }
    let planes = sweep(&events);
    let mut costs: Vec<Option<u64>> = Vec::new();
    let mut k: usize = 0;
    while k < planes.len()
        invariant
            k <= planes.len(),
            costs@.len() == k,
            events@.len() <= usize::MAX,
            planes@ == candidates(events@),
            forall|b: &AABB, a: Axis, v: i64, l: usize, r: usize|
                call_requires(*split_cost, (b, a, v, l, r)),
            forall|j: int|
                0 <= j < k ==> may_price(
                    *split_cost,
                    *space,
                    axis,
                    events@,
                    planes@[j],
                    #[trigger] costs@[j],
                ),
            forall|j: int|
                0 <= j < k && (#[trigger] costs@[j]) is Some ==> planes@[j].event < events@.len()
                    && cuts_inside(*space, axis, events@[planes@[j].event as int].value),
        decreases planes.len() - k,
    {
        let plane = planes[k];
        proof {
            lemma_candidate_event(events@, k as int);
        }
        let value = events[plane.event].value;
        let cost = if space.min.get(axis) < value && value < space.max.get(axis) {
            split_cost(space, axis, value, plane.n_left, plane.n_right)
        } else {
            None
        };
        costs.push(cost);
        k += 1;
    }
    let found = match select_best(&costs) {
        None => None,
        Some(b) => {
            let best = planes[b].event;
            match costs[b] {
                Some(cost) => Some(Partition { axis, events, best, cost }),
                None => None,
            }
        },
    };
    proof {
        let sorted = if found is Some {
            found.unwrap().events@
        } else {
            events@
        };
        assert(is_pricing(*split_cost, *space, axis, sorted, costs@));
        assert(is_choice(found, axis, sorted, costs@));
    }
    found
}

/// Looks for the cheapest cut of a node over the three axes.
///
/// Along each axis the node's events are sorted and swept, `split_cost`
/// prices each plane that passes strictly inside the node, and the cheapest
/// plane is kept; of equally cheap planes the first one met wins, axes taken
/// in the order x, y, z.  `None` means that no plane has a price.
pub fn partition<F: Fn(&AABB, Axis, i64, usize, usize) -> Option<u64>>(
    bounds: &Vec<AABB>,
    ids: &Vec<usize>,
    space: &AABB,
    split_cost: &F,
) -> (found: Option<Partition>)
    requires
        forall|k: int| 0 <= k < ids@.len() ==> ids@[k] < bounds@.len(),
        forall|b: &AABB, a: Axis, v: i64, l: usize, r: usize|
            call_requires(*split_cost, (b, a, v, l, r)),
    ensures
        is_partition(found, bounds@, ids@, *space, *split_cost),
        found matches Some(p) ==> p.cuts(bounds@, ids@, *space),
        !separable(bounds@, ids@, *space) ==> found is None,
{
    let x = best_on_axis(bounds, ids, space, Axis::X, split_cost);
    let y = best_on_axis(bounds, ids, space, Axis::Y, split_cost);
    let z = best_on_axis(bounds, ids, space, Axis::Z, split_cost);
    let ghost on_axes = (x, y, z);
    let found = cheaper(cheaper(x, y), z);
    proof {
        assert(are_best_on_axes(
            on_axes.0,
            on_axes.1,
            on_axes.2,
            bounds@,
            ids@,
            *space,
            *split_cost,
        ));
        if found is Some {
            lemma_cut_needs_plane(found.unwrap(), bounds@, ids@, *space);
        }
    }
    found
}

/// 1 if `v` lies strictly between `lo` and `hi`, else 0.
pub open spec fn strictly_between(lo: i64, v: i64, hi: i64) -> nat {
    if lo < v && v < hi {
        1
    } else {
        0
    }
}

/// How many of the six faces of `b` pass strictly inside `space`.
pub open spec fn faces_inside(space: AABB, b: AABB) -> nat {
    strictly_between(space.min.x, b.min.x, space.max.x) + strictly_between(
        space.min.x,
        b.max.x,
        space.max.x,
    ) + strictly_between(space.min.y, b.min.y, space.max.y) + strictly_between(
        space.min.y,
        b.max.y,
        space.max.y,
    ) + strictly_between(space.min.z, b.min.z, space.max.z) + strictly_between(
        space.min.z,
        b.max.z,
        space.max.z,
    )
}

/// How many faces of the indexed boxes pass strictly inside `space`.  Each
/// cut leaves fewer of them to either side, so building ends.
pub open spec fn interior_count(bounds: Seq<AABB>, space: AABB) -> nat
    decreases bounds.len(),
{
    if bounds.len() == 0 {
        0
    } else {
        interior_count(bounds.drop_last(), space) + faces_inside(space, bounds.last())
    }
}

proof fn lemma_interior_le(bounds: Seq<AABB>, outer: AABB, inner: AABB)
    requires
        outer.encloses(inner),
    ensures
        interior_count(bounds, inner) <= interior_count(bounds, outer),
    decreases bounds.len(),
{
    if bounds.len() > 0 {
        lemma_interior_le(bounds.drop_last(), outer, inner);
    }
}

proof fn lemma_interior_lt(bounds: Seq<AABB>, outer: AABB, inner: AABB, e: int)
    requires
        outer.encloses(inner),
        0 <= e < bounds.len(),
        faces_inside(inner, bounds[e]) < faces_inside(outer, bounds[e]),
    ensures
        interior_count(bounds, inner) < interior_count(bounds, outer),
    decreases bounds.len(),
{
    if e == bounds.len() - 1 {
        lemma_interior_le(bounds.drop_last(), outer, inner);
    } else {
        lemma_interior_lt(bounds.drop_last(), outer, inner, e);
    }
}

/// What a cut at event `best` guarantees: the two sides hold only items of
/// the node, no item is lost wherever it has a point in the node, and fewer
/// faces remain inside either half.
proof fn lemma_cut(
    bounds: Seq<AABB>,
    ids: Seq<usize>,
    space: AABB,
    axis: Axis,
    events: Seq<Event>,
    best: int,
)
    requires
        forall|k: int| 0 <= k < ids.len() ==> ids[k] < bounds.len(),
        is_stable_sort(events, raw_events(bounds, ids, space, axis)),
        0 <= best < events.len(),
        cuts_inside(space, axis, events[best].value),
    ensures
        forall|id: usize|
            left_items(events, best).contains(id) || right_items(events, best).contains(id)
                ==> ids.contains(id),
        forall|k: int|
            0 <= k < ids.len() ==> left_items(events, best).contains(#[trigger] ids[k])
                || right_items(events, best).contains(ids[k]),
        forall|k: int, q: Point|
            0 <= k < ids.len() && (#[trigger] bounds[ids[k] as int].contains(q)) && space.contains(
                q,
            ) ==> (space.below(axis, events[best].value).contains(q) && left_items(
                events,
                best,
            ).contains(ids[k])) || (space.above(axis, events[best].value).contains(q)
                && right_items(events, best).contains(ids[k])),
        interior_count(bounds, space.below(axis, events[best].value)) < interior_count(
            bounds,
            space,
        ),
        interior_count(bounds, space.above(axis, events[best].value)) < interior_count(
            bounds,
            space,
        ),
{
    let raw = raw_events(bounds, ids, space, axis);
    let cut = events[best].value;
    assert forall|id: usize|
        left_items(events, best).contains(id) || right_items(events, best).contains(
            id,
        ) implies ids.contains(id) by {
        lemma_sides_from_events(events, best, id);
        let j = choose|j: int| 0 <= j < events.len() && (#[trigger] events[j]).item == id;
        assert(events.contains(events[j]));
        lemma_sort_keeps_records(events, raw, events[j]);
        lemma_raw_event(bounds, ids, space, axis, events[j]);
    }
    assert forall|k: int| 0 <= k < ids.len() implies (forall|q: Point|
        (#[trigger] bounds[ids[k] as int].contains(q)) && space.contains(q) ==> (space.below(
            axis,
            cut,
        ).contains(q) && left_items(events, best).contains(ids[k])) || (space.above(
            axis,
            cut,
        ).contains(q) && right_items(events, best).contains(ids[k]))) && (left_items(
        events,
        best,
    ).contains(#[trigger] ids[k]) || right_items(events, best).contains(ids[k])) by {
        let b = bounds[ids[k] as int];
        let opens_at = opening(space, b, ids[k], axis);
        let closes_at = closing(space, b, ids[k], axis);
        lemma_raw_has_both(bounds, ids, space, axis, k);
        lemma_sort_keeps_records(events, raw, opens_at);
        lemma_sort_keeps_records(events, raw, closes_at);
        let o = choose|o: int| 0 <= o < events.len() && events[o] == opens_at;
        let c = choose|c: int| 0 <= c < events.len() && events[c] == closes_at;
        lemma_sides_hold(events, best, o);
        if opens_at.value < cut {
            assert(events[o].item == ids[k] && sends_left(cut)(events[o]));
            assert(item_passes(events, ids[k], sends_left(cut)));
        } else {
            assert(events[o].item == ids[k] && sends_right(cut)(events[o]));
            assert(item_passes(events, ids[k], sends_right(cut)));
        }
        if closes_at.value > cut {
            assert(events[c].item == ids[k] && sends_right(cut)(events[c]));
            assert(item_passes(events, ids[k], sends_right(cut)));
        }
    }
    lemma_sort_keeps_records(events, raw, events[best]);
    assert(events.contains(events[best]));
    lemma_raw_event(bounds, ids, space, axis, events[best]);
    let w = choose|w: int|
        0 <= w < ids.len() && (#[trigger] ids[w]) == events[best].item && events[best]
            == if events[best].opens {
            opening(space, bounds[ids[w] as int], ids[w], axis)
        } else {
            closing(space, bounds[ids[w] as int], ids[w], axis)
        };
    lemma_interior_lt(bounds, space, space.below(axis, cut), ids[w] as int);
    lemma_interior_lt(bounds, space, space.above(axis, cut), ids[w] as int);
}

/// `found` and `whole` are what a node's decision rests on: the cheapest cut
/// of the node and, where there is one, the price of keeping the node whole.
pub open spec fn is_decision<
    F: Fn(&AABB, Axis, i64, usize, usize) -> Option<u64>,
    G: Fn(usize) -> u64,
>(
    found: Option<Partition>,
    whole: u64,
    bounds: Seq<AABB>,
    ids: Seq<usize>,
    space: AABB,
    split_cost: F,
    leaf_cost: G,
) -> bool {
    &&& is_partition(found, bounds, ids, space, split_cost)
    &&& found is Some ==> call_ensures(leaf_cost, (ids.len() as usize,), whole)
}

/// A node is cut where a cut was found that costs no more than the node
/// kept whole.
pub open spec fn is_cut(found: Option<Partition>, whole: u64) -> bool {
    found is Some && found.unwrap().cost <= whole
}

/// `node` is the subtree that building makes of the items `ids` inside
/// `space` under the given prices: a leaf that lists the items from last to
/// first where no cut is cheap enough, else the two halves of `space` on
/// either side of the cheapest cut, each built in the same way from the items
/// dealt to it.
pub open spec fn is_grown<
    F: Fn(&AABB, Axis, i64, usize, usize) -> Option<u64>,
    G: Fn(usize) -> u64,
>(
    node: KDtreeNode,
    bounds: Seq<AABB>,
    ids: Seq<usize>,
    space: AABB,
    split_cost: F,
    leaf_cost: G,
) -> bool
    decreases node,
{
    match node {
        KDtreeNode::Leaf { .. } => {
            &&& node.is_leaf(space, ids.reverse())
            &&& exists|found: Option<Partition>, whole: u64| #[trigger]
                is_decision(found, whole, bounds, ids, space, split_cost, leaf_cost) && !is_cut(
                    found,
                    whole,
                )
        },
        KDtreeNode::Node { left_space, left_node, right_space, right_node } => {
            exists|found: Option<Partition>, whole: u64| #[trigger]
                is_decision(found, whole, bounds, ids, space, split_cost, leaf_cost) && is_cut(
                    found,
                    whole,
                ) && {
                    let p = found.unwrap();
                    let cut = p.events@[p.best as int].value;
                    &&& left_space == space.below(p.axis, cut)
                    &&& right_space == space.above(p.axis, cut)
                    &&& is_grown(
                        *left_node,
                        bounds,
                        left_items(p.events@, p.best as int),
                        left_space,
                        split_cost,
                        leaf_cost,
                    )
                    &&& is_grown(
                        *right_node,
                        bounds,
                        right_items(p.events@, p.best as int),
                        right_space,
                        split_cost,
                        leaf_cost,
                    )
                }
        },
    }
}

/// A leaf over `space`.  It lists the items from last to first.
fn make_leaf(space: AABB, ids: Vec<usize>) -> (node: KDtreeNode)
    ensures
        node.is_leaf(space, ids@.reverse()),
        node.ids() == ids@.to_set(),
{
    let mut items: Vec<usize> = Vec::new();
    let mut k: usize = ids.len();
    while k > 0
        invariant
            k <= ids@.len(),
            items@.len() == ids@.len() - k,
            forall|j: int| 0 <= j < items@.len() ==> items@[j] == ids@[ids@.len() - 1 - j],
        decreases k,
    {
        k -= 1;
        items.push(ids[k]);
    }
    proof {
        assert(items@ =~= ids@.reverse());
        assert(items@.to_set() =~= ids@.to_set()) by {
            assert forall|id: usize| items@.contains(id) implies ids@.contains(id) by {
                let j = choose|j: int| 0 <= j < items@.len() && items@[j] == id;
                assert(ids@[ids@.len() - 1 - j] == id);
            }
            assert forall|id: usize| ids@.contains(id) implies items@.contains(id) by {
                let j = choose|j: int| 0 <= j < ids@.len() && ids@[j] == id;
                assert(items@[ids@.len() - 1 - j] == id);
            }
        }
    }
    KDtreeNode::Leaf { space, items }
}

/// Builds the subtree for the items `ids` inside `space`.
fn build_node<F: Fn(&AABB, Axis, i64, usize, usize) -> Option<u64>, G: Fn(usize) -> u64>(
    bounds: &Vec<AABB>,
    space: AABB,
    ids: Vec<usize>,
    split_cost: &F,
    leaf_cost: &G,
) -> (node: KDtreeNode)
    requires
        forall|k: int| 0 <= k < ids@.len() ==> ids@[k] < bounds@.len(),
        forall|b: &AABB, a: Axis, v: i64, l: usize, r: usize|
            call_requires(*split_cost, (b, a, v, l, r)),
        forall|n: usize| call_requires(*leaf_cost, (n,)),
    ensures
        node.covers(bounds@, space),
        node.ids() == ids@.to_set(),
        !separable(bounds@, ids@, space) ==> node.is_leaf(space, ids@.reverse()),
        is_grown(node, bounds@, ids@, space, *split_cost, *leaf_cost),
    decreases interior_count(bounds@, space),
{
    broadcast use vstd::seq_lib::group_seq_properties;

    let found = partition(bounds, &ids, &space, split_cost);
    let ghost decided = found;
    let ghost mut kept: u64 = 0;
    if let Some(p) = found {
        let whole = leaf_cost(ids.len());
        proof {
            kept = whole;
            assert(is_decision(decided, whole, bounds@, ids@, space, *split_cost, *leaf_cost));
        }
        if p.cost <= whole {
            let cut = p.events[p.best].value;
            let halves = space.split(p.axis, cut);
            let sides = classify(&p.events, p.best);
            proof {
                lemma_cut(bounds@, ids@, space, p.axis, p.events@, p.best as int);
                assert forall|k: int| 0 <= k < sides.0@.len() implies sides.0@[k]
                    < bounds@.len() by {
                    assert(sides.0@.contains(sides.0@[k]));
                    assert(ids@.contains(sides.0@[k]));
                    let w = choose|w: int| 0 <= w < ids@.len() && ids@[w] == sides.0@[k];
                }
                assert forall|k: int| 0 <= k < sides.1@.len() implies sides.1@[k]
                    < bounds@.len() by {
                    assert(sides.1@.contains(sides.1@[k]));
                    assert(ids@.contains(sides.1@[k]));
                    let w = choose|w: int| 0 <= w < ids@.len() && ids@[w] == sides.1@[k];
                }
            }
            let ghost left_ids = sides.0@;
            let ghost right_ids = sides.1@;
            let left_node = build_node(bounds, halves.0, sides.0, split_cost, leaf_cost);
            let right_node = build_node(bounds, halves.1, sides.1, split_cost, leaf_cost);
            let node = KDtreeNode::Node {
                left_space: halves.0,
                left_node: Box::new(left_node),
                right_space: halves.1,
                right_node: Box::new(right_node),
            };
            proof {
                assert(node.ids() =~= ids@.to_set()) by {
                    assert forall|id: usize| node.ids().contains(id) implies ids@.to_set().contains(
                        id,
                    ) by {
                        assert(left_ids.contains(id) || right_ids.contains(id));
                    }
                    assert forall|id: usize| ids@.to_set().contains(id) implies node.ids().contains(
                        id,
                    ) by {
                        let k = choose|k: int| 0 <= k < ids@.len() && ids@[k] == id;
                        assert(left_ids.contains(ids@[k]) || right_ids.contains(ids@[k]));
                    }
                }
                assert forall|i: usize, q: Point|
                    node.ids().contains(i) && (#[trigger] bounds@[i as int].contains(q))
                        && space.contains(q) implies (halves.0.contains(q) && left_node.ids().contains(
                    i,
                )) || (halves.1.contains(q) && right_node.ids().contains(i)) by {
                    assert(ids@.contains(i));
                    let k = choose|k: int| 0 <= k < ids@.len() && ids@[k] == i;
                    assert(bounds@[ids@[k] as int].contains(q));
                }
                assert(is_cut(decided, whole));
                assert(is_grown(node, bounds@, ids@, space, *split_cost, *leaf_cost));
            }
            return node;
        }
    }
    let leaf = make_leaf(space, ids);
    proof {
        assert(is_decision(decided, kept, bounds@, ids@, space, *split_cost, *leaf_cost));
        assert(!is_cut(decided, kept));
    }
    leaf
}

/// The smallest box around all of `items`; around none, the box that holds
/// nothing.
pub open spec fn hull_of(items: Seq<AABB>) -> AABB
    decreases items.len(),
{
    if items.len() == 0 {
        AABB::nothing()
    } else {
        hull_of(items.drop_last()).hull(items.last())
    }
}

/// The hull holds each of the boxes it was grown around.
pub proof fn lemma_hull_encloses(items: Seq<AABB>, i: int)
    requires
        0 <= i < items.len(),
    ensures
        hull_of(items).encloses(items[i]),
    decreases items.len(),
{
    if i < items.len() - 1 {
        lemma_hull_encloses(items.drop_last(), i);
    }
}

/// The indices of `n` items, ascending.
pub open spec fn all_ids(n: nat) -> Seq<usize> {
    Seq::new(n, |i: int| i as usize)
}

/// `bounds` lists a box of each of `values`, in order: `bounds[i]` is what
/// `values[i]` gives as its bounding box.
pub open spec fn are_bounds_of<P: BoundingBox>(bounds: Seq<AABB>, values: Seq<P>) -> bool {
    &&& bounds.len() == values.len()
    &&& forall|i: int|
        0 <= i < values.len() ==> call_ensures(P::bounding_box, (&values[i],), #[trigger] bounds[i])
}

/// The test that a closure may answer `true` to.
pub open spec fn may_hit<F: Fn(&AABB) -> bool>(hit: F) -> spec_fn(AABB) -> bool {
    |b: AABB| call_ensures(hit, (&b,), true)
}

/// The test that a closure cannot answer `false` to.
pub open spec fn sure_hit<F: Fn(&AABB) -> bool>(hit: F) -> spec_fn(AABB) -> bool {
    |b: AABB| !call_ensures(hit, (&b,), false)
}

/// A k-d tree over the boxes of a fixed list of items.  Items are named by
/// their index in that list.
pub struct KDtree {
    root: KDtreeNode,
    space: AABB,
    items: Vec<AABB>,
}

impl KDtree {
    /// The root node.
    pub closed spec fn root(&self) -> KDtreeNode {
        self.root
    }

    /// The region that the tree covers.
    pub closed spec fn space(&self) -> AABB {
        self.space
    }

    /// The boxes of the indexed items.
    pub closed spec fn items(&self) -> Seq<AABB> {
        self.items@
    }

    /// The tree covers the hull of its items, indexes each of them, and loses
    /// none on the way down.  Every tree that exists is so.
    #[verifier::type_invariant]
    pub open spec fn wf(&self) -> bool {
        &&& self.space() == hull_of(self.items())
        &&& self.root().covers(self.items(), self.space())
        &&& self.root().ids() == Set::new(|i: usize| i < self.items().len())
    }

    /// The items that a query returns whose test on boxes is `test`.  A tree
    /// that is a single leaf tests the leaf's region; any other tree tests
    /// the regions of the children on the way down.
    pub open spec fn candidates(&self, test: spec_fn(AABB) -> bool) -> Set<usize> {
        match self.root() {
            KDtreeNode::Leaf { space, items } => if test(space) {
                items@.to_set()
            } else {
                Set::empty()
            },
            KDtreeNode::Node { .. } => self.root().reach(test),
        }
    }

    /// Builds the tree over the boxes of `values`, choosing cuts by the
    /// prices that `split_cost` and `leaf_cost` give.
    pub fn new<
        P: BoundingBox,
        F: Fn(&AABB, Axis, i64, usize, usize) -> Option<u64>,
        G: Fn(usize) -> u64,
    >(values: &Vec<P>, split_cost: F, leaf_cost: G) -> (tree: KDtree)
        requires
            forall|b: &AABB, a: Axis, v: i64, l: usize, r: usize|
                call_requires(split_cost, (b, a, v, l, r)),
            forall|n: usize| call_requires(leaf_cost, (n,)),
        ensures
            tree.wf(),
            are_bounds_of(tree.items(), values@),
            !separable(tree.items(), all_ids(values@.len()), tree.space()) ==> tree.root().is_leaf(
                tree.space(),
                all_ids(values@.len()).reverse(),
            ),
            is_grown(
                tree.root(),
                tree.items(),
                all_ids(values@.len()),
                tree.space(),
                split_cost,
                leaf_cost,
            ),
    {
        let mut space = AABB::empty();
        let mut items: Vec<AABB> = Vec::new();
        let mut ids: Vec<usize> = Vec::new();
        let mut i: usize = 0;
        while i < values.len()
            invariant
                i <= values.len(),
                are_bounds_of(items@, values@.take(i as int)),
                space == hull_of(items@),
                ids@.len() == i,
                forall|k: int| 0 <= k < i ==> ids@[k] == k,
            decreases values.len() - i,
        {
            let b = values[i].bounding_box();
            proof {
                assert(values@.take(i + 1) =~= values@.take(i as int).push(values@[i as int]));
                assert(are_bounds_of(items@.push(b), values@.take(i + 1)));
                assert(items@.push(b).drop_last() =~= items@);
            }
            space.enclose(&b);
            items.push(b);
            ids.push(i);
            i += 1;
        }
        proof {
            assert(values@.take(i as int) =~= values@);
        }
        let ghost all = ids@;
        proof {
            assert(all =~= all_ids(values@.len()));
        }
        let root = build_node(&items, space, ids, &split_cost, &leaf_cost);
        proof {
            assert(root.ids() =~= Set::new(|i: usize| i < items@.len())) by {
                assert forall|id: usize| id < items@.len() implies all.to_set().contains(id) by {
                    assert(all[id as int] == id);
                }
                assert forall|id: usize| all.to_set().contains(id) implies id < items@.len() by {
                    let k = choose|k: int| 0 <= k < all.len() && all[k] == id;
                }
            }
        }
        KDtree { root, space, items }
    }

    /// Number of indexed items.
    pub fn len(&self) -> (n: usize)
        ensures
            n == self.items().len(),
    {
        self.items.len()
    }

    /// The box of item `i`.
    pub fn item_bound(&self, i: usize) -> (b: AABB)
        requires
            i < self.items().len(),
        ensures
            b == self.items()[i as int],
    {
        self.items[i]
    }

    /// The items that a ray may hit, each once, in no particular order.
    ///
    /// `hit` tells whether the ray passes through a box.  The walk descends
    /// into the regions that `hit` accepts, so the result holds every item
    /// that lies below regions which `hit` cannot refuse, and only items
    /// below regions which `hit` may accept.
    pub fn intersect<F: Fn(&AABB) -> bool>(&self, hit: F) -> (found: Vec<usize>)
        requires
            forall|b: &AABB| call_requires(hit, (b,)),
        ensures
            found@.no_duplicates(),
            forall|k: int| 0 <= k < found@.len() ==> (#[trigger] found@[k]) < self.items().len(),
            self.candidates(sure_hit(hit)).subset_of(found@.to_set()),
            found@.to_set().subset_of(self.candidates(may_hit(hit))),
    {
        broadcast use vstd::seq_lib::group_seq_properties;

        proof {
            use_type_invariant(self);
        }
        let mut found: Vec<usize> = Vec::new();
        let mut seen: HashSet<usize> = HashSet::new();
        let enter = match &self.root {
            KDtreeNode::Leaf { space, .. } => hit(space),
            KDtreeNode::Node { .. } => true,
        };
        proof {
            assert(seen@ =~= found@.to_set());
        }
        if enter {
            collect(&self.root, &hit, &mut seen, &mut found);
        }
        proof {
            assert forall|k: int| 0 <= k < found@.len() implies (#[trigger] found@[k])
                < self.items().len() by {
                assert(found@.contains(found@[k]));
                lemma_reach_within(self.root, may_hit(hit), found@[k]);
            }
        }
        found
    }
}

impl BoundingBox for KDtree {
    /// The hull of the indexed items.
    fn bounding_box(&self) -> (b: AABB)
        ensures
            b == self.space(),
    {
        self.space
    }
}

/// A walk finds only items that the subtree holds.
pub proof fn lemma_reach_within(node: KDtreeNode, test: spec_fn(AABB) -> bool, id: usize)
    requires
        node.reach(test).contains(id),
    ensures
        node.ids().contains(id),
    decreases node,
{
    match node {
        KDtreeNode::Leaf { .. } => {},
        KDtreeNode::Node { left_space, left_node, right_space, right_node } => {
            if test(right_space) && right_node.reach(test).contains(id) {
                lemma_reach_within(*right_node, test, id);
            } else {
                lemma_reach_within(*left_node, test, id);
            }
        },
    }
}

/// Walks the subtree and adds the items it finds to `found`, skipping those
/// that `seen` already holds.
fn collect<F: Fn(&AABB) -> bool>(
    node: &KDtreeNode,
    hit: &F,
    seen: &mut HashSet<usize>,
    found: &mut Vec<usize>,
)
    requires
        forall|b: &AABB| call_requires(*hit, (b,)),
        old(found)@.no_duplicates(),
        old(seen)@ == old(found)@.to_set(),
    ensures
        final(found)@.no_duplicates(),
        final(seen)@ == final(found)@.to_set(),
        forall|id: usize|
            old(found)@.contains(id) || node.reach(sure_hit(*hit)).contains(id)
                ==> final(found)@.contains(id),
        forall|id: usize|
            final(found)@.contains(id) ==> old(found)@.contains(id) || node.reach(
                may_hit(*hit),
            ).contains(id),
    decreases node,
{
    broadcast use vstd::seq_lib::group_seq_properties;

    match node {
        KDtreeNode::Leaf { items, .. } => {
            let mut k: usize = 0;
            while k < items.len()
                invariant
                    k <= items@.len(),
                    found@.no_duplicates(),
                    seen@ == found@.to_set(),
                    forall|id: usize|
                        old(found)@.contains(id) || items@.take(k as int).contains(id)
                            ==> found@.contains(id),
                    forall|id: usize|
                        found@.contains(id) ==> old(found)@.contains(id) || items@.contains(id),
                decreases items.len() - k,
            {
                let id = items[k];
                let ghost before = found@;
                if seen.insert(id) {
                    found.push(id);
                }
                proof {
                    assert(items@.take(k + 1) =~= items@.take(k as int).push(id));
                    before.lemma_push_to_set_commute(id);
                    assert(seen@ =~= found@.to_set());
                    assert(found@.to_set().contains(id));
                    assert(found@.contains(id));
                    assert forall|x: usize| before.contains(x) implies found@.contains(x) by {
                        let j = choose|j: int| 0 <= j < before.len() && before[j] == x;
                        assert(found@[j] == x);
                    }
                    assert forall|x: usize| items@.take(k + 1).contains(x) implies items@.take(
                        k as int,
                    ).contains(x) || x == id by {
                        let longer = items@.take(k + 1);
                        let j = choose|j: int| 0 <= j < longer.len() && longer[j] == x;
                        if j < k {
                            assert(items@.take(k as int)[j] == x);
                        }
                    }
                    assert forall|x: usize|
                        old(found)@.contains(x) || items@.take(k + 1).contains(x) implies found@.contains(
                        x,
                    ) by {
                        if x != id {
                            assert(old(found)@.contains(x) || items@.take(k as int).contains(x));
                            assert(before.contains(x));
                        }
                    }
                    assert forall|x: usize| found@.contains(x) implies before.contains(x) || x
                        == id by {
                        let j = choose|j: int| 0 <= j < found@.len() && found@[j] == x;
                        if j < before.len() {
                            assert(before[j] == x);
                        }
                    }
                }
                k += 1;
            }
            proof {
                assert(items@.take(k as int) =~= items@);
            }
        },
        KDtreeNode::Node { left_space, left_node, right_space, right_node } => {
            if hit(right_space) {
                collect(right_node, hit, seen, found);
            }
            if hit(left_space) {
                collect(left_node, hit, seen, found);
            }
        },
    }
}

/// A query misses nothing.  Let `q` be a point of item `i`'s box, and let
/// `test` accept every box that holds `q`, as the test of any ray through `q`
/// does.  Then `i` is among the candidates.
pub proof fn lemma_candidates_complete(
    tree: KDtree,
    test: spec_fn(AABB) -> bool,
    q: Point,
    i: usize,
)
    requires
        tree.wf(),
        i < tree.items().len(),
        tree.items()[i as int].contains(q),
        forall|b: AABB| b.contains(q) ==> #[trigger] test(b),
    ensures
        tree.candidates(test).contains(i),
{
    lemma_hull_encloses(tree.items(), i as int);
    lemma_reach_complete(tree.root(), tree.items(), tree.space(), test, q, i);
}

/// Below a node that covers `space`, a walk reaches each item that has a
/// point `q` in `space`, provided `test` accepts every box that holds `q`.
pub proof fn lemma_reach_complete(
    node: KDtreeNode,
    bounds: Seq<AABB>,
    space: AABB,
    test: spec_fn(AABB) -> bool,
    q: Point,
    i: usize,
)
    requires
        node.covers(bounds, space),
        node.ids().contains(i),
        bounds[i as int].contains(q),
        space.contains(q),
        forall|b: AABB| b.contains(q) ==> #[trigger] test(b),
    ensures
        node.reach(test).contains(i),
    decreases node,
{
    match node {
        KDtreeNode::Leaf { .. } => {},
        KDtreeNode::Node { left_space, left_node, right_space, right_node } => {
            if left_space.contains(q) && left_node.ids().contains(i) {
                lemma_reach_complete(*left_node, bounds, left_space, test, q, i);
            } else {
                lemma_reach_complete(*right_node, bounds, right_space, test, q, i);
            }
        },
    }
}

/// A query names only indexed items; over no items it names none.
pub proof fn lemma_candidates_indexed(tree: KDtree, test: spec_fn(AABB) -> bool, i: usize)
    requires
        tree.wf(),
        tree.candidates(test).contains(i),
    ensures
        i < tree.items().len(),
{
    match tree.root() {
        KDtreeNode::Leaf { .. } => {},
        KDtreeNode::Node { .. } => {
            lemma_reach_within(tree.root(), test, i);
        },
    }
}

} // verus!
