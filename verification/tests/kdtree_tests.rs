use pathtracer::aabb::{Axis, BoundingBox, Point, Slab, AABB};
use pathtracer::kdtree::{cheaper, partition, KDtree, Partition};
use pathtracer::keys::{bits_of_key, cost_key, key_of_bits};

fn key(x: f32) -> i64 {
    key_of_bits(x.to_bits())
}

fn unkey(k: i64) -> f32 {
    f32::from_bits(bits_of_key(k))
}

fn float_box(min: [f32; 3], max: [f32; 3]) -> AABB {
    AABB::new(
        Point::new(key(min[0]), key(min[1]), key(min[2])),
        Point::new(key(max[0]), key(max[1]), key(max[2])),
    )
}

fn volume(b: &AABB) -> f32 {
    ((unkey(b.min.x) - unkey(b.max.x))
        * (unkey(b.min.y) - unkey(b.max.y))
        * (unkey(b.min.z) - unkey(b.max.z)))
    .abs()
}

type SplitCost = fn(&AABB, Axis, i64, usize, usize) -> Option<u64>;
type LeafCost = fn(usize) -> u64;

/// The surface-area heuristic with a traversal cost of 15 and an
/// intersection cost of 20.
fn sah_split(space: &AABB, axis: Axis, value: i64, n_left: usize, n_right: usize) -> Option<u64> {
    let (low, high) = space.split(axis, value);
    let (vol_l, vol_r, vol) = (volume(&low), volume(&high), volume(space));
    if vol == 0. || vol_l == 0. || vol_r == 0. {
        return None;
    }
    let factor = if n_left == 0 || n_right == 0 { 0.8 } else { 1. };
    let cost = factor * (15. + 20. * (vol_l / vol * n_left as f32 + vol_r / vol * n_right as f32));
    cost_key(cost.to_bits())
}

fn sah_leaf(n_items: usize) -> u64 {
    cost_key((20. * n_items as f32).to_bits()).unwrap()
}

/// Always cuts, wherever it is asked.
fn eager_split(_: &AABB, _: Axis, _: i64, _: usize, _: usize) -> Option<u64> {
    Some(0)
}

fn eager_leaf(_: usize) -> u64 {
    u64::MAX
}

/// Never cuts.
fn lazy_split(_: &AABB, _: Axis, _: i64, _: usize, _: usize) -> Option<u64> {
    None
}

fn lazy_leaf(_: usize) -> u64 {
    0
}

/// Allows every cut but finds every leaf cheaper.
fn dear_split(_: &AABB, _: Axis, _: i64, _: usize, _: usize) -> Option<u64> {
    Some(5)
}

fn dear_leaf(_: usize) -> u64 {
    4
}

const SAH: (SplitCost, LeafCost) = (sah_split, sah_leaf);
const EAGER: (SplitCost, LeafCost) = (eager_split, eager_leaf);
const LAZY: (SplitCost, LeafCost) = (lazy_split, lazy_leaf);
const DEAR: (SplitCost, LeafCost) = (dear_split, dear_leaf);

fn build(boxes: &Vec<AABB>, prices: (SplitCost, LeafCost)) -> KDtree {
    KDtree::new(boxes, prices.0, prices.1)
}

struct Rng(u64);

impl Rng {
    fn next(&mut self) -> f32 {
        self.0 = self.0.wrapping_mul(6364136223846793005).wrapping_add(1442695040888963407);
        ((self.0 >> 40) as f32) / ((1u64 << 24) as f32)
    }
}

fn ray_hits(b: &AABB, origin: [f32; 3], direction: [f32; 3]) -> bool {
    let slab = |lo: i64, hi: i64, o: f32, d: f32| {
        let (a, b) = ((unkey(lo) - o) / d, (unkey(hi) - o) / d);
        Slab {
            at_min: if a.is_nan() { key(f32::NEG_INFINITY) } else { key(a) },
            at_max: if b.is_nan() { key(f32::INFINITY) } else { key(b) },
        }
    };
    AABB::intersect(
        slab(b.min.x, b.max.x, origin[0], direction[0]),
        slab(b.min.y, b.max.y, origin[1], direction[1]),
        slab(b.min.z, b.max.z, origin[2], direction[2]),
    )
}

fn random_boxes(rng: &mut Rng, n: usize) -> Vec<AABB> {
    let mut boxes = Vec::new();
    for _ in 0..n {
        let c = [rng.next() * 20. - 10., rng.next() * 20. - 10., rng.next() * 20. - 10.];
        let r = [rng.next() * 2., rng.next() * 2., rng.next() * 2.];
        boxes.push(float_box([c[0] - r[0], c[1] - r[1], c[2] - r[2]], [c[0] + r[0], c[1] + r[1], c[2] + r[2]]));
    }
    boxes
}

fn sorted(mut v: Vec<usize>) -> Vec<usize> {
    v.sort();
    v
}

fn check_complete(prices: (SplitCost, LeafCost), seed: u64) {
    let mut rng = Rng(seed);
    let boxes = random_boxes(&mut rng, 60);
    let tree = build(&boxes, prices);
    assert_eq!(tree.len(), boxes.len());
    for _ in 0..200 {
        let origin = [rng.next() * 30. - 15., rng.next() * 30. - 15., rng.next() * 30. - 15.];
        let direction = [rng.next() * 2. - 1., rng.next() * 2. - 1., rng.next() * 2. - 1.];
        let found = tree.intersect(|b: &AABB| ray_hits(b, origin, direction));
        let unique = sorted(found.clone());
        for pair in unique.windows(2) {
            assert_ne!(pair[0], pair[1]);
        }
        for (i, b) in boxes.iter().enumerate() {
            if ray_hits(b, origin, direction) {
                assert!(found.contains(&i));
            }
        }
        for i in found {
            assert!(i < boxes.len());
        }
    }
}

#[test]
fn kdtree_hit() {
    // Every ray aimed at the middle of a triangle finds candidates.
    let mut rng = Rng(7);
    let mut bounds = Vec::new();
    let mut rays = Vec::new();
    for _ in 0..40 {
        let mut corners = Vec::new();
        for _ in 0..3 {
            corners.push([rng.next() * 10. - 5., rng.next() * 10. - 5., rng.next() * 10. - 5.]);
        }
        let corner = |c: &[f32; 3]| Point::new(key(c[0]), key(c[1]), key(c[2]));
        bounds.push(AABB::of_triangle(&corner(&corners[0]), &corner(&corners[1]), &corner(&corners[2])));
        let middle = [
            (corners[0][0] + corners[1][0] + corners[2][0]) / 3.,
            (corners[0][1] + corners[1][1] + corners[2][1]) / 3.,
            (corners[0][2] + corners[1][2] + corners[2][2]) / 3.,
        ];
        let origin = [rng.next() * 40. - 20., rng.next() * 40. - 20., 30.];
        rays.push((origin, [middle[0] - origin[0], middle[1] - origin[1], middle[2] - origin[2]]));
    }
    let tree = build(&bounds, SAH);
    for (n, (origin, direction)) in rays.iter().enumerate() {
        let found = tree.intersect(|b: &AABB| ray_hits(b, *origin, *direction));
        assert!(!found.is_empty());
        assert!(found.contains(&n));
    }
}

#[test]
fn query_finds_all_that_a_scan_finds_with_the_area_heuristic() {
    check_complete(SAH, 1);
    check_complete(SAH, 2);
}

#[test]
fn query_finds_all_that_a_scan_finds_whatever_the_costs() {
    check_complete(EAGER, 3);
    check_complete(LAZY, 4);
    check_complete(DEAR, 5);
}

#[test]
fn empty_tree_yields_no_candidates() {
    let tree = build(&Vec::new(), SAH);
    assert_eq!(tree.len(), 0);
    assert!(tree.intersect(|_: &AABB| true).is_empty());
    assert_eq!(tree.bounding_box(), AABB::empty());
}

#[test]
fn tree_bound_is_the_hull_of_its_items() {
    let boxes = vec![
        AABB::new(Point::new(0, 0, 0), Point::new(2, 2, 2)),
        AABB::new(Point::new(-4, 1, 1), Point::new(1, 9, 2)),
        AABB::new(Point::new(1, 1, -6), Point::new(3, 2, 0)),
    ];
    let tree = build(&boxes, EAGER);
    assert_eq!(tree.bounding_box(), AABB::new(Point::new(-4, 0, -6), Point::new(3, 9, 2)));
    assert_eq!(tree.item_bound(1), boxes[1]);
    assert_eq!(tree.len(), 3);
}

#[test]
fn a_test_that_accepts_everything_returns_every_item_once() {
    let mut rng = Rng(11);
    let boxes = random_boxes(&mut rng, 80);
    for tree in [build(&boxes, SAH), build(&boxes, EAGER), build(&boxes, LAZY)] {
        let found = sorted(tree.intersect(|_: &AABB| true));
        assert_eq!(found, (0..boxes.len()).collect::<Vec<usize>>());
    }
}

#[test]
fn a_test_that_refuses_everything_returns_nothing() {
    let mut rng = Rng(12);
    let boxes = random_boxes(&mut rng, 30);
    for tree in [build(&boxes, SAH), build(&boxes, EAGER), build(&boxes, LAZY)] {
        assert!(tree.intersect(|_: &AABB| false).is_empty());
    }
}

#[test]
fn a_single_leaf_is_guarded_by_its_own_box() {
    let boxes = vec![AABB::new(Point::new(0, 0, 0), Point::new(2, 2, 2)), AABB::new(Point::new(5, 5, 5), Point::new(6, 6, 6))];
    let tree = build(&boxes, LAZY);
    let whole = tree.bounding_box();
    assert_eq!(sorted(tree.intersect(|b: &AABB| *b == whole)), vec![0, 1]);
    assert!(tree.intersect(|b: &AABB| *b != whole).is_empty());
}

#[test]
fn separated_items_are_told_apart() {
    let boxes = vec![
        AABB::new(Point::new(0, 0, 0), Point::new(10, 10, 10)),
        AABB::new(Point::new(100, 0, 0), Point::new(110, 10, 10)),
    ];
    let tree = build(&boxes, EAGER);
    let near_first = |b: &AABB| b.holds(&Point::new(5, 5, 5));
    let near_second = |b: &AABB| b.holds(&Point::new(105, 5, 5));
    assert_eq!(tree.intersect(near_first), vec![0]);
    assert_eq!(tree.intersect(near_second), vec![1]);
}

#[test]
fn partition_cuts_strictly_inside_the_node() {
    let bounds = vec![
        AABB::new(Point::new(0, 0, 0), Point::new(4, 10, 10)),
        AABB::new(Point::new(6, 0, 0), Point::new(10, 10, 10)),
    ];
    let space = AABB::new(Point::new(0, 0, 0), Point::new(10, 10, 10));
    let found = partition(&bounds, &vec![0, 1], &space, &EAGER.0);
    let p = found.unwrap();
    assert_eq!(p.axis, Axis::X);
    assert_eq!(p.events.len(), 4);
    assert_eq!(p.events[p.best].value, 4);
    assert_eq!(p.cost, 0);
}

#[test]
fn partition_offers_no_plane_on_the_faces_of_the_node() {
    let bounds = vec![AABB::new(Point::new(0, 0, 0), Point::new(10, 10, 10))];
    let space = AABB::new(Point::new(0, 0, 0), Point::new(10, 10, 10));
    assert!(partition(&bounds, &vec![0], &space, &EAGER.0).is_none());
    assert!(partition(&bounds, &Vec::new(), &space, &EAGER.0).is_none());
}

#[test]
fn partition_follows_the_model() {
    let bounds = vec![
        AABB::new(Point::new(0, 0, 0), Point::new(4, 10, 10)),
        AABB::new(Point::new(6, 0, 0), Point::new(10, 10, 10)),
    ];
    let space = AABB::new(Point::new(0, 0, 0), Point::new(10, 10, 10));
    assert!(partition(&bounds, &vec![0, 1], &space, &LAZY.0).is_none());
}

fn cut(cost: u64, best: usize) -> Option<Partition> {
    Some(Partition { axis: Axis::Y, events: Vec::new(), best, cost })
}

#[test]
fn cheaper_keeps_the_first_on_a_tie() {
    assert_eq!(cheaper(cut(5, 1), cut(5, 2)).unwrap().best, 1);
    assert_eq!(cheaper(cut(5, 1), cut(4, 2)).unwrap().best, 2);
    assert_eq!(cheaper(cut(5, 1), cut(6, 2)).unwrap().best, 1);
    assert_eq!(cheaper(None, cut(6, 2)).unwrap().best, 2);
    assert_eq!(cheaper(cut(6, 2), None).unwrap().best, 2);
    assert!(cheaper(None, None).is_none());
}

#[test]
fn the_cheapest_plane_wins() {
    // Three items in a row along x; the price of a plane is its distance from x = 20.
    let bounds = vec![
        AABB::new(Point::new(0, 0, 0), Point::new(8, 10, 10)),
        AABB::new(Point::new(12, 0, 0), Point::new(18, 10, 10)),
        AABB::new(Point::new(22, 0, 0), Point::new(30, 10, 10)),
    ];
    let space = AABB::new(Point::new(0, 0, 0), Point::new(30, 10, 10));
    let near_twenty = |_: &AABB, _: Axis, value: i64, _: usize, _: usize| Some((value - 20).unsigned_abs());
    let p = partition(&bounds, &vec![0, 1, 2], &space, &near_twenty).unwrap();
    assert_eq!(p.axis, Axis::X);
    // Planes 18 and 22 cost the same; 18 is met first.
    assert_eq!(p.events[p.best].value, 18);
    assert_eq!(p.cost, 2);
}

#[test]
fn counts_of_both_sides_are_handed_to_the_price() {
    let bounds = vec![
        AABB::new(Point::new(0, 0, 0), Point::new(8, 10, 10)),
        AABB::new(Point::new(12, 0, 0), Point::new(18, 10, 10)),
        AABB::new(Point::new(22, 0, 0), Point::new(30, 10, 10)),
    ];
    let space = AABB::new(Point::new(0, 0, 0), Point::new(30, 10, 10));
    // Price a plane by how unevenly it divides the items.
    let balance = |_: &AABB, _: Axis, _: i64, n_left: usize, n_right: usize| Some(n_left.abs_diff(n_right) as u64);
    let p = partition(&bounds, &vec![0, 1, 2], &space, &balance).unwrap();
    // At x = 12 two items have started and two end beyond.
    assert_eq!(p.cost, 0);
    assert_eq!(p.events[p.best].value, 12);
    // Price only the planes that have two items on the low side.
    let two_left = |_: &AABB, _: Axis, _: i64, n_left: usize, n_right: usize| {
        if n_left == 2 { Some(n_right as u64) } else { None }
    };
    let p = partition(&bounds, &vec![0, 1, 2], &space, &two_left).unwrap();
    assert_eq!(p.cost, 1);
    assert_eq!(p.events[p.best].value, 18);
}

#[test]
fn a_node_is_kept_whole_where_that_is_cheaper() {
    let boxes = vec![
        AABB::new(Point::new(0, 0, 0), Point::new(10, 10, 10)),
        AABB::new(Point::new(100, 0, 0), Point::new(110, 10, 10)),
    ];
    let whole = AABB::new(Point::new(0, 0, 0), Point::new(110, 10, 10));
    let tree = build(&boxes, DEAR);
    // One leaf: the only box that is ever tested is the hull.
    assert!(tree.intersect(|b: &AABB| *b != whole).is_empty());
    assert_eq!(sorted(tree.intersect(|b: &AABB| *b == whole)), vec![0, 1]);
    let tree = build(&boxes, EAGER);
    // Cut: the hull itself is never tested.
    assert_eq!(sorted(tree.intersect(|b: &AABB| *b != whole)), vec![0, 1]);
}

#[test]
fn identical_boxes_end_in_one_leaf() {
    let boxes = vec![AABB::new(Point::new(0, 0, 0), Point::new(5, 5, 5)); 20];
    for prices in [SAH, EAGER, LAZY, DEAR] {
        let tree = build(&boxes, prices);
        assert_eq!(sorted(tree.intersect(|_: &AABB| true)), (0..20).collect::<Vec<usize>>());
        // No face passes inside the hull, so nothing is ever cut.
        let hull = tree.bounding_box();
        assert!(tree.intersect(|b: &AABB| *b != hull).is_empty());
    }
}

#[test]
fn flat_and_extreme_boxes_are_indexed_too() {
    let boxes = vec![
        AABB::new(Point::new(i64::MIN, 0, 0), Point::new(i64::MAX, 0, 0)),
        AABB::new(Point::new(0, i64::MIN, -1), Point::new(0, i64::MAX, 1)),
        AABB::new(Point::new(3, 3, 3), Point::new(3, 3, 3)),
        AABB::new(Point::new(-7, -7, i64::MIN), Point::new(7, 7, i64::MIN)),
    ];
    for prices in [EAGER, LAZY, DEAR] {
        let tree = build(&boxes, prices);
        assert_eq!(sorted(tree.intersect(|_: &AABB| true)), vec![0, 1, 2, 3]);
        for (i, item) in boxes.iter().enumerate() {
            let through = item.min;
            let found = tree.intersect(|b: &AABB| b.holds(&through));
            assert!(found.contains(&i));
        }
    }
}

#[test]
fn a_tree_cut_to_the_end_tells_a_grid_apart() {
    let mut boxes = Vec::new();
    for x in 0..4 {
        for y in 0..4 {
            for z in 0..4 {
                boxes.push(AABB::new(
                    Point::new(10 * x, 10 * y, 10 * z),
                    Point::new(10 * x + 6, 10 * y + 6, 10 * z + 6),
                ));
            }
        }
    }
    let tree = build(&boxes, EAGER);
    for (i, item) in boxes.iter().enumerate() {
        let middle = Point::new(item.min.x + 3, item.min.y + 3, item.min.z + 3);
        assert_eq!(tree.intersect(|b: &AABB| b.holds(&middle)), vec![i]);
    }
}

struct Ball {
    center: Point,
    radius: i64,
}

impl BoundingBox for Ball {
    fn bounding_box(&self) -> AABB {
        AABB::new(
            Point::new(self.center.x - self.radius, self.center.y - self.radius, self.center.z - self.radius),
            Point::new(self.center.x + self.radius, self.center.y + self.radius, self.center.z + self.radius),
        )
    }
}

#[test]
fn a_tree_over_values_of_the_callers_own_type() {
    let balls = vec![Ball { center: Point::new(0, 0, 0), radius: 2 }, Ball { center: Point::new(9, 9, 9), radius: 1 }];
    let tree = KDtree::new(&balls, lazy_split, lazy_leaf);
    assert_eq!(tree.len(), 2);
    assert_eq!(tree.item_bound(0), AABB::new(Point::new(-2, -2, -2), Point::new(2, 2, 2)));
    assert_eq!(tree.bounding_box(), AABB::new(Point::new(-2, -2, -2), Point::new(10, 10, 10)));
}

#[test]
fn each_plane_is_priced_with_the_items_on_its_two_sides() {
    // Two items, [0, 2] and [1, 3], in a node [0, 3].  The price tells the
    // plane and the two counts apart.
    let bounds = vec![
        AABB::new(Point::new(0, 0, 0), Point::new(2, 1, 1)),
        AABB::new(Point::new(1, 0, 0), Point::new(3, 1, 1)),
    ];
    let space = AABB::new(Point::new(0, 0, 0), Point::new(3, 1, 1));
    let telling = |_: &AABB, _: Axis, value: i64, n_left: usize, n_right: usize| {
        Some(100 * value as u64 + 10 * n_left as u64 + n_right as u64)
    };
    let p = partition(&bounds, &vec![0, 1], &space, &telling).unwrap();
    assert_eq!(p.axis, Axis::X);
    assert_eq!(p.events[p.best].value, 1);
    assert_eq!(p.cost, 122);
    let only_two = |_: &AABB, _: Axis, value: i64, n_left: usize, n_right: usize| {
        if value == 2 { Some(100 * value as u64 + 10 * n_left as u64 + n_right as u64) } else { None }
    };
    let p = partition(&bounds, &vec![0, 1], &space, &only_two).unwrap();
    assert_eq!(p.events[p.best].value, 2);
    assert_eq!(p.cost, 221);
}
