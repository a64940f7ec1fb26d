//! Collecting what a ray meets, nearest first.

use vstd::prelude::*;
use crate::aabb::AABB;
use crate::kdtree::{may_hit, sure_hit, KDtree};
use crate::order::{is_stable_sort, sorted_by_key, stable_sort, Keyed};

verus! {

/// Something found along a ray: the indexed item it belongs to, what was
/// found (`value`), and the distance from the ray's origin as an order key.
#[derive(Debug)]
pub struct Ranked<T> {
    pub key: i64,
    pub item: usize,
    pub value: T,
}

impl<T: Copy> Clone for Ranked<T> {
    fn clone(&self) -> (copy: Self)
        ensures
            copy == *self,
    {
        *self
    }
}

impl<T: Copy> Copy for Ranked<T> {

}

impl<T> Keyed for Ranked<T> {
    open spec fn key(&self) -> i64 {
        self.key
    }

    fn sort_key(&self) -> (k: i64) {
        self.key
    }
}

/// The hits of one item, each marked with the item's index.
pub open spec fn tagged<T>(item: usize, hits: Seq<(i64, T)>) -> Seq<Ranked<T>> {
    hits.map_values(|h: (i64, T)| Ranked { key: h.0, item, value: h.1 })
}

/// The hits of the items `found`, item after item, where `outs[k]` holds the
/// hits of item `found[k]`.
pub open spec fn gathered<T>(found: Seq<usize>, outs: Seq<Vec<(i64, T)>>) -> Seq<Ranked<T>>
    decreases found.len(),
{
    if found.len() == 0 || outs.len() == 0 {
        Seq::empty()
    } else {
        gathered(found.drop_last(), outs.drop_last()) + tagged(found.last(), outs.last()@)
    }
}

/// `found` is a valid answer of the tree to the box test `hit`, and
/// `outs[k]` is an answer of `intersect` for the item `found[k]`.
pub open spec fn is_cast<T, F: Fn(&AABB) -> bool, M: Fn(usize) -> Vec<(i64, T)>>(
    tree: KDtree,
    hit: F,
    intersect: M,
    found: Seq<usize>,
    outs: Seq<Vec<(i64, T)>>,
) -> bool {
    &&& found.no_duplicates()
    &&& tree.candidates(sure_hit(hit)).subset_of(found.to_set())
    &&& found.to_set().subset_of(tree.candidates(may_hit(hit)))
    &&& outs.len() == found.len()
    &&& forall|k: int| 0 <= k < found.len() ==> call_ensures(intersect, (found[k],), #[trigger] outs[k])
}

/// Tests every item that the tree proposes for a ray and lists all hits,
/// candidate after candidate.
///
/// `hit` tells whether the ray passes through a box; `intersect` gives the
/// hits of the ray on one item, each with its distance key.
pub fn gather<T: Copy, F: Fn(&AABB) -> bool, M: Fn(usize) -> Vec<(i64, T)>>(
    tree: &KDtree,
    hit: F,
    intersect: M,
) -> (hits: Vec<Ranked<T>>)
    requires
        forall|b: &AABB| call_requires(hit, (b,)),
        forall|i: usize| i < tree.items().len() ==> call_requires(intersect, (i,)),
    ensures
        exists|found: Seq<usize>, outs: Seq<Vec<(i64, T)>>| #[trigger]
            is_cast(*tree, hit, intersect, found, outs) && hits@ == gathered(found, outs),
{
    let found = tree.intersect(hit);
    let mut hits: Vec<Ranked<T>> = Vec::new();
    let ghost mut outs: Seq<Vec<(i64, T)>> = Seq::empty();
    let mut k: usize = 0;
    proof {
        assert(found@.take(0) =~= Seq::<usize>::empty());
    }
    while k < found.len()
        invariant
            k <= found@.len(),
            outs.len() == k,
            forall|i: usize| i < tree.items().len() ==> call_requires(intersect, (i,)),
            forall|j: int| 0 <= j < found@.len() ==> (#[trigger] found@[j]) < tree.items().len(),
            forall|j: int| 0 <= j < k ==> call_ensures(intersect, (found@[j],), #[trigger] outs[j]),
            hits@ == gathered(found@.take(k as int), outs),
        decreases found.len() - k,
    {
        let item = found[k];
        let out = intersect(item);
        let ghost before = hits@;
        let mut j: usize = 0;
        proof {
            assert(out@.take(0) =~= Seq::<(i64, T)>::empty());
            assert(hits@ =~= before + tagged(item, out@.take(0)));
        }
        while j < out.len()
            invariant
                j <= out@.len(),
                hits@ == before + tagged(item, out@.take(j as int)),
            decreases out.len() - j,
        {
            let h = out[j];
            hits.push(Ranked { key: h.0, item, value: h.1 });
            proof {
                assert(out@.take(j + 1) =~= out@.take(j as int).push(h));
                assert(hits@ =~= before + tagged(item, out@.take(j + 1)));
            }
            j += 1;
        }
        proof {
            assert(out@.take(j as int) =~= out@);
            let longer = found@.take(k + 1);
            assert(longer.drop_last() =~= found@.take(k as int));
            assert(outs.push(out).drop_last() =~= outs);
            outs = outs.push(out);
        }
        k += 1;
    }
    proof {
        assert(found@.take(k as int) =~= found@);
        assert(is_cast(*tree, hit, intersect, found@, outs));
    }
    hits
}

/// All hits of a ray in a scene, sorted by distance, nearest first.  Hits at
/// equal distance stand in the order in which they were found.
pub fn ray_cast<T: Copy, F: Fn(&AABB) -> bool, M: Fn(usize) -> Vec<(i64, T)>>(
    tree: &KDtree,
    hit: F,
    intersect: M,
) -> (hits: Vec<Ranked<T>>)
    requires
        forall|b: &AABB| call_requires(hit, (b,)),
        forall|i: usize| i < tree.items().len() ==> call_requires(intersect, (i,)),
    ensures
        sorted_by_key(hits@),
        exists|found: Seq<usize>, outs: Seq<Vec<(i64, T)>>| #[trigger]
            is_cast(*tree, hit, intersect, found, outs) && is_stable_sort(
                hits@,
                gathered(found, outs),
            ),
{
    let mut hits = gather(tree, hit, intersect);
    stable_sort(&mut hits);
    hits
}

/// Finds the surface that a ray interacts with among `count` hits, nearest
/// first.  `adopts` tells whether a hit is taken as opaque; a hit that is not
/// lets the ray through to the next.  `None` means that the ray passed
/// through every hit.
pub fn resolve_alpha<F: Fn(usize) -> bool>(count: usize, adopts: F) -> (surface: Option<usize>)
    requires
        forall|k: usize| k < count ==> call_requires(adopts, (k,)),
    ensures
        surface matches Some(k) ==> k < count && call_ensures(adopts, (k,), true) && forall|
            j: usize,
        | j < k ==> call_ensures(adopts, (j,), false),
        surface is None ==> forall|j: usize| j < count ==> call_ensures(adopts, (j,), false),
{
    let mut k: usize = 0;
    while k < count
        invariant
            k <= count,
            forall|k: usize| k < count ==> call_requires(adopts, (k,)),
            forall|j: usize| j < k ==> call_ensures(adopts, (j,), false),
        decreases count - k,
    {
        if adopts(k) {
            return Some(k);
        }
        k += 1;
    }
    None
}

/// How many of the leading `keys` do not exceed `limit`.
pub open spec fn leading_within(keys: Seq<i64>, limit: i64) -> nat
    decreases keys.len(),
{
    if keys.len() == 0 || keys[0] > limit {
        0
    } else {
        1 + leading_within(keys.drop_first(), limit)
    }
}

/// Counts the occluders that stand between a surface and a light.
///
/// `dists` are the distances of the occluders from the surface, nearest
/// first, and `light` is the distance of the light.  The count stops at the
/// first occluder beyond the light; it and all after it cast no shadow.
pub fn occluders_before(dists: &Vec<i64>, light: i64) -> (n: usize)
    ensures
        n == leading_within(dists@, light),
        n <= dists@.len(),
        forall|j: int| 0 <= j < n ==> dists@[j] <= light,
        n < dists@.len() ==> dists@[n as int] > light,
{
    let mut n: usize = 0;
    proof {
        assert(dists@.skip(0) =~= dists@);
    }
    while n < dists.len() && dists[n] <= light
        invariant
            n <= dists@.len(),
            forall|j: int| 0 <= j < n ==> dists@[j] <= light,
            leading_within(dists@, light) == n + leading_within(dists@.skip(n as int), light),
        decreases dists.len() - n,
    {
        proof {
            assert(dists@.skip(n as int).drop_first() =~= dists@.skip(n + 1));
        }
        n += 1;
    }
    n
}

/// Which crossings of a ray with a sphere count as hits.
#[derive(Copy, Clone, Debug, PartialEq, Eq, Structural)]
pub enum Crossings {
    /// The sphere lies behind the ray's origin: no hit.
    Behind,
    /// The origin is inside the sphere: the far crossing alone, seen from
    /// within.
    Inside,
    /// Both crossings lie ahead: the near one, then the far one.
    Ahead,
}

/// Tells the hits of a ray on a sphere from the two ray parameters at which
/// the ray's line crosses the sphere, `near` not after `far`; `origin` is the
/// parameter of the ray's origin.  All three are order keys.
pub fn sphere_crossings(near: i64, far: i64, origin: i64) -> (hits: Crossings)
    requires
        near <= far,
    ensures
        hits == if far < origin {
            Crossings::Behind
        } else if near < origin {
            Crossings::Inside
        } else {
            Crossings::Ahead
        },
{
    if far < origin {
        Crossings::Behind
    } else if near < origin {
        Crossings::Inside
    } else {
        Crossings::Ahead
    }
}

} // verus!
