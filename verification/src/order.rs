//! Stable sorting of records by an integer key.

use vstd::prelude::*;
use vstd::multiset::*;
use vstd::seq_lib::*;

verus! {

/// A record that is ordered by an integer key.
pub trait Keyed {
    /// The key, as a mathematical value.
    spec fn key(&self) -> i64;

    /// The key by which the record is ordered.
    fn sort_key(&self) -> (k: i64)
        ensures
            k == self.key(),
    ;
}

/// Keys never decrease from one record to the next.
pub open spec fn sorted_by_key<T: Keyed>(s: Seq<T>) -> bool {
    forall|i: int, j: int| 0 <= i <= j < s.len() ==> s[i].key() <= s[j].key()
}

/// The records of `s` whose key is `k`, in the order in which they stand in `s`.
pub open spec fn with_key<T: Keyed>(s: Seq<T>, k: i64) -> Seq<T> {
    s.filter(key_is(k))
}

/// The test "has key `k`".
pub open spec fn key_is<T: Keyed>(k: i64) -> spec_fn(T) -> bool {
    |e: T| e.key() == k
}

/// `out` holds the records of `inp` in ascending key order, and records with
/// equal keys stand in `out` in the order they had in `inp`.
pub open spec fn is_stable_sort<T: Keyed>(out: Seq<T>, inp: Seq<T>) -> bool {
    &&& sorted_by_key(out)
    &&& out.to_multiset() == inp.to_multiset()
    &&& forall|k: i64| #[trigger] with_key(out, k) == with_key(inp, k)
}

proof fn lemma_with_key_push<T: Keyed>(s: Seq<T>, e: T, k: i64)
    ensures
        with_key(s.push(e), k) == if e.key() == k {
            with_key(s, k).push(e)
        } else {
            with_key(s, k)
        },
{
    s.lemma_filter_push(e, key_is(k));
}

proof fn lemma_with_key_none<T: Keyed>(s: Seq<T>, k: i64)
    requires
        forall|i: int| 0 <= i < s.len() ==> s[i].key() != k,
    ensures
        with_key(s, k) == Seq::<T>::empty(),
    decreases s.len(),
{
    if s.len() == 0 {
        s.lemma_filter_len(key_is(k));
        assert(with_key(s, k) =~= Seq::<T>::empty());
    } else {
        lemma_with_key_none(s.drop_last(), k);
        lemma_with_key_push(s.drop_last(), s.last(), k);
        assert(s.drop_last().push(s.last()) =~= s);
    }
}

/// A record stands in a stable sort's output exactly if it stands in its input.
pub proof fn lemma_sort_keeps_records<T: Keyed>(out: Seq<T>, inp: Seq<T>, e: T)
    requires
        is_stable_sort(out, inp),
    ensures
        out.contains(e) <==> inp.contains(e),
        out.len() == inp.len(),
{
    broadcast use group_to_multiset_ensures;

    assert(out.to_multiset().count(e) == inp.to_multiset().count(e));
    assert(out.to_multiset().len() == inp.to_multiset().len());
}

/// Two sorted sequences of equal length that agree, key by key, on the
/// records with that key and on their order, are the same sequence.
proof fn lemma_sorted_agree<T: Keyed>(a: Seq<T>, b: Seq<T>)
    requires
        sorted_by_key(a),
        sorted_by_key(b),
        a.len() == b.len(),
        forall|k: i64| #[trigger] with_key(a, k) == with_key(b, k),
    ensures
        a == b,
    decreases a.len(),
{
    if a.len() == 0 {
        assert(a =~= b);
    } else {
        let x = a.last();
        let y = b.last();
        let shorter_a = a.drop_last();
        let shorter_b = b.drop_last();
        assert(shorter_a.push(x) =~= a);
        assert(shorter_b.push(y) =~= b);
        lemma_with_key_push(shorter_a, x, x.key());
        lemma_with_key_push(shorter_b, y, y.key());
        // The last record of either sequence has the largest key of both.
        assert(y.key() >= x.key()) by {
            lemma_with_key_push(shorter_b, y, x.key());
            assert(with_key(a, x.key()) == with_key(b, x.key()));
            if y.key() != x.key() {
                let last = with_key(b, x.key()).len() - 1;
                assert(with_key(b, x.key())[last] == x);
                shorter_b.lemma_filter_contains_rev(key_is(x.key()), x);
                let j = choose|j: int| 0 <= j < shorter_b.len() && shorter_b[j] == x;
                assert(b[j].key() <= b[b.len() - 1].key());
            }
        }
        assert(x.key() >= y.key()) by {
            lemma_with_key_push(shorter_a, x, y.key());
            assert(with_key(a, y.key()) == with_key(b, y.key()));
            if y.key() != x.key() {
                let last = with_key(a, y.key()).len() - 1;
                assert(with_key(a, y.key())[last] == y);
                shorter_a.lemma_filter_contains_rev(key_is(y.key()), y);
                let j = choose|j: int| 0 <= j < shorter_a.len() && shorter_a[j] == y;
                assert(a[j].key() <= a[a.len() - 1].key());
            }
        }
        assert(with_key(a, x.key()) == with_key(b, x.key()));
        assert(x == y) by {
            assert(with_key(a, x.key()).last() == x);
            assert(with_key(b, x.key()).last() == y);
        }
        assert forall|k: i64| #[trigger] with_key(shorter_a, k) == with_key(shorter_b, k) by {
            lemma_with_key_push(shorter_a, x, k);
            lemma_with_key_push(shorter_b, y, k);
            assert(with_key(a, k) == with_key(b, k));
            if x.key() == k {
                assert(with_key(shorter_a, k) =~= with_key(a, k).drop_last());
                assert(with_key(shorter_b, k) =~= with_key(b, k).drop_last());
            }
        }
        lemma_sorted_agree(shorter_a, shorter_b);
    }
}

/// A sequence has one stable sort only.
pub proof fn lemma_stable_sort_unique<T: Keyed>(a: Seq<T>, b: Seq<T>, inp: Seq<T>)
    requires
        is_stable_sort(a, inp),
        is_stable_sort(b, inp),
    ensures
        a == b,
{
    broadcast use group_to_multiset_ensures;

    assert(a.to_multiset().len() == a.len());
    assert(b.to_multiset().len() == b.len());
    assert forall|k: i64| #[trigger] with_key(a, k) == with_key(b, k) by {
        assert(with_key(a, k) == with_key(inp, k));
        assert(with_key(b, k) == with_key(inp, k));
    }
    lemma_sorted_agree(a, b);
}

/// Merges two sorted runs; on equal keys the records of `a` come first.
fn merge<T: Keyed + Copy>(a: &Vec<T>, b: &Vec<T>) -> (out: Vec<T>)
    requires
        sorted_by_key(a@),
        sorted_by_key(b@),
    ensures
        sorted_by_key(out@),
        out@.len() == a@.len() + b@.len(),
        out@.to_multiset() == a@.to_multiset().add(b@.to_multiset()),
        forall|k: i64| #[trigger] with_key(out@, k) == with_key(a@, k) + with_key(b@, k),
{
    let mut out: Vec<T> = Vec::new();
    let mut i: usize = 0;
    let mut j: usize = 0;
    proof {
        assert(a@.take(0) =~= Seq::<T>::empty());
        assert(b@.take(0) =~= Seq::<T>::empty());
        assert forall|k: i64| #[trigger]
            with_key(out@, k) == with_key(a@.take(0), k) + with_key(b@.take(0), k) by {
            lemma_with_key_none(out@, k);
            lemma_with_key_none(a@.take(0), k);
            lemma_with_key_none(b@.take(0), k);
        }
        broadcast use group_multiset_axioms, group_to_multiset_ensures;
        assert(out@.to_multiset() =~= a@.take(0).to_multiset().add(b@.take(0).to_multiset()));
    }
    while i < a.len() || j < b.len()
        invariant
            i <= a.len(),
            j <= b.len(),
            out@.len() == i + j,
            sorted_by_key(a@),
            sorted_by_key(b@),
            sorted_by_key(out@),
            forall|x: int| 0 <= x < out@.len() && i < a.len() ==> out@[x].key() <= a@[i as int].key(),
            forall|x: int| 0 <= x < out@.len() && j < b.len() ==> out@[x].key() <= b@[j as int].key(),
            forall|y: int| 0 <= y < j && i < a.len() ==> b@[y].key() < a@[i as int].key(),
            out@.to_multiset() == a@.take(i as int).to_multiset().add(
                b@.take(j as int).to_multiset(),
            ),
            forall|k: i64| #[trigger]
                with_key(out@, k) == with_key(a@.take(i as int), k) + with_key(
                    b@.take(j as int),
                    k,
                ),
        decreases (a.len() - i) + (b.len() - j),
    {
        let take_left = if j >= b.len() {
            true
        } else if i >= a.len() {
            false
        } else {
            a[i].sort_key() <= b[j].sort_key()
        };
        let ghost prev = out@;
        if take_left {
            let e = a[i];
            out.push(e);
            proof {
                broadcast use group_to_multiset_ensures, group_multiset_axioms;
                assert(a@.take(i + 1) =~= a@.take(i as int).push(e));
                assert(out@.to_multiset() =~= a@.take(i + 1).to_multiset().add(
                    b@.take(j as int).to_multiset(),
                ));
                assert forall|k: i64| #[trigger]
                    with_key(out@, k) == with_key(a@.take(i + 1), k) + with_key(
                        b@.take(j as int),
                        k,
                    ) by {
                    lemma_with_key_push(prev, e, k);
                    lemma_with_key_push(a@.take(i as int), e, k);
                    if e.key() == k {
                        lemma_with_key_none(b@.take(j as int), k);
                        assert(with_key(out@, k) =~= with_key(a@.take(i + 1), k) + with_key(
                            b@.take(j as int),
                            k,
                        ));
                    }
                }
            }
            i += 1;
        } else {
            let e = b[j];
            out.push(e);
            proof {
                broadcast use group_to_multiset_ensures, group_multiset_axioms;
                assert(b@.take(j + 1) =~= b@.take(j as int).push(e));
                assert(out@.to_multiset() =~= a@.take(i as int).to_multiset().add(
                    b@.take(j + 1).to_multiset(),
                ));
                assert forall|k: i64| #[trigger]
                    with_key(out@, k) == with_key(a@.take(i as int), k) + with_key(
                        b@.take(j + 1),
                        k,
                    ) by {
                    lemma_with_key_push(prev, e, k);
                    lemma_with_key_push(b@.take(j as int), e, k);
                    if e.key() == k {
                        assert(with_key(out@, k) =~= with_key(a@.take(i as int), k) + with_key(
                            b@.take(j + 1),
                            k,
                        ));
                    }
                }
            }
            j += 1;
        }
    }
    proof {
        assert(a@.take(i as int) =~= a@);
        assert(b@.take(j as int) =~= b@);
    }
    out
}

/// Sorts the records `v[lo..hi]` into a new vector.
fn sort_range<T: Keyed + Copy>(v: &Vec<T>, lo: usize, hi: usize) -> (out: Vec<T>)
    requires
        lo <= hi <= v.len(),
    ensures
        is_stable_sort(out@, v@.subrange(lo as int, hi as int)),
        out@.len() == hi - lo,
    decreases hi - lo,
{
    if hi - lo <= 1 {
        let mut out: Vec<T> = Vec::new();
        if lo < hi {
            out.push(v[lo]);
        }
        proof {
            assert(out@ =~= v@.subrange(lo as int, hi as int));
        }
        out
    } else {
        let mid = lo + (hi - lo) / 2;
        let left = sort_range(v, lo, mid);
        let right = sort_range(v, mid, hi);
        let out = merge(&left, &right);
        proof {
            let l = v@.subrange(lo as int, mid as int);
            let r = v@.subrange(mid as int, hi as int);
            assert(v@.subrange(lo as int, hi as int) =~= l + r);
            lemma_multiset_commutative(l, r);
            assert forall|k: i64| #[trigger]
                with_key(out@, k) == with_key(l + r, k) by {
                Seq::filter_distributes_over_add(l, r, key_is(k));
            }
        }
        out
    }
}

/// Sorts `v` by ascending key.  The sort is stable: records with equal keys
/// keep the order in which they stood.
pub fn stable_sort<T: Keyed + Copy>(v: &mut Vec<T>)
    ensures
        is_stable_sort(final(v)@, old(v)@),
        final(v)@.len() == old(v)@.len(),
{
    let sorted = sort_range(v, 0, v.len());
    proof {
        assert(v@.subrange(0, v@.len() as int) =~= v@);
    }
    *v = sorted;
}

} // verus!
