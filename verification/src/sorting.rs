//! Insertion sort of points under the lexicographic order, specified by a
//! recursive model that pins the sorted sequence down exactly.

use vstd::prelude::*;
use crate::geometry::{Point, lex_le, lex_lt, lex_less};

verus! {

/// The sequence is weakly increasing under the lexicographic order.
pub open spec fn sorted_lex(s: Seq<Point>) -> bool {
    forall|i: int, j: int| 0 <= i < j < s.len() ==> lex_le(s[i], s[j])
}

/// `p` placed after every element of `s` that precedes or equals it.
pub open spec fn insert_sorted(s: Seq<Point>, p: Point) -> Seq<Point>
    decreases s.len(),
{
    if s.len() == 0 {
        seq![p]
    } else if lex_le(s.last(), p) {
        s.push(p)
    } else {
        insert_sorted(s.drop_last(), p).push(s.last())
    }
}

/// Insertion sort, as a function of the input sequence.
pub open spec fn sort_seq(s: Seq<Point>) -> Seq<Point>
    decreases s.len(),
{
    if s.len() == 0 {
        Seq::empty()
    } else {
        insert_sorted(sort_seq(s.drop_last()), s.last())
    }
}

pub proof fn lemma_insert_sorted(s: Seq<Point>, p: Point)
    requires
        sorted_lex(s),
    ensures
        sorted_lex(insert_sorted(s, p)),
        insert_sorted(s, p).len() == s.len() + 1,
        insert_sorted(s, p).to_multiset() == s.to_multiset().insert(p),
        forall|i: int|
            0 <= i < insert_sorted(s, p).len() ==> s.contains(#[trigger] insert_sorted(s, p)[i])
                || insert_sorted(s, p)[i] == p,
    decreases s.len(),
{
    broadcast use vstd::seq_lib::group_to_multiset_ensures;

    let t = insert_sorted(s, p);
    if s.len() == 0 {
        assert(t =~= Seq::empty().push(p));
        assert(t.to_multiset() =~= s.to_multiset().insert(p));
    } else if lex_le(s.last(), p) {
        assert(forall|i: int| 0 <= i < s.len() ==> lex_le(#[trigger] s[i], p)) by {
            assert(forall|i: int| 0 <= i < s.len() - 1 ==> lex_le(#[trigger] s[i], s.last()));
        }
        assert(sorted_lex(t));
    } else {
        let s0 = s.drop_last();
        let q = s.last();
        assert(sorted_lex(s0));
        lemma_insert_sorted(s0, p);
        let t0 = insert_sorted(s0, p);
        assert(t =~= t0.push(q));
        // every element of t0 comes from s0 or is p, and both precede q
        assert(forall|i: int| 0 <= i < t0.len() ==> lex_le(#[trigger] t0[i], q)) by {
            assert(forall|i: int| 0 <= i < s0.len() ==> lex_le(#[trigger] s0[i], q));
            assert(lex_lt(p, q));
        }
        assert(sorted_lex(t));
        assert(s =~= s0.push(q));
        assert(s.to_multiset() =~= s0.to_multiset().insert(q));
        assert(t.to_multiset() =~= t0.to_multiset().insert(q));
        assert(t.to_multiset() =~= s.to_multiset().insert(p)) by {
            assert(t0.to_multiset() =~= s0.to_multiset().insert(p));
            assert(s0.to_multiset().insert(p).insert(q) =~= s0.to_multiset().insert(q).insert(p));
        }
        assert(forall|i: int| 0 <= i < t.len() ==> s.contains(#[trigger] t[i]) || t[i] == p) by {
            assert(forall|i: int| 0 <= i < t0.len() ==> s0.contains(#[trigger] t0[i]) || t0[i] == p);
            assert(forall|i: int| 0 <= i < s0.len() ==> s.contains(#[trigger] s0[i])) by {
                assert(forall|i: int| 0 <= i < s0.len() ==> s0[i] == s[i]);
            }
            assert(s.contains(q)) by {
                assert(s[s.len() - 1] == q);
            }
        }
    }
}

pub proof fn lemma_sort_seq(s: Seq<Point>)
    ensures
        sorted_lex(sort_seq(s)),
        sort_seq(s).len() == s.len(),
        sort_seq(s).to_multiset() == s.to_multiset(),
    decreases s.len(),
{
    broadcast use vstd::seq_lib::group_to_multiset_ensures;

    if s.len() == 0 {
        assert(sort_seq(s).to_multiset() =~= s.to_multiset());
    } else {
        let s0 = s.drop_last();
        lemma_sort_seq(s0);
        lemma_insert_sorted(sort_seq(s0), s.last());
        assert(s =~= s0.push(s.last()));
        assert(s.to_multiset() =~= s0.to_multiset().insert(s.last()));
    }
}

/// Two sequences with the same multiset of points hold the same points.
pub proof fn lemma_same_multiset_same_points(a: Seq<Point>, b: Seq<Point>)
    requires
        a.to_multiset() == b.to_multiset(),
    ensures
        forall|p: Point| a.contains(p) <==> b.contains(p),
{
    broadcast use vstd::seq_lib::group_to_multiset_ensures;

    assert forall|p: Point| a.contains(p) <==> b.contains(p) by {
        vstd::seq_lib::to_multiset_contains(a, p);
        vstd::seq_lib::to_multiset_contains(b, p);
        assert(a.to_multiset().count(p) == b.to_multiset().count(p));
    }
}

/// The head of a sorted permutation of `s` precedes every element of `s`.
pub proof fn lemma_sorted_head_min(ss: Seq<Point>, s: Seq<Point>)
    requires
        sorted_lex(ss),
        ss.to_multiset() == s.to_multiset(),
        ss.len() >= 1,
    ensures
        forall|j: int| 0 <= j < s.len() ==> lex_le(ss[0], #[trigger] s[j]),
{
    broadcast use vstd::seq_lib::group_to_multiset_ensures;

    assert forall|j: int| 0 <= j < s.len() implies lex_le(ss[0], s[j]) by {
        assert(s.contains(s[j]));
        vstd::seq_lib::to_multiset_contains(ss, s[j]);
        vstd::seq_lib::to_multiset_contains(s, s[j]);
        assert(ss.to_multiset().count(s[j]) == s.to_multiset().count(s[j]));
        assert(ss.contains(s[j]));
        let k = choose|k: int| 0 <= k < ss.len() && ss[k] == s[j];
        if k > 0 {
            assert(lex_le(ss[0], ss[k]));
        }
    }
}

/// Sorts the points lexicographically: by `x`, ties broken by `y`.
pub fn sort_points(v: &Vec<Point>) -> (r: Vec<Point>)
    ensures
        r@ == sort_seq(v@),
        sorted_lex(r@),
        r@.len() == v@.len(),
        r@.to_multiset() == v@.to_multiset(),
{
    let mut r: Vec<Point> = Vec::new();
    let mut i: usize = 0;
    while i < v.len()
        invariant
            i <= v@.len(),
            r@ == sort_seq(v@.take(i as int)),
        decreases v@.len() - i,
    {
        let p = v[i];
        let ghost r0 = r@;
        let mut j: usize = r.len();
        proof {
            assert(r0.take(r0.len() as int) =~= r0);
            assert(r0.skip(r0.len() as int) =~= Seq::empty());
            assert(insert_sorted(r0, p) + Seq::empty() =~= insert_sorted(r0, p));
        }
        while j > 0 && lex_less(p, r[j - 1])
            invariant
                j <= r0.len(),
                r@ == r0,
                insert_sorted(r0, p) =~= insert_sorted(r0.take(j as int), p) + r0.skip(j as int),
            decreases j,
        {
            proof {
                let jj = j as int;
                let pre = r0.take(jj);
                assert(pre.last() == r0[jj - 1]);
                assert(!lex_le(r0[jj - 1], p));
                assert(insert_sorted(pre, p) == insert_sorted(pre.drop_last(), p).push(r0[jj - 1]));
                assert(pre.drop_last() =~= r0.take(jj - 1));
                assert(insert_sorted(r0.take(jj - 1), p).push(r0[jj - 1]) + r0.skip(jj)
                    =~= insert_sorted(r0.take(jj - 1), p) + r0.skip(jj - 1)) by {
                    assert(r0.skip(jj - 1) =~= seq![r0[jj - 1]] + r0.skip(jj));
                }
            }
            j -= 1;
        }
        proof {
            let jj = j as int;
            if j == 0 {
                assert(insert_sorted(r0.take(0), p) =~= seq![p]);
                assert(insert_sorted(r0, p) =~= r0.insert(0, p)) by {
                    assert(seq![p] + r0.skip(0) =~= r0.insert(0, p));
                }
            } else {
                assert(lex_le(r0[jj - 1], p));
                let pre = r0.take(jj);
                assert(pre.last() == r0[jj - 1]);
                assert(insert_sorted(pre, p) == pre.push(p));
                assert(pre.push(p) + r0.skip(jj) =~= r0.insert(jj, p));
            }
            assert(insert_sorted(r0, p) =~= r0.insert(jj, p));
        }
        r.insert(j, p);
        proof {
            let ii = i as int;
            assert(v@.take(ii + 1).drop_last() =~= v@.take(ii));
            assert(v@.take(ii + 1).last() == v@[ii]);
            assert(r@ == sort_seq(v@.take(ii + 1)));
        }
        i += 1;
    }
    proof {
        assert(v@.take(v@.len() as int) =~= v@);
        lemma_sort_seq(v@);
    }
    r
}

} // verus!
