//! The monotone chain construction: two chains over the sorted points, glued
//! into the hull boundary.

use vstd::prelude::*;
use crate::geometry::{Point, cross, lex_le, orientation};
use crate::sorting::{sorted_lex, sort_seq, insert_sorted, sort_points, lemma_sort_seq,
    lemma_same_multiset_same_points, lemma_sorted_head_min};

verus! {

/// Does appending `p` after the chain's last two points `a`, `b` keep the
/// chain's sense of turn? One chain keeps strict left turns, the other strict
/// right turns; collinear triples are never kept.
pub open spec fn keeps_turn(a: Point, b: Point, p: Point, left: bool) -> bool {
    if left {
        cross(a, b, p) > 0
    } else {
        cross(a, b, p) < 0
    }
}

/// Pop the chain's tail until appending `p` would keep the turn, or until
/// only one point is left.
pub open spec fn shrink_chain(ch: Seq<Point>, p: Point, left: bool) -> Seq<Point>
    decreases ch.len(),
{
    if ch.len() > 1 && !keeps_turn(ch[ch.len() - 2], ch.last(), p, left) {
        shrink_chain(ch.drop_last(), p, left)
    } else {
        ch
    }
}

/// One step of the scan: pop the bad tail, then push `p`.
pub open spec fn extend_chain(ch: Seq<Point>, p: Point, left: bool) -> Seq<Point> {
    shrink_chain(ch, p, left).push(p)
}

/// The chain the left-to-right scan builds over the whole sequence.
pub open spec fn chain_of(s: Seq<Point>, left: bool) -> Seq<Point>
    decreases s.len(),
{
    if s.len() == 0 {
        Seq::empty()
    } else {
        extend_chain(chain_of(s.drop_last(), left), s.last(), left)
    }
}

/// The hull of an already lexicographically sorted sequence: both chains end
/// at the greatest point and start at the least, so each contributes all but
/// its last point, the right chain walked backwards.
pub open spec fn hull_of_sorted(s: Seq<Point>) -> Seq<Point> {
    if s.len() < 3 {
        if s.len() == 2 && s[0] == s[1] {
            seq![s[0]]
        } else {
            s
        }
    } else {
        chain_of(s, true).drop_last() + chain_of(s, false).reverse().drop_last()
    }
}

/// What `convex_hull` returns: the hull of the sorted input.
pub open spec fn hull_spec(s: Seq<Point>) -> Seq<Point> {
    hull_of_sorted(sort_seq(s))
}

pub proof fn lemma_shrink_chain(ch: Seq<Point>, p: Point, left: bool)
    ensures
        shrink_chain(ch, p, left).len() <= ch.len(),
        shrink_chain(ch, p, left) == ch.take(shrink_chain(ch, p, left).len() as int),
        ch.len() >= 1 ==> shrink_chain(ch, p, left).len() >= 1,
        shrink_chain(ch, p, left).len() >= 2 ==> keeps_turn(
            shrink_chain(ch, p, left)[shrink_chain(ch, p, left).len() - 2],
            shrink_chain(ch, p, left).last(),
            p,
            left,
        ),
        shrink_chain(ch, p, left).len() < ch.len() ==> !keeps_turn(
            ch[shrink_chain(ch, p, left).len() - 1],
            ch[shrink_chain(ch, p, left).len() as int],
            p,
            left,
        ),
    decreases ch.len(),
{
    let sh = shrink_chain(ch, p, left);
    if ch.len() > 1 && !keeps_turn(ch[ch.len() - 2], ch.last(), p, left) {
        lemma_shrink_chain(ch.drop_last(), p, left);
        assert(ch.drop_last().take(sh.len() as int) =~= ch.take(sh.len() as int));
        if sh.len() < ch.len() - 1 {
            assert(ch.drop_last()[sh.len() - 1] == ch[sh.len() - 1]);
            assert(ch.drop_last()[sh.len() as int] == ch[sh.len() as int]);
        } else {
            assert(ch[sh.len() - 1] == ch[ch.len() - 2] && ch[sh.len() as int] == ch.last());
        }
    } else {
        assert(sh =~= ch.take(ch.len() as int));
    }
}

pub proof fn lemma_chain_shape(s: Seq<Point>, left: bool)
    ensures
        s.len() == 0 ==> chain_of(s, left).len() == 0,
        s.len() >= 1 ==> chain_of(s, left).len() >= 1,
        s.len() >= 1 ==> chain_of(s, left)[0] == s[0],
        s.len() >= 1 ==> chain_of(s, left).last() == s.last(),
        s.len() >= 2 ==> chain_of(s, left).len() >= 2,
        forall|i: int| 0 <= i < chain_of(s, left).len() ==> s.contains(
            #[trigger] chain_of(s, left)[i],
        ),
    decreases s.len(),
{
    if s.len() >= 1 {
        let s0 = s.drop_last();
        let ch0 = chain_of(s0, left);
        lemma_chain_shape(s0, left);
        lemma_shrink_chain(ch0, s.last(), left);
        let sh = shrink_chain(ch0, s.last(), left);
        let ch = chain_of(s, left);
        assert(ch == sh.push(s.last()));
        if s.len() >= 2 {
            assert(sh[0] == ch0[0]);
        }
        assert forall|i: int| 0 <= i < ch.len() implies s.contains(ch[i]) by {
            if i < ch.len() - 1 {
                assert(sh[i] == ch0[i]);
                assert(s0.contains(ch0[i]));
                let k = choose|k: int| 0 <= k < s0.len() && s0[k] == ch0[i];
                assert(s[k] == ch0[i]);
            } else {
                assert(ch[i] == s.last());
                assert(s[s.len() - 1] == s.last());
            }
        }
    }
}

/// The core convexity fact of the construction: every three consecutive
/// points of a chain turn strictly in that chain's sense. Collinear or
/// backwards-turning middles are always popped before a push.
pub proof fn lemma_chain_turns(s: Seq<Point>, left: bool)
    ensures
        forall|i: int| 0 <= i && i + 2 < chain_of(s, left).len() ==> keeps_turn(
            #[trigger] chain_of(s, left)[i],
            chain_of(s, left)[i + 1],
            chain_of(s, left)[i + 2],
            left,
        ),
    decreases s.len(),
{
    if s.len() >= 1 {
        let s0 = s.drop_last();
        let ch0 = chain_of(s0, left);
        lemma_chain_turns(s0, left);
        lemma_shrink_chain(ch0, s.last(), left);
        let sh = shrink_chain(ch0, s.last(), left);
        let ch = chain_of(s, left);
        assert(ch == sh.push(s.last()));
        assert forall|i: int| 0 <= i && i + 2 < ch.len() implies keeps_turn(
            #[trigger] ch[i],
            ch[i + 1],
            ch[i + 2],
            left,
        ) by {
            if i + 2 < ch.len() - 1 {
                assert(sh[i] == ch0[i] && sh[i + 1] == ch0[i + 1] && sh[i + 2] == ch0[i + 2]);
            } else {
                assert(sh.len() >= 2);
                assert(ch[i] == sh[sh.len() - 2] && ch[i + 1] == sh.last());
            }
        }
    }
}

pub proof fn lemma_hull_of_sorted(s: Seq<Point>)
    ensures
        (hull_of_sorted(s).len() == 0 <==> s.len() == 0),
        s.len() >= 1 ==> hull_of_sorted(s).len() >= 1 && hull_of_sorted(s)[0] == s[0],
        forall|i: int| 0 <= i < hull_of_sorted(s).len() ==> s.contains(
            #[trigger] hull_of_sorted(s)[i],
        ),
{
    let h = hull_of_sorted(s);
    if s.len() < 3 {
        assert forall|i: int| 0 <= i < h.len() implies s.contains(h[i]) by {
            if s.len() == 2 && s[0] == s[1] {
                assert(h[i] == s[0]);
            } else {
                assert(h[i] == s[i]);
            }
        }
    } else {
        let a = chain_of(s, true);
        let b = chain_of(s, false);
        lemma_chain_shape(s, true);
        lemma_chain_shape(s, false);
        assert(h == a.drop_last() + b.reverse().drop_last());
        assert(h[0] == a[0]);
        assert forall|i: int| 0 <= i < h.len() implies s.contains(h[i]) by {
            if i < a.len() - 1 {
                assert(h[i] == a[i]);
            } else {
                let t = i - (a.len() - 1);
                assert(h[i] == b.reverse()[t]);
                assert(b.reverse()[t] == b[b.len() - 1 - t]);
            }
        }
    }
}

/// Reading a triple backwards flips the sense of the turn.
pub proof fn lemma_cross_antisymmetry(a: Point, b: Point, c: Point)
    ensures
        cross(c, b, a) == -cross(a, b, c),
{
    let ax: int = a.x as int;
    let ay: int = a.y as int;
    let bx: int = b.x as int;
    let by: int = b.y as int;
    let cx: int = c.x as int;
    let cy: int = c.y as int;
    assert((bx - cx) * (ay - cy) - (by - cy) * (ax - cx) == -((bx - ax) * (cy - ay) - (by - ay)
        * (cx - ax))) by (nonlinear_arith);
}

/// Convexity of the hull boundary along each chain: every three consecutive
/// hull vertices drawn from the same chain turn strictly left
/// (counter-clockwise), and so does the cyclic triple that closes the right
/// chain onto the starting vertex. The two triples that straddle a junction
/// of the chains are not covered by this lemma.
pub proof fn lemma_hull_turns(s: Seq<Point>)
    requires
        s.len() >= 3,
    ensures
        forall|i: int| 0 <= i && i + 2 < chain_of(s, true).len() ==> cross(
            #[trigger] hull_of_sorted(s)[i],
            hull_of_sorted(s)[i + 1],
            hull_of_sorted(s)[i + 2],
        ) > 0,
        forall|i: int| chain_of(s, true).len() - 1 <= i && i + 2 < hull_of_sorted(s).len()
            ==> cross(
            #[trigger] hull_of_sorted(s)[i],
            hull_of_sorted(s)[i + 1],
            hull_of_sorted(s)[i + 2],
        ) > 0,
        chain_of(s, false).len() >= 3 ==> cross(
            hull_of_sorted(s)[hull_of_sorted(s).len() - 2],
            hull_of_sorted(s)[hull_of_sorted(s).len() - 1],
            hull_of_sorted(s)[0],
        ) > 0,
{
    let h = hull_of_sorted(s);
    let a = chain_of(s, true);
    let b = chain_of(s, false);
    let m = a.len() as int;
    let k = b.len() as int;
    lemma_chain_shape(s, true);
    lemma_chain_shape(s, false);
    lemma_chain_turns(s, true);
    lemma_chain_turns(s, false);
    assert(h == a.drop_last() + b.reverse().drop_last());
    assert(h.len() == m + k - 2);
    assert(forall|j: int| 0 <= j < m - 1 ==> #[trigger] h[j] == a[j]);
    assert(forall|t: int| 0 <= t < k - 1 ==> #[trigger] h[m - 1 + t] == b[k - 1 - t]) by {
        assert(forall|t: int| 0 <= t < k - 1 ==> #[trigger] b.reverse()[t] == b[k - 1 - t]);
    }
    assert(h[m - 1] == b[k - 1]);
    assert(a.last() == s.last() && b.last() == s.last());
    assert(h[m - 1] == a[m - 1]);
    assert(h[0] == a[0] && a[0] == s[0] && b[0] == s[0]);
    assert forall|i: int| 0 <= i && i + 2 < m implies cross(#[trigger] h[i], h[i + 1], h[i + 2]) > 0 by {
        assert(keeps_turn(a[i], a[i + 1], a[i + 2], true));
        assert(h[i] == a[i] && h[i + 1] == a[i + 1] && h[i + 2] == a[i + 2]);
    }
    assert forall|i: int| m - 1 <= i && i + 2 < h.len() implies cross(#[trigger] h[i], h[i + 1], h[i + 2])
        > 0 by {
        let u = k - 1 - (i - (m - 1));
        assert(h[i] == b[u] && h[i + 1] == b[u - 1] && h[i + 2] == b[u - 2]);
        assert(keeps_turn(b[u - 2], b[u - 1], b[u], false));
        lemma_cross_antisymmetry(b[u - 2], b[u - 1], b[u]);
    }
    if k >= 3 {
        assert(h[h.len() - 2] == b[2] && h[h.len() - 1] == b[1]);
        assert(keeps_turn(b[0], b[1], b[2], false));
        lemma_cross_antisymmetry(b[0], b[1], b[2]);
    }
}

fn keeps_turn_exec(a: Point, b: Point, p: Point, left: bool) -> (r: bool)
    ensures
        r == keeps_turn(a, b, p, left),
{
    let o = orientation(a, b, p);
    if left {
        o > 0
    } else {
        o < 0
    }
}

fn extend_chain_exec(ch: &mut Vec<Point>, p: Point, left: bool)
    ensures
        final(ch)@ == extend_chain(old(ch)@, p, left),
{
    loop
        invariant
            shrink_chain(ch@, p, left) == shrink_chain(old(ch)@, p, left),
        ensures
            ch@ == shrink_chain(old(ch)@, p, left),
        decreases ch@.len(),
    {
        if ch.len() <= 1 {
            break;
        }
        let a = ch[ch.len() - 2];
        let b = ch[ch.len() - 1];
        if keeps_turn_exec(a, b, p, left) {
            break;
        }
        let ghost pre = ch@;
        ch.pop();
        proof {
            assert(ch@ =~= pre.drop_last());
        }
    }
    ch.push(p);
}

/// The convex hull of the given points: the hull of the sorted input, in
/// counter-clockwise order, starting at the lexicographically least point.
/// The result visits only input points, is empty only for empty input, and
/// is pinned down exactly by `hull_spec`.
pub fn convex_hull(points: &Vec<Point>) -> (hull: Vec<Point>)
    ensures
        hull@ == hull_spec(points@),
        forall|i: int| 0 <= i < hull@.len() ==> points@.contains(#[trigger] hull@[i]),
        (hull@.len() == 0 <==> points@.len() == 0),
        hull@.len() >= 1 ==> forall|j: int| 0 <= j < points@.len() ==> lex_le(
            hull@[0],
            #[trigger] points@[j],
        ),
{
    proof {
        lemma_sort_seq(points@);
        lemma_hull_of_sorted(sort_seq(points@));
        lemma_same_multiset_same_points(sort_seq(points@), points@);
        if points@.len() >= 1 {
            lemma_sorted_head_min(sort_seq(points@), points@);
        }
    }
    let sorted = sort_points(points);
    let n = sorted.len();
    if n < 3 {
        if n == 2 {
            let a = sorted[0];
            let b = sorted[1];
            if a.x == b.x && a.y == b.y {
                let mut h: Vec<Point> = Vec::new();
                h.push(a);
                proof {
                    assert(h@ =~= hull_spec(points@));
                }
                return h;
            }
        }
        return sorted;
    }
    let ghost s = sorted@;
    let mut lo: Vec<Point> = Vec::new();
    let mut hi: Vec<Point> = Vec::new();
    let mut i: usize = 0;
    proof {
        assert(s.take(0) =~= Seq::empty());
    }
    while i < n
        invariant
            i <= n,
            n == s.len(),
            sorted@ == s,
            lo@ == chain_of(s.take(i as int), true),
            hi@ == chain_of(s.take(i as int), false),
        decreases n - i,
    {
        let p = sorted[i];
        extend_chain_exec(&mut lo, p, true);
        extend_chain_exec(&mut hi, p, false);
        proof {
            let ii = i as int;
            assert(s.take(ii + 1).drop_last() =~= s.take(ii));
            assert(s.take(ii + 1).last() == s[ii]);
        }
        i += 1;
    }
    proof {
        assert(s.take(n as int) =~= s);
        lemma_chain_shape(s, true);
        lemma_chain_shape(s, false);
    }
    let ghost a = chain_of(s, true);
    let ghost b = chain_of(s, false);
    let mut hull = lo;
    hull.pop();
    proof {
        assert(hull@ =~= a.drop_last());
        assert(b.reverse().take(0) =~= Seq::empty());
        assert(hull@ + Seq::empty() =~= hull@);
    }
    let k = hi.len();
    let mut t: usize = k;
    while t > 1
        invariant
            1 <= t <= k,
            k == b.len(),
            hi@ == b,
            hull@ == a.drop_last() + b.reverse().take(k - t as int),
        decreases t,
    {
        t -= 1;
        let q = hi[t];
        hull.push(q);
        proof {
            let tt = t as int;
            assert(b.reverse()[k - tt - 1] == b[tt]);
            assert(b.reverse().take(k - tt) =~= b.reverse().take(k - tt - 1).push(b[tt]));
            assert(a.drop_last() + b.reverse().take(k - tt)
                =~= (a.drop_last() + b.reverse().take(k - tt - 1)).push(b[tt]));
        }
    }
    proof {
        assert(b.reverse().take(k - 1 as int) =~= b.reverse().drop_last());
        assert(hull@ == hull_of_sorted(s));
    }
    hull
}

/// Idempotence on degenerate hulls: a hull of at most two vertices, run
/// through the computation again, comes back unchanged. The one exception is
/// the two-vertex hull whose vertices coincide (it arises when three or more
/// input points are all equal); running again deduplicates it, so it is left
/// out here.
pub proof fn lemma_hull_idempotent_degenerate(s: Seq<Point>)
    requires
        hull_spec(s).len() <= 2,
        hull_spec(s).len() == 2 ==> hull_spec(s)[0] != hull_spec(s)[1],
    ensures
        hull_spec(hull_spec(s)) == hull_spec(s),
{
    let ss = sort_seq(s);
    let h = hull_spec(s);
    lemma_sort_seq(s);
    lemma_hull_of_sorted(ss);
    if h.len() == 0 {
        assert(sort_seq(h) == Seq::<Point>::empty());
        assert(hull_spec(h) =~= h);
    } else if h.len() == 1 {
        assert(h.drop_last() =~= Seq::<Point>::empty());
        assert(sort_seq(Seq::<Point>::empty()) == Seq::<Point>::empty());
        assert(sort_seq(h) == insert_sorted(Seq::empty(), h.last()));
        assert(sort_seq(h) =~= h);
        assert(hull_spec(h) == h);
    } else {
        // the two vertices are the least and the greatest input point
        assert(h[0] == ss[0]);
        let last = h[1];
        assert(lex_le(ss[0], h[1]) && lex_le(ss[0], h[0])) by {
            if ss.len() < 3 {
                assert(h == ss);
            } else {
                let a = chain_of(ss, true);
                let b = chain_of(ss, false);
                lemma_chain_shape(ss, true);
                lemma_chain_shape(ss, false);
                assert(a.len() + b.len() == 4);
                assert(h[1] == b.reverse().drop_last()[0]);
                assert(h[1] == b[b.len() - 1]);
                assert(h[1] == ss.last());
            }
        }
        assert(lex_le(h[0], h[1]));
        // sorting the two distinct vertices keeps them in place
        assert(h.drop_last() =~= seq![h[0]]);
        assert(sort_seq(seq![h[0]]) =~= seq![h[0]]) by {
            assert(seq![h[0]].drop_last() =~= Seq::<Point>::empty());
            assert(sort_seq(Seq::<Point>::empty()) == Seq::<Point>::empty());
            assert(sort_seq(seq![h[0]]) == insert_sorted(Seq::empty(), h[0]));
            assert(insert_sorted(Seq::<Point>::empty(), h[0]) =~= seq![h[0]]);
        }
        assert(sort_seq(h) == insert_sorted(sort_seq(h.drop_last()), h.last()));
        assert(sort_seq(h) == insert_sorted(seq![h[0]], h[1]));
        assert(sort_seq(h) =~= h) by {
            assert(seq![h[0]].last() == h[0]);
            assert(seq![h[0]].push(h[1]) =~= h);
        }
        assert(hull_spec(h) == h);
    }
}

} // verus!
