//! The one-sided invariant of the monotone chains: every scanned point lies
//! weakly on a chain's outer side of each of its edges. From it follow
//! containment of the input in the hull polygon and its cyclic convexity.

use vstd::prelude::*;
use crate::geometry::{Point, cross, lex_le, lex_lt};
use crate::hull::{keeps_turn, shrink_chain, chain_of, hull_of_sorted, hull_spec,
    lemma_shrink_chain, lemma_chain_shape, lemma_chain_turns, lemma_hull_of_sorted};
use crate::sorting::{sorted_lex, sort_seq, lemma_sort_seq, lemma_same_multiset_same_points};

verus! {

/// `p` lies weakly on the outer side of the directed edge `(a, b)`: on or to
/// the left of it for the left-turning chain, on or to the right for the
/// other.
pub open spec fn on_good_side(a: Point, b: Point, p: Point, left: bool) -> bool {
    if left {
        cross(a, b, p) >= 0
    } else {
        cross(a, b, p) <= 0
    }
}

/// Every point of `s` lies weakly on the outer side of every edge of `ch`.
pub open spec fn all_on_side(ch: Seq<Point>, s: Seq<Point>, left: bool) -> bool {
    forall|j: int, t: int|
        0 <= j < ch.len() - 1 && 0 <= t < s.len() ==> on_good_side(
            #[trigger] ch[j],
            ch[j + 1],
            #[trigger] s[t],
            left,
        )
}

/// Degenerate triples are collinear.
pub proof fn lemma_cross_degenerate(a: Point, b: Point)
    ensures
        cross(a, b, b) == 0,
        cross(a, a, b) == 0,
        cross(a, b, a) == 0,
{
    let ax: int = a.x as int;
    let ay: int = a.y as int;
    let bx: int = b.x as int;
    let by: int = b.y as int;
    assert((bx - ax) * (by - ay) - (by - ay) * (bx - ax) == 0) by (nonlinear_arith);
    assert((ax - ax) * (by - ay) - (ay - ay) * (bx - ax) == 0) by (nonlinear_arith);
    assert((bx - ax) * (ay - ay) - (by - ay) * (ax - ax) == 0) by (nonlinear_arith);
}

/// Swapping the first two points of a triple flips the sense of the turn.
pub proof fn lemma_cross_swap(a: Point, b: Point, c: Point)
    ensures
        cross(b, a, c) == -cross(a, b, c),
{
    let ax: int = a.x as int;
    let ay: int = a.y as int;
    let bx: int = b.x as int;
    let by: int = b.y as int;
    let cx: int = c.x as int;
    let cy: int = c.y as int;
    assert((ax - bx) * (cy - by) - (ay - by) * (cx - bx) == -((bx - ax) * (cy - ay) - (by - ay)
        * (cx - ax))) by (nonlinear_arith);
}

#[verifier::rlimit(100)]
proof fn core_fan_before(ux: int, uy: int, vx: int, vy: int, wx: int, wy: int)
    by (nonlinear_arith)
    requires
        ux > 0,
        vx >= ux,
        wx <= ux,
        ux * wy - uy * wx >= 0,
        ux * vy - uy * vx > 0,
    ensures
        (vx - ux) * (wy - uy) - (vy - uy) * (wx - ux) >= 0,
{
}

#[verifier::rlimit(100)]
proof fn core_fan_before_r(ux: int, uy: int, vx: int, vy: int, wx: int, wy: int)
    by (nonlinear_arith)
    requires
        ux > 0,
        vx >= ux,
        wx <= ux,
        ux * wy - uy * wx <= 0,
        ux * vy - uy * vx < 0,
    ensures
        (vx - ux) * (wy - uy) - (vy - uy) * (wx - ux) <= 0,
{
}

#[verifier::rlimit(100)]
proof fn core_fan_after(ux: int, uy: int, cx: int, cy: int, px: int, py: int)
    by (nonlinear_arith)
    requires
        ux > 0,
        px >= 0,
        cx >= ux,
        ux * py - uy * px >= 0,
        ux * cy - uy * cx <= 0,
    ensures
        cx * py - cy * px >= 0,
{
}

#[verifier::rlimit(100)]
proof fn core_fan_after_r(ux: int, uy: int, cx: int, cy: int, px: int, py: int)
    by (nonlinear_arith)
    requires
        ux > 0,
        px >= 0,
        cx >= ux,
        ux * py - uy * px <= 0,
        ux * cy - uy * cx >= 0,
    ensures
        cx * py - cy * px <= 0,
{
}

#[verifier::rlimit(100)]
proof fn core_propagate(mx: int, my: int, wx: int, wy: int, cx: int, cy: int)
    by (nonlinear_arith)
    requires
        wx > 0,
        mx >= 0,
        cx >= wx,
        mx * wy - my * wx > 0,
        wx * cy - wy * cx >= 0,
    ensures
        mx * cy - my * cx >= 0,
{
}

#[verifier::rlimit(100)]
proof fn core_propagate_r(mx: int, my: int, wx: int, wy: int, cx: int, cy: int)
    by (nonlinear_arith)
    requires
        wx > 0,
        mx >= 0,
        cx >= wx,
        mx * wy - my * wx < 0,
        wx * cy - wy * cx <= 0,
    ensures
        mx * cy - my * cx <= 0,
{
}

/// The fan step for a point before the vertex: `p` lies weakly and `c`
/// strictly on the good side of the edge `(a, b)`; `p` precedes `b`, `c`
/// follows it. Then `p` lies weakly on the good side of the new edge
/// `(b, c)`.
proof fn lemma_fan_before_vertex(a: Point, b: Point, c: Point, p: Point, left: bool)
    requires
        lex_le(a, b),
        lex_le(p, b),
        lex_le(b, c),
        on_good_side(a, b, p, left),
        keeps_turn(a, b, c, left),
    ensures
        on_good_side(b, c, p, left),
{
    let ax: int = a.x as int;
    let ay: int = a.y as int;
    let bx: int = b.x as int;
    let by: int = b.y as int;
    let cx: int = c.x as int;
    let cy: int = c.y as int;
    let px: int = p.x as int;
    let py: int = p.y as int;
    if ax == bx {
        // a vertical edge ascends, since a precedes b
        assert(ay <= by);
        assert((bx - ax) * (cy - ay) == 0) by (nonlinear_arith)
            requires
                bx == ax;
        assert(cross(a, b, c) == -((by - ay) * (cx - ax)));
        if left {
            assert((by - ay) * (cx - ax) >= 0) by (nonlinear_arith)
                requires
                    by - ay >= 0,
                    cx - ax >= 0;
        } else {
            assert((by - ay) * (cx - ax) > 0);
            assert(by - ay > 0 && cx - ax > 0) by (nonlinear_arith)
                requires
                    (by - ay) * (cx - ax) > 0,
                    by - ay >= 0,
                    cx - ax >= 0;
            assert((bx - ax) * (py - ay) == 0) by (nonlinear_arith)
                requires
                    bx == ax;
            assert(cross(a, b, p) == -((by - ay) * (px - ax)));
            assert((by - ay) * (px - ax) >= 0);
            assert(px - ax >= 0) by (nonlinear_arith)
                requires
                    (by - ay) * (px - ax) >= 0,
                    by - ay > 0;
            assert(px == bx);
            assert(py <= by);
            assert((cy - by) * (px - bx) == 0) by (nonlinear_arith)
                requires
                    px == bx;
            assert(cross(b, c, p) == (cx - bx) * (py - by));
            assert((cx - bx) * (py - by) <= 0) by (nonlinear_arith)
                requires
                    cx - bx >= 0,
                    py - by <= 0;
        }
    } else {
        if left {
            core_fan_before(bx - ax, by - ay, cx - ax, cy - ay, px - ax, py - ay);
        } else {
            core_fan_before_r(bx - ax, by - ay, cx - ax, cy - ay, px - ax, py - ay);
        }
    }
}

/// The fan step for a point after the vertex: `p` lies weakly on the good
/// side of the edge `(v, w)` and the popped point `c` does not keep the turn
/// over it; `p` and `c` both follow `v`. Then `p` lies weakly on the good
/// side of the new edge `(v, c)`.
proof fn lemma_fan_after_vertex(v: Point, w: Point, c: Point, p: Point, left: bool)
    requires
        lex_lt(v, w),
        lex_lt(v, p),
        lex_le(w, c),
        on_good_side(v, w, p, left),
        !keeps_turn(v, w, c, left),
    ensures
        on_good_side(v, c, p, left),
{
    let vx: int = v.x as int;
    let vy: int = v.y as int;
    let wx: int = w.x as int;
    let wy: int = w.y as int;
    let cx: int = c.x as int;
    let cy: int = c.y as int;
    let px: int = p.x as int;
    let py: int = p.y as int;
    assert(px >= vx);
    if vx == wx {
        // a vertical edge ascends strictly, since v strictly precedes w
        assert(wy > vy);
        assert((wx - vx) * (py - vy) == 0) by (nonlinear_arith)
            requires
                wx == vx;
        assert(cross(v, w, p) == -((wy - vy) * (px - vx)));
        assert((wx - vx) * (cy - vy) == 0) by (nonlinear_arith)
            requires
                wx == vx;
        assert(cross(v, w, c) == -((wy - vy) * (cx - vx)));
        assert(cx >= wx);
        if left {
            assert((wy - vy) * (px - vx) <= 0);
            assert(px - vx <= 0) by (nonlinear_arith)
                requires
                    (wy - vy) * (px - vx) <= 0,
                    wy - vy > 0;
            assert(px == vx);
            assert(py > vy);
            assert((cy - vy) * (px - vx) == 0) by (nonlinear_arith)
                requires
                    px == vx;
            assert(cross(v, c, p) == (cx - vx) * (py - vy));
            assert((cx - vx) * (py - vy) >= 0) by (nonlinear_arith)
                requires
                    cx - vx >= 0,
                    py - vy >= 0;
        } else {
            // the popped point cannot keep a right turn over an ascending
            // vertical edge unless it shares its column
            assert((wy - vy) * (cx - vx) <= 0);
            assert(cx - vx <= 0) by (nonlinear_arith)
                requires
                    (wy - vy) * (cx - vx) <= 0,
                    wy - vy > 0;
            assert(cx == vx);
            assert(cy >= wy);
            assert((cx - vx) * (py - vy) == 0) by (nonlinear_arith)
                requires
                    cx == vx;
            assert(cross(v, c, p) == -((cy - vy) * (px - vx)));
            assert((cy - vy) * (px - vx) >= 0) by (nonlinear_arith)
                requires
                    cy - vy >= 0,
                    px - vx >= 0;
        }
    } else {
        if left {
            core_fan_after(wx - vx, wy - vy, cx - vx, cy - vy, px - vx, py - vy);
        } else {
            core_fan_after_r(wx - vx, wy - vy, cx - vx, cy - vy, px - vx, py - vy);
        }
    }
}

/// A point weakly on the good side of a chain edge is weakly on the good
/// side of the edge before it, across a strict turn at the shared vertex.
proof fn lemma_turn_extends(a: Point, b: Point, w: Point, c: Point, left: bool)
    requires
        lex_le(a, b),
        lex_le(b, w),
        lex_le(w, c),
        keeps_turn(a, b, w, left),
        on_good_side(b, w, c, left),
    ensures
        on_good_side(a, b, c, left),
{
    let ax: int = a.x as int;
    let ay: int = a.y as int;
    let bx: int = b.x as int;
    let by: int = b.y as int;
    let wx: int = w.x as int;
    let wy: int = w.y as int;
    let cx: int = c.x as int;
    let cy: int = c.y as int;
    // re-reference both cross products at b
    assert((bx - ax) * (wy - ay) - (by - ay) * (wx - ax) == (bx - ax) * (wy - by) - (by - ay) * (
    wx - bx)) by (nonlinear_arith);
    assert((bx - ax) * (cy - ay) - (by - ay) * (cx - ax) == (bx - ax) * (cy - by) - (by - ay) * (
    cx - bx)) by (nonlinear_arith);
    if bx == wx {
        assert(by <= wy);
        assert((wx - bx) * (cy - by) == 0) by (nonlinear_arith)
            requires
                wx == bx;
        assert((by - ay) * (wx - bx) == 0) by (nonlinear_arith)
            requires
                wx == bx;
        assert(cross(b, w, c) == -((wy - by) * (cx - bx)));
        assert(cross(a, b, w) == (bx - ax) * (wy - by));
        if left {
            assert((bx - ax) * (wy - by) > 0);
            assert(bx - ax > 0 && wy - by > 0) by (nonlinear_arith)
                requires
                    (bx - ax) * (wy - by) > 0,
                    bx - ax >= 0,
                    wy - by >= 0;
            assert((wy - by) * (cx - bx) <= 0);
            assert(cx - bx <= 0) by (nonlinear_arith)
                requires
                    (wy - by) * (cx - bx) <= 0,
                    wy - by > 0;
            assert(cx >= wx);
            assert(cx == bx);
            assert(cy >= wy);
            assert(cross(a, b, c) == (bx - ax) * (cy - by));
            assert((bx - ax) * (cy - by) > 0) by (nonlinear_arith)
                requires
                    bx - ax > 0,
                    cy - by > 0;
        } else {
            // a right turn over an ascending vertical edge is impossible
            assert((bx - ax) * (wy - by) < 0);
            assert(false) by (nonlinear_arith)
                requires
                    (bx - ax) * (wy - by) < 0,
                    bx - ax >= 0,
                    wy - by >= 0;
        }
    } else {
        if left {
            core_propagate(bx - ax, by - ay, wx - bx, wy - by, cx - bx, cy - by);
        } else {
            core_propagate_r(bx - ax, by - ay, wx - bx, wy - by, cx - bx, cy - by);
        }
    }
}

/// A chain over a sorted sequence is itself sorted, strictly so above its
/// first vertex.
proof fn lemma_chain_lex(s: Seq<Point>, left: bool)
    requires
        sorted_lex(s),
    ensures
        sorted_lex(chain_of(s, left)),
        forall|j: int| 1 <= j && j + 1 < chain_of(s, left).len() ==> lex_lt(
            #[trigger] chain_of(s, left)[j],
            chain_of(s, left)[j + 1],
        ),
    decreases s.len(),
{
    if s.len() > 0 {
        let s0 = s.drop_last();
        let c = s.last();
        assert(sorted_lex(s0)) by {
            assert(forall|i: int| 0 <= i < s0.len() ==> s0[i] == s[i]);
        }
        lemma_chain_lex(s0, left);
        let ch0 = chain_of(s0, left);
        lemma_chain_shape(s0, left);
        lemma_shrink_chain(ch0, c, left);
        let sh = shrink_chain(ch0, c, left);
        let ch = chain_of(s, left);
        assert(ch == sh.push(c));
        assert(forall|i: int| 0 <= i < sh.len() ==> sh[i] == ch0[i]);
        assert(forall|i: int| 0 <= i < ch0.len() ==> lex_le(#[trigger] ch0[i], ch0.last()));
        assert(s0.len() >= 1 ==> lex_le(ch0.last(), c)) by {
            if s0.len() >= 1 {
                assert(ch0.last() == s0.last());
                assert(s0.last() == s[s.len() - 2] && lex_le(s[s.len() - 2], s[s.len() - 1]));
            }
        }
        assert forall|i: int, j: int| 0 <= i < j < ch.len() implies lex_le(ch[i], ch[j]) by {
            if j < ch.len() - 1 {
                assert(ch[i] == ch0[i] && ch[j] == ch0[j]);
            } else {
                assert(ch[j] == c);
                assert(ch[i] == ch0[i]);
                assert(lex_le(ch0[i], ch0.last()));
            }
        }
        assert forall|j: int| 1 <= j && j + 1 < ch.len() implies lex_lt(
            #[trigger] ch[j],
            ch[j + 1],
        ) by {
            if j + 1 < ch.len() - 1 {
                assert(ch[j] == ch0[j] && ch[j + 1] == ch0[j + 1]);
            } else {
                assert(sh.len() >= 2);
                assert(ch[j] == sh.last() && ch[j + 1] == c);
                assert(keeps_turn(sh[sh.len() - 2], sh.last(), c, left));
                if sh.last() == c {
                    lemma_cross_degenerate(sh[sh.len() - 2], c);
                    assert(false);
                }
                assert(lex_le(sh.last(), c));
            }
        }
    }
}

/// A point that follows the whole chain and lies weakly on the good side of
/// its last edge lies weakly on the good side of every chain edge.
proof fn lemma_point_above_chain(ch: Seq<Point>, c: Point, left: bool)
    requires
        sorted_lex(ch),
        forall|i: int| 0 <= i && i + 2 < ch.len() ==> keeps_turn(
            #[trigger] ch[i],
            ch[i + 1],
            ch[i + 2],
            left,
        ),
        ch.len() >= 1 ==> lex_le(ch.last(), c),
        ch.len() >= 2 ==> on_good_side(ch[ch.len() - 2], ch.last(), c, left),
    ensures
        forall|j: int| 0 <= j && j + 1 < ch.len() ==> on_good_side(
            #[trigger] ch[j],
            ch[j + 1],
            c,
            left,
        ),
    decreases ch.len(),
{
    if ch.len() > 2 {
        let n = ch.len() as int;
        lemma_turn_extends(ch[n - 3], ch[n - 2], ch[n - 1], c, left);
        let d = ch.drop_last();
        assert(forall|i: int| 0 <= i < d.len() ==> d[i] == ch[i]);
        assert(sorted_lex(d));
        assert(lex_le(d.last(), c)) by {
            assert(lex_le(ch[n - 2], ch[n - 1]));
        }
        lemma_point_above_chain(d, c, left);
        assert forall|j: int| 0 <= j && j + 1 < ch.len() implies on_good_side(
            #[trigger] ch[j],
            ch[j + 1],
            c,
            left,
        ) by {
            if j + 1 < n - 1 {
                assert(d[j] == ch[j] && d[j + 1] == ch[j + 1]);
                assert(on_good_side(d[j], d[j + 1], c, left));
            }
        }
    }
}

/// The invariant of the scan: every point of the sorted sequence lies weakly
/// on the outer side of every edge of either chain. This is the containment
/// half of the hull's correctness.
pub proof fn lemma_chain_sides(s: Seq<Point>, left: bool)
    requires
        sorted_lex(s),
    ensures
        all_on_side(chain_of(s, left), s, left),
    decreases s.len(),
{
    if s.len() > 0 {
        let s0 = s.drop_last();
        assert(sorted_lex(s0)) by {
            assert(forall|i: int| 0 <= i < s0.len() ==> s0[i] == s[i]);
        }
        lemma_chain_sides(s0, left);
        lemma_chain_sides_step(s, left);
    }
}

/// The two families of side facts that one scan step creates: the new point
/// against every surviving edge, and every older point against the one new
/// edge.
#[verifier::rlimit(100)]
proof fn lemma_new_edge_sides(s: Seq<Point>, left: bool)
    requires
        sorted_lex(s),
        s.len() >= 1,
        all_on_side(chain_of(s.drop_last(), left), s.drop_last(), left),
    ensures
        forall|j: int|
            0 <= j && j + 1 < shrink_chain(chain_of(s.drop_last(), left), s.last(), left).len()
                ==> on_good_side(
                #[trigger] shrink_chain(chain_of(s.drop_last(), left), s.last(), left)[j],
                shrink_chain(chain_of(s.drop_last(), left), s.last(), left)[j + 1],
                s.last(),
                left,
            ),
        forall|t: int|
            0 <= t < s.drop_last().len() ==> on_good_side(
                shrink_chain(chain_of(s.drop_last(), left), s.last(), left).last(),
                s.last(),
                #[trigger] s.drop_last()[t],
                left,
            ),
{
    {
        let s0 = s.drop_last();
        let c = s.last();
        assert(sorted_lex(s0)) by {
            assert(forall|i: int| 0 <= i < s0.len() ==> s0[i] == s[i]);
        }
        lemma_chain_lex(s0, left);
        lemma_chain_shape(s0, left);
        lemma_chain_turns(s0, left);
        let ch0 = chain_of(s0, left);
        lemma_shrink_chain(ch0, c, left);
        let sh = shrink_chain(ch0, c, left);
        let ch = chain_of(s, left);
        assert(ch == sh.push(c));
        assert(forall|i: int| 0 <= i < sh.len() ==> sh[i] == ch0[i]);
        assert(forall|t: int| 0 <= t < s0.len() ==> s0[t] == s[t] && lex_le(#[trigger] s[t], c));
        assert(s0.len() >= 1 ==> lex_le(ch0.last(), c)) by {
            if s0.len() >= 1 {
                assert(ch0.last() == s0.last());
                assert(s0.last() == s[s.len() - 2] && lex_le(s[s.len() - 2], s[s.len() - 1]));
            }
        }
        assert(forall|i: int| 0 <= i < ch0.len() ==> lex_le(#[trigger] ch0[i], ch0.last()));
        // the new point lies weakly outside every surviving edge
        assert(sorted_lex(sh));
        assert(forall|i: int| 0 <= i && i + 2 < sh.len() ==> keeps_turn(
            #[trigger] sh[i],
            sh[i + 1],
            sh[i + 2],
            left,
        )) by {
            assert(forall|i: int| 0 <= i && i + 2 < sh.len() ==> #[trigger] sh[i] == ch0[i] && sh[i
                + 1] == ch0[i + 1] && sh[i + 2] == ch0[i + 2]);
        }
        assert(sh.len() >= 1 ==> lex_le(sh.last(), c)) by {
            if sh.len() >= 1 {
                assert(lex_le(ch0[sh.len() - 1], ch0.last()));
            }
        }
        assert(sh.len() >= 2 ==> on_good_side(sh[sh.len() - 2], sh.last(), c, left));
        lemma_point_above_chain(sh, c, left);
        // every older point lies weakly outside the one new edge
        assert forall|t: int| 0 <= t < s0.len() implies on_good_side(
            sh.last(),
            c,
            s0[t],
            left,
        ) by {
            let v = sh.last();
            let p = s0[t];
            if sh.len() >= 2 && lex_le(p, v) {
                let a = sh[sh.len() - 2];
                assert(a == ch0[sh.len() - 2] && v == ch0[sh.len() - 1]);
                assert(on_good_side(a, v, p, left));
                assert(lex_le(a, v));
                assert(lex_le(v, c)) by {
                    assert(lex_le(ch0[sh.len() - 1], ch0.last()));
                }
                lemma_fan_before_vertex(a, v, c, p, left);
            } else if sh.len() == 1 {
                assert(v == ch0[0] && ch0[0] == s0[0]);
                assert(lex_le(s0[0], p));
                if lex_le(p, v) {
                    assert(p == v);
                    lemma_cross_degenerate(v, c);
                    assert(on_good_side(v, c, p, left));
                } else {
                    assert(lex_lt(v, p));
                    fan_after_popped(ch0, sh, c, p, left);
                }
            } else {
                assert(lex_lt(v, p));
                fan_after_popped(ch0, sh, c, p, left);
            }
        }
    }
}

/// One step of the scan keeps the one-sided invariant.
#[verifier::rlimit(100)]
proof fn lemma_chain_sides_step(s: Seq<Point>, left: bool)
    requires
        sorted_lex(s),
        s.len() >= 1,
        all_on_side(chain_of(s.drop_last(), left), s.drop_last(), left),
    ensures
        all_on_side(chain_of(s, left), s, left),
{
    let s0 = s.drop_last();
    let c = s.last();
    let ch0 = chain_of(s0, left);
    lemma_shrink_chain(ch0, c, left);
    lemma_new_edge_sides(s, left);
    let sh = shrink_chain(ch0, c, left);
    let ch = chain_of(s, left);
    assert(ch == sh.push(c));
    assert(forall|i: int| 0 <= i < sh.len() ==> sh[i] == ch0[i]);
    assert forall|j: int, t: int| 0 <= j < ch.len() - 1 && 0 <= t < s.len() implies
        on_good_side(#[trigger] ch[j], ch[j + 1], #[trigger] s[t], left) by {
        if j < sh.len() - 1 {
            assert(ch[j] == ch0[j] && ch[j + 1] == ch0[j + 1]);
            if t < s0.len() {
                assert(s[t] == s0[t]);
                assert(on_good_side(ch0[j], ch0[j + 1], s0[t], left));
            } else {
                assert(s[t] == c);
                assert(on_good_side(sh[j], sh[j + 1], c, left));
            }
        } else {
            assert(j == sh.len() - 1);
            assert(ch[j] == sh.last() && ch[j + 1] == c);
            if t < s0.len() {
                assert(s[t] == s0[t]);
                assert(on_good_side(sh.last(), c, s0[t], left));
            } else {
                assert(s[t] == c);
                lemma_cross_degenerate(sh.last(), c);
                assert(on_good_side(sh.last(), c, c, left));
            }
        }
    }
}

/// The vertex after `i` on the hull boundary, cyclically.
pub open spec fn next_of(h: Seq<Point>, i: int) -> Point {
    if i + 1 < h.len() {
        h[i + 1]
    } else {
        h[0]
    }
}

/// Containment for a sorted sequence: every point of `s` lies on or to the
/// left of every directed edge of the hull boundary, the closing edge
/// included, so the hull polygon encloses all of `s`.
#[verifier::rlimit(100)]
pub proof fn lemma_hull_edge_sides(s: Seq<Point>)
    requires
        sorted_lex(s),
    ensures
        forall|i: int, t: int|
            0 <= i < hull_of_sorted(s).len() && 0 <= t < s.len() ==> cross(
                #[trigger] hull_of_sorted(s)[i],
                next_of(hull_of_sorted(s), i),
                #[trigger] s[t],
            ) >= 0,
{
    let h = hull_of_sorted(s);
    if s.len() < 3 {
        assert forall|i: int, t: int| 0 <= i < h.len() && 0 <= t < s.len() implies cross(
            #[trigger] h[i],
            next_of(h, i),
            #[trigger] s[t],
        ) >= 0 by {
            lemma_cross_degenerate(h[i], next_of(h, i));
            lemma_cross_degenerate(next_of(h, i), h[i]);
            if s.len() == 2 && s[0] != s[1] {
                assert(h == s);
                assert(s[t] == h[i] || s[t] == next_of(h, i));
            } else {
                assert(h[i] == s[0] && next_of(h, i) == s[0]);
                lemma_cross_degenerate(s[0], s[t]);
            }
        }
    } else {
        let a = chain_of(s, true);
        let b = chain_of(s, false);
        let m = a.len() as int;
        let k = b.len() as int;
        lemma_chain_shape(s, true);
        lemma_chain_shape(s, false);
        lemma_chain_sides(s, true);
        lemma_chain_sides(s, false);
        assert(h == a.drop_last() + b.reverse().drop_last());
        assert(h.len() == m + k - 2);
        assert(forall|j: int| 0 <= j < m - 1 ==> #[trigger] h[j] == a[j]);
        assert(forall|t: int| 0 <= t < k - 1 ==> #[trigger] h[m - 1 + t] == b[k - 1 - t]) by {
            assert(forall|t: int| 0 <= t < k - 1 ==> #[trigger] b.reverse()[t] == b[k - 1 - t]);
        }
        assert(h[m - 1] == b[k - 1]);
        assert(a.last() == s.last() && b.last() == s.last());
        assert(h[m - 1] == a[m - 1]);
        assert(h[0] == a[0] && a[0] == s[0] && b[0] == s[0]);
        assert forall|i: int, t: int| 0 <= i < h.len() && 0 <= t < s.len() implies cross(
            #[trigger] h[i],
            next_of(h, i),
            #[trigger] s[t],
        ) >= 0 by {
            let p = s[t];
            if i <= m - 2 {
                assert(h[i] == a[i] && next_of(h, i) == a[i + 1]);
                assert(on_good_side(a[i], a[i + 1], p, true));
            } else if i < h.len() - 1 {
                let u = k - 1 - (i - (m - 1));
                assert(h[i] == b[u] && next_of(h, i) == b[u - 1]);
                assert(on_good_side(b[u - 1], b[u], p, false));
                lemma_cross_swap(b[u - 1], b[u], p);
            } else {
                assert(h[i] == b[1] && next_of(h, i) == b[0]);
                assert(on_good_side(b[0], b[1], p, false));
                lemma_cross_swap(b[0], b[1], p);
            }
        }
    }
}

/// Containment: every input point lies on the boundary of or inside the
/// polygon that the hull traces, being on or to the left of each of its
/// directed edges.
pub proof fn lemma_hull_containment(s: Seq<Point>)
    ensures
        forall|i: int, t: int|
            0 <= i < hull_spec(s).len() && 0 <= t < s.len() ==> cross(
                #[trigger] hull_spec(s)[i],
                next_of(hull_spec(s), i),
                #[trigger] s[t],
            ) >= 0,
{
    let ss = sort_seq(s);
    lemma_sort_seq(s);
    lemma_hull_edge_sides(ss);
    lemma_same_multiset_same_points(ss, s);
    assert forall|i: int, t: int| 0 <= i < hull_spec(s).len() && 0 <= t < s.len() implies cross(
        #[trigger] hull_spec(s)[i],
        next_of(hull_spec(s), i),
        #[trigger] s[t],
    ) >= 0 by {
        assert(s.contains(s[t]));
        assert(ss.contains(s[t]));
        let r = choose|r: int| 0 <= r < ss.len() && ss[r] == s[t];
        assert(cross(hull_of_sorted(ss)[i], next_of(hull_of_sorted(ss), i), ss[r]) >= 0);
    }
}

/// Convexity: around the whole hull boundary, wrap-around included, three
/// consecutive vertices never make a clockwise turn.
pub proof fn lemma_hull_convexity(s: Seq<Point>)
    ensures
        forall|i: int|
            0 <= i < hull_spec(s).len() ==> cross(
                #[trigger] hull_spec(s)[i],
                next_of(hull_spec(s), i),
                next_of(hull_spec(s), if i + 1 < hull_spec(s).len() {
                    i + 1
                } else {
                    0
                }),
            ) >= 0,
{
    let ss = sort_seq(s);
    let h = hull_spec(s);
    lemma_sort_seq(s);
    lemma_hull_edge_sides(ss);
    lemma_hull_of_sorted(ss);
    assert forall|i: int| 0 <= i < h.len() implies cross(
        #[trigger] h[i],
        next_of(h, i),
        next_of(h, if i + 1 < h.len() {
            i + 1
        } else {
            0
        }),
    ) >= 0 by {
        let third = next_of(h, if i + 1 < h.len() {
            i + 1
        } else {
            0
        });
        assert(ss.contains(third)) by {
            if i + 2 < h.len() {
                assert(third == h[i + 2]);
            } else if i + 1 < h.len() {
                assert(third == h[0]);
            } else {
                assert(third == h[if 1 < h.len() {
                    1int
                } else {
                    0int
                }]);
            }
        }
        let r = choose|r: int| 0 <= r < ss.len() && ss[r] == third;
        assert(cross(hull_of_sorted(ss)[i], next_of(hull_of_sorted(ss), i), ss[r]) >= 0);
    }
}

/// The step of `lemma_chain_sides` for an older point that follows the
/// chain's surviving top: it looks through the first popped vertex.
proof fn fan_after_popped(ch0: Seq<Point>, sh: Seq<Point>, c: Point, p: Point, left: bool)
    requires
        sorted_lex(ch0),
        forall|j: int| 1 <= j && j + 1 < ch0.len() ==> lex_lt(#[trigger] ch0[j], ch0[j + 1]),
        forall|i: int| 0 <= i && i + 2 < ch0.len() ==> keeps_turn(
            #[trigger] ch0[i],
            ch0[i + 1],
            ch0[i + 2],
            left,
        ),
        sh == shrink_chain(ch0, c, left),
        sh.len() >= 1,
        forall|i: int| 0 <= i < sh.len() ==> #[trigger] sh[i] == ch0[i],
        forall|j: int| 0 <= j < ch0.len() - 1 ==> on_good_side(
            #[trigger] ch0[j],
            ch0[j + 1],
            p,
            left,
        ),
        ch0.len() >= 1 ==> lex_le(p, ch0.last()),
        ch0.len() >= 1 ==> lex_le(ch0.last(), c),
        lex_lt(sh.last(), p),
    ensures
        on_good_side(sh.last(), c, p, left),
{
    let v = sh.last();
    lemma_shrink_chain(ch0, c, left);
    if sh.len() == ch0.len() {
        // nothing was popped, so the chain's top bounds every older point
        assert(v == ch0.last());
        assert(false);
    } else {
        let q = ch0[sh.len() as int];
        assert(v == ch0[sh.len() - 1]);
        assert(!keeps_turn(v, q, c, left));
        assert(on_good_side(v, q, p, left));
        assert(lex_le(v, q));
        assert(lex_le(q, ch0.last()) && lex_le(ch0.last(), c));
        if v == q {
            // two equal consecutive vertices force a two-point chain of one
            // repeated point, whose top already bounds p
            assert(sh.len() == 1) by {
                if sh.len() >= 2 {
                    assert(lex_lt(ch0[sh.len() - 1], ch0[sh.len() as int]));
                }
            }
            assert(ch0.len() == 2) by {
                if ch0.len() >= 3 {
                    assert(keeps_turn(ch0[0], ch0[1], ch0[2], left));
                    lemma_cross_degenerate(ch0[0], ch0[2]);
                    assert(cross(ch0[0], ch0[1], ch0[2]) == 0);
                    assert(false);
                }
            }
            assert(ch0.last() == q);
            assert(false);
        }
        assert(lex_lt(v, q));
        lemma_fan_after_vertex(v, q, c, p, left);
    }
}

} // verus!
