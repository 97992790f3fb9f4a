//! Points with exact integer coordinates, the lexicographic order on them,
//! and the exact orientation predicate.

use vstd::prelude::*;

verus! {

/// A point in the plane. Coordinates are exact integers, so every geometric
/// test below is free of rounding error.
#[derive(Clone, Copy, PartialEq, Eq, Structural, Debug)]
pub struct Point {
    pub x: i32,
    pub y: i32,
}

impl Point {
    pub fn new(x: i32, y: i32) -> (p: Point)
        ensures
            p.x == x,
            p.y == y,
    {
        Point { x, y }
    }
}

/// Twice the signed area of the triangle `(a, b, c)`: positive exactly when
/// `a -> b -> c` is a counter-clockwise (left) turn, negative for a clockwise
/// (right) turn, and zero when the three points are collinear.
pub open spec fn cross(a: Point, b: Point, c: Point) -> int {
    (b.x - a.x) * (c.y - a.y) - (b.y - a.y) * (c.x - a.x)
}

/// Lexicographic order: by `x`, with ties broken by `y`.
pub open spec fn lex_lt(a: Point, b: Point) -> bool {
    a.x < b.x || (a.x == b.x && a.y < b.y)
}

pub open spec fn lex_le(a: Point, b: Point) -> bool {
    lex_lt(a, b) || a == b
}

/// The orientation predicate: the sign of `cross(a, b, c)` is the turn
/// direction of `a -> b -> c`. Computing in `i128` keeps the arithmetic exact
/// for every pair of `i32` coordinates, so the sign is always trustworthy,
/// however close to collinear the points are.
pub fn orientation(a: Point, b: Point, c: Point) -> (r: i128)
    ensures
        r == cross(a, b, c),
{
    let bax: i128 = b.x as i128 - a.x as i128;
    let cay: i128 = c.y as i128 - a.y as i128;
    let bay: i128 = b.y as i128 - a.y as i128;
    let cax: i128 = c.x as i128 - a.x as i128;
    proof {
        assert(bax * cay < 0x2_0000_0000_0000_0000 && bax * cay > -0x2_0000_0000_0000_0000)
            by (nonlinear_arith)
            requires
                -0x1_0000_0000 < bax < 0x1_0000_0000,
                -0x1_0000_0000 < cay < 0x1_0000_0000;
        assert(bay * cax < 0x2_0000_0000_0000_0000 && bay * cax > -0x2_0000_0000_0000_0000)
            by (nonlinear_arith)
            requires
                -0x1_0000_0000 < bay < 0x1_0000_0000,
                -0x1_0000_0000 < cax < 0x1_0000_0000;
    }
    bax * cay - bay * cax
}

/// Executable form of `lex_lt`.
pub fn lex_less(a: Point, b: Point) -> (r: bool)
    ensures
        r == lex_lt(a, b),
{
    a.x < b.x || (a.x == b.x && a.y < b.y)
}

} // verus!
