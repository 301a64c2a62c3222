use vstd::prelude::*;

verus! {

/// One of the four sides of a tile, and the direction across it.
#[allow(non_camel_case_types)]
#[derive(Debug, Clone, Copy, PartialEq, Eq, Structural)]
pub enum Sides {
    TOP,
    RIGHT,
    BOTTOM,
    LEFT,
}

/// The side that faces `s` across a shared edge.
pub open spec fn opposite_of(s: Sides) -> Sides {
    match s {
        Sides::TOP => Sides::BOTTOM,
        Sides::RIGHT => Sides::LEFT,
        Sides::BOTTOM => Sides::TOP,
        Sides::LEFT => Sides::RIGHT,
    }
}

/// The grid step across side `s`; "up" is increasing y.
pub open spec fn offset_of(s: Sides) -> (int, int) {
    match s {
        Sides::TOP => (0, 1),
        Sides::RIGHT => (1, 0),
        Sides::BOTTOM => (0, -1),
        Sides::LEFT => (-1, 0),
    }
}

/// The coordinate reached from `loc` by crossing side `s`.
pub open spec fn neighbor(loc: (i32, i32), s: Sides) -> (int, int) {
    (loc.0 + offset_of(s).0, loc.1 + offset_of(s).1)
}

/// Whether a stored coordinate is the mathematical point `p`.
pub open spec fn at_point(loc: (i32, i32), p: (int, int)) -> bool {
    loc.0 as int == p.0 && loc.1 as int == p.1
}

/// Crossing a side and then its opposite leads back; the opposite of the
/// opposite is the side itself.
pub proof fn lemma_opposite_involution(s: Sides)
    ensures
        opposite_of(opposite_of(s)) == s,
        offset_of(opposite_of(s)).0 == -offset_of(s).0,
        offset_of(opposite_of(s)).1 == -offset_of(s).1,
{
}

impl Sides {
    pub fn opposite(&self) -> (r: Sides)
        ensures
            r == opposite_of(*self),
    {
        match self {
            Sides::TOP => Sides::BOTTOM,
            Sides::RIGHT => Sides::LEFT,
            Sides::BOTTOM => Sides::TOP,
            Sides::LEFT => Sides::RIGHT,
        }
    }

    pub fn offset(&self) -> (r: (i32, i32))
        ensures
            r.0 as int == offset_of(*self).0,
            r.1 as int == offset_of(*self).1,
    {
        match self {
            Sides::TOP => (0, 1),
            Sides::RIGHT => (1, 0),
            Sides::BOTTOM => (0, -1),
            Sides::LEFT => (-1, 0),
        }
    }
}

/// The neighbor of `loc` across `s`, or `None` where it leaves the `i32` grid.
pub fn step_from(loc: (i32, i32), s: Sides) -> (r: Option<(i32, i32)>)
    ensures
        r matches Some(n) ==> at_point(n, neighbor(loc, s)),
        r is None ==> !(i32::MIN <= neighbor(loc, s).0 <= i32::MAX && i32::MIN <= neighbor(loc, s).1
            <= i32::MAX),
{
    let d = s.offset();
    let x = loc.0 as i64 + d.0 as i64;
    let y = loc.1 as i64 + d.1 as i64;
    if x < i32::MIN as i64 || x > i32::MAX as i64 || y < i32::MIN as i64 || y > i32::MAX as i64 {
        None
    } else {
        Some((x as i32, y as i32))
    }
}

/// Squared Euclidean distance of `l` from the origin.
pub fn dist_sq(l: (i32, i32)) -> (r: u64)
    ensures
        r as int == l.0 * l.0 + l.1 * l.1,
{
    let a: u64 = if l.0 < 0 { (-(l.0 as i64)) as u64 } else { l.0 as u64 };
    let b: u64 = if l.1 < 0 { (-(l.1 as i64)) as u64 } else { l.1 as u64 };
    assert(a * a <= 0x4000_0000_0000_0000u64) by (nonlinear_arith)
        requires a <= 0x8000_0000u64;
    assert(b * b <= 0x4000_0000_0000_0000u64) by (nonlinear_arith)
        requires b <= 0x8000_0000u64;
    assert(a * a == l.0 * l.0) by (nonlinear_arith)
        requires a == l.0 || a == -l.0;
    assert(b * b == l.1 * l.1) by (nonlinear_arith)
        requires b == l.1 || b == -l.1;
    a * a + b * b
}

} // verus!
