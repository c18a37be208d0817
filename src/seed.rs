//! Decorative starting patterns: a fixed five-stone arrangement on the
//! three-cube, a dodecahedron-like arrangement on other sizes, and a nine-stone
//! arrangement for checking the display by eye.
//!
//! The dodecahedron is computed in fixed point: directions are given in
//! millionths of a cell, the radius in thousandths, so a coordinate is an exact
//! integer count of billionths of a cell.
use vstd::prelude::*;

use crate::lattice::{in_bounds, side, Position};
use crate::stone::StoneColor;

verus! {

/// One unit of direction, in millionths.
pub const UNIT: i64 = 1000000;

/// The golden ratio, in millionths.
pub const GOLDEN: i64 = 1618034;

/// The inverse of the golden ratio, in millionths.
pub const GOLDEN_INV: i64 = 618034;

/// Short offset of a face centre (0.7 scaled by 0.8), in millionths.
pub const FACE_NEAR: i64 = 560000;

/// Long offset of a face centre (1.4 scaled by 0.8), in millionths.
pub const FACE_FAR: i64 = 1120000;

/// Billionths in one cell.
pub const BILLION: i64 = 1000000000;

/// `m` with a stone of `c` added at `p`, when `p` is inside the cube of side
/// `n` and still empty; what `Board::place_stone` does.
pub open spec fn place_if(m: Map<Position, StoneColor>, n: int, p: Position, c: StoneColor) -> Map<
    Position,
    StoneColor,
> {
    if in_bounds(n, p) && !m.contains_key(p) {
        m.insert(p, c)
    } else {
        m
    }
}

/// `m` after placing a stone of `c` at each point of `pts` in order; `None`
/// entries are skipped.
pub open spec fn place_points(
    m: Map<Position, StoneColor>,
    n: int,
    pts: Seq<Option<Position>>,
    c: StoneColor,
) -> Map<Position, StoneColor>
    decreases pts.len(),
{
    if pts.len() == 0 {
        m
    } else {
        let before = place_points(m, n, pts.drop_last(), c);
        match pts.last() {
            Some(p) => place_if(before, n, p, c),
            None => before,
        }
    }
}

/// Direction of dodecahedron vertex `i` (of 20), in millionths.
pub open spec fn vertex_dir(i: int) -> (int, int, int) {
    let (u, g, h) = (UNIT as int, GOLDEN as int, GOLDEN_INV as int);
    if i == 0 { (u, u, u) }
    else if i == 1 { (u, u, -u) }
    else if i == 2 { (u, -u, u) }
    else if i == 3 { (u, -u, -u) }
    else if i == 4 { (-u, u, u) }
    else if i == 5 { (-u, u, -u) }
    else if i == 6 { (-u, -u, u) }
    else if i == 7 { (-u, -u, -u) }
    else if i == 8 { (0, h, g) }
    else if i == 9 { (0, h, -g) }
    else if i == 10 { (0, -h, g) }
    else if i == 11 { (0, -h, -g) }
    else if i == 12 { (h, g, 0) }
    else if i == 13 { (h, -g, 0) }
    else if i == 14 { (-h, g, 0) }
    else if i == 15 { (-h, -g, 0) }
    else if i == 16 { (g, 0, h) }
    else if i == 17 { (g, 0, -h) }
    else if i == 18 { (-g, 0, h) }
    else { (-g, 0, -h) }
}

/// Direction of face centre `i` (of 12), already scaled by 0.8, in millionths.
pub open spec fn face_dir(i: int) -> (int, int, int) {
    let (a, b) = (FACE_NEAR as int, FACE_FAR as int);
    if i == 0 { (0, a, b) }
    else if i == 1 { (0, a, -b) }
    else if i == 2 { (0, -a, b) }
    else if i == 3 { (0, -a, -b) }
    else if i == 4 { (b, 0, a) }
    else if i == 5 { (b, 0, -a) }
    else if i == 6 { (-b, 0, a) }
    else if i == 7 { (-b, 0, -a) }
    else if i == 8 { (a, b, 0) }
    else if i == 9 { (a, -b, 0) }
    else if i == 10 { (-a, b, 0) }
    else { (-a, -b, 0) }
}

/// Radius of the pattern in thousandths of a cell: 0.35 of the side, at most 5.
pub open spec fn seed_radius(n: int) -> int {
    if 350 * n < 5000 {
        350 * n
    } else {
        5000
    }
}

/// Billionths of a cell from the cube's corner to the centre plus `d` times
/// the radius.
pub open spec fn seed_offset(n: int, d: int) -> int {
    500000000 * n + d * seed_radius(n)
}

/// The cell, if any, that one coordinate offset falls in.
pub open spec fn seed_axis(n: int, d: int) -> Option<u8> {
    let v = seed_offset(n, d);
    if 0 <= v && v / (BILLION as int) < side(n) {
        Some((v / (BILLION as int)) as u8)
    } else {
        None
    }
}

/// The lattice point that direction `d` lands on, when it lands inside the cube.
pub open spec fn seed_point(n: int, d: (int, int, int)) -> Option<Position> {
    match (seed_axis(n, d.0), seed_axis(n, d.1), seed_axis(n, d.2)) {
        (Some(x), Some(y), Some(z)) => Some((x, y, z)),
        _ => None,
    }
}

pub open spec fn vertex_points(n: int) -> Seq<Option<Position>> {
    Seq::new(20, |i: int| seed_point(n, vertex_dir(i)))
}

pub open spec fn face_points(n: int) -> Seq<Option<Position>> {
    Seq::new(12, |i: int| seed_point(n, face_dir(i)))
}

/// `m0` after the five stones of the three-cube pattern are placed in this
/// order, each only where its cell is still free.
pub open spec fn small_seed(m0: Map<Position, StoneColor>, n: int) -> Map<Position, StoneColor> {
    let m1 = place_if(m0, n, (0, 0, 0), StoneColor::Black);
    let m2 = place_if(m1, n, (2, 0, 2), StoneColor::Black);
    let m3 = place_if(m2, n, (1, 1, 1), StoneColor::White);
    let m4 = place_if(m3, n, (0, 2, 0), StoneColor::Black);
    place_if(m4, n, (2, 2, 2), StoneColor::Black)
}

/// `m` with the starting pattern of a board of side `n` placed over it, no
/// stone going where a cell is already taken: the fixed pattern on the
/// three-cube; otherwise black stones on the dodecahedron's vertices, then
/// white stones on its face centres.
pub open spec fn seed_on(m: Map<Position, StoneColor>, n: int) -> Map<Position, StoneColor> {
    if n == 3 {
        small_seed(m, n)
    } else {
        place_points(
            place_points(m, n, vertex_points(n), StoneColor::Black),
            n,
            face_points(n),
            StoneColor::White,
        )
    }
}

/// The starting stones of an empty board of side `n`.
pub open spec fn seed_stones(n: int) -> Map<Position, StoneColor> {
    seed_on(Map::empty(), n)
}

/// The nine stones of the display check pattern, placed in this order.
pub open spec fn test_pattern_stones(n: int) -> Map<Position, StoneColor> {
    let m0 = Map::<Position, StoneColor>::empty();
    let m1 = place_if(m0, n, (0, 0, 0), StoneColor::Black);
    let m2 = place_if(m1, n, (2, 0, 0), StoneColor::White);
    let m3 = place_if(m2, n, (0, 0, 2), StoneColor::Black);
    let m4 = place_if(m3, n, (1, 1, 1), StoneColor::White);
    let m5 = place_if(m4, n, (0, 1, 1), StoneColor::Black);
    let m6 = place_if(m5, n, (2, 1, 1), StoneColor::White);
    let m7 = place_if(m6, n, (2, 2, 2), StoneColor::White);
    let m8 = place_if(m7, n, (0, 2, 2), StoneColor::Black);
    place_if(m8, n, (1, 2, 0), StoneColor::White)
}

pub fn vertex_direction(i: usize) -> (r: (i64, i64, i64))
    requires
        i < 20,
    ensures
        (r.0 as int, r.1 as int, r.2 as int) == vertex_dir(i as int),
{
    let (u, g, h) = (UNIT, GOLDEN, GOLDEN_INV);
    if i == 0 { (u, u, u) }
    else if i == 1 { (u, u, -u) }
    else if i == 2 { (u, -u, u) }
    else if i == 3 { (u, -u, -u) }
    else if i == 4 { (-u, u, u) }
    else if i == 5 { (-u, u, -u) }
    else if i == 6 { (-u, -u, u) }
    else if i == 7 { (-u, -u, -u) }
    else if i == 8 { (0, h, g) }
    else if i == 9 { (0, h, -g) }
    else if i == 10 { (0, -h, g) }
    else if i == 11 { (0, -h, -g) }
    else if i == 12 { (h, g, 0) }
    else if i == 13 { (h, -g, 0) }
    else if i == 14 { (-h, g, 0) }
    else if i == 15 { (-h, -g, 0) }
    else if i == 16 { (g, 0, h) }
    else if i == 17 { (g, 0, -h) }
    else if i == 18 { (-g, 0, h) }
    else { (-g, 0, -h) }
}

pub fn face_direction(i: usize) -> (r: (i64, i64, i64))
    requires
        i < 12,
    ensures
        (r.0 as int, r.1 as int, r.2 as int) == face_dir(i as int),
{
    let (a, b) = (FACE_NEAR, FACE_FAR);
    if i == 0 { (0, a, b) }
    else if i == 1 { (0, a, -b) }
    else if i == 2 { (0, -a, b) }
    else if i == 3 { (0, -a, -b) }
    else if i == 4 { (b, 0, a) }
    else if i == 5 { (b, 0, -a) }
    else if i == 6 { (-b, 0, a) }
    else if i == 7 { (-b, 0, -a) }
    else if i == 8 { (a, b, 0) }
    else if i == 9 { (a, -b, 0) }
    else if i == 10 { (-a, b, 0) }
    else { (-a, -b, 0) }
}

/// The cell that one coordinate offset falls in, if any.
fn axis_cell(n: usize, d: i64) -> (r: Option<u8>)
    requires
        -2000000 <= d <= 2000000,
    ensures
        r == seed_axis(n as int, d as int),
{
    if n > 1024 {
        proof {
            let v = seed_offset(n as int, d as int);
            assert(seed_radius(n as int) == 5000);
            assert(v >= 500000000 * 1025 - 2000000 * 5000) by (nonlinear_arith)
                requires
                    v == 500000000 * n + d * 5000,
                    n > 1024,
                    -2000000 <= d,
            ;
            assert(v / 1000000000 >= 256);
        }
        return None;
    }
    let radius: i64 = if 350 * (n as i64) < 5000 {
        350 * (n as i64)
    } else {
        5000
    };
    proof {
        assert(-2000000 * 5000 <= d * radius <= 2000000 * 5000) by (nonlinear_arith)
            requires
                -2000000 <= d <= 2000000,
                0 <= radius <= 5000,
        ;
    }
    let v: i64 = 500000000 * (n as i64) + d * radius;
    let m: i64 = if n < 256 {
        n as i64
    } else {
        256
    };
    if 0 <= v && v / BILLION < m {
        Some((v / BILLION) as u8)
    } else {
        None
    }
}

/// The lattice point that direction `d` lands on, if it is inside the cube.
pub fn seed_cell(n: usize, d: (i64, i64, i64)) -> (r: Option<Position>)
    requires
        -2000000 <= d.0 <= 2000000,
        -2000000 <= d.1 <= 2000000,
        -2000000 <= d.2 <= 2000000,
    ensures
        r == seed_point(n as int, (d.0 as int, d.1 as int, d.2 as int)),
{
    match (axis_cell(n, d.0), axis_cell(n, d.1), axis_cell(n, d.2)) {
        (Some(x), Some(y), Some(z)) => Some((x, y, z)),
        _ => None,
    }
}

} // verus!
