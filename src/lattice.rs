//! Points of the cubic lattice and their six-neighbour adjacency.
use vstd::arithmetic::div_mod::{lemma_div_denominator, lemma_fundamental_div_mod, lemma_mod_bound};
use vstd::prelude::*;
use vstd::relations::injective_on;
use vstd::set_lib::{lemma_int_range, lemma_len_subset, lemma_map_size, set_int_range};

verus! {

/// A lattice point `(x, y, z)`.
pub type Position = (u8, u8, u8);

/// `p` lies inside the cube of side `n`.
pub open spec fn in_bounds(n: int, p: Position) -> bool {
    p.0 < n && p.1 < n && p.2 < n
}

/// `p` and `q` are one unit apart along exactly one axis.
pub open spec fn unit_step(p: Position, q: Position) -> bool {
    ||| (q.1 == p.1 && q.2 == p.2 && (q.0 == p.0 + 1 || q.0 + 1 == p.0))
    ||| (q.0 == p.0 && q.2 == p.2 && (q.1 == p.1 + 1 || q.1 + 1 == p.1))
    ||| (q.0 == p.0 && q.1 == p.1 && (q.2 == p.2 + 1 || q.2 + 1 == p.2))
}

/// `q` is an in-bounds neighbour of `p` on the cube of side `n`.
pub open spec fn is_neighbor(n: int, p: Position, q: Position) -> bool {
    in_bounds(n, q) && unit_step(p, q)
}

/// Appends `q` to `s` when it lies inside the cube.
pub open spec fn push_if_in(n: int, s: Seq<Position>, ok: bool, q: Position) -> Seq<Position> {
    if ok && in_bounds(n, q) {
        s.push(q)
    } else {
        s
    }
}

/// The in-bounds neighbours of `p`, in the order -x, +x, -y, +y, -z, +z.
pub open spec fn neighbor_seq(n: int, p: Position) -> Seq<Position> {
    let (x, y, z) = p;
    let s0 = Seq::<Position>::empty();
    let s1 = push_if_in(n, s0, x > 0, ((x - 1) as u8, y, z));
    let s2 = push_if_in(n, s1, x < 255, ((x + 1) as u8, y, z));
    let s3 = push_if_in(n, s2, y > 0, (x, (y - 1) as u8, z));
    let s4 = push_if_in(n, s3, y < 255, (x, (y + 1) as u8, z));
    let s5 = push_if_in(n, s4, z > 0, (x, y, (z - 1) as u8));
    push_if_in(n, s5, z < 255, (x, y, (z + 1) as u8))
}

proof fn lemma_push_if_in(n: int, s: Seq<Position>, ok: bool, q: Position)
    ensures
        forall|r: Position|
            #[trigger] push_if_in(n, s, ok, q).contains(r) <==> (s.contains(r) || (ok
                && in_bounds(n, q) && r == q)),
        s.no_duplicates() && !s.contains(q) ==> push_if_in(n, s, ok, q).no_duplicates(),
        push_if_in(n, s, ok, q).len() <= s.len() + 1,
{
    if ok && in_bounds(n, q) {
        assert forall|r: Position| #[trigger] s.push(q).contains(r) <==> (s.contains(r) || r == q) by {
            if s.push(q).contains(r) {
                let i = choose|i: int| 0 <= i < s.len() + 1 && s.push(q)[i] == r;
                if i < s.len() {
                    assert(s[i] == r);
                }
            }
            if s.contains(r) {
                let i = choose|i: int| 0 <= i < s.len() && s[i] == r;
                assert(s.push(q)[i] == r);
            }
            if r == q {
                assert(s.push(q)[s.len() as int] == q);
            }
        }
    }
}

/// The neighbour sequence holds exactly the in-bounds neighbours, once each.
pub proof fn lemma_neighbor_seq(n: int, p: Position)
    ensures
        forall|q: Position| #[trigger] neighbor_seq(n, p).contains(q) <==> is_neighbor(n, p, q),
        neighbor_seq(n, p).no_duplicates(),
        neighbor_seq(n, p).len() <= 6,
{
    let (x, y, z) = p;
    let s0 = Seq::<Position>::empty();
    let q1 = ((x - 1) as u8, y, z);
    let q2 = ((x + 1) as u8, y, z);
    let q3 = (x, (y - 1) as u8, z);
    let q4 = (x, (y + 1) as u8, z);
    let q5 = (x, y, (z - 1) as u8);
    let q6 = (x, y, (z + 1) as u8);
    let s1 = push_if_in(n, s0, x > 0, q1);
    let s2 = push_if_in(n, s1, x < 255, q2);
    let s3 = push_if_in(n, s2, y > 0, q3);
    let s4 = push_if_in(n, s3, y < 255, q4);
    let s5 = push_if_in(n, s4, z > 0, q5);
    let s6 = push_if_in(n, s5, z < 255, q6);
    lemma_push_if_in(n, s0, x > 0, q1);
    lemma_push_if_in(n, s1, x < 255, q2);
    lemma_push_if_in(n, s2, y > 0, q3);
    lemma_push_if_in(n, s3, y < 255, q4);
    lemma_push_if_in(n, s4, z > 0, q5);
    lemma_push_if_in(n, s5, z < 255, q6);
    assert(s6 == neighbor_seq(n, p));
}

/// Side of the part of the cube that `u8` coordinates can name.
pub open spec fn side(n: int) -> int {
    if n < 256 {
        n
    } else {
        256
    }
}

/// Position of `p` in a row-major table of `m * m * m` cells.
pub open spec fn cell_index(m: int, p: Position) -> int {
    (p.0 * m + p.1) * m + p.2
}

pub proof fn lemma_side(n: int, p: Position)
    requires
        n >= 0,
    ensures
        in_bounds(n, p) <==> in_bounds(side(n), p),
        0 <= side(n) <= 256,
{
}

/// Cells inside the cube of side `m` have distinct indices below `m * m * m`.
pub proof fn lemma_cell_index(m: int, p: Position, q: Position)
    requires
        in_bounds(m, p),
        in_bounds(m, q),
    ensures
        0 <= cell_index(m, p) < m * m * m,
        cell_index(m, p) == cell_index(m, q) ==> p == q,
{
    let (a, b, c) = (p.0 as int, p.1 as int, p.2 as int);
    let (d, e, f) = (q.0 as int, q.1 as int, q.2 as int);
    assert(0 <= (a * m + b) * m + c < m * m * m) by (nonlinear_arith)
        requires
            0 <= a < m,
            0 <= b < m,
            0 <= c < m,
    ;
    assert(((a * m + b) * m + c == (d * m + e) * m + f) ==> (a == d && b == e && c == f))
        by (nonlinear_arith)
        requires
            0 <= a < m,
            0 <= b < m,
            0 <= c < m,
            0 <= d < m,
            0 <= e < m,
            0 <= f < m,
    {
        if (a * m + b) * m + c == (d * m + e) * m + f {
            if a * m + b < d * m + e {
                assert((a * m + b) * m + c < (a * m + b + 1) * m);
                assert((a * m + b + 1) * m <= (d * m + e) * m);
            } else if a * m + b > d * m + e {
                assert((d * m + e) * m + f < (d * m + e + 1) * m);
                assert((d * m + e + 1) * m <= (a * m + b) * m);
            }
            assert(a * m + b == d * m + e);
            if a < d {
                assert(a * m + b < (a + 1) * m);
                assert((a + 1) * m <= d * m);
            } else if a > d {
                assert(d * m + e < (d + 1) * m);
                assert((d + 1) * m <= a * m);
            }
        }
    }
}

/// The index of `p` in a row-major table of cells of side `m`.
pub fn cell_index_of(m: usize, p: Position) -> (r: usize)
    requires
        m <= 256,
        in_bounds(m as int, p),
    ensures
        r == cell_index(m as int, p),
        r < m * m * m,
{
    proof {
        lemma_cell_index(m as int, p, p);
        assert(m * m * m <= 256 * 256 * 256) by (nonlinear_arith)
            requires
                m <= 256,
        ;
        assert((p.0 * m + p.1) * m <= 256 * 256 * 256) by (nonlinear_arith)
            requires
                m <= 256,
                p.0 < m,
                p.1 < m,
        ;
        assert(p.0 * m <= 256 * 256) by (nonlinear_arith)
            requires
                m <= 256,
                p.0 < m,
        ;
    }
    ((p.0 as usize) * m + (p.1 as usize)) * m + (p.2 as usize)
}

/// The side of the nameable part of a cube of side `n`.
pub fn side_of(n: usize) -> (r: usize)
    ensures
        r == side(n as int),
{
    if n < 256 {
        n
    } else {
        256
    }
}

/// The cell with index `k` in a row-major table of side `m`.
pub open spec fn cell_of(m: int, k: int) -> Position {
    let mm = m * m;
    ((k / mm) as u8, ((k / m) % m) as u8, (k % m) as u8)
}

/// Decoding an index below `m * m * m` gives the in-bounds cell with that index.
pub proof fn lemma_cell_of(m: int, k: int)
    requires
        0 < m <= 256,
        0 <= k < m * m * m,
    ensures
        in_bounds(m, cell_of(m, k)),
        cell_index(m, cell_of(m, k)) == k,
        m * m > 0,
        0 <= k / (m * m) < m,
        0 <= (k / m) % m < m,
        0 <= k % m < m,
{
    let x = k / (m * m);
    let y = (k / m) % m;
    let z = k % m;
    lemma_div_denominator(k, m, m);
    assert(x == (k / m) / m);
    lemma_fundamental_div_mod(k, m);
    lemma_fundamental_div_mod(k / m, m);
    lemma_mod_bound(k, m);
    lemma_mod_bound(k / m, m);
    assert(m * m > 0) by (nonlinear_arith)
        requires
            m > 0,
    ;
    assert(0 <= x < m) by (nonlinear_arith)
        requires
            x == k / (m * m),
            0 <= k < m * m * m,
            m * m > 0,
    {
        assert(k / (m * m) < m) by {
            assert(k < (m * m) * m);
        }
    }
    assert(k / m >= 0) by (nonlinear_arith)
        requires
            k >= 0,
            m > 0,
    ;
    assert(cell_of(m, k).0 as int == x);
    assert(cell_of(m, k).1 as int == y);
    assert(cell_of(m, k).2 as int == z);
    assert((x * m + y) * m + z == k) by (nonlinear_arith)
        requires
            k == m * (k / m) + z,
            k / m == m * x + y,
    ;
}

/// A finite set of cells inside the cube of side `n` has at most
/// `side(n) ** 3` members.
pub proof fn lemma_cube_bound(n: int, s: Set<Position>)
    requires
        n >= 0,
        s.finite(),
        forall|q: Position| #[trigger] s.contains(q) ==> in_bounds(n, q),
    ensures
        s.len() <= side(n) * side(n) * side(n),
{
    let m = side(n);
    let f = |q: Position| cell_index(m, q);
    assert forall|p: Position, q: Position|
        s.contains(p) && s.contains(q) && #[trigger] f(p) == #[trigger] f(q) implies p == q by {
        lemma_cell_index(m, p, q);
    }
    assert(injective_on(f, s));
    lemma_map_size(s, s.map(f), f);
    assert(s.map(f).subset_of(set_int_range(0, m * m * m))) by {
        assert forall|i: int| #[trigger] s.map(f).contains(i) implies set_int_range(
            0,
            m * m * m,
        ).contains(i) by {
            let q = choose|q: Position| s.contains(q) && f(q) == i;
            lemma_cell_index(m, q, q);
        }
    }
    lemma_int_range(0, m * m * m);
    lemma_len_subset(s.map(f), set_int_range(0, m * m * m));
}

/// The cell with index `k` in a row-major table of side `m`.
pub fn cell_at(m: usize, k: usize) -> (r: Position)
    requires
        0 < m <= 256,
        k < m * m * m,
    ensures
        r == cell_of(m as int, k as int),
        in_bounds(m as int, r),
        cell_index(m as int, r) == k,
{
    proof {
        lemma_cell_of(m as int, k as int);
        assert(m * m <= 65536) by (nonlinear_arith)
            requires
                m <= 256,
        ;
    }
    let mm = m * m;
    ((k / mm) as u8, ((k / m) % m) as u8, (k % m) as u8)
}

/// Whether two points are the same.
pub fn same_position(a: Position, b: Position) -> (r: bool)
    ensures
        r == (a == b),
{
    a.0 == b.0 && a.1 == b.1 && a.2 == b.2
}

/// The in-bounds neighbours of `pos` on the cube of side `n`, in the fixed
/// order -x, +x, -y, +y, -z, +z.
pub fn neighbors_of(n: usize, pos: Position) -> (r: Vec<Position>)
    ensures
        r@ == neighbor_seq(n as int, pos),
{
    let (x, y, z) = pos;
    let mut r: Vec<Position> = Vec::new();
    if x > 0 && ((x - 1) as usize) < n && (y as usize) < n && (z as usize) < n {
        r.push((x - 1, y, z));
    }
    if x < 255 && ((x + 1) as usize) < n && (y as usize) < n && (z as usize) < n {
        r.push((x + 1, y, z));
    }
    if y > 0 && (x as usize) < n && ((y - 1) as usize) < n && (z as usize) < n {
        r.push((x, y - 1, z));
    }
    if y < 255 && (x as usize) < n && ((y + 1) as usize) < n && (z as usize) < n {
        r.push((x, y + 1, z));
    }
    if z > 0 && (x as usize) < n && (y as usize) < n && ((z - 1) as usize) < n {
        r.push((x, y, z - 1));
    }
    if z < 255 && (x as usize) < n && (y as usize) < n && ((z + 1) as usize) < n {
        r.push((x, y, z + 1));
    }
    r
}

} // verus!
