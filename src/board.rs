//! The board: which lattice cells hold which stones, plus capture counters.
use vstd::prelude::*;

use vstd::set_lib::lemma_len_subset;

use crate::connectivity::{component, content, joined, lemma_joined_facts, liberty_set};
use crate::flood::fill_component;
use crate::lattice::{
    cell_at, cell_index, cell_of, in_bounds, is_neighbor, lemma_cell_index, lemma_cell_of, lemma_neighbor_seq, lemma_side,
    neighbor_seq, neighbors_of, same_position, side, side_of, Position,
};
use crate::seed::{
    face_direction, face_points, place_points, seed_cell, seed_on, seed_stones, test_pattern_stones,
    vertex_direction, vertex_points,
};
use crate::stone::StoneColor;

verus! {

/// Abstract state of a board.
pub struct BoardView {
    /// The occupied cells and the colour on each.
    pub stones: Map<Position, StoneColor>,
    /// Side length of the cube.
    pub size: nat,
    /// Black stones removed by captures so far.
    pub captured_black: nat,
    /// White stones removed by captures so far.
    pub captured_white: nat,
}

impl BoardView {
    /// Finitely many stones, all inside the cube; counters that fit a `usize`.
    pub open spec fn valid(self) -> bool {
        &&& self.stones.dom().finite()
        &&& self.captured_black <= usize::MAX
        &&& self.captured_white <= usize::MAX
        &&& forall|p: Position| #[trigger] self.stones.contains_key(p) ==> in_bounds(self.size as int, p)
    }

    pub open spec fn captured(self, c: StoneColor) -> nat {
        match c {
            StoneColor::Black => self.captured_black,
            StoneColor::White => self.captured_white,
        }
    }
}

/// `a + b`, held at `usize::MAX` where it would not fit.
pub open spec fn sat_add(a: nat, b: nat) -> nat {
    if a + b > usize::MAX {
        usize::MAX as nat
    } else {
        a + b
    }
}

/// The cells of `g` that hold a stone on `b`.
pub open spec fn occupied_in(b: Map<Position, StoneColor>, g: Set<Position>) -> Set<Position> {
    g.filter(|p: Position| b.contains_key(p))
}

/// The cells of `g` that hold a stone of colour `c` on `b`.
pub open spec fn colored_in(b: Map<Position, StoneColor>, g: Set<Position>, c: StoneColor) -> Set<
    Position,
> {
    g.filter(|p: Position| content(b, p) == Some(c))
}

/// Every cell of the nameable cube, in row-major order.
pub open spec fn all_cells(n: int) -> Seq<Position> {
    Seq::new((side(n) * side(n) * side(n)) as nat, |k: int| cell_of(side(n), k))
}

/// The empty cells of the cube, in row-major order.
pub open spec fn empty_cells(b: Map<Position, StoneColor>, n: int) -> Seq<Position> {
    all_cells(n).filter(|q: Position| !b.contains_key(q))
}

/// A table of `m * m * m` unmarked cells.
pub fn blank_marks(m: usize) -> (r: Vec<bool>)
    requires
        m <= 256,
    ensures
        r@.len() == m * m * m,
        forall|i: int| 0 <= i < r@.len() ==> !#[trigger] r@[i],
{
    proof {
        assert(m * m <= 256 * 256) by (nonlinear_arith)
            requires
                m <= 256,
        ;
        assert(m * m * m <= 256 * 256 * 256) by (nonlinear_arith)
            requires
                m <= 256,
        ;
    }
    let total = m * m * m;
    let mut r: Vec<bool> = Vec::new();
    while r.len() < total
        invariant
            r@.len() <= total,
            total == m * m * m,
            forall|i: int| 0 <= i < r@.len() ==> !#[trigger] r@[i],
        decreases total - r@.len(),
    {
        r.push(false);
    }
    r
}

/// Whether `p` occurs in `v`.
pub fn contains_position(v: &Vec<Position>, p: Position) -> (r: bool)
    ensures
        r == v@.contains(p),
{
    let mut i: usize = 0;
    while i < v.len()
        invariant
            i <= v@.len(),
            forall|j: int| 0 <= j < i ==> v@[j] != p,
        decreases v@.len() - i,
    {
        if same_position(v[i], p) {
            return true;
        }
        i = i + 1;
    }
    false
}

/// No point appears twice among the entries.
pub open spec fn unique_keys(s: Seq<(Position, StoneColor)>) -> bool {
    forall|i: int, j: int|
        0 <= i < s.len() && 0 <= j < s.len() && #[trigger] s[i].0 == #[trigger] s[j].0 ==> i == j
}

/// The map that a list of entries describes.
pub open spec fn entries_map(s: Seq<(Position, StoneColor)>) -> Map<Position, StoneColor>
    decreases s.len(),
{
    if s.len() == 0 {
        Map::empty()
    } else {
        entries_map(s.drop_last()).insert(s.last().0, s.last().1)
    }
}

pub proof fn lemma_entries_map(s: Seq<(Position, StoneColor)>)
    requires
        unique_keys(s),
    ensures
        forall|i: int|
            0 <= i < s.len() ==> entries_map(s).contains_key(#[trigger] s[i].0) && entries_map(
                s,
            )[s[i].0] == s[i].1,
        forall|p: Position| #[trigger]
            entries_map(s).contains_key(p) ==> exists|i: int| 0 <= i < s.len() && s[i].0 == p,
        entries_map(s).dom().finite(),
        entries_map(s).dom().len() == s.len(),
    decreases s.len(),
{
    if s.len() > 0 {
        let t = s.drop_last();
        assert(unique_keys(t)) by {
            assert forall|i: int, j: int|
                0 <= i < t.len() && 0 <= j < t.len() && #[trigger] t[i].0 == #[trigger] t[j].0 implies i
                == j by {
                assert(s[i].0 == t[i].0 && s[j].0 == t[j].0);
            }
        }
        lemma_entries_map(t);
        let last = s.last();
        assert(!entries_map(t).contains_key(last.0)) by {
            if entries_map(t).contains_key(last.0) {
                let i = choose|i: int| 0 <= i < t.len() && t[i].0 == last.0;
                assert(s[i].0 == s[s.len() - 1].0);
            }
        }
        assert forall|i: int| 0 <= i < s.len() implies entries_map(s).contains_key(
            #[trigger] s[i].0,
        ) && entries_map(s)[s[i].0] == s[i].1 by {
            if i < s.len() - 1 {
                assert(s[i] == t[i]);
                assert(s[i].0 != last.0);
            }
        }
        assert forall|p: Position| #[trigger]
            entries_map(s).contains_key(p) implies exists|i: int| 0 <= i < s.len() && s[i].0 == p by {
            if p != last.0 {
                let i = choose|i: int| 0 <= i < t.len() && t[i].0 == p;
                assert(s[i].0 == p);
            } else {
                assert(s[s.len() - 1].0 == p);
            }
        }
    }
}

proof fn lemma_entries_push(s: Seq<(Position, StoneColor)>, e: (Position, StoneColor))
    ensures
        entries_map(s.push(e)) == entries_map(s).insert(e.0, e.1),
{
    assert(s.push(e).drop_last() =~= s);
}

proof fn lemma_entries_remove(s: Seq<(Position, StoneColor)>, i: int)
    requires
        unique_keys(s),
        0 <= i < s.len(),
    ensures
        unique_keys(s.remove(i)),
        entries_map(s.remove(i)) == entries_map(s).remove(s[i].0),
{
    let t = s.remove(i);
    assert forall|a: int, c: int|
        0 <= a < t.len() && 0 <= c < t.len() && #[trigger] t[a].0 == #[trigger] t[c].0 implies a
        == c by {
        let a2 = if a < i { a } else { a + 1 };
        let c2 = if c < i { c } else { c + 1 };
        assert(t[a] == s[a2] && t[c] == s[c2]);
    }
    lemma_entries_map(s);
    lemma_entries_map(t);
    let m = entries_map(s).remove(s[i].0);
    assert forall|p: Position| #[trigger] entries_map(t).contains_key(p) <==> m.contains_key(p) by {
        if entries_map(t).contains_key(p) {
            let a = choose|a: int| 0 <= a < t.len() && t[a].0 == p;
            let a2 = if a < i { a } else { a + 1 };
            assert(t[a] == s[a2]);
        }
        if m.contains_key(p) {
            let a = choose|a: int| 0 <= a < s.len() && s[a].0 == p;
            assert(a != i);
            let a2 = if a < i { a } else { a - 1 };
            assert(t[a2] == s[a]);
        }
    }
    assert forall|p: Position| #[trigger] entries_map(t).contains_key(p) implies entries_map(t)[p]
        == m[p] by {
        let a = choose|a: int| 0 <= a < t.len() && t[a].0 == p;
        let a2 = if a < i { a } else { a + 1 };
        assert(t[a] == s[a2]);
    }
    assert(entries_map(t) =~= m);
}

/// Side of the board that the program starts with.
pub const BOARD_SIZE: usize = 3;

/// A cube of stones, with the count of stones of each colour captured so far.
///
/// The stones are kept as a list of entries with no position twice. A hash
/// map keyed by the point would do as well at run time, but vstd models hash
/// maps only for keys such as integers, not for tuples; the list's view is an
/// ordinary `Map`, and the boards here are small.
#[derive(Debug, Clone)]
pub struct Board {
    stones: Vec<(Position, StoneColor)>,
    size: usize,
    captured_black: usize,
    captured_white: usize,
}

impl View for Board {
    type V = BoardView;

    closed spec fn view(&self) -> BoardView {
        BoardView {
            stones: entries_map(self.stones@),
            size: self.size as nat,
            captured_black: self.captured_black as nat,
            captured_white: self.captured_white as nat,
        }
    }
}

impl Default for Board {
    /// A board of side [`BOARD_SIZE`] holding the starting pattern.
    fn default() -> (r: Board)
        ensures
            r.wf(),
            r@.stones == seed_stones(BOARD_SIZE as int),
            r@.size == BOARD_SIZE,
            r@.captured_black == 0,
            r@.captured_white == 0,
    {
        Board::new_with_dodecahedron(BOARD_SIZE)
    }
}

impl Board {
    pub closed spec fn store_ok(&self) -> bool {
        &&& unique_keys(self.stones@)
        &&& forall|i: int|
            0 <= i < self.stones@.len() ==> in_bounds(self.size as int, #[trigger] self.stones@[i].0)
    }

    /// The board's internal invariant; it implies a valid view.
    pub open spec fn wf(&self) -> bool {
        &&& self.store_ok()
        &&& self@.valid()
    }

    proof fn lemma_store_ok(&self)
        requires
            self.store_ok(),
        ensures
            self.wf(),
    {
        lemma_entries_map(self.stones@);
        assert forall|p: Position| #[trigger] self@.stones.contains_key(p) implies in_bounds(
            self@.size as int,
            p,
        ) by {
            let i = choose|i: int| 0 <= i < self.stones@.len() && self.stones@[i].0 == p;
            assert(in_bounds(self.size as int, self.stones@[i].0));
        }
    }

    /// An empty board of side `size`.
    pub fn new(size: usize) -> (r: Board)
        ensures
            r.wf(),
            r@.stones == Map::<Position, StoneColor>::empty(),
            r@.size == size,
            r@.captured_black == 0,
            r@.captured_white == 0,
    {
        let r = Board { stones: Vec::new(), size, captured_black: 0, captured_white: 0 };
        proof {
            r.lemma_store_ok();
        }
        r
    }

    /// An independent copy of this board.
    pub fn snapshot(&self) -> (r: Board)
        requires
            self.wf(),
        ensures
            r.wf(),
            r@ == self@,
    {
        let mut stones: Vec<(Position, StoneColor)> = Vec::new();
        let mut i: usize = 0;
        while i < self.stones.len()
            invariant
                i <= self.stones.len(),
                stones@ == self.stones@.take(i as int),
            decreases self.stones.len() - i,
        {
            stones.push(self.stones[i]);
            i = i + 1;
            assert(stones@ =~= self.stones@.take(i as int));
        }
        assert(stones@ =~= self.stones@);
        Board {
            stones,
            size: self.size,
            captured_black: self.captured_black,
            captured_white: self.captured_white,
        }
    }

    pub fn size(&self) -> (r: usize)
        ensures
            r == self@.size,
    {
        self.size
    }

    /// How many stones are on the board.
    pub fn get_stone_count(&self) -> (r: usize)
        requires
            self.wf(),
        ensures
            r == self@.stones.len(),
    {
        proof {
            lemma_entries_map(self.stones@);
        }
        self.stones.len()
    }

    /// Whether `(x, y, z)` lies inside the cube.
    pub fn is_valid_position(&self, x: u8, y: u8, z: u8) -> (r: bool)
        ensures
            r == in_bounds(self@.size as int, (x, y, z)),
    {
        (x as usize) < self.size && (y as usize) < self.size && (z as usize) < self.size
    }

    fn find(&self, pos: Position) -> (r: Option<usize>)
        requires
            self.wf(),
        ensures
            match r {
                Some(i) => i < self.stones@.len() && self.stones@[i as int].0 == pos,
                None => !self@.stones.contains_key(pos),
            },
    {
        proof {
            lemma_entries_map(self.stones@);
        }
        let mut i: usize = 0;
        while i < self.stones.len()
            invariant
                i <= self.stones.len(),
                forall|j: int| 0 <= j < i ==> self.stones@[j].0 != pos,
            decreases self.stones.len() - i,
        {
            if same_position(self.stones[i].0, pos) {
                return Some(i);
            }
            i = i + 1;
        }
        None
    }

    /// The colour of the stone at `pos`; `None` for an empty or outside cell.
    pub fn get_stone(&self, pos: Position) -> (r: Option<StoneColor>)
        requires
            self.wf(),
        ensures
            r == content(self@.stones, pos),
    {
        proof {
            lemma_entries_map(self.stones@);
        }
        match self.find(pos) {
            Some(i) => Some(self.stones[i].1),
            None => None,
        }
    }

    /// Puts a stone of `color` at `(x, y, z)`. Fails, changing nothing, when the
    /// cell is outside the cube or already occupied.
    pub fn place_stone(&mut self, color: StoneColor, x: u8, y: u8, z: u8) -> (r: bool)
        requires
            old(self).wf(),
        ensures
            final(self).wf(),
            r == (in_bounds(old(self)@.size as int, (x, y, z)) && !old(self)@.stones.contains_key(
                (x, y, z),
            )),
            r ==> final(self)@ == (BoardView {
                stones: old(self)@.stones.insert((x, y, z), color),
                ..old(self)@
            }),
            !r ==> final(self)@ == old(self)@,
    {
        let pos = (x, y, z);
        if !self.is_valid_position(x, y, z) {
            return false;
        }
        match self.find(pos) {
            Some(i) => {
                proof {
                    lemma_entries_map(self.stones@);
                    assert(self.stones@[i as int].0 == pos);
                }
                false
            },
            None => {
                proof {
                    lemma_entries_map(self.stones@);
                    lemma_entries_push(self.stones@, (pos, color));
                }
                self.stones.push((pos, color));
                proof {
                    let s = self.stones@;
                    assert forall|i: int, j: int|
                        0 <= i < s.len() && 0 <= j < s.len() && #[trigger] s[i].0 == #[trigger] s[j].0
                        implies i == j by {
                        if i < s.len() - 1 && j == s.len() - 1 {
                            assert(entries_map(old(self).stones@).contains_key(s[i].0));
                        }
                        if j < s.len() - 1 && i == s.len() - 1 {
                            assert(entries_map(old(self).stones@).contains_key(s[j].0));
                        }
                    }
                    self.lemma_store_ok();
                }
                true
            },
        }
    }

    /// Takes the stone off `pos` and returns its colour; `None`, changing
    /// nothing, when the cell is empty.
    pub fn remove_stone(&mut self, pos: Position) -> (r: Option<StoneColor>)
        requires
            old(self).wf(),
        ensures
            final(self).wf(),
            r == content(old(self)@.stones, pos),
            final(self)@ == (BoardView { stones: old(self)@.stones.remove(pos), ..old(self)@ }),
    {
        match self.find(pos) {
            Some(i) => {
                proof {
                    lemma_entries_map(self.stones@);
                    lemma_entries_remove(self.stones@, i as int);
                }
                let e = self.stones.remove(i);
                proof {
                    assert forall|j: int| 0 <= j < self.stones@.len() implies in_bounds(
                        self.size as int,
                        #[trigger] self.stones@[j].0,
                    ) by {
                        let j2 = if j < i { j } else { j + 1 };
                        assert(self.stones@[j] == old(self).stones@[j2]);
                    }
                    self.lemma_store_ok();
                }
                Some(e.1)
            },
            None => {
                proof {
                    assert(old(self)@.stones.remove(pos) =~= old(self)@.stones);
                }
                None
            },
        }
    }

    /// The in-bounds neighbours of `pos`, in the order -x, +x, -y, +y, -z, +z.
    pub fn get_neighbors(&self, pos: Position) -> (r: Vec<Position>)
        ensures
            r@ == neighbor_seq(self@.size as int, pos),
    {
        neighbors_of(self.size, pos)
    }

    /// How many stones of `color` captures have removed from this board.
    pub fn get_captured(&self, color: StoneColor) -> (r: usize)
        ensures
            r == self@.captured(color),
    {
        match color {
            StoneColor::Black => self.captured_black,
            StoneColor::White => self.captured_white,
        }
    }

    /// Every stone on the board with its colour, each cell once, in no
    /// particular order.
    pub fn get_all_stones(&self) -> (r: Vec<(Position, StoneColor)>)
        requires
            self.wf(),
        ensures
            r@.len() == self@.stones.len(),
            unique_keys(r@),
            entries_map(r@) == self@.stones,
    {
        proof {
            lemma_entries_map(self.stones@);
        }
        let r = self.snapshot();
        proof {
            lemma_entries_map(r.stones@);
        }
        r.stones
    }

    /// The group of the stone at `pos`: every stone of its colour reachable
    /// from it through neighbouring stones of that colour. `None` when `pos`
    /// is empty.
    pub fn get_group(&self, pos: Position) -> (r: Option<Vec<Position>>)
        requires
            self.wf(),
        ensures
            match r {
                None => !self@.stones.contains_key(pos),
                Some(g) => {
                    &&& self@.stones.contains_key(pos)
                    &&& g@.no_duplicates()
                    &&& g@.to_set() == component(self@.stones, self@.size as int, pos)
                },
            },
    {
        match self.get_stone(pos) {
            None => None,
            Some(_) => {
                let m = side_of(self.size);
                let mut marks = blank_marks(m);
                proof {
                    assert(in_bounds(self@.size as int, pos));
                    assert forall|q: Position|
                        joined(self@.stones, self@.size as int, pos, q) implies !marks@[cell_index(
                        side(self@.size as int),
                        q,
                    )] by {
                        lemma_joined_facts(self@.stones, self@.size as int, pos, q);
                        lemma_side(self@.size as int, q);
                        lemma_cell_index(m as int, q, q);
                    }
                }
                Some(fill_component(self, pos, &mut marks))
            },
        }
    }

    /// The empty cells next to some stone of `group`, each once.
    pub fn get_liberties(&self, group: &Vec<Position>) -> (r: Vec<Position>)
        requires
            self.wf(),
        ensures
            r@.no_duplicates(),
            r@.to_set() == liberty_set(self@.stones, self@.size as int, group@.to_set()),
    {
        let ghost b = self@.stones;
        let ghost n = self@.size as int;
        let mut r: Vec<Position> = Vec::new();
        let mut i: usize = 0;
        while i < group.len()
            invariant
                self.wf(),
                b == self@.stones,
                n == self@.size as int,
                i <= group@.len(),
                r@.no_duplicates(),
                forall|x: Position|
                    #[trigger] r@.contains(x) ==> !b.contains_key(x) && exists|j: int|
                        0 <= j < group@.len() && is_neighbor(n, group@[j], x),
                forall|j: int, q: Position|
                    0 <= j < i && #[trigger] is_neighbor(n, group@[j], q) && !b.contains_key(q)
                        ==> r@.contains(q),
            decreases group@.len() - i,
        {
            let g = group[i];
            let nbrs = self.get_neighbors(g);
            proof {
                lemma_neighbor_seq(n, g);
            }
            let mut t: usize = 0;
            while t < nbrs.len()
                invariant
                    self.wf(),
                    b == self@.stones,
                    n == self@.size as int,
                    i < group@.len(),
                    g == group@[i as int],
                    nbrs@ == neighbor_seq(n, g),
                    t <= nbrs@.len(),
                    r@.no_duplicates(),
                    forall|x: Position|
                        #[trigger] r@.contains(x) ==> !b.contains_key(x) && exists|j: int|
                            0 <= j < group@.len() && is_neighbor(n, group@[j], x),
                    forall|j: int, q: Position|
                        0 <= j < i && #[trigger] is_neighbor(n, group@[j], q) && !b.contains_key(q)
                            ==> r@.contains(q),
                    forall|u: int| 0 <= u < t && !b.contains_key(#[trigger] nbrs@[u]) ==> r@.contains(nbrs@[u]),
                decreases nbrs@.len() - t,
            {
                let q = nbrs[t];
                proof {
                    assert(nbrs@.contains(q));
                }
                let ghost r0 = r@;
                if self.get_stone(q).is_none() && !contains_position(&r, q) {
                    r.push(q);
                    proof {
                        assert forall|x: Position| #[trigger] r@.contains(x) implies r0.contains(x) || x == q by {
                            let j = choose|j: int| 0 <= j < r@.len() && r@[j] == x;
                            if j < r0.len() {
                                assert(r0[j] == x);
                            }
                        }
                        assert forall|x: Position| r0.contains(x) implies #[trigger] r@.contains(x) by {
                            let j = choose|j: int| 0 <= j < r0.len() && r0[j] == x;
                            assert(r@[j] == x);
                        }
                        assert(r@[r@.len() - 1] == q);
                        assert(is_neighbor(n, group@[i as int], q));
                    }
                }
                t = t + 1;
            }
            proof {
                assert forall|j: int, q: Position|
                    0 <= j < i + 1 && #[trigger] is_neighbor(n, group@[j], q) && !b.contains_key(q)
                        implies r@.contains(q) by {
                    if j == i {
                        assert(nbrs@.contains(q));
                        let u = choose|u: int| 0 <= u < nbrs@.len() && nbrs@[u] == q;
                    }
                }
            }
            i = i + 1;
        }
        proof {
            let gs = group@.to_set();
            assert forall|q: Position| #[trigger] r@.to_set().contains(q) <==> liberty_set(b, n, gs).contains(q) by {
                if r@.contains(q) {
                    let j = choose|j: int| 0 <= j < group@.len() && is_neighbor(n, group@[j], q);
                    assert(gs.contains(group@[j]));
                }
                if liberty_set(b, n, gs).contains(q) {
                    let s = choose|s: Position| gs.contains(s) && is_neighbor(n, s, q);
                    let j = choose|j: int| 0 <= j < group@.len() && group@[j] == s;
                    assert(is_neighbor(n, group@[j], q));
                }
            }
            assert(r@.to_set() =~= liberty_set(b, n, gs));
        }
        r
    }

    /// Whether the group of the stone at `pos` has at least one liberty;
    /// `false` when `pos` is empty.
    pub fn has_liberties(&self, pos: Position) -> (r: bool)
        requires
            self.wf(),
        ensures
            r == (self@.stones.contains_key(pos) && liberty_set(
                self@.stones,
                self@.size as int,
                component(self@.stones, self@.size as int, pos),
            ) != Set::<Position>::empty()),
    {
        match self.get_group(pos) {
            Some(group) => {
                let libs = self.get_liberties(&group);
                proof {
                    if libs@.len() > 0 {
                        assert(libs@.to_set().contains(libs@[0]));
                    } else {
                        assert(libs@.to_set() =~= Set::<Position>::empty());
                    }
                }
                libs.len() > 0
            },
            None => false,
        }
    }

    /// Removes every stone of `group`, counting each removed stone against its
    /// colour, and returns how many were removed. Empty cells are skipped.
    pub fn capture_group(&mut self, group: Vec<Position>) -> (r: usize)
        requires
            old(self).wf(),
        ensures
            final(self).wf(),
            final(self)@.stones == old(self)@.stones.remove_keys(group@.to_set()),
            final(self)@.size == old(self)@.size,
            r == occupied_in(old(self)@.stones, group@.to_set()).len(),
            final(self)@.captured_black == sat_add(
                old(self)@.captured_black,
                colored_in(old(self)@.stones, group@.to_set(), StoneColor::Black).len(),
            ),
            final(self)@.captured_white == sat_add(
                old(self)@.captured_white,
                colored_in(old(self)@.stones, group@.to_set(), StoneColor::White).len(),
            ),
    {
        let ghost b = old(self)@.stones;
        let ghost cb = old(self)@.captured_black;
        let ghost cw = old(self)@.captured_white;
        let mut r: usize = 0;
        let mut i: usize = 0;
        proof {
            assert(group@.take(0).to_set() =~= Set::<Position>::empty());
            assert(b.remove_keys(Set::<Position>::empty()) =~= b);
            assert(occupied_in(b, Set::<Position>::empty()) =~= Set::<Position>::empty());
            assert(colored_in(b, Set::<Position>::empty(), StoneColor::Black) =~= Set::<Position>::empty());
            assert(colored_in(b, Set::<Position>::empty(), StoneColor::White) =~= Set::<Position>::empty());
        }
        while i < group.len()
            invariant
                self.wf(),
                i <= group@.len(),
                self@.size == old(self)@.size,
                group@.take(i as int).to_set().finite(),
                group@.take(i as int).to_set().len() <= i,
                self@.stones == b.remove_keys(group@.take(i as int).to_set()),
                r == occupied_in(b, group@.take(i as int).to_set()).len(),
                self@.captured_black == sat_add(
                    cb,
                    colored_in(b, group@.take(i as int).to_set(), StoneColor::Black).len(),
                ),
                self@.captured_white == sat_add(
                    cw,
                    colored_in(b, group@.take(i as int).to_set(), StoneColor::White).len(),
                ),
            decreases group@.len() - i,
        {
            let p = group[i];
            let ghost done = group@.take(i as int).to_set();
            let ghost done2 = group@.take(i + 1).to_set();
            proof {
                assert(group@.take(i + 1) =~= group@.take(i as int).push(p));
                group@.take(i as int).lemma_push_to_set_commute(p);
                assert(done2 == done.insert(p));
                lemma_len_subset(occupied_in(b, done), done);
            }
            let removed = self.remove_stone(p);
            proof {
                assert(self@.stones =~= b.remove_keys(done2));
            }
            match removed {
                Some(c) => {
                    proof {
                        assert(!done.contains(p));
                        assert(occupied_in(b, done2) =~= occupied_in(b, done).insert(p));
                        assert(colored_in(b, done2, c) =~= colored_in(b, done, c).insert(p));
                        assert(colored_in(b, done2, c.other()) =~= colored_in(b, done, c.other()));
                    }
                    r = r + 1;
                    match c {
                        StoneColor::Black => {
                            self.captured_black = self.captured_black.saturating_add(1);
                        },
                        StoneColor::White => {
                            self.captured_white = self.captured_white.saturating_add(1);
                        },
                    }
                    proof {
                        self.lemma_store_ok();
                    }
                },
                None => {
                    proof {
                        assert(occupied_in(b, done2) =~= occupied_in(b, done));
                        assert(colored_in(b, done2, StoneColor::Black) =~= colored_in(b, done, StoneColor::Black));
                        assert(colored_in(b, done2, StoneColor::White) =~= colored_in(b, done, StoneColor::White));
                    }
                },
            }
            i = i + 1;
        }
        proof {
            assert(group@.take(group@.len() as int) =~= group@);
        }
        r
    }

    /// Places the starting pattern for this board's size, skipping cells
    /// that already hold a stone.
    fn place_dodecahedron(&mut self)
        requires
            old(self).wf(),
        ensures
            final(self).wf(),
            final(self)@ == (BoardView {
                stones: seed_on(old(self)@.stones, old(self)@.size as int),
                ..old(self)@
            }),
    {
        let ghost n = self@.size as int;
        if self.size == 3 {
            self.place_stone(StoneColor::Black, 0, 0, 0);
            self.place_stone(StoneColor::Black, 2, 0, 2);
            self.place_stone(StoneColor::White, 1, 1, 1);
            self.place_stone(StoneColor::Black, 0, 2, 0);
            self.place_stone(StoneColor::Black, 2, 2, 2);
            return;
        }
        let ghost start = self@;
        let mut i: usize = 0;
        while i < 20
            invariant
                self.wf(),
                n == start.size,
                i <= 20,
                self@ == (BoardView {
                    stones: place_points(
                        start.stones,
                        n,
                        vertex_points(n).take(i as int),
                        StoneColor::Black,
                    ),
                    ..start
                }),
            decreases 20 - i,
        {
            let d = vertex_direction(i);
            let cell = seed_cell(self.size, d);
            proof {
                assert(vertex_points(n).take(i + 1).drop_last() =~= vertex_points(n).take(i as int));
                assert(vertex_points(n).take(i + 1).last() == cell);
            }
            match cell {
                Some(p) => {
                    self.place_stone(StoneColor::Black, p.0, p.1, p.2);
                },
                None => {},
            }
            i = i + 1;
        }
        proof {
            assert(vertex_points(n).take(20) =~= vertex_points(n));
        }
        let ghost mid = self@;
        let mut j: usize = 0;
        while j < 12
            invariant
                self.wf(),
                n == start.size,
                j <= 12,
                self@ == (BoardView {
                    stones: place_points(
                        mid.stones,
                        n,
                        face_points(n).take(j as int),
                        StoneColor::White,
                    ),
                    ..start
                }),
                mid.stones == place_points(start.stones, n, vertex_points(n), StoneColor::Black),
            decreases 12 - j,
        {
            let d = face_direction(j);
            let cell = seed_cell(self.size, d);
            proof {
                assert(face_points(n).take(j + 1).drop_last() =~= face_points(n).take(j as int));
                assert(face_points(n).take(j + 1).last() == cell);
            }
            match cell {
                Some(p) => {
                    self.place_stone(StoneColor::White, p.0, p.1, p.2);
                },
                None => {},
            }
            j = j + 1;
        }
        proof {
            assert(face_points(n).take(12) =~= face_points(n));
        }
    }

    /// A board of side `size` holding the decorative starting pattern.
    pub fn new_with_dodecahedron(size: usize) -> (r: Board)
        ensures
            r.wf(),
            r@.stones == seed_stones(size as int),
            r@.size == size,
            r@.captured_black == 0,
            r@.captured_white == 0,
    {
        let mut board = Board::new(size);
        board.place_dodecahedron();
        board
    }

    /// Clears the board and places the decorative starting pattern.
    pub fn reset_with_dodecahedron(&mut self)
        requires
            old(self).wf(),
        ensures
            final(self).wf(),
            final(self)@ == (BoardView {
                stones: seed_stones(old(self)@.size as int),
                size: old(self)@.size,
                captured_black: 0,
                captured_white: 0,
            }),
    {
        self.clear();
        self.place_dodecahedron();
    }

    /// Clears the board and places the nine-stone display check pattern.
    pub fn place_test_pattern(&mut self)
        requires
            old(self).wf(),
        ensures
            final(self).wf(),
            final(self)@ == (BoardView {
                stones: test_pattern_stones(old(self)@.size as int),
                size: old(self)@.size,
                captured_black: 0,
                captured_white: 0,
            }),
    {
        self.clear();
        self.place_stone(StoneColor::Black, 0, 0, 0);
        self.place_stone(StoneColor::White, 2, 0, 0);
        self.place_stone(StoneColor::Black, 0, 0, 2);
        self.place_stone(StoneColor::White, 1, 1, 1);
        self.place_stone(StoneColor::Black, 0, 1, 1);
        self.place_stone(StoneColor::White, 2, 1, 1);
        self.place_stone(StoneColor::White, 2, 2, 2);
        self.place_stone(StoneColor::Black, 0, 2, 2);
        self.place_stone(StoneColor::White, 1, 2, 0);
    }

    /// The empty cells of the board, in row-major order (x slowest).
    pub fn empty_positions(&self) -> (r: Vec<Position>)
        requires
            self.wf(),
        ensures
            r@ == empty_cells(self@.stones, self@.size as int),
            forall|q: Position|
                #[trigger] r@.contains(q) <==> in_bounds(self@.size as int, q)
                    && !self@.stones.contains_key(q),
    {
        let ghost b = self@.stones;
        let ghost n = self@.size as int;
        let ghost pred = |q: Position| !b.contains_key(q);
        let m = side_of(self.size);
        proof {
            assert(m * m <= 256 * 256) by (nonlinear_arith)
                requires
                    m <= 256,
            ;
            assert(m * m * m <= 256 * 256 * 256) by (nonlinear_arith)
                requires
                    m <= 256,
            ;
        }
        let total = m * m * m;
        let mut r: Vec<Position> = Vec::new();
        let mut k: usize = 0;
        while k < total
            invariant
                self.wf(),
                b == self@.stones,
                n == self@.size as int,
                pred == (|q: Position| !b.contains_key(q)),
                m == side(n),
                total == m * m * m,
                k <= total,
                r@ == all_cells(n).take(k as int).filter(pred),
            decreases total - k,
        {
            let pos = cell_at(m, k);
            proof {
                lemma_side(n, pos);
                assert(all_cells(n).take(k + 1) =~= all_cells(n).take(k as int).push(pos));
                all_cells(n).take(k as int).lemma_filter_push(pos, pred);
            }
            if self.get_stone(pos).is_none() {
                r.push(pos);
            }
            k = k + 1;
        }
        proof {
            assert(all_cells(n).take(total as int) =~= all_cells(n));
            assert forall|q: Position| #[trigger] r@.contains(q) <==> in_bounds(n, q) && !b.contains_key(q) by {
                if r@.contains(q) {
                    let i = choose|i: int| 0 <= i < r@.len() && r@[i] == q;
                    all_cells(n).lemma_filter_contains_rev(pred, q);
                    assert(all_cells(n).filter(pred).contains(q));
                    let j = choose|j: int| 0 <= j < all_cells(n).len() && all_cells(n)[j] == q;
                    lemma_cell_of(m as int, j);
                    lemma_side(n, q);
                }
                if in_bounds(n, q) && !b.contains_key(q) {
                    lemma_side(n, q);
                    lemma_cell_index(m as int, q, q);
                    let j = cell_index(m as int, q);
                    lemma_cell_of(m as int, j);
                    lemma_cell_index(m as int, q, cell_of(m as int, j));
                    assert(all_cells(n)[j] == q);
                    all_cells(n).lemma_filter_contains(pred, j);
                }
            }
        }
        r
    }

    /// Removes every stone and zeroes both capture counters.
    pub fn clear(&mut self)
        requires
            old(self).wf(),
        ensures
            final(self).wf(),
            final(self)@ == (BoardView {
                stones: Map::empty(),
                size: old(self)@.size,
                captured_black: 0,
                captured_white: 0,
            }),
    {
        self.stones = Vec::new();
        self.captured_black = 0;
        self.captured_white = 0;
        proof {
            self.lemma_store_ok();
        }
    }
}

} // verus!
