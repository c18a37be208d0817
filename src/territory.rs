//! Territory: regions of empty cells bordered by stones of one colour only.
use vstd::prelude::*;

use crate::board::{blank_marks, Board};
use crate::connectivity::{
    component, content, joined, lemma_component_same, lemma_joined_facts, lemma_joined_symmetric,
};
use crate::flood::fill_component;
use crate::lattice::{
    cell_at, cell_index, in_bounds, is_neighbor, lemma_cell_index, lemma_cube_bound,
    lemma_neighbor_seq, lemma_side, neighbor_seq, side, side_of, Position,
};
use crate::rules::GameRules;
use crate::stone::StoneColor;

verus! {

/// Some cell of `region` touches a stone of colour `c`.
pub open spec fn borders(
    b: Map<Position, StoneColor>,
    n: int,
    region: Set<Position>,
    c: StoneColor,
) -> bool {
    exists|s: Position, q: Position|
        region.contains(s) && #[trigger] is_neighbor(n, s, q) && content(b, q) == Some(c)
}

/// The colour that alone borders `region`, if exactly one does.
pub open spec fn owner_of(b: Map<Position, StoneColor>, n: int, region: Set<Position>) -> Option<
    StoneColor,
> {
    let black = borders(b, n, region, StoneColor::Black);
    let white = borders(b, n, region, StoneColor::White);
    if black && !white {
        Some(StoneColor::Black)
    } else if white && !black {
        Some(StoneColor::White)
    } else {
        None
    }
}

/// The empty cells whose region is bordered by colour `c` alone.
pub open spec fn territory(b: Map<Position, StoneColor>, n: int, c: StoneColor) -> Set<Position> {
    Set::new(
        |q: Position|
            in_bounds(n, q) && !b.contains_key(q) && owner_of(b, n, component(b, n, q)) == Some(c),
    )
}

/// The cells marked in a table of the cube's cells.
pub open spec fn marked_set(n: int, marks: Seq<bool>) -> Set<Position> {
    Set::new(|q: Position| in_bounds(n, q) && marks[cell_index(side(n), q)])
}

/// The colour that alone borders the empty region `region`, if exactly one
/// does.
fn region_owner(board: &Board, region: &Vec<Position>) -> (r: Option<StoneColor>)
    requires
        board.wf(),
    ensures
        r == owner_of(board@.stones, board@.size as int, region@.to_set()),
{
    let ghost b = board@.stones;
    let ghost n = board@.size as int;
    let mut black = false;
    let mut white = false;
    let mut i: usize = 0;
    while i < region.len()
        invariant
            board.wf(),
            b == board@.stones,
            n == board@.size as int,
            i <= region@.len(),
            black ==> borders(b, n, region@.to_set(), StoneColor::Black),
            white ==> borders(b, n, region@.to_set(), StoneColor::White),
            forall|j: int, q: Position|
                0 <= j < i && #[trigger] is_neighbor(n, region@[j], q) ==> (content(b, q) == Some(
                    StoneColor::Black,
                ) ==> black) && (content(b, q) == Some(StoneColor::White) ==> white),
        decreases region@.len() - i,
    {
        let cell = region[i];
        let nbrs = board.get_neighbors(cell);
        proof {
            lemma_neighbor_seq(n, cell);
            assert(region@.to_set().contains(cell));
        }
        let mut t: usize = 0;
        while t < nbrs.len()
            invariant
                board.wf(),
                b == board@.stones,
                n == board@.size as int,
                i < region@.len(),
                cell == region@[i as int],
                region@.to_set().contains(cell),
                nbrs@ == neighbor_seq(n, cell),
                t <= nbrs@.len(),
                black ==> borders(b, n, region@.to_set(), StoneColor::Black),
                white ==> borders(b, n, region@.to_set(), StoneColor::White),
                forall|j: int, q: Position|
                    0 <= j < i && #[trigger] is_neighbor(n, region@[j], q) ==> (content(b, q)
                        == Some(StoneColor::Black) ==> black) && (content(b, q) == Some(
                        StoneColor::White,
                    ) ==> white),
                forall|u: int|
                    0 <= u < t ==> (content(b, #[trigger] nbrs@[u]) == Some(StoneColor::Black)
                        ==> black) && (content(b, nbrs@[u]) == Some(StoneColor::White) ==> white),
            decreases nbrs@.len() - t,
        {
            let q = nbrs[t];
            proof {
                assert(nbrs@.contains(q));
                assert(is_neighbor(n, cell, q));
            }
            match board.get_stone(q) {
                Some(StoneColor::Black) => {
                    black = true;
                },
                Some(StoneColor::White) => {
                    white = true;
                },
                None => {},
            }
            t = t + 1;
        }
        proof {
            assert forall|j: int, q: Position|
                0 <= j < i + 1 && #[trigger] is_neighbor(n, region@[j], q) implies (content(b, q)
                == Some(StoneColor::Black) ==> black) && (content(b, q) == Some(StoneColor::White)
                ==> white) by {
                if j == i {
                    assert(nbrs@.contains(q));
                    let u = choose|u: int| 0 <= u < nbrs@.len() && nbrs@[u] == q;
                }
            }
        }
        i = i + 1;
    }
    proof {
        let rs = region@.to_set();
        assert(borders(b, n, rs, StoneColor::Black) ==> black) by {
            if borders(b, n, rs, StoneColor::Black) {
                let (s, q) = choose|s: Position, q: Position|
                    rs.contains(s) && #[trigger] is_neighbor(n, s, q) && content(b, q) == Some(
                        StoneColor::Black,
                    );
                let j = choose|j: int| 0 <= j < region@.len() && region@[j] == s;
                assert(is_neighbor(n, region@[j], q));
            }
        }
        assert(borders(b, n, rs, StoneColor::White) ==> white) by {
            if borders(b, n, rs, StoneColor::White) {
                let (s, q) = choose|s: Position, q: Position|
                    rs.contains(s) && #[trigger] is_neighbor(n, s, q) && content(b, q) == Some(
                        StoneColor::White,
                    );
                let j = choose|j: int| 0 <= j < region@.len() && region@[j] == s;
                assert(is_neighbor(n, region@[j], q));
            }
        }
    }
    if black && !white {
        Some(StoneColor::Black)
    } else if white && !black {
        Some(StoneColor::White)
    } else {
        None
    }
}

impl GameRules {
    /// Territory of each colour, `(black, white)`: the number of empty cells
    /// whose region is bordered by that colour alone. Each region is flooded
    /// once; regions bordered by both colours or by none count for neither.
    pub fn get_territory_score(&self) -> (r: (usize, usize))
        requires
            self.wf(),
        ensures
            territory(self@.board.stones, self@.board.size as int, StoneColor::Black).finite(),
            territory(self@.board.stones, self@.board.size as int, StoneColor::White).finite(),
            r.0 == territory(self@.board.stones, self@.board.size as int, StoneColor::Black).len(),
            r.1 == territory(self@.board.stones, self@.board.size as int, StoneColor::White).len(),
    {
        let board = self.board();
        let ghost b = board@.stones;
        let ghost n = board@.size as int;
        let ghost tb = territory(b, n, StoneColor::Black);
        let ghost tw = territory(b, n, StoneColor::White);
        let m = side_of(board.size());
        let mut marks = blank_marks(m);
        let total = marks.len();
        let mut black: usize = 0;
        let mut white: usize = 0;
        proof {
            assert(marked_set(n, marks@) =~= Set::<Position>::empty()) by {
                assert forall|q: Position| !marked_set(n, marks@).contains(q) by {
                    if in_bounds(n, q) {
                        lemma_side(n, q);
                        lemma_cell_index(m as int, q, q);
                    }
                }
            }
            assert(tb.intersect(marked_set(n, marks@)) =~= Set::<Position>::empty());
            assert(tw.intersect(marked_set(n, marks@)) =~= Set::<Position>::empty());
        }
        let mut k: usize = 0;
        while k < total
            invariant
                board.wf(),
                b == board@.stones,
                n == board@.size as int,
                tb == territory(b, n, StoneColor::Black),
                tw == territory(b, n, StoneColor::White),
                m == side(n),
                total == m * m * m,
                k <= total,
                marks@.len() == total,
                marked_set(n, marks@).finite(),
                forall|q: Position| #[trigger]
                    marked_set(n, marks@).contains(q) ==> !b.contains_key(q) && component(
                        b,
                        n,
                        q,
                    ).subset_of(marked_set(n, marks@)),
                forall|q: Position|
                    in_bounds(n, q) && cell_index(m as int, q) < k && !b.contains_key(q)
                        ==> marked_set(n, marks@).contains(q),
                black == tb.intersect(marked_set(n, marks@)).len(),
                white == tw.intersect(marked_set(n, marks@)).len(),
            decreases total - k,
        {
            let pos = cell_at(m, k);
            proof {
                lemma_side(n, pos);
            }
            let ghost old_marked = marked_set(n, marks@);
            if !marks[k] && board.get_stone(pos).is_none() {
                let ghost before = marks@;
                let ghost comp = component(b, n, pos);
                proof {
                    assert forall|q: Position| joined(b, n, pos, q) implies !before[cell_index(
                        side(n),
                        q,
                    )] by {
                        lemma_joined_facts(b, n, pos, q);
                        lemma_side(n, q);
                        if before[cell_index(m as int, q)] {
                            assert(old_marked.contains(q));
                            lemma_joined_symmetric(b, n, pos, q);
                            assert(component(b, n, q).contains(pos));
                            assert(old_marked.contains(pos));
                        }
                    }
                }
                let region = fill_component(board, pos, &mut marks);
                let owner = region_owner(board, &region);
                let ghost new_marked = marked_set(n, marks@);
                proof {
                    region@.unique_seq_to_set();
                    assert(comp.finite());
                    assert(comp.len() == region@.len());
                    assert forall|q: Position| #[trigger] comp.contains(q) implies in_bounds(n, q)
                        && !b.contains_key(q) && component(b, n, q) == comp && !old_marked.contains(q) by {
                        lemma_joined_facts(b, n, pos, q);
                        lemma_component_same(b, n, pos, q);
                        lemma_side(n, q);
                    }
                    assert(new_marked =~= old_marked + comp) by {
                        assert forall|q: Position| new_marked.contains(q) <==> (old_marked + comp).contains(q) by {
                            if in_bounds(n, q) {
                                lemma_side(n, q);
                            }
                            if comp.contains(q) {
                                lemma_side(n, q);
                            }
                        }
                    }
                    assert(old_marked.disjoint(comp));
                    vstd::set_lib::lemma_set_disjoint_lens(old_marked, comp);
                    assert forall|q: Position| #[trigger]
                        new_marked.contains(q) implies !b.contains_key(q) && component(b, n, q).subset_of(new_marked) by {
                        if old_marked.contains(q) {
                            assert(component(b, n, q).subset_of(old_marked));
                        }
                    }
                    assert forall|q: Position|
                        in_bounds(n, q) && cell_index(m as int, q) < k + 1 && !b.contains_key(q)
                            implies new_marked.contains(q) by {
                        lemma_side(n, q);
                        lemma_cell_index(m as int, q, pos);
                        if q == pos {
                            crate::connectivity::lemma_joined_refl(b, n, pos);
                        }
                    }
                    lemma_cube_bound(n, new_marked);
                    assert(m * m * m <= 256 * 256 * 256) by (nonlinear_arith)
                        requires
                            m <= 256,
                    ;
                    // the new region counts wholly for its owner, if it has one
                    let t_old_b = tb.intersect(old_marked);
                    let t_old_w = tw.intersect(old_marked);
                    vstd::set_lib::lemma_set_subset_finite(old_marked, t_old_b);
                    vstd::set_lib::lemma_set_subset_finite(old_marked, t_old_w);
                    vstd::set_lib::lemma_set_disjoint_lens(t_old_b, comp);
                    vstd::set_lib::lemma_set_disjoint_lens(t_old_w, comp);
                    if owner == Some(StoneColor::Black) {
                        assert(tb.intersect(new_marked) =~= t_old_b + comp);
                        assert(tw.intersect(new_marked) =~= t_old_w);
                    } else if owner == Some(StoneColor::White) {
                        assert(tb.intersect(new_marked) =~= t_old_b);
                        assert(tw.intersect(new_marked) =~= t_old_w + comp);
                    } else {
                        assert(tb.intersect(new_marked) =~= t_old_b);
                        assert(tw.intersect(new_marked) =~= t_old_w);
                    }
                    vstd::set_lib::lemma_len_subset(tb.intersect(new_marked), new_marked);
                    vstd::set_lib::lemma_len_subset(tw.intersect(new_marked), new_marked);
                }
                match owner {
                    Some(StoneColor::Black) => {
                        black = black + region.len();
                    },
                    Some(StoneColor::White) => {
                        white = white + region.len();
                    },
                    None => {},
                }
            } else {
                proof {
                    assert forall|q: Position|
                        in_bounds(n, q) && cell_index(m as int, q) < k + 1 && !b.contains_key(q)
                            implies marked_set(n, marks@).contains(q) by {
                        lemma_side(n, q);
                        lemma_cell_index(m as int, q, pos);
                    }
                }
            }
            k = k + 1;
        }
        proof {
            let done = marked_set(n, marks@);
            assert forall|q: Position| #[trigger] tb.contains(q) implies done.contains(q) by {
                lemma_side(n, q);
                lemma_cell_index(m as int, q, q);
            }
            assert forall|q: Position| #[trigger] tw.contains(q) implies done.contains(q) by {
                lemma_side(n, q);
                lemma_cell_index(m as int, q, q);
            }
            assert(tb.intersect(done) =~= tb);
            assert(tw.intersect(done) =~= tw);
            vstd::set_lib::lemma_set_subset_finite(done, tb);
            vstd::set_lib::lemma_set_subset_finite(done, tw);
        }
        (black, white)
    }
}

} // verus!
