//! Iterative flood fill over the cells that share the content of a start cell.
use vstd::prelude::*;

use crate::board::Board;
use crate::connectivity::{
    closed_from, component, content, joined, lemma_closed_covers, lemma_joined_extend,
    lemma_joined_refl,
};
use crate::lattice::{
    cell_index, cell_index_of, in_bounds, is_neighbor, lemma_cell_index, lemma_neighbor_seq,
    lemma_side, neighbor_seq, side, unit_step, Position,
};
use crate::stone::StoneColor;

verus! {

/// Number of `false` entries.
pub open spec fn count_false(s: Seq<bool>) -> nat
    decreases s.len(),
{
    if s.len() == 0 {
        0
    } else {
        count_false(s.drop_last()) + if s.last() {
            0nat
        } else {
            1nat
        }
    }
}

proof fn lemma_count_false_set(s: Seq<bool>, i: int)
    requires
        0 <= i < s.len(),
        !s[i],
    ensures
        count_false(s.update(i, true)) + 1 == count_false(s),
    decreases s.len(),
{
    let t = s.update(i, true);
    if i == s.len() - 1 {
        assert(t.drop_last() =~= s.drop_last());
    } else {
        assert(t.drop_last() =~= s.drop_last().update(i, true));
        lemma_count_false_set(s.drop_last(), i);
    }
}

/// Whether two cell contents agree.
pub fn same_content(a: Option<StoneColor>, b: Option<StoneColor>) -> (r: bool)
    ensures
        r == (a == b),
{
    match (a, b) {
        (None, None) => true,
        (Some(x), Some(y)) => x == y,
        _ => false,
    }
}

/// The marks after a fill: a cell is marked when it was before or when it
/// belongs to `cells`.
pub open spec fn marks_extend(
    m: int,
    before: Seq<bool>,
    after: Seq<bool>,
    cells: Set<Position>,
) -> bool {
    &&& after.len() == before.len()
    &&& forall|q: Position|
        in_bounds(m, q) ==> #[trigger] after[cell_index(m, q)] == (before[cell_index(m, q)]
            || cells.contains(q))
}

/// Collects the component of `start` with an explicit stack, marking each of
/// its cells in `marks`, a table of the cells of the nameable cube. No cell of
/// the component may be marked on entry; each is visited once.
pub fn fill_component(board: &Board, start: Position, marks: &mut Vec<bool>) -> (cells: Vec<
    Position,
>)
    requires
        board.wf(),
        in_bounds(board@.size as int, start),
        old(marks).len() == side(board@.size as int) * side(board@.size as int) * side(
            board@.size as int,
        ),
        forall|q: Position|
            joined(board@.stones, board@.size as int, start, q) ==> !old(marks)@[cell_index(
                side(board@.size as int),
                q,
            )],
    ensures
        cells@.no_duplicates(),
        cells@.to_set() == component(board@.stones, board@.size as int, start),
        marks_extend(
            side(board@.size as int),
            old(marks)@,
            final(marks)@,
            component(board@.stones, board@.size as int, start),
        ),
{
    let ghost b = board@.stones;
    let ghost n = board@.size as int;
    let ghost m = side(n);
    let ghost before = marks@;
    let mm = crate::lattice::side_of(board.size());
    let k = board.get_stone(start);
    let mut cells: Vec<Position> = Vec::new();
    let mut stack: Vec<Position> = Vec::new();
    stack.push(start);
    proof {
        lemma_joined_refl(b, n, start);
        assert(stack@[0] == start);
    }
    while stack.len() > 0
        invariant
            board.wf(),
            b == board@.stones,
            n == board@.size as int,
            m == side(n),
            mm == m,
            k == content(b, start),
            in_bounds(n, start),
            marks@.len() == before.len(),
            before.len() == m * m * m,
            forall|q: Position| joined(b, n, start, q) ==> !before[cell_index(m, q)],
            cells@.no_duplicates(),
            forall|i: int| 0 <= i < cells@.len() ==> joined(b, n, start, #[trigger] cells@[i]),
            marks_extend(m, before, marks@, cells@.to_set()),
            forall|i: int|
                0 <= i < stack@.len() ==> in_bounds(n, #[trigger] stack@[i]) && (stack@[i] == start
                    || exists|j: int|
                    0 <= j < cells@.len() && #[trigger] unit_step(cells@[j], stack@[i])),
            forall|j: int, v: Position|
                0 <= j < cells@.len() && #[trigger] unit_step(cells@[j], v) && in_bounds(n, v)
                    && content(b, v) == k ==> cells@.contains(v) || stack@.contains(v),
            cells@.contains(start) || stack@.contains(start),
        decreases count_false(marks@) * 7 + stack@.len(),
    {
        let ghost stack0 = stack@;
        let ghost marks0 = marks@;
        let ghost cells0 = cells@;
        let cur = stack.pop().unwrap();
        let ghost popped = stack@;
        proof {
            assert(stack0.last() == cur);
            assert(popped =~= stack0.drop_last());
            assert(in_bounds(n, stack0[stack0.len() - 1]));
            lemma_side(n, cur);
            lemma_cell_index(m, cur, cur);
            // whatever was on the stack apart from the popped copy is still there
            assert forall|v: Position| stack0.contains(v) && v != cur implies popped.contains(v) by {
                let i = choose|i: int| 0 <= i < stack0.len() && stack0[i] == v;
                assert(i < popped.len());
                assert(popped[i] == v);
            }
            // a cell of content k next to a collected cell belongs to the component
            assert(content(b, cur) == k ==> joined(b, n, start, cur)) by {
                if content(b, cur) == k && cur != start {
                    let i = stack0.len() - 1;
                    assert(stack0[i] == cur);
                    let j = choose|j: int|
                        0 <= j < cells0.len() && #[trigger] unit_step(cells0[j], stack0[i]);
                    lemma_joined_extend(b, n, start, cells0[j], cur);
                }
                if cur == start {
                    lemma_joined_refl(b, n, start);
                }
            }
        }
        let ix = cell_index_of(mm, cur);
        if !marks[ix] && same_content(board.get_stone(cur), k) {
            proof {
                lemma_count_false_set(marks@, ix as int);
                assert(!cells0.contains(cur));
            }
            marks.set(ix, true);
            cells.push(cur);
            proof {
                assert(cells@.no_duplicates()) by {
                    assert forall|i: int, j: int|
                        0 <= i < cells@.len() && 0 <= j < cells@.len() && i != j implies cells@[i]
                        != cells@[j] by {
                        if i < cells0.len() && j < cells0.len() {
                            assert(cells@[i] == cells0[i] && cells@[j] == cells0[j]);
                        } else if i < cells0.len() {
                            assert(cells@[i] == cells0[i]);
                        } else if j < cells0.len() {
                            assert(cells@[j] == cells0[j]);
                        }
                    }
                }
                assert forall|q: Position| in_bounds(m, q) implies #[trigger] marks@[cell_index(m, q)]
                    == (before[cell_index(m, q)] || cells@.to_set().contains(q)) by {
                    lemma_cell_index(m, q, cur);
                    if q != cur {
                        assert(cells@.contains(q) ==> cells0.contains(q)) by {
                            if cells@.contains(q) {
                                let i = choose|i: int| 0 <= i < cells@.len() && cells@[i] == q;
                                assert(i < cells0.len());
                                assert(cells0[i] == q);
                            }
                        }
                        assert(cells0.contains(q) ==> cells@.contains(q)) by {
                            if cells0.contains(q) {
                                let i = choose|i: int| 0 <= i < cells0.len() && cells0[i] == q;
                                assert(cells@[i] == q);
                            }
                        }
                    } else {
                        assert(cells@[cells@.len() - 1] == cur);
                    }
                }
                assert forall|i: int| 0 <= i < cells@.len() implies joined(
                    b,
                    n,
                    start,
                    #[trigger] cells@[i],
                ) by {
                    if i < cells0.len() {
                        assert(cells@[i] == cells0[i]);
                    }
                }
                assert(cells@.contains(start) || popped.contains(start)) by {
                    if cells0.contains(start) {
                        let i = choose|i: int| 0 <= i < cells0.len() && cells0[i] == start;
                        assert(cells@[i] == start);
                    }
                    if cur == start {
                        assert(cells@[cells@.len() - 1] == start);
                    }
                }
            }
            let nbrs = board.get_neighbors(cur);
            proof {
                lemma_neighbor_seq(n, cur);
                assert forall|i: int| 0 <= i < stack@.len() implies in_bounds(n, #[trigger] stack@[i])
                    && (stack@[i] == start || exists|j: int|
                    0 <= j < cells@.len() && #[trigger] unit_step(cells@[j], stack@[i])) by {
                    assert(stack@[i] == stack0[i]);
                    if stack@[i] != start {
                        let j = choose|j: int|
                            0 <= j < cells0.len() && #[trigger] unit_step(cells0[j], stack0[i]);
                        assert(cells@[j] == cells0[j]);
                    }
                }
            }
            let ghost last = (cells@.len() - 1) as int;
            let mut t: usize = 0;
            while t < nbrs.len()
                invariant
                    board.wf(),
                    b == board@.stones,
                    n == board@.size as int,
                    m == side(n),
                    mm == m,
                    k == content(b, start),
                    in_bounds(n, start),
                    nbrs@ == neighbor_seq(n, cur),
                    nbrs@.len() <= 6,
                    t <= nbrs@.len(),
                    0 <= last < cells@.len(),
                    cells@[last] == cur,
                    marks@.len() == before.len(),
                    before.len() == m * m * m,
                    marks_extend(m, before, marks@, cells@.to_set()),
                    stack@.len() <= popped.len() + t,
                    forall|v: Position| popped.contains(v) ==> stack@.contains(v),
                    forall|i: int|
                        0 <= i < stack@.len() ==> in_bounds(n, #[trigger] stack@[i]) && (stack@[i]
                            == start || exists|j: int|
                            0 <= j < cells@.len() && #[trigger] unit_step(cells@[j], stack@[i])),
                    forall|u: int|
                        0 <= u < t && content(b, #[trigger] nbrs@[u]) == k ==> marks@[cell_index(
                            m,
                            nbrs@[u],
                        )] || stack@.contains(nbrs@[u]),
                decreases nbrs@.len() - t,
            {
                let nb = nbrs[t];
                proof {
                    assert(neighbor_seq(n, cur).contains(nb));
                    assert(is_neighbor(n, cur, nb));
                    lemma_side(n, nb);
                }
                let ni = cell_index_of(mm, nb);
                let ghost stack2 = stack@;
                if !marks[ni] {
                    stack.push(nb);
                    proof {
                        assert(stack@[stack@.len() - 1] == nb);
                        assert forall|v: Position| popped.contains(v) implies stack@.contains(v) by {
                            assert(stack2.contains(v));
                            let i = choose|i: int| 0 <= i < stack2.len() && stack2[i] == v;
                            assert(stack@[i] == v);
                        }
                        assert forall|i: int| 0 <= i < stack@.len() implies in_bounds(
                            n,
                            #[trigger] stack@[i],
                        ) && (stack@[i] == start || exists|j: int|
                            0 <= j < cells@.len() && #[trigger] unit_step(cells@[j], stack@[i])) by {
                            if i < stack2.len() {
                                assert(stack@[i] == stack2[i]);
                            } else {
                                assert(unit_step(cells@[last], stack@[i]));
                            }
                        }
                        assert forall|u: int|
                            0 <= u < t + 1 && content(b, #[trigger] nbrs@[u]) == k implies marks@[cell_index(
                            m,
                            nbrs@[u],
                        )] || stack@.contains(nbrs@[u]) by {
                            if u < t && stack2.contains(nbrs@[u]) {
                                let i = choose|i: int| 0 <= i < stack2.len() && stack2[i] == nbrs@[u];
                                assert(stack@[i] == nbrs@[u]);
                            }
                        }
                    }
                }
                t = t + 1;
            }
            proof {
                // every same-content neighbour of a collected cell is collected or pending
                assert forall|j: int, v: Position|
                    0 <= j < cells@.len() && #[trigger] unit_step(cells@[j], v) && in_bounds(n, v)
                        && content(b, v) == k implies cells@.contains(v) || stack@.contains(v) by {
                    assert(joined(b, n, start, cells@[j]));
                    lemma_joined_extend(b, n, start, cells@[j], v);
                    lemma_side(n, v);
                    if j == last {
                        assert(is_neighbor(n, cur, v));
                        assert(nbrs@.contains(v));
                        let u = choose|u: int| 0 <= u < nbrs@.len() && nbrs@[u] == v;
                        assert(content(b, nbrs@[u]) == k);
                        if marks@[cell_index(m, v)] {
                            assert(cells@.to_set().contains(v));
                        }
                    } else {
                        assert(cells@[j] == cells0[j]);
                        assert(unit_step(cells0[j], v));
                        if cells0.contains(v) {
                            let i = choose|i: int| 0 <= i < cells0.len() && cells0[i] == v;
                            assert(cells@[i] == v);
                        } else {
                            assert(stack0.contains(v));
                            if v == cur {
                                assert(cells@[last] == v);
                            } else {
                                assert(popped.contains(v));
                            }
                        }
                    }
                }
            }
        } else {
            proof {
                assert forall|j: int, v: Position|
                    0 <= j < cells@.len() && #[trigger] unit_step(cells@[j], v) && in_bounds(n, v)
                        && content(b, v) == k implies cells@.contains(v) || stack@.contains(v) by {
                    if v == cur {
                        lemma_joined_extend(b, n, start, cells@[j], v);
                        assert(marks@[cell_index(m, cur)]);
                        assert(cells@.to_set().contains(cur));
                    } else {
                        assert(stack0.contains(v) ==> popped.contains(v));
                    }
                }
                if cur == start {
                    assert(content(b, start) == k);
                    lemma_joined_refl(b, n, start);
                    assert(marks@[cell_index(m, start)]);
                    assert(cells@.to_set().contains(start));
                }
                assert forall|i: int| 0 <= i < stack@.len() implies in_bounds(n, #[trigger] stack@[i])
                    && (stack@[i] == start || exists|j: int|
                    0 <= j < cells@.len() && #[trigger] unit_step(cells@[j], stack@[i])) by {
                    assert(stack@[i] == stack0[i]);
                }
            }
        }
    }
    proof {
        let cs = cells@.to_set();
        assert forall|u: Position, v: Position|
            cs.contains(u) && #[trigger] unit_step(u, v) && in_bounds(n, v) && content(b, v)
                == content(b, start) implies #[trigger] cs.contains(v) by {
            let j = choose|j: int| 0 <= j < cells@.len() && cells@[j] == u;
            assert(unit_step(cells@[j], v));
        }
        assert(closed_from(b, n, start, cs));
        lemma_closed_covers(b, n, start, cs);
        assert forall|q: Position| cs.contains(q) implies component(b, n, start).contains(q) by {
            let j = choose|j: int| 0 <= j < cells@.len() && cells@[j] == q;
            assert(joined(b, n, start, cells@[j]));
        }
        assert(cs =~= component(b, n, start));
    }
    cells
}

} // verus!
