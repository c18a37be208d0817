//! Properties of the rules that hold for every board and every game.
use vstd::prelude::*;

use crate::board::{sat_add, BoardView};
use crate::connectivity::{
    component, lemma_component_same, lemma_joined_facts, lemma_joined_refl, liberty_set,
};
use crate::lattice::{in_bounds, is_neighbor, Position};
use crate::rules::{
    after_move, after_undo, captured_by, dead_neighbor, is_legal, lemma_captured_are_opponents,
    resolved, GameView,
};
use crate::stone::StoneColor;
use crate::territory::{owner_of, territory};

verus! {

/// Groups partition the stones: every stone lies in its own group, a group
/// holds stones of one colour only, and two groups that share a stone are the
/// same group.
pub proof fn lemma_groups_partition(b: BoardView, s: Position, p: Position)
    requires
        b.valid(),
        b.stones.contains_key(s),
    ensures
        component(b.stones, b.size as int, s).contains(s),
        forall|t: Position| #[trigger]
            component(b.stones, b.size as int, s).contains(t) ==> b.stones.contains_key(t)
                && b.stones[t] == b.stones[s],
        component(b.stones, b.size as int, p).contains(s) ==> component(b.stones, b.size as int, p)
            == component(b.stones, b.size as int, s),
{
    let n = b.size as int;
    lemma_joined_refl(b.stones, n, s);
    assert forall|t: Position| #[trigger] component(b.stones, n, s).contains(t) implies b.stones.contains_key(t)
        && b.stones[t] == b.stones[s] by {
        lemma_joined_facts(b.stones, n, s, t);
    }
    if component(b.stones, n, p).contains(s) {
        lemma_component_same(b.stones, n, p, s);
    }
}

/// Liberties are empty cells inside the cube.
pub proof fn lemma_liberties_are_empty_cells(b: BoardView, g: Set<Position>)
    ensures
        forall|x: Position| #[trigger]
            liberty_set(b.stones, b.size as int, g).contains(x) ==> !b.stones.contains_key(x)
                && in_bounds(b.size as int, x),
{
    assert forall|x: Position| #[trigger] liberty_set(b.stones, b.size as int, g).contains(x) implies !b.stones.contains_key(x)
        && in_bounds(b.size as int, x) by {
        let s = choose|s: Position| g.contains(s) && is_neighbor(b.size as int, s, x);
    }
}

/// A legal move lifts every stone of each neighbouring opponent group that it
/// leaves without liberties, counts exactly the lifted stones against the
/// opponent, and leaves its own group with a liberty. On an empty cell inside
/// the cube that ko does not bar, a move whose group would have no liberty
/// once captures are lifted is illegal.
pub proof fn lemma_capture(g: GameView, p: Position, q: Position)
    requires
        g.board.valid(),
    ensures
        ({
            let n = g.board.size as int;
            let c = g.current;
            let placed = g.board.stones.insert(p, c);
            let taken = captured_by(placed, n, p, c);
            let after = after_move(g, p);
            is_legal(g, p) ==> {
                &&& dead_neighbor(placed, n, p, c, q) ==> forall|s: Position| #[trigger]
                    component(placed, n, q).contains(s) ==> !after.board.stones.contains_key(s)
                &&& forall|s: Position| #[trigger]
                    taken.contains(s) ==> g.board.stones.contains_key(s) && g.board.stones[s]
                        == c.other() && !after.board.stones.contains_key(s)
                &&& taken.finite()
                &&& after.board.captured(c.other()) == sat_add(g.board.captured(c.other()), taken.len())
                &&& g.board.captured(c.other()) + taken.len() <= usize::MAX ==> after.board.captured(
                    c.other(),
                ) == g.board.captured(c.other()) + taken.len()
                &&& after.board.captured(c) == g.board.captured(c)
                &&& after.board.stones.contains_key(p) && after.board.stones[p] == c
                &&& liberty_set(after.board.stones, n, component(after.board.stones, n, p))
                    != Set::<Position>::empty()
            }
        }),
        ({
            let n = g.board.size as int;
            let after = resolved(g.board.stones, n, p, g.current);
            in_bounds(n, p) && !g.board.stones.contains_key(p) && g.ko != Some(p) ==> (is_legal(g, p)
                <==> liberty_set(after, n, component(after, n, p)) != Set::<Position>::empty())
        }),
{
    let n = g.board.size as int;
    let c = g.current;
    let placed = g.board.stones.insert(p, c);
    let taken = captured_by(placed, n, p, c);
    if is_legal(g, p) {
        lemma_captured_are_opponents(placed, n, p, c);
        assert(!taken.contains(p));
        if dead_neighbor(placed, n, p, c, q) {
            assert forall|s: Position| #[trigger] component(placed, n, q).contains(s) implies !after_move(
                g,
                p,
            ).board.stones.contains_key(s) by {
                assert(taken.contains(s));
            }
        }
        assert forall|s: Position| #[trigger] taken.contains(s) implies g.board.stones.contains_key(s)
            && g.board.stones[s] == c.other() && !after_move(g, p).board.stones.contains_key(s) by {
            assert(placed.contains_key(s) && placed[s] == c.other());
            assert(s != p);
        }
    }
}

/// When a capture brings back the board from before the opponent's last
/// move, the capturing cell is barred for the opponent's very next move, and
/// the bar is gone once the opponent has moved.
pub proof fn lemma_ko(g: GameView, p: Position, q: Position)
    requires
        g.board.valid(),
        is_legal(g, p),
        ({
            let n = g.board.size as int;
            let placed = g.board.stones.insert(p, g.current);
            &&& captured_by(placed, n, p, g.current) != Set::<Position>::empty()
            &&& g.history.len() >= 1
            &&& g.history.last().size == g.board.size
            &&& g.history.last().stones == resolved(g.board.stones, n, p, g.current)
        }),
    ensures
        after_move(g, p).ko == Some(p),
        !is_legal(after_move(g, p), p),
        is_legal(after_move(g, p), q) ==> after_move(after_move(g, p), q).ko != Some(p),
{
    let a = after_move(g, p);
    assert(a.history[a.history.len() - 2] == g.history.last());
    assert(a.board.stones.contains_key(p)) by {
        lemma_capture(g, p, p);
    }
}

/// Taking back a move restores the board, its capture counts and the player to
/// move; the ko bar is not restored but lifted.
pub proof fn lemma_undo_restores(g: GameView, p: Position)
    requires
        is_legal(g, p),
    ensures
        after_undo(after_move(g, p)).board == g.board,
        after_undo(after_move(g, p)).current == g.current,
        after_undo(after_move(g, p)).history == g.history,
        after_undo(after_move(g, p)).ko == None::<Position>,
{
    assert(g.history.push(g.board).drop_last() =~= g.history);
}

/// Territory never counts a cell twice: the two colours' territories are
/// disjoint, every counted cell is empty and inside the cube, and a cell whose
/// region borders both colours or neither counts for no one.
pub proof fn lemma_territory_disjoint(b: BoardView, q: Position)
    ensures
        territory(b.stones, b.size as int, StoneColor::Black).disjoint(
            territory(b.stones, b.size as int, StoneColor::White),
        ),
        territory(b.stones, b.size as int, StoneColor::Black).contains(q) || territory(
            b.stones,
            b.size as int,
            StoneColor::White,
        ).contains(q) ==> in_bounds(b.size as int, q) && !b.stones.contains_key(q),
        owner_of(b.stones, b.size as int, component(b.stones, b.size as int, q)) is None ==> !territory(
            b.stones,
            b.size as int,
            StoneColor::Black,
        ).contains(q) && !territory(b.stones, b.size as int, StoneColor::White).contains(q),
{
}

} // verus!
