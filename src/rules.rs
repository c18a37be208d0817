//! Turn order, move legality (suicide and ko), captures, history and undo.
use vstd::prelude::*;

use crate::board::{colored_in, sat_add, Board, BoardView};
use crate::connectivity::{component, content, lemma_joined_facts, liberty_set};
use crate::flood::same_content;
use crate::lattice::{
    cell_at, cell_index, in_bounds, is_neighbor, lemma_cell_index, lemma_neighbor_seq, lemma_side,
    neighbor_seq, same_position, side, side_of, Position,
};
use crate::seed::{seed_stones, test_pattern_stones};
use crate::stone::StoneColor;

verus! {

/// Abstract state of a game.
pub struct GameView {
    /// The live board.
    pub board: BoardView,
    /// The colour to move.
    pub current: StoneColor,
    /// The board before each committed move or pass, oldest first.
    pub history: Seq<BoardView>,
    /// The cell the player to move may not fill, if any.
    pub ko: Option<Position>,
}

/// `q` is a neighbour of the stone just played at `p` by `c`, holds an
/// opponent stone, and that stone's group has no liberty left on `b`.
pub open spec fn dead_neighbor(
    b: Map<Position, StoneColor>,
    n: int,
    p: Position,
    c: StoneColor,
    q: Position,
) -> bool {
    &&& is_neighbor(n, p, q)
    &&& content(b, q) == Some(c.other())
    &&& liberty_set(b, n, component(b, n, q)) == Set::<Position>::empty()
}

/// The opponent stones that a stone of `c` at `p` captures, read on the board
/// `b` that already holds that stone: every stone of each neighbouring
/// opponent group left without liberties.
pub open spec fn captured_by(b: Map<Position, StoneColor>, n: int, p: Position, c: StoneColor) -> Set<
    Position,
> {
    Set::new(
        |s: Position|
            exists|q: Position| #[trigger] dead_neighbor(b, n, p, c, q) && component(b, n, q).contains(s),
    )
}

/// The stones after `c` plays at `p` on `b` and the captured groups are lifted.
pub open spec fn resolved(b: Map<Position, StoneColor>, n: int, p: Position, c: StoneColor) -> Map<
    Position,
    StoneColor,
> {
    let placed = b.insert(p, c);
    placed.remove_keys(captured_by(placed, n, p, c))
}

/// Whether the player to move may play at `p`: the cell is inside the cube
/// and empty, the new stone's group has a liberty once captures are lifted,
/// and the cell is not barred by ko.
pub open spec fn is_legal(g: GameView, p: Position) -> bool {
    let n = g.board.size as int;
    let after = resolved(g.board.stones, n, p, g.current);
    &&& in_bounds(n, p)
    &&& !g.board.stones.contains_key(p)
    &&& liberty_set(after, n, component(after, n, p)) != Set::<Position>::empty()
    &&& g.ko != Some(p)
}

/// The game after the player to move plays the legal move `p`.
pub open spec fn after_move(g: GameView, p: Position) -> GameView {
    let n = g.board.size as int;
    let c = g.current;
    let placed = g.board.stones.insert(p, c);
    let taken = captured_by(placed, n, p, c);
    let stones = placed.remove_keys(taken);
    let board = BoardView {
        stones,
        size: g.board.size,
        captured_black: if c == StoneColor::White {
            sat_add(g.board.captured_black, taken.len())
        } else {
            g.board.captured_black
        },
        captured_white: if c == StoneColor::Black {
            sat_add(g.board.captured_white, taken.len())
        } else {
            g.board.captured_white
        },
    };
    let history = g.history.push(g.board);
    let repeats = taken != Set::<Position>::empty() && history.len() >= 2 && history[history.len()
        - 2].size == board.size && history[history.len() - 2].stones == stones;
    GameView { board, current: c.other(), history, ko: if repeats { Some(p) } else { None } }
}

/// The game after the player to move passes.
pub open spec fn after_pass(g: GameView) -> GameView {
    GameView { current: g.current.other(), history: g.history.push(g.board), ..g }
}

/// The game after the last move or pass is taken back.
pub open spec fn after_undo(g: GameView) -> GameView {
    GameView {
        board: g.history.last(),
        current: g.current.other(),
        history: g.history.drop_last(),
        ko: None,
    }
}

/// A fresh game on `board`, Black to move.
pub open spec fn fresh_game(board: BoardView) -> GameView {
    GameView { board, current: StoneColor::Black, history: Seq::empty(), ko: None }
}

/// Every captured stone is an opponent stone on the board that holds the new
/// stone; in particular the new stone itself is never captured.
pub proof fn lemma_captured_are_opponents(
    b: Map<Position, StoneColor>,
    n: int,
    p: Position,
    c: StoneColor,
)
    requires
        b.dom().finite(),
    ensures
        forall|s: Position| #[trigger]
            captured_by(b, n, p, c).contains(s) ==> b.contains_key(s) && b[s] == c.other(),
        captured_by(b, n, p, c).subset_of(b.dom()),
        captured_by(b, n, p, c).finite(),
        colored_in(b, captured_by(b, n, p, c), c.other()) == captured_by(b, n, p, c),
        colored_in(b, captured_by(b, n, p, c), c) == Set::<Position>::empty(),
{
    let cap = captured_by(b, n, p, c);
    assert forall|s: Position| #[trigger] cap.contains(s) implies b.contains_key(s) && b[s]
        == c.other() by {
        let q = choose|q: Position| #[trigger] dead_neighbor(b, n, p, c, q) && component(b, n, q).contains(s);
        lemma_joined_facts(b, n, q, s);
    }
    vstd::set_lib::lemma_set_subset_finite(b.dom(), cap);
    assert(colored_in(b, cap, c.other()) =~= cap);
    assert(colored_in(b, cap, c) =~= Set::<Position>::empty());
}

/// A game: the live board, whose turn it is, the history of earlier boards,
/// and the cell barred by ko.
#[derive(Debug, Clone)]
pub struct GameRules {
    board: Board,
    current_player: StoneColor,
    move_history: Vec<Board>,
    ko_point: Option<Position>,
}

impl View for GameRules {
    type V = GameView;

    closed spec fn view(&self) -> GameView {
        GameView {
            board: self.board@,
            current: self.current_player,
            history: self.move_history@.map_values(|b: Board| b@),
            ko: self.ko_point,
        }
    }
}

/// The opponent stones that a stone of `color` at `pos` captures on `board`,
/// which already holds that stone. Groups are collected before any is
/// removed; a stone may be listed more than once.
fn collect_captures(board: &Board, pos: Position, color: StoneColor) -> (r: Vec<Position>)
    requires
        board.wf(),
    ensures
        r@.to_set() == captured_by(board@.stones, board@.size as int, pos, color),
{
    let ghost b = board@.stones;
    let ghost n = board@.size as int;
    let opponent = color.opposite();
    let nbrs = board.get_neighbors(pos);
    proof {
        lemma_neighbor_seq(n, pos);
    }
    let mut dead: Vec<Position> = Vec::new();
    let mut t: usize = 0;
    while t < nbrs.len()
        invariant
            board.wf(),
            b == board@.stones,
            n == board@.size as int,
            opponent == color.other(),
            nbrs@ == neighbor_seq(n, pos),
            t <= nbrs@.len(),
            forall|s: Position|
                #[trigger] dead@.contains(s) <==> exists|u: int|
                    0 <= u < t && dead_neighbor(b, n, pos, color, nbrs@[u]) && component(
                        b,
                        n,
                        nbrs@[u],
                    ).contains(s),
        decreases nbrs@.len() - t,
    {
        let q = nbrs[t];
        proof {
            assert(nbrs@.contains(q));
        }
        let ghost dead0 = dead@;
        let mut found = false;
        if same_content(board.get_stone(q), Some(opponent)) {
            match board.get_group(q) {
                Some(group) => {
                    let libs = board.get_liberties(&group);
                    proof {
                        if libs@.len() > 0 {
                            assert(libs@.to_set().contains(libs@[0]));
                        } else {
                            assert(libs@.to_set() =~= Set::<Position>::empty());
                        }
                    }
                    if libs.len() == 0 {
                        found = true;
                        let mut i: usize = 0;
                        while i < group.len()
                            invariant
                                i <= group@.len(),
                                dead@ == dead0 + group@.take(i as int),
                            decreases group@.len() - i,
                        {
                            dead.push(group[i]);
                            i = i + 1;
                            assert(dead@ =~= dead0 + group@.take(i as int));
                        }
                        proof {
                            assert(group@.take(group@.len() as int) =~= group@);
                            assert(dead_neighbor(b, n, pos, color, q));
                            assert forall|s: Position| #[trigger] dead@.contains(s) <==> (dead0.contains(s)
                                || component(b, n, q).contains(s)) by {
                                if dead@.contains(s) {
                                    let i = choose|i: int| 0 <= i < dead@.len() && dead@[i] == s;
                                    if i >= dead0.len() {
                                        assert(group@[i - dead0.len()] == s);
                                        assert(group@.to_set().contains(s));
                                    } else {
                                        assert(dead0[i] == s);
                                    }
                                }
                                if dead0.contains(s) {
                                    let i = choose|i: int| 0 <= i < dead0.len() && dead0[i] == s;
                                    assert(dead@[i] == s);
                                }
                                if component(b, n, q).contains(s) {
                                    assert(group@.to_set().contains(s));
                                    let i = choose|i: int| 0 <= i < group@.len() && group@[i] == s;
                                    assert(dead@[dead0.len() + i] == s);
                                }
                            }
                        }
                    }
                },
                None => {},
            }
        }
        proof {
            if !found {
                assert(!dead_neighbor(b, n, pos, color, q));
                assert(dead@ == dead0);
            }
            assert forall|s: Position| #[trigger] dead@.contains(s) <==> exists|u: int|
                0 <= u < t + 1 && dead_neighbor(b, n, pos, color, nbrs@[u]) && component(
                    b,
                    n,
                    nbrs@[u],
                ).contains(s) by {
                if dead@.contains(s) && !dead0.contains(s) {
                    assert(found);
                    assert(dead_neighbor(b, n, pos, color, nbrs@[t as int]) && component(b, n, nbrs@[t as int]).contains(s));
                }
                if exists|u: int|
                    0 <= u < t + 1 && dead_neighbor(b, n, pos, color, nbrs@[u]) && component(
                        b,
                        n,
                        nbrs@[u],
                    ).contains(s) {
                    let u = choose|u: int|
                        0 <= u < t + 1 && dead_neighbor(b, n, pos, color, nbrs@[u]) && component(
                            b,
                            n,
                            nbrs@[u],
                        ).contains(s);
                    if u == t {
                        assert(found);
                    }
                }
            }
        }
        t = t + 1;
    }
    proof {
        let cap = captured_by(b, n, pos, color);
        assert forall|s: Position| #[trigger] dead@.to_set().contains(s) <==> cap.contains(s) by {
            if dead@.contains(s) {
                let u = choose|u: int|
                    0 <= u < nbrs@.len() && dead_neighbor(b, n, pos, color, nbrs@[u]) && component(
                        b,
                        n,
                        nbrs@[u],
                    ).contains(s);
                assert(dead_neighbor(b, n, pos, color, nbrs@[u]));
            }
            if cap.contains(s) {
                let q = choose|q: Position| #[trigger] dead_neighbor(b, n, pos, color, q) && component(b, n, q).contains(s);
                assert(nbrs@.contains(q));
                let u = choose|u: int| 0 <= u < nbrs@.len() && nbrs@[u] == q;
                assert(dead_neighbor(b, n, pos, color, nbrs@[u]));
            }
        }
        assert(dead@.to_set() =~= cap);
    }
    dead
}

impl GameRules {
    /// The board invariant, for the live board and every stored board, all of
    /// one size.
    pub closed spec fn wf(&self) -> bool {
        &&& self.board.wf()
        &&& forall|i: int|
            0 <= i < self.move_history@.len() ==> (#[trigger] self.move_history@[i]).wf()
                && self.move_history@[i]@.size == self.board@.size
    }

    /// What a well-formed game offers its callers: a valid live board, and
    /// stored boards that are valid and of the live board's size.
    pub proof fn lemma_wf(&self)
        requires
            self.wf(),
        ensures
            self@.board.valid(),
            forall|i: int|
                0 <= i < self@.history.len() ==> (#[trigger] self@.history[i]).valid()
                    && self@.history[i].size == self@.board.size,
    {
    }

    /// A game on an empty board of side `board_size`, Black to move.
    pub fn new(board_size: usize) -> (r: GameRules)
        ensures
            r.wf(),
            r@ == fresh_game(
                BoardView {
                    stones: Map::empty(),
                    size: board_size as nat,
                    captured_black: 0,
                    captured_white: 0,
                },
            ),
    {
        let r = GameRules {
            board: Board::new(board_size),
            current_player: StoneColor::Black,
            move_history: Vec::new(),
            ko_point: None,
        };
        proof {
            assert(r@.history =~= Seq::<BoardView>::empty());
        }
        r
    }

    /// A game on a board of side `board_size` holding the starting pattern.
    pub fn new_with_dodecahedron(board_size: usize) -> (r: GameRules)
        ensures
            r.wf(),
            r@ == fresh_game(
                BoardView {
                    stones: seed_stones(board_size as int),
                    size: board_size as nat,
                    captured_black: 0,
                    captured_white: 0,
                },
            ),
    {
        let r = GameRules {
            board: Board::new_with_dodecahedron(board_size),
            current_player: StoneColor::Black,
            move_history: Vec::new(),
            ko_point: None,
        };
        proof {
            assert(r@.history =~= Seq::<BoardView>::empty());
        }
        r
    }

    /// The live board.
    pub fn board(&self) -> (r: &Board)
        requires
            self.wf(),
        ensures
            r.wf(),
            r@ == self@.board,
    {
        &self.board
    }

    /// The live board, for changing directly. The game is well formed again
    /// once the board is left well formed and of the same size.
    pub fn board_mut(&mut self) -> (r: &mut Board)
        requires
            old(self).wf(),
        ensures
            r.wf(),
            r@ == old(self)@.board,
            final(self)@ == (GameView { board: final(r)@, ..old(self)@ }),
            final(r).wf() && final(r)@.size == old(self)@.board.size ==> final(self).wf(),
    {
        &mut self.board
    }

    /// The colour to move.
    pub fn current_player(&self) -> (r: StoneColor)
        ensures
            r == self@.current,
    {
        self.current_player
    }

    /// Whether a move can be taken back.
    pub fn can_undo(&self) -> (r: bool)
        ensures
            r == (self@.history.len() > 0),
    {
        self.move_history.len() > 0
    }

    /// Empties the board and starts over: no history, no ko, Black to move.
    pub fn clear_board(&mut self)
        requires
            old(self).wf(),
        ensures
            final(self).wf(),
            final(self)@ == fresh_game(
                BoardView {
                    stones: Map::empty(),
                    size: old(self)@.board.size,
                    captured_black: 0,
                    captured_white: 0,
                },
            ),
    {
        self.board.clear();
        self.move_history = Vec::new();
        self.ko_point = None;
        self.current_player = StoneColor::Black;
        proof {
            assert(self@.history =~= Seq::<BoardView>::empty());
        }
    }

    /// Puts the starting pattern back and starts over.
    pub fn reset_with_dodecahedron(&mut self)
        requires
            old(self).wf(),
        ensures
            final(self).wf(),
            final(self)@ == fresh_game(
                BoardView {
                    stones: seed_stones(old(self)@.board.size as int),
                    size: old(self)@.board.size,
                    captured_black: 0,
                    captured_white: 0,
                },
            ),
    {
        self.board.reset_with_dodecahedron();
        self.move_history = Vec::new();
        self.ko_point = None;
        self.current_player = StoneColor::Black;
        proof {
            assert(self@.history =~= Seq::<BoardView>::empty());
        }
    }

    /// Puts the nine-stone display check pattern on the board and starts over.
    pub fn place_test_pattern(&mut self)
        requires
            old(self).wf(),
        ensures
            final(self).wf(),
            final(self)@ == fresh_game(
                BoardView {
                    stones: test_pattern_stones(old(self)@.board.size as int),
                    size: old(self)@.board.size,
                    captured_black: 0,
                    captured_white: 0,
                },
            ),
    {
        self.board.place_test_pattern();
        self.move_history = Vec::new();
        self.ko_point = None;
        self.current_player = StoneColor::Black;
        proof {
            assert(self@.history =~= Seq::<BoardView>::empty());
        }
    }

    /// Whether the player to move may play at `(x, y, z)`. The move is tried
    /// on a copy of the board; the game is not changed.
    pub fn is_legal_move(&self, x: u8, y: u8, z: u8) -> (r: bool)
        requires
            self.wf(),
        ensures
            r == is_legal(self@, (x, y, z)),
    {
        let pos = (x, y, z);
        let ghost n = self@.board.size as int;
        let ghost placed = self@.board.stones.insert(pos, self.current_player);
        if !self.board.is_valid_position(x, y, z) {
            return false;
        }
        if self.board.get_stone(pos).is_some() {
            return false;
        }
        let mut test_board = self.board.snapshot();
        if !test_board.place_stone(self.current_player, x, y, z) {
            return false;
        }
        let captured = collect_captures(&test_board, pos, self.current_player);
        proof {
            lemma_captured_are_opponents(placed, n, pos, self.current_player);
        }
        test_board.capture_group(captured);
        if !test_board.has_liberties(pos) {
            return false;
        }
        match self.ko_point {
            Some(k) => {
                if same_position(k, pos) {
                    return false;
                }
            },
            None => {},
        }
        true
    }

    /// Whether two boards have the same size and the same stone on every cell,
    /// compared cell by cell.
    fn boards_equal(&self, board1: &Board, board2: &Board) -> (r: bool)
        requires
            board1.wf(),
            board2.wf(),
        ensures
            r == (board1@.size == board2@.size && board1@.stones == board2@.stones),
    {
        if board1.size() != board2.size() {
            return false;
        }
        let ghost n = board1@.size as int;
        let m = side_of(board1.size());
        proof {
            assert(m * m <= 256 * 256) by (nonlinear_arith)
                requires
                    m <= 256,
            ;
            assert(m * m * m <= 256 * 256 * 256) by (nonlinear_arith)
                requires
                    m <= 256,
            ;
        }
        let total = m * m * m;
        let mut k: usize = 0;
        while k < total
            invariant
                board1.wf(),
                board2.wf(),
                n == board1@.size,
                n == board2@.size,
                m == side(n),
                total == m * m * m,
                k <= total,
                forall|q: Position|
                    in_bounds(n, q) && cell_index(m as int, q) < k ==> content(board1@.stones, q)
                        == content(board2@.stones, q),
            decreases total - k,
        {
            let pos = cell_at(m, k);
            proof {
                lemma_side(n, pos);
            }
            if !same_content(board1.get_stone(pos), board2.get_stone(pos)) {
                return false;
            }
            proof {
                assert forall|q: Position|
                    in_bounds(n, q) && cell_index(m as int, q) < k + 1 implies content(
                    board1@.stones,
                    q,
                ) == content(board2@.stones, q) by {
                    lemma_side(n, q);
                    lemma_cell_index(m as int, q, pos);
                }
            }
            k = k + 1;
        }
        proof {
            assert forall|q: Position| #[trigger] board1@.stones.contains_key(q) <==> board2@.stones.contains_key(q) by {
                if board1@.stones.contains_key(q) || board2@.stones.contains_key(q) {
                    lemma_side(n, q);
                    lemma_cell_index(m as int, q, q);
                    assert(content(board1@.stones, q) == content(board2@.stones, q));
                }
            }
            assert forall|q: Position| #[trigger] board1@.stones.contains_key(q) implies board1@.stones[q] == board2@.stones[q] by {
                lemma_side(n, q);
                lemma_cell_index(m as int, q, q);
                assert(content(board1@.stones, q) == content(board2@.stones, q));
            }
            assert(board1@.stones =~= board2@.stones);
        }
        true
    }

    /// Plays the player to move's stone at `(x, y, z)` if that is legal:
    /// stores the board in the history, lifts captured groups, bars the cell
    /// by ko when the capture brings back the board from before the
    /// opponent's last move, and hands the turn over. An illegal move changes
    /// nothing.
    pub fn make_move(&mut self, x: u8, y: u8, z: u8) -> (r: bool)
        requires
            old(self).wf(),
        ensures
            final(self).wf(),
            r == is_legal(old(self)@, (x, y, z)),
            r ==> final(self)@ == after_move(old(self)@, (x, y, z)),
            !r ==> final(self)@ == old(self)@,
    {
        if !self.is_legal_move(x, y, z) {
            return false;
        }
        let ghost g = self@;
        let ghost n = self@.board.size as int;
        let pos = (x, y, z);
        let ghost placed = g.board.stones.insert(pos, g.current);
        let snapshot = self.board.snapshot();
        self.move_history.push(snapshot);
        proof {
            assert(self@.history =~= g.history.push(g.board));
        }
        self.board.place_stone(self.current_player, x, y, z);
        let captured = collect_captures(&self.board, pos, self.current_player);
        proof {
            lemma_captured_are_opponents(placed, n, pos, g.current);
            if captured@.len() > 0 {
                assert(captured@.to_set().contains(captured@[0]));
            } else {
                assert(captured@.to_set() =~= Set::<Position>::empty());
            }
        }
        let captured_any = captured.len() > 0;
        let ghost cap = captured@.to_set();
        self.board.capture_group(captured);
        proof {
            assert(self@.board.stones == placed.remove_keys(cap));
            assert(colored_in(placed, cap, g.current) =~= Set::<Position>::empty());
            assert(colored_in(placed, cap, g.current.other()) == cap);
            assert(Set::<Position>::empty().len() == 0);
        }
        self.ko_point = None;
        if captured_any && self.move_history.len() >= 2 {
            let prev = &self.move_history[self.move_history.len() - 2];
            if self.boards_equal(&self.board, prev) {
                self.ko_point = Some(pos);
            }
        }
        self.current_player = self.current_player.opposite();
        proof {
            let a = after_move(g, pos);
            assert(self@.history =~= a.history);
            assert(self@.board.stones == a.board.stones);
            assert(self@.board.size == a.board.size);
            assert(self@.board.captured_black == a.board.captured_black);
            assert(self@.board.captured_white == a.board.captured_white);
            assert(self@.board =~= a.board);
        }
        true
    }

    /// Stores the board in the history and hands the turn over; the ko bar
    /// stays as it was.
    pub fn pass(&mut self)
        requires
            old(self).wf(),
        ensures
            final(self).wf(),
            final(self)@ == after_pass(old(self)@),
    {
        let ghost g = self@;
        let snapshot = self.board.snapshot();
        self.move_history.push(snapshot);
        self.current_player = self.current_player.opposite();
        proof {
            assert(self@.history =~= g.history.push(g.board));
        }
    }

    /// Takes back the last move or pass: the stored board comes back, the turn
    /// goes back and the ko bar is lifted. With nothing to take back, returns
    /// `false` and changes nothing.
    pub fn undo(&mut self) -> (r: bool)
        requires
            old(self).wf(),
        ensures
            final(self).wf(),
            r == (old(self)@.history.len() > 0),
            r ==> final(self)@ == after_undo(old(self)@),
            !r ==> final(self)@ == old(self)@,
    {
        let ghost g = self@;
        match self.move_history.pop() {
            Some(prev_board) => {
                self.board = prev_board;
                self.current_player = self.current_player.opposite();
                self.ko_point = None;
                proof {
                    assert(self@.history =~= g.history.drop_last());
                }
                true
            },
            None => false,
        }
    }
}

} // verus!
