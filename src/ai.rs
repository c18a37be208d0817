//! A player that picks a random empty cell.
use vstd::prelude::*;

use rand::Rng;

use crate::board::empty_cells;
use crate::rules::{after_move, is_legal, GameRules};

verus! {

/// Relies on `rand::thread_rng` and `rand::Rng::gen_range`: a number drawn
/// from `0..len`; `gen_range` panics only on an empty range.
#[verifier::external_body]
fn random_index(len: usize) -> (r: usize)
    requires
        len > 0,
    ensures
        r < len,
{
    rand::thread_rng().gen_range(0..len)
}

/// Plays the player to move at the empty cell with rank `choice` in
/// row-major order. Returns `false`, changing nothing, when there is no such
/// cell or the move there is not legal.
pub fn play_empty_cell(rules: &mut GameRules, choice: usize) -> (r: bool)
    requires
        old(rules).wf(),
    ensures
        final(rules).wf(),
        ({
            let cells = empty_cells(old(rules)@.board.stones, old(rules)@.board.size as int);
            &&& r == (choice < cells.len() && is_legal(old(rules)@, cells[choice as int]))
            &&& r ==> final(rules)@ == after_move(old(rules)@, cells[choice as int])
        }),
        !r ==> final(rules)@ == old(rules)@,
{
    let empties = rules.board().empty_positions();
    if choice >= empties.len() {
        return false;
    }
    let pos = empties[choice];
    rules.make_move(pos.0, pos.1, pos.2)
}

/// Plays the player to move at an empty cell drawn at random. Returns `false`,
/// changing nothing, when the board has no empty cell or the drawn move is
/// not legal.
pub fn make_ai_move(rules: &mut GameRules) -> (r: bool)
    requires
        old(rules).wf(),
    ensures
        final(rules).wf(),
        ({
            let cells = empty_cells(old(rules)@.board.stones, old(rules)@.board.size as int);
            &&& cells.len() == 0 ==> !r
            &&& cells.len() > 0 && (forall|k: int|
                0 <= k < cells.len() ==> is_legal(old(rules)@, #[trigger] cells[k])) ==> r
            &&& r ==> exists|k: int|
                0 <= k < cells.len() && is_legal(old(rules)@, cells[k]) && final(rules)@
                    == after_move(old(rules)@, #[trigger] cells[k])
        }),
        !r ==> final(rules)@ == old(rules)@,
{
    let count = rules.board().empty_positions().len();
    if count == 0 {
        return false;
    }
    let choice = random_index(count);
    play_empty_cell(rules, choice)
}

} // verus!
