use go3d::{GameRules, StoneColor};

#[test]
fn new_game_black_to_move() {
    let g = GameRules::new(3);
    assert_eq!(g.current_player(), StoneColor::Black);
    assert!(!g.can_undo());
    assert!(g.board().get_all_stones().is_empty());
    assert_eq!(g.board().size(), 3);
}

#[test]
fn center_capture_scenario() {
    let mut g = GameRules::new(3);
    assert!(g.make_move(1, 1, 1));
    assert_eq!(g.board().get_all_stones().len(), 1);
    assert_eq!(g.current_player(), StoneColor::White);
    assert!(!g.make_move(1, 1, 1));
    assert_eq!(g.current_player(), StoneColor::White);
    assert!(g.make_move(0, 1, 1));
    assert!(g.make_move(0, 0, 1));
    g.pass();
    assert!(g.make_move(0, 2, 1));
    g.pass();
    assert!(g.make_move(0, 1, 0));
    g.pass();
    assert_eq!(g.board().get_stone((0, 1, 1)), Some(StoneColor::White));
    assert!(g.make_move(0, 1, 2));
    assert_eq!(g.board().get_stone((0, 1, 1)), None);
    assert_eq!(g.board().get_captured(StoneColor::White), 1);
    assert_eq!(g.board().get_captured(StoneColor::Black), 0);
    assert_eq!(g.board().get_all_stones().len(), 5);
}

#[test]
fn out_of_bounds_move_is_illegal() {
    let mut g = GameRules::new(3);
    assert!(!g.is_legal_move(3, 0, 0));
    assert!(!g.make_move(0, 5, 0));
    assert!(!g.can_undo());
    assert_eq!(g.current_player(), StoneColor::Black);
}

#[test]
fn suicide_is_illegal() {
    let mut g = GameRules::new(3);
    g.board_mut().place_stone(StoneColor::White, 1, 0, 0);
    g.board_mut().place_stone(StoneColor::White, 0, 1, 0);
    g.board_mut().place_stone(StoneColor::White, 0, 0, 1);
    assert!(!g.is_legal_move(0, 0, 0));
    assert!(!g.make_move(0, 0, 0));
    assert_eq!(g.board().get_stone((0, 0, 0)), None);
    assert_eq!(g.current_player(), StoneColor::Black);
}

#[test]
fn capture_that_gains_a_liberty_is_legal() {
    let mut g = GameRules::new(3);
    // white corner stone with only one liberty left, at (0,0,0)
    g.board_mut().place_stone(StoneColor::White, 1, 0, 0);
    g.board_mut().place_stone(StoneColor::Black, 2, 0, 0);
    g.board_mut().place_stone(StoneColor::Black, 1, 1, 0);
    g.board_mut().place_stone(StoneColor::Black, 1, 0, 1);
    g.board_mut().place_stone(StoneColor::White, 0, 1, 0);
    g.board_mut().place_stone(StoneColor::White, 0, 0, 1);
    // black at the corner has no empty neighbour but captures (1,0,0)
    assert!(g.is_legal_move(0, 0, 0));
    assert!(g.make_move(0, 0, 0));
    assert_eq!(g.board().get_stone((1, 0, 0)), None);
    assert_eq!(g.board().get_captured(StoneColor::White), 1);
}

#[test]
fn capture_of_a_larger_group_counts_every_stone() {
    let mut g = GameRules::new(3);
    // a white pair along x on the bottom edge, surrounded but for (0,0,0)
    g.board_mut().place_stone(StoneColor::White, 1, 0, 0);
    g.board_mut().place_stone(StoneColor::White, 2, 0, 0);
    g.board_mut().place_stone(StoneColor::Black, 1, 1, 0);
    g.board_mut().place_stone(StoneColor::Black, 1, 0, 1);
    g.board_mut().place_stone(StoneColor::Black, 2, 1, 0);
    g.board_mut().place_stone(StoneColor::Black, 2, 0, 1);
    assert!(g.make_move(0, 0, 0));
    assert_eq!(g.board().get_stone((1, 0, 0)), None);
    assert_eq!(g.board().get_stone((2, 0, 0)), None);
    assert_eq!(g.board().get_captured(StoneColor::White), 2);
}

fn ko_position() -> GameRules {
    let mut g = GameRules::new(3);
    let b = g.board_mut();
    b.place_stone(StoneColor::Black, 0, 0, 0);
    b.place_stone(StoneColor::White, 0, 1, 0);
    b.place_stone(StoneColor::White, 0, 0, 1);
    b.place_stone(StoneColor::Black, 2, 0, 0);
    b.place_stone(StoneColor::Black, 1, 1, 0);
    b.place_stone(StoneColor::Black, 1, 0, 1);
    g.pass();
    g
}

#[test]
fn ko_recapture_bars_capturing_cell() {
    let mut g = ko_position();
    let before: Vec<_> = {
        let mut v = g.board().get_all_stones();
        v.sort_by_key(|e| e.0);
        v
    };
    // white takes the black corner stone
    assert!(g.make_move(1, 0, 0));
    assert_eq!(g.board().get_stone((0, 0, 0)), None);
    assert_eq!(g.board().get_captured(StoneColor::Black), 1);
    // black takes back, which brings back the earlier board
    assert!(g.make_move(0, 0, 0));
    assert_eq!(g.board().get_stone((1, 0, 0)), None);
    assert_eq!(g.board().get_captured(StoneColor::White), 1);
    let mut after = g.board().get_all_stones();
    after.sort_by_key(|e| e.0);
    assert_eq!(after, before);
    assert_eq!(g.current_player(), StoneColor::White);
    assert!(!g.is_legal_move(0, 0, 0));
    // only the capturing cell is barred: white may take the corner again
    assert!(g.is_legal_move(1, 0, 0));
}

#[test]
fn undo_restores_board_and_player() {
    let mut g = GameRules::new(3);
    assert!(g.make_move(1, 1, 1));
    assert!(g.make_move(0, 1, 1));
    let mut before = g.board().get_all_stones();
    before.sort_by_key(|e| e.0);
    assert!(g.make_move(2, 2, 2));
    assert!(g.undo());
    let mut after = g.board().get_all_stones();
    after.sort_by_key(|e| e.0);
    assert_eq!(after, before);
    assert_eq!(g.current_player(), StoneColor::Black);
}

#[test]
fn undo_restores_capture_counts() {
    let mut g = GameRules::new(3);
    g.board_mut().place_stone(StoneColor::White, 0, 0, 0);
    g.board_mut().place_stone(StoneColor::Black, 1, 0, 0);
    g.board_mut().place_stone(StoneColor::Black, 0, 1, 0);
    assert!(g.make_move(0, 0, 1));
    assert_eq!(g.board().get_captured(StoneColor::White), 1);
    assert!(g.undo());
    assert_eq!(g.board().get_captured(StoneColor::White), 0);
    assert_eq!(g.board().get_stone((0, 0, 0)), Some(StoneColor::White));
}

#[test]
fn undo_with_empty_history_does_nothing() {
    let mut g = GameRules::new_with_dodecahedron(3);
    assert!(!g.undo());
    assert_eq!(g.current_player(), StoneColor::Black);
    assert_eq!(g.board().get_all_stones().len(), 5);
}

#[test]
fn pass_flips_player_and_can_be_undone() {
    let mut g = GameRules::new(3);
    g.pass();
    assert_eq!(g.current_player(), StoneColor::White);
    assert!(g.can_undo());
    assert!(g.undo());
    assert_eq!(g.current_player(), StoneColor::Black);
    assert!(!g.can_undo());
}

#[test]
fn new_with_dodecahedron_seeds_five_stones() {
    let g = GameRules::new_with_dodecahedron(3);
    let mut all = g.board().get_all_stones();
    all.sort_by_key(|e| e.0);
    assert_eq!(
        all,
        vec![
            ((0, 0, 0), StoneColor::Black),
            ((0, 2, 0), StoneColor::Black),
            ((1, 1, 1), StoneColor::White),
            ((2, 0, 2), StoneColor::Black),
            ((2, 2, 2), StoneColor::Black),
        ]
    );
}

#[test]
fn clear_board_starts_over() {
    let mut g = GameRules::new_with_dodecahedron(3);
    assert!(g.make_move(1, 0, 0));
    g.clear_board();
    assert!(g.board().get_all_stones().is_empty());
    assert_eq!(g.current_player(), StoneColor::Black);
    assert!(!g.can_undo());
}

#[test]
fn reset_with_dodecahedron_starts_over() {
    let mut g = GameRules::new(3);
    assert!(g.make_move(1, 0, 0));
    g.reset_with_dodecahedron();
    assert_eq!(g.board().get_all_stones().len(), 5);
    assert_eq!(g.current_player(), StoneColor::Black);
    assert!(!g.can_undo());
}

#[test]
fn place_test_pattern_starts_over() {
    let mut g = GameRules::new(3);
    assert!(g.make_move(1, 0, 0));
    g.place_test_pattern();
    assert_eq!(g.board().get_all_stones().len(), 9);
    assert_eq!(g.current_player(), StoneColor::Black);
    assert!(!g.can_undo());
}

#[test]
fn territory_of_empty_board_is_zero() {
    let g = GameRules::new(3);
    assert_eq!(g.get_territory_score(), (0, 0));
}

#[test]
fn territory_behind_a_wall() {
    let mut g = GameRules::new(3);
    for y in 0..3u8 {
        for z in 0..3u8 {
            g.board_mut().place_stone(StoneColor::Black, 1, y, z);
        }
    }
    assert_eq!(g.get_territory_score(), (18, 0));
    g.board_mut().place_stone(StoneColor::White, 2, 2, 2);
    assert_eq!(g.get_territory_score(), (9, 0));
}

#[test]
fn territory_for_white_and_contested() {
    let mut g = GameRules::new(3);
    for y in 0..3u8 {
        for z in 0..3u8 {
            g.board_mut().place_stone(StoneColor::White, 1, y, z);
        }
    }
    g.board_mut().place_stone(StoneColor::Black, 0, 0, 0);
    let (black, white) = g.get_territory_score();
    assert_eq!(black, 0);
    assert_eq!(white, 9);
    assert_eq!(g.get_territory_score(), (black, white));
}
