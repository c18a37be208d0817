use go3d::ai::play_empty_cell;
use go3d::{make_ai_move, GameRules, GuideSystem, StoneColor, ViewDirection};

#[test]
fn guide_starts_in_the_middle() {
    let g = GuideSystem::new(3);
    assert_eq!(g.get_intersection_position(), (1, 1, 1));
    let h = GuideSystem::new(8);
    assert_eq!(h.get_intersection_position(), (4, 4, 4));
}

#[test]
fn guide_moves_are_clamped() {
    let mut g = GuideSystem::new(3);
    g.move_x(5);
    g.move_y(-5);
    g.move_z(1);
    assert_eq!(g.get_intersection_position(), (2, 0, 2));
    g.move_x(-1);
    assert_eq!(g.plane_x_pos, 1);
    g.move_z(i32::MAX);
    assert_eq!(g.plane_z_pos, 2);
    g.move_y(i32::MIN);
    assert_eq!(g.plane_y_pos, 0);
}

#[test]
fn view_directions_in_panel_order() {
    assert_eq!(
        ViewDirection::all(),
        [
            ViewDirection::Top,
            ViewDirection::Left,
            ViewDirection::Right,
            ViewDirection::Back,
            ViewDirection::Front,
            ViewDirection::Bottom,
        ]
    );
}

#[test]
fn view_direction_labels() {
    let labels: Vec<&str> = ViewDirection::all().iter().map(|d| d.label()).collect();
    assert_eq!(labels, vec!["TOP", "LEFT", "RIGHT", "BACK", "FRONT", "BOTTOM"]);
}

#[test]
fn random_move_fills_the_last_empty_cell() {
    let mut g = GameRules::new(2);
    for c in [(0, 0, 0), (0, 0, 1), (0, 1, 0), (1, 0, 0)] {
        g.board_mut().place_stone(StoneColor::Black, c.0, c.1, c.2);
    }
    for c in [(0, 1, 1), (1, 0, 1), (1, 1, 0)] {
        g.board_mut().place_stone(StoneColor::White, c.0, c.1, c.2);
    }
    // (1,1,1) is the only empty cell; playing there takes all three white stones
    assert!(make_ai_move(&mut g));
    assert_eq!(g.board().get_stone((1, 1, 1)), Some(StoneColor::Black));
    assert_eq!(g.board().get_captured(StoneColor::White), 3);
    assert_eq!(g.current_player(), StoneColor::White);
}

#[test]
fn random_move_on_open_board_plays() {
    let mut g = GameRules::new(3);
    assert!(make_ai_move(&mut g));
    assert_eq!(g.board().get_all_stones().len(), 1);
    assert_eq!(g.current_player(), StoneColor::White);
}

#[test]
fn random_move_on_full_board_fails() {
    let mut g = GameRules::new(1);
    g.board_mut().place_stone(StoneColor::White, 0, 0, 0);
    assert!(!make_ai_move(&mut g));
    assert_eq!(g.current_player(), StoneColor::Black);
}

#[test]
fn play_empty_cell_uses_row_major_rank() {
    let mut g = GameRules::new(2);
    g.board_mut().place_stone(StoneColor::White, 0, 0, 0);
    assert!(play_empty_cell(&mut g, 1));
    assert_eq!(g.board().get_stone((0, 1, 0)), Some(StoneColor::Black));
    assert!(!play_empty_cell(&mut g, 6));
    assert_eq!(g.current_player(), StoneColor::White);
}
