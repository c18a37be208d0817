use go3d::{Board, Stone, StoneColor};

fn sorted_stones(board: &Board) -> Vec<((u8, u8, u8), StoneColor)> {
    let mut all = board.get_all_stones();
    all.sort_by_key(|e| e.0);
    all
}

#[test]
fn opposite_swaps_colors() {
    assert_eq!(StoneColor::Black.opposite(), StoneColor::White);
    assert_eq!(StoneColor::White.opposite(), StoneColor::Black);
}

#[test]
fn stone_new_keeps_fields() {
    let s = Stone::new(StoneColor::White, 1, 2, 0);
    assert_eq!(s.color, StoneColor::White);
    assert_eq!(s.position, (1, 2, 0));
}

#[test]
fn new_board_is_empty() {
    let b = Board::new(4);
    assert_eq!(b.size(), 4);
    assert!(b.get_all_stones().is_empty());
    assert_eq!(b.get_captured(StoneColor::Black), 0);
    assert_eq!(b.get_captured(StoneColor::White), 0);
}

#[test]
fn valid_positions_stay_below_size() {
    let b = Board::new(3);
    assert!(b.is_valid_position(0, 0, 0));
    assert!(b.is_valid_position(2, 2, 2));
    assert!(!b.is_valid_position(3, 0, 0));
    assert!(!b.is_valid_position(0, 3, 0));
    assert!(!b.is_valid_position(0, 0, 255));
}

#[test]
fn place_stone_rejects_occupied_and_outside() {
    let mut b = Board::new(3);
    assert!(b.place_stone(StoneColor::Black, 1, 1, 1));
    assert_eq!(b.get_stone((1, 1, 1)), Some(StoneColor::Black));
    assert!(!b.place_stone(StoneColor::White, 1, 1, 1));
    assert_eq!(b.get_stone((1, 1, 1)), Some(StoneColor::Black));
    assert!(!b.place_stone(StoneColor::White, 3, 0, 0));
    assert_eq!(b.get_stone((3, 0, 0)), None);
    assert_eq!(b.get_all_stones().len(), 1);
}

#[test]
fn remove_stone_returns_color() {
    let mut b = Board::new(3);
    b.place_stone(StoneColor::White, 0, 1, 2);
    assert_eq!(b.remove_stone((0, 1, 2)), Some(StoneColor::White));
    assert_eq!(b.remove_stone((0, 1, 2)), None);
    assert_eq!(b.get_stone((0, 1, 2)), None);
}

#[test]
fn neighbor_counts_by_location() {
    let b = Board::new(3);
    assert_eq!(b.get_neighbors((0, 0, 0)).len(), 3);
    assert_eq!(b.get_neighbors((1, 0, 0)).len(), 4);
    assert_eq!(b.get_neighbors((1, 1, 0)).len(), 5);
    assert_eq!(b.get_neighbors((1, 1, 1)).len(), 6);
}

#[test]
fn neighbors_come_in_axis_order() {
    let b = Board::new(3);
    assert_eq!(
        b.get_neighbors((1, 1, 1)),
        vec![(0, 1, 1), (2, 1, 1), (1, 0, 1), (1, 2, 1), (1, 1, 0), (1, 1, 2)]
    );
    assert_eq!(b.get_neighbors((2, 0, 1)), vec![(1, 0, 1), (2, 1, 1), (2, 0, 0), (2, 0, 2)]);
}

#[test]
fn neighbors_at_coordinate_limit() {
    let b = Board::new(300);
    assert_eq!(
        b.get_neighbors((255, 0, 0)),
        vec![(254, 0, 0), (255, 1, 0), (255, 0, 1)]
    );
}

#[test]
fn group_follows_same_color_only() {
    let mut b = Board::new(3);
    b.place_stone(StoneColor::Black, 0, 0, 0);
    b.place_stone(StoneColor::Black, 1, 0, 0);
    b.place_stone(StoneColor::Black, 1, 1, 0);
    b.place_stone(StoneColor::White, 2, 0, 0);
    b.place_stone(StoneColor::Black, 2, 2, 2);
    let mut g = b.get_group((0, 0, 0)).unwrap();
    g.sort();
    assert_eq!(g, vec![(0, 0, 0), (1, 0, 0), (1, 1, 0)]);
    assert_eq!(b.get_group((2, 0, 0)).unwrap(), vec![(2, 0, 0)]);
    assert_eq!(b.get_group((0, 2, 2)), None);
    assert_eq!(b.get_group((9, 9, 9)), None);
}

#[test]
fn liberties_are_empty_neighbors_once() {
    let mut b = Board::new(3);
    b.place_stone(StoneColor::Black, 0, 0, 0);
    b.place_stone(StoneColor::Black, 1, 0, 0);
    b.place_stone(StoneColor::White, 0, 1, 0);
    let g = b.get_group((0, 0, 0)).unwrap();
    let mut libs = b.get_liberties(&g);
    libs.sort();
    assert_eq!(libs, vec![(0, 0, 1), (1, 0, 1), (1, 1, 0), (2, 0, 0)]);
    for p in &libs {
        assert_eq!(b.get_stone(*p), None);
        assert!(b.is_valid_position(p.0, p.1, p.2));
    }
}

#[test]
fn has_liberties_false_for_surrounded_and_empty() {
    let mut b = Board::new(3);
    b.place_stone(StoneColor::Black, 0, 0, 0);
    assert!(b.has_liberties((0, 0, 0)));
    b.place_stone(StoneColor::White, 1, 0, 0);
    b.place_stone(StoneColor::White, 0, 1, 0);
    b.place_stone(StoneColor::White, 0, 0, 1);
    assert!(!b.has_liberties((0, 0, 0)));
    assert!(!b.has_liberties((2, 2, 2)));
}

#[test]
fn capture_group_counts_removed_stones() {
    let mut b = Board::new(3);
    b.place_stone(StoneColor::Black, 0, 0, 0);
    b.place_stone(StoneColor::Black, 1, 0, 0);
    b.place_stone(StoneColor::White, 2, 2, 2);
    let removed = b.capture_group(vec![(0, 0, 0), (1, 0, 0), (0, 0, 0), (1, 1, 1), (2, 2, 2)]);
    assert_eq!(removed, 3);
    assert_eq!(b.get_captured(StoneColor::Black), 2);
    assert_eq!(b.get_captured(StoneColor::White), 1);
    assert!(b.get_all_stones().is_empty());
}

#[test]
fn clear_resets_stones_and_counters() {
    let mut b = Board::new(3);
    b.place_stone(StoneColor::Black, 0, 0, 0);
    b.capture_group(vec![(0, 0, 0)]);
    b.place_stone(StoneColor::White, 1, 0, 0);
    b.clear();
    assert!(b.get_all_stones().is_empty());
    assert_eq!(b.get_captured(StoneColor::Black), 0);
    assert_eq!(b.size(), 3);
}

#[test]
fn dodecahedron_on_three_cube() {
    let b = Board::new_with_dodecahedron(3);
    assert_eq!(
        sorted_stones(&b),
        vec![
            ((0, 0, 0), StoneColor::Black),
            ((0, 2, 0), StoneColor::Black),
            ((1, 1, 1), StoneColor::White),
            ((2, 0, 2), StoneColor::Black),
            ((2, 2, 2), StoneColor::Black),
        ]
    );
}

#[test]
fn dodecahedron_on_five_cube() {
    let b = Board::new_with_dodecahedron(5);
    let expected = vec![
        ((0, 0, 0), StoneColor::Black),
        ((0, 0, 4), StoneColor::Black),
        ((0, 2, 1), StoneColor::White),
        ((0, 2, 3), StoneColor::White),
        ((0, 4, 0), StoneColor::Black),
        ((0, 4, 4), StoneColor::Black),
        ((1, 0, 2), StoneColor::White),
        ((1, 4, 2), StoneColor::White),
        ((2, 1, 0), StoneColor::White),
        ((2, 1, 4), StoneColor::White),
        ((2, 3, 0), StoneColor::White),
        ((2, 3, 4), StoneColor::White),
        ((3, 0, 2), StoneColor::White),
        ((3, 4, 2), StoneColor::White),
        ((4, 0, 0), StoneColor::Black),
        ((4, 0, 4), StoneColor::Black),
        ((4, 2, 1), StoneColor::White),
        ((4, 2, 3), StoneColor::White),
        ((4, 4, 0), StoneColor::Black),
        ((4, 4, 4), StoneColor::Black),
    ];
    assert_eq!(sorted_stones(&b), expected);
}

#[test]
fn dodecahedron_on_small_cubes() {
    let one = Board::new_with_dodecahedron(1);
    assert_eq!(sorted_stones(&one), vec![((0, 0, 0), StoneColor::Black)]);
    let two = Board::new_with_dodecahedron(2);
    assert_eq!(two.get_all_stones().len(), 8);
    assert!(two.get_all_stones().iter().all(|e| e.1 == StoneColor::Black));
    let empty = Board::new_with_dodecahedron(0);
    assert!(empty.get_all_stones().is_empty());
}

#[test]
fn dodecahedron_on_large_cube_is_empty() {
    let b = Board::new_with_dodecahedron(2000);
    assert!(b.get_all_stones().is_empty());
}

#[test]
fn reset_with_dodecahedron_replaces_stones() {
    let mut b = Board::new(3);
    b.place_stone(StoneColor::White, 0, 0, 1);
    b.capture_group(vec![(0, 0, 1)]);
    b.reset_with_dodecahedron();
    assert_eq!(b.get_all_stones().len(), 5);
    assert_eq!(b.get_stone((0, 0, 1)), None);
    assert_eq!(b.get_captured(StoneColor::White), 0);
}

#[test]
fn test_pattern_has_nine_stones() {
    let mut b = Board::new(3);
    b.place_stone(StoneColor::Black, 1, 0, 1);
    b.place_test_pattern();
    assert_eq!(
        sorted_stones(&b),
        vec![
            ((0, 0, 0), StoneColor::Black),
            ((0, 0, 2), StoneColor::Black),
            ((0, 1, 1), StoneColor::Black),
            ((0, 2, 2), StoneColor::Black),
            ((1, 1, 1), StoneColor::White),
            ((1, 2, 0), StoneColor::White),
            ((2, 0, 0), StoneColor::White),
            ((2, 1, 1), StoneColor::White),
            ((2, 2, 2), StoneColor::White),
        ]
    );
}

#[test]
fn empty_positions_in_row_major_order() {
    let mut b = Board::new(2);
    b.place_stone(StoneColor::Black, 0, 0, 1);
    b.place_stone(StoneColor::White, 1, 0, 0);
    assert_eq!(
        b.empty_positions(),
        vec![(0, 0, 0), (0, 1, 0), (0, 1, 1), (1, 0, 1), (1, 1, 0), (1, 1, 1)]
    );
}
