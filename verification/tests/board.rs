use logic_core::{Board, Color, Piece, BOARD_SIZE};

#[test]
fn test_board_new() {
    let board = Board::new();
    for row in 0..BOARD_SIZE {
        for col in 0..BOARD_SIZE {
            assert_eq!(board.get(row, col), 0);
        }
    }
}

#[test]
fn test_board_set_get() {
    let mut board = Board::new();
    board.set(0, 0, 5);
    assert_eq!(board.get(0, 0), 5);

    board.set(7, 7, -1);
    assert_eq!(board.get(7, 7), -1);
}

#[test]
fn test_can_place() {
    let mut board = Board::new();
    let piece = Piece::new(1, 2, 3, Color::Black1);

    assert!(board.can_place(&piece, 0, 0));
    assert!(board.can_place(&piece, 5, 6));

    assert!(!board.can_place(&piece, 6, 0));
    assert!(!board.can_place(&piece, 0, 7));

    board.set(1, 1, 5);
    assert!(!board.can_place(&piece, 0, 0));
}

#[test]
fn test_place_and_remove() {
    let mut board = Board::new();
    let piece = Piece::new(1, 2, 3, Color::Black1);

    board.place(&piece, 0, 0);

    for r in 0..3 {
        for c in 0..2 {
            assert_eq!(board.get(r, c), 1);
        }
    }

    board.remove(&piece, 0, 0);

    for r in 0..3 {
        for c in 0..2 {
            assert_eq!(board.get(r, c), 0);
        }
    }
}

#[test]
fn test_is_full() {
    let mut board = Board::new();
    assert!(!board.is_full());

    for row in 0..BOARD_SIZE {
        for col in 0..BOARD_SIZE {
            board.set(row, col, 1);
        }
    }
    assert!(board.is_full());
}

#[test]
fn test_find_first_empty() {
    let mut board = Board::new();
    assert_eq!(board.find_first_empty(), Some((0, 0)));

    board.set(0, 0, 1);
    assert_eq!(board.find_first_empty(), Some((0, 1)));

    for row in 0..BOARD_SIZE {
        for col in 0..BOARD_SIZE {
            board.set(row, col, 1);
        }
    }
    assert_eq!(board.find_first_empty(), None);
}

#[test]
fn can_place_is_false_outside_the_grid() {
    let board = Board::new();
    let piece = Piece::new(4, 1, 4, Color::Blue1);
    assert!(board.can_place(&piece, 4, 7));
    assert!(!board.can_place(&piece, 5, 7));
    assert!(!board.can_place(&piece, 4, 8));
    assert!(!board.can_place(&piece, 8, 0));
    assert!(!board.can_place(&piece, usize::MAX, 0));
    assert!(!board.can_place(&piece, 0, usize::MAX));
    let huge = Piece::new(4, usize::MAX, usize::MAX, Color::Blue1);
    assert!(!board.can_place(&huge, 1, 1));
}

#[test]
fn can_place_is_false_over_an_obstacle() {
    let mut board = Board::new();
    board.set(3, 3, -1);
    let piece = Piece::new(6, 2, 2, Color::Red1);
    assert!(!board.can_place(&piece, 2, 2));
    assert!(!board.can_place(&piece, 3, 3));
    assert!(!board.can_place(&piece, 2, 3));
    assert!(!board.can_place(&piece, 3, 2));
    assert!(board.can_place(&piece, 4, 4));
    assert!(board.can_place(&piece, 0, 0));
    assert!(board.can_place(&piece, 3, 4));
}

#[test]
fn place_writes_the_identity_to_each_covered_cell_only() {
    let mut board = Board::new();
    let mut piece = Piece::new(7, 2, 3, Color::Red2);
    piece.rotate();
    board.place(&piece, 6, 5);
    let mut expected = [0i8; 64];
    for (r, c) in [(6, 5), (6, 6), (6, 7), (7, 5), (7, 6), (7, 7)] {
        expected[r * 8 + c] = 7;
    }
    assert_eq!(board.to_array(), expected);
    assert_eq!(board.count_empty(), 58);
}

#[test]
fn place_then_remove_restores_the_grid() {
    let mut board = Board::new();
    board.set(0, 0, -1);
    board.set(5, 5, 9);
    let before = board.to_array();
    let piece = Piece::new(11, 3, 4, Color::Gray2);
    assert!(board.can_place(&piece, 1, 1));
    board.place(&piece, 1, 1);
    assert_ne!(board.to_array(), before);
    board.remove(&piece, 1, 1);
    assert_eq!(board.to_array(), before);
}

#[test]
fn remove_clears_only_cells_that_hold_the_piece() {
    let mut board = Board::new();
    let piece = Piece::new(6, 2, 2, Color::Red1);
    board.place(&piece, 0, 0);
    board.set(0, 1, 3);
    board.set(2, 2, 6);
    board.remove(&piece, 0, 0);
    assert_eq!(board.get(0, 0), 0);
    assert_eq!(board.get(1, 0), 0);
    assert_eq!(board.get(1, 1), 0);
    assert_eq!(board.get(0, 1), 3);
    assert_eq!(board.get(2, 2), 6);
    let after = board.to_array();
    board.remove(&piece, 0, 0);
    assert_eq!(board.to_array(), after);
}

#[test]
fn remove_ignores_the_part_of_the_rectangle_outside_the_grid() {
    let mut board = Board::new();
    for row in 0..8 {
        for col in 0..8 {
            board.set(row, col, 5);
        }
    }
    let piece = Piece::new(5, 5, 5, Color::Blue2);
    board.remove(&piece, 6, 6);
    assert_eq!(board.count_empty(), 4);
    assert_eq!(board.get(6, 6), 0);
    assert_eq!(board.get(7, 7), 0);
    assert_eq!(board.get(5, 6), 5);
    board.remove(&piece, 8, 0);
    board.remove(&piece, 0, 9);
    assert_eq!(board.count_empty(), 4);
    let huge = Piece::new(5, usize::MAX, usize::MAX, Color::Blue2);
    board.remove(&huge, 1, 1);
    assert_eq!(board.count_empty(), 4 + 49 - 4);
}

#[test]
fn is_full_agrees_with_find_first_empty() {
    let mut board = Board::new();
    for index in 0..64 {
        assert_eq!(board.is_full(), board.find_first_empty().is_none());
        assert_eq!(board.find_first_empty(), Some((index / 8, index % 8)));
        board.set(index / 8, index % 8, if index % 2 == 0 { -1 } else { 4 });
    }
    assert!(board.is_full());
    assert_eq!(board.find_first_empty(), None);
    board.set(4, 2, 0);
    assert!(!board.is_full());
    assert_eq!(board.find_first_empty(), Some((4, 2)));
}

#[test]
fn count_empty_counts_the_zero_cells() {
    let mut board = Board::new();
    assert_eq!(board.count_empty(), 64);
    board.set(0, 0, -1);
    board.set(7, 7, 11);
    board.set(3, 4, 0);
    assert_eq!(board.count_empty(), 62);
}

#[test]
fn clear_empties_every_cell() {
    let mut board = Board::from_array([3i8; 64]);
    assert_eq!(board.count_empty(), 0);
    board.clear();
    assert_eq!(board.to_array(), [0i8; 64]);
    assert_eq!(board.count_empty(), 64);
}

#[test]
fn cells_and_cells_mut_share_the_grid() {
    let mut cells = [0i8; 64];
    cells[10] = 7;
    let mut board = Board::from_array(cells);
    assert_eq!(board.cells(), &cells);
    assert_eq!(board.get(1, 2), 7);
    board.cells_mut()[63] = -1;
    assert_eq!(board.get(7, 7), -1);
    assert!(!board.is_empty(7, 7));
    assert!(board.is_empty(0, 0));
    assert_eq!(Board::default().to_array(), [0i8; 64]);
    let copy = board.clone();
    assert_eq!(copy, board);
}

#[test]
fn symbols_show_obstacles_empty_cells_and_pieces() {
    let mut cells = [0i8; 64];
    cells[0] = -1;
    for id in 1..=11 {
        cells[id as usize + 1] = id;
    }
    cells[20] = 12;
    cells[21] = -2;
    cells[22] = i8::MAX;
    cells[23] = i8::MIN;
    let board = Board::from_array(cells);
    let first_row: String = (0..8).map(|col| board.symbol(0, col)).collect();
    assert_eq!(first_row, "■·123456");
    let second_row: String = (0..8).map(|col| board.symbol(1, col)).collect();
    assert_eq!(second_row, "789AB···");
    let third_row: String = (0..8).map(|col| board.symbol(2, col)).collect();
    assert_eq!(third_row, "····????");
}
