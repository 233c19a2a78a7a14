use logic_core::piece::get_standard_pieces;
use logic_core::{Board, Color, GameState, Piece, Placement, SolveResult, Solver};

#[test]
fn test_solver_empty_board() {
    let solver = Solver::new(1);
    let pieces = get_standard_pieces();
    let state = GameState::new(pieces);

    let result = solver.solve(&state);

    match result {
        SolveResult::NoSolution => panic!("Should have at least one solution"),
        SolveResult::UniqueSolution(solution) => {
            assert!(solution.board.is_full());
            assert_eq!(solution.placements.len(), 11);
        }
        SolveResult::MultipleSolutions(_) => {}
    }
}

#[test]
fn test_solver_with_obstacles() {
    let solver = Solver::new(1);
    let mut pieces = get_standard_pieces();
    let mut board = Board::new();

    board.place(&pieces[0], 0, 0);
    board.place(&pieces[1], 0, 1);
    board.place(&pieces[2], 0, 3);

    pieces.drain(0..3);

    let mut state = GameState::new(pieces);
    state.board = board;

    let result = solver.solve(&state);

    match result {
        SolveResult::NoSolution => {}
        SolveResult::UniqueSolution(solution) => {
            assert!(solution.board.is_full());
        }
        SolveResult::MultipleSolutions(solutions) => {
            assert!(!solutions.is_empty());
            assert!(solutions[0].board.is_full());
        }
    }
}

#[test]
fn test_solver_impossible_case() {
    let solver = Solver::new(1);
    let mut pieces = get_standard_pieces();
    let mut board = Board::new();

    for row in 0..8 {
        for col in 0..8 {
            if (row, col) != (0, 0) && (row, col) != (3, 3) && (row, col) != (7, 7) {
                board.set(row, col, -1);
            }
        }
    }

    pieces.retain(|p| p.id != 1);

    let mut state = GameState::new(pieces);
    state.board = board;

    let result = solver.solve(&state);

    assert!(matches!(result, SolveResult::NoSolution));
}

fn grid_with_gap(cells: &[(usize, usize)]) -> Board {
    let mut board = Board::new();
    for row in 0..8 {
        for col in 0..8 {
            if !cells.contains(&(row, col)) {
                board.set(row, col, -1);
            }
        }
    }
    board
}

#[test]
fn a_full_grid_is_its_own_solution() {
    let mut state = GameState::new(Vec::new());
    state.board = Board::from_array([-1i8; 64]);
    match Solver::new(2).solve(&state) {
        SolveResult::UniqueSolution(solution) => {
            assert_eq!(solution.board.to_array(), [-1i8; 64]);
            assert!(solution.placements.is_empty());
        }
        other => panic!("expected one solution, got {:?}", other),
    }
}

#[test]
fn a_cap_of_zero_finds_nothing() {
    let mut state = GameState::new(Vec::new());
    state.board = Board::from_array([-1i8; 64]);
    assert!(matches!(Solver::new(0).solve(&state), SolveResult::NoSolution));
}

#[test]
fn no_piece_left_means_no_solution() {
    let state = GameState::new(Vec::new());
    assert!(matches!(Solver::new(2).solve(&state), SolveResult::NoSolution));
}

#[test]
fn one_gap_of_two_cells_has_one_solution_with_the_domino_turned() {
    let mut state = GameState::new(vec![Piece::new(2, 1, 2, Color::Black2)]);
    state.board = grid_with_gap(&[(2, 3), (2, 4)]);
    match Solver::new(2).solve(&state) {
        SolveResult::UniqueSolution(solution) => {
            assert_eq!(
                solution.placements,
                vec![Placement { piece_id: 2, row: 2, col: 3, rotated: true }]
            );
            assert_eq!(solution.board.get(2, 3), 2);
            assert_eq!(solution.board.get(2, 4), 2);
            assert!(solution.board.is_full());
            assert_eq!(solution.board.get(0, 0), -1);
        }
        other => panic!("expected one solution, got {:?}", other),
    }
}

#[test]
fn solutions_come_in_search_order_up_to_the_cap() {
    let pieces = vec![
        Piece::new(2, 1, 2, Color::Black2),
        Piece::new(1, 1, 1, Color::Black1),
        Piece::new(3, 1, 3, Color::Black3),
    ];
    let gap = [(0, 0), (1, 0), (2, 0)];
    let straight = vec![
        Placement { piece_id: 2, row: 0, col: 0, rotated: false },
        Placement { piece_id: 1, row: 2, col: 0, rotated: false },
    ];
    let reversed = vec![
        Placement { piece_id: 1, row: 0, col: 0, rotated: false },
        Placement { piece_id: 2, row: 1, col: 0, rotated: false },
    ];
    let whole = vec![Placement { piece_id: 3, row: 0, col: 0, rotated: false }];

    let mut state = GameState::new(pieces);
    state.board = grid_with_gap(&gap);

    match Solver::new(1).solve(&state) {
        SolveResult::UniqueSolution(solution) => assert_eq!(solution.placements, straight),
        other => panic!("expected one solution, got {:?}", other),
    }
    match Solver::new(2).solve(&state) {
        SolveResult::MultipleSolutions(solutions) => {
            assert_eq!(solutions.len(), 2);
            assert_eq!(solutions[0].placements, straight);
            assert_eq!(solutions[1].placements, reversed);
        }
        other => panic!("expected two solutions, got {:?}", other),
    }
    for cap in [3usize, 4, 10] {
        match Solver::new(cap).solve(&state) {
            SolveResult::MultipleSolutions(solutions) => {
                assert_eq!(solutions.len(), 3);
                assert_eq!(solutions[0].placements, straight);
                assert_eq!(solutions[1].placements, reversed);
                assert_eq!(solutions[2].placements, whole);
                assert_eq!(solutions[0].board.get(0, 0), 2);
                assert_eq!(solutions[0].board.get(2, 0), 1);
                assert_eq!(solutions[2].board.get(1, 0), 3);
            }
            other => panic!("expected three solutions, got {:?}", other),
        }
    }
}

#[test]
fn used_pieces_are_not_offered() {
    let pieces = vec![
        Piece::new(2, 1, 2, Color::Black2),
        Piece::new(1, 1, 1, Color::Black1),
        Piece::new(3, 1, 3, Color::Black3),
    ];
    let mut state = GameState::new(pieces);
    state.board = grid_with_gap(&[(0, 0), (1, 0), (2, 0)]);
    state.used_pieces = vec![false, true, false];
    match Solver::default().solve(&state) {
        SolveResult::UniqueSolution(solution) => {
            assert_eq!(
                solution.placements,
                vec![Placement { piece_id: 3, row: 0, col: 0, rotated: false }]
            );
        }
        other => panic!("expected one solution, got {:?}", other),
    }
    state.used_pieces = vec![true, true, true];
    assert!(matches!(Solver::default().solve(&state), SolveResult::NoSolution));
}

#[test]
fn a_square_piece_is_tried_once() {
    let mut state = GameState::new(vec![Piece::new(6, 2, 2, Color::Red1)]);
    state.board = grid_with_gap(&[(4, 4), (4, 5), (5, 4), (5, 5)]);
    match Solver::new(5).solve(&state) {
        SolveResult::UniqueSolution(solution) => {
            assert_eq!(
                solution.placements,
                vec![Placement { piece_id: 6, row: 4, col: 4, rotated: false }]
            );
        }
        other => panic!("expected one solution, got {:?}", other),
    }
}

#[test]
fn a_piece_that_lies_turned_in_the_pool_is_tried_as_it_lies_first() {
    let mut domino = Piece::new(2, 1, 2, Color::Black2);
    domino.rotate();
    let mut state = GameState::new(vec![domino]);
    state.board = grid_with_gap(&[(7, 0), (7, 1)]);
    match Solver::new(2).solve(&state) {
        SolveResult::UniqueSolution(solution) => {
            assert_eq!(
                solution.placements,
                vec![Placement { piece_id: 2, row: 7, col: 0, rotated: true }]
            );
        }
        other => panic!("expected one solution, got {:?}", other),
    }
    state.board = grid_with_gap(&[(6, 0), (7, 0)]);
    match Solver::new(2).solve(&state) {
        SolveResult::UniqueSolution(solution) => {
            assert_eq!(
                solution.placements,
                vec![Placement { piece_id: 2, row: 6, col: 0, rotated: false }]
            );
        }
        other => panic!("expected one solution, got {:?}", other),
    }
}

#[test]
fn the_search_leaves_the_state_as_it_was() {
    let mut pieces = get_standard_pieces();
    pieces.drain(0..3);
    let mut board = Board::new();
    let catalog = get_standard_pieces();
    board.place(&catalog[0], 0, 0);
    board.place(&catalog[1], 0, 1);
    board.place(&catalog[2], 0, 3);
    let mut state = GameState::new(pieces.clone());
    state.board = board.clone();
    let first = Solver::new(2).solve(&state);
    assert_eq!(state.board, board);
    assert_eq!(state.pieces, pieces);
    let second = Solver::new(2).solve(&state);
    match (first, second) {
        (SolveResult::NoSolution, SolveResult::NoSolution) => {}
        (SolveResult::UniqueSolution(a), SolveResult::UniqueSolution(b)) => {
            assert_eq!(a.board, b.board);
            assert_eq!(a.placements, b.placements);
            assert!(a.board.is_full());
        }
        (SolveResult::MultipleSolutions(a), SolveResult::MultipleSolutions(b)) => {
            assert_eq!(a.len(), 2);
            assert_eq!(b.len(), 2);
            for (x, y) in a.iter().zip(b.iter()) {
                assert_eq!(x.board, y.board);
                assert_eq!(x.placements, y.placements);
                assert!(x.board.is_full());
                assert_eq!(x.placements.len(), 8);
            }
        }
        _ => panic!("two searches of one state differ"),
    }
}

#[test]
fn every_solution_of_the_full_catalog_puts_each_piece_once() {
    let state = GameState::new(get_standard_pieces());
    let solutions = match Solver::new(1).solve(&state) {
        SolveResult::NoSolution => panic!("the catalog covers the empty grid"),
        SolveResult::UniqueSolution(solution) => vec![solution],
        SolveResult::MultipleSolutions(solutions) => solutions,
    };
    assert_eq!(solutions.len(), 1);
    for solution in &solutions {
        assert!(solution.board.is_full());
        assert_eq!(solution.placements.len(), 11);
        let mut ids: Vec<u8> = solution.placements.iter().map(|p| p.piece_id).collect();
        ids.sort();
        assert_eq!(ids, (1..=11).collect::<Vec<u8>>());
        assert_eq!(solution.placements[0].piece_id, 1);
        assert_eq!((solution.placements[0].row, solution.placements[0].col), (0, 0));
        for placement in &solution.placements {
            assert_eq!(solution.board.get(placement.row, placement.col), placement.piece_id as i8);
        }
    }
}

#[test]
fn the_first_solution_of_the_catalog_in_order() {
    let state = GameState::new(get_standard_pieces());
    let solution = match Solver::new(1).solve(&state) {
        SolveResult::UniqueSolution(solution) => solution,
        other => panic!("expected one solution, got {:?}", other),
    };
    let expected_trail = vec![
        Placement { piece_id: 1, row: 0, col: 0, rotated: false },
        Placement { piece_id: 2, row: 0, col: 1, rotated: false },
        Placement { piece_id: 3, row: 0, col: 2, rotated: false },
        Placement { piece_id: 7, row: 0, col: 3, rotated: false },
        Placement { piece_id: 10, row: 0, col: 5, rotated: false },
        Placement { piece_id: 5, row: 1, col: 0, rotated: false },
        Placement { piece_id: 4, row: 2, col: 1, rotated: false },
        Placement { piece_id: 8, row: 3, col: 2, rotated: true },
        Placement { piece_id: 9, row: 3, col: 6, rotated: false },
        Placement { piece_id: 11, row: 5, col: 2, rotated: true },
        Placement { piece_id: 6, row: 6, col: 0, rotated: false },
    ];
    assert_eq!(solution.placements, expected_trail);
    let expected_cells: [i8; 64] = [
        1, 2, 3, 7, 7, 10, 10, 10, //
        5, 2, 3, 7, 7, 10, 10, 10, //
        5, 4, 3, 7, 7, 10, 10, 10, //
        5, 4, 8, 8, 8, 8, 9, 9, //
        5, 4, 8, 8, 8, 8, 9, 9, //
        5, 4, 11, 11, 11, 11, 9, 9, //
        6, 6, 11, 11, 11, 11, 9, 9, //
        6, 6, 11, 11, 11, 11, 9, 9,
    ];
    assert_eq!(solution.board.to_array(), expected_cells);
}

#[test]
fn two_solutions_never_share_a_grid() {
    let mut pieces = get_standard_pieces();
    pieces.drain(0..3);
    let mut board = Board::new();
    for (row, col) in [(0, 0), (0, 1), (0, 2), (0, 3), (0, 4), (0, 5)] {
        board.set(row, col, -1);
    }
    let mut state = GameState::new(pieces);
    state.board = board;
    if let SolveResult::MultipleSolutions(solutions) = Solver::new(6).solve(&state) {
        for a in 0..solutions.len() {
            for b in a + 1..solutions.len() {
                assert_ne!(solutions[a].board, solutions[b].board);
                assert_ne!(solutions[a].placements, solutions[b].placements);
            }
        }
    }
}

#[test]
fn copies_of_results_hold_the_same_solutions() {
    let mut state = GameState::new(get_standard_pieces()[..3].to_vec());
    let mut cells = [-1i8; 64];
    cells[0] = 0;
    cells[8] = 0;
    cells[16] = 0;
    state.board = Board::from_array(cells);
    let copy = state.clone();
    assert_eq!(copy.board, state.board);
    assert_eq!(copy.pieces, state.pieces);
    assert_eq!(copy.used_pieces, state.used_pieces);
    assert_eq!(copy.obstacle_positions, state.obstacle_positions);
    let result = Solver::new(5).solve(&state);
    let again = result.clone();
    match (result, again) {
        (SolveResult::MultipleSolutions(a), SolveResult::MultipleSolutions(b)) => {
            assert_eq!(a.len(), 3);
            assert_eq!(b.len(), 3);
            for (x, y) in a.iter().zip(b.iter()) {
                assert_eq!(x.board, y.board);
                assert_eq!(x.placements, y.placements);
                let z = x.clone();
                assert_eq!(z.board, x.board);
                assert_eq!(z.placements, x.placements);
            }
        }
        _ => panic!("expected three solutions twice"),
    }
    assert!(matches!(SolveResult::NoSolution.clone(), SolveResult::NoSolution));
}
