use logic_core::generator::{contains_id, pieces_not_among, place_obstacle};
use logic_core::piece::get_standard_pieces;
use logic_core::{Board, Difficulty, GameState, Generator, Placement, Solution, SolveResult, Solver};

#[test]
fn test_generate_complete_solution() {
    let generator = Generator::new();

    for _ in 0..3 {
        let solution = generator.generate_complete_solution();
        assert!(solution.is_some());

        if let Some(sol) = solution {
            assert!(sol.board.is_full());
            assert_eq!(sol.placements.len(), 11);
        }
    }
}

#[test]
fn test_generate_from_solution_easy() {
    let generator = Generator::new();
    let state = generator.generate_from_solution(Difficulty::Easy);

    if let Some(s) = state {
        assert_eq!(s.pieces.len(), 8);

        let obstacle_count = s.board.cells().iter().filter(|&&c| c == -1).count();
        assert!(obstacle_count > 0);
    }
}

#[test]
fn test_generate_from_obstacles() {
    let generator = Generator::new();

    for difficulty in [Difficulty::Easy, Difficulty::Medium, Difficulty::Hard] {
        let state = generator.generate_from_obstacles(difficulty);

        if let Some(s) = state {
            assert_eq!(s.pieces.len(), 8);
            let obstacle_count = s.board.cells().iter().filter(|&&c| c == -1).count();
            assert!(obstacle_count > 0);
        }
    }
}

fn assert_level(state: &GameState) {
    assert_eq!(state.pieces.len(), 8);
    assert_eq!(state.pieces, get_standard_pieces()[3..].to_vec());
    assert_eq!(state.used_pieces, vec![false; 8]);
    assert_eq!(state.obstacle_positions.len(), 3);
    let mut ids: Vec<u8> = state.obstacle_positions.iter().map(|p| p.2).collect();
    ids.sort();
    assert_eq!(ids, vec![1, 2, 3]);
    for &(row, col, _) in &state.obstacle_positions {
        assert!(row < 8 && col < 8);
        assert_eq!(state.board.get(row, col), -1);
    }
    assert!(state.board.cells().iter().all(|&c| c == 0 || c == -1));
    assert_eq!(state.board.count_empty(), 58);
    match Solver::new(2).solve(state) {
        SolveResult::UniqueSolution(solution) => {
            assert!(solution.board.is_full());
            assert_eq!(solution.placements.len(), 8);
        }
        other => panic!("a level has one solution, got {:?}", other),
    }
}

#[test]
fn a_generated_level_has_eight_pieces_three_obstacles_and_one_solution() {
    let generator = Generator::new();
    if let Some(state) = generator.generate(Difficulty::Medium) {
        assert_level(&state);
    }
}

#[test]
fn a_level_from_a_solution_is_a_level() {
    let generator = Generator::default();
    if let Some(state) = generator.generate_from_solution(Difficulty::Hard) {
        assert_level(&state);
    }
}

#[test]
fn a_level_from_obstacles_is_a_level() {
    let generator = Generator::new();
    if let Some(state) = generator.generate_from_obstacles(Difficulty::Easy) {
        assert_level(&state);
    }
}

#[test]
fn the_difficulty_is_a_label_only() {
    for difficulty in [Difficulty::Easy, Difficulty::Medium, Difficulty::Hard] {
        assert_eq!(difficulty.get_obstacle_piece_ids(), vec![1, 2, 3]);
    }
}

#[test]
fn complete_solutions_differ_from_run_to_run() {
    let generator = Generator::new();
    let mut first_pieces = Vec::new();
    let mut turned = 0;
    for _ in 0..12 {
        let solution = generator.generate_complete_solution().unwrap();
        assert_eq!((solution.placements[0].row, solution.placements[0].col), (0, 0));
        first_pieces.push(solution.placements[0].piece_id);
        turned += solution.placements.iter().filter(|p| p.rotated).count();
        let mut ids: Vec<u8> = solution.placements.iter().map(|p| p.piece_id).collect();
        ids.sort();
        assert_eq!(ids, (1..=11).collect::<Vec<u8>>());
    }
    assert!(first_pieces.iter().any(|&id| id != 1));
    assert!(first_pieces.iter().any(|&id| id != first_pieces[0]));
    assert!(turned > 0);
}

#[test]
fn complete_solution_from_takes_the_pieces_in_the_given_order() {
    let mut pieces = get_standard_pieces();
    pieces.reverse();
    let solution = Generator::complete_solution_from(pieces).unwrap();
    assert!(solution.board.is_full());
    assert_eq!(solution.placements.len(), 11);
    assert_eq!(
        solution.placements[0],
        Placement { piece_id: 11, row: 0, col: 0, rotated: false }
    );
    assert_eq!(solution.board.get(3, 2), 11);
    assert!(Generator::complete_solution_from(Vec::new()).is_none());
    let mut small = get_standard_pieces();
    small.truncate(10);
    assert!(Generator::complete_solution_from(small).is_none());
}

fn sample_solution() -> Solution {
    Generator::complete_solution_from(get_standard_pieces()).unwrap()
}

#[test]
fn candidate_ids_are_the_small_pieces_in_trail_order() {
    let solution = sample_solution();
    let expected: Vec<u8> = solution
        .placements
        .iter()
        .map(|p| p.piece_id)
        .filter(|id| *id <= 3)
        .collect();
    assert_eq!(expected.len(), 3);
    assert_eq!(Generator::candidate_ids(&solution, Difficulty::Easy), expected);
}

#[test]
fn selected_obstacles_are_the_three_small_pieces_in_any_order() {
    let generator = Generator::new();
    let solution = sample_solution();
    let mut orders = Vec::new();
    for _ in 0..40 {
        let ids = generator.select_obstacle_pieces(&solution, Difficulty::Easy);
        let mut sorted = ids.clone();
        sorted.sort();
        assert_eq!(sorted, vec![1, 2, 3]);
        if !orders.contains(&ids) {
            orders.push(ids);
        }
    }
    assert!(orders.len() > 1);
}

#[test]
fn create_state_keeps_the_chosen_pieces_as_obstacles() {
    let generator = Generator::new();
    let solution = sample_solution();
    let state = generator.create_state_from_solution(&solution, &vec![3, 1]);
    let ids: Vec<u8> = state.pieces.iter().map(|p| p.id).collect();
    assert_eq!(ids, vec![2, 4, 5, 6, 7, 8, 9, 10, 11]);
    assert_eq!(state.used_pieces, vec![false; 9]);
    let expected: Vec<(usize, usize, u8)> = solution
        .placements
        .iter()
        .filter(|p| p.piece_id == 1 || p.piece_id == 3)
        .map(|p| (p.row, p.col, p.piece_id))
        .collect();
    assert_eq!(state.obstacle_positions, expected);
    assert_eq!(state.obstacle_positions.len(), 2);
    for index in 0..64 {
        let there = solution.board.get(index / 8, index % 8);
        let here = state.board.get(index / 8, index % 8);
        if there == 1 || there == 3 {
            assert_eq!(here, -1);
        } else {
            assert_eq!(here, 0);
        }
    }
    assert_eq!(state.board.count_empty(), 60);
    let none = generator.create_state_from_solution(&solution, &Vec::new());
    assert_eq!(none.board.count_empty(), 64);
    assert_eq!(none.pieces, get_standard_pieces());
    assert!(none.obstacle_positions.is_empty());
}

#[test]
fn random_obstacles_land_inside_the_grid() {
    let generator = Generator::new();
    let mut found = 0;
    let mut corners = Vec::new();
    for _ in 0..50 {
        if let Some((board, positions)) = generator.random_place_obstacles(&vec![2, 3, 1]) {
            found += 1;
            assert_eq!(positions.len(), 3);
            assert_eq!(positions.iter().map(|p| p.2).collect::<Vec<u8>>(), vec![2, 3, 1]);
            for &(row, col, _) in &positions {
                assert!(row < 8 && col < 8);
                assert_eq!(board.get(row, col), -1);
            }
            assert_eq!(board.count_empty(), 58);
            assert!(board.cells().iter().all(|&c| c == 0 || c == -1));
            if !corners.contains(&(positions[0].0, positions[0].1)) {
                corners.push((positions[0].0, positions[0].1));
            }
        }
    }
    assert!(found > 0);
    assert!(corners.len() > 1);
    let (board, positions) = generator.random_place_obstacles(&Vec::new()).unwrap();
    assert_eq!(board.count_empty(), 64);
    assert!(positions.is_empty());
}

#[test]
fn place_obstacle_marks_the_rectangle_or_leaves_the_grid() {
    let mut board = Board::new();
    let pieces = get_standard_pieces();
    assert!(place_obstacle(&mut board, &pieces[2], 1, 1));
    let mut expected = [0i8; 64];
    expected[9] = -1;
    expected[17] = -1;
    expected[25] = -1;
    assert_eq!(board.to_array(), expected);
    assert!(!place_obstacle(&mut board, &pieces[1], 2, 1));
    assert!(!place_obstacle(&mut board, &pieces[1], 7, 0));
    assert_eq!(board.to_array(), expected);
    assert!(place_obstacle(&mut board, &pieces[0], 7, 7));
    expected[63] = -1;
    assert_eq!(board.to_array(), expected);
}

#[test]
fn validate_unique_solution_follows_the_search() {
    let generator = Generator::new();
    let mut one = GameState::new(vec![get_standard_pieces()[1]]);
    let mut cells = [-1i8; 64];
    cells[0] = 0;
    cells[8] = 0;
    one.board = Board::from_array(cells);
    assert!(generator.validate_unique_solution(&one));
    let mut two = GameState::new(get_standard_pieces()[..2].to_vec());
    cells[16] = 0;
    two.board = Board::from_array(cells);
    assert!(!generator.validate_unique_solution(&two));
    let empty = GameState::new(Vec::new());
    assert!(!generator.validate_unique_solution(&empty));
}

#[test]
fn helpers_filter_by_identity() {
    assert!(contains_id(&vec![4, 9], 9));
    assert!(!contains_id(&vec![4, 9], 1));
    assert!(!contains_id(&Vec::new(), 0));
    let kept = pieces_not_among(&get_standard_pieces(), &vec![11, 1, 5, 5]);
    assert_eq!(kept.iter().map(|p| p.id).collect::<Vec<u8>>(), vec![2, 3, 4, 6, 7, 8, 9, 10]);
}

#[test]
fn random_obstacles_lie_in_both_orientations() {
    let generator = Generator::new();
    let mut across = 0;
    let mut down = 0;
    for _ in 0..80 {
        if let Some((board, positions)) = generator.random_place_obstacles(&vec![3]) {
            let (row, col, id) = positions[0];
            assert_eq!(id, 3);
            assert_eq!(board.count_empty(), 61);
            if col + 1 < 8 && board.get(row, col + 1) == -1 {
                across += 1;
                assert_eq!(board.get(row, col + 2), -1);
            } else {
                down += 1;
                assert_eq!(board.get(row + 1, col), -1);
                assert_eq!(board.get(row + 2, col), -1);
            }
        }
    }
    assert!(across > 0);
    assert!(down > 0);
}

#[test]
fn the_piece_of_one_cell_alone_always_finds_a_cell() {
    let generator = Generator::new();
    for _ in 0..200 {
        let (board, positions) = generator.random_place_obstacles(&vec![1]).unwrap();
        assert_eq!(positions.len(), 1);
        let (row, col, id) = positions[0];
        assert_eq!(id, 1);
        assert_eq!(board.get(row, col), -1);
        assert_eq!(board.count_empty(), 63);
    }
    for _ in 0..20 {
        assert!(generator.random_place_obstacles(&Vec::new()).is_some());
    }
}

#[test]
fn level_from_obstacles_keeps_a_grid_with_one_solution() {
    let generator = Generator::new();
    let all_but_the_largest: Vec<u8> = (1..=10).collect();
    let mut cells = [-1i8; 64];
    for row in 0..4 {
        for col in 0..3 {
            cells[row * 8 + col] = 0;
        }
    }
    let records = vec![(0, 3, 1), (4, 0, 2)];
    let state = generator
        .level_from_obstacles(&all_but_the_largest, Board::from_array(cells), records.clone())
        .unwrap();
    assert_eq!(state.board.to_array(), cells);
    assert_eq!(state.pieces, vec![get_standard_pieces()[10]]);
    assert_eq!(state.used_pieces, vec![false]);
    assert_eq!(state.obstacle_positions, records);
}

#[test]
fn level_from_obstacles_drops_a_grid_with_no_solution_or_with_two() {
    let generator = Generator::new();
    let all_but_the_largest: Vec<u8> = (1..=10).collect();
    assert!(generator
        .level_from_obstacles(&all_but_the_largest, Board::new(), Vec::new())
        .is_none());
    let all_but_the_two_smallest: Vec<u8> = (3..=11).collect();
    let mut cells = [-1i8; 64];
    cells[0] = 0;
    cells[8] = 0;
    cells[16] = 0;
    assert!(generator
        .level_from_obstacles(&all_but_the_two_smallest, Board::from_array(cells), Vec::new())
        .is_none());
    cells[16] = -1;
    let state = generator
        .level_from_obstacles(&all_but_the_two_smallest, Board::from_array(cells), Vec::new())
        .unwrap();
    assert_eq!(state.pieces, get_standard_pieces()[..2].to_vec());
}

#[test]
fn level_from_solution_asks_for_three_obstacles_and_one_solution() {
    let generator = Generator::new();
    let solution = sample_solution();
    assert!(generator.level_from_solution(&solution, &Vec::new()).is_none());
    assert!(generator.level_from_solution(&solution, &vec![1, 2]).is_none());
    assert!(generator.level_from_solution(&solution, &vec![1, 2, 3, 4]).is_none());
    for ids in [vec![1u8, 2, 3], vec![3, 1, 2], vec![4, 5, 6], vec![9, 10, 11]] {
        let state = generator.create_state_from_solution(&solution, &ids);
        let unique = generator.validate_unique_solution(&state);
        match generator.level_from_solution(&solution, &ids) {
            Some(level) => {
                assert!(unique);
                assert_eq!(level.board, state.board);
                assert_eq!(level.pieces, state.pieces);
                assert_eq!(level.used_pieces, state.used_pieces);
                assert_eq!(level.obstacle_positions, state.obstacle_positions);
                assert_eq!(level.pieces.len(), 8);
                assert_eq!(level.obstacle_positions.len(), 3);
            }
            None => assert!(!unique),
        }
    }
    let all_but_the_largest: Vec<u8> = (1..=10).collect();
    assert!(generator.level_from_solution(&solution, &all_but_the_largest).is_none());
}
