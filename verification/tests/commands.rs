use logic_core::commands::{
    board_of, check_placement, get_pieces, new_level, obstacle_ids_of, parse_difficulty, respond,
    solve_level, validate_custom_obstacles,
};
use logic_core::piece::get_standard_pieces;
use logic_core::{Board, Difficulty, GameState, Solution, SolveResult};

#[test]
fn labels_name_difficulties() {
    assert_eq!(parse_difficulty(&"easy".to_string()), Some(Difficulty::Easy));
    assert_eq!(parse_difficulty(&"medium".to_string()), Some(Difficulty::Medium));
    assert_eq!(parse_difficulty(&"hard".to_string()), Some(Difficulty::Hard));
    assert_eq!(parse_difficulty(&"Easy".to_string()), None);
    assert_eq!(parse_difficulty(&"".to_string()), None);
}

#[test]
fn new_level_rejects_an_unknown_label() {
    assert_eq!(new_level("extreme".to_string()).unwrap_err(), "Invalid difficulty");
}

#[test]
fn new_level_gives_a_level_or_says_that_it_failed() {
    match new_level("hard".to_string()) {
        Ok(state) => {
            assert_eq!(state.pieces.len(), 8);
            assert_eq!(state.obstacle_positions.len(), 3);
            assert_eq!(state.board.count_empty(), 58);
        }
        Err(message) => assert_eq!(message, "Failed to generate level"),
    }
}

#[test]
fn check_placement_rejects_a_grid_of_the_wrong_size() {
    assert_eq!(check_placement(vec![0; 63], 1, 0, 0, false).unwrap_err(), "Invalid board size");
    assert_eq!(check_placement(vec![0; 65], 1, 0, 0, false).unwrap_err(), "Invalid board size");
    assert_eq!(check_placement(Vec::new(), 99, 0, 0, false).unwrap_err(), "Invalid board size");
}

#[test]
fn check_placement_rejects_an_unknown_piece() {
    assert_eq!(check_placement(vec![0; 64], 0, 0, 0, false).unwrap_err(), "Invalid piece ID");
    assert_eq!(check_placement(vec![0; 64], 12, 0, 0, true).unwrap_err(), "Invalid piece ID");
}

#[test]
fn check_placement_answers_for_both_orientations() {
    let mut cells = vec![0i8; 64];
    cells[4] = -1;
    assert_eq!(check_placement(cells.clone(), 5, 0, 0, false), Ok(true));
    assert_eq!(check_placement(cells.clone(), 5, 0, 0, true), Ok(false));
    assert_eq!(check_placement(cells.clone(), 5, 1, 0, true), Ok(true));
    assert_eq!(check_placement(cells.clone(), 5, 4, 0, false), Ok(false));
    assert_eq!(check_placement(cells.clone(), 5, 3, 7, false), Ok(true));
    assert_eq!(check_placement(cells.clone(), 5, 0, 4, false), Ok(false));
    assert_eq!(check_placement(cells, 1, 8, 8, false), Ok(false));
}

#[test]
fn get_pieces_gives_the_catalog() {
    assert_eq!(get_pieces(), get_standard_pieces());
}

#[test]
fn solve_level_reports_no_solution() {
    let response = solve_level(GameState::new(Vec::new())).unwrap();
    assert!(response.no_solution);
    assert!(response.unique_solution.is_none());
    assert!(response.multiple_solutions.is_none());
}

#[test]
fn solve_level_reports_the_first_solution() {
    let mut state = GameState::new(get_standard_pieces()[..3].to_vec());
    let mut cells = [-1i8; 64];
    cells[0] = 0;
    cells[8] = 0;
    cells[16] = 0;
    state.board = Board::from_array(cells);
    let response = solve_level(state).unwrap();
    assert!(!response.no_solution);
    assert!(response.multiple_solutions.is_none());
    let solution = response.unique_solution.unwrap();
    assert_eq!(solution.placements.len(), 2);
    assert_eq!(solution.placements[0].piece_id, 1);
    assert_eq!(solution.placements[1].piece_id, 2);
    assert!(solution.board.is_full());
}

#[test]
fn respond_moves_each_result_to_its_field() {
    let none = respond(SolveResult::NoSolution);
    assert!(none.no_solution && none.unique_solution.is_none() && none.multiple_solutions.is_none());
    let solution = Solution { board: Board::from_array([1i8; 64]), placements: Vec::new() };
    let one = respond(SolveResult::UniqueSolution(solution.clone()));
    assert!(!one.no_solution && one.multiple_solutions.is_none());
    assert_eq!(one.unique_solution.unwrap().board, solution.board);
    let many = respond(SolveResult::MultipleSolutions(vec![solution.clone(), solution]));
    assert!(!many.no_solution && many.unique_solution.is_none());
    assert_eq!(many.multiple_solutions.unwrap().len(), 2);
}

#[test]
fn validate_rejects_a_grid_of_the_wrong_size() {
    assert_eq!(validate_custom_obstacles(vec![0; 10]).unwrap_err(), "Invalid board size");
    assert_eq!(validate_custom_obstacles(vec![0; 100]).unwrap_err(), "Invalid board size");
}

#[test]
fn obstacle_ids_are_read_from_the_negative_cells() {
    let mut cells = vec![0i8; 64];
    cells[5] = -3;
    cells[6] = -3;
    cells[7] = -3;
    cells[20] = -1;
    cells[30] = -4;
    cells[31] = 2;
    let board = board_of(&cells);
    assert_eq!(board.to_array().to_vec(), cells);
    assert_eq!(obstacle_ids_of(&board), vec![3, 1]);
    assert_eq!(obstacle_ids_of(&Board::new()), Vec::<u8>::new());
}

#[test]
fn validate_judges_a_grid_with_no_solution() {
    let mut cells = vec![0i8; 64];
    for index in 0..64 {
        if index != 0 && index != 27 && index != 63 {
            cells[index] = -1;
        }
    }
    let verdict = validate_custom_obstacles(cells).unwrap();
    assert!(verdict.no_solution);
    assert!(!verdict.has_unique_solution);
    assert!(!verdict.multiple_solutions);
}

#[test]
fn validate_judges_a_grid_with_the_three_obstacles_marked() {
    let mut cells = vec![0i8; 64];
    cells[0] = -1;
    cells[1] = -2;
    cells[2] = -2;
    cells[3] = -3;
    cells[4] = -3;
    cells[5] = -3;
    let verdict = validate_custom_obstacles(cells).unwrap();
    let set = [verdict.no_solution, verdict.has_unique_solution, verdict.multiple_solutions];
    assert_eq!(set.iter().filter(|&&flag| flag).count(), 1);
}

#[test]
fn validate_offers_the_pieces_that_the_grid_does_not_mark() {
    let mut cells = vec![-4i8; 64];
    cells[10] = 0;
    let verdict = validate_custom_obstacles(cells.clone()).unwrap();
    assert!(verdict.has_unique_solution);
    assert!(!verdict.no_solution && !verdict.multiple_solutions);
    cells[0] = -1;
    let verdict = validate_custom_obstacles(cells.clone()).unwrap();
    assert!(verdict.no_solution);
    assert!(!verdict.has_unique_solution && !verdict.multiple_solutions);
    cells[0] = -4;
    cells[11] = 0;
    let verdict = validate_custom_obstacles(cells.clone()).unwrap();
    assert!(verdict.has_unique_solution);
    cells[63] = -2;
    let verdict = validate_custom_obstacles(cells.clone()).unwrap();
    assert!(verdict.no_solution);
    cells[63] = -4;
    cells[12] = 0;
    let verdict = validate_custom_obstacles(cells).unwrap();
    assert!(verdict.multiple_solutions);
    assert!(!verdict.has_unique_solution && !verdict.no_solution);
}
