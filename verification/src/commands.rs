//! The operations that a front end calls: generate a level, solve a state,
//! check one placement, and judge a grid whose obstacles were set by hand.
//! Each takes and gives plain values; malformed input comes back as a
//! message.

use vstd::prelude::*;
use crate::board::{Board, placeable};
use crate::generator::{Generator, contains_id, pieces_not_among};
use crate::level::{is_level, pieces_without};
use crate::piece::{catalog, get_piece_by_id, get_standard_pieces, oriented};
use crate::solver::{Solver, lemma_unused_all, search, unused};
use crate::types::{Difficulty, GameState, Piece, Solution, SolveResult, Tiling, tilings_of};

verus! {

/// The answer to a request to solve: which of the three outcomes holds, and
/// the solutions found.
#[derive(Debug)]
pub struct SolveResponse {
    pub no_solution: bool,
    pub unique_solution: Option<Solution>,
    pub multiple_solutions: Option<Vec<Solution>>,
}

/// The answer to a request to judge a grid: which of the three outcomes holds.
#[derive(Debug)]
pub struct ValidationResult {
    pub has_unique_solution: bool,
    pub no_solution: bool,
    pub multiple_solutions: bool,
}

/// The difficulty that a label names, if it names one.
pub open spec fn difficulty_named(label: Seq<char>) -> Option<Difficulty> {
    if label == "easy"@ {
        Some(Difficulty::Easy)
    } else if label == "medium"@ {
        Some(Difficulty::Medium)
    } else if label == "hard"@ {
        Some(Difficulty::Hard)
    } else {
        None
    }
}

/// Whether `response` reports the solutions `found`.
pub open spec fn reports(response: SolveResponse, found: Seq<Tiling>) -> bool {
    &&& response.no_solution == (found.len() == 0)
    &&& response.unique_solution is Some <==> found.len() == 1
    &&& response.unique_solution matches Some(solution) ==> seq![solution@] == found
    &&& response.multiple_solutions is Some <==> found.len() >= 2
    &&& response.multiple_solutions matches Some(solutions) ==> tilings_of(solutions@) == found
}

/// Whether `verdict` judges a puzzle for which the search with cap 2 finds
/// the solutions `found`.
pub open spec fn judges(verdict: ValidationResult, found: Seq<Tiling>) -> bool {
    &&& verdict.no_solution == (found.len() == 0)
    &&& verdict.has_unique_solution == (found.len() == 1)
    &&& verdict.multiple_solutions == (found.len() >= 2)
}

/// Whether a cell of the grid marks the obstacle piece `id`: the cell holds
/// the negative of an identity from 1 to 3.
pub open spec fn is_marked(cells: Seq<i8>, id: u8) -> bool {
    &&& 1 <= id <= 3
    &&& exists|i: int| 0 <= i < cells.len() && #[trigger] cells[i] == -(id as int)
}

/// The identities of the obstacle pieces that the grid marks.
pub open spec fn marked_ids(cells: Seq<i8>) -> Set<u8> {
    Set::new(|id: u8| is_marked(cells, id))
}

/// The difficulty that `label` names: "easy", "medium" or "hard".
pub fn parse_difficulty(label: &String) -> (difficulty: Option<Difficulty>)
    ensures
        difficulty == difficulty_named(label@),
{
    if *label == "easy".to_owned() {
        Some(Difficulty::Easy)
    } else if *label == "medium".to_owned() {
        Some(Difficulty::Medium)
    } else if *label == "hard".to_owned() {
        Some(Difficulty::Hard)
    } else {
        None
    }
}

/// The grid with the given 64 cells in row-major order.
pub fn board_of(board_cells: &Vec<i8>) -> (board: Board)
    requires
        board_cells@.len() == 64,
    ensures
        board@ == board_cells@,
{
    let mut cells: [i8; 64] = [0i8;64];
    let mut i: usize = 0;
    while i < 64
        invariant
            i <= 64,
            board_cells@.len() == 64,
            forall|j: int| 0 <= j < i ==> cells@[j] == board_cells@[j],
        decreases 64 - i,
    {
        cells[i] = board_cells[i];
        i += 1;
    }
    assert(cells@ =~= board_cells@);
    Board::from_array(cells)
}

/// The response that reports `result`.
pub fn respond(result: SolveResult) -> (response: SolveResponse)
    ensures
        response.no_solution == (result is NoSolution),
        response.unique_solution == match result {
            SolveResult::UniqueSolution(solution) => Some(solution),
            _ => None,
        },
        response.multiple_solutions == match result {
            SolveResult::MultipleSolutions(solutions) => Some(solutions),
            _ => None,
        },
{
    match result {
        SolveResult::NoSolution => SolveResponse {
            no_solution: true,
            unique_solution: None,
            multiple_solutions: None,
        },
        SolveResult::UniqueSolution(solution) => SolveResponse {
            no_solution: false,
            unique_solution: Some(solution),
            multiple_solutions: None,
        },
        SolveResult::MultipleSolutions(solutions) => {
            SolveResponse {
                no_solution: false,
                unique_solution: None,
                multiple_solutions: Some(solutions),
            }
        },
    }
}

/// Generates a level for the difficulty that `difficulty` names. An unknown
/// label and a generation that found no level each come back as a message.
pub fn new_level(difficulty: String) -> (outcome: Result<GameState, String>)
    ensures
        difficulty_named(difficulty@) is None ==> (outcome matches Err(message) && message@
            == "Invalid difficulty"@),
        difficulty_named(difficulty@) is Some ==> match outcome {
            Ok(state) => is_level(state),
            Err(message) => message@ == "Failed to generate level"@,
        },
{
    let label = match parse_difficulty(&difficulty) {
        Some(label) => label,
        None => {
            return Err("Invalid difficulty".to_owned());
        },
    };
    let generator = Generator::new();
    match generator.generate(label) {
        Some(state) => Ok(state),
        None => Err("Failed to generate level".to_owned()),
    }
}

/// Searches for one solution of `state` and reports what it found.
pub fn solve_level(state: GameState) -> (outcome: Result<SolveResponse, String>)
    requires
        state.pieces@.len() <= state.used_pieces@.len(),
    ensures
        outcome matches Ok(response) && reports(
            response,
            search(state.board@, unused(state.pieces@, state.used_pieces@), 1),
        ),
{
    let solver = Solver::new(1);
    let result = solver.solve(&state);
    Ok(respond(result))
}

/// Whether the piece `piece_id`, turned where `rotated` is set, can be put
/// at (`row`, `col`) on the grid with the given cells. A grid that does not
/// have 64 cells and an identity outside the catalog each come back as a
/// message.
pub fn check_placement(
    board_cells: Vec<i8>,
    piece_id: u8,
    row: usize,
    col: usize,
    rotated: bool,
) -> (outcome: Result<bool, String>)
    ensures
        board_cells@.len() != 64 ==> (outcome matches Err(message) && message@
            == "Invalid board size"@),
        board_cells@.len() == 64 && !(1 <= piece_id <= 11) ==> (outcome matches Err(message)
            && message@ == "Invalid piece ID"@),
        board_cells@.len() == 64 && 1 <= piece_id <= 11 ==> outcome == Ok::<bool, String>(
            placeable(board_cells@, oriented(piece_id, rotated), row as int, col as int),
        ),
{
    if board_cells.len() != 64 {
        return Err("Invalid board size".to_owned());
    }
    let board = board_of(&board_cells);
    let mut piece = match get_piece_by_id(piece_id) {
        Some(piece) => piece,
        None => {
            return Err("Invalid piece ID".to_owned());
        },
    };
    if rotated {
        piece.rotate();
    }
    Ok(board.can_place(&piece, row, col))
}

/// The eleven pieces of the catalog.
pub fn get_pieces() -> (pieces: Vec<Piece>)
    ensures
        pieces@ == catalog(),
{
    get_standard_pieces()
}

/// The identities of the obstacle pieces that the grid marks, each once, in
/// the order in which the cells name them first.
pub fn obstacle_ids_of(board: &Board) -> (ids: Vec<u8>)
    ensures
        ids@.to_set() == marked_ids(board@),
        ids@.no_duplicates(),
{
    let cells = board.cells();
    let mut ids: Vec<u8> = Vec::new();
    let mut i: usize = 0;
    while i < 64
        invariant
            i <= 64,
            cells@ == board@,
            cells@.len() == 64,
            ids@.no_duplicates(),
            forall|id: u8|
                ids@.contains(id) <==> 1 <= id <= 3 && exists|j: int|
                    0 <= j < i && #[trigger] cells@[j] == -(id as int),
        decreases 64 - i,
    {
        let cell = cells[i];
        let ghost before = ids@;
        if cell < 0 && cell >= -3 {
            let id: u8 = (-cell) as u8;
            if !contains_id(&ids, id) {
                ids.push(id);
                assert(ids@[before.len() as int] == id);
            }
        }
        proof {
            assert forall|id: u8|
                ids@.contains(id) <==> 1 <= id <= 3 && exists|j: int|
                    0 <= j < i + 1 && #[trigger] cells@[j] == -(id as int) by {
                if ids@.contains(id) {
                    let at = choose|at: int| 0 <= at < ids@.len() && ids@[at] == id;
                    if at < before.len() {
                        assert(before[at] == id);
                        assert(before.contains(id));
                    } else {
                        assert(cells@[i as int] == -(id as int));
                    }
                }
                if 1 <= id <= 3 && exists|j: int|
                    0 <= j < i + 1 && #[trigger] cells@[j] == -(id as int) {
                    let j = choose|j: int| 0 <= j < i + 1 && #[trigger] cells@[j] == -(id as int);
                    if j < i {
                        assert(before.contains(id));
                        let at = choose|at: int| 0 <= at < before.len() && before[at] == id;
                        assert(ids@[at] == id);
                    } else {
                        if before.contains(id) {
                            let at = choose|at: int| 0 <= at < before.len() && before[at] == id;
                            assert(ids@[at] == id);
                        }
                    }
                }
            }
        }
        i += 1;
    }
    assert(ids@.to_set() =~= marked_ids(board@));
    ids
}

/// Judges a grid whose obstacles were set by hand: offers the pieces that
/// the grid does not mark as obstacles and tells whether they cover the rest
/// in no way, in exactly one way, or in more. A grid that does not have 64
/// cells comes back as a message.
pub fn validate_custom_obstacles(board_cells: Vec<i8>) -> (outcome: Result<
    ValidationResult,
    String,
>)
    ensures
        board_cells@.len() != 64 ==> (outcome matches Err(message) && message@
            == "Invalid board size"@),
        board_cells@.len() == 64 ==> (outcome matches Ok(verdict) && judges(
            verdict,
            search(board_cells@, pieces_without(catalog(), marked_ids(board_cells@)), 2),
        )),
{
    if board_cells.len() != 64 {
        return Err("Invalid board size".to_owned());
    }
    let board = board_of(&board_cells);
    let obstacle_ids = obstacle_ids_of(&board);
    let standard = get_standard_pieces();
    let remaining_pieces = pieces_not_among(&standard, &obstacle_ids);
    let used_pieces: Vec<bool> = vec![false; remaining_pieces.len()];
    let state = GameState {
        board,
        pieces: remaining_pieces,
        used_pieces,
        obstacle_positions: Vec::new(),
    };
    proof {
        lemma_unused_all(state.pieces@, state.used_pieces@, state.pieces@.len() as int);
        assert(state.pieces@.take(state.pieces@.len() as int) =~= state.pieces@);
    }
    let solver = Solver::new(2);
    let result = solver.solve(&state);
    Ok(
        match result {
            SolveResult::NoSolution => ValidationResult {
                has_unique_solution: false,
                no_solution: true,
                multiple_solutions: false,
            },
            SolveResult::UniqueSolution(_) => ValidationResult {
                has_unique_solution: true,
                no_solution: false,
                multiple_solutions: false,
            },
            SolveResult::MultipleSolutions(_) => ValidationResult {
                has_unique_solution: false,
                no_solution: false,
                multiple_solutions: true,
            },
        },
    )
}

} // verus!
