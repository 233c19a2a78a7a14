//! The level generator: it puts three small pieces on the grid as obstacles
//! and keeps the result where the other eight pieces cover the rest in
//! exactly one way.

use vstd::prelude::*;
use crate::board::{Board, covers, empty_cells, fits, placeable, with_piece};
use crate::chance::{choose_multiple, is_selection, random_below, random_ratio, shuffle, thread_rng};
use crate::cover::{holds_each_piece, lemma_search_of_catalog};
use crate::level::{
    among,
    blocked_with,
    candidates_in,
    finds_cells_always,
    has_unique_solution,
    holds_obstacles_only,
    identity,
    is_level,
    is_none_of,
    is_obstacle_grid,
    lemma_choice_holds,
    lemma_choice_of_candidates,
    lemma_choice_of_three,
    lemma_filter_next,
    lemma_filter_none,
    lemma_obstacle_cells_next,
    lemma_obstacle_grid_of_trail,
    lemma_obstacle_more,
    lemma_obstacles_of_trail,
    lemma_pieces_in_play,
    lemma_pool_turned,
    lemma_shuffled_catalog,
    marks_obstacle,
    names,
    obstacle_cells,
    obstacle_records,
    obstacles_fit,
    obstacles_put,
    pieces_without,
    puts_one_of,
    record,
};
use crate::piece::{catalog, fresh, get_standard_pieces, lemma_catalog_pieces, oriented};
use crate::solver::{Solver, lemma_unused_all, search};
use crate::tiling::{
    is_catalog_pool,
    is_exact_cover,
    lemma_placed_piece,
    pieces_stand,
    placed_piece,
    stands,
};
use crate::types::{
    Color,
    Difficulty,
    GameState,
    Piece,
    Solution,
    SolveResult,
    obstacle_candidates,
};
use crate::OBSTACLE_COUNT;

verus! {

/// Whether `id` is one of `ids`.
pub fn contains_id(ids: &Vec<u8>, id: u8) -> (found: bool)
    ensures
        found == ids@.contains(id),
{
    let mut i: usize = 0;
    while i < ids.len()
        invariant
            i <= ids@.len(),
            forall|j: int| 0 <= j < i ==> ids@[j] != id,
        decreases ids@.len() - i,
    {
        if ids[i] == id {
            return true;
        }
        i += 1;
    }
    false
}

/// The pieces whose identity is none of `ids`, in order.
pub fn pieces_not_among(pieces: &Vec<Piece>, ids: &Vec<u8>) -> (kept: Vec<Piece>)
    ensures
        kept@ == pieces_without(pieces@, ids@.to_set()),
{
    let mut kept: Vec<Piece> = Vec::new();
    let mut i: usize = 0;
    proof {
        lemma_filter_none(pieces@, is_none_of(ids@.to_set()));
    }
    while i < pieces.len()
        invariant
            i <= pieces@.len(),
            kept@ == pieces@.take(i as int).filter(is_none_of(ids@.to_set())),
        decreases pieces@.len() - i,
    {
        proof {
            lemma_filter_next(pieces@, is_none_of(ids@.to_set()), i as int);
        }
        if !contains_id(ids, pieces[i].id) {
            kept.push(pieces[i]);
        }
        i += 1;
    }
    assert(pieces@.take(pieces@.len() as int) =~= pieces@);
    kept
}

/// Turns every cell of the rectangle of `piece` at (`row`, `col`) into an
/// obstacle.
fn block(board: &mut Board, piece: &Piece, row: usize, col: usize)
    requires
        fits(*piece, row as int, col as int),
    ensures
        final(board)@ == blocked_with(old(board)@, *piece, row as int, col as int),
{
    let row_end: usize = row + piece.height;
    let col_end: usize = col + piece.width;
    proof {
        board.lemma_len();
    }
    let mut r: usize = row;
    while r < row_end
        invariant
            row <= r <= row_end,
            row_end == row + piece.height,
            col_end == col + piece.width,
            row_end <= 8,
            col_end <= 8,
            board@.len() == 64,
            forall|i: int|
                0 <= i < 64 ==> board@[i] == if covers(*piece, row as int, col as int, i) && i / 8
                    < r {
                    -1i8
                } else {
                    old(board)@[i]
                },
        decreases row_end - r,
    {
        let mut c: usize = col;
        while c < col_end
            invariant
                row <= r < row_end,
                col <= c <= col_end,
                row_end == row + piece.height,
                col_end == col + piece.width,
                row_end <= 8,
                col_end <= 8,
                board@.len() == 64,
                forall|i: int|
                    0 <= i < 64 ==> board@[i] == if covers(*piece, row as int, col as int, i) && (i
                        / 8 < r || (i / 8 == r && i % 8 < c)) {
                        -1i8
                    } else {
                        old(board)@[i]
                    },
            decreases col_end - c,
        {
            board.set(r, c, -1);
            c += 1;
        }
        r += 1;
    }
    assert(board@ =~= blocked_with(old(board)@, *piece, row as int, col as int));
}

/// Puts `piece` at (`row`, `col`) as an obstacle where it can be put there,
/// and says whether it did.
pub fn place_obstacle(board: &mut Board, piece: &Piece, row: usize, col: usize) -> (placed: bool)
    ensures
        placed == placeable(old(board)@, *piece, row as int, col as int),
        placed ==> final(board)@ == blocked_with(old(board)@, *piece, row as int, col as int),
        !placed ==> final(board)@ == old(board)@,
{
    if board.can_place(piece, row, col) {
        board.place(piece, row, col);
        block(board, piece, row, col);
        assert(board@ =~= blocked_with(old(board)@, *piece, row as int, col as int));
        true
    } else {
        false
    }
}

/// The generator. It checks each candidate level with a solver that stops
/// after two solutions, and gives up after a fixed number of attempts.
pub struct Generator {
    solver: Solver,
    max_retries: usize,
}

impl Generator {
    #[verifier::type_invariant]
    spec fn well_formed(self) -> bool {
        self.solver.cap() == 2
    }

    /// The number of attempts that each way of generating makes.
    pub closed spec fn retries(&self) -> nat {
        self.max_retries as nat
    }

    /// Creates a generator that makes up to 100 attempts.
    pub fn new() -> (generator: Generator)
        ensures
            generator.retries() == 100,
    {
        Generator { solver: Solver::new(2), max_retries: 100 }
    }

    /// Whether the search finds exactly one solution for `state`.
    pub fn validate_unique_solution(&self, state: &GameState) -> (unique: bool)
        requires
            state.pieces@.len() <= state.used_pieces@.len(),
        ensures
            unique == has_unique_solution(*state),
    {
        proof {
            use_type_invariant(self);
        }
        match self.solver.solve(state) {
            SolveResult::UniqueSolution(_) => true,
            _ => false,
        }
    }

    /// The identities of the solution's pieces that may serve as obstacles,
    /// in the order in which the solution puts them.
    pub fn candidate_ids(solution: &Solution, difficulty: Difficulty) -> (ids: Vec<u8>)
        ensures
            ids@ == candidates_in(solution@.trail, obstacle_candidates()),
    {
        let candidates = difficulty.get_obstacle_piece_ids();
        let mut ids: Vec<u8> = Vec::new();
        let ghost all = solution@.trail.map_values(identity());
        let mut k: usize = 0;
        proof {
            lemma_filter_none(all, among(candidates@));
        }
        while k < solution.placements.len()
            invariant
                k <= solution.placements@.len(),
                all == solution.placements@.map_values(identity()),
                candidates@ == obstacle_candidates(),
                ids@ == all.take(k as int).filter(among(candidates@)),
            decreases solution.placements@.len() - k,
        {
            proof {
                lemma_filter_next(all, among(candidates@), k as int);
            }
            let id = solution.placements[k].piece_id;
            if contains_id(&candidates, id) {
                ids.push(id);
            }
            k += 1;
        }
        assert(all.take(all.len() as int) =~= all);
        ids
    }

    /// Three of the solution's pieces that may serve as obstacles, or all of
    /// them where the solution holds fewer, chosen at random.
    pub fn select_obstacle_pieces(&self, solution: &Solution, difficulty: Difficulty) -> (ids: Vec<
        u8,
    >)
        ensures
            is_selection(ids@, candidates_in(solution@.trail, obstacle_candidates()), 3),
    {
        let mut rng = thread_rng();
        let available = Generator::candidate_ids(solution, difficulty);
        let amount: usize = if available.len() < OBSTACLE_COUNT {
            available.len()
        } else {
            OBSTACLE_COUNT
        };
        choose_multiple(&mut rng, &available, amount)
    }

    /// The first complete tiling of the empty grid that the search finds
    /// with `pieces`, or `None` where there is none.
    pub fn complete_solution_from(pieces: Vec<Piece>) -> (solution: Option<Solution>)
        ensures
            solution is Some <==> search(empty_cells(), pieces@, 1).len() > 0,
            solution matches Some(found) ==> found@ == search(empty_cells(), pieces@, 1).last(),
    {
        let state = GameState::new(pieces);
        let solver = Solver::new(1);
        proof {
            lemma_unused_all(state.pieces@, state.used_pieces@, state.pieces@.len() as int);
            assert(state.pieces@.take(state.pieces@.len() as int) =~= state.pieces@);
        }
        match solver.solve(&state) {
            SolveResult::UniqueSolution(solution) => Some(solution),
            SolveResult::MultipleSolutions(mut solutions) => solutions.pop(),
            SolveResult::NoSolution => None,
        }
    }

    /// A complete tiling of the empty grid with the catalog's pieces, taken
    /// in a random order and each non-square piece turned at random.
    pub fn generate_complete_solution(&self) -> (solution: Option<Solution>)
        ensures
            solution matches Some(found) && is_exact_cover(empty_cells(), found@)
                && found@.trail.len() == 11,
    {
        let mut rng = thread_rng();
        let mut pieces = get_standard_pieces();
        shuffle(&mut rng, &mut pieces);
        proof {
            lemma_shuffled_catalog(pieces@);
        }
        let mut i: usize = 0;
        while i < pieces.len()
            invariant
                i <= pieces@.len(),
                is_catalog_pool(pieces@),
                holds_each_piece(pieces@),
            decreases pieces@.len() - i,
        {
            let mut piece = pieces[i];
            if random_ratio(&mut rng, 3, 10) && piece.width != piece.height {
                proof {
                    lemma_pool_turned(pieces@, i as int);
                }
                piece.rotate();
                pieces[i] = piece;
            }
            i += 1;
        }
        let ghost pool = pieces@;
        let solution = Generator::complete_solution_from(pieces);
        proof {
            lemma_search_of_catalog(pool, 1);
        }
        solution
    }

    /// The state that offers the pieces other than `obstacle_ids` on the
    /// grid that holds the pieces of `obstacle_ids` as obstacles, each where
    /// the solution has it.
    pub fn create_state_from_solution(&self, solution: &Solution, obstacle_ids: &Vec<u8>) -> (state:
        GameState)
        requires
            pieces_stand(solution@.cells, solution@.trail),
        ensures
            state.board@ == obstacle_cells(solution@.trail, obstacle_ids@),
            state.pieces@ == pieces_without(catalog(), obstacle_ids@.to_set()),
            state.used_pieces@ == Seq::new(state.pieces@.len(), |i: int| false),
            state.obstacle_positions@ == obstacle_records(solution@.trail, obstacle_ids@),
    {
        let mut board = Board::new();
        let mut obstacle_positions: Vec<(usize, usize, u8)> = Vec::new();
        let ghost trail = solution@.trail;
        let ghost ids = obstacle_ids@;
        let mut k: usize = 0;
        proof {
            lemma_filter_none(trail, puts_one_of(ids));
            assert(board@ =~= obstacle_cells(trail.take(0), ids));
            assert(obstacle_positions@ =~= trail.take(0).filter(puts_one_of(ids)).map_values(
                record(),
            ));
        }
        while k < solution.placements.len()
            invariant
                k <= trail.len(),
                trail == solution.placements@,
                ids == obstacle_ids@,
                pieces_stand(solution.board@, trail),
                board@ == obstacle_cells(trail.take(k as int), ids),
                obstacle_positions@ == trail.take(k as int).filter(puts_one_of(ids)).map_values(
                    record(),
                ),
            decreases trail.len() - k,
        {
            let placement = solution.placements[k];
            proof {
                lemma_filter_next(trail, puts_one_of(ids), k as int);
                lemma_obstacle_cells_next(solution.board@, trail, ids, k as int);
                lemma_catalog_pieces();
                assert(stands(solution.board@, trail[k as int]));
            }
            if contains_id(obstacle_ids, placement.piece_id) {
                let standard = get_standard_pieces();
                let mut piece = standard[(placement.piece_id - 1) as usize];
                if placement.rotated {
                    piece.rotate();
                }
                assert(piece == placed_piece(placement));
                board.place(&piece, placement.row, placement.col);
                obstacle_positions.push((placement.row, placement.col, piece.id));
                block(&mut board, &piece, placement.row, placement.col);
                proof {
                    let before = obstacle_cells(trail.take(k as int), ids);
                    assert(blocked_with(
                        with_piece(before, piece, placement.row as int, placement.col as int),
                        piece,
                        placement.row as int,
                        placement.col as int,
                    ) =~= blocked_with(before, piece, placement.row as int, placement.col as int));
                    let kept = trail.take(k as int).filter(puts_one_of(ids));
                    assert(kept.push(placement).map_values(record()) =~= kept.map_values(
                        record(),
                    ).push((placement.row, placement.col, placement.piece_id)));
                }
            }
            k += 1;
        }
        assert(trail.take(trail.len() as int) =~= trail);
        let standard = get_standard_pieces();
        let pieces = pieces_not_among(&standard, obstacle_ids);
        let mut state = GameState::new(pieces);
        state.board = board;
        state.obstacle_positions = obstacle_positions;
        state
    }

    /// Puts the pieces of `piece_ids` on the empty grid as obstacles, each
    /// turned at random and at the first of up to 50 random cells where it
    /// can be put. Gives the grid and row, column and identity of each
    /// obstacle, or `None` where a piece found no cell.
    pub fn random_place_obstacles(&self, piece_ids: &Vec<u8>) -> (placed: Option<
        (Board, Vec<(usize, usize, u8)>),
    >)
        requires
            forall|k: int| 0 <= k < piece_ids@.len() ==> 1 <= #[trigger] piece_ids@[k] <= 11,
        ensures
            placed matches Some((board, positions)) ==> {
                &&& positions@.len() == piece_ids@.len()
                &&& forall|k: int|
                    0 <= k < positions@.len() ==> (#[trigger] positions@[k]).2 == piece_ids@[k]
                        && marks_obstacle(board@, positions@[k])
                &&& holds_obstacles_only(board@)
                &&& is_obstacle_grid(board@, positions@)
            },
            finds_cells_always(piece_ids@) ==> placed is Some,
    {
        let mut rng = thread_rng();
        let mut board = Board::new();
        let mut positions: Vec<(usize, usize, u8)> = Vec::new();
        let mut n: usize = 0;
        let ghost mut turned: Seq<bool> = Seq::empty();
        proof {
            board.lemma_len();
        }
        while n < piece_ids.len()
            invariant
                n <= piece_ids@.len(),
                forall|k: int| 0 <= k < piece_ids@.len() ==> 1 <= #[trigger] piece_ids@[k] <= 11,
                positions@.len() == n,
                forall|k: int|
                    0 <= k < n ==> (#[trigger] positions@[k]).2 == piece_ids@[k] && marks_obstacle(
                        board@,
                        positions@[k],
                    ),
                holds_obstacles_only(board@),
                turned.len() == n,
                obstacles_fit(positions@, turned, n as int),
                board@ == obstacles_put(positions@, turned, n as int),
            decreases piece_ids@.len() - n,
        {
            let piece_id = piece_ids[n];
            let standard = get_standard_pieces();
            let mut piece = standard[(piece_id - 1) as usize];
            proof {
                lemma_catalog_pieces();
                lemma_placed_piece(piece, 0);
                assert(catalog()[0] == fresh(1, 1, 1, Color::Black1));
            }
            if random_ratio(&mut rng, 1, 2) && piece.width != piece.height {
                piece.rotate();
            }
            let mut attempts: usize = 0;
            let mut placed = false;
            while attempts < 50 && !placed
                invariant
                    attempts <= 50,
                    finds_cells_always(piece_ids@) ==> n == 0 && piece.width == 1 && piece.height
                        == 1,
                    finds_cells_always(piece_ids@) && attempts > 0 ==> placed,
                    n < piece_ids@.len(),
                    piece_id == piece_ids@[n as int],
                    1 <= piece_id <= 11,
                    piece == oriented(piece_id, piece.rotated),
                    1 <= piece.width,
                    1 <= piece.height,
                    turned.len() == positions@.len(),
                    obstacles_fit(positions@, turned, positions@.len() as int),
                    board@ == obstacles_put(positions@, turned, positions@.len() as int),
                    positions@.len() == if placed {
                        n + 1
                    } else {
                        n as int
                    },
                    forall|k: int|
                        0 <= k < positions@.len() ==> (#[trigger] positions@[k]).2 == piece_ids@[k]
                            && marks_obstacle(board@, positions@[k]),
                    holds_obstacles_only(board@),
                decreases 50 - attempts,
            {
                let row = random_below(&mut rng, 8);
                let col = random_below(&mut rng, 8);
                let ghost before = board@;
                let ghost records = positions@;
                if place_obstacle(&mut board, &piece, row, col) {
                    positions.push((row, col, piece_id));
                    placed = true;
                    proof {
                        lemma_obstacle_more(
                            before,
                            records,
                            turned,
                            (row, col, piece_id),
                            piece.rotated,
                        );
                        turned = turned.push(piece.rotated);
                        assert(covers(piece, row as int, col as int, row * 8 + col));
                        assert forall|k: int| 0 <= k < positions@.len() implies (
                        #[trigger] positions@[k]).2 == piece_ids@[k] && marks_obstacle(
                            board@,
                            positions@[k],
                        ) by {
                            if k < n {
                                assert(marks_obstacle(before, positions@[k]));
                            }
                        }
                    }
                }
                attempts += 1;
            }
            if !placed {
                return None;
            }
            n += 1;
        }
        Some((board, positions))
    }

    /// The level that a solution gives with the pieces of `obstacle_ids` kept
    /// as obstacles: the state that `create_state_from_solution` builds, where
    /// there are three obstacle pieces and the search finds exactly one
    /// solution for it, else `None`.
    pub fn level_from_solution(&self, solution: &Solution, obstacle_ids: &Vec<u8>) -> (level: Option<
        GameState,
    >)
        requires
            pieces_stand(solution@.cells, solution@.trail),
        ensures
            level is Some <==> obstacle_ids@.len() == 3 && search(
                obstacle_cells(solution@.trail, obstacle_ids@),
                pieces_without(catalog(), obstacle_ids@.to_set()),
                2,
            ).len() == 1,
            level matches Some(state) ==> {
                &&& state.board@ == obstacle_cells(solution@.trail, obstacle_ids@)
                &&& state.pieces@ == pieces_without(catalog(), obstacle_ids@.to_set())
                &&& state.used_pieces@ == Seq::new(state.pieces@.len(), |i: int| false)
                &&& state.obstacle_positions@ == obstacle_records(solution@.trail, obstacle_ids@)
            },
    {
        if obstacle_ids.len() != OBSTACLE_COUNT {
            return None;
        }
        let state = self.create_state_from_solution(solution, obstacle_ids);
        proof {
            lemma_unused_all(state.pieces@, state.used_pieces@, state.pieces@.len() as int);
            assert(state.pieces@.take(state.pieces@.len() as int) =~= state.pieces@);
        }
        if self.validate_unique_solution(&state) {
            Some(state)
        } else {
            None
        }
    }

    /// The level that a grid of obstacles gives: the state that offers the
    /// pieces of the catalog other than `selected` on `board`, with
    /// `positions` as its obstacle records, where the search finds exactly
    /// one solution for it, else `None`.
    pub fn level_from_obstacles(
        &self,
        selected: &Vec<u8>,
        board: Board,
        positions: Vec<(usize, usize, u8)>,
    ) -> (level: Option<GameState>)
        ensures
            level is Some <==> search(
                board@,
                pieces_without(catalog(), selected@.to_set()),
                2,
            ).len() == 1,
            level matches Some(state) ==> {
                &&& state.board@ == board@
                &&& state.pieces@ == pieces_without(catalog(), selected@.to_set())
                &&& state.used_pieces@ == Seq::new(state.pieces@.len(), |i: int| false)
                &&& state.obstacle_positions@ == positions@
            },
    {
        let all_pieces = get_standard_pieces();
        let pieces = pieces_not_among(&all_pieces, selected);
        let mut state = GameState::new(pieces);
        state.board = board;
        state.obstacle_positions = positions;
        proof {
            lemma_unused_all(state.pieces@, state.used_pieces@, state.pieces@.len() as int);
            assert(state.pieces@.take(state.pieces@.len() as int) =~= state.pieces@);
        }
        if self.validate_unique_solution(&state) {
            Some(state)
        } else {
            None
        }
    }

    /// Builds a level from a complete tiling: three of its small pieces stay
    /// on the grid as obstacles. Tries again while the level has no unique
    /// solution, up to the number of attempts.
    pub fn generate_from_solution(&self, difficulty: Difficulty) -> (level: Option<GameState>)
        ensures
            level matches Some(state) ==> is_level(state),
    {
        let mut attempt: usize = 0;
        while attempt < self.max_retries
            invariant
                attempt <= self.max_retries,
            decreases self.max_retries - attempt,
        {
            attempt += 1;
            let solution = match self.generate_complete_solution() {
                Some(solution) => solution,
                None => {
                    return None;
                },
            };
            let obstacle_ids = self.select_obstacle_pieces(&solution, difficulty);
            match self.level_from_solution(&solution, &obstacle_ids) {
                Some(state) => {
                    proof {
                        lemma_choice_of_three(solution@.trail, obstacle_ids@);
                        lemma_pieces_in_play(obstacle_ids@);
                        lemma_obstacles_of_trail(solution@.cells, solution@.trail, obstacle_ids@);
                        lemma_obstacle_grid_of_trail(
                            solution@.cells,
                            solution@.trail,
                            obstacle_ids@,
                            solution@.trail.len() as int,
                        );
                        assert(state.used_pieces@ =~= Seq::new(8, |i: int| false));
                        lemma_unused_all(state.pieces@, state.used_pieces@, 8);
                        assert(state.pieces@.take(8) =~= state.pieces@);
                    }
                    return Some(state);
                },
                None => {},
            }
        }
        None
    }

    /// Builds a level from obstacles put at random: the three small pieces
    /// in a random order, each at a random cell. Tries again while a piece
    /// finds no cell or the level has no unique solution, up to the number
    /// of attempts.
    pub fn generate_from_obstacles(&self, difficulty: Difficulty) -> (level: Option<GameState>)
        ensures
            level matches Some(state) ==> is_level(state),
    {
        let mut rng = thread_rng();
        let mut attempt: usize = 0;
        while attempt < self.max_retries
            invariant
                attempt <= self.max_retries,
            decreases self.max_retries - attempt,
        {
            attempt += 1;
            let candidates = difficulty.get_obstacle_piece_ids();
            if candidates.len() >= OBSTACLE_COUNT {
                let selected = choose_multiple(&mut rng, &candidates, OBSTACLE_COUNT);
                proof {
                    lemma_choice_of_candidates(selected@);
                    lemma_choice_holds(selected@);
                    lemma_pieces_in_play(selected@);
                }
                match self.random_place_obstacles(&selected) {
                    Some((board, positions)) => {
                        let ghost records = positions@;
                        match self.level_from_obstacles(&selected, board, positions) {
                            Some(state) => {
                                proof {
                                    assert(state.used_pieces@ =~= Seq::new(8, |i: int| false));
                                    lemma_unused_all(state.pieces@, state.used_pieces@, 8);
                                    assert(state.pieces@.take(8) =~= state.pieces@);
                                    assert forall|id: u8| 1 <= id <= 3 implies #[trigger] names(
                                        state.obstacle_positions@,
                                        id,
                                    ) by {
                                        assert(selected@.contains(id));
                                        let j = choose|j: int|
                                            0 <= j < selected@.len() && selected@[j] == id;
                                        assert(records[j].2 == id);
                                    }
                                }
                                return Some(state);
                            },
                            None => {},
                        }
                    },
                    None => {},
                }
            }
        }
        None
    }

    /// Generates a level: from a complete tiling where that succeeds, else
    /// from obstacles put at random. The difficulty is a label only.
    pub fn generate(&self, difficulty: Difficulty) -> (level: Option<GameState>)
        ensures
            level matches Some(state) ==> is_level(state),
    {
        match self.generate_from_solution(difficulty) {
            Some(state) => Some(state),
            None => self.generate_from_obstacles(difficulty),
        }
    }
}

impl Default for Generator {
    fn default() -> (generator: Self)
        ensures
            generator.retries() == 100,
    {
        Generator::new()
    }
}

} // verus!
