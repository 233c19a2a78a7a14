//! The data model: colours, pieces, placements, solutions and game states.

use vstd::prelude::*;
use crate::board::{Board, empty_cells};

verus! {

/// Colour tag of a piece. It is presentation only: nothing in the search reads it.
#[derive(Debug, Clone, Copy, PartialEq, Eq, Structural)]
pub enum Color {
    Black1,
    Black2,
    Black3,
    Blue1,
    Blue2,
    Red1,
    Red2,
    Yellow1,
    Yellow2,
    Gray1,
    Gray2,
}

impl Color {
    /// The CSS colour of each tag, as a spec-level string.
    pub open spec fn css(self) -> Seq<char> {
        match self {
            Color::Black1 => "#1a252f"@,
            Color::Black2 => "#2c3e50"@,
            Color::Black3 => "#34495e"@,
            Color::Blue1 => "#2980b9"@,
            Color::Blue2 => "#3498db"@,
            Color::Red1 => "#c0392b"@,
            Color::Red2 => "#e74c3c"@,
            Color::Yellow1 => "#d68910"@,
            Color::Yellow2 => "#f39c12"@,
            Color::Gray1 => "#7f8c8d"@,
            Color::Gray2 => "#95a5a6"@,
        }
    }

    /// The name of the colour family of each tag, as a spec-level string.
    pub open spec fn family_name(self) -> Seq<char> {
        match self {
            Color::Black1 | Color::Black2 | Color::Black3 => "黑色系"@,
            Color::Blue1 | Color::Blue2 => "蓝色系"@,
            Color::Red1 | Color::Red2 => "红色系"@,
            Color::Yellow1 | Color::Yellow2 => "黄色系"@,
            Color::Gray1 | Color::Gray2 => "灰色系"@,
        }
    }

    /// CSS representation of the colour.
    pub fn to_css(&self) -> (css: &'static str)
        ensures
            css@ == self.css(),
    {
        match self {
            Color::Black1 => "#1a252f",
            Color::Black2 => "#2c3e50",
            Color::Black3 => "#34495e",
            Color::Blue1 => "#2980b9",
            Color::Blue2 => "#3498db",
            Color::Red1 => "#c0392b",
            Color::Red2 => "#e74c3c",
            Color::Yellow1 => "#d68910",
            Color::Yellow2 => "#f39c12",
            Color::Gray1 => "#7f8c8d",
            Color::Gray2 => "#95a5a6",
        }
    }

    /// Name of the colour family.
    pub fn family(&self) -> (name: &'static str)
        ensures
            name@ == self.family_name(),
    {
        match self {
            Color::Black1 | Color::Black2 | Color::Black3 => "黑色系",
            Color::Blue1 | Color::Blue2 => "蓝色系",
            Color::Red1 | Color::Red2 => "红色系",
            Color::Yellow1 | Color::Yellow2 => "黄色系",
            Color::Gray1 | Color::Gray2 => "灰色系",
        }
    }
}

/// A rectangular piece in its current orientation.
#[derive(Debug, Clone, Copy, PartialEq, Eq, Structural)]
pub struct Piece {
    /// Identity of the piece; the catalog uses 1 to 11.
    pub id: u8,
    /// Width in the current orientation.
    pub width: usize,
    /// Height in the current orientation.
    pub height: usize,
    /// Width the piece was created with.
    pub original_width: usize,
    /// Height the piece was created with.
    pub original_height: usize,
    /// Colour tag.
    pub color: Color,
    /// Whether the piece is turned by a quarter from its original orientation.
    pub rotated: bool,
}

impl Piece {
    /// The piece turned by a quarter: width and height swapped, the flag toggled.
    pub open spec fn turned(self) -> Piece {
        Piece { width: self.height, height: self.width, rotated: !self.rotated, ..self }
    }

    /// Number of cells the piece covers.
    pub open spec fn cells(self) -> int {
        self.width * self.height
    }

    /// Whether both orientations of the piece cover the same rectangle.
    pub open spec fn is_square(self) -> bool {
        self.width == self.height
    }

    /// Creates a piece in its original orientation.
    pub fn new(id: u8, width: usize, height: usize, color: Color) -> (piece: Piece)
        ensures
            piece == (Piece {
                id,
                width,
                height,
                original_width: width,
                original_height: height,
                color,
                rotated: false,
            }),
    {
        Piece {
            id,
            width,
            height,
            original_width: width,
            original_height: height,
            color,
            rotated: false,
        }
    }

    /// Turns the piece by a quarter.
    pub fn rotate(&mut self)
        ensures
            *final(self) == old(self).turned(),
    {
        let w: usize = self.width;
        self.width = self.height;
        self.height = w;
        self.rotated = !self.rotated;
    }

    /// Puts the piece back into its original orientation.
    pub fn reset(&mut self)
        ensures
            *final(self) == (Piece {
                width: old(self).original_width,
                height: old(self).original_height,
                rotated: false,
                ..*old(self)
            }),
    {
        self.width = self.original_width;
        self.height = self.original_height;
        self.rotated = false;
    }

    /// Area of the piece.
    pub fn area(&self) -> (area: usize)
        requires
            self.cells() <= usize::MAX,
        ensures
            area == self.cells(),
    {
        self.width * self.height
    }
}

/// Turning a piece twice gives the piece back, and turning never changes the
/// area; turning a square piece toggles the flag and keeps both dimensions.
pub proof fn lemma_turn_twice(piece: Piece)
    ensures
        piece.turned().turned() == piece,
        piece.turned().cells() == piece.cells(),
        piece.turned().rotated == !piece.rotated,
        piece.is_square() ==> piece.turned().width == piece.width && piece.turned().height
            == piece.height,
{
    assert(piece.width * piece.height == piece.height * piece.width) by (nonlinear_arith);
}

/// The record that a piece was put with its top-left corner at a cell.
#[derive(Debug, Clone, Copy, PartialEq, Eq, Structural)]
pub struct Placement {
    /// Identity of the piece.
    pub piece_id: u8,
    /// Row of the top-left corner.
    pub row: usize,
    /// Column of the top-left corner.
    pub col: usize,
    /// Whether the piece was turned by a quarter when it was put.
    pub rotated: bool,
}

/// What a solution is in contracts: the 64 cells of the covered grid and the
/// placements that covered it, in the order in which they were made.
#[verifier::ext_equal]
pub struct Tiling {
    pub cells: Seq<i8>,
    pub trail: Seq<Placement>,
}

/// A covered grid together with the placements that produced it.
#[derive(Debug)]
pub struct Solution {
    /// The grid after the last placement.
    pub board: Board,
    /// The placements in the order in which they were made.
    pub placements: Vec<Placement>,
}

impl View for Solution {
    type V = Tiling;

    open spec fn view(&self) -> Tiling {
        Tiling { cells: self.board@, trail: self.placements@ }
    }
}

impl Clone for Solution {
    fn clone(&self) -> (copy: Self)
        ensures
            copy@ == self@,
    {
        let placements = self.placements.clone();
        assert(placements@ =~= self.placements@);
        Solution { board: self.board.clone(), placements }
    }
}

/// The views of a list of solutions, in order.
pub open spec fn tilings_of(solutions: Seq<Solution>) -> Seq<Tiling> {
    Seq::new(solutions.len(), |i: int| solutions[i]@)
}

/// What a search returns.
#[derive(Debug)]
pub enum SolveResult {
    /// The search found no solution.
    NoSolution,
    /// The search found exactly one solution.
    UniqueSolution(Solution),
    /// The search found two or more solutions.
    MultipleSolutions(Vec<Solution>),
}

/// A copy of a list of solutions.
pub fn copy_solutions(solutions: &Vec<Solution>) -> (copy: Vec<Solution>)
    ensures
        tilings_of(copy@) == tilings_of(solutions@),
{
    let mut copy: Vec<Solution> = Vec::new();
    let mut i: usize = 0;
    while i < solutions.len()
        invariant
            i <= solutions@.len(),
            copy@.len() == i,
            forall|j: int| 0 <= j < i ==> copy@[j]@ == solutions@[j]@,
        decreases solutions@.len() - i,
    {
        copy.push(solutions[i].clone());
        i += 1;
    }
    assert(tilings_of(copy@) =~= tilings_of(solutions@));
    copy
}

impl Clone for SolveResult {
    fn clone(&self) -> (copy: Self)
        ensures
            copy.found() == self.found(),
            copy is NoSolution <==> self is NoSolution,
            copy is UniqueSolution <==> self is UniqueSolution,
            copy is MultipleSolutions <==> self is MultipleSolutions,
    {
        match self {
            SolveResult::NoSolution => SolveResult::NoSolution,
            SolveResult::UniqueSolution(solution) => SolveResult::UniqueSolution(solution.clone()),
            SolveResult::MultipleSolutions(solutions) => SolveResult::MultipleSolutions(
                copy_solutions(solutions),
            ),
        }
    }
}

impl SolveResult {
    /// The solutions that the result holds, in the order in which the search
    /// found them.
    pub open spec fn found(self) -> Seq<Tiling> {
        match self {
            SolveResult::NoSolution => Seq::empty(),
            SolveResult::UniqueSolution(solution) => seq![solution@],
            SolveResult::MultipleSolutions(solutions) => tilings_of(solutions@),
        }
    }
}

/// A puzzle in progress: the grid, the pieces on offer, a flag per piece that
/// says whether it is already used, and where the obstacles were put.
#[derive(Debug)]
pub struct GameState {
    /// The grid.
    pub board: Board,
    /// The pieces on offer.
    pub pieces: Vec<Piece>,
    /// For each piece, whether it is used.
    pub used_pieces: Vec<bool>,
    /// Row, column and piece identity of each obstacle.
    pub obstacle_positions: Vec<(usize, usize, u8)>,
}

impl Clone for GameState {
    fn clone(&self) -> (copy: Self)
        ensures
            copy.board@ == self.board@,
            copy.pieces@ == self.pieces@,
            copy.used_pieces@ == self.used_pieces@,
            copy.obstacle_positions@ == self.obstacle_positions@,
    {
        let pieces = self.pieces.clone();
        let used_pieces = self.used_pieces.clone();
        let mut obstacle_positions: Vec<(usize, usize, u8)> = Vec::new();
        let mut i: usize = 0;
        while i < self.obstacle_positions.len()
            invariant
                i <= self.obstacle_positions@.len(),
                obstacle_positions@ == self.obstacle_positions@.take(i as int),
            decreases self.obstacle_positions@.len() - i,
        {
            let (row, col, id) = self.obstacle_positions[i];
            obstacle_positions.push((row, col, id));
            assert(self.obstacle_positions@.take(i + 1) =~= self.obstacle_positions@.take(
                i as int,
            ).push(self.obstacle_positions@[i as int]));
            i += 1;
        }
        assert(pieces@ =~= self.pieces@);
        assert(used_pieces@ =~= self.used_pieces@);
        assert(obstacle_positions@ =~= self.obstacle_positions@);
        GameState { board: self.board.clone(), pieces, used_pieces, obstacle_positions }
    }
}

impl GameState {
    /// Creates a state with the empty grid, no piece used and no obstacle.
    pub fn new(pieces: Vec<Piece>) -> (state: GameState)
        ensures
            state.board@ == empty_cells(),
            state.pieces@ == pieces@,
            state.used_pieces@ == Seq::new(pieces@.len(), |i: int| false),
            state.obstacle_positions@ == Seq::<(usize, usize, u8)>::empty(),
    {
        let used_pieces = vec![false; pieces.len()];
        assert(used_pieces@ =~= Seq::new(pieces@.len(), |i: int| false));
        GameState { board: Board::new(), pieces, used_pieces, obstacle_positions: Vec::new() }
    }
}

/// Difficulty label of a level. It is a label only: every level takes its
/// obstacles from the same three pieces.
#[derive(Debug, Clone, Copy, PartialEq, Eq, Structural)]
pub enum Difficulty {
    Easy,
    Medium,
    Hard,
}

/// The identities of the pieces that serve as obstacles: the three smallest.
pub open spec fn obstacle_candidates() -> Seq<u8> {
    seq![1u8, 2u8, 3u8]
}

impl Difficulty {
    /// The identities of the pieces that may serve as obstacles.
    pub fn get_obstacle_piece_ids(&self) -> (ids: Vec<u8>)
        ensures
            ids@ == obstacle_candidates(),
    {
        let ids = vec![1u8, 2u8, 3u8];
        assert(ids@ =~= obstacle_candidates());
        ids
    }
}

} // verus!
