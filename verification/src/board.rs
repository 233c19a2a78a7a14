//! The grid: 64 cells in row-major order, and the operations that read and
//! write rectangles of them.

use vstd::prelude::*;
use crate::types::Piece;

verus! {

/// Whether the cell with row-major index `i` lies in the rectangle that
/// `piece` covers when its top-left corner is at (`row`, `col`).
pub open spec fn covers(piece: Piece, row: int, col: int, i: int) -> bool {
    &&& row <= i / 8 < row + piece.height
    &&& col <= i % 8 < col + piece.width
}

/// Whether the rectangle of `piece` at (`row`, `col`) lies inside the grid.
pub open spec fn fits(piece: Piece, row: int, col: int) -> bool {
    &&& row + piece.height <= 8
    &&& col + piece.width <= 8
}

/// Whether `piece` can be put at (`row`, `col`): its rectangle lies inside the
/// grid and every cell of it is empty.
pub open spec fn placeable(cells: Seq<i8>, piece: Piece, row: int, col: int) -> bool {
    &&& fits(piece, row, col)
    &&& forall|i: int| 0 <= i < 64 && covers(piece, row, col, i) ==> cells[i] == 0
}

/// The value that a cell holds while the piece with identity `id` occupies it.
pub open spec fn mark(id: u8) -> i8 {
    id as i8
}

/// The cells after `piece` has been written at (`row`, `col`).
pub open spec fn with_piece(cells: Seq<i8>, piece: Piece, row: int, col: int) -> Seq<i8> {
    Seq::new(
        64,
        |i: int|
            if covers(piece, row, col, i) {
                mark(piece.id)
            } else {
                cells[i]
            },
    )
}

/// The cells after `piece` has been taken from (`row`, `col`): the cells of
/// its rectangle that hold its mark become empty, all others stay.
pub open spec fn without_piece(cells: Seq<i8>, piece: Piece, row: int, col: int) -> Seq<i8> {
    Seq::new(
        64,
        |i: int|
            if covers(piece, row, col, i) && cells[i] == mark(piece.id) {
                0i8
            } else {
                cells[i]
            },
    )
}

/// Whether no cell is empty.
pub open spec fn full(cells: Seq<i8>) -> bool {
    forall|i: int| 0 <= i < 64 ==> cells[i] != 0
}

/// Whether `i` is the first empty cell in row-major order.
pub open spec fn is_first_empty(cells: Seq<i8>, i: int) -> bool {
    &&& 0 <= i < 64
    &&& cells[i] == 0
    &&& forall|j: int| 0 <= j < i ==> cells[j] != 0
}

/// The row-major index of the first empty cell of a grid that is not full.
pub open spec fn first_empty(cells: Seq<i8>) -> int {
    choose|i: int| is_first_empty(cells, i)
}

/// Number of empty cells among the first `n`.
pub open spec fn empty_among(cells: Seq<i8>, n: nat) -> nat
    decreases n,
{
    if n == 0 {
        0
    } else {
        empty_among(cells, (n - 1) as nat) + if cells[n - 1] == 0 {
            1nat
        } else {
            0nat
        }
    }
}

/// Number of empty cells of the grid.
pub open spec fn empty_count(cells: Seq<i8>) -> nat {
    empty_among(cells, 64)
}

/// The character that shows a cell: a block for an obstacle, a dot for an
/// empty cell, the digit for the pieces 1 to 9, `A` and `B` for the pieces
/// 10 and 11, and a question mark for any other value.
pub open spec fn glyph(value: i8) -> char {
    if value == -1 {
        '■'
    } else if value == 0 {
        '·'
    } else if 1 <= value <= 9 {
        ('0' as int + value) as char
    } else if 10 <= value <= 11 {
        ('A' as int + value - 10) as char
    } else {
        '?'
    }
}

/// The grid with every cell empty.
pub open spec fn empty_cells() -> Seq<i8> {
    Seq::new(64, |i: int| 0i8)
}

/// The 8x8 grid. A cell holds 0 when it is empty, -1 when an obstacle covers
/// it, and the mark of a piece when that piece occupies it.
#[derive(Debug, PartialEq, Eq)]
pub struct Board {
    pub(crate) cells: [i8; 64],
}

impl View for Board {
    type V = Seq<i8>;

    closed spec fn view(&self) -> Seq<i8> {
        self.cells@
    }
}

impl Clone for Board {
    fn clone(&self) -> (copy: Self)
        ensures
            copy@ == self@,
    {
        Board { cells: self.cells }
    }
}

impl Default for Board {
    fn default() -> (board: Self)
        ensures
            board@ == empty_cells(),
    {
        Board::new()
    }
}

impl Board {
    /// The value of the cell at (`row`, `col`).
    pub open spec fn cell(&self, row: int, col: int) -> i8 {
        self@[row * 8 + col]
    }

    /// Every grid has 64 cells.
    pub proof fn lemma_len(&self)
        ensures
            self@.len() == 64,
    {
    }

    /// Creates the empty grid.
    pub fn new() -> (board: Board)
        ensures
            board@ == empty_cells(),
    {
        let board = Board { cells: [0i8;64] };
        assert(board@ =~= empty_cells());
        board
    }

    /// Creates a grid from its 64 cells in row-major order.
    pub fn from_array(cells: [i8; 64]) -> (board: Board)
        ensures
            board@ == cells@,
    {
        Board { cells }
    }

    /// Reads the cell at (`row`, `col`).
    pub fn get(&self, row: usize, col: usize) -> (value: i8)
        requires
            row < 8,
            col < 8,
        ensures
            value == self.cell(row as int, col as int),
    {
        self.cells[row * 8 + col]
    }

    /// Writes `value` to the cell at (`row`, `col`).
    pub fn set(&mut self, row: usize, col: usize, value: i8)
        requires
            row < 8,
            col < 8,
        ensures
            final(self)@ == old(self)@.update(row * 8 + col, value),
    {
        self.cells[row * 8 + col] = value;
    }

    /// Whether the cell at (`row`, `col`) is empty.
    pub fn is_empty(&self, row: usize, col: usize) -> (empty: bool)
        requires
            row < 8,
            col < 8,
        ensures
            empty == (self.cell(row as int, col as int) == 0),
    {
        self.get(row, col) == 0
    }

    /// Whether `piece` can be put with its top-left corner at (`row`, `col`).
    pub fn can_place(&self, piece: &Piece, row: usize, col: usize) -> (ok: bool)
        ensures
            ok == placeable(self@, *piece, row as int, col as int),
    {
        if piece.height > 8 || row > 8 - piece.height || piece.width > 8 || col > 8 - piece.width {
            return false;
        }
        let row_end: usize = row + piece.height;
        let col_end: usize = col + piece.width;
        let mut r: usize = row;
        while r < row_end
            invariant
                row <= r <= row_end,
                row_end == row + piece.height,
                col_end == col + piece.width,
                row_end <= 8,
                col_end <= 8,
                forall|i: int|
                    0 <= i < 64 && covers(*piece, row as int, col as int, i) && i / 8 < r
                        ==> self@[i] == 0,
            decreases row_end - r,
        {
            let mut c: usize = col;
            while c < col_end
                invariant
                    row <= r < row_end,
                    col <= c <= col_end,
                    row_end == row + piece.height,
                    col_end == col + piece.width,
                    row_end <= 8,
                    col_end <= 8,
                    forall|i: int|
                        0 <= i < 64 && covers(*piece, row as int, col as int, i) && (i / 8 < r
                            || (i / 8 == r && i % 8 < c)) ==> self@[i] == 0,
                decreases col_end - c,
            {
                if !self.is_empty(r, c) {
                    assert(covers(*piece, row as int, col as int, r * 8 + c));
                    return false;
                }
                c += 1;
            }
            r += 1;
        }
        true
    }

    /// Puts `piece` with its top-left corner at (`row`, `col`).
    pub fn place(&mut self, piece: &Piece, row: usize, col: usize)
        requires
            placeable(old(self)@, *piece, row as int, col as int),
        ensures
            final(self)@ == with_piece(old(self)@, *piece, row as int, col as int),
    {
        let row_end: usize = row + piece.height;
        let col_end: usize = col + piece.width;
        let value: i8 = piece.id as i8;
        let mut r: usize = row;
        while r < row_end
            invariant
                row <= r <= row_end,
                row_end == row + piece.height,
                col_end == col + piece.width,
                row_end <= 8,
                col_end <= 8,
                value == mark(piece.id),
                self@.len() == 64,
                forall|i: int|
                    0 <= i < 64 ==> self@[i] == if covers(*piece, row as int, col as int, i) && i
                        / 8 < r {
                        value
                    } else {
                        old(self)@[i]
                    },
            decreases row_end - r,
        {
            let mut c: usize = col;
            while c < col_end
                invariant
                    row <= r < row_end,
                    col <= c <= col_end,
                    row_end == row + piece.height,
                    col_end == col + piece.width,
                    row_end <= 8,
                    col_end <= 8,
                    value == mark(piece.id),
                    self@.len() == 64,
                    forall|i: int|
                        0 <= i < 64 ==> self@[i] == if covers(*piece, row as int, col as int, i)
                            && (i / 8 < r || (i / 8 == r && i % 8 < c)) {
                            value
                        } else {
                            old(self)@[i]
                        },
                decreases col_end - c,
            {
                self.set(r, c, value);
                c += 1;
            }
            r += 1;
        }
        assert(self@ =~= with_piece(old(self)@, *piece, row as int, col as int));
    }

    /// Takes `piece` from (`row`, `col`): every cell of its rectangle that
    /// lies on the grid and holds its mark becomes empty.
    pub fn remove(&mut self, piece: &Piece, row: usize, col: usize)
        ensures
            final(self)@ == without_piece(old(self)@, *piece, row as int, col as int),
    {
        if row >= 8 || col >= 8 {
            assert(self@ =~= without_piece(old(self)@, *piece, row as int, col as int));
            return ;
        }
        let row_end: usize = if piece.height >= 8 - row {
            8
        } else {
            row + piece.height
        };
        let col_end: usize = if piece.width >= 8 - col {
            8
        } else {
            col + piece.width
        };
        let value: i8 = piece.id as i8;
        let mut r: usize = row;
        while r < row_end
            invariant
                row <= r <= row_end <= 8,
                col <= col_end <= 8,
                row_end == if row + piece.height >= 8 { 8 } else { row + piece.height },
                col_end == if col + piece.width >= 8 { 8 } else { col + piece.width },
                value == mark(piece.id),
                self@.len() == 64,
                forall|i: int|
                    0 <= i < 64 ==> self@[i] == if covers(*piece, row as int, col as int, i) && i
                        / 8 < r && old(self)@[i] == value {
                        0i8
                    } else {
                        old(self)@[i]
                    },
            decreases row_end - r,
        {
            let mut c: usize = col;
            while c < col_end
                invariant
                    row <= r < row_end <= 8,
                    col <= c <= col_end <= 8,
                    row_end == if row + piece.height >= 8 { 8 } else { row + piece.height },
                    col_end == if col + piece.width >= 8 { 8 } else { col + piece.width },
                    value == mark(piece.id),
                    self@.len() == 64,
                    forall|i: int|
                        0 <= i < 64 ==> self@[i] == if covers(*piece, row as int, col as int, i)
                            && (i / 8 < r || (i / 8 == r && i % 8 < c)) && old(self)@[i] == value {
                            0i8
                        } else {
                            old(self)@[i]
                        },
                decreases col_end - c,
            {
                if self.get(r, c) == value {
                    self.set(r, c, 0);
                }
                c += 1;
            }
            r += 1;
        }
        assert(self@ =~= without_piece(old(self)@, *piece, row as int, col as int));
    }

    /// Whether no cell is empty; an obstacle cell counts as filled.
    pub fn is_full(&self) -> (is_full: bool)
        ensures
            is_full == full(self@),
    {
        let mut i: usize = 0;
        while i < 64
            invariant
                i <= 64,
                forall|j: int| 0 <= j < i ==> self@[j] != 0,
            decreases 64 - i,
        {
            if self.cells[i] == 0 {
                return false;
            }
            i += 1;
        }
        true
    }

    /// The 64 cells in row-major order.
    pub fn cells(&self) -> (cells: &[i8; 64])
        ensures
            cells@ == self@,
    {
        &self.cells
    }

    /// A copy of the 64 cells in row-major order.
    pub fn to_array(&self) -> (cells: [i8; 64])
        ensures
            cells@ == self@,
    {
        self.cells
    }

    /// The first empty cell in row-major order, as (row, column), or `None`
    /// when the grid is full.
    pub fn find_first_empty(&self) -> (found: Option<(usize, usize)>)
        ensures
            found is None <==> full(self@),
            found matches Some((row, col)) ==> row < 8 && col < 8 && is_first_empty(
                self@,
                row * 8 + col,
            ) && row * 8 + col == first_empty(self@),
    {
        let mut i: usize = 0;
        while i < 64
            invariant
                i <= 64,
                forall|j: int| 0 <= j < i ==> self@[j] != 0,
            decreases 64 - i,
        {
            if self.cells[i] == 0 {
                proof {
                    assert(is_first_empty(self@, i as int));
                    lemma_first_empty_unique(self@, i as int, first_empty(self@));
                }
                return Some((i / 8, i % 8));
            }
            i += 1;
        }
        None
    }

    /// Number of empty cells.
    pub fn count_empty(&self) -> (count: usize)
        ensures
            count == empty_count(self@),
    {
        let mut count: usize = 0;
        let mut i: usize = 0;
        while i < 64
            invariant
                i <= 64,
                count == empty_among(self@, i as nat),
                count <= i,
            decreases 64 - i,
        {
            if self.cells[i] == 0 {
                count += 1;
            }
            i += 1;
        }
        count
    }

    /// Empties every cell.
    pub fn clear(&mut self)
        ensures
            final(self)@ == empty_cells(),
    {
        let mut i: usize = 0;
        while i < 64
            invariant
                i <= 64,
                self@.len() == 64,
                forall|j: int| 0 <= j < i ==> self@[j] == 0,
            decreases 64 - i,
        {
            self.cells[i] = 0;
            i += 1;
        }
        assert(self@ =~= empty_cells());
    }

    /// The character that shows the cell at (`row`, `col`).
    pub fn symbol(&self, row: usize, col: usize) -> (symbol: char)
        requires
            row < 8,
            col < 8,
        ensures
            symbol == glyph(self.cell(row as int, col as int)),
    {
        match self.get(row, col) {
            -1 => '■',
            0 => '·',
            1 => '1',
            2 => '2',
            3 => '3',
            4 => '4',
            5 => '5',
            6 => '6',
            7 => '7',
            8 => '8',
            9 => '9',
            10 => 'A',
            11 => 'B',
            _ => '?',
        }
    }

    /// The 64 cells in row-major order, for writing.
    pub fn cells_mut(&mut self) -> (cells: &mut [i8; 64])
        ensures
            cells@ == old(self)@,
            final(self)@ == final(cells)@,
    {
        &mut self.cells
    }
}

/// A grid has at most one first empty cell.
pub proof fn lemma_first_empty_unique(cells: Seq<i8>, i: int, j: int)
    requires
        is_first_empty(cells, i),
    ensures
        is_first_empty(cells, first_empty(cells)),
        is_first_empty(cells, j) ==> i == j,
{
}

/// A grid that is not full has a first empty cell.
pub proof fn lemma_first_empty_exists(cells: Seq<i8>)
    requires
        !full(cells),
    ensures
        is_first_empty(cells, first_empty(cells)),
{
    let w = choose|i: int| 0 <= i < 64 && cells[i] == 0;
    lemma_least_empty(cells, w);
}

proof fn lemma_least_empty(cells: Seq<i8>, w: int)
    requires
        0 <= w < 64,
        cells[w] == 0,
    ensures
        is_first_empty(cells, first_empty(cells)),
    decreases w,
{
    if forall|j: int| 0 <= j < w ==> cells[j] != 0 {
        assert(is_first_empty(cells, w));
        lemma_first_empty_unique(cells, w, w);
    } else {
        let j = choose|j: int| 0 <= j < w && cells[j] == 0;
        lemma_least_empty(cells, j);
    }
}

/// A grid is full exactly where it has no first empty cell.
pub proof fn lemma_full_iff_no_first_empty(cells: Seq<i8>)
    ensures
        full(cells) <==> !exists|i: int| is_first_empty(cells, i),
{
    if !full(cells) {
        lemma_first_empty_exists(cells);
    }
}

/// Putting a piece where it can be put and taking it away again gives the
/// grid back, cell for cell.
pub proof fn lemma_place_then_remove(cells: Seq<i8>, piece: Piece, row: int, col: int)
    requires
        cells.len() == 64,
        placeable(cells, piece, row, col),
    ensures
        without_piece(with_piece(cells, piece, row, col), piece, row, col) == cells,
{
    assert(without_piece(with_piece(cells, piece, row, col), piece, row, col) =~= cells);
}

} // verus!
