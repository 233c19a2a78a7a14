//! The catalog: the eleven pieces that together cover the grid exactly.

use vstd::prelude::*;
use crate::types::{Color, Piece};

verus! {

/// A piece of the catalog in its original orientation.
pub open spec fn fresh(id: u8, width: usize, height: usize, color: Color) -> Piece {
    Piece {
        id,
        width,
        height,
        original_width: width,
        original_height: height,
        color,
        rotated: false,
    }
}

/// The eleven pieces, ordered by identity.
pub open spec fn catalog() -> Seq<Piece> {
    seq![
        fresh(1, 1, 1, Color::Black1),
        fresh(2, 1, 2, Color::Black2),
        fresh(3, 1, 3, Color::Black3),
        fresh(4, 1, 4, Color::Blue1),
        fresh(5, 1, 5, Color::Blue2),
        fresh(6, 2, 2, Color::Red1),
        fresh(7, 2, 3, Color::Red2),
        fresh(8, 2, 4, Color::Yellow1),
        fresh(9, 2, 5, Color::Yellow2),
        fresh(10, 3, 3, Color::Gray1),
        fresh(11, 3, 4, Color::Gray2),
    ]
}

/// The piece of the catalog with identity `id`, turned by a quarter where
/// `rotated` is set.
pub open spec fn oriented(id: u8, rotated: bool) -> Piece {
    if rotated {
        catalog()[id - 1].turned()
    } else {
        catalog()[id - 1]
    }
}

/// Sum of the areas of the first `n` of `pieces`.
pub open spec fn area_of_first(pieces: Seq<Piece>, n: int) -> int
    decreases n,
{
    if n <= 0 {
        0
    } else {
        area_of_first(pieces, n - 1) + pieces[n - 1].cells()
    }
}

/// Sum of the areas of `pieces`.
pub open spec fn total_area(pieces: Seq<Piece>) -> int {
    area_of_first(pieces, pieces.len() as int)
}

/// The area of each piece of the catalog, by index.
pub proof fn lemma_catalog_areas()
    ensures
        catalog().len() == 11,
        catalog()[0].cells() == 1,
        catalog()[1].cells() == 2,
        catalog()[2].cells() == 3,
        catalog()[3].cells() == 4,
        catalog()[4].cells() == 5,
        catalog()[5].cells() == 4,
        catalog()[6].cells() == 6,
        catalog()[7].cells() == 8,
        catalog()[8].cells() == 10,
        catalog()[9].cells() == 9,
        catalog()[10].cells() == 12,
        forall|i: int| 0 <= i < 11 ==> 1 <= #[trigger] catalog()[i].cells() <= 12,
{
    let c = catalog();
    assert(c[0] == fresh(1, 1, 1, Color::Black1));
    assert(c[1] == fresh(2, 1, 2, Color::Black2));
    assert(c[2] == fresh(3, 1, 3, Color::Black3));
    assert(c[3] == fresh(4, 1, 4, Color::Blue1));
    assert(c[4] == fresh(5, 1, 5, Color::Blue2));
    assert(c[5] == fresh(6, 2, 2, Color::Red1));
    assert(c[6] == fresh(7, 2, 3, Color::Red2));
    assert(c[7] == fresh(8, 2, 4, Color::Yellow1));
    assert(c[8] == fresh(9, 2, 5, Color::Yellow2));
    assert(c[9] == fresh(10, 3, 3, Color::Gray1));
    assert(c[10] == fresh(11, 3, 4, Color::Gray2));
    assert(c[0].cells() == 1) by (nonlinear_arith)
        requires
            c[0].width == 1,
            c[0].height == 1,
    ;
    assert(c[1].cells() == 2) by (nonlinear_arith)
        requires
            c[1].width == 1,
            c[1].height == 2,
    ;
    assert(c[2].cells() == 3) by (nonlinear_arith)
        requires
            c[2].width == 1,
            c[2].height == 3,
    ;
    assert(c[3].cells() == 4) by (nonlinear_arith)
        requires
            c[3].width == 1,
            c[3].height == 4,
    ;
    assert(c[4].cells() == 5) by (nonlinear_arith)
        requires
            c[4].width == 1,
            c[4].height == 5,
    ;
    assert(c[5].cells() == 4) by (nonlinear_arith)
        requires
            c[5].width == 2,
            c[5].height == 2,
    ;
    assert(c[6].cells() == 6) by (nonlinear_arith)
        requires
            c[6].width == 2,
            c[6].height == 3,
    ;
    assert(c[7].cells() == 8) by (nonlinear_arith)
        requires
            c[7].width == 2,
            c[7].height == 4,
    ;
    assert(c[8].cells() == 10) by (nonlinear_arith)
        requires
            c[8].width == 2,
            c[8].height == 5,
    ;
    assert(c[9].cells() == 9) by (nonlinear_arith)
        requires
            c[9].width == 3,
            c[9].height == 3,
    ;
    assert(c[10].cells() == 12) by (nonlinear_arith)
        requires
            c[10].width == 3,
            c[10].height == 4,
    ;
}

/// The piece at index `i` of the catalog has identity `i + 1`, lies in its
/// original orientation, and is at most 3 cells wide and 5 cells high.
pub proof fn lemma_catalog_pieces()
    ensures
        catalog().len() == 11,
        forall|i: int|
            0 <= i < 11 ==> {
                &&& (#[trigger] catalog()[i]).id == i + 1
                &&& !catalog()[i].rotated
                &&& 1 <= catalog()[i].width <= 3
                &&& 1 <= catalog()[i].height <= 5
            },
{
}

/// The catalog holds eleven pieces, the piece at index `i` has identity
/// `i + 1`, and their areas sum to 64, the number of cells of the grid.
pub proof fn lemma_catalog()
    ensures
        catalog().len() == 11,
        forall|i: int| 0 <= i < 11 ==> #[trigger] catalog()[i].id == i + 1,
        total_area(catalog()) == 64,
{
    let c = catalog();
    lemma_catalog_areas();
    reveal_with_fuel(area_of_first, 12);
}

/// The eleven pieces of the catalog, each in its original orientation.
pub fn get_standard_pieces() -> (pieces: Vec<Piece>)
    ensures
        pieces@ == catalog(),
{
    let pieces = vec![
        Piece::new(1, 1, 1, Color::Black1),
        Piece::new(2, 1, 2, Color::Black2),
        Piece::new(3, 1, 3, Color::Black3),
        Piece::new(4, 1, 4, Color::Blue1),
        Piece::new(5, 1, 5, Color::Blue2),
        Piece::new(6, 2, 2, Color::Red1),
        Piece::new(7, 2, 3, Color::Red2),
        Piece::new(8, 2, 4, Color::Yellow1),
        Piece::new(9, 2, 5, Color::Yellow2),
        Piece::new(10, 3, 3, Color::Gray1),
        Piece::new(11, 3, 4, Color::Gray2),
    ];
    assert(pieces@ =~= catalog());
    pieces
}

/// The piece of the catalog with identity `id`, or `None` when `id` is not
/// between 1 and 11.
pub fn get_piece_by_id(id: u8) -> (piece: Option<Piece>)
    ensures
        1 <= id <= 11 ==> piece == Some(catalog()[id - 1]),
        !(1 <= id <= 11) ==> piece is None,
{
    if id >= 1 && id <= 11 {
        let pieces = get_standard_pieces();
        Some(pieces[(id - 1) as usize])
    } else {
        None
    }
}

/// Whether the areas of the catalog's pieces sum to 64, the number of cells
/// of the grid. They do.
pub fn verify_total_area() -> (ok: bool)
    ensures
        ok == (total_area(catalog()) == 64),
        ok,
{
    let pieces = get_standard_pieces();
    let mut total: usize = 0;
    let mut i: usize = 0;
    proof {
        lemma_catalog();
    }
    while i < pieces.len()
        invariant
            i <= pieces@.len(),
            pieces@ == catalog(),
            total == area_of_first(pieces@, i as int),
            total <= 12 * i,
        decreases pieces@.len() - i,
    {
        proof {
            lemma_catalog_areas();
        }
        total += pieces[i].area();
        i += 1;
    }
    total == 64
}

} // verus!
