//! The catalog covers the empty grid: one cover, written out, and what
//! follows from it for the search.

use vstd::prelude::*;
use crate::board::{covers, empty_cells, full};
use crate::piece::{catalog, fresh, lemma_catalog_pieces};
use crate::area::lemma_solutions_of_catalog;
use crate::solver::{search, tilings};
use crate::complete::{lemma_search_finds, reaches};
use crate::tiling::{
    distinct_pieces,
    extends,
    has_piece,
    is_catalog_pool,
    is_exact_cover,
    occupies,
    stands,
    taken_from,
    trail_covers,
};
use crate::types::{Color, Piece, Placement};

verus! {

/// A placement, from its four parts.
pub open spec fn put(piece_id: u8, row: usize, col: usize, rotated: bool) -> Placement {
    Placement { piece_id, row, col, rotated }
}

/// Eleven placements that cover the empty grid:
///
/// ```text
/// 1 2 3 7 7 A A A
/// 5 2 3 7 7 A A A
/// 5 4 3 7 7 A A A
/// 5 4 8 8 8 8 9 9
/// 5 4 8 8 8 8 9 9
/// 5 4 B B B B 9 9
/// 6 6 B B B B 9 9
/// 6 6 B B B B 9 9
/// ```
pub open spec fn sample_trail() -> Seq<Placement> {
    seq![
        put(1, 0, 0, false),
        put(2, 0, 1, false),
        put(3, 0, 2, false),
        put(7, 0, 3, false),
        put(10, 0, 5, false),
        put(5, 1, 0, false),
        put(4, 2, 1, false),
        put(8, 3, 2, true),
        put(9, 3, 6, false),
        put(11, 5, 2, true),
        put(6, 6, 0, false),
    ]
}

/// The identity of the piece of `trail` that covers the cell with index `i`,
/// the first one where several do, or 0 where none does.
pub open spec fn owner(trail: Seq<Placement>, i: int, from: int) -> i8
    decreases trail.len() - from,
{
    if from < 0 || from >= trail.len() {
        0i8
    } else if occupies(trail[from], i) {
        trail[from].piece_id as i8
    } else {
        owner(trail, i, from + 1)
    }
}

/// The grid that the placements of the sample cover give.
pub open spec fn sample_cells() -> Seq<i8> {
    Seq::new(64, |i: int| owner(sample_trail(), i, 0))
}

/// Whether the cell with index `i` lies in the rectangle of the given width
/// and height whose top-left corner is at (`row`, `col`).
spec fn within(i: int, row: int, col: int, width: int, height: int) -> bool {
    &&& row <= i / 8 < row + height
    &&& col <= i % 8 < col + width
}

/// The rectangle of each placement of the sample cover.
proof fn lemma_sample_rectangles()
    ensures
        sample_trail().len() == 11,
        sample_trail()[0] == put(1, 0, 0, false),
        sample_trail()[1] == put(2, 0, 1, false),
        sample_trail()[2] == put(3, 0, 2, false),
        sample_trail()[3] == put(7, 0, 3, false),
        sample_trail()[4] == put(10, 0, 5, false),
        sample_trail()[5] == put(5, 1, 0, false),
        sample_trail()[6] == put(4, 2, 1, false),
        sample_trail()[7] == put(8, 3, 2, true),
        sample_trail()[8] == put(9, 3, 6, false),
        sample_trail()[9] == put(11, 5, 2, true),
        sample_trail()[10] == put(6, 6, 0, false),
        forall|i: int| occupies(sample_trail()[0], i) <==> within(i, 0, 0, 1, 1),
        forall|i: int| occupies(sample_trail()[1], i) <==> within(i, 0, 1, 1, 2),
        forall|i: int| occupies(sample_trail()[2], i) <==> within(i, 0, 2, 1, 3),
        forall|i: int| occupies(sample_trail()[3], i) <==> within(i, 0, 3, 2, 3),
        forall|i: int| occupies(sample_trail()[4], i) <==> within(i, 0, 5, 3, 3),
        forall|i: int| occupies(sample_trail()[5], i) <==> within(i, 1, 0, 1, 5),
        forall|i: int| occupies(sample_trail()[6], i) <==> within(i, 2, 1, 1, 4),
        forall|i: int| occupies(sample_trail()[7], i) <==> within(i, 3, 2, 4, 2),
        forall|i: int| occupies(sample_trail()[8], i) <==> within(i, 3, 6, 2, 5),
        forall|i: int| occupies(sample_trail()[9], i) <==> within(i, 5, 2, 4, 3),
        forall|i: int| occupies(sample_trail()[10], i) <==> within(i, 6, 0, 2, 2),
{
    let c = catalog();
    assert(c[0] == fresh(1, 1, 1, Color::Black1));
    assert(c[1] == fresh(2, 1, 2, Color::Black2));
    assert(c[2] == fresh(3, 1, 3, Color::Black3));
    assert(c[3] == fresh(4, 1, 4, Color::Blue1));
    assert(c[4] == fresh(5, 1, 5, Color::Blue2));
    assert(c[5] == fresh(6, 2, 2, Color::Red1));
    assert(c[6] == fresh(7, 2, 3, Color::Red2));
    assert(c[7] == fresh(8, 2, 4, Color::Yellow1));
    assert(c[8] == fresh(9, 2, 5, Color::Yellow2));
    assert(c[9] == fresh(10, 3, 3, Color::Gray1));
    assert(c[10] == fresh(11, 3, 4, Color::Gray2));
}

/// The owner of each cell of the sample cover, by the rectangle it lies in.
proof fn lemma_sample_owner(i: int)
    requires
        0 <= i < 64,
    ensures
        sample_cells()[i] == owner(sample_trail(), i, 0),
        within(i, 0, 0, 1, 1) ==> sample_cells()[i] == 1,
        within(i, 0, 1, 1, 2) ==> sample_cells()[i] == 2,
        within(i, 0, 2, 1, 3) ==> sample_cells()[i] == 3,
        within(i, 0, 3, 2, 3) ==> sample_cells()[i] == 7,
        within(i, 0, 5, 3, 3) ==> sample_cells()[i] == 10,
        within(i, 1, 0, 1, 5) ==> sample_cells()[i] == 5,
        within(i, 2, 1, 1, 4) ==> sample_cells()[i] == 4,
        within(i, 3, 2, 4, 2) ==> sample_cells()[i] == 8,
        within(i, 3, 6, 2, 5) ==> sample_cells()[i] == 9,
        within(i, 5, 2, 4, 3) ==> sample_cells()[i] == 11,
        within(i, 6, 0, 2, 2) ==> sample_cells()[i] == 6,
        sample_cells()[i] != 0,
{
    lemma_sample_rectangles();
    reveal_with_fuel(owner, 12);
}

/// The sample cover is an exact cover of the empty grid.
pub proof fn lemma_sample_cover()
    ensures
        extends(empty_cells(), sample_cells(), sample_trail()),
        full(sample_cells()),
        sample_trail().len() == 11,
        forall|k: int| 0 <= k < 11 ==> 1 <= (#[trigger] sample_trail()[k]).piece_id <= 11,
{
    let trail = sample_trail();
    let cells = sample_cells();
    lemma_sample_rectangles();
    lemma_catalog_pieces();
    assert forall|i: int| 0 <= i < 64 implies #[trigger] cells[i] != 0 by {
        lemma_sample_owner(i);
    }
    assert forall|k: int| 0 <= k < trail.len() implies stands(cells, #[trigger] trail[k]) by {
        assert forall|i: int| 0 <= i < 64 && occupies(trail[k], i) implies #[trigger] cells[i]
            == trail[k].piece_id by {
            lemma_sample_owner(i);
        }
    }
    assert forall|i: int| 0 <= i < 64 && !trail_covers(trail, i) implies #[trigger] cells[i]
        == empty_cells()[i] by {
        lemma_sample_owner(i);
        lemma_owner_covers(trail, i, 0);
    }
    assert(distinct_pieces(trail));
}

/// A cell that has an owner is covered.
proof fn lemma_owner_covers(trail: Seq<Placement>, i: int, from: int)
    requires
        0 <= from,
        owner(trail, i, from) != 0,
    ensures
        trail_covers(trail, i),
    decreases trail.len() - from,
{
    if from < trail.len() {
        if !occupies(trail[from], i) {
            lemma_owner_covers(trail, i, from + 1);
        }
    }
}

/// Whether `pool` holds a piece for each identity of the catalog.
pub open spec fn holds_each_piece(pool: Seq<Piece>) -> bool {
    forall|id: u8| 1 <= id <= 11 ==> #[trigger] has_piece(pool, id)
}

/// The search always finds a tiling of the empty grid with the pieces of
/// the whole catalog, in whatever order and orientation they lie in the pool.
pub proof fn lemma_catalog_covers_grid(pool: Seq<Piece>)
    requires
        is_catalog_pool(pool),
        holds_each_piece(pool),
    ensures
        tilings(empty_cells(), pool, Seq::empty()).len() > 0,
        reaches(tilings(empty_cells(), pool, Seq::empty()), sample_cells()),
{
    lemma_sample_cover();
    assert(taken_from(pool, sample_trail())) by {
        assert forall|k: int| 0 <= k < sample_trail().len() implies has_piece(
            pool,
            (#[trigger] sample_trail()[k]).piece_id,
        ) by {}
    }
    lemma_search_finds(empty_cells(), pool, Seq::empty(), sample_cells(), sample_trail());
}

/// The catalog, as it stands, is a pool that holds each of its pieces.
pub proof fn lemma_catalog_is_pool()
    ensures
        is_catalog_pool(catalog()),
        holds_each_piece(catalog()),
{
    lemma_catalog_pieces();
    assert forall|id: u8| 1 <= id <= 11 implies #[trigger] has_piece(catalog(), id) by {
        assert(catalog()[id - 1].id == id);
    }
}

/// A search of the empty grid with the whole catalog and a cap of at least
/// 1 finds a solution, and each solution it finds is a full grid that holds
/// each of the eleven pieces once.
pub proof fn lemma_search_of_catalog(pool: Seq<Piece>, cap: int)
    requires
        is_catalog_pool(pool),
        holds_each_piece(pool),
        cap >= 1,
    ensures
        search(empty_cells(), pool, cap).len() >= 1,
        forall|j: int|
            0 <= j < search(empty_cells(), pool, cap).len() ==> {
                let found = #[trigger] search(empty_cells(), pool, cap)[j];
                &&& is_exact_cover(empty_cells(), found)
                &&& found.trail.len() == 11
            },
{
    lemma_catalog_covers_grid(pool);
    lemma_solutions_of_catalog(pool);
    let all = tilings(empty_cells(), pool, Seq::empty());
    assert forall|j: int| 0 <= j < search(empty_cells(), pool, cap).len() implies {
        let found = #[trigger] search(empty_cells(), pool, cap)[j];
        &&& is_exact_cover(empty_cells(), found)
        &&& found.trail.len() == 11
    } by {
        assert(search(empty_cells(), pool, cap)[j] == all[j]);
    }
}

} // verus!
