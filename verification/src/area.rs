//! The area law: on a grid that pieces were put on, the cells that are no
//! longer empty are as many as the pieces cover. A cover of the empty grid
//! therefore holds every piece of the catalog.

use vstd::prelude::*;
use crate::board::{covers, empty_among, empty_cells, empty_count, full, mark, placeable, with_piece};
use crate::piece::{area_of_first, catalog, lemma_catalog, lemma_catalog_areas};
use crate::solver::tilings;
use crate::tiling::{
    distinct_pieces,
    extends,
    is_catalog_pool,
    is_exact_cover,
    lemma_tilings_cover,
    occupies,
    pieces_stand,
    placed_piece,
    stands,
    trail_covers,
};
use crate::types::{lemma_turn_twice, Piece, Placement, Tiling};

verus! {

/// The number of cells that the pieces of the first `n` placements cover.
pub open spec fn area_of_trail(trail: Seq<Placement>, n: int) -> int
    decreases n,
{
    if n <= 0 {
        0
    } else {
        area_of_trail(trail, n - 1) + placed_piece(trail[n - 1]).cells()
    }
}

/// Whether a placement of `trail` put the piece `id`.
pub open spec fn puts(trail: Seq<Placement>, id: int) -> bool {
    exists|k: int| 0 <= k < trail.len() && (#[trigger] trail[k]).piece_id == id
}

/// What the pieces with identities 1 to `upto` that `trail` puts weigh
/// together: each its area, or each 1 where `unit` is set.
pub open spec fn weight_put(trail: Seq<Placement>, upto: int, unit: bool) -> int
    decreases upto,
{
    if upto <= 0 {
        0
    } else {
        weight_put(trail, upto - 1, unit) + if puts(trail, upto) {
            if unit {
                1
            } else {
                catalog()[upto - 1].cells()
            }
        } else {
            0
        }
    }
}

/// The cells with the rectangle of `piece` filled row by row up to, but not
/// with, the cell (`r`, `c`).
spec fn filled(cells: Seq<i8>, piece: Piece, row: int, col: int, r: int, c: int) -> Seq<i8> {
    Seq::new(
        64,
        |i: int|
            if covers(piece, row, col, i) && (i / 8 < r || (i / 8 == r && i % 8 < c)) {
                mark(piece.id)
            } else {
                cells[i]
            },
    )
}

/// Writing a value other than 0 to an empty cell leaves one empty cell less.
proof fn lemma_empty_after_write(cells: Seq<i8>, at: int, value: i8, n: nat)
    requires
        cells.len() == 64,
        0 <= at < 64,
        cells[at] == 0,
        value != 0,
        n <= 64,
    ensures
        empty_among(cells.update(at, value), n) + (if at < n {
            1int
        } else {
            0int
        }) == empty_among(cells, n),
    decreases n,
{
    if n > 0 {
        lemma_empty_after_write(cells, at, value, (n - 1) as nat);
    }
}

proof fn lemma_empty_after_fill(cells: Seq<i8>, piece: Piece, row: int, col: int, r: int, c: int)
    requires
        cells.len() == 64,
        0 <= row,
        0 <= col,
        placeable(cells, piece, row, col),
        mark(piece.id) != 0,
        row <= r < row + piece.height,
        col <= c <= col + piece.width,
    ensures
        empty_count(filled(cells, piece, row, col, r, c)) + piece.width * (r - row) + (c - col)
            == empty_count(cells),
    decreases r - row, c - col,
{
    let now = filled(cells, piece, row, col, r, c);
    if c > col {
        let before = filled(cells, piece, row, col, r, c - 1);
        lemma_empty_after_fill(cells, piece, row, col, r, c - 1);
        let at = r * 8 + (c - 1);
        assert(covers(piece, row, col, at));
        assert(before[at] == 0);
        assert(now =~= before.update(at, mark(piece.id)));
        lemma_empty_after_write(before, at, mark(piece.id), 64);
    } else if r > row {
        let before = filled(cells, piece, row, col, r - 1, col + piece.width);
        lemma_empty_after_fill(cells, piece, row, col, r - 1, col + piece.width);
        assert(now =~= before);
        assert(piece.width * (r - 1 - row) + piece.width == piece.width * (r - row))
            by (nonlinear_arith);
    } else {
        assert(now =~= cells);
        assert(piece.width * 0 == 0) by (nonlinear_arith);
    }
}

/// Putting a piece leaves as many empty cells less as the piece covers.
pub proof fn lemma_empty_after_place(cells: Seq<i8>, piece: Piece, row: int, col: int)
    requires
        cells.len() == 64,
        0 <= row,
        0 <= col,
        placeable(cells, piece, row, col),
        mark(piece.id) != 0,
    ensures
        empty_count(with_piece(cells, piece, row, col)) + piece.cells() == empty_count(cells),
{
    let after = with_piece(cells, piece, row, col);
    if piece.height == 0 || piece.width == 0 {
        assert(after =~= cells);
        assert(piece.width * piece.height == 0) by (nonlinear_arith)
            requires
                piece.height == 0 || piece.width == 0,
        ;
    } else {
        let r = row + piece.height - 1;
        let c = col + piece.width;
        lemma_empty_after_fill(cells, piece, row, col, r, c);
        assert(after =~= filled(cells, piece, row, col, r, c));
        assert(piece.width * (r - row) + piece.width == piece.width * piece.height)
            by (nonlinear_arith)
            requires
                r - row == piece.height - 1,
        ;
    }
}

/// The area law. Where `cells` is the grid `start` with the pieces of
/// `trail` put on it, the empty cells of `cells` and the cells that the
/// pieces cover are together the empty cells of `start`.
pub proof fn lemma_area_of_trail(start: Seq<i8>, cells: Seq<i8>, trail: Seq<Placement>)
    requires
        extends(start, cells, trail),
    ensures
        empty_count(cells) + area_of_trail(trail, trail.len() as int) == empty_count(start),
    decreases trail.len(),
{
    if trail.len() == 0 {
        assert forall|i: int| 0 <= i < 64 implies !trail_covers(trail, i) by {}
        assert(cells =~= start);
    } else {
        let last = trail.last();
        let rest = trail.drop_last();
        let piece = placed_piece(last);
        let less = Seq::new(
            64,
            |i: int|
                if occupies(last, i) {
                    0i8
                } else {
                    cells[i]
                },
        );
        assert(stands(cells, last));
        assert forall|k: int| 0 <= k < rest.len() implies stands(less, #[trigger] rest[k]) by {
            assert(rest[k] == trail[k]);
            assert(stands(cells, trail[k]));
            assert forall|i: int| 0 <= i < 64 && occupies(rest[k], i) implies #[trigger] less[i]
                == rest[k].piece_id by {
                assert(cells[i] == trail[k].piece_id);
                if occupies(last, i) {
                    assert(cells[i] == last.piece_id);
                    assert(trail[k].piece_id != trail[trail.len() - 1].piece_id);
                }
            }
        }
        assert(distinct_pieces(rest)) by {
            assert forall|j: int, k: int| 0 <= j < k < rest.len() implies (#[trigger] rest[j]).piece_id
                != (#[trigger] rest[k]).piece_id by {
                assert(rest[j] == trail[j] && rest[k] == trail[k]);
            }
        }
        assert forall|k: int, i: int|
            0 <= k < rest.len() && 0 <= i < 64 && occupies(
                #[trigger] rest[k],
                i,
            ) implies #[trigger] start[i] == 0 by {
            assert(rest[k] == trail[k]);
        }
        assert forall|i: int| 0 <= i < 64 && !trail_covers(rest, i) implies #[trigger] less[i]
            == start[i] by {
            if occupies(last, i) {
                assert(occupies(trail[trail.len() - 1], i));
                assert(start[i] == 0);
            } else {
                if trail_covers(trail, i) {
                    let k = choose|k: int| 0 <= k < trail.len() && occupies(#[trigger] trail[k], i);
                    assert(rest[k] == trail[k]);
                }
                assert(cells[i] == start[i]);
            }
        }
        assert(extends(start, less, rest));
        lemma_area_of_trail(start, less, rest);
        assert(cells =~= with_piece(less, piece, last.row as int, last.col as int)) by {
            assert forall|i: int| 0 <= i < 64 implies cells[i] == with_piece(
                less,
                piece,
                last.row as int,
                last.col as int,
            )[i] by {
                if occupies(last, i) {
                    assert(cells[i] == last.piece_id);
                }
            }
        }
        lemma_empty_after_place(less, piece, last.row as int, last.col as int);
        lemma_area_prefix(trail, rest, rest.len() as int);
    }
}

/// The area of the first placements of a trail does not depend on what follows.
proof fn lemma_area_prefix(trail: Seq<Placement>, rest: Seq<Placement>, n: int)
    requires
        0 <= n <= rest.len() <= trail.len(),
        forall|k: int| 0 <= k < rest.len() ==> rest[k] == trail[k],
    ensures
        area_of_trail(rest, n) == area_of_trail(trail, n),
    decreases n,
{
    if n > 0 {
        lemma_area_prefix(trail, rest, n - 1);
    }
}

/// A placement more, of a piece that the trail did not put, adds that
/// piece's weight.
proof fn lemma_weight_of_longer(trail: Seq<Placement>, added: Placement, upto: int, unit: bool)
    requires
        0 <= upto <= 11,
        1 <= added.piece_id <= 11,
        !puts(trail, added.piece_id as int),
    ensures
        weight_put(trail.push(added), upto, unit) == weight_put(trail, upto, unit) + if added.piece_id
            <= upto {
            if unit {
                1
            } else {
                catalog()[added.piece_id - 1].cells()
            }
        } else {
            0
        },
    decreases upto,
{
    if upto > 0 {
        lemma_weight_of_longer(trail, added, upto - 1, unit);
        let longer = trail.push(added);
        if puts(longer, upto) {
            let k = choose|k: int| 0 <= k < longer.len() && (#[trigger] longer[k]).piece_id == upto;
            if k < trail.len() {
                assert(trail[k] == longer[k]);
            }
        }
        if puts(trail, upto) {
            let k = choose|k: int| 0 <= k < trail.len() && (#[trigger] trail[k]).piece_id == upto;
            assert(longer[k] == trail[k]);
        }
        if added.piece_id == upto {
            assert(longer[trail.len() as int] == added);
        }
    }
}

/// The pieces of a trail that puts no piece twice cover what the pieces it
/// puts weigh by area, and are as many as they weigh by unit.
proof fn lemma_weight_of_trail(trail: Seq<Placement>)
    requires
        distinct_pieces(trail),
        forall|k: int| 0 <= k < trail.len() ==> 1 <= (#[trigger] trail[k]).piece_id <= 11,
    ensures
        weight_put(trail, 11, false) == area_of_trail(trail, trail.len() as int),
        weight_put(trail, 11, true) == trail.len(),
    decreases trail.len(),
{
    if trail.len() == 0 {
        lemma_weight_of_none(trail, 11, false);
        lemma_weight_of_none(trail, 11, true);
    } else {
        let last = trail.last();
        let rest = trail.drop_last();
        assert(trail =~= rest.push(last));
        assert forall|k: int| 0 <= k < rest.len() implies 1 <= (#[trigger] rest[k]).piece_id
            <= 11 by {
            assert(rest[k] == trail[k]);
        }
        assert(distinct_pieces(rest)) by {
            assert forall|j: int, k: int| 0 <= j < k < rest.len() implies (#[trigger] rest[j]).piece_id
                != (#[trigger] rest[k]).piece_id by {
                assert(rest[j] == trail[j] && rest[k] == trail[k]);
            }
        }
        assert(!puts(rest, last.piece_id as int)) by {
            if puts(rest, last.piece_id as int) {
                let k = choose|k: int|
                    0 <= k < rest.len() && (#[trigger] rest[k]).piece_id == last.piece_id;
                assert(rest[k] == trail[k]);
                assert(trail[k].piece_id != trail[trail.len() - 1].piece_id);
            }
        }
        lemma_weight_of_trail(rest);
        lemma_weight_of_longer(rest, last, 11, false);
        lemma_weight_of_longer(rest, last, 11, true);
        lemma_area_prefix(trail, rest, rest.len() as int);
        lemma_turn_twice(catalog()[last.piece_id - 1]);
    }
}

proof fn lemma_weight_of_none(trail: Seq<Placement>, upto: int, unit: bool)
    requires
        trail.len() == 0,
        0 <= upto,
    ensures
        weight_put(trail, upto, unit) == 0,
    decreases upto,
{
    if upto > 0 {
        lemma_weight_of_none(trail, upto - 1, unit);
    }
}

/// The pieces that a trail puts weigh no more than the catalog's first
/// pieces together, and as much only where the trail puts each of them.
proof fn lemma_weight_bound(trail: Seq<Placement>, upto: int)
    requires
        0 <= upto <= 11,
    ensures
        weight_put(trail, upto, false) <= area_of_first(catalog(), upto),
        weight_put(trail, upto, true) <= upto,
        weight_put(trail, upto, false) == area_of_first(catalog(), upto) ==> weight_put(
            trail,
            upto,
            true,
        ) == upto && forall|id: int| 1 <= id <= upto ==> puts(trail, id),
    decreases upto,
{
    if upto > 0 {
        lemma_weight_bound(trail, upto - 1);
        lemma_catalog_areas();
        assert(catalog()[upto - 1].cells() >= 1);
    }
}

/// Every solution that the search finds on the empty grid with pieces of
/// the catalog is a full grid that holds each piece of the catalog once.
pub proof fn lemma_solutions_of_catalog(pool: Seq<Piece>)
    requires
        is_catalog_pool(pool),
    ensures
        forall|j: int|
            0 <= j < tilings(empty_cells(), pool, Seq::empty()).len() ==> {
                let found = #[trigger] tilings(empty_cells(), pool, Seq::empty())[j];
                &&& is_exact_cover(empty_cells(), found)
                &&& found.trail.len() == 11
                &&& forall|id: int| 1 <= id <= 11 ==> puts(found.trail, id)
            },
{
    let start = empty_cells();
    let none = Seq::<Placement>::empty();
    assert(extends(start, start, none)) by {
        assert(pieces_stand(start, none));
    }
    lemma_tilings_cover(start, start, pool, none);
    assert forall|j: int| 0 <= j < tilings(start, pool, none).len() implies {
        let found = #[trigger] tilings(start, pool, none)[j];
        &&& is_exact_cover(start, found)
        &&& found.trail.len() == 11
        &&& forall|id: int| 1 <= id <= 11 ==> puts(found.trail, id)
    } by {
        lemma_cover_is_complete(tilings(start, pool, none)[j]);
    }
}

/// A cover of the empty grid holds every piece of the catalog once: it has
/// eleven placements, one for each identity from 1 to 11.
pub proof fn lemma_cover_is_complete(tiling: Tiling)
    requires
        is_exact_cover(empty_cells(), tiling),
    ensures
        tiling.trail.len() == 11,
        forall|id: int| 1 <= id <= 11 ==> puts(tiling.trail, id),
{
    let trail = tiling.trail;
    lemma_area_of_trail(empty_cells(), tiling.cells, trail);
    lemma_empty_of_full(tiling.cells, 64);
    lemma_empty_of_empty(64);
    assert forall|k: int| 0 <= k < trail.len() implies 1 <= (#[trigger] trail[k]).piece_id
        <= 11 by {
        assert(stands(tiling.cells, trail[k]));
    }
    lemma_weight_of_trail(trail);
    lemma_weight_bound(trail, 11);
    lemma_catalog();
}

/// A full grid has no empty cell.
proof fn lemma_empty_of_full(cells: Seq<i8>, n: nat)
    requires
        full(cells),
        n <= 64,
    ensures
        empty_among(cells, n) == 0,
    decreases n,
{
    if n > 0 {
        lemma_empty_of_full(cells, (n - 1) as nat);
    }
}

/// Each cell of the empty grid is empty.
proof fn lemma_empty_of_empty(n: nat)
    requires
        n <= 64,
    ensures
        empty_among(empty_cells(), n) == n,
    decreases n,
{
    if n > 0 {
        lemma_empty_of_empty((n - 1) as nat);
    }
}

} // verus!
