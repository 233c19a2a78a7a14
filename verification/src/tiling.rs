//! What the search's solutions are: laws that hold of every tiling it finds.

use vstd::prelude::*;
use crate::board::{
    covers,
    first_empty,
    fits,
    full,
    is_first_empty,
    lemma_first_empty_exists,
    mark,
    placeable,
    with_piece,
};
use crate::piece::{catalog, lemma_catalog_pieces, oriented};
use crate::solver::{
    placement_of,
    tilings,
    tilings_from,
    tilings_oriented,
    tilings_with,
};
use crate::types::{Piece, Placement, Tiling};

verus! {

/// Whether `piece` is a piece of the catalog, as it lies there or turned.
pub open spec fn is_catalog_piece(piece: Piece) -> bool {
    &&& 1 <= piece.id <= 11
    &&& (piece == catalog()[piece.id - 1] || piece == catalog()[piece.id - 1].turned())
}

/// Whether `pool` holds pieces of the catalog, no identity twice.
pub open spec fn is_catalog_pool(pool: Seq<Piece>) -> bool {
    &&& forall|i: int| 0 <= i < pool.len() ==> is_catalog_piece(#[trigger] pool[i])
    &&& forall|i: int, j: int|
        0 <= i < j < pool.len() ==> (#[trigger] pool[i]).id != (#[trigger] pool[j]).id
}

/// The piece that `placement` put: the catalog's piece of that identity,
/// turned where the placement says so.
pub open spec fn placed_piece(placement: Placement) -> Piece {
    oriented(placement.piece_id, placement.rotated)
}

/// Whether the piece of `placement` covers the cell with row-major index `i`.
pub open spec fn occupies(placement: Placement, i: int) -> bool {
    covers(placed_piece(placement), placement.row as int, placement.col as int, i)
}

/// Whether some placement of `trail` covers the cell with index `i`.
pub open spec fn trail_covers(trail: Seq<Placement>, i: int) -> bool {
    exists|k: int| 0 <= k < trail.len() && occupies(#[trigger] trail[k], i)
}

/// Whether the piece of `placement` stands on the grid: it is a piece of the
/// catalog, lies inside the grid, and each cell it covers holds its identity.
pub open spec fn stands(cells: Seq<i8>, placement: Placement) -> bool {
    &&& 1 <= placement.piece_id <= 11
    &&& fits(placed_piece(placement), placement.row as int, placement.col as int)
    &&& forall|i: int|
        0 <= i < 64 && occupies(placement, i) ==> #[trigger] cells[i] == placement.piece_id
}

/// Whether no two placements of `trail` put the same piece.
pub open spec fn distinct_pieces(trail: Seq<Placement>) -> bool {
    forall|j: int, k: int|
        0 <= j < k < trail.len() ==> (#[trigger] trail[j]).piece_id != (#[trigger] trail[k]).piece_id
}

/// Whether the pieces of `trail` stand on the grid, no piece twice.
pub open spec fn pieces_stand(cells: Seq<i8>, trail: Seq<Placement>) -> bool {
    &&& cells.len() == 64
    &&& distinct_pieces(trail)
    &&& forall|k: int| 0 <= k < trail.len() ==> stands(cells, #[trigger] trail[k])
}

/// Whether `cells` is the grid `start` with the pieces of `trail` put on it:
/// each piece stands on cells that were empty in `start`, no piece is put
/// twice, and a cell that no piece covers is as it was in `start`.
pub open spec fn extends(start: Seq<i8>, cells: Seq<i8>, trail: Seq<Placement>) -> bool {
    &&& start.len() == 64
    &&& pieces_stand(cells, trail)
    &&& forall|k: int, i: int|
        0 <= k < trail.len() && 0 <= i < 64 && occupies(#[trigger] trail[k], i) ==> #[trigger] start[i]
            == 0
    &&& forall|i: int| 0 <= i < 64 && !trail_covers(trail, i) ==> #[trigger] cells[i] == start[i]
}

/// Whether `tiling` is an exact cover of the grid `start`: its grid is
/// `start` with the pieces of its trail put on it, and no cell is empty.
pub open spec fn is_exact_cover(start: Seq<i8>, tiling: Tiling) -> bool {
    &&& extends(start, tiling.cells, tiling.trail)
    &&& full(tiling.cells)
}

/// Whether no placement of `trail` put a piece with the identity of a piece
/// of `pool`.
pub open spec fn unplaced(pool: Seq<Piece>, trail: Seq<Placement>) -> bool {
    forall|i: int, k: int|
        0 <= i < pool.len() && 0 <= k < trail.len() ==> (#[trigger] pool[i]).id != (
        #[trigger] trail[k]).piece_id
}

/// A placement made from a piece of the catalog puts that piece. Such a
/// piece is a piece of the catalog when turned, too, and is between one and
/// five cells wide and high.
pub proof fn lemma_placed_piece(piece: Piece, at: int)
    requires
        is_catalog_piece(piece),
        0 <= at < 64,
    ensures
        placed_piece(placement_of(piece, at)) == piece,
        placement_of(piece, at).row == at / 8,
        placement_of(piece, at).col == at % 8,
        placement_of(piece, at).piece_id == piece.id,
        is_catalog_piece(piece.turned()),
        1 <= piece.width <= 5,
        1 <= piece.height <= 5,
{
    lemma_catalog_pieces();
    let original = catalog()[piece.id - 1];
    assert(original.id == piece.id && !original.rotated);
    assert(original.turned().turned() == original);
}

/// Putting a piece of the catalog at the first empty cell keeps the grid an
/// extension of `start`, with the placement added to the trail.
proof fn lemma_extends_step(
    start: Seq<i8>,
    cells: Seq<i8>,
    trail: Seq<Placement>,
    piece: Piece,
    at: int,
)
    requires
        extends(start, cells, trail),
        is_catalog_piece(piece),
        is_first_empty(cells, at),
        placeable(cells, piece, at / 8, at % 8),
        forall|k: int| 0 <= k < trail.len() ==> (#[trigger] trail[k]).piece_id != piece.id,
    ensures
        extends(
            start,
            with_piece(cells, piece, at / 8, at % 8),
            trail.push(placement_of(piece, at)),
        ),
{
    let row = at / 8;
    let col = at % 8;
    let after = with_piece(cells, piece, row, col);
    let added = placement_of(piece, at);
    let longer = trail.push(added);
    lemma_placed_piece(piece, at);
    assert forall|i: int| 0 <= i < 64 && occupies(added, i) implies #[trigger] after[i]
        == added.piece_id && cells[i] == 0 && !trail_covers(trail, i) && start[i] == 0 by {
        assert(covers(piece, row, col, i));
        assert(cells[i] == 0);
        assert(after[i] == mark(piece.id));
        assert(mark(piece.id) == piece.id);
        if trail_covers(trail, i) {
            let k = choose|k: int| 0 <= k < trail.len() && occupies(#[trigger] trail[k], i);
            assert(stands(cells, trail[k]));
            assert(cells[i] == trail[k].piece_id);
        }
        assert(!trail_covers(trail, i));
        assert(cells[i] == start[i]);
    }
    assert forall|k: int| 0 <= k < longer.len() implies stands(after, #[trigger] longer[k]) by {
        if k < trail.len() {
            assert(longer[k] == trail[k]);
            assert(stands(cells, trail[k]));
            assert forall|i: int| 0 <= i < 64 && occupies(trail[k], i) implies #[trigger] after[i]
                == trail[k].piece_id by {
                assert(cells[i] == trail[k].piece_id);
            }
        } else {
            assert(longer[k] == added);
        }
    }
    assert forall|k: int, i: int|
        0 <= k < longer.len() && 0 <= i < 64 && occupies(
            #[trigger] longer[k],
            i,
        ) implies #[trigger] start[i] == 0 by {
        if k < trail.len() {
            assert(longer[k] == trail[k]);
        } else {
            assert(longer[k] == added);
            assert(after[i] == added.piece_id);
        }
    }
    assert forall|i: int| 0 <= i < 64 && !trail_covers(longer, i) implies #[trigger] after[i]
        == start[i] by {
        assert(!occupies(added, i)) by {
            assert(longer[trail.len() as int] == added);
        }
        if trail_covers(trail, i) {
            let k = choose|k: int| 0 <= k < trail.len() && occupies(#[trigger] trail[k], i);
            assert(longer[k] == trail[k]);
        }
    }
    assert(distinct_pieces(longer)) by {
        assert forall|j: int, k: int| 0 <= j < k < longer.len() implies (#[trigger] longer[j]).piece_id
            != (#[trigger] longer[k]).piece_id by {
            assert(longer[j] == trail[j]);
            if k < trail.len() {
                assert(longer[k] == trail[k]);
            }
        }
    }
}

/// Whether a piece of `pool` has the identity `id`.
pub open spec fn has_piece(pool: Seq<Piece>, id: u8) -> bool {
    exists|i: int| 0 <= i < pool.len() && (#[trigger] pool[i]).id == id
}

/// Whether each piece that `trail` puts has the identity of a piece of `pool`.
pub open spec fn taken_from(pool: Seq<Piece>, trail: Seq<Placement>) -> bool {
    forall|k: int| 0 <= k < trail.len() ==> has_piece(pool, (#[trigger] trail[k]).piece_id)
}

/// Whether the pieces of `more`, taken from `pool` and put on `cells`, cover
/// it exactly and give the grid `target`.
pub open spec fn covers_exactly(
    cells: Seq<i8>,
    pool: Seq<Piece>,
    target: Seq<i8>,
    more: Seq<Placement>,
) -> bool {
    &&& extends(cells, target, more)
    &&& full(target)
    &&& taken_from(pool, more)
}

/// Whether `tiling` is an exact cover of `start` whose trail goes on from
/// `trail` with pieces of `pool`.
pub open spec fn follows(
    start: Seq<i8>,
    pool: Seq<Piece>,
    trail: Seq<Placement>,
    tiling: Tiling,
) -> bool {
    &&& is_exact_cover(start, tiling)
    &&& trail.is_prefix_of(tiling.trail)
    &&& forall|k: int|
        trail.len() <= k < tiling.trail.len() ==> has_piece(
            pool,
            (#[trigger] tiling.trail[k]).piece_id,
        )
}

/// A pool of catalog pieces without one of them is such a pool, and holds no
/// piece with the identity of the one that left.
pub proof fn lemma_pool_without(pool: Seq<Piece>, i: int)
    requires
        is_catalog_pool(pool),
        0 <= i < pool.len(),
    ensures
        is_catalog_pool(pool.remove(i)),
        forall|a: int| 0 <= a < pool.remove(i).len() ==> (#[trigger] pool.remove(i)[a]).id != pool[i].id,
        forall|a: int|
            0 <= a < pool.remove(i).len() ==> #[trigger] pool.remove(i)[a] == pool[if a < i {
                a
            } else {
                a + 1
            }],
{
    let rest = pool.remove(i);
    assert forall|a: int| 0 <= a < rest.len() implies #[trigger] rest[a] == pool[if a < i {
        a
    } else {
        a + 1
    }] by {}
    assert forall|a: int, b: int| 0 <= a < b < rest.len() implies (#[trigger] rest[a]).id != (
    #[trigger] rest[b]).id by {
        assert(rest[a] == pool[if a < i {
            a
        } else {
            a + 1
        }]);
        assert(rest[b] == pool[if b < i {
            b
        } else {
            b + 1
        }]);
    }
}

/// One step of the search keeps what the search relies on: with a piece of
/// the catalog put at the first empty cell, the grid still extends `start`,
/// and the pieces left are not on it.
pub proof fn lemma_step(
    start: Seq<i8>,
    cells: Seq<i8>,
    rest: Seq<Piece>,
    trail: Seq<Placement>,
    piece: Piece,
)
    requires
        extends(start, cells, trail),
        unplaced(rest, trail),
        is_catalog_piece(piece),
        forall|k: int| 0 <= k < trail.len() ==> (#[trigger] trail[k]).piece_id != piece.id,
        forall|a: int| 0 <= a < rest.len() ==> (#[trigger] rest[a]).id != piece.id,
        !full(cells),
        placeable(cells, piece, first_empty(cells) / 8, first_empty(cells) % 8),
    ensures
        extends(
            start,
            with_piece(cells, piece, first_empty(cells) / 8, first_empty(cells) % 8),
            trail.push(placement_of(piece, first_empty(cells))),
        ),
        unplaced(rest, trail.push(placement_of(piece, first_empty(cells)))),
        tilings_oriented(cells, rest, trail, piece) == tilings(
            with_piece(cells, piece, first_empty(cells) / 8, first_empty(cells) % 8),
            rest,
            trail.push(placement_of(piece, first_empty(cells))),
        ),
{
    let at = first_empty(cells);
    let longer = trail.push(placement_of(piece, at));
    lemma_first_empty_exists(cells);
    lemma_extends_step(start, cells, trail, piece, at);
    lemma_placed_piece(piece, at);
    assert forall|a: int, k: int| 0 <= a < rest.len() && 0 <= k < longer.len() implies (
    #[trigger] rest[a]).id != (#[trigger] longer[k]).piece_id by {
        if k < trail.len() {
            assert(longer[k] == trail[k]);
        } else {
            assert(longer[k] == placement_of(piece, at));
        }
    }
}

/// The search is sound. Every tiling that it finds from a grid that extends
/// `start`, with pieces of the catalog that are not yet on it, is an exact
/// cover of `start`, and its trail goes on from the trail so far.
pub proof fn lemma_tilings_cover(
    start: Seq<i8>,
    cells: Seq<i8>,
    pool: Seq<Piece>,
    trail: Seq<Placement>,
)
    requires
        extends(start, cells, trail),
        is_catalog_pool(pool),
        unplaced(pool, trail),
    ensures
        forall|j: int|
            0 <= j < tilings(cells, pool, trail).len() ==> follows(
                start,
                pool,
                trail,
                #[trigger] tilings(cells, pool, trail)[j],
            ),
    decreases pool.len(), 2int, 0int,
{
    if !full(cells) {
        lemma_tilings_from_cover(start, cells, pool, trail, 0);
        assert(tilings(cells, pool, trail) == tilings_from(cells, pool, trail, 0));
    } else {
        assert(tilings(cells, pool, trail) == seq![Tiling { cells, trail }]);
        assert(tilings(cells, pool, trail)[0] == Tiling { cells, trail });
    }
}

proof fn lemma_tilings_from_cover(
    start: Seq<i8>,
    cells: Seq<i8>,
    pool: Seq<Piece>,
    trail: Seq<Placement>,
    i: int,
)
    requires
        extends(start, cells, trail),
        is_catalog_pool(pool),
        unplaced(pool, trail),
        !full(cells),
        0 <= i,
    ensures
        forall|j: int|
            0 <= j < tilings_from(cells, pool, trail, i).len() ==> follows(
                start,
                pool,
                trail,
                #[trigger] tilings_from(cells, pool, trail, i)[j],
            ),
    decreases pool.len(), 1int, pool.len() - i,
{
    if i < pool.len() {
        let rest = pool.remove(i);
        let straight = tilings_oriented(cells, rest, trail, pool[i]);
        let turned = if pool[i].is_square() {
            Seq::<Tiling>::empty()
        } else {
            tilings_oriented(cells, rest, trail, pool[i].turned())
        };
        let later = tilings_from(cells, pool, trail, i + 1);
        assert(tilings_with(cells, pool, trail, i) == straight + turned);
        lemma_pool_without(pool, i);
        lemma_placed_piece(pool[i], 0);
        assert forall|a: int| 0 <= a < rest.len() implies has_piece(pool, (#[trigger] rest[a]).id) by {
            assert(rest[a] == pool[if a < i {
                a
            } else {
                a + 1
            }]);
        }
        lemma_tilings_oriented_cover(start, cells, pool, rest, trail, pool[i]);
        if !pool[i].is_square() {
            lemma_tilings_oriented_cover(start, cells, pool, rest, trail, pool[i].turned());
        }
        lemma_tilings_from_cover(start, cells, pool, trail, i + 1);
        assert(tilings_from(cells, pool, trail, i) == (straight + turned) + later);
        assert forall|j: int|
            0 <= j < tilings_from(cells, pool, trail, i).len() implies follows(
            start,
            pool,
            trail,
            #[trigger] tilings_from(cells, pool, trail, i)[j],
        ) by {
            let all = tilings_from(cells, pool, trail, i);
            if j < straight.len() {
                assert(all[j] == straight[j]);
            } else if j < straight.len() + turned.len() {
                assert(all[j] == turned[j - straight.len()]);
            } else {
                assert(all[j] == later[j - straight.len() - turned.len()]);
            }
        }
    }
}

proof fn lemma_tilings_oriented_cover(
    start: Seq<i8>,
    cells: Seq<i8>,
    pool: Seq<Piece>,
    rest: Seq<Piece>,
    trail: Seq<Placement>,
    piece: Piece,
)
    requires
        extends(start, cells, trail),
        is_catalog_pool(rest),
        unplaced(rest, trail),
        is_catalog_piece(piece),
        forall|k: int| 0 <= k < trail.len() ==> (#[trigger] trail[k]).piece_id != piece.id,
        forall|a: int| 0 <= a < rest.len() ==> (#[trigger] rest[a]).id != piece.id,
        forall|a: int| 0 <= a < rest.len() ==> has_piece(pool, (#[trigger] rest[a]).id),
        has_piece(pool, piece.id),
        !full(cells),
    ensures
        forall|j: int|
            0 <= j < tilings_oriented(cells, rest, trail, piece).len() ==> follows(
                start,
                pool,
                trail,
                #[trigger] tilings_oriented(cells, rest, trail, piece)[j],
            ),
    decreases rest.len(), 3int, 0int,
{
    let at = first_empty(cells);
    if placeable(cells, piece, at / 8, at % 8) {
        let after = with_piece(cells, piece, at / 8, at % 8);
        let longer = trail.push(placement_of(piece, at));
        lemma_step(start, cells, rest, trail, piece);
        lemma_tilings_cover(start, after, rest, longer);
        lemma_first_empty_exists(cells);
        lemma_placed_piece(piece, at);
        assert forall|j: int| 0 <= j < tilings(after, rest, longer).len() implies follows(
            start,
            pool,
            trail,
            #[trigger] tilings(after, rest, longer)[j],
        ) by {
            let found = tilings(after, rest, longer)[j].trail;
            assert(follows(start, rest, longer, tilings(after, rest, longer)[j]));
            assert(longer.is_prefix_of(found));
            assert forall|k: int| 0 <= k < longer.len() implies longer[k] == found[k] by {
                assert(longer[k] == found.subrange(0, longer.len() as int)[k]);
            }
            assert(trail =~= found.subrange(0, trail.len() as int)) by {
                assert forall|k: int| 0 <= k < trail.len() implies trail[k] == found[k] by {
                    assert(longer[k] == trail[k]);
                }
            }
            assert forall|k: int| trail.len() <= k < found.len() implies has_piece(
                pool,
                (#[trigger] found[k]).piece_id,
            ) by {
                if k == trail.len() {
                    assert(found[k] == longer[k]);
                } else {
                    assert(has_piece(rest, found[k].piece_id));
                    let a = choose|a: int| 0 <= a < rest.len() && (#[trigger] rest[a]).id
                        == found[k].piece_id;
                    assert(has_piece(pool, rest[a].id));
                }
            }
        }
    } else {
        assert(tilings_oriented(cells, rest, trail, piece) == Seq::<Tiling>::empty());
    }
}

/// What a solution is. Each tiling that the search finds on a grid with
/// pieces of the catalog covers that grid exactly with pieces of the pool.
pub proof fn lemma_found_is_cover(cells: Seq<i8>, pool: Seq<Piece>, j: int)
    requires
        cells.len() == 64,
        is_catalog_pool(pool),
        0 <= j < tilings(cells, pool, Seq::empty()).len(),
    ensures
        covers_exactly(
            cells,
            pool,
            tilings(cells, pool, Seq::empty())[j].cells,
            tilings(cells, pool, Seq::empty())[j].trail,
        ),
{
    let none = Seq::<Placement>::empty();
    assert(extends(cells, cells, none)) by {
        assert(pieces_stand(cells, none));
    }
    lemma_tilings_cover(cells, cells, pool, none);
    assert(follows(cells, pool, none, tilings(cells, pool, none)[j]));
}

} // verus!
