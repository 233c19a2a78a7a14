//! The search finds no grid twice: two tilings that it finds differ in a cell.

use vstd::prelude::*;
use crate::board::{covers, first_empty, full, lemma_first_empty_exists, placeable, with_piece};
use crate::solver::{placement_of, tilings, tilings_from, tilings_oriented, tilings_with};
use crate::tiling::{
    covers_exactly,
    extends,
    follows,
    is_catalog_piece,
    is_catalog_pool,
    is_exact_cover,
    lemma_found_is_cover,
    lemma_placed_piece,
    lemma_pool_without,
    lemma_step,
    lemma_tilings_cover,
    occupies,
    pieces_stand,
    stands,
    trail_covers,
    unplaced,
};
use crate::types::{Piece, Placement, Tiling};

verus! {

/// Whether no two tilings of `found` have the same grid.
pub open spec fn differ(found: Seq<Tiling>) -> bool {
    forall|a: int, b: int|
        0 <= a < b < found.len() ==> (#[trigger] found[a]).cells != (#[trigger] found[b]).cells
}

/// Whether each tiling of `found` holds `piece` at the first empty cell of
/// `cells`, put there as the next piece after `trail`.
spec fn put_next(
    found: Seq<Tiling>,
    start: Seq<i8>,
    cells: Seq<i8>,
    trail: Seq<Placement>,
    piece: Piece,
) -> bool {
    forall|j: int|
        0 <= j < found.len() ==> {
            &&& is_exact_cover(start, #[trigger] found[j])
            &&& found[j].trail.len() > trail.len()
            &&& found[j].trail[trail.len() as int] == placement_of(piece, first_empty(cells))
        }
}

/// Whether each tiling of `found` holds, at the cell with index `at`, a
/// piece of `pool` from the index `from` on.
spec fn owned_from(found: Seq<Tiling>, pool: Seq<Piece>, from: int, at: int) -> bool {
    forall|j: int|
        0 <= j < found.len() ==> exists|i: int|
            from <= i < pool.len() && (#[trigger] pool[i]).id == (#[trigger] found[j]).cells[at]
}

/// Two lists of tilings, neither with a grid twice and with no grid in
/// common, hold no grid twice when one follows the other.
proof fn lemma_differ_of_two(a: Seq<Tiling>, b: Seq<Tiling>)
    requires
        differ(a),
        differ(b),
        forall|i: int, j: int|
            0 <= i < a.len() && 0 <= j < b.len() ==> (#[trigger] a[i]).cells != (#[trigger] b[j]).cells,
    ensures
        differ(a + b),
{
    let all = a + b;
    assert forall|i: int, j: int| 0 <= i < j < all.len() implies (#[trigger] all[i]).cells != (
    #[trigger] all[j]).cells by {
        if j < a.len() {
            assert(all[i] == a[i] && all[j] == a[j]);
        } else if i < a.len() {
            assert(all[i] == a[i] && all[j] == b[j - a.len()]);
        } else {
            assert(all[i] == b[i - a.len()] && all[j] == b[j - a.len()]);
        }
    }
}

/// A tiling that holds a piece as the next after `trail` holds its identity
/// on each cell of its rectangle, and on no other cell that was empty.
proof fn lemma_next_piece(
    start: Seq<i8>,
    cells: Seq<i8>,
    trail: Seq<Placement>,
    piece: Piece,
    found: Tiling,
    n: int,
)
    requires
        extends(start, cells, trail),
        !full(cells),
        is_catalog_piece(piece),
        is_exact_cover(start, found),
        found.trail.len() > trail.len(),
        found.trail[trail.len() as int] == placement_of(piece, first_empty(cells)),
        0 <= n < 64,
        cells[n] == 0,
    ensures
        covers(piece, first_empty(cells) / 8, first_empty(cells) % 8, n) <==> found.cells[n]
            == piece.id,
        1 <= piece.id <= 11,
{
    let at = first_empty(cells);
    let k = trail.len() as int;
    let taken = found.trail[k];
    lemma_first_empty_exists(cells);
    lemma_placed_piece(piece, at);
    assert(stands(found.cells, found.trail[k]));
    assert(occupies(taken, n) <==> covers(piece, at / 8, at % 8, n));
    if found.cells[n] == piece.id && !occupies(taken, n) {
        if trail_covers(found.trail, n) {
            let m = choose|m: int| 0 <= m < found.trail.len() && occupies(
                #[trigger] found.trail[m],
                n,
            );
            assert(stands(found.cells, found.trail[m]));
            assert(found.cells[n] == found.trail[m].piece_id);
            if m < k {
                assert(found.trail[m].piece_id != found.trail[k].piece_id);
            } else {
                assert(found.trail[k].piece_id != found.trail[m].piece_id);
            }
        } else {
            assert(found.cells[n] == start[n]);
            if trail_covers(trail, n) {
                let m = choose|m: int| 0 <= m < trail.len() && occupies(#[trigger] trail[m], n);
                assert(stands(cells, trail[m]));
                assert(cells[n] == trail[m].piece_id);
            }
            assert(cells[n] == start[n]);
        }
    }
}

/// The search finds no grid twice.
pub proof fn lemma_tilings_differ(
    start: Seq<i8>,
    cells: Seq<i8>,
    pool: Seq<Piece>,
    trail: Seq<Placement>,
)
    requires
        extends(start, cells, trail),
        is_catalog_pool(pool),
        unplaced(pool, trail),
    ensures
        differ(tilings(cells, pool, trail)),
    decreases pool.len(), 2int, 0int,
{
    if !full(cells) {
        lemma_from_differ(start, cells, pool, trail, 0);
        assert(tilings(cells, pool, trail) == tilings_from(cells, pool, trail, 0));
    } else {
        assert(tilings(cells, pool, trail) == seq![Tiling { cells, trail }]);
    }
}

proof fn lemma_from_differ(
    start: Seq<i8>,
    cells: Seq<i8>,
    pool: Seq<Piece>,
    trail: Seq<Placement>,
    from: int,
)
    requires
        extends(start, cells, trail),
        is_catalog_pool(pool),
        unplaced(pool, trail),
        !full(cells),
        0 <= from,
    ensures
        differ(tilings_from(cells, pool, trail, from)),
        owned_from(tilings_from(cells, pool, trail, from), pool, from, first_empty(cells)),
    decreases pool.len(), 1int, pool.len() - from,
{
    if from < pool.len() {
        let at = first_empty(cells);
        let here = tilings_with(cells, pool, trail, from);
        let later = tilings_from(cells, pool, trail, from + 1);
        let all = tilings_from(cells, pool, trail, from);
        assert(all == here + later);
        lemma_with_differ(start, cells, pool, trail, from);
        lemma_from_differ(start, cells, pool, trail, from + 1);
        assert forall|i: int, j: int| 0 <= i < here.len() && 0 <= j < later.len() implies (
        #[trigger] here[i]).cells != (#[trigger] later[j]).cells by {
            let other = choose|other: int|
                from + 1 <= other < pool.len() && (#[trigger] pool[other]).id == later[j].cells[at];
            assert(pool[from].id != pool[other].id);
            assert(here[i].cells[at] == pool[from].id);
        }
        lemma_differ_of_two(here, later);
        assert forall|j: int| 0 <= j < all.len() implies exists|i: int|
            from <= i < pool.len() && (#[trigger] pool[i]).id == (#[trigger] all[j]).cells[at] by {
            if j < here.len() {
                assert(all[j] == here[j]);
                assert(pool[from].id == here[j].cells[at]);
            } else {
                assert(all[j] == later[j - here.len()]);
                let other = choose|other: int|
                    from + 1 <= other < pool.len() && (#[trigger] pool[other]).id == later[j
                        - here.len()].cells[at];
                assert(pool[other].id == all[j].cells[at]);
            }
        }
    }
}

proof fn lemma_with_differ(
    start: Seq<i8>,
    cells: Seq<i8>,
    pool: Seq<Piece>,
    trail: Seq<Placement>,
    i: int,
)
    requires
        extends(start, cells, trail),
        is_catalog_pool(pool),
        unplaced(pool, trail),
        !full(cells),
        0 <= i < pool.len(),
    ensures
        differ(tilings_with(cells, pool, trail, i)),
        forall|j: int|
            0 <= j < tilings_with(cells, pool, trail, i).len() ==> (#[trigger] tilings_with(
                cells,
                pool,
                trail,
                i,
            )[j]).cells[first_empty(cells)] == pool[i].id,
    decreases pool.len(), 0int, 0int,
{
    let at = first_empty(cells);
    let rest = pool.remove(i);
    let piece = pool[i];
    let straight = tilings_oriented(cells, rest, trail, piece);
    let turned = if piece.is_square() {
        Seq::<Tiling>::empty()
    } else {
        tilings_oriented(cells, rest, trail, piece.turned())
    };
    let all = tilings_with(cells, pool, trail, i);
    assert(all == straight + turned);
    lemma_pool_without(pool, i);
    lemma_first_empty_exists(cells);
    lemma_placed_piece(piece, at);
    assert(unplaced(rest, trail)) by {
        assert forall|a: int, k: int| 0 <= a < rest.len() && 0 <= k < trail.len() implies (
        #[trigger] rest[a]).id != (#[trigger] trail[k]).piece_id by {
            assert(rest[a] == pool[if a < i {
                a
            } else {
                a + 1
            }]);
        }
    }
    lemma_oriented_differ(start, cells, rest, trail, piece);
    assert forall|j: int| 0 <= j < straight.len() implies (#[trigger] straight[j]).cells[at]
        == piece.id by {
        lemma_next_piece(start, cells, trail, piece, straight[j], at);
    }
    if !piece.is_square() {
        let other = piece.turned();
        lemma_oriented_differ(start, cells, rest, trail, other);
        assert forall|j: int| 0 <= j < turned.len() implies (#[trigger] turned[j]).cells[at]
            == piece.id by {
            lemma_next_piece(start, cells, trail, other, turned[j], at);
        }
        assert forall|a: int, b: int| 0 <= a < straight.len() && 0 <= b < turned.len() implies (
        #[trigger] straight[a]).cells != (#[trigger] turned[b]).cells by {
            let n = if piece.width > piece.height {
                at + piece.width - 1
            } else {
                at + 8 * (piece.height - 1)
            };
            assert(stands(straight[a].cells, straight[a].trail[trail.len() as int]));
            assert(covers(piece, at / 8, at % 8, n));
            assert(!covers(other, at / 8, at % 8, n));
            assert(cells[n] == 0);
            lemma_next_piece(start, cells, trail, piece, straight[a], n);
            lemma_next_piece(start, cells, trail, other, turned[b], n);
        }
    }
    lemma_differ_of_two(straight, turned);
    assert forall|j: int| 0 <= j < all.len() implies (#[trigger] all[j]).cells[at] == piece.id by {
        if j < straight.len() {
            assert(all[j] == straight[j]);
        } else {
            assert(all[j] == turned[j - straight.len()]);
        }
    }
}

proof fn lemma_oriented_differ(
    start: Seq<i8>,
    cells: Seq<i8>,
    rest: Seq<Piece>,
    trail: Seq<Placement>,
    piece: Piece,
)
    requires
        extends(start, cells, trail),
        is_catalog_pool(rest),
        unplaced(rest, trail),
        is_catalog_piece(piece),
        forall|k: int| 0 <= k < trail.len() ==> (#[trigger] trail[k]).piece_id != piece.id,
        forall|a: int| 0 <= a < rest.len() ==> (#[trigger] rest[a]).id != piece.id,
        !full(cells),
    ensures
        differ(tilings_oriented(cells, rest, trail, piece)),
        put_next(tilings_oriented(cells, rest, trail, piece), start, cells, trail, piece),
    decreases rest.len(), 3int, 0int,
{
    let at = first_empty(cells);
    if placeable(cells, piece, at / 8, at % 8) {
        let after = with_piece(cells, piece, at / 8, at % 8);
        let longer = trail.push(placement_of(piece, at));
        let found = tilings(after, rest, longer);
        lemma_step(start, cells, rest, trail, piece);
        lemma_tilings_cover(start, after, rest, longer);
        lemma_tilings_differ(start, after, rest, longer);
        assert forall|j: int| 0 <= j < found.len() implies {
            &&& is_exact_cover(start, #[trigger] found[j])
            &&& found[j].trail.len() > trail.len()
            &&& found[j].trail[trail.len() as int] == placement_of(piece, at)
        } by {
            let whole = found[j].trail;
            assert(follows(start, rest, longer, found[j]));
            assert(longer.is_prefix_of(whole));
            assert(longer[trail.len() as int] == whole.subrange(0, longer.len() as int)[trail.len() as int]);
        }
    } else {
        assert(tilings_oriented(cells, rest, trail, piece) == Seq::<Tiling>::empty());
    }
}

/// What several solutions mean. Where the search finds two tilings or more,
/// the first two are exact covers of the grid that differ in a cell.
pub proof fn lemma_many_solutions(cells: Seq<i8>, pool: Seq<Piece>)
    requires
        cells.len() == 64,
        is_catalog_pool(pool),
        tilings(cells, pool, Seq::empty()).len() >= 2,
    ensures
        covers_exactly(
            cells,
            pool,
            tilings(cells, pool, Seq::empty())[0].cells,
            tilings(cells, pool, Seq::empty())[0].trail,
        ),
        covers_exactly(
            cells,
            pool,
            tilings(cells, pool, Seq::empty())[1].cells,
            tilings(cells, pool, Seq::empty())[1].trail,
        ),
        tilings(cells, pool, Seq::empty())[0].cells != tilings(cells, pool, Seq::empty())[1].cells,
{
    let none = Seq::<Placement>::empty();
    assert(extends(cells, cells, none)) by {
        assert(pieces_stand(cells, none));
    }
    lemma_found_is_cover(cells, pool, 0);
    lemma_found_is_cover(cells, pool, 1);
    lemma_tilings_differ(cells, cells, pool, none);
}

} // verus!
