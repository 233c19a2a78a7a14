//! The search is complete: what pieces of the pool can cover, it finds.

use vstd::prelude::*;
use crate::board::{covers, first_empty, full, lemma_first_empty_exists, mark, placeable, with_piece};
use crate::piece::lemma_catalog_pieces;
use crate::solver::{placement_of, tilings, tilings_from, tilings_oriented, tilings_with};
use crate::tiling::{
    covers_exactly,
    distinct_pieces,
    has_piece,
    is_catalog_piece,
    is_catalog_pool,
    lemma_placed_piece,
    lemma_pool_without,
    occupies,
    placed_piece,
    stands,
    trail_covers,
};
use crate::types::{Piece, Placement, Tiling};

verus! {

/// Whether one of the tilings of `found` has the grid `grid`.
pub open spec fn reaches(found: Seq<Tiling>, grid: Seq<i8>) -> bool {
    exists|j: int| 0 <= j < found.len() && (#[trigger] found[j]).cells == grid
}

/// The piece of a placement that stands covers the cell at its own row and
/// column, and has a place in the grid.
proof fn lemma_corner(cells: Seq<i8>, placement: Placement)
    requires
        stands(cells, placement),
    ensures
        placement.row < 8,
        placement.col < 8,
        occupies(placement, placement.row * 8 + placement.col),
        is_catalog_piece(placed_piece(placement)),
        placed_piece(placement).id == placement.piece_id,
{
    lemma_catalog_pieces();
}

/// A trail without one of its placements still stands on the target, on
/// the grid that holds the piece of that placement already.
proof fn lemma_cover_without(
    cells: Seq<i8>,
    pool: Seq<Piece>,
    target: Seq<i8>,
    more: Seq<Placement>,
    k: int,
    i: int,
    piece: Piece,
)
    requires
        is_catalog_pool(pool),
        covers_exactly(cells, pool, target, more),
        0 <= k < more.len(),
        0 <= i < pool.len(),
        pool[i].id == more[k].piece_id,
        piece.id == more[k].piece_id,
        piece.width == placed_piece(more[k]).width,
        piece.height == placed_piece(more[k]).height,
    ensures
        is_catalog_pool(pool.remove(i)),
        covers_exactly(
            with_piece(cells, piece, more[k].row as int, more[k].col as int),
            pool.remove(i),
            target,
            more.remove(k),
        ),
        placeable(cells, piece, more[k].row as int, more[k].col as int),
{
    let taken = more[k];
    let rest = pool.remove(i);
    let fewer = more.remove(k);
    let after = with_piece(cells, piece, taken.row as int, taken.col as int);
    assert(stands(target, taken));
    lemma_corner(target, taken);
    assert forall|n: int| 0 <= n < 64 implies (covers(
        piece,
        taken.row as int,
        taken.col as int,
        n,
    ) <==> occupies(taken, n)) by {}
    assert forall|n: int|
        0 <= n < 64 && covers(piece, taken.row as int, taken.col as int, n) implies cells[n]
        == 0 by {
        assert(occupies(more[k], n));
    }
    lemma_pool_without(pool, i);
    assert forall|m: int| 0 <= m < fewer.len() implies #[trigger] fewer[m] == more[if m < k {
        m
    } else {
        m + 1
    }] by {}
    assert forall|m: int| 0 <= m < fewer.len() implies (#[trigger] fewer[m]).piece_id
        != taken.piece_id by {
        let from = if m < k {
            m
        } else {
            m + 1
        };
        assert(fewer[m] == more[from]);
        if from < k {
            assert(more[from].piece_id != more[k].piece_id);
        } else {
            assert(more[k].piece_id != more[from].piece_id);
        }
    }
    assert(distinct_pieces(fewer)) by {
        assert forall|a: int, b: int| 0 <= a < b < fewer.len() implies (#[trigger] fewer[a]).piece_id
            != (#[trigger] fewer[b]).piece_id by {
            let x = if a < k {
                a
            } else {
                a + 1
            };
            let y = if b < k {
                b
            } else {
                b + 1
            };
            assert(fewer[a] == more[x] && fewer[b] == more[y]);
        }
    }
    assert forall|m: int| 0 <= m < fewer.len() implies stands(target, #[trigger] fewer[m]) by {
        let from = if m < k {
            m
        } else {
            m + 1
        };
        assert(fewer[m] == more[from]);
    }
    assert forall|m: int, n: int|
        0 <= m < fewer.len() && 0 <= n < 64 && occupies(
            #[trigger] fewer[m],
            n,
        ) implies #[trigger] after[n] == 0 by {
        let from = if m < k {
            m
        } else {
            m + 1
        };
        assert(fewer[m] == more[from]);
        assert(stands(target, more[from]));
        assert(target[n] == more[from].piece_id);
        assert(cells[n] == 0);
        if occupies(taken, n) {
            assert(target[n] == taken.piece_id);
        }
    }
    assert forall|n: int| 0 <= n < 64 && !trail_covers(fewer, n) implies #[trigger] target[n]
        == after[n] by {
        if occupies(taken, n) {
            assert(target[n] == taken.piece_id);
            assert(after[n] == mark(piece.id));
        } else {
            if trail_covers(more, n) {
                let m = choose|m: int| 0 <= m < more.len() && occupies(#[trigger] more[m], n);
                let to = if m < k {
                    m
                } else {
                    m - 1
                };
                assert(fewer[to] == more[m]);
            }
            assert(target[n] == cells[n]);
        }
    }
    assert forall|m: int| 0 <= m < fewer.len() implies has_piece(
        rest,
        (#[trigger] fewer[m]).piece_id,
    ) by {
        let from = if m < k {
            m
        } else {
            m + 1
        };
        assert(fewer[m] == more[from]);
        assert(has_piece(pool, more[from].piece_id));
        let a = choose|a: int| 0 <= a < pool.len() && (#[trigger] pool[a]).id == more[from].piece_id;
        let b = if a < i {
            a
        } else {
            a - 1
        };
        assert(a != i);
        assert(rest[b] == pool[a]);
    }
}

/// What the search finds with one piece in one orientation, it finds among
/// the branches from any earlier index on.
proof fn lemma_branch_reaches(
    cells: Seq<i8>,
    pool: Seq<Piece>,
    trail: Seq<Placement>,
    from: int,
    i: int,
    piece: Piece,
    target: Seq<i8>,
)
    requires
        0 <= from <= i < pool.len(),
        piece == pool[i] || (piece == pool[i].turned() && !pool[i].is_square()),
        reaches(tilings_oriented(cells, pool.remove(i), trail, piece), target),
    ensures
        reaches(tilings_from(cells, pool, trail, from), target),
    decreases i - from,
{
    let all = tilings_from(cells, pool, trail, from);
    let here = tilings_with(cells, pool, trail, from);
    let later = tilings_from(cells, pool, trail, from + 1);
    assert(all == here + later);
    if from < i {
        lemma_branch_reaches(cells, pool, trail, from + 1, i, piece, target);
        let j = choose|j: int| 0 <= j < later.len() && (#[trigger] later[j]).cells == target;
        assert(all[here.len() + j] == later[j]);
    } else {
        let rest = pool.remove(i);
        let straight = tilings_oriented(cells, rest, trail, pool[i]);
        let turned = if pool[i].is_square() {
            Seq::<Tiling>::empty()
        } else {
            tilings_oriented(cells, rest, trail, pool[i].turned())
        };
        assert(here == straight + turned);
        let found = tilings_oriented(cells, rest, trail, piece);
        let j = choose|j: int| 0 <= j < found.len() && (#[trigger] found[j]).cells == target;
        if piece == pool[i] {
            assert(all[j] == straight[j]);
        } else {
            assert(all[straight.len() + j] == turned[j]);
        }
    }
}

/// The search is complete. Where pieces of the pool cover the grid exactly,
/// in whatever order they were put, the search finds a tiling with the grid
/// that they give.
pub proof fn lemma_search_finds(
    cells: Seq<i8>,
    pool: Seq<Piece>,
    trail: Seq<Placement>,
    target: Seq<i8>,
    more: Seq<Placement>,
)
    requires
        is_catalog_pool(pool),
        covers_exactly(cells, pool, target, more),
    ensures
        reaches(tilings(cells, pool, trail), target),
    decreases pool.len(),
{
    let all = tilings(cells, pool, trail);
    if full(cells) {
        if more.len() > 0 {
            assert(stands(target, more[0]));
            lemma_corner(target, more[0]);
            assert(cells[more[0].row * 8 + more[0].col] == 0);
        }
        assert forall|n: int| 0 <= n < 64 implies !trail_covers(more, n) by {}
        assert(target =~= cells);
        assert(all[0].cells == target);
    } else {
        let at = first_empty(cells);
        lemma_first_empty_exists(cells);
        assert(target[at] != 0);
        assert(trail_covers(more, at));
        let k = choose|k: int| 0 <= k < more.len() && occupies(#[trigger] more[k], at);
        let taken = more[k];
        assert(stands(target, taken));
        lemma_corner(target, taken);
        let corner = taken.row * 8 + taken.col;
        assert(cells[corner] == 0);
        assert(corner == at);
        assert(has_piece(pool, taken.piece_id));
        let i = choose|i: int| 0 <= i < pool.len() && (#[trigger] pool[i]).id == taken.piece_id;
        let put = placed_piece(taken);
        assert(is_catalog_piece(pool[i]));
        lemma_placed_piece(pool[i], at);
        let piece = if put == pool[i] || pool[i].is_square() {
            pool[i]
        } else {
            pool[i].turned()
        };
        assert(piece.width == put.width && piece.height == put.height);
        lemma_cover_without(cells, pool, target, more, k, i, piece);
        let rest = pool.remove(i);
        let after = with_piece(cells, piece, at / 8, at % 8);
        let longer = trail.push(placement_of(piece, at));
        lemma_search_finds(after, rest, longer, target, more.remove(k));
        assert(tilings_oriented(cells, rest, trail, piece) == tilings(after, rest, longer));
        lemma_branch_reaches(cells, pool, trail, 0, i, piece, target);
        assert(all == tilings_from(cells, pool, trail, 0));
    }
}

/// What one solution means. Where the search finds exactly one tiling,
/// every exact cover of the grid with pieces of the pool gives the grid of
/// that tiling.
pub proof fn lemma_one_solution(
    cells: Seq<i8>,
    pool: Seq<Piece>,
    target: Seq<i8>,
    more: Seq<Placement>,
)
    requires
        is_catalog_pool(pool),
        tilings(cells, pool, Seq::empty()).len() == 1,
        covers_exactly(cells, pool, target, more),
    ensures
        target == tilings(cells, pool, Seq::empty())[0].cells,
{
    lemma_search_finds(cells, pool, Seq::empty(), target, more);
}

/// What no solution means. Where the search finds no tiling, no pieces of
/// the pool cover the grid exactly.
pub proof fn lemma_no_solution(
    cells: Seq<i8>,
    pool: Seq<Piece>,
    target: Seq<i8>,
    more: Seq<Placement>,
)
    requires
        is_catalog_pool(pool),
        tilings(cells, pool, Seq::empty()).len() == 0,
    ensures
        !covers_exactly(cells, pool, target, more),
{
    if covers_exactly(cells, pool, target, more) {
        lemma_search_finds(cells, pool, Seq::empty(), target, more);
    }
}

} // verus!
