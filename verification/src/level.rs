//! What a level is: the obstacle grid of a solution, the choice of the three
//! obstacle pieces, and the laws that tie them to the search.

use vstd::prelude::*;
use crate::board::{covers, empty_cells, placeable};
use crate::chance::is_selection;
use crate::complete::lemma_one_solution;
use crate::cover::{holds_each_piece, lemma_catalog_is_pool};
use crate::piece::{catalog, lemma_catalog_pieces, oriented};
use crate::solver::{lemma_unused_all, search, tilings, unused};
use crate::tiling::{
    covers_exactly,
    distinct_pieces,
    has_piece,
    is_catalog_piece,
    is_catalog_pool,
    lemma_placed_piece,
    occupies,
    pieces_stand,
    placed_piece,
    stands,
};
use crate::types::{GameState, Piece, Placement, obstacle_candidates};

verus! {

/// The test whether an identity is one of `ids`.
pub open spec fn among(ids: Seq<u8>) -> spec_fn(u8) -> bool {
    |id: u8| ids.contains(id)
}

/// The test whether a placement put a piece whose identity is one of `ids`.
pub open spec fn puts_one_of(ids: Seq<u8>) -> spec_fn(Placement) -> bool {
    |placement: Placement| ids.contains(placement.piece_id)
}

/// The test whether the identity of a piece is none of `ids`.
pub open spec fn is_none_of(ids: Set<u8>) -> spec_fn(Piece) -> bool {
    |piece: Piece| !ids.contains(piece.id)
}

/// The identity of the piece that a placement put.
pub open spec fn identity() -> spec_fn(Placement) -> u8 {
    |placement: Placement| placement.piece_id
}

/// Row, column and piece identity of a placement.
pub open spec fn record() -> spec_fn(Placement) -> (usize, usize, u8) {
    |placement: Placement| (placement.row, placement.col, placement.piece_id)
}

/// The identities of the pieces of `trail` that are among `candidates`, in
/// the order of the trail.
pub open spec fn candidates_in(trail: Seq<Placement>, candidates: Seq<u8>) -> Seq<u8> {
    trail.map_values(identity()).filter(among(candidates))
}

/// The pieces whose identity is none of `ids`, in order.
pub open spec fn pieces_without(pieces: Seq<Piece>, ids: Set<u8>) -> Seq<Piece> {
    pieces.filter(is_none_of(ids))
}

/// Row, column and identity of each placement of `trail` whose piece is one
/// of `ids`, in the order of the trail.
pub open spec fn obstacle_records(trail: Seq<Placement>, ids: Seq<u8>) -> Seq<(usize, usize, u8)> {
    trail.filter(puts_one_of(ids)).map_values(record())
}

/// Whether a placement of `trail` whose piece is one of `ids` covers the
/// cell with row-major index `i`.
pub open spec fn is_blocked(trail: Seq<Placement>, ids: Seq<u8>, i: int) -> bool {
    exists|k: int|
        0 <= k < trail.len() && ids.contains((#[trigger] trail[k]).piece_id) && occupies(trail[k], i)
}

/// The grid that holds an obstacle on each cell that a placement of `trail`
/// with a piece of `ids` covers, and is empty elsewhere.
pub open spec fn obstacle_cells(trail: Seq<Placement>, ids: Seq<u8>) -> Seq<i8> {
    Seq::new(
        64,
        |i: int|
            if is_blocked(trail, ids, i) {
                -1i8
            } else {
                0i8
            },
    )
}

/// The cells after the rectangle of `piece` at (`row`, `col`) has been
/// turned into obstacles.
pub open spec fn blocked_with(cells: Seq<i8>, piece: Piece, row: int, col: int) -> Seq<i8> {
    Seq::new(
        64,
        |i: int|
            if covers(piece, row, col, i) {
                -1i8
            } else {
                cells[i]
            },
    )
}

/// Whether a placement put its piece turned by a quarter.
pub open spec fn flag() -> spec_fn(Placement) -> bool {
    |placement: Placement| placement.rotated
}

/// The grid after the first `n` obstacles of `records` were put on the
/// empty grid, each turned where `turned` says so.
pub open spec fn obstacles_put(records: Seq<(usize, usize, u8)>, turned: Seq<bool>, n: int) -> Seq<
    i8,
>
    decreases n,
{
    if n <= 0 {
        empty_cells()
    } else {
        blocked_with(
            obstacles_put(records, turned, n - 1),
            oriented(records[n - 1].2, turned[n - 1]),
            records[n - 1].0 as int,
            records[n - 1].1 as int,
        )
    }
}

/// Whether the obstacle at index `k` of `records` is a piece of the catalog
/// that could be put where it was put, on the grid of the obstacles before it.
pub open spec fn obstacle_fits(records: Seq<(usize, usize, u8)>, turned: Seq<bool>, k: int) -> bool {
    &&& 1 <= records[k].2 <= 11
    &&& placeable(
        obstacles_put(records, turned, k),
        oriented(records[k].2, turned[k]),
        records[k].0 as int,
        records[k].1 as int,
    )
}

/// Whether each of the first `n` obstacles of `records` fits.
pub open spec fn obstacles_fit(records: Seq<(usize, usize, u8)>, turned: Seq<bool>, n: int) -> bool {
    forall|k: int| 0 <= k < n ==> #[trigger] obstacle_fits(records, turned, k)
}

/// Whether `cells` is the empty grid with the obstacles of `records` put on
/// it, each in one of its orientations, none on top of another.
pub open spec fn is_obstacle_grid(cells: Seq<i8>, records: Seq<(usize, usize, u8)>) -> bool {
    exists|turned: Seq<bool>|
        turned.len() == records.len() && obstacles_fit(records, turned, records.len() as int)
            && cells == #[trigger] obstacles_put(records, turned, records.len() as int)
}

/// Whether the pieces of `ids` find their cells whatever cells are drawn:
/// there is no piece to put, or only the piece of one cell, which can be put
/// at every cell of the empty grid.
pub open spec fn finds_cells_always(ids: Seq<u8>) -> bool {
    ids.len() == 0 || (ids.len() == 1 && ids[0] == 1)
}

/// Whether `ids` names each of the three obstacle candidates once.
pub open spec fn is_obstacle_choice(ids: Seq<u8>) -> bool {
    &&& ids.len() == 3
    &&& forall|j: int| 0 <= j < 3 ==> 1 <= #[trigger] ids[j] <= 3
    &&& ids[0] != ids[1]
    &&& ids[0] != ids[2]
    &&& ids[1] != ids[2]
}

/// Whether one of the obstacle records names the piece `id`.
pub open spec fn names(records: Seq<(usize, usize, u8)>, id: u8) -> bool {
    exists|k: int| 0 <= k < records.len() && (#[trigger] records[k]).2 == id
}

/// Whether the cell at the row and column of `record` holds an obstacle.
pub open spec fn marks_obstacle(cells: Seq<i8>, record: (usize, usize, u8)) -> bool {
    &&& record.0 < 8
    &&& record.1 < 8
    &&& cells[record.0 * 8 + record.1] == -1
}

/// Whether every cell is empty or holds an obstacle.
pub open spec fn holds_obstacles_only(cells: Seq<i8>) -> bool {
    &&& cells.len() == 64
    &&& forall|i: int| 0 <= i < 64 ==> #[trigger] cells[i] == 0 || cells[i] == -1
}

/// Whether the search with cap 2 finds exactly one solution for the state.
pub open spec fn has_unique_solution(state: GameState) -> bool {
    search(state.board@, unused(state.pieces@, state.used_pieces@), 2).len() == 1
}

/// Whether `state` is a finished level: the eight larger pieces are on offer
/// and none is used, the three smallest are recorded as obstacles, the grid
/// holds these three obstacles where they are recorded and nothing else, and
/// the search finds exactly one way to cover the rest with the eight pieces.
pub open spec fn is_level(state: GameState) -> bool {
    &&& state.pieces@ == catalog().subrange(3, 11)
    &&& state.used_pieces@ == Seq::new(8, |i: int| false)
    &&& state.obstacle_positions@.len() == 3
    &&& forall|id: u8| 1 <= id <= 3 ==> #[trigger] names(state.obstacle_positions@, id)
    &&& forall|k: int|
        0 <= k < 3 ==> marks_obstacle(state.board@, #[trigger] state.obstacle_positions@[k])
    &&& holds_obstacles_only(state.board@)
    &&& is_obstacle_grid(state.board@, state.obstacle_positions@)
    &&& has_unique_solution(state)
}

/// The grid of the first obstacles does not depend on what follows them.
proof fn lemma_obstacles_put_prefix(
    records: Seq<(usize, usize, u8)>,
    turned: Seq<bool>,
    longer: Seq<(usize, usize, u8)>,
    longer_turned: Seq<bool>,
    n: int,
)
    requires
        0 <= n <= records.len() <= longer.len(),
        n <= turned.len() <= longer_turned.len(),
        forall|k: int| 0 <= k < n ==> longer[k] == records[k] && longer_turned[k] == turned[k],
    ensures
        obstacles_put(longer, longer_turned, n) == obstacles_put(records, turned, n),
    decreases n,
{
    if n > 0 {
        lemma_obstacles_put_prefix(records, turned, longer, longer_turned, n - 1);
    }
}

/// One obstacle more, put where it can be put, keeps the grid a grid of
/// obstacles.
pub proof fn lemma_obstacle_more(
    cells: Seq<i8>,
    records: Seq<(usize, usize, u8)>,
    turned: Seq<bool>,
    record: (usize, usize, u8),
    rotated: bool,
)
    requires
        turned.len() == records.len(),
        obstacles_fit(records, turned, records.len() as int),
        cells == obstacles_put(records, turned, records.len() as int),
        1 <= record.2 <= 11,
        placeable(cells, oriented(record.2, rotated), record.0 as int, record.1 as int),
    ensures
        obstacles_fit(records.push(record), turned.push(rotated), records.len() as int + 1),
        obstacles_put(records.push(record), turned.push(rotated), records.len() as int + 1)
            == blocked_with(cells, oriented(record.2, rotated), record.0 as int, record.1 as int),
{
    let longer = records.push(record);
    let longer_turned = turned.push(rotated);
    let n = records.len() as int;
    lemma_obstacles_put_prefix(records, turned, longer, longer_turned, n);
    assert forall|k: int| 0 <= k < n + 1 implies #[trigger] obstacle_fits(
        longer,
        longer_turned,
        k,
    ) by {
        lemma_obstacles_put_prefix(records, turned, longer, longer_turned, k);
        if k < n {
            assert(obstacle_fits(records, turned, k));
        }
    }
}

/// The obstacle grid of a trail whose pieces stand is the empty grid with
/// the recorded obstacles put on it, each as the trail has it.
pub proof fn lemma_obstacle_grid_of_trail(
    cells: Seq<i8>,
    trail: Seq<Placement>,
    ids: Seq<u8>,
    n: int,
)
    requires
        pieces_stand(cells, trail),
        0 <= n <= trail.len(),
    ensures
        ({
            let kept = trail.take(n).filter(puts_one_of(ids));
            let records = kept.map_values(record());
            let turned = kept.map_values(flag());
            &&& obstacles_fit(records, turned, kept.len() as int)
            &&& obstacle_cells(trail.take(n), ids) == obstacles_put(
                records,
                turned,
                kept.len() as int,
            )
        }),
        n == trail.len() ==> is_obstacle_grid(
            obstacle_cells(trail, ids),
            obstacle_records(trail, ids),
        ),
    decreases n,
{
    let kept = trail.take(n).filter(puts_one_of(ids));
    let records = kept.map_values(record());
    let turned = kept.map_values(flag());
    if n == 0 {
        lemma_filter_none(trail, puts_one_of(ids));
        assert(obstacle_cells(trail.take(0), ids) =~= empty_cells());
    } else {
        let m = n - 1;
        lemma_obstacle_grid_of_trail(cells, trail, ids, m);
        lemma_filter_next(trail, puts_one_of(ids), m);
        lemma_obstacle_cells_next(cells, trail, ids, m);
        let before = trail.take(m).filter(puts_one_of(ids));
        if ids.contains(trail[m].piece_id) {
            assert(stands(cells, trail[m]));
            assert(records =~= before.map_values(record()).push(record()(trail[m])));
            assert(turned =~= before.map_values(flag()).push(trail[m].rotated));
            lemma_obstacle_more(
                obstacle_cells(trail.take(m), ids),
                before.map_values(record()),
                before.map_values(flag()),
                record()(trail[m]),
                trail[m].rotated,
            );
        }
    }
    if n == trail.len() {
        assert(trail.take(n) =~= trail);
        assert(turned.len() == records.len());
    }
}

/// A level has one solution: any two exact covers of its grid with its
/// eight pieces give the same grid.
pub proof fn lemma_level_has_one_cover(
    state: GameState,
    first: Seq<i8>,
    first_trail: Seq<Placement>,
    second: Seq<i8>,
    second_trail: Seq<Placement>,
)
    requires
        is_level(state),
        covers_exactly(state.board@, state.pieces@, first, first_trail),
        covers_exactly(state.board@, state.pieces@, second, second_trail),
    ensures
        first == second,
{
    let pool = state.pieces@;
    lemma_catalog_pieces();
    lemma_catalog_is_pool();
    lemma_unused_all(pool, state.used_pieces@, 8);
    assert(pool.take(8) =~= pool);
    assert(is_catalog_pool(pool)) by {
        assert forall|i: int| 0 <= i < pool.len() implies is_catalog_piece(#[trigger] pool[i]) by {
            assert(pool[i] == catalog()[i + 3]);
        }
        assert forall|i: int, j: int| 0 <= i < j < pool.len() implies (#[trigger] pool[i]).id != (
        #[trigger] pool[j]).id by {
            assert(pool[i] == catalog()[i + 3]);
            assert(pool[j] == catalog()[j + 3]);
        }
    }
    let all = tilings(state.board@, pool, Seq::empty());
    assert(search(state.board@, pool, 2).len() == 1);
    assert(all.len() == 1);
    lemma_one_solution(state.board@, pool, first, first_trail);
    lemma_one_solution(state.board@, pool, second, second_trail);
}

/// A reordering of the catalog holds its eleven pieces, no identity twice.
pub proof fn lemma_shuffled_catalog(pool: Seq<Piece>)
    requires
        pool.to_multiset() == catalog().to_multiset(),
    ensures
        pool.len() == 11,
        is_catalog_pool(pool),
        holds_each_piece(pool),
{
    let standard = catalog();
    assert forall|id: u8| 1 <= id <= 11 implies #[trigger] has_piece(pool, id) by {
        lemma_catalog_pieces();
        pool.to_multiset_ensures();
        standard.to_multiset_ensures();
        let piece = standard[id - 1];
        assert(standard.contains(piece));
        assert(standard.to_multiset().count(piece) > 0);
        assert(pool.to_multiset().count(piece) > 0);
        assert(pool.contains(piece));
        let i = choose|i: int| 0 <= i < pool.len() && pool[i] == piece;
        assert(pool[i].id == id);
    }
    lemma_catalog_pieces();
    pool.to_multiset_ensures();
    standard.to_multiset_ensures();
    assert(standard.no_duplicates());
    standard.lemma_multiset_has_no_duplicates();
    pool.lemma_multiset_has_no_duplicates_conv();
    assert forall|i: int| 0 <= i < pool.len() implies is_catalog_piece(#[trigger] pool[i]) by {
        assert(pool.contains(pool[i]));
        assert(pool.to_multiset().count(pool[i]) > 0);
        assert(standard.to_multiset().count(pool[i]) > 0);
        assert(standard.contains(pool[i]));
        let j = choose|j: int| 0 <= j < standard.len() && standard[j] == pool[i];
        assert(standard[j].id == j + 1);
    }
    assert forall|i: int, j: int| 0 <= i < j < pool.len() implies (#[trigger] pool[i]).id != (
    #[trigger] pool[j]).id by {
        assert(is_catalog_piece(pool[i]));
        assert(is_catalog_piece(pool[j]));
        assert(pool.contains(pool[i]));
        assert(pool.to_multiset().count(pool[i]) > 0);
        assert(standard.to_multiset().count(pool[i]) > 0);
        assert(standard.contains(pool[i]));
        let a = choose|a: int| 0 <= a < standard.len() && standard[a] == pool[i];
        assert(pool.contains(pool[j]));
        assert(pool.to_multiset().count(pool[j]) > 0);
        assert(standard.to_multiset().count(pool[j]) > 0);
        assert(standard.contains(pool[j]));
        let b = choose|b: int| 0 <= b < standard.len() && standard[b] == pool[j];
        assert(standard[a].id == a + 1);
        assert(standard[b].id == b + 1);
    }
}

/// A pool of catalog pieces with one of them turned by a quarter is such a
/// pool still, and holds each piece that it held.
pub proof fn lemma_pool_turned(pool: Seq<Piece>, i: int)
    requires
        is_catalog_pool(pool),
        holds_each_piece(pool),
        0 <= i < pool.len(),
    ensures
        is_catalog_pool(pool.update(i, pool[i].turned())),
        holds_each_piece(pool.update(i, pool[i].turned())),
{
    let after = pool.update(i, pool[i].turned());
    lemma_placed_piece(pool[i], 0);
    assert forall|j: int| 0 <= j < after.len() implies is_catalog_piece(#[trigger] after[j]) by {
        if j != i {
            assert(after[j] == pool[j]);
        }
    }
    assert forall|j: int, k: int| 0 <= j < k < after.len() implies (#[trigger] after[j]).id != (
    #[trigger] after[k]).id by {
        assert(after[j].id == pool[j].id);
        assert(after[k].id == pool[k].id);
    }
    assert forall|id: u8| 1 <= id <= 11 implies #[trigger] has_piece(after, id) by {
        assert(has_piece(pool, id));
        let j = choose|j: int| 0 <= j < pool.len() && (#[trigger] pool[j]).id == id;
        assert(after[j].id == id);
    }
}

/// Filtering a list that holds no item twice keeps no item twice, and keeps
/// only items of the list that pass the test.
pub proof fn lemma_filter_distinct(items: Seq<u8>, keep: spec_fn(u8) -> bool, n: int)
    requires
        items.no_duplicates(),
        0 <= n <= items.len(),
    ensures
        items.take(n).filter(keep).no_duplicates(),
        forall|j: int|
            0 <= j < items.take(n).filter(keep).len() ==> keep(
                #[trigger] items.take(n).filter(keep)[j],
            ) && exists|a: int| 0 <= a < n && items[a] == items.take(n).filter(keep)[j],
    decreases n,
{
    if n == 0 {
        lemma_filter_none(items, keep);
    } else {
        lemma_filter_distinct(items, keep, n - 1);
        lemma_filter_next(items, keep, n - 1);
        let before = items.take(n - 1).filter(keep);
        let after = items.take(n).filter(keep);
        if keep(items[n - 1]) {
            assert(after == before.push(items[n - 1]));
            assert forall|j: int| 0 <= j < after.len() implies keep(#[trigger] after[j]) && exists|
                a: int,
            | 0 <= a < n && items[a] == after[j] by {
                if j < before.len() {
                    assert(after[j] == before[j]);
                    let a = choose|a: int| 0 <= a < n - 1 && items[a] == before[j];
                    assert(items[a] == after[j]);
                } else {
                    assert(items[n - 1] == after[j]);
                }
            }
            assert forall|i: int, j: int|
                0 <= i < after.len() && 0 <= j < after.len() && i != j implies after[i]
                != after[j] by {
                if i < before.len() && j < before.len() {
                    assert(after[i] == before[i] && after[j] == before[j]);
                } else if i < before.len() {
                    assert(after[i] == before[i]);
                    let a = choose|a: int| 0 <= a < n - 1 && items[a] == before[i];
                } else {
                    assert(after[j] == before[j]);
                    let a = choose|a: int| 0 <= a < n - 1 && items[a] == before[j];
                }
            }
        } else {
            assert forall|j: int| 0 <= j < after.len() implies keep(#[trigger] after[j]) && exists|
                a: int,
            | 0 <= a < n && items[a] == after[j] by {
                let a = choose|a: int| 0 <= a < n - 1 && items[a] == before[j];
                assert(items[a] == after[j]);
            }
        }
    }
}

/// Three identities chosen from the obstacle candidates of a trail that puts
/// no piece twice name each candidate once, and the trail puts each of them.
pub proof fn lemma_choice_of_three(trail: Seq<Placement>, ids: Seq<u8>)
    requires
        distinct_pieces(trail),
        is_selection(ids, candidates_in(trail, obstacle_candidates()), 3),
        ids.len() == 3,
    ensures
        is_obstacle_choice(ids),
        forall|j: int|
            0 <= j < 3 ==> exists|k: int|
                0 <= k < trail.len() && (#[trigger] trail[k]).piece_id == #[trigger] ids[j],
{
    let all = trail.map_values(identity());
    let keep = among(obstacle_candidates());
    let source = all.filter(keep);
    assert(all.no_duplicates()) by {
        assert forall|i: int, j: int|
            0 <= i < all.len() && 0 <= j < all.len() && i != j implies all[i] != all[j] by {
            if i < j {
                assert(trail[i].piece_id != trail[j].piece_id);
            } else {
                assert(trail[j].piece_id != trail[i].piece_id);
            }
        }
    }
    lemma_filter_distinct(all, keep, all.len() as int);
    assert(all.take(all.len() as int) =~= all);
    let from = choose|from: Seq<int>|
        {
            &&& from.len() == ids.len()
            &&& forall|j: int|
                0 <= j < from.len() ==> 0 <= #[trigger] from[j] < source.len() && ids[j]
                    == source[from[j]]
            &&& forall|j: int, k: int|
                0 <= j < k < from.len() ==> #[trigger] from[j] != #[trigger] from[k]
        };
    assert forall|j: int| 0 <= j < 3 implies 1 <= #[trigger] ids[j] <= 3 && exists|k: int|
        0 <= k < trail.len() && (#[trigger] trail[k]).piece_id == ids[j] by {
        let at = from[j];
        assert(keep(source[at]));
        let w = choose|w: int| 0 <= w < obstacle_candidates().len() && obstacle_candidates()[w]
            == source[at];
        let a = choose|a: int| 0 <= a < all.len() && all[a] == source[at];
        assert(trail[a].piece_id == ids[j]);
    }
    assert(from[0] != from[1] && from[0] != from[2] && from[1] != from[2]);
    assert(ids[0] == source[from[0]] && ids[1] == source[from[1]] && ids[2] == source[from[2]]);
}

/// Three identities chosen from the three obstacle candidates name each
/// candidate once.
pub proof fn lemma_choice_of_candidates(ids: Seq<u8>)
    requires
        is_selection(ids, obstacle_candidates(), 3),
    ensures
        is_obstacle_choice(ids),
{
    let source = obstacle_candidates();
    let from = choose|from: Seq<int>|
        {
            &&& from.len() == ids.len()
            &&& forall|j: int|
                0 <= j < from.len() ==> 0 <= #[trigger] from[j] < source.len() && ids[j]
                    == source[from[j]]
            &&& forall|j: int, k: int|
                0 <= j < k < from.len() ==> #[trigger] from[j] != #[trigger] from[k]
        };
    assert(from[0] != from[1] && from[0] != from[2] && from[1] != from[2]);
    assert(ids[0] == source[from[0]] && ids[1] == source[from[1]] && ids[2] == source[from[2]]);
}

/// A choice of the three obstacle candidates holds exactly the identities
/// 1, 2 and 3.
pub proof fn lemma_choice_holds(ids: Seq<u8>)
    requires
        is_obstacle_choice(ids),
    ensures
        forall|id: u8| ids.contains(id) <==> 1 <= id <= 3,
{
    assert forall|id: u8| ids.contains(id) <==> 1 <= id <= 3 by {
        if 1 <= id <= 3 {
            if ids[0] == id {
            } else if ids[1] == id {
            } else {
                assert(1 <= ids[0] <= 3 && 1 <= ids[1] <= 3 && 1 <= ids[2] <= 3);
                assert(ids[2] == id);
            }
        }
        if ids.contains(id) {
            let j = choose|j: int| 0 <= j < ids.len() && ids[j] == id;
            assert(1 <= ids[j] <= 3);
        }
    }
}

/// Without the three obstacle candidates, the catalog offers its eight
/// larger pieces.
pub proof fn lemma_pieces_in_play(ids: Seq<u8>)
    requires
        is_obstacle_choice(ids),
    ensures
        pieces_without(catalog(), ids.to_set()) == catalog().subrange(3, 11),
{
    lemma_pieces_in_play_first(ids, 11);
    assert(catalog().take(11) =~= catalog());
}

proof fn lemma_pieces_in_play_first(ids: Seq<u8>, n: int)
    requires
        is_obstacle_choice(ids),
        0 <= n <= 11,
    ensures
        catalog().take(n).filter(is_none_of(ids.to_set())) == if n <= 3 {
            Seq::<Piece>::empty()
        } else {
            catalog().subrange(3, n)
        },
    decreases n,
{
    lemma_catalog_pieces();
    lemma_choice_holds(ids);
    if n == 0 {
        lemma_filter_none(catalog(), is_none_of(ids.to_set()));
    } else {
        lemma_pieces_in_play_first(ids, n - 1);
        lemma_filter_next(catalog(), is_none_of(ids.to_set()), n - 1);
        assert(catalog()[n - 1].id == n);
        if n > 3 {
            assert(!ids.contains(catalog()[n - 1].id));
            if n == 4 {
                assert(Seq::<Piece>::empty().push(catalog()[3]) =~= catalog().subrange(3, 4));
            } else {
                assert(catalog().subrange(3, n - 1).push(catalog()[n - 1]) =~= catalog().subrange(
                    3,
                    n,
                ));
            }
        } else {
            assert(ids.contains(catalog()[n - 1].id));
        }
    }
}

/// How many of the first `n` placements of `trail` put one of three pieces
/// that the trail puts at the indices `a`, `b` and `c`.
proof fn lemma_records_among_first(
    trail: Seq<Placement>,
    ids: Seq<u8>,
    a: int,
    b: int,
    c: int,
    n: int,
)
    requires
        distinct_pieces(trail),
        is_obstacle_choice(ids),
        0 <= a < trail.len() && trail[a].piece_id == ids[0],
        0 <= b < trail.len() && trail[b].piece_id == ids[1],
        0 <= c < trail.len() && trail[c].piece_id == ids[2],
        0 <= n <= trail.len(),
    ensures
        trail.take(n).filter(puts_one_of(ids)).len() == (if a < n {
            1int
        } else {
            0int
        }) + (if b < n {
            1int
        } else {
            0int
        }) + (if c < n {
            1int
        } else {
            0int
        }),
    decreases n,
{
    if n == 0 {
        lemma_filter_none(trail, puts_one_of(ids));
    } else {
        lemma_records_among_first(trail, ids, a, b, c, n - 1);
        lemma_filter_next(trail, puts_one_of(ids), n - 1);
        let m = n - 1;
        if ids.contains(trail[m].piece_id) {
            let j = choose|j: int| 0 <= j < ids.len() && ids[j] == trail[m].piece_id;
            let at = if j == 0 {
                a
            } else if j == 1 {
                b
            } else {
                c
            };
            assert(trail[at].piece_id == trail[m].piece_id);
            if at < m {
                assert(trail[at].piece_id != trail[m].piece_id);
            }
            if m < at {
                assert(trail[m].piece_id != trail[at].piece_id);
            }
            assert(at == m);
            assert(a != b && a != c && b != c);
        } else {
            assert(m != a) by {
                if m == a {
                    assert(ids[0] == trail[m].piece_id);
                }
            }
            assert(m != b) by {
                if m == b {
                    assert(ids[1] == trail[m].piece_id);
                }
            }
            assert(m != c) by {
                if m == c {
                    assert(ids[2] == trail[m].piece_id);
                }
            }
        }
    }
}

/// The obstacle grid and the obstacle records of a trail whose pieces stand,
/// for a choice of the three obstacle candidates that the trail puts: three
/// records, one for each candidate, each at a cell that holds an obstacle,
/// on a grid that holds nothing but obstacles.
pub proof fn lemma_obstacles_of_trail(cells: Seq<i8>, trail: Seq<Placement>, ids: Seq<u8>)
    requires
        pieces_stand(cells, trail),
        is_obstacle_choice(ids),
        forall|j: int|
            0 <= j < 3 ==> exists|k: int|
                0 <= k < trail.len() && (#[trigger] trail[k]).piece_id == #[trigger] ids[j],
    ensures
        obstacle_records(trail, ids).len() == 3,
        forall|id: u8| 1 <= id <= 3 ==> #[trigger] names(obstacle_records(trail, ids), id),
        forall|k: int|
            0 <= k < 3 ==> marks_obstacle(
                obstacle_cells(trail, ids),
                #[trigger] obstacle_records(trail, ids)[k],
            ),
        holds_obstacles_only(obstacle_cells(trail, ids)),
{
    let keep = puts_one_of(ids);
    let kept = trail.filter(keep);
    let records = obstacle_records(trail, ids);
    let grid = obstacle_cells(trail, ids);
    assert(ids[0] == ids[0] && ids[1] == ids[1] && ids[2] == ids[2]);
    let a = choose|k: int| 0 <= k < trail.len() && (#[trigger] trail[k]).piece_id == ids[0];
    let b = choose|k: int| 0 <= k < trail.len() && (#[trigger] trail[k]).piece_id == ids[1];
    let c = choose|k: int| 0 <= k < trail.len() && (#[trigger] trail[k]).piece_id == ids[2];
    lemma_records_among_first(trail, ids, a, b, c, trail.len() as int);
    assert(trail.take(trail.len() as int) =~= trail);
    lemma_choice_holds(ids);
    lemma_catalog_pieces();
    assert forall|id: u8| 1 <= id <= 3 implies #[trigger] names(records, id) by {
        let at = if ids[0] == id {
            a
        } else if ids[1] == id {
            b
        } else {
            c
        };
        assert(ids.contains(id));
        assert(trail[at].piece_id == id);
        assert(keep(trail[at]));
        trail.lemma_filter_contains(keep, at);
        let k = choose|k: int| 0 <= k < kept.len() && kept[k] == trail[at];
        assert(records[k].2 == id);
    }
    assert forall|k: int| 0 <= k < 3 implies marks_obstacle(grid, #[trigger] records[k]) by {
        let placement = kept[k];
        trail.lemma_filter_pred(keep, k);
        assert(kept.contains(placement));
        trail.lemma_filter_contains_rev(keep, placement);
        let at = choose|at: int| 0 <= at < trail.len() && trail[at] == placement;
        assert(stands(cells, trail[at]));
        let piece = placed_piece(placement);
        assert(piece.width >= 1 && piece.height >= 1);
        let i = placement.row * 8 + placement.col;
        assert(occupies(trail[at], i));
        assert(is_blocked(trail, ids, i));
    }
}

/// Filtering one item more keeps what was kept, and the new item where it
/// passes the test.
pub proof fn lemma_filter_next<A>(items: Seq<A>, keep: spec_fn(A) -> bool, n: int)
    requires
        0 <= n < items.len(),
    ensures
        items.take(n + 1).filter(keep) == if keep(items[n]) {
            items.take(n).filter(keep).push(items[n])
        } else {
            items.take(n).filter(keep)
        },
{
    reveal(Seq::filter);
    assert(items.take(n + 1).drop_last() =~= items.take(n));
}

/// Filtering no item keeps none.
pub proof fn lemma_filter_none<A>(items: Seq<A>, keep: spec_fn(A) -> bool)
    ensures
        items.take(0).filter(keep) == Seq::<A>::empty(),
{
    reveal(Seq::filter);
    assert(items.take(0) =~= Seq::<A>::empty());
}

/// What the next placement of a trail does to the obstacle grid: where its
/// piece is one of `ids`, the piece can be put on the grid of the earlier
/// obstacles, and its cells become obstacles; else the grid stays.
pub proof fn lemma_obstacle_cells_next(cells: Seq<i8>, trail: Seq<Placement>, ids: Seq<u8>, k: int)
    requires
        pieces_stand(cells, trail),
        0 <= k < trail.len(),
    ensures
        ids.contains(trail[k].piece_id) ==> placeable(
            obstacle_cells(trail.take(k), ids),
            placed_piece(trail[k]),
            trail[k].row as int,
            trail[k].col as int,
        ) && obstacle_cells(trail.take(k + 1), ids) == blocked_with(
            obstacle_cells(trail.take(k), ids),
            placed_piece(trail[k]),
            trail[k].row as int,
            trail[k].col as int,
        ),
        !ids.contains(trail[k].piece_id) ==> obstacle_cells(trail.take(k + 1), ids)
            == obstacle_cells(trail.take(k), ids),
{
    let before = trail.take(k);
    let after = trail.take(k + 1);
    assert(stands(cells, trail[k]));
    assert forall|i: int| 0 <= i < 64 implies (is_blocked(after, ids, i) <==> is_blocked(
        before,
        ids,
        i,
    ) || (ids.contains(trail[k].piece_id) && occupies(trail[k], i))) by {
        if is_blocked(after, ids, i) {
            let j = choose|j: int|
                0 <= j < after.len() && ids.contains((#[trigger] after[j]).piece_id) && occupies(
                    after[j],
                    i,
                );
            if j < k {
                assert(before[j] == after[j]);
            } else {
                assert(after[j] == trail[k]);
            }
        }
        if is_blocked(before, ids, i) {
            let j = choose|j: int|
                0 <= j < before.len() && ids.contains((#[trigger] before[j]).piece_id) && occupies(
                    before[j],
                    i,
                );
            assert(after[j] == before[j]);
        }
        if ids.contains(trail[k].piece_id) && occupies(trail[k], i) {
            assert(after[k] == trail[k]);
        }
    }
    if ids.contains(trail[k].piece_id) {
        assert forall|i: int| 0 <= i < 64 && occupies(trail[k], i) implies !is_blocked(
            before,
            ids,
            i,
        ) by {
            if is_blocked(before, ids, i) {
                let j = choose|j: int|
                    0 <= j < before.len() && ids.contains((#[trigger] before[j]).piece_id)
                        && occupies(before[j], i);
                assert(before[j] == trail[j]);
                assert(stands(cells, trail[j]));
                assert(cells[i] == trail[j].piece_id);
                assert(cells[i] == trail[k].piece_id);
            }
        }
        assert(obstacle_cells(after, ids) =~= blocked_with(
            obstacle_cells(before, ids),
            placed_piece(trail[k]),
            trail[k].row as int,
            trail[k].col as int,
        ));
    } else {
        assert(obstacle_cells(after, ids) =~= obstacle_cells(before, ids));
    }
}

} // verus!
