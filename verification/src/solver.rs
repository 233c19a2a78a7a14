//! The search: depth-first backtracking over the first empty cell, which
//! collects complete tilings up to a cap.

use vstd::prelude::*;
use crate::board::{Board, first_empty, full, lemma_place_then_remove, placeable, with_piece};
use crate::types::{GameState, Piece, Placement, Solution, SolveResult, Tiling, tilings_of};

verus! {

/// The record of putting `piece` at the cell with row-major index `at`.
pub open spec fn placement_of(piece: Piece, at: int) -> Placement {
    Placement {
        piece_id: piece.id,
        row: (at / 8) as usize,
        col: (at % 8) as usize,
        rotated: piece.rotated,
    }
}

/// Every complete tiling that extends `cells` with pieces of `pool`, in the
/// order in which the search meets them. Each piece is put at the first empty
/// cell; `trail` holds the placements made so far.
pub open spec fn tilings(cells: Seq<i8>, pool: Seq<Piece>, trail: Seq<Placement>) -> Seq<Tiling>
    decreases pool.len(), 2int, 0int,
{
    if full(cells) {
        seq![Tiling { cells, trail }]
    } else {
        tilings_from(cells, pool, trail, 0)
    }
}

/// The tilings of a grid that is not full whose next piece is one of
/// `pool[i..]`, by the index of that piece.
pub open spec fn tilings_from(cells: Seq<i8>, pool: Seq<Piece>, trail: Seq<Placement>, i: int) -> Seq<
    Tiling,
>
    decreases pool.len(), 1int, pool.len() - i,
{
    if 0 <= i < pool.len() {
        tilings_with(cells, pool, trail, i) + tilings_from(cells, pool, trail, i + 1)
    } else {
        Seq::empty()
    }
}

/// The tilings whose next piece is `pool[i]`: first as it lies in the pool,
/// then turned by a quarter. A square piece is tried in one orientation only.
pub open spec fn tilings_with(cells: Seq<i8>, pool: Seq<Piece>, trail: Seq<Placement>, i: int) -> Seq<
    Tiling,
>
    decreases pool.len(), 0int, 0int,
{
    if 0 <= i < pool.len() {
        let rest = pool.remove(i);
        tilings_oriented(cells, rest, trail, pool[i]) + if pool[i].is_square() {
            Seq::empty()
        } else {
            tilings_oriented(cells, rest, trail, pool[i].turned())
        }
    } else {
        Seq::empty()
    }
}

/// The tilings whose next step puts `piece`, as it is oriented, at the first
/// empty cell, and which go on with the pieces of `rest`.
pub open spec fn tilings_oriented(
    cells: Seq<i8>,
    rest: Seq<Piece>,
    trail: Seq<Placement>,
    piece: Piece,
) -> Seq<Tiling>
    decreases rest.len(), 3int, 0int,
{
    let at = first_empty(cells);
    if placeable(cells, piece, at / 8, at % 8) {
        tilings(with_piece(cells, piece, at / 8, at % 8), rest, trail.push(placement_of(piece, at)))
    } else {
        Seq::empty()
    }
}

/// The first `n` of `all`, or all of them where there are fewer.
pub open spec fn first_few(all: Seq<Tiling>, n: int) -> Seq<Tiling> {
    if n <= 0 {
        Seq::empty()
    } else if n >= all.len() {
        all
    } else {
        all.take(n)
    }
}

/// Those of the first `n` of `pieces` whose flag in `used` is not set, in order.
pub open spec fn unused_of_first(pieces: Seq<Piece>, used: Seq<bool>, n: int) -> Seq<Piece>
    decreases n,
{
    if n <= 0 {
        Seq::empty()
    } else if used[n - 1] {
        unused_of_first(pieces, used, n - 1)
    } else {
        unused_of_first(pieces, used, n - 1).push(pieces[n - 1])
    }
}

/// The pieces whose flag in `used` is not set, in order.
pub open spec fn unused(pieces: Seq<Piece>, used: Seq<bool>) -> Seq<Piece> {
    unused_of_first(pieces, used, pieces.len() as int)
}

/// What a search with cap `cap` finds from `cells` with the pieces of `pool`.
pub open spec fn search(cells: Seq<i8>, pool: Seq<Piece>, cap: int) -> Seq<Tiling> {
    first_few(tilings(cells, pool, Seq::empty()), cap)
}

/// How many solutions a search finds: all there are, or as many as the cap
/// allows where there are more. So a search with a cap of 2 or more finds
/// exactly one solution where there is exactly one, and a search with a cap
/// of 1 or more finds none where there is none.
pub proof fn lemma_search_len(cells: Seq<i8>, pool: Seq<Piece>, cap: int)
    ensures
        search(cells, pool, cap).len() == if cap <= 0 {
            0
        } else if cap >= tilings(cells, pool, Seq::empty()).len() {
            tilings(cells, pool, Seq::empty()).len() as int
        } else {
            cap
        },
        cap >= 2 ==> (search(cells, pool, cap).len() == 1 <==> tilings(
            cells,
            pool,
            Seq::empty(),
        ).len() == 1),
        cap >= 1 ==> (search(cells, pool, cap).len() == 0 <==> tilings(
            cells,
            pool,
            Seq::empty(),
        ).len() == 0),
        forall|j: int|
            0 <= j < search(cells, pool, cap).len() ==> #[trigger] search(cells, pool, cap)[j]
                == tilings(cells, pool, Seq::empty())[j],
{
}

/// Setting the flag of an unused piece takes that piece out of the unused
/// ones, at the position that counts the unused pieces before it.
pub proof fn lemma_unused_without(pieces: Seq<Piece>, used: Seq<bool>, i: int, n: int)
    requires
        0 <= i < used.len(),
        !used[i],
        0 <= n <= used.len(),
    ensures
        n <= i ==> unused_of_first(pieces, used.update(i, true), n) == unused_of_first(
            pieces,
            used,
            n,
        ),
        n > i ==> {
            let k = unused_of_first(pieces, used, i).len() as int;
            &&& k < unused_of_first(pieces, used, n).len()
            &&& unused_of_first(pieces, used, n)[k] == pieces[i]
            &&& unused_of_first(pieces, used.update(i, true), n) == unused_of_first(
                pieces,
                used,
                n,
            ).remove(k)
        },
    decreases n,
{
    if n > 0 {
        lemma_unused_without(pieces, used, i, n - 1);
        let k = unused_of_first(pieces, used, i).len() as int;
        let before = unused_of_first(pieces, used, n - 1);
        if n - 1 == i {
            assert(before.push(pieces[i]).remove(k) =~= before);
        } else if n - 1 > i {
            if !used[n - 1] {
                assert(before.push(pieces[n - 1]).remove(k) =~= before.remove(k).push(
                    pieces[n - 1],
                ));
            }
        }
    }
}

/// Where no flag is set, every piece is unused.
pub proof fn lemma_unused_all(pieces: Seq<Piece>, used: Seq<bool>, n: int)
    requires
        0 <= n <= pieces.len(),
        forall|j: int| 0 <= j < n ==> !used[j],
    ensures
        unused_of_first(pieces, used, n) == pieces.take(n),
    decreases n,
{
    if n > 0 {
        lemma_unused_all(pieces, used, n - 1);
        assert(pieces.take(n - 1).push(pieces[n - 1]) =~= pieces.take(n));
    } else {
        assert(pieces.take(0) =~= Seq::<Piece>::empty());
    }
}

/// The first few of two lists in a row are taken from the first list as far
/// as it reaches, and from the second after that.
pub proof fn lemma_first_few_of_two(a: Seq<Tiling>, b: Seq<Tiling>, n: int)
    ensures
        first_few(a + b, n) == if n <= a.len() {
            first_few(a, n)
        } else {
            a + first_few(b, n - a.len())
        },
        first_few(a, n).len() == if n <= 0 {
            0
        } else if n >= a.len() {
            a.len() as int
        } else {
            n
        },
{
    assert(first_few(a + b, n) =~= if n <= a.len() {
        first_few(a, n)
    } else {
        a + first_few(b, n - a.len())
    });
}

/// One branch of the search: `found` holds what was there (`base`), the
/// tilings of the branches before (`done`), and the first of this branch
/// (`next`) as far as the cap allows. Where that reaches the cap, `found` is
/// the first of all branches up to the cap; else it holds this branch whole.
pub proof fn lemma_branch_taken(
    base: Seq<Tiling>,
    done: Seq<Tiling>,
    next: Seq<Tiling>,
    rest: Seq<Tiling>,
    cap: int,
    found: Seq<Tiling>,
)
    requires
        base.len() + done.len() < cap,
        found == (base + done) + first_few(next, cap - (base.len() + done.len())),
    ensures
        found.len() <= cap,
        found.len() >= cap ==> found == base + first_few(
            done + (next + rest),
            cap - base.len(),
        ),
        found.len() < cap ==> found == base + (done + next),
{
    let room = cap - base.len();
    lemma_first_few_of_two(done, next + rest, room);
    lemma_first_few_of_two(next, rest, room - done.len());
    if found.len() >= cap {
        assert(found =~= base + first_few(done + (next + rest), room));
    } else {
        assert(found =~= base + (done + next));
    }
}

/// A copy of a list of placements.
fn copy_trail(placements: &Vec<Placement>) -> (copy: Vec<Placement>)
    ensures
        copy@ == placements@,
{
    let copy = placements.clone();
    assert(copy@ =~= placements@);
    copy
}

/// The search engine. It collects up to `max_solutions` complete tilings.
pub struct Solver {
    max_solutions: usize,
}

impl Solver {
    /// The most solutions that a search collects before it stops.
    pub closed spec fn cap(&self) -> int {
        self.max_solutions as int
    }

    /// Creates a solver that stops after `max_solutions` solutions.
    pub fn new(max_solutions: usize) -> (solver: Solver)
        ensures
            solver.cap() == max_solutions,
    {
        Solver { max_solutions }
    }

    /// Creates a solver that stops after two solutions, which is what it
    /// takes to tell whether a puzzle has exactly one.
    pub fn default() -> (solver: Solver)
        ensures
            solver.cap() == 2,
    {
        Solver::new(2)
    }

    /// Searches for complete tilings of the state's grid with its unused
    /// pieces. The result holds the first solutions in search order, up to
    /// the cap, and its variant tells how many those are.
    pub fn solve(&self, state: &GameState) -> (result: SolveResult)
        requires
            state.pieces@.len() <= state.used_pieces@.len(),
        ensures
            result.found() == search(
                state.board@,
                unused(state.pieces@, state.used_pieces@),
                self.cap(),
            ),
            result is NoSolution <==> result.found().len() == 0,
            result is UniqueSolution <==> result.found().len() == 1,
            result is MultipleSolutions <==> result.found().len() >= 2,
    {
        let mut board = state.board.clone();
        let mut pieces: Vec<Piece> = Vec::new();
        let mut i: usize = 0;
        while i < state.pieces.len()
            invariant
                i <= state.pieces@.len() <= state.used_pieces@.len(),
                pieces@ == unused_of_first(state.pieces@, state.used_pieces@, i as int),
            decreases state.pieces@.len() - i,
        {
            if !state.used_pieces[i] {
                pieces.push(state.pieces[i]);
            }
            i += 1;
        }
        let mut used: Vec<bool> = vec![false; pieces.len()];
        let mut solutions: Vec<Solution> = Vec::new();
        let mut placements: Vec<Placement> = Vec::new();
        proof {
            lemma_unused_all(pieces@, used@, pieces@.len() as int);
            assert(pieces@.take(pieces@.len() as int) =~= pieces@);
            assert(tilings_of(solutions@) =~= Seq::<Tiling>::empty());
            assert(placements@ =~= Seq::<Placement>::empty());
        }
        let ghost all = tilings(state.board@, pieces@, Seq::empty());
        self.dfs(&mut board, &pieces, &mut used, &mut solutions, &mut placements);
        proof {
            lemma_first_few_of_two(all, Seq::empty(), self.cap());
            assert(tilings_of(solutions@) =~= first_few(all, self.cap()));
        }
        if solutions.len() == 0 {
            SolveResult::NoSolution
        } else if solutions.len() == 1 {
            let ghost before = solutions@;
            let only = solutions.remove(0);
            assert(seq![only@] =~= tilings_of(before));
            SolveResult::UniqueSolution(only)
        } else {
            SolveResult::MultipleSolutions(solutions)
        }
    }

    /// One step of the search. Where the cap is reached it stops; where the
    /// grid is full it records a solution; else it tries every unused piece
    /// at the first empty cell. It leaves grid, flags and trail as it found
    /// them, and says whether the cap is reached.
    fn dfs(
        &self,
        board: &mut Board,
        pieces: &Vec<Piece>,
        used: &mut Vec<bool>,
        solutions: &mut Vec<Solution>,
        placements: &mut Vec<Placement>,
    ) -> (stop: bool)
        requires
            old(used)@.len() == pieces@.len(),
        ensures
            final(board)@ == old(board)@,
            final(used)@ == old(used)@,
            final(placements)@ == old(placements)@,
            tilings_of(final(solutions)@) == tilings_of(old(solutions)@) + first_few(
                tilings(old(board)@, unused(pieces@, old(used)@), old(placements)@),
                self.cap() - old(solutions)@.len(),
            ),
            stop == (final(solutions)@.len() >= self.cap()),
        decreases unused(pieces@, old(used)@).len(), 1int,
    {
        let ghost cells = board@;
        let ghost trail = placements@;
        let ghost flags = used@;
        let ghost pool = unused(pieces@, used@);
        let ghost base = tilings_of(solutions@);
        let ghost room = self.cap() - solutions@.len();
        if solutions.len() >= self.max_solutions {
            assert(tilings_of(solutions@) =~= base + Seq::<Tiling>::empty());
            return true;
        }
        if board.is_full() {
            let solution = Solution { board: board.clone(), placements: copy_trail(placements) };
            solutions.push(solution);
            assert(tilings_of(solutions@) =~= base + seq![Tiling { cells, trail }]);
            return solutions.len() >= self.max_solutions;
        }
        let (row, col) = match board.find_first_empty() {
            Some(position) => position,
            None => {
                return false;
            },
        };
        let ghost all = tilings_from(cells, pool, trail, 0);
        let ghost mut done: Seq<Tiling> = Seq::empty();
        let ghost mut k: int = 0;
        let mut i: usize = 0;
        assert(base =~= base + done);
        assert(done + tilings_from(cells, pool, trail, 0) =~= all);
        while i < pieces.len()
            invariant
                i <= pieces@.len(),
                used@.len() == pieces@.len(),
                cells == old(board)@,
                flags == old(used)@,
                trail == old(placements)@,
                base == tilings_of(old(solutions)@),
                room == self.cap() - old(solutions)@.len(),
                board@ == cells,
                used@ == flags,
                placements@ == trail,
                pool == unused(pieces@, flags),
                k == unused_of_first(pieces@, flags, i as int).len(),
                0 <= k <= pool.len(),
                i == pieces@.len() ==> k == pool.len(),
                done + tilings_from(cells, pool, trail, k) == all,
                tilings_of(solutions@) == base + done,
                solutions@.len() < self.cap(),
                row < 8,
                col < 8,
                row * 8 + col == first_empty(cells),
                all == tilings(cells, pool, trail),
            decreases pieces@.len() - i,
        {
            if !used[i] {
                let piece = pieces[i];
                let ghost rest = unused(pieces@, flags.update(i as int, true));
                let ghost straight = tilings_oriented(cells, rest, trail, piece);
                let ghost turned = if piece.is_square() {
                    Seq::<Tiling>::empty()
                } else {
                    tilings_oriented(cells, rest, trail, piece.turned())
                };
                let ghost later = tilings_from(cells, pool, trail, k + 1);
                proof {
                    lemma_unused_without(pieces@, flags, i as int, pieces@.len() as int);
                    assert(rest == pool.remove(k));
                    assert(tilings_with(cells, pool, trail, k) == straight + turned);
                    assert(tilings_from(cells, pool, trail, k) =~= straight + (turned + later));
                    assert(tilings_of(solutions@).len() == solutions@.len());
                }
                let stop = self.try_piece(
                    board,
                    pieces,
                    used,
                    solutions,
                    placements,
                    i,
                    piece,
                    row,
                    col,
                );
                proof {
                    lemma_branch_taken(
                        base,
                        done,
                        straight,
                        turned + later,
                        self.cap(),
                        tilings_of(solutions@),
                    );
                    assert(tilings_of(solutions@).len() == solutions@.len());
                }
                if stop {
                    return true;
                }
                proof {
                    done = done + straight;
                }
                if piece.width != piece.height {
                    let mut other = piece;
                    other.rotate();
                    let stop = self.try_piece(
                        board,
                        pieces,
                        used,
                        solutions,
                        placements,
                        i,
                        other,
                        row,
                        col,
                    );
                    proof {
                        lemma_branch_taken(
                            base,
                            done,
                            turned,
                            later,
                            self.cap(),
                            tilings_of(solutions@),
                        );
                        assert(tilings_of(solutions@).len() == solutions@.len());
                        assert(done + (turned + later) =~= all);
                    }
                    if stop {
                        return true;
                    }
                }
                proof {
                    done = done + turned;
                    k = k + 1;
                    assert(done + later =~= all);
                    assert(tilings_of(solutions@) =~= base + done);
                }
            }
            i += 1;
        }
        proof {
            assert(tilings_from(cells, pool, trail, k) =~= Seq::<Tiling>::empty());
            assert(done =~= all);
            assert(tilings_of(solutions@).len() == solutions@.len());
            lemma_first_few_of_two(all, Seq::empty(), room);
        }
        false
    }

    /// Tries `piece`, an orientation of the unused piece at index `i`, at the
    /// first empty cell (`row`, `col`): puts it where it can be put, searches
    /// on, and takes it away again.
    fn try_piece(
        &self,
        board: &mut Board,
        pieces: &Vec<Piece>,
        used: &mut Vec<bool>,
        solutions: &mut Vec<Solution>,
        placements: &mut Vec<Placement>,
        i: usize,
        piece: Piece,
        row: usize,
        col: usize,
    ) -> (stop: bool)
        requires
            old(used)@.len() == pieces@.len(),
            i < pieces@.len(),
            !old(used)@[i as int],
            old(solutions)@.len() < self.cap(),
            row < 8,
            col < 8,
            row * 8 + col == first_empty(old(board)@),
        ensures
            final(board)@ == old(board)@,
            final(used)@ == old(used)@,
            final(placements)@ == old(placements)@,
            tilings_of(final(solutions)@) == tilings_of(old(solutions)@) + first_few(
                tilings_oriented(
                    old(board)@,
                    unused(pieces@, old(used)@.update(i as int, true)),
                    old(placements)@,
                    piece,
                ),
                self.cap() - old(solutions)@.len(),
            ),
            stop == (final(solutions)@.len() >= self.cap()),
        decreases unused(pieces@, old(used)@).len(), 0int,
    {
        if board.can_place(&piece, row, col) {
            proof {
                board.lemma_len();
                lemma_unused_without(pieces@, used@, i as int, pieces@.len() as int);
                lemma_place_then_remove(board@, piece, row as int, col as int);
            }
            board.place(&piece, row, col);
            used[i] = true;
            placements.push(
                Placement { piece_id: piece.id, row, col, rotated: piece.rotated },
            );
            let stop = self.dfs(board, pieces, used, solutions, placements);
            placements.pop();
            board.remove(&piece, row, col);
            used[i] = false;
            proof {
                assert(used@ =~= old(used)@);
                assert(placements@ =~= old(placements)@);
            }
            stop
        } else {
            assert(tilings_of(solutions@) =~= tilings_of(solutions@) + Seq::<Tiling>::empty());
            false
        }
    }
}

} // verus!
