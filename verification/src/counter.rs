//! The level-synchronous counter: the boards reached after a given number of
//! placements are expanded together, and each hands its count on to its
//! successors.

use vstd::prelude::*;
use crate::board::Board;
use crate::board::BoardState;
use crate::expand::board_views;
use crate::expand::extends;
use crate::expand::find_board;
use crate::expand::place_tile_on_all;
use crate::expand::successors;
use crate::paths::completions;
use crate::paths::completions_via;
use crate::paths::lemma_completions_via;
use crate::paths::lemma_potential_push;
use crate::paths::lemma_potential_update;
use crate::paths::potential;
use crate::tile::TileCollection;

verus! {

/// Counts are kept in 64 bits: sums are taken modulo this number.
pub open spec fn modulus() -> nat {
    0x1_0000_0000_0000_0000
}

/// Every board of the list is well formed, has `cells` cells, of which at
/// least `bound` are covered, and is not complete.
pub open spec fn frontier_ok(boards: Seq<BoardState>, cells: nat, bound: nat) -> bool {
    forall|i: int|
        0 <= i < boards.len() ==> {
            &&& (#[trigger] boards[i]).wf()
            &&& !boards[i].is_complete()
            &&& boards[i].marked.len() == cells
            &&& boards[i].marked_count() >= bound
        }
}

/// Every board of `now` either stood at the same place in `before` or is a
/// board that extends `parent` and is not complete.
pub open spec fn grown_from(before: Seq<BoardState>, now: Seq<BoardState>, parent: BoardState) -> bool {
    &&& before.len() <= now.len()
    &&& forall|j: int|
        0 <= j < now.len() ==> (j < before.len() && #[trigger] now[j] == before[j]) || (extends(
            parent,
            now[j],
        ) && !now[j].is_complete())
}

/// Hands `count` to `child`: to the tally of finished tilings if the child
/// is complete, else to its entry in the list, which is made if there is
/// none. The result is what was lost to the 64 bits, in units of the modulus.
pub(crate) fn absorb(
    boards: &mut Vec<Board>,
    counts: &mut Vec<u64>,
    finished: &mut u64,
    child: Board,
    count: u64,
    Ghost(parent): Ghost<BoardState>,
    Ghost(tiles): Ghost<Seq<Seq<(i64, i64)>>>,
) -> (carry: Ghost<nat>)
    requires
        old(boards)@.len() == old(counts)@.len(),
        extends(parent, child@),
    ensures
        final(boards)@.len() == final(counts)@.len(),
        grown_from(board_views(old(boards)@), board_views(final(boards)@), parent),
        potential(board_views(final(boards)@), final(counts)@, tiles, final(boards)@.len() as nat)
            + *final(finished) + modulus() * carry@ == potential(
            board_views(old(boards)@),
            old(counts)@,
            tiles,
            old(boards)@.len() as nat,
        ) + *old(finished) + count * completions(child@, tiles),
{
    let ghost before = board_views(boards@);
    let ghost before_counts = counts@;
    let ghost w = completions(child@, tiles);
    if child.is_all_marked() {
        let ghost overflow = *finished + count > u64::MAX;
        *finished = finished.wrapping_add(count);
        assert(board_views(boards@) =~= before);
        Ghost(if overflow { 1nat } else { 0nat })
    } else {
        match find_board(boards, &child) {
            Some(j) => {
                let present: u64 = counts[j];
                let sum: u64 = present.wrapping_add(count);
                let ghost overflow = present + count > u64::MAX;
                counts.set(j, sum);
                proof {
                    assert(before[j as int] == child@);
                    lemma_potential_update(
                        before,
                        before_counts,
                        tiles,
                        j as int,
                        sum,
                        before.len(),
                    );
                    if overflow {
                        assert((sum - present) * w + modulus() * w == count * w)
                            by (nonlinear_arith)
                            requires
                                sum - present == count - modulus(),
                        ;
                    }
                }
                Ghost(if overflow { w } else { 0nat })
            },
            None => {
                proof {
                    lemma_potential_push(before, before_counts, tiles, child@, count);
                }
                boards.push(child);
                counts.push(count);
                assert(board_views(boards@) =~= before.push(child@));
                Ghost(0nat)
            },
        }
    }
}

/// Hands the count of a board on to each of its successors.
pub(crate) fn distribute(
    children: Vec<Board>,
    count: u64,
    boards: &mut Vec<Board>,
    counts: &mut Vec<u64>,
    finished: &mut u64,
    Ghost(parent): Ghost<BoardState>,
    Ghost(tiles): Ghost<Seq<Seq<(i64, i64)>>>,
) -> (carry: Ghost<nat>)
    requires
        parent.wf(),
        !parent.is_complete(),
        board_views(children@) == successors(parent, tiles),
        old(boards)@.len() == old(counts)@.len(),
    ensures
        final(boards)@.len() == final(counts)@.len(),
        grown_from(board_views(old(boards)@), board_views(final(boards)@), parent),
        potential(board_views(final(boards)@), final(counts)@, tiles, final(boards)@.len() as nat)
            + *final(finished) + modulus() * carry@ == potential(
            board_views(old(boards)@),
            old(counts)@,
            tiles,
            old(boards)@.len() as nat,
        ) + *old(finished) + count * completions(parent, tiles),
{
    let ghost before = board_views(boards@);
    let ghost start = potential(before, counts@, tiles, boards@.len() as nat) + *finished;
    let ghost mut carry: nat = 0;
    let mut children = children;
    while children.len() > 0
        invariant
            parent.wf(),
            children@.len() <= successors(parent, tiles).len(),
            forall|p: int|
                0 <= p < children@.len() ==> (#[trigger] children@[p])@ == successors(
                    parent,
                    tiles,
                )[p],
            boards@.len() == counts@.len(),
            grown_from(before, board_views(boards@), parent),
            potential(board_views(boards@), counts@, tiles, boards@.len() as nat) + *finished
                + modulus() * carry + count * completions_via(
                parent,
                tiles,
                children@.len() as nat,
            ) == start + count * completions(parent, tiles),
        decreases children@.len(),
    {
        let ghost m = children@.len() as nat;
        let child: Board = children.pop().unwrap();
        proof {
            assert(child@ == successors(parent, tiles)[m - 1]);
            lemma_completions_via(parent, tiles, m);
            let a = completions_via(parent, tiles, (m - 1) as nat);
            let b = completions(child@, tiles);
            assert(count * (a + b) == count * a + count * b) by (nonlinear_arith);
        }
        let extra = absorb(boards, counts, finished, child, count, Ghost(parent), Ghost(tiles));
        proof {
            assert(modulus() * (carry + extra@) == modulus() * carry + modulus() * extra@)
                by (nonlinear_arith);
            carry = carry + extra@;
        }
    }
    proof {
        assert(completions_via(parent, tiles, 0) == 0);
        assert(count * 0 == 0);
    }
    Ghost(carry)
}

/// One step of the counter: expands every board of the frontier and hands
/// its count on to its successors. Returns the next frontier with its counts
/// and the tally of finished tilings.
pub(crate) fn advance_level(
    boards: Vec<Board>,
    counts: Vec<u64>,
    finished: u64,
    tiles: &TileCollection,
    Ghost(cells): Ghost<nat>,
    Ghost(bound): Ghost<nat>,
) -> (r: (Vec<Board>, Vec<u64>, u64, Ghost<nat>))
    requires
        boards@.len() == counts@.len(),
        frontier_ok(board_views(boards@), cells, bound),
    ensures
        r.0@.len() == r.1@.len(),
        frontier_ok(board_views(r.0@), cells, bound + 1),
        potential(board_views(r.0@), r.1@, tiles@, r.0@.len() as nat) + r.2 + modulus() * r.3@
            == potential(board_views(boards@), counts@, tiles@, boards@.len() as nat) + finished,
{
    let ghost frontier = board_views(boards@);
    let mut expansions: Vec<Vec<Board>> = place_tile_on_all(&boards, 0, tiles);
    let mut next: Vec<Board> = Vec::new();
    let mut next_counts: Vec<u64> = Vec::new();
    let mut tally: u64 = finished;
    let ghost mut carry: nat = 0;
    while expansions.len() > 0
        invariant
            frontier == board_views(boards@),
            boards@.len() == counts@.len(),
            frontier_ok(frontier, cells, bound),
            expansions@.len() <= boards@.len(),
            forall|i: int|
                0 <= i < expansions@.len() ==> board_views(#[trigger] expansions@[i]@)
                    == successors(boards@[i]@, tiles@),
            next@.len() == next_counts@.len(),
            frontier_ok(board_views(next@), cells, bound + 1),
            potential(frontier, counts@, tiles@, expansions@.len() as nat) + potential(
                board_views(next@),
                next_counts@,
                tiles@,
                next@.len() as nat,
            ) + tally + modulus() * carry == potential(
                frontier,
                counts@,
                tiles@,
                boards@.len() as nat,
            ) + finished,
        decreases expansions@.len(),
    {
        let ghost before = board_views(next@);
        let children: Vec<Board> = expansions.pop().unwrap();
        let i: usize = expansions.len();
        let count: u64 = counts[i];
        let ghost parent = frontier[i as int];
        proof {
            assert(parent == boards@[i as int]@);
            assert(parent.wf() && !parent.is_complete());
        }
        let extra = distribute(
            children,
            count,
            &mut next,
            &mut next_counts,
            &mut tally,
            Ghost(parent),
            Ghost(tiles@),
        );
        proof {
            assert(modulus() * (carry + extra@) == modulus() * carry + modulus() * extra@)
                by (nonlinear_arith);
            carry = carry + extra@;
            let now = board_views(next@);
            assert forall|j: int| 0 <= j < now.len() implies {
                &&& (#[trigger] now[j]).wf()
                &&& !now[j].is_complete()
                &&& now[j].marked.len() == cells
                &&& now[j].marked_count() >= bound + 1
            } by {
                if j < before.len() && now[j] == before[j] {
                } else {
                    assert(extends(parent, now[j]));
                }
            }
        }
    }
    (next, next_counts, tally, Ghost(carry))
}

/// Counts the ways to complete `initial` with the tiles, by breadth-first
/// dynamic programming over the boards reached. The count is taken modulo
/// 2^64, so it is exact whenever it fits in 64 bits. A board that is already
/// complete has one completion, with no tile laid.
pub fn count_tilings_quick(initial: &Board, tiles: &TileCollection) -> (r: u64)
    ensures
        r as nat == completions(initial@, tiles@) % modulus(),
        completions(initial@, tiles@) <= u64::MAX ==> r as nat == completions(initial@, tiles@),
{
    let cells: usize = initial.cell_count();
    let ghost total = completions(initial@, tiles@);
    if initial.is_all_marked() {
        assert(total == 1);
        return 1;
    }
    let mut boards: Vec<Board> = Vec::new();
    let mut counts: Vec<u64> = Vec::new();
    boards.push(initial.clone());
    counts.push(1);
    let mut finished: u64 = 0;
    let ghost mut lost: nat = 0;
    let ghost mut level: nat = 0;
    proof {
        assert(board_views(boards@) =~= seq![initial@]);
        let weights = crate::paths::completion_weights(board_views(boards@), tiles@);
        assert(crate::paths::weighted(counts@, weights, 0) == 0);
        assert(crate::paths::weighted(counts@, weights, 1) == 1 * total);
    }
    while boards.len() > 0
        invariant
            boards@.len() == counts@.len(),
            frontier_ok(board_views(boards@), cells as nat, level),
            potential(board_views(boards@), counts@, tiles@, boards@.len() as nat) + finished
                + modulus() * lost == total,
        decreases cells - level,
    {
        proof {
            let first = board_views(boards@)[0];
            assert(first.wf());
            crate::board::lemma_count_true_bound(first.marked);
            crate::board::lemma_count_true_full(first.marked);
        }
        let (next, next_counts, tally, extra) = advance_level(
            boards,
            counts,
            finished,
            tiles,
            Ghost(cells as nat),
            Ghost(level),
        );
        boards = next;
        counts = next_counts;
        finished = tally;
        proof {
            assert(modulus() * (lost + extra@) == modulus() * lost + modulus() * extra@)
                by (nonlinear_arith);
            lost = lost + extra@;
            level = level + 1;
        }
    }
    proof {
        assert(potential(board_views(boards@), counts@, tiles@, 0) == 0);
        vstd::arithmetic::div_mod::lemma_fundamental_div_mod_converse(
            total as int,
            modulus() as int,
            lost as int,
            finished as int,
        );
        if total <= u64::MAX {
            vstd::arithmetic::div_mod::lemma_small_mod(total, modulus());
        }
    }
    finished
}

} // verus!
