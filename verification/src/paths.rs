//! What is counted: the ways to complete a board, tile by tile.

use vstd::prelude::*;
use crate::board::BoardState;
use crate::expand::extends;
use crate::expand::lemma_successors;
use crate::expand::successors;

verus! {

/// Number of ways to complete the board: sequences of placements, each onto
/// the first free cell of the board reached so far, that end on the complete
/// board. A complete board has one, the empty sequence.
pub open spec fn completions(s: BoardState, tiles: Seq<Seq<(i64, i64)>>) -> nat
    decreases s.unmarked_count(), 1nat, 0nat,
{
    if s.is_complete() {
        1
    } else {
        completions_via(s, tiles, successors(s, tiles).len())
    }
}

/// Number of ways to complete the board that begin with a step to one of its
/// first `n` successors.
pub open spec fn completions_via(s: BoardState, tiles: Seq<Seq<(i64, i64)>>, n: nat) -> nat
    decreases s.unmarked_count(), 0nat, n,
{
    if n == 0 || n > successors(s, tiles).len() {
        0
    } else {
        let next = successors(s, tiles)[n - 1];
        completions_via(s, tiles, (n - 1) as nat) + if next.unmarked_count()
            < s.unmarked_count() {
            completions(next, tiles)
        } else {
            0
        }
    }
}

/// The ways through the first `n` successors are those through the first
/// `n - 1` and those through the last of them.
pub proof fn lemma_completions_via(s: BoardState, tiles: Seq<Seq<(i64, i64)>>, n: nat)
    requires
        s.wf(),
        0 < n <= successors(s, tiles).len(),
    ensures
        completions_via(s, tiles, n) == completions_via(s, tiles, (n - 1) as nat) + completions(
            successors(s, tiles)[n - 1],
            tiles,
        ),
        extends(s, successors(s, tiles)[n - 1]),
{
    lemma_successors(s, tiles);
}

/// A board that can be completed through one of its successors can be
/// completed.
pub proof fn lemma_completions_via_bound(s: BoardState, tiles: Seq<Seq<(i64, i64)>>, n: nat, k: int)
    requires
        s.wf(),
        0 <= k < n <= successors(s, tiles).len(),
    ensures
        completions_via(s, tiles, n) >= completions(successors(s, tiles)[k], tiles),
    decreases n,
{
    lemma_completions_via(s, tiles, n);
    if k < n - 1 {
        lemma_completions_via_bound(s, tiles, (n - 1) as nat, k);
    }
}

/// Step `i` of the sequence leads from a board to one of its successors.
pub open spec fn step_ok(p: Seq<BoardState>, tiles: Seq<Seq<(i64, i64)>>, i: int) -> bool {
    successors(p[i], tiles).contains(p[i + 1])
}

/// A sequence of boards in which each board but the first is a successor of
/// the board before it.
pub open spec fn is_path(p: Seq<BoardState>, tiles: Seq<Seq<(i64, i64)>>) -> bool {
    &&& p.len() > 0
    &&& forall|i: int| 0 <= i < p.len() - 1 ==> step_ok(p, tiles, i)
}

/// Some sequence of placements leads from `from` to `to`.
pub open spec fn reachable(from: BoardState, tiles: Seq<Seq<(i64, i64)>>, to: BoardState) -> bool {
    exists|p: Seq<BoardState>| #[trigger] is_path(p, tiles) && p[0] == from && p.last() == to
}

/// Every board is reached from itself, with no placement.
pub proof fn lemma_reachable_self(s: BoardState, tiles: Seq<Seq<(i64, i64)>>)
    ensures
        reachable(s, tiles, s),
{
    let p = seq![s];
    assert(is_path(p, tiles));
    assert(p[0] == s && p.last() == s);
}

/// A successor of a board that is reached is reached.
pub proof fn lemma_reachable_step(
    from: BoardState,
    tiles: Seq<Seq<(i64, i64)>>,
    mid: BoardState,
    to: BoardState,
)
    requires
        reachable(from, tiles, mid),
        successors(mid, tiles).contains(to),
    ensures
        reachable(from, tiles, to),
{
    let p = choose|p: Seq<BoardState>| #[trigger] is_path(p, tiles) && p[0] == from && p.last() == mid;
    let q = p.push(to);
    assert forall|i: int| 0 <= i < q.len() - 1 implies step_ok(q, tiles, i) by {
        if i < p.len() - 1 {
            assert(step_ok(p, tiles, i));
        }
    }
    assert(is_path(q, tiles));
    assert(q[0] == from && q.last() == to);
}

/// Along a path coverage only grows: every board of the path is well formed
/// and covers what the first board covers, and each step covers strictly
/// more than the one before.
pub proof fn lemma_path_grows(p: Seq<BoardState>, tiles: Seq<Seq<(i64, i64)>>, i: int)
    requires
        is_path(p, tiles),
        p[0].wf(),
        0 <= i < p.len(),
    ensures
        p[i].wf(),
        p[0].covered_by(p[i]),
        p[i].marked_count() >= p[0].marked_count() + i,
        i > 0 ==> extends(p[i - 1], p[i]),
    decreases i,
{
    if i > 0 {
        lemma_path_grows(p, tiles, i - 1);
        assert(step_ok(p, tiles, i - 1));
        let prev = p[i - 1];
        lemma_successors(prev, tiles);
        let k = choose|k: int|
            0 <= k < successors(prev, tiles).len() && successors(prev, tiles)[k] == p[i];
        assert(extends(prev, successors(prev, tiles)[k]));
    }
}

/// A board that is reached is well formed and covers what the board covers
/// from which it is reached.
pub proof fn lemma_reachable_grows(from: BoardState, tiles: Seq<Seq<(i64, i64)>>, to: BoardState)
    requires
        from.wf(),
        reachable(from, tiles, to),
    ensures
        to.wf(),
        from.covered_by(to),
        to.marked_count() >= from.marked_count(),
{
    let p = choose|p: Seq<BoardState>| #[trigger] is_path(p, tiles) && p[0] == from && p.last() == to;
    lemma_path_grows(p, tiles, p.len() - 1);
}

/// A path that ends on the complete board shows that each of its boards can
/// be completed.
pub proof fn lemma_path_completes(p: Seq<BoardState>, tiles: Seq<Seq<(i64, i64)>>, i: int)
    requires
        is_path(p, tiles),
        p[0].wf(),
        p.last().is_complete(),
        0 <= i < p.len(),
    ensures
        completions(p[i], tiles) >= 1,
    decreases p.len() - i,
{
    if i < p.len() - 1 {
        lemma_path_completes(p, tiles, i + 1);
        lemma_path_grows(p, tiles, i);
        assert(step_ok(p, tiles, i));
        let next = successors(p[i], tiles);
        let k = choose|k: int| 0 <= k < next.len() && next[k] == p[i + 1];
        lemma_completions_via_bound(p[i], tiles, next.len(), k);
    }
}

/// The sum of the first `n` weights.
pub open spec fn total(weights: Seq<nat>, n: nat) -> nat
    decreases n,
{
    if n == 0 {
        0
    } else {
        total(weights, (n - 1) as nat) + weights[n - 1]
    }
}

/// The sum of a prefix depends on that prefix only.
pub proof fn lemma_total_frame(weights: Seq<nat>, other: Seq<nat>, n: nat)
    requires
        n <= weights.len(),
        n <= other.len(),
        forall|i: int| 0 <= i < n ==> weights[i] == other[i],
    ensures
        total(weights, n) == total(other, n),
    decreases n,
{
    if n > 0 {
        lemma_total_frame(weights, other, (n - 1) as nat);
    }
}

/// The sum of the first `n` weights, each taken as often as its count says.
pub open spec fn weighted(counts: Seq<u64>, weights: Seq<nat>, n: nat) -> nat
    decreases n,
{
    if n == 0 {
        0
    } else {
        weighted(counts, weights, (n - 1) as nat) + (counts[n - 1] as nat) * weights[n - 1]
    }
}

/// The weighted sum of a prefix depends on that prefix only.
pub proof fn lemma_weighted_frame(
    counts: Seq<u64>,
    weights: Seq<nat>,
    other_counts: Seq<u64>,
    other_weights: Seq<nat>,
    n: nat,
)
    requires
        n <= counts.len(),
        n <= weights.len(),
        n <= other_counts.len(),
        n <= other_weights.len(),
        forall|i: int| 0 <= i < n ==> counts[i] == other_counts[i],
        forall|i: int| 0 <= i < n ==> weights[i] == other_weights[i],
    ensures
        weighted(counts, weights, n) == weighted(other_counts, other_weights, n),
    decreases n,
{
    if n > 0 {
        lemma_weighted_frame(counts, weights, other_counts, other_weights, (n - 1) as nat);
    }
}

/// A changed count changes the weighted sum by the difference, weighted.
pub proof fn lemma_weighted_update(
    counts: Seq<u64>,
    weights: Seq<nat>,
    j: int,
    count: u64,
    n: nat,
)
    requires
        0 <= j < n <= counts.len(),
        n <= weights.len(),
    ensures
        weighted(counts.update(j, count), weights, n) == weighted(counts, weights, n) + (count
            - counts[j]) * weights[j],
    decreases n,
{
    let changed = counts.update(j, count);
    let w = weights[j] as int;
    if j == n - 1 {
        lemma_weighted_frame(changed, weights, counts, weights, (n - 1) as nat);
        assert(count * w == counts[j] * w + (count - counts[j]) * w) by (nonlinear_arith);
    } else {
        lemma_weighted_update(counts, weights, j, count, (n - 1) as nat);
    }
}

/// Where every count is zero, so is the weighted sum.
pub proof fn lemma_weighted_zero(counts: Seq<u64>, weights: Seq<nat>, n: nat)
    requires
        n <= counts.len(),
        forall|i: int| 0 <= i < n ==> counts[i] == 0,
    ensures
        weighted(counts, weights, n) == 0,
    decreases n,
{
    if n > 0 {
        lemma_weighted_zero(counts, weights, (n - 1) as nat);
        assert(0 * weights[n - 1] == 0);
    }
}

/// For each board, the number of ways to complete it.
pub open spec fn completion_weights(boards: Seq<BoardState>, tiles: Seq<Seq<(i64, i64)>>) -> Seq<
    nat,
> {
    Seq::new(boards.len(), |i: int| completions(boards[i], tiles))
}

/// The ways to complete the first `n` of the boards, each taken as often as
/// its count says.
pub open spec fn potential(
    boards: Seq<BoardState>,
    counts: Seq<u64>,
    tiles: Seq<Seq<(i64, i64)>>,
    n: nat,
) -> nat {
    weighted(counts, completion_weights(boards, tiles), n)
}

/// One more board with its count adds its weighted completions.
pub proof fn lemma_potential_push(
    boards: Seq<BoardState>,
    counts: Seq<u64>,
    tiles: Seq<Seq<(i64, i64)>>,
    board: BoardState,
    count: u64,
)
    requires
        boards.len() == counts.len(),
    ensures
        potential(boards.push(board), counts.push(count), tiles, boards.len() + 1) == potential(
            boards,
            counts,
            tiles,
            boards.len(),
        ) + count * completions(board, tiles),
{
    lemma_weighted_frame(
        counts.push(count),
        completion_weights(boards.push(board), tiles),
        counts,
        completion_weights(boards, tiles),
        boards.len(),
    );
}

/// A changed count changes the potential by the difference, weighted.
pub proof fn lemma_potential_update(
    boards: Seq<BoardState>,
    counts: Seq<u64>,
    tiles: Seq<Seq<(i64, i64)>>,
    j: int,
    count: u64,
    n: nat,
)
    requires
        0 <= j < n <= counts.len(),
        n <= boards.len(),
    ensures
        potential(boards, counts.update(j, count), tiles, n) == potential(boards, counts, tiles, n)
            + (count - counts[j]) * completions(boards[j], tiles),
{
    lemma_weighted_update(counts, completion_weights(boards, tiles), j, count, n);
}

} // verus!
