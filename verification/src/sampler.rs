//! The sampler: a depth-first search that collects complete tilings, up to
//! a cap, and hands out one of them.

use vstd::prelude::*;
use crate::board::Board;
use crate::board::BoardState;
use crate::expand::board_views;
use crate::expand::extends;
use crate::expand::lemma_successors;
use crate::expand::place_tile;
use crate::expand::successors;
use crate::paths::completion_weights;
use crate::paths::completions;
use crate::paths::completions_via;
use crate::paths::is_path;
use crate::paths::lemma_completions_via;
use crate::paths::lemma_path_completes;
use crate::paths::lemma_path_grows;
use crate::paths::lemma_total_frame;
use crate::paths::step_ok;
use crate::paths::total;
use crate::tile::TileCollection;

verus! {

/// The search stops expanding once it holds this many complete tilings.
pub const SOLUTION_CAP: usize = 1000;

/// Number of boards in the search tree below and including `s`.
pub open spec fn tree_size(s: BoardState, tiles: Seq<Seq<(i64, i64)>>) -> nat
    decreases s.unmarked_count(), 1nat, 0nat,
{
    1 + tree_size_via(s, tiles, successors(s, tiles).len())
}

/// Number of boards in the search trees of the first `n` successors of `s`.
pub open spec fn tree_size_via(s: BoardState, tiles: Seq<Seq<(i64, i64)>>, n: nat) -> nat
    decreases s.unmarked_count(), 0nat, n,
{
    if n == 0 || n > successors(s, tiles).len() {
        0
    } else {
        let next = successors(s, tiles)[n - 1];
        tree_size_via(s, tiles, (n - 1) as nat) + if next.unmarked_count() < s.unmarked_count() {
            tree_size(next, tiles)
        } else {
            0
        }
    }
}

/// For each board, the size of its search tree.
pub open spec fn tree_weights(boards: Seq<BoardState>, tiles: Seq<Seq<(i64, i64)>>) -> Seq<nat> {
    Seq::new(boards.len(), |i: int| tree_size(boards[i], tiles))
}

/// The states of a list of paths.
pub open spec fn path_views(list: Seq<Vec<Board>>) -> Seq<Seq<BoardState>> {
    Seq::new(list.len(), |i: int| board_views(list[i]@))
}

/// The last board of each path.
pub open spec fn tips(stack: Seq<Seq<BoardState>>) -> Seq<BoardState> {
    Seq::new(stack.len(), |i: int| stack[i].last())
}

/// Number of boards that the search has yet to visit.
pub open spec fn pending(stack: Seq<Seq<BoardState>>, tiles: Seq<Seq<(i64, i64)>>) -> nat {
    total(tree_weights(tips(stack), tiles), stack.len())
}

/// Number of ways to complete one of the paths.
pub open spec fn hope(stack: Seq<Seq<BoardState>>, tiles: Seq<Seq<(i64, i64)>>) -> nat {
    total(completion_weights(tips(stack), tiles), stack.len())
}

/// The stack after `path` was extended by each of the first `n` boards of
/// `next`: the extensions that are not complete are on top, in their order.
pub open spec fn grown_stack(
    stack: Seq<Seq<BoardState>>,
    path: Seq<BoardState>,
    next: Seq<BoardState>,
    n: nat,
) -> Seq<Seq<BoardState>>
    decreases n,
{
    if n == 0 || n > next.len() {
        stack
    } else {
        let before = grown_stack(stack, path, next, (n - 1) as nat);
        if next[n - 1].is_complete() {
            before
        } else {
            before.push(path.push(next[n - 1]))
        }
    }
}

/// The tilings found after `path` was extended by each of the first `n`
/// boards of `next`: the extensions that are complete are added, in their
/// order.
pub open spec fn grown_found(
    found: Seq<Seq<BoardState>>,
    path: Seq<BoardState>,
    next: Seq<BoardState>,
    n: nat,
) -> Seq<Seq<BoardState>>
    decreases n,
{
    if n == 0 || n > next.len() {
        found
    } else {
        let before = grown_found(found, path, next, (n - 1) as nat);
        if next[n - 1].is_complete() {
            before.push(path.push(next[n - 1]))
        } else {
            before
        }
    }
}

/// Every path of the stack has a last board, and that board is well formed.
pub open spec fn searchable(stack: Seq<Seq<BoardState>>) -> bool {
    forall|i: int| 0 <= i < stack.len() ==> (#[trigger] stack[i]).len() > 0 && stack[i].last().wf()
}

/// The tilings that the depth-first search ends with, when it starts with
/// the given stack of paths and the tilings found so far: while the stack
/// holds a path and fewer than `SOLUTION_CAP` tilings are found, the path on
/// top is taken off and extended by each successor of its last board.
pub open spec fn search(
    stack: Seq<Seq<BoardState>>,
    found: Seq<Seq<BoardState>>,
    tiles: Seq<Seq<(i64, i64)>>,
) -> Seq<Seq<BoardState>>
    decreases pending(stack, tiles),
    when searchable(stack)
    via search_decreases
{
    if stack.len() == 0 || found.len() >= SOLUTION_CAP {
        found
    } else {
        let path = stack.last();
        let next = successors(path.last(), tiles);
        search(
            grown_stack(stack.drop_last(), path, next, next.len()),
            grown_found(found, path, next, next.len()),
            tiles,
        )
    }
}

#[via_fn]
proof fn search_decreases(
    stack: Seq<Seq<BoardState>>,
    found: Seq<Seq<BoardState>>,
    tiles: Seq<Seq<(i64, i64)>>,
) {
    if stack.len() > 0 {
        lemma_search_decreases(stack, tiles);
    }
}

/// The tilings that the search collects for `initial`, in the order in which
/// it finds them. A board that is already complete is its own tiling.
pub open spec fn collected(initial: BoardState, tiles: Seq<Seq<(i64, i64)>>) -> Seq<Seq<BoardState>> {
    if initial.is_complete() {
        seq![seq![initial]]
    } else {
        search(seq![seq![initial]], Seq::empty(), tiles)
    }
}

/// The boards of `path` lead, placement by placement, from `initial` to the
/// last of them.
pub open spec fn is_tiling_path(
    path: Seq<BoardState>,
    initial: BoardState,
    tiles: Seq<Seq<(i64, i64)>>,
) -> bool {
    &&& is_path(path, tiles)
    &&& path[0] == initial
}

/// Every path on the stack leads from `initial` to a board that is not
/// complete.
pub open spec fn stack_ok(
    stack: Seq<Seq<BoardState>>,
    initial: BoardState,
    tiles: Seq<Seq<(i64, i64)>>,
) -> bool {
    forall|i: int|
        0 <= i < stack.len() ==> is_tiling_path(#[trigger] stack[i], initial, tiles)
            && !stack[i].last().is_complete()
}

/// Every path found leads from `initial` to the complete board.
pub open spec fn found_ok(
    found: Seq<Seq<BoardState>>,
    initial: BoardState,
    tiles: Seq<Seq<(i64, i64)>>,
) -> bool {
    forall|i: int|
        0 <= i < found.len() ==> is_tiling_path(#[trigger] found[i], initial, tiles)
            && found[i].last().is_complete()
}

proof fn lemma_tree_size_via(s: BoardState, tiles: Seq<Seq<(i64, i64)>>, n: nat)
    requires
        s.wf(),
        0 < n <= successors(s, tiles).len(),
    ensures
        tree_size_via(s, tiles, n) == tree_size_via(s, tiles, (n - 1) as nat) + tree_size(
            successors(s, tiles)[n - 1],
            tiles,
        ),
        extends(s, successors(s, tiles)[n - 1]),
{
    lemma_successors(s, tiles);
}

/// Extending a path puts onto the stack no more boards to visit than the
/// search trees of the successors hold.
pub proof fn lemma_grown_pending(
    stack: Seq<Seq<BoardState>>,
    path: Seq<BoardState>,
    tiles: Seq<Seq<(i64, i64)>>,
    n: nat,
)
    requires
        searchable(stack),
        path.len() > 0,
        path.last().wf(),
        n <= successors(path.last(), tiles).len(),
    ensures
        searchable(grown_stack(stack, path, successors(path.last(), tiles), n)),
        pending(grown_stack(stack, path, successors(path.last(), tiles), n), tiles) <= pending(
            stack,
            tiles,
        ) + tree_size_via(path.last(), tiles, n),
    decreases n,
{
    if n > 0 {
        let tip = path.last();
        let next = successors(tip, tiles);
        let before = grown_stack(stack, path, next, (n - 1) as nat);
        let now = grown_stack(stack, path, next, n);
        lemma_grown_pending(stack, path, tiles, (n - 1) as nat);
        lemma_tree_size_via(tip, tiles, n);
        if !next[n - 1].is_complete() {
            assert(tips(now) =~= tips(before).push(next[n - 1]));
            lemma_total_frame(
                tree_weights(tips(now), tiles),
                tree_weights(tips(before), tiles),
                before.len(),
            );
            assert forall|i: int| 0 <= i < now.len() implies (#[trigger] now[i]).len() > 0
                && now[i].last().wf() by {
                if i < before.len() {
                    assert(now[i] == before[i]);
                }
            }
        }
    }
}

/// Each step of the search leaves fewer boards to visit.
pub proof fn lemma_search_decreases(stack: Seq<Seq<BoardState>>, tiles: Seq<Seq<(i64, i64)>>)
    requires
        searchable(stack),
        stack.len() > 0,
    ensures
        searchable(stack.drop_last()),
        pending(
            grown_stack(
                stack.drop_last(),
                stack.last(),
                successors(stack.last().last(), tiles),
                successors(stack.last().last(), tiles).len(),
            ),
            tiles,
        ) < pending(stack, tiles),
        hope(stack, tiles) == hope(stack.drop_last(), tiles) + completions(
            stack.last().last(),
            tiles,
        ),
{
    let rest = stack.drop_last();
    let path = stack.last();
    assert forall|i: int| 0 <= i < rest.len() implies (#[trigger] rest[i]).len() > 0
        && rest[i].last().wf() by {
        assert(rest[i] == stack[i]);
    }
    lemma_total_frame(tree_weights(tips(stack), tiles), tree_weights(tips(rest), tiles), rest.len());
    lemma_total_frame(
        completion_weights(tips(stack), tiles),
        completion_weights(tips(rest), tiles),
        rest.len(),
    );
    lemma_grown_pending(rest, path, tiles, successors(path.last(), tiles).len());
}

/// Extending a path that leads from `initial` to a board that is not
/// complete keeps the paths of the stack and the tilings found as they
/// should be; and while no tiling is found, the ways to complete a path of
/// the stack grow by the completions through the successors used.
pub proof fn lemma_grown_ok(
    stack: Seq<Seq<BoardState>>,
    found: Seq<Seq<BoardState>>,
    path: Seq<BoardState>,
    initial: BoardState,
    tiles: Seq<Seq<(i64, i64)>>,
    n: nat,
)
    requires
        initial.wf(),
        is_tiling_path(path, initial, tiles),
        stack_ok(stack, initial, tiles),
        found_ok(found, initial, tiles),
        n <= successors(path.last(), tiles).len(),
    ensures
        stack_ok(grown_stack(stack, path, successors(path.last(), tiles), n), initial, tiles),
        found_ok(grown_found(found, path, successors(path.last(), tiles), n), initial, tiles),
        grown_found(found, path, successors(path.last(), tiles), n).len() >= found.len(),
        grown_found(found, path, successors(path.last(), tiles), n).len() == 0 ==> hope(
            grown_stack(stack, path, successors(path.last(), tiles), n),
            tiles,
        ) == hope(stack, tiles) + completions_via(path.last(), tiles, n),
    decreases n,
{
    if n > 0 {
        let tip = path.last();
        let next = successors(tip, tiles);
        let child = next[n - 1];
        let longer = path.push(child);
        let before = grown_stack(stack, path, next, (n - 1) as nat);
        let now = grown_stack(stack, path, next, n);
        let found_before = grown_found(found, path, next, (n - 1) as nat);
        let found_now = grown_found(found, path, next, n);
        lemma_grown_ok(stack, found, path, initial, tiles, (n - 1) as nat);
        lemma_path_grows(path, tiles, path.len() - 1);
        lemma_completions_via(tip, tiles, n);
        assert forall|i: int| 0 <= i < longer.len() - 1 implies step_ok(longer, tiles, i) by {
            if i < path.len() - 1 {
                assert(step_ok(path, tiles, i));
            } else {
                assert(next.contains(child));
            }
        }
        assert(is_tiling_path(longer, initial, tiles));
        if child.is_complete() {
            assert forall|i: int| 0 <= i < found_now.len() implies is_tiling_path(
                #[trigger] found_now[i],
                initial,
                tiles,
            ) && found_now[i].last().is_complete() by {
                if i < found_before.len() {
                    assert(found_now[i] == found_before[i]);
                }
            }
        } else {
            assert forall|i: int| 0 <= i < now.len() implies is_tiling_path(
                #[trigger] now[i],
                initial,
                tiles,
            ) && !now[i].last().is_complete() by {
                if i < before.len() {
                    assert(now[i] == before[i]);
                }
            }
            assert(tips(now) =~= tips(before).push(child));
            lemma_total_frame(
                completion_weights(tips(now), tiles),
                completion_weights(tips(before), tiles),
                before.len(),
            );
        }
    }
}

/// A stack of paths that lead from a well-formed board can be searched.
pub proof fn lemma_stack_searchable(
    stack: Seq<Seq<BoardState>>,
    initial: BoardState,
    tiles: Seq<Seq<(i64, i64)>>,
)
    requires
        initial.wf(),
        stack_ok(stack, initial, tiles),
    ensures
        searchable(stack),
{
    assert forall|i: int| 0 <= i < stack.len() implies (#[trigger] stack[i]).len() > 0
        && stack[i].last().wf() by {
        lemma_path_grows(stack[i], tiles, stack[i].len() - 1);
    }
}

/// The path with one more board at its end.
fn extend_path(path: &Vec<Board>, child: &Board) -> (r: Vec<Board>)
    ensures
        board_views(r@) == board_views(path@).push(child@),
{
    let mut r: Vec<Board> = Vec::new();
    let mut i: usize = 0;
    while i < path.len()
        invariant
            i <= path@.len(),
            r@.len() == i,
            forall|j: int| 0 <= j < i ==> r@[j]@ == path@[j]@,
        decreases path@.len() - i,
    {
        r.push(path[i].clone());
        i = i + 1;
    }
    r.push(child.clone());
    assert(board_views(r@) =~= board_views(path@).push(child@));
    r
}

/// Extends `path` by each of the boards of `children`: the extensions that
/// are complete go to `found`, the others onto `stack`, in the order of the
/// children.
pub(crate) fn branch(
    path: &Vec<Board>,
    children: &Vec<Board>,
    stack: &mut Vec<Vec<Board>>,
    found: &mut Vec<Vec<Board>>,
)
    ensures
        path_views(final(stack)@) == grown_stack(
            path_views(old(stack)@),
            board_views(path@),
            board_views(children@),
            children@.len() as nat,
        ),
        path_views(final(found)@) == grown_found(
            path_views(old(found)@),
            board_views(path@),
            board_views(children@),
            children@.len() as nat,
        ),
{
    let ghost steps = board_views(path@);
    let ghost next = board_views(children@);
    let ghost stack_before = path_views(stack@);
    let ghost found_before = path_views(found@);
    let mut p: usize = 0;
    while p < children.len()
        invariant
            p <= children@.len(),
            steps == board_views(path@),
            next == board_views(children@),
            path_views(stack@) == grown_stack(stack_before, steps, next, p as nat),
            path_views(found@) == grown_found(found_before, steps, next, p as nat),
        decreases children@.len() - p,
    {
        let child: &Board = &children[p];
        let longer: Vec<Board> = extend_path(path, child);
        assert(child@ == next[p as int]);
        if child.is_all_marked() {
            let ghost before = path_views(found@);
            found.push(longer);
            assert(path_views(found@) =~= before.push(steps.push(child@)));
        } else {
            let ghost before = path_views(stack@);
            stack.push(longer);
            assert(path_views(stack@) =~= before.push(steps.push(child@)));
        }
        p = p + 1;
    }
}

/// Searches depth first for complete tilings of `initial`, stops expanding
/// once `SOLUTION_CAP` of them are collected, and returns the one at place
/// `pick` modulo their number: the boards from `initial` to the complete
/// board, one placement apart. Draw `pick` at random for a random tiling.
/// Returns `None` exactly when `initial` cannot be completed. A board that is
/// already complete is its own tiling.
pub fn sample_one_tiling(initial: &Board, tiles: &TileCollection, pick: usize) -> (r: Option<
    Vec<Board>,
>)
    ensures
        match r {
            Some(path) => collected(initial@, tiles@).len() > 0 && board_views(path@) == collected(
                initial@,
                tiles@,
            )[(pick as int) % (collected(initial@, tiles@).len() as int)],
            None => collected(initial@, tiles@).len() == 0,
        },
        r.is_some() <==> completions(initial@, tiles@) > 0,
        r.is_some() ==> is_tiling_path(board_views(r.unwrap()@), initial@, tiles@)
            && board_views(r.unwrap()@).last().is_complete(),
{
    let ghost all = collected(initial@, tiles@);
    let mut first: Vec<Board> = Vec::new();
    first.push(initial.clone());
    proof {
        assert(board_views(first@) =~= seq![initial@]);
        assert(is_path(board_views(first@), tiles@));
    }
    if initial.is_all_marked() {
        assert(all[(pick as int) % 1] == seq![initial@]);
        return Some(first);
    }
    let mut stack: Vec<Vec<Board>> = Vec::new();
    let mut found: Vec<Vec<Board>> = Vec::new();
    stack.push(first);
    proof {
        assert(path_views(stack@) =~= seq![seq![initial@]]);
        assert(path_views(found@) =~= Seq::empty());
        assert(tips(path_views(stack@)) =~= seq![initial@]);
        let hopes = completion_weights(tips(path_views(stack@)), tiles@);
        assert(total(hopes, 0) == 0);
        assert(total(hopes, 1) == completions(initial@, tiles@));
    }
    while stack.len() > 0 && found.len() < SOLUTION_CAP
        invariant
            initial@.wf(),
            stack_ok(path_views(stack@), initial@, tiles@),
            found_ok(path_views(found@), initial@, tiles@),
            found@.len() == 0 ==> hope(path_views(stack@), tiles@) == completions(
                initial@,
                tiles@,
            ),
            search(path_views(stack@), path_views(found@), tiles@) == all,
        decreases pending(path_views(stack@), tiles@),
    {
        let ghost before = path_views(stack@);
        let ghost found_before = path_views(found@);
        let ghost tip = before.last().last();
        proof {
            lemma_stack_searchable(before, initial@, tiles@);
            lemma_search_decreases(before, tiles@);
            assert(!tip.is_complete());
            let next = successors(tip, tiles@);
            lemma_grown_pending(before.drop_last(), before.last(), tiles@, next.len());
            assert(all == search(
                grown_stack(before.drop_last(), before.last(), next, next.len()),
                grown_found(found_before, before.last(), next, next.len()),
                tiles@,
            ));
        }
        let path: Vec<Board> = stack.pop().unwrap();
        proof {
            assert(board_views(path@) == before.last());
            assert(path_views(stack@) =~= before.drop_last());
            assert forall|i: int| 0 <= i < before.drop_last().len() implies is_tiling_path(
                #[trigger] before.drop_last()[i],
                initial@,
                tiles@,
            ) && !before.drop_last()[i].last().is_complete() by {
                assert(before.drop_last()[i] == before[i]);
            }
            lemma_grown_ok(
                before.drop_last(),
                found_before,
                before.last(),
                initial@,
                tiles@,
                successors(tip, tiles@).len(),
            );
        }
        let children: Vec<Board> = place_tile(&path[path.len() - 1], tiles);
        branch(&path, &children, &mut stack, &mut found);
    }
    proof {
        lemma_stack_searchable(path_views(stack@), initial@, tiles@);
        assert(path_views(found@) == all);
    }
    if found.len() == 0 {
        proof {
            assert(total(completion_weights(tips(path_views(stack@)), tiles@), 0) == 0);
        }
        None
    } else {
        let index: usize = pick % found.len();
        let ghost listed = path_views(found@);
        let chosen: Vec<Board> = found.swap_remove(index);
        proof {
            assert(board_views(chosen@) == listed[index as int]);
            lemma_path_completes(board_views(chosen@), tiles@, 0);
        }
        Some(chosen)
    }
}

} // verus!
