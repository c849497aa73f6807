//! What holds of the counters, the graph and the boards reached, stated
//! over their models.

use vstd::prelude::*;
use crate::board::BoardState;
use crate::expand::extends;
use crate::expand::lemma_successors;
use crate::expand::successors;
use crate::graph::edges_match;
use crate::graph::GraphState;
use crate::paths::completions;
use crate::paths::completions_via;
use crate::paths::is_path;
use crate::paths::lemma_reachable_grows;
use crate::paths::lemma_reachable_step;
use crate::paths::reachable;
use crate::paths::step_ok;
use crate::paths::total;

verus! {

/// Two complete boards of the same size are the same board.
pub proof fn lemma_complete_unique(a: BoardState, b: BoardState)
    requires
        a.is_complete(),
        b.is_complete(),
        a.width == b.width,
        a.height == b.height,
        a.marked.len() == b.marked.len(),
    ensures
        a == b,
{
    assert(a.marked =~= b.marked);
}

proof fn lemma_walks_via_are_completions(
    g: GraphState,
    initial: BoardState,
    tiles: Seq<Seq<(i64, i64)>>,
    i: int,
    n: nat,
)
    requires
        g.represents(initial, tiles),
        0 <= i < g.nodes.len(),
        n <= g.edges[i].len(),
    ensures
        g.walks_via(i, n) == completions_via(g.nodes[i], tiles, n),
    decreases g.nodes[i].unmarked_count(), 0nat, n,
{
    if n > 0 {
        let s = g.nodes[i];
        let next = successors(s, tiles);
        lemma_reachable_grows(initial, tiles, s);
        lemma_successors(s, tiles);
        assert(edges_match(g.nodes, g.edges[i], next));
        let j = g.edges[i][n - 1];
        assert(g.nodes[j] == next[n - 1]);
        assert(extends(s, next[n - 1]));
        lemma_walks_via_are_completions(g, initial, tiles, i, (n - 1) as nat);
        lemma_walks_are_completions(g, initial, tiles, j);
    }
}

/// In the transition graph of a board, the walks from a node to the
/// complete node are as many as the ways to complete the board of the node.
pub proof fn lemma_walks_are_completions(
    g: GraphState,
    initial: BoardState,
    tiles: Seq<Seq<(i64, i64)>>,
    i: int,
)
    requires
        g.represents(initial, tiles),
        0 <= i < g.nodes.len(),
    ensures
        g.walks(i) == completions(g.nodes[i], tiles),
    decreases g.nodes[i].unmarked_count(), 1nat, 0nat,
{
    let s = g.nodes[i];
    lemma_reachable_grows(initial, tiles, s);
    if s.is_complete() {
        let c = g.complete.unwrap();
        lemma_reachable_grows(initial, tiles, g.nodes[c]);
        lemma_complete_unique(s, g.nodes[c]);
        assert(i == c);
    } else {
        assert(edges_match(g.nodes, g.edges[i], successors(s, tiles)));
        lemma_walks_via_are_completions(g, initial, tiles, i, g.edges[i].len());
    }
}

/// The direct count and the count over the graph agree: in the transition
/// graph of a board, the walks from the root to the complete node are as
/// many as the ways to complete the board.
pub proof fn lemma_graph_count_is_direct_count(
    g: GraphState,
    initial: BoardState,
    tiles: Seq<Seq<(i64, i64)>>,
)
    requires
        g.represents(initial, tiles),
    ensures
        g.walks(0) == completions(initial, tiles),
{
    lemma_walks_are_completions(g, initial, tiles, 0);
}

/// A board that is already complete, a board without cells among them, has
/// exactly one completion: the one that lays no tile.
pub proof fn lemma_complete_board_has_one_completion(s: BoardState, tiles: Seq<Seq<(i64, i64)>>)
    requires
        s.is_complete(),
    ensures
        completions(s, tiles) == 1,
        successors(s, tiles).len() == 0,
{
}

/// A board with a free cell onto whose first free cell no tile fits cannot
/// be completed.
pub proof fn lemma_dead_end_has_no_completion(s: BoardState, tiles: Seq<Seq<(i64, i64)>>)
    requires
        !s.is_complete(),
        successors(s, tiles).len() == 0,
    ensures
        completions(s, tiles) == 0,
{
    assert(completions_via(s, tiles, 0) == 0);
}

/// No placement on a board reached from `initial` covers cell `cell`.
pub open spec fn never_covered(initial: BoardState, tiles: Seq<Seq<(i64, i64)>>, cell: int) -> bool {
    forall|s: BoardState, k: int|
        reachable(initial, tiles, s) && 0 <= k < successors(s, tiles).len() ==> !(
        #[trigger] successors(s, tiles)[k]).marked[cell]
}

proof fn lemma_uncovered_via(
    initial: BoardState,
    tiles: Seq<Seq<(i64, i64)>>,
    cell: int,
    s: BoardState,
    n: nat,
)
    requires
        initial.wf(),
        0 <= cell < initial.marked.len(),
        never_covered(initial, tiles, cell),
        reachable(initial, tiles, s),
        !s.marked[cell],
        n <= successors(s, tiles).len(),
    ensures
        completions_via(s, tiles, n) == 0,
    decreases s.unmarked_count(), 0nat, n,
{
    if n > 0 {
        lemma_reachable_grows(initial, tiles, s);
        lemma_successors(s, tiles);
        let next = successors(s, tiles)[n - 1];
        assert(extends(s, next));
        assert(successors(s, tiles).contains(next));
        lemma_reachable_step(initial, tiles, s, next);
        lemma_uncovered_via(initial, tiles, cell, s, (n - 1) as nat);
        lemma_uncovered(initial, tiles, cell, next);
    }
}

proof fn lemma_uncovered(initial: BoardState, tiles: Seq<Seq<(i64, i64)>>, cell: int, s: BoardState)
    requires
        initial.wf(),
        0 <= cell < initial.marked.len(),
        never_covered(initial, tiles, cell),
        reachable(initial, tiles, s),
        !s.marked[cell],
    ensures
        completions(s, tiles) == 0,
    decreases s.unmarked_count(), 1nat, 0nat,
{
    lemma_reachable_grows(initial, tiles, s);
    assert(!s.is_complete());
    lemma_uncovered_via(initial, tiles, cell, s, successors(s, tiles).len());
}

/// Where a free cell of the board is covered by no placement on any board
/// reached from it, the board has no completion.
pub proof fn lemma_uncoverable_cell_means_no_completion(
    initial: BoardState,
    tiles: Seq<Seq<(i64, i64)>>,
    cell: int,
)
    requires
        initial.wf(),
        0 <= cell < initial.marked.len(),
        !initial.marked[cell],
        never_covered(initial, tiles, cell),
    ensures
        completions(initial, tiles) == 0,
{
    crate::paths::lemma_reachable_self(initial, tiles);
    lemma_uncovered(initial, tiles, cell, initial);
}

/// Coverage only grows: a board reached from `initial` has the size of
/// `initial`, covers every cell that `initial` covers, and covers strictly
/// more cells unless it is `initial` itself.
pub proof fn lemma_coverage_grows(initial: BoardState, tiles: Seq<Seq<(i64, i64)>>, s: BoardState)
    requires
        initial.wf(),
        reachable(initial, tiles, s),
    ensures
        s.wf(),
        initial.covered_by(s),
        s.marked_count() >= initial.marked_count(),
        s != initial ==> s.marked_count() > initial.marked_count(),
{
    let p = choose|p: Seq<BoardState>| #[trigger] is_path(p, tiles) && p[0] == initial && p.last() == s;
    crate::paths::lemma_path_grows(p, tiles, p.len() - 1);
}

/// The transition graph of a board holds every board reached from it.
pub proof fn lemma_graph_holds_reached(
    g: GraphState,
    initial: BoardState,
    tiles: Seq<Seq<(i64, i64)>>,
    s: BoardState,
)
    requires
        g.represents(initial, tiles),
        reachable(initial, tiles, s),
    ensures
        g.nodes.contains(s),
{
    let p = choose|p: Seq<BoardState>| #[trigger] is_path(p, tiles) && p[0] == initial && p.last() == s;
    lemma_graph_holds_path(g, initial, tiles, p, p.len() - 1);
}

proof fn lemma_graph_holds_path(
    g: GraphState,
    initial: BoardState,
    tiles: Seq<Seq<(i64, i64)>>,
    p: Seq<BoardState>,
    i: int,
)
    requires
        g.represents(initial, tiles),
        is_path(p, tiles),
        p[0] == initial,
        0 <= i < p.len(),
    ensures
        g.nodes.contains(p[i]),
    decreases i,
{
    if i == 0 {
        assert(g.nodes[0] == p[0]);
    } else {
        lemma_graph_holds_path(g, initial, tiles, p, i - 1);
        let a = choose|a: int| 0 <= a < g.nodes.len() && g.nodes[a] == p[i - 1];
        assert(step_ok(p, tiles, i - 1));
        let next = successors(g.nodes[a], tiles);
        let k = choose|k: int| 0 <= k < next.len() && next[k] == p[i];
        assert(edges_match(g.nodes, g.edges[a], next));
        let b = g.edges[a][k];
        assert(g.nodes[b] == p[i]);
    }
}

/// For each board, the value of `f` on it.
pub open spec fn values(q: Seq<BoardState>, f: spec_fn(BoardState) -> nat) -> Seq<nat> {
    Seq::new(q.len(), |i: int| f(q[i]))
}

proof fn lemma_total_remove(w: Seq<nat>, j: int, n: nat)
    requires
        0 <= j < n <= w.len(),
    ensures
        total(w, n) == total(w.remove(j), (n - 1) as nat) + w[j],
    decreases n,
{
    let r = w.remove(j);
    if j == n - 1 {
        crate::paths::lemma_total_frame(w, r, (n - 1) as nat);
    } else {
        lemma_total_remove(w, j, (n - 1) as nat);
        assert(r[n - 2] == w[n - 1]);
    }
}

/// Two lists without repetitions that hold the same boards are equally long,
/// and any measure of the boards sums to the same over both.
pub proof fn lemma_same_boards_same_sum(
    a: Seq<BoardState>,
    b: Seq<BoardState>,
    f: spec_fn(BoardState) -> nat,
)
    requires
        a.no_duplicates(),
        b.no_duplicates(),
        forall|x: BoardState| #[trigger] a.contains(x) ==> b.contains(x),
        forall|x: BoardState| #[trigger] b.contains(x) ==> a.contains(x),
    ensures
        a.len() == b.len(),
        total(values(a, f), a.len()) == total(values(b, f), b.len()),
    decreases a.len(),
{
    if a.len() == 0 {
        if b.len() > 0 {
            assert(b.contains(b[0]));
            assert(a.contains(b[0]));
        }
    } else {
        let x = a.last();
        assert(a.contains(x));
        assert(b.contains(x));
        let j = choose|j: int| 0 <= j < b.len() && b[j] == x;
        let a0 = a.drop_last();
        let b0 = b.remove(j);
        assert forall|y: BoardState| #[trigger] a0.contains(y) implies b0.contains(y) by {
            let i = choose|i: int| 0 <= i < a0.len() && a0[i] == y;
            assert(a[i] == y);
            assert(a.contains(y));
            assert(b.contains(y));
            let k = choose|k: int| 0 <= k < b.len() && b[k] == y;
            assert(k != j);
            if k < j {
                assert(b0[k] == y);
            } else {
                assert(b0[k - 1] == y);
            }
        }
        assert forall|y: BoardState| #[trigger] b0.contains(y) implies a0.contains(y) by {
            let k = choose|k: int| 0 <= k < b0.len() && b0[k] == y;
            let kk = if k < j {
                k
            } else {
                k + 1
            };
            assert(b[kk] == y);
            assert(b.contains(y));
            assert(a.contains(y));
            let i = choose|i: int| 0 <= i < a.len() && a[i] == y;
            assert(i != a.len() - 1);
            assert(a0[i] == y);
        }
        assert forall|i: int, k: int| 0 <= i < b0.len() && 0 <= k < b0.len() && i != k implies b0[i]
            != b0[k] by {
            let ii = if i < j {
                i
            } else {
                i + 1
            };
            let kk = if k < j {
                k
            } else {
                k + 1
            };
            assert(b[ii] != b[kk]);
        }
        lemma_same_boards_same_sum(a0, b0, f);
        lemma_total_remove(values(b, f), j, b.len());
        assert(values(b, f).remove(j) =~= values(b0, f));
        crate::paths::lemma_total_frame(values(a, f), values(a0, f), a0.len());
    }
}

proof fn lemma_edge_count(g: GraphState, initial: BoardState, tiles: Seq<Seq<(i64, i64)>>, n: nat)
    requires
        g.represents(initial, tiles),
        n <= g.nodes.len(),
    ensures
        g.edge_count(n) == total(
            values(g.nodes, |s: BoardState| successors(s, tiles).len()),
            n,
        ),
    decreases n,
{
    if n > 0 {
        lemma_edge_count(g, initial, tiles, (n - 1) as nat);
        assert(edges_match(g.nodes, g.edges[n - 1], successors(g.nodes[n - 1], tiles)));
    }
}

/// Building the graph twice gives the same graph up to the numbering of the
/// nodes: two transition graphs of one board under one collection of tiles
/// hold the same boards, have equally many nodes and equally many edges, and
/// either both have a complete node or neither has.
pub proof fn lemma_graphs_agree(
    first: GraphState,
    second: GraphState,
    initial: BoardState,
    tiles: Seq<Seq<(i64, i64)>>,
)
    requires
        first.represents(initial, tiles),
        second.represents(initial, tiles),
    ensures
        forall|s: BoardState| first.nodes.contains(s) <==> second.nodes.contains(s),
        first.nodes.len() == second.nodes.len(),
        first.edge_count(first.nodes.len()) == second.edge_count(second.nodes.len()),
        first.complete.is_some() <==> second.complete.is_some(),
{
    assert forall|s: BoardState| #[trigger] first.nodes.contains(s) implies second.nodes.contains(
        s,
    ) by {
        let i = choose|i: int| 0 <= i < first.nodes.len() && first.nodes[i] == s;
        lemma_graph_holds_reached(second, initial, tiles, s);
    }
    assert forall|s: BoardState| #[trigger] second.nodes.contains(s) implies first.nodes.contains(
        s,
    ) by {
        let i = choose|i: int| 0 <= i < second.nodes.len() && second.nodes[i] == s;
        lemma_graph_holds_reached(first, initial, tiles, s);
    }
    let f = |s: BoardState| successors(s, tiles).len();
    lemma_same_boards_same_sum(first.nodes, second.nodes, f);
    lemma_edge_count(first, initial, tiles, first.nodes.len());
    lemma_edge_count(second, initial, tiles, second.nodes.len());
    if first.complete.is_some() {
        let c = first.complete.unwrap();
        assert(first.nodes.contains(first.nodes[c]));
        assert(second.nodes.contains(first.nodes[c]));
    }
    if second.complete.is_some() {
        let c = second.complete.unwrap();
        assert(second.nodes.contains(second.nodes[c]));
        assert(first.nodes.contains(second.nodes[c]));
    }
}

} // verus!
