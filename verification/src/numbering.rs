//! The transition graph of a board is unique: what `represents` and
//! `numbered_by_discovery` say of a graph fixes its nodes, its edges and its
//! complete node.

use vstd::prelude::*;
use crate::board::BoardState;
use crate::expand::successors;
use crate::graph::discovers;
use crate::graph::edges_match;
use crate::graph::running_max;
use crate::graph::seen_through;
use crate::graph::GraphState;
use crate::laws::lemma_complete_unique;
use crate::laws::lemma_graphs_agree;
use crate::paths::is_path;
use crate::paths::lemma_reachable_grows;
use crate::paths::step_ok;

verus! {

/// The running maximum lies between its base and any bound on the base and
/// the entries read, and no entry read is above it.
pub proof fn lemma_running_max_bounds(base: int, out: Seq<int>, q: nat, bound: int)
    requires
        q <= out.len(),
        base <= bound,
        forall|k: int| 0 <= k < q ==> out[k] <= bound,
    ensures
        base <= running_max(base, out, q) <= bound,
        forall|k: int| 0 <= k < q ==> out[k] <= running_max(base, out, q),
    decreases q,
{
    if q > 0 {
        lemma_running_max_bounds(base, out, (q - 1) as nat, bound);
    }
}

/// What was seen through the first `i` nodes is a node of the graph, and
/// holds every node that an edge of those nodes leads to, and all that was
/// seen before.
pub proof fn lemma_seen_through(g: GraphState, initial: BoardState, tiles: Seq<Seq<(i64, i64)>>, i: nat)
    requires
        g.represents(initial, tiles),
        i <= g.nodes.len(),
    ensures
        0 <= seen_through(g.edges, i) < g.nodes.len(),
        forall|a: int, p: int|
            0 <= a < i && 0 <= p < g.edges[a].len() ==> #[trigger] g.edges[a][p] <= seen_through(
                g.edges,
                i,
            ),
        forall|j: nat| j <= i ==> #[trigger] seen_through(g.edges, j) <= seen_through(g.edges, i),
    decreases i,
{
    if i > 0 {
        let before = seen_through(g.edges, (i - 1) as nat);
        let out = g.edges[i - 1];
        lemma_seen_through(g, initial, tiles, (i - 1) as nat);
        assert(edges_match(g.nodes, out, successors(g.nodes[i - 1], tiles)));
        lemma_running_max_bounds(before, out, out.len(), g.nodes.len() - 1);
    }
}

proof fn lemma_closed_prefix_holds_path(
    g: GraphState,
    initial: BoardState,
    tiles: Seq<Seq<(i64, i64)>>,
    m: int,
    p: Seq<BoardState>,
    k: int,
) -> (b: int)
    requires
        g.represents(initial, tiles),
        0 <= m < g.nodes.len(),
        forall|a: int, q: int| 0 <= a <= m && 0 <= q < g.edges[a].len() ==> #[trigger] g.edges[a][q] <= m,
        is_path(p, tiles),
        p[0] == initial,
        0 <= k < p.len(),
    ensures
        0 <= b <= m,
        g.nodes[b] == p[k],
    decreases k,
{
    if k == 0 {
        0
    } else {
        let a = lemma_closed_prefix_holds_path(g, initial, tiles, m, p, k - 1);
        assert(step_ok(p, tiles, k - 1));
        let next = successors(g.nodes[a], tiles);
        let q = choose|q: int| 0 <= q < next.len() && next[q] == p[k];
        assert(edges_match(g.nodes, g.edges[a], next));
        assert(g.edges[a][q] <= m);
        g.edges[a][q]
    }
}

/// Every node was seen before its edges are read: it is the root, or an edge
/// of a node with a smaller number leads to it.
pub proof fn lemma_seen_before_read(
    g: GraphState,
    initial: BoardState,
    tiles: Seq<Seq<(i64, i64)>>,
    i: int,
)
    requires
        g.represents(initial, tiles),
        0 <= i < g.nodes.len(),
    ensures
        i <= seen_through(g.edges, i as nat),
{
    let m = seen_through(g.edges, i as nat);
    lemma_seen_through(g, initial, tiles, i as nat);
    if m < i {
        assert forall|a: int, q: int| 0 <= a <= m && 0 <= q < g.edges[a].len() implies #[trigger] g.edges[a][q]
            <= m by {}
        let p = choose|p: Seq<BoardState>|
            #[trigger] is_path(p, tiles) && p[0] == initial && p.last() == g.nodes[i];
        let b = lemma_closed_prefix_holds_path(g, initial, tiles, m, p, p.len() - 1);
        assert(g.nodes[b] == g.nodes[i]);
    }
}

/// The first `m + 1` nodes of both graphs hold the same boards.
pub open spec fn same_prefix(first: GraphState, second: GraphState, m: int) -> bool {
    &&& m < first.nodes.len()
    &&& m < second.nodes.len()
    &&& forall|j: int| 0 <= j <= m ==> first.nodes[j] == second.nodes[j]
}

proof fn lemma_same_edges_of_node(
    first: GraphState,
    second: GraphState,
    initial: BoardState,
    tiles: Seq<Seq<(i64, i64)>>,
    i: int,
    base: int,
    p: nat,
)
    requires
        first.represents(initial, tiles),
        second.represents(initial, tiles),
        0 <= i <= base,
        same_prefix(first, second, base),
        discovers(base, first.edges[i]),
        discovers(base, second.edges[i]),
        p <= first.edges[i].len(),
    ensures
        first.edges[i].len() == second.edges[i].len(),
        forall|q: int| 0 <= q < p ==> first.edges[i][q] == second.edges[i][q],
        running_max(base, first.edges[i], p) == running_max(base, second.edges[i], p),
        same_prefix(first, second, running_max(base, first.edges[i], p)),
    decreases p,
{
    let next = successors(first.nodes[i], tiles);
    let one = first.edges[i];
    let two = second.edges[i];
    assert(edges_match(first.nodes, one, next));
    assert(edges_match(second.nodes, two, next));
    if p > 0 {
        lemma_same_edges_of_node(first, second, initial, tiles, i, base, (p - 1) as nat);
        let m = running_max(base, one, (p - 1) as nat);
        let a = one[p - 1];
        let b = two[p - 1];
        assert(first.nodes[a] == next[p - 1]);
        assert(second.nodes[b] == next[p - 1]);
        assert(a <= m + 1);
        assert(b <= m + 1);
        if a <= m {
            assert(second.nodes[a] == first.nodes[a]);
        } else if b <= m {
            assert(first.nodes[b] == second.nodes[b]);
        }
        assert(a == b);
    }
}

proof fn lemma_same_edges(
    first: GraphState,
    second: GraphState,
    initial: BoardState,
    tiles: Seq<Seq<(i64, i64)>>,
    i: nat,
)
    requires
        first.represents(initial, tiles),
        second.represents(initial, tiles),
        first.numbered_by_discovery(),
        second.numbered_by_discovery(),
        first.nodes.len() == second.nodes.len(),
        i <= first.nodes.len(),
    ensures
        forall|k: int| 0 <= k < i ==> first.edges[k] == second.edges[k],
        seen_through(first.edges, i) == seen_through(second.edges, i),
        same_prefix(first, second, seen_through(first.edges, i)),
    decreases i,
{
    if i > 0 {
        let k = (i - 1) as nat;
        lemma_same_edges(first, second, initial, tiles, k);
        let base = seen_through(first.edges, k);
        lemma_seen_before_read(first, initial, tiles, k as int);
        lemma_same_edges_of_node(
            first,
            second,
            initial,
            tiles,
            k as int,
            base,
            first.edges[k as int].len(),
        );
        assert(first.edges[k as int] =~= second.edges[k as int]);
    }
}

/// Building the graph twice gives the same graph: two graphs that both are
/// the transition graph of one board under one collection of tiles, with
/// their nodes numbered as they are discovered, are equal.
pub proof fn lemma_graph_is_unique(
    first: GraphState,
    second: GraphState,
    initial: BoardState,
    tiles: Seq<Seq<(i64, i64)>>,
)
    requires
        first.represents(initial, tiles),
        second.represents(initial, tiles),
        first.numbered_by_discovery(),
        second.numbered_by_discovery(),
    ensures
        first == second,
{
    lemma_graphs_agree(first, second, initial, tiles);
    let n = first.nodes.len();
    lemma_same_edges(first, second, initial, tiles, n);
    lemma_seen_through(first, initial, tiles, n);
    assert forall|j: int| 0 <= j < n implies first.nodes[j] == second.nodes[j] by {
        lemma_seen_before_read(first, initial, tiles, j);
    }
    assert(first.nodes =~= second.nodes);
    assert(first.edges =~= second.edges);
    if first.complete.is_some() {
        let a = first.complete.unwrap();
        let b = second.complete.unwrap();
        lemma_reachable_grows(initial, tiles, first.nodes[a]);
        lemma_reachable_grows(initial, tiles, first.nodes[b]);
        lemma_complete_unique(first.nodes[a], first.nodes[b]);
        assert(a == b);
    }
}

} // verus!
