//! The transition graph: the boards reached from an initial board, each
//! stored once, with an edge for every single placement between them.

use vstd::prelude::*;
use crate::board::Board;
use crate::board::BoardState;
use crate::expand::board_views;
use crate::expand::successors;
use crate::paths::reachable;

verus! {

/// What a graph is, mathematically.
pub struct GraphState {
    /// The boards, by node number.
    pub nodes: Seq<BoardState>,
    /// For each node, the numbers of the nodes that its edges lead to.
    pub edges: Seq<Seq<int>>,
    /// The node of the complete board, if one was reached.
    pub complete: Option<int>,
}

/// The edge list `out` leads, entry by entry, to the nodes that hold the
/// boards of `targets`.
pub open spec fn edges_match(nodes: Seq<BoardState>, out: Seq<int>, targets: Seq<BoardState>) -> bool {
    &&& out.len() == targets.len()
    &&& forall|p: int|
        0 <= p < out.len() ==> 0 <= #[trigger] out[p] < nodes.len() && nodes[out[p]] == targets[p]
}

/// The largest of `base` and the first `q` entries of `out`.
pub open spec fn running_max(base: int, out: Seq<int>, q: nat) -> int
    decreases q,
{
    if q == 0 {
        base
    } else {
        let before = running_max(base, out, (q - 1) as nat);
        if out[q - 1] > before {
            out[q - 1]
        } else {
            before
        }
    }
}

/// The largest node number among the root and the nodes that the edges of
/// the first `i` nodes lead to.
pub open spec fn seen_through(edges: Seq<Seq<int>>, i: nat) -> int
    decreases i,
{
    if i == 0 {
        0
    } else {
        running_max(seen_through(edges, (i - 1) as nat), edges[i - 1], edges[i - 1].len())
    }
}

/// The running maximum over a prefix depends on that prefix only.
pub proof fn lemma_running_max_frame(base: int, out: Seq<int>, other: Seq<int>, q: nat)
    requires
        q <= out.len(),
        q <= other.len(),
        forall|k: int| 0 <= k < q ==> out[k] == other[k],
    ensures
        running_max(base, out, q) == running_max(base, other, q),
    decreases q,
{
    if q > 0 {
        lemma_running_max_frame(base, out, other, (q - 1) as nat);
    }
}

/// What was seen through the first `i` nodes depends on their edges only.
pub proof fn lemma_seen_through_frame(edges: Seq<Seq<int>>, other: Seq<Seq<int>>, i: nat)
    requires
        i <= edges.len(),
        i <= other.len(),
        forall|k: int| 0 <= k < i ==> edges[k] == other[k],
    ensures
        seen_through(edges, i) == seen_through(other, i),
    decreases i,
{
    if i > 0 {
        lemma_seen_through_frame(edges, other, (i - 1) as nat);
    }
}

/// Reading the edge list `out` after the numbers up to `base` were seen,
/// each entry is a number seen before or the next number.
pub open spec fn discovers(base: int, out: Seq<int>) -> bool {
    forall|p: int| 0 <= p < out.len() ==> #[trigger] out[p] <= running_max(base, out, p as nat) + 1
}

impl GraphState {
    /// The nodes are numbered as they are discovered: reading the edges node
    /// by node, from the root on, each edge leads to a node that was seen
    /// before or to the node with the next number.
    pub open spec fn numbered_by_discovery(self) -> bool {
        forall|i: int|
            0 <= i < self.edges.len() ==> discovers(
                seen_through(self.edges, i as nat),
                #[trigger] self.edges[i],
            )
    }

    /// Edge `p` of node `i` leads to a node of the graph whose board has
    /// fewer free cells.
    pub open spec fn edge_ok(self, i: int, p: int) -> bool {
        &&& 0 <= self.edges[i][p] < self.nodes.len()
        &&& self.nodes[self.edges[i][p]].unmarked_count() < self.nodes[i].unmarked_count()
    }

    /// The graph has a root, an edge list for every node, and only edges
    /// that lead to boards with fewer free cells; so it has no cycle.
    pub open spec fn wf(self) -> bool {
        &&& self.nodes.len() >= 1
        &&& self.edges.len() == self.nodes.len()
        &&& forall|i: int, p: int|
            0 <= i < self.nodes.len() && 0 <= p < self.edges[i].len() ==> self.edge_ok(i, p)
        &&& match self.complete {
            Some(c) => 0 <= c < self.nodes.len(),
            None => true,
        }
    }

    /// Number of walks along the edges from node `i` to the complete node.
    pub open spec fn walks(self, i: int) -> nat
        decreases self.nodes[i].unmarked_count(), 1nat, 0nat,
    {
        if self.complete == Some(i) {
            1
        } else {
            self.walks_via(i, self.edges[i].len())
        }
    }

    /// Number of walks from node `i` to the complete node that begin with
    /// one of the first `n` edges of node `i`.
    pub open spec fn walks_via(self, i: int, n: nat) -> nat
        decreases self.nodes[i].unmarked_count(), 0nat, n,
    {
        if n == 0 || n > self.edges[i].len() {
            0
        } else {
            let j = self.edges[i][n - 1];
            self.walks_via(i, (n - 1) as nat) + if self.nodes[j].unmarked_count()
                < self.nodes[i].unmarked_count() {
                self.walks(j)
            } else {
                0
            }
        }
    }

    /// For each node, the number of walks from it to the complete node.
    pub open spec fn walk_weights(self) -> Seq<nat> {
        Seq::new(self.nodes.len(), |i: int| self.walks(i))
    }

    /// Number of edges of the first `n` nodes.
    pub open spec fn edge_count(self, n: nat) -> nat
        decreases n,
    {
        if n == 0 {
            0
        } else {
            self.edge_count((n - 1) as nat) + self.edges[n - 1].len()
        }
    }

    /// The graph is the transition graph of the well-formed board `initial`
    /// under `tiles`: its root holds `initial`, no board is stored twice,
    /// every board stored is reached from `initial`, the edges of every node
    /// lead to the successors of its board, in their order, and the complete
    /// board, if it is stored, is marked as such.
    pub open spec fn represents(self, initial: BoardState, tiles: Seq<Seq<(i64, i64)>>) -> bool {
        &&& initial.wf()
        &&& self.nodes.len() >= 1
        &&& self.edges.len() == self.nodes.len()
        &&& self.nodes[0] == initial
        &&& self.nodes.no_duplicates()
        &&& forall|i: int|
            0 <= i < self.nodes.len() ==> reachable(initial, tiles, #[trigger] self.nodes[i])
        &&& forall|i: int|
            0 <= i < self.nodes.len() ==> edges_match(
                self.nodes,
                #[trigger] self.edges[i],
                successors(self.nodes[i], tiles),
            )
        &&& match self.complete {
            Some(c) => 0 <= c < self.nodes.len() && self.nodes[c].is_complete(),
            None => forall|i: int|
                0 <= i < self.nodes.len() ==> !(#[trigger] self.nodes[i]).is_complete(),
        }
    }
}

/// An edge list as a sequence of node numbers.
pub open spec fn index_view(out: Seq<usize>) -> Seq<int> {
    Seq::new(out.len(), |p: int| out[p] as int)
}

/// The edge lists as sequences of node numbers.
pub open spec fn edge_views(edges: Seq<Vec<usize>>) -> Seq<Seq<int>> {
    Seq::new(edges.len(), |i: int| index_view(edges[i]@))
}

/// The graph that the three parts make up.
pub open spec fn graph_state(
    nodes: Seq<Board>,
    edges: Seq<Vec<usize>>,
    complete: Option<usize>,
) -> GraphState {
    GraphState {
        nodes: board_views(nodes),
        edges: edge_views(edges),
        complete: match complete {
            Some(c) => Some(c as int),
            None => None,
        },
    }
}

/// The transition graph of a board under a collection of tiles.
#[derive(Debug)]
pub struct BoardGraph {
    nodes: Vec<Board>,
    edges: Vec<Vec<usize>>,
    complete: Option<usize>,
}

impl View for BoardGraph {
    type V = GraphState;

    closed spec fn view(&self) -> GraphState {
        graph_state(self.nodes@, self.edges@, self.complete)
    }
}

impl BoardGraph {
    #[verifier::type_invariant]
    spec fn inv(self) -> bool {
        graph_state(self.nodes@, self.edges@, self.complete).wf()
    }

    /// The graph made of the given parts.
    pub(crate) fn from_parts(nodes: Vec<Board>, edges: Vec<Vec<usize>>, complete: Option<usize>) -> (r:
        BoardGraph)
        requires
            graph_state(nodes@, edges@, complete).wf(),
        ensures
            r@ == graph_state(nodes@, edges@, complete),
    {
        BoardGraph { nodes, edges, complete }
    }

    /// Number of nodes.
    pub fn node_count(&self) -> (r: usize)
        ensures
            r == self@.nodes.len(),
            self@.wf(),
    {
        proof {
            use_type_invariant(self);
        }
        self.nodes.len()
    }

    /// The board of node `index`, if there is such a node.
    pub fn get_node(&self, index: usize) -> (r: Option<&Board>)
        ensures
            r.is_some() <==> index < self@.nodes.len(),
            r.is_some() ==> r.unwrap()@ == self@.nodes[index as int],
    {
        if index < self.nodes.len() {
            Some(&self.nodes[index])
        } else {
            None
        }
    }

    /// The nodes that the edges of node `index` lead to, if there is such a
    /// node.
    pub fn get_edges(&self, index: usize) -> (r: Option<&Vec<usize>>)
        ensures
            r.is_some() <==> index < self@.nodes.len(),
            r.is_some() ==> r.unwrap()@.len() == self@.edges[index as int].len(),
            r.is_some() ==> forall|p: int|
                0 <= p < r.unwrap()@.len() ==> r.unwrap()@[p] as int == self@.edges[index as int][p],
    {
        proof {
            use_type_invariant(self);
        }
        if index < self.edges.len() {
            Some(&self.edges[index])
        } else {
            None
        }
    }

    /// The node of the complete board, if one was reached.
    pub fn get_complete_index(&self) -> (r: Option<usize>)
        ensures
            match r {
                Some(c) => self@.complete == Some(c as int),
                None => self@.complete.is_none(),
            },
    {
        self.complete
    }
}

} // verus!
