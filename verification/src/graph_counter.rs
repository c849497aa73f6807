//! The graph counter: the same dynamic program as the level-synchronous
//! counter, run along the edges of a graph that was built before.

use vstd::prelude::*;
use crate::counter::modulus;
use crate::graph::BoardGraph;
use crate::graph::GraphState;
use crate::paths::lemma_weighted_update;
use crate::paths::lemma_weighted_zero;
use crate::paths::weighted;

verus! {

/// The walks through the first `n` edges of a node are those through the
/// first `n - 1` and those through the last of them.
pub proof fn lemma_walks_via(g: GraphState, i: int, n: nat)
    requires
        g.wf(),
        0 <= i < g.nodes.len(),
        0 < n <= g.edges[i].len(),
    ensures
        g.walks_via(i, n) == g.walks_via(i, (n - 1) as nat) + g.walks(g.edges[i][n - 1]),
        g.edge_ok(i, n - 1),
{
    assert(g.edge_ok(i, n - 1));
}

/// A graph without a complete node has no walk to one.
pub proof fn lemma_no_complete(g: GraphState, i: int)
    requires
        g.complete.is_none(),
    ensures
        g.walks(i) == 0,
    decreases g.nodes[i].unmarked_count(), 1nat, 0nat,
{
    lemma_no_complete_via(g, i, g.edges[i].len());
}

proof fn lemma_no_complete_via(g: GraphState, i: int, n: nat)
    requires
        g.complete.is_none(),
    ensures
        g.walks_via(i, n) == 0,
    decreases g.nodes[i].unmarked_count(), 0nat, n,
{
    if n == 0 || n > g.edges[i].len() {
    } else {
        lemma_no_complete_via(g, i, (n - 1) as nat);
        let j = g.edges[i][n - 1];
        if g.nodes[j].unmarked_count() < g.nodes[i].unmarked_count() {
            lemma_no_complete(g, j);
        }
    }
}

/// Every node listed is a node of the graph other than `target`, at least
/// `level` placements away from the root.
pub open spec fn level_ok(g: GraphState, target: int, list: Seq<usize>, level: nat) -> bool {
    forall|k: int|
        0 <= k < list.len() ==> {
            &&& (#[trigger] list[k]) < g.nodes.len()
            &&& list[k] != target
            &&& g.nodes[list[k] as int].unmarked_count() + level <= g.nodes[0].unmarked_count()
        }
}

/// Every node with a count is listed.
pub open spec fn listed(counts: Seq<u64>, list: Seq<usize>) -> bool {
    forall|x: usize| x < counts.len() && #[trigger] counts[x as int] != 0 ==> list.contains(x)
}

/// A list of `n` zeros.
fn zeros(n: usize) -> (r: Vec<u64>)
    ensures
        r@.len() == n,
        forall|i: int| 0 <= i < n ==> r@[i] == 0,
{
    let mut r: Vec<u64> = Vec::new();
    let mut i: usize = 0;
    while i < n
        invariant
            i <= n,
            r@.len() == i,
            forall|j: int| 0 <= j < i ==> r@[j] == 0,
        decreases n - i,
    {
        r.push(0);
        i = i + 1;
    }
    r
}

/// Hands the count of node `node` on along each of its edges: to the tally
/// where the edge leads to `target`, else to the count of the node it leads
/// to, which is listed when it gets its first count. The result is what was
/// lost to the 64 bits, in units of the modulus.
pub(crate) fn push_along(
    graph: &BoardGraph,
    target: usize,
    node: usize,
    count: u64,
    next: &mut Vec<u64>,
    next_list: &mut Vec<usize>,
    tally: &mut u64,
    Ghost(level): Ghost<nat>,
) -> (carry: Ghost<nat>)
    requires
        graph@.wf(),
        graph@.complete == Some(target as int),
        node < graph@.nodes.len(),
        node != target,
        graph@.nodes[node as int].unmarked_count() + level <= graph@.nodes[0].unmarked_count(),
        old(next)@.len() == graph@.nodes.len(),
        level_ok(graph@, target as int, old(next_list)@, level + 1),
        listed(old(next)@, old(next_list)@),
    ensures
        final(next)@.len() == graph@.nodes.len(),
        level_ok(graph@, target as int, final(next_list)@, level + 1),
        listed(final(next)@, final(next_list)@),
        weighted(final(next)@, graph@.walk_weights(), graph@.nodes.len()) + *final(tally)
            + modulus() * carry@ == weighted(
            old(next)@,
            graph@.walk_weights(),
            graph@.nodes.len(),
        ) + *old(tally) + count * graph@.walks(node as int),
{
    let ghost g = graph@;
    let ghost weights = g.walk_weights();
    let ghost n = g.nodes.len();
    let ghost start = weighted(next@, weights, n) + *tally;
    let ghost mut carry: nat = 0;
    let edges: &Vec<usize> = graph.get_edges(node).unwrap();
    let mut p: usize = edges.len();
    while p > 0
        invariant
            g == graph@,
            g.wf(),
            weights == g.walk_weights(),
            n == g.nodes.len(),
            g.complete == Some(target as int),
            node < n,
            node != target,
            g.nodes[node as int].unmarked_count() + level <= g.nodes[0].unmarked_count(),
            p <= edges@.len(),
            edges@.len() == g.edges[node as int].len(),
            forall|q: int| 0 <= q < edges@.len() ==> edges@[q] as int == g.edges[node as int][q],
            next@.len() == n,
            level_ok(g, target as int, next_list@, level + 1),
            listed(next@, next_list@),
            weighted(next@, weights, n) + *tally + modulus() * carry + count * g.walks_via(
                node as int,
                p as nat,
            ) == start + count * g.walks(node as int),
        decreases p,
    {
        proof {
            lemma_walks_via(g, node as int, p as nat);
            let a = g.walks_via(node as int, (p - 1) as nat);
            let b = g.walks(g.edges[node as int][p - 1]);
            assert(count * (a + b) == count * a + count * b) by (nonlinear_arith);
        }
        p = p - 1;
        let to: usize = edges[p];
        let ghost w = g.walks(to as int);
        assert(g.edge_ok(node as int, p as int));
        if to == target {
            let ghost overflow = *tally + count > u64::MAX;
            *tally = tally.wrapping_add(count);
            proof {
                assert(w == 1);
                assert(count * w == count) by (nonlinear_arith)
                    requires
                        w == 1,
                ;
                if overflow {
                    assert(modulus() * (carry + 1) == modulus() * carry + modulus())
                        by (nonlinear_arith);
                    carry = carry + 1;
                }
            }
        } else {
            let present: u64 = next[to];
            let sum: u64 = present.wrapping_add(count);
            let ghost overflow = present + count > u64::MAX;
            let ghost before = next@;
            let ghost before_list = next_list@;
            if present == 0 {
                next_list.push(to);
            }
            next.set(to, sum);
            proof {
                lemma_weighted_update(before, weights, to as int, sum, n);
                assert(weights[to as int] == w);
                if overflow {
                    assert((sum - present) * w + modulus() * w == count * w) by (nonlinear_arith)
                        requires
                            sum - present == count - modulus(),
                    ;
                    assert(modulus() * (carry + w) == modulus() * carry + modulus() * w)
                        by (nonlinear_arith);
                    carry = carry + w;
                } else {
                    assert((sum - present) * w == count * w) by (nonlinear_arith)
                        requires
                            sum - present == count,
                    ;
                }
                assert forall|x: usize| x < next@.len() && #[trigger] next@[x as int] != 0 implies next_list@.contains(
                    x,
                ) by {
                    if x == to && present == 0 {
                        assert(next_list@[before_list.len() as int] == to);
                    } else {
                        assert(before[x as int] != 0);
                        let k = choose|k: int| 0 <= k < before_list.len() && before_list[k] == x;
                        assert(next_list@[k] == x);
                    }
                }
                assert forall|k: int| 0 <= k < next_list@.len() implies {
                    &&& (#[trigger] next_list@[k]) < g.nodes.len()
                    &&& next_list@[k] != target as int
                    &&& g.nodes[next_list@[k] as int].unmarked_count() + (level + 1)
                        <= g.nodes[0].unmarked_count()
                } by {
                    if k < before_list.len() {
                        assert(next_list@[k] == before_list[k]);
                    }
                }
            }
        }
    }
    proof {
        assert(g.walks_via(node as int, 0) == 0);
        assert(count * 0 == 0);
    }
    Ghost(carry)
}

/// One step of the graph counter: every listed node hands its count on
/// along its edges. Returns the counts and the list of the next level and
/// the tally of walks that have arrived at `target`.
pub(crate) fn spread_level(
    graph: &BoardGraph,
    target: usize,
    counts: Vec<u64>,
    list: Vec<usize>,
    finished: u64,
    Ghost(level): Ghost<nat>,
) -> (r: (Vec<u64>, Vec<usize>, u64, Ghost<nat>))
    requires
        graph@.wf(),
        graph@.complete == Some(target as int),
        counts@.len() == graph@.nodes.len(),
        level_ok(graph@, target as int, list@, level),
        listed(counts@, list@),
    ensures
        r.0@.len() == graph@.nodes.len(),
        level_ok(graph@, target as int, r.1@, level + 1),
        listed(r.0@, r.1@),
        weighted(r.0@, graph@.walk_weights(), graph@.nodes.len()) + r.2 + modulus() * r.3@
            == weighted(counts@, graph@.walk_weights(), graph@.nodes.len()) + finished,
{
    let ghost g = graph@;
    let ghost weights = g.walk_weights();
    let ghost n = g.nodes.len();
    let ghost start = weighted(counts@, weights, n) + finished;
    let mut counts = counts;
    let mut list = list;
    let mut next: Vec<u64> = zeros(counts.len());
    let mut next_list: Vec<usize> = Vec::new();
    let mut tally: u64 = finished;
    let ghost mut carry: nat = 0;
    proof {
        lemma_weighted_zero(next@, weights, n);
    }
    while list.len() > 0
        invariant
            g == graph@,
            g.wf(),
            weights == g.walk_weights(),
            n == g.nodes.len(),
            g.complete == Some(target as int),
            counts@.len() == n,
            next@.len() == n,
            level_ok(g, target as int, list@, level),
            listed(counts@, list@),
            level_ok(g, target as int, next_list@, level + 1),
            listed(next@, next_list@),
            weighted(counts@, weights, n) + weighted(next@, weights, n) + tally + modulus()
                * carry == start,
        decreases list@.len(),
    {
        let ghost before_list = list@;
        let ghost before = counts@;
        let node: usize = list.pop().unwrap();
        let count: u64 = counts[node];
        counts.set(node, 0);
        proof {
            lemma_weighted_update(before, weights, node as int, 0, n);
            assert(weights[node as int] == g.walks(node as int));
            assert((0 - count) * g.walks(node as int) == -(count * g.walks(node as int)))
                by (nonlinear_arith);
            assert forall|x: usize| x < counts@.len() && #[trigger] counts@[x as int] != 0 implies list@.contains(
                x,
            ) by {
                assert(before[x as int] != 0);
                let k = choose|k: int| 0 <= k < before_list.len() && before_list[k] == x;
                assert(list@[k] == x);
            }
            assert forall|k: int| 0 <= k < list@.len() implies {
                &&& (#[trigger] list@[k]) < g.nodes.len()
                &&& list@[k] != target as int
                &&& g.nodes[list@[k] as int].unmarked_count() + level <= g.nodes[0].unmarked_count()
            } by {
                assert(list@[k] == before_list[k]);
            }
        }
        let extra = push_along(
            graph,
            target,
            node,
            count,
            &mut next,
            &mut next_list,
            &mut tally,
            Ghost(level),
        );
        proof {
            assert(modulus() * (carry + extra@) == modulus() * carry + modulus() * extra@)
                by (nonlinear_arith);
            carry = carry + extra@;
        }
    }
    proof {
        assert forall|i: int| 0 <= i < n implies counts@[i] == 0 by {
            if counts@[i] != 0 {
                assert(list@.contains(i as usize));
            }
        }
        lemma_weighted_zero(counts@, weights, n);
    }
    (next, next_list, tally, Ghost(carry))
}

/// Counts the walks from the root of the graph to its complete node, level
/// by level along the edges. The count is taken modulo 2^64, so it is exact
/// whenever it fits in 64 bits. It is 0 where the graph has no complete
/// node, and 1 where the root is the complete node.
pub fn count_tilings_from_graph(graph: &BoardGraph) -> (r: u64)
    ensures
        r as nat == graph@.walks(0) % modulus(),
        graph@.walks(0) <= u64::MAX ==> r as nat == graph@.walks(0),
{
    let n: usize = graph.node_count();
    let ghost g = graph@;
    let ghost total = g.walks(0);
    let target: usize = match graph.get_complete_index() {
        Some(c) => c,
        None => {
            proof {
                lemma_no_complete(g, 0);
            }
            return 0;
        },
    };
    if target == 0 {
        return 1;
    }
    let mut counts: Vec<u64> = zeros(n);
    let ghost weights = g.walk_weights();
    proof {
        lemma_weighted_zero(counts@, weights, n as nat);
        lemma_weighted_update(counts@, weights, 0, 1, n as nat);
        assert(weights[0] == total);
        assert((1 - 0) * total == total) by (nonlinear_arith);
    }
    counts.set(0, 1);
    let mut list: Vec<usize> = Vec::new();
    list.push(0);
    let mut finished: u64 = 0;
    let ghost mut lost: nat = 0;
    let ghost mut level: nat = 0;
    proof {
        assert forall|x: usize| x < counts@.len() && #[trigger] counts@[x as int] != 0 implies list@.contains(
            x,
        ) by {
            assert(list@[0] == 0usize);
        }
    }
    while list.len() > 0
        invariant
            g == graph@,
            g.wf(),
            weights == g.walk_weights(),
            n == g.nodes.len(),
            total == g.walks(0),
            g.complete == Some(target as int),
            counts@.len() == n,
            level_ok(g, target as int, list@, level),
            listed(counts@, list@),
            weighted(counts@, weights, n as nat) + finished + modulus() * lost == total,
        decreases g.nodes[0].unmarked_count() + 1 - level,
    {
        proof {
            assert(list@[0] < n);
        }
        let (next, next_list, tally, extra) = spread_level(
            graph,
            target,
            counts,
            list,
            finished,
            Ghost(level),
        );
        counts = next;
        list = next_list;
        finished = tally;
        proof {
            assert(modulus() * (lost + extra@) == modulus() * lost + modulus() * extra@)
                by (nonlinear_arith);
            lost = lost + extra@;
            level = level + 1;
        }
    }
    proof {
        assert forall|i: int| 0 <= i < n implies counts@[i] == 0 by {
            if counts@[i] != 0 {
                assert(list@.contains(i as usize));
            }
        }
        lemma_weighted_zero(counts@, weights, n as nat);
        vstd::arithmetic::div_mod::lemma_fundamental_div_mod_converse(
            total as int,
            modulus() as int,
            lost as int,
            finished as int,
        );
        if total <= u64::MAX {
            vstd::arithmetic::div_mod::lemma_small_mod(total, modulus());
        }
    }
    finished
}

} // verus!
