//! The graph builder: breadth-first expansion from the initial board, in
//! which a board that is reached again keeps the node it was given first.

use vstd::prelude::*;
use crate::board::Board;
use crate::board::BoardState;
use crate::expand::board_views;
use crate::expand::extends;
use crate::expand::find_board;
use crate::expand::lemma_successors;
use crate::expand::place_tile_on_all;
use crate::expand::successors;
use crate::graph::edge_views;
use crate::graph::edges_match;
use crate::graph::graph_state;
use crate::graph::discovers;
use crate::graph::index_view;
use crate::graph::lemma_running_max_frame;
use crate::graph::lemma_seen_through_frame;
use crate::graph::running_max;
use crate::graph::seen_through;
use crate::graph::BoardGraph;
use crate::paths::lemma_reachable_grows;
use crate::paths::lemma_reachable_self;
use crate::paths::lemma_reachable_step;
use crate::paths::reachable;
use crate::tile::TileCollection;

verus! {

/// The boards stored so far begin with `initial`, are pairwise different and
/// reached from `initial`, and `complete` names the complete one among them,
/// if there is one.
pub open spec fn arena_ok(
    nodes: Seq<BoardState>,
    complete: Option<usize>,
    initial: BoardState,
    tiles: Seq<Seq<(i64, i64)>>,
) -> bool {
    &&& nodes.len() >= 1
    &&& nodes[0] == initial
    &&& nodes.no_duplicates()
    &&& forall|i: int| 0 <= i < nodes.len() ==> reachable(initial, tiles, #[trigger] nodes[i])
    &&& match complete {
        Some(c) => c < nodes.len() && nodes[c as int].is_complete(),
        None => forall|i: int| 0 <= i < nodes.len() ==> !(#[trigger] nodes[i]).is_complete(),
    }
}

/// `now` begins with the entries of `before`.
pub open spec fn extended_by(before: Seq<BoardState>, now: Seq<BoardState>) -> bool {
    &&& before.len() <= now.len()
    &&& forall|j: int| 0 <= j < before.len() ==> #[trigger] now[j] == before[j]
}

/// The node of the board `child`: the one it has, or a new one at the end.
pub(crate) fn intern(
    nodes: &mut Vec<Board>,
    complete: &mut Option<usize>,
    child: &Board,
    Ghost(initial): Ghost<BoardState>,
    Ghost(tiles): Ghost<Seq<Seq<(i64, i64)>>>,
) -> (r: usize)
    requires
        arena_ok(board_views(old(nodes)@), *old(complete), initial, tiles),
        reachable(initial, tiles, child@),
    ensures
        arena_ok(board_views(final(nodes)@), *final(complete), initial, tiles),
        extended_by(board_views(old(nodes)@), board_views(final(nodes)@)),
        r < final(nodes)@.len(),
        r <= old(nodes)@.len(),
        final(nodes)@.len() == if r == old(nodes)@.len() {
            old(nodes)@.len() + 1
        } else {
            old(nodes)@.len()
        },
        board_views(final(nodes)@)[r as int] == child@,
        forall|j: int|
            old(nodes)@.len() <= j < final(nodes)@.len() ==> #[trigger] board_views(
                final(nodes)@,
            )[j] == child@,
{
    let ghost before = board_views(nodes@);
    match find_board(nodes, child) {
        Some(j) => {
            assert(board_views(nodes@) =~= before);
            j
        },
        None => {
            let index: usize = nodes.len();
            if child.is_all_marked() {
                *complete = Some(index);
            }
            nodes.push(child.clone());
            proof {
                let now = board_views(nodes@);
                assert(now =~= before.push(child@));
                assert forall|i: int, j: int| 0 <= i < now.len() && 0 <= j < now.len() && i != j implies now[i] != now[j] by {
                    if i < before.len() && j < before.len() {
                        assert(before[i] != before[j]);
                    } else if i < before.len() {
                        assert(before.contains(before[i]));
                    } else {
                        assert(before.contains(before[j]));
                    }
                }
                assert forall|i: int| 0 <= i < now.len() implies reachable(
                    initial,
                    tiles,
                    #[trigger] now[i],
                ) by {
                    if i < before.len() {
                        assert(now[i] == before[i]);
                    }
                }
                match *complete {
                    Some(c) => {},
                    None => {
                        assert forall|i: int| 0 <= i < now.len() implies !(#[trigger] now[i]).is_complete() by {
                            if i < before.len() {
                                assert(now[i] == before[i]);
                            }
                        }
                    },
                }
            }
            index
        },
    }
}

/// Gives every successor of a board its node and returns the edges of the
/// board: the nodes of its successors, in their order.
pub(crate) fn connect(
    nodes: &mut Vec<Board>,
    complete: &mut Option<usize>,
    children: &Vec<Board>,
    Ghost(parent): Ghost<BoardState>,
    Ghost(initial): Ghost<BoardState>,
    Ghost(tiles): Ghost<Seq<Seq<(i64, i64)>>>,
) -> (out: Vec<usize>)
    requires
        arena_ok(board_views(old(nodes)@), *old(complete), initial, tiles),
        initial.wf(),
        reachable(initial, tiles, parent),
        board_views(children@) == successors(parent, tiles),
    ensures
        arena_ok(board_views(final(nodes)@), *final(complete), initial, tiles),
        extended_by(board_views(old(nodes)@), board_views(final(nodes)@)),
        edges_match(board_views(final(nodes)@), index_view(out@), successors(parent, tiles)),
        forall|j: int|
            old(nodes)@.len() <= j < final(nodes)@.len() ==> extends(
                parent,
                #[trigger] board_views(final(nodes)@)[j],
            ),
        discovers(old(nodes)@.len() - 1, index_view(out@)),
        running_max(old(nodes)@.len() - 1, index_view(out@), out@.len() as nat)
            == final(nodes)@.len() - 1,
{
    let ghost base = nodes@.len() - 1;
    let ghost before = board_views(nodes@);
    let ghost targets = successors(parent, tiles);
    let mut out: Vec<usize> = Vec::new();
    let mut p: usize = 0;
    proof {
        lemma_reachable_grows(initial, tiles, parent);
        lemma_successors(parent, tiles);
    }
    while p < children.len()
        invariant
            p <= children@.len(),
            targets == successors(parent, tiles),
            board_views(children@) == targets,
            reachable(initial, tiles, parent),
            arena_ok(board_views(nodes@), *complete, initial, tiles),
            extended_by(before, board_views(nodes@)),
            out@.len() == p,
            forall|q: int|
                0 <= q < p ==> (#[trigger] out@[q]) < nodes@.len() && board_views(
                    nodes@,
                )[out@[q] as int] == targets[q],
            forall|j: int|
                before.len() <= j < nodes@.len() ==> extends(
                    parent,
                    #[trigger] board_views(nodes@)[j],
                ),
            forall|q: int| 0 <= q < targets.len() ==> extends(parent, #[trigger] targets[q]),
            discovers(base, index_view(out@)),
            running_max(base, index_view(out@), p as nat) == nodes@.len() - 1,
        decreases children@.len() - p,
    {
        let child: &Board = &children[p];
        let ghost mid = board_views(nodes@);
        proof {
            assert(child@ == targets[p as int]);
            assert(targets.contains(child@));
            lemma_reachable_step(initial, tiles, parent, child@);
        }
        let ghost listed = index_view(out@);
        let index: usize = intern(nodes, complete, child, Ghost(initial), Ghost(tiles));
        out.push(index);
        proof {
            let now = board_views(nodes@);
            let longer = index_view(out@);
            assert forall|q: int| 0 <= q < longer.len() implies #[trigger] longer[q] <= running_max(
                base,
                longer,
                q as nat,
            ) + 1 by {
                lemma_running_max_frame(base, longer, listed, q as nat);
                if q < p {
                    assert(longer[q] == listed[q]);
                }
            }
            lemma_running_max_frame(base, longer, listed, p as nat);
            assert forall|q: int| 0 <= q < p + 1 implies (#[trigger] out@[q]) < nodes@.len()
                && now[out@[q] as int] == targets[q] by {
                if q < p {
                    assert(now[out@[q] as int] == mid[out@[q] as int]);
                }
            }
            assert forall|j: int| before.len() <= j < nodes@.len() implies extends(
                parent,
                #[trigger] now[j],
            ) by {
                if j < mid.len() {
                    assert(now[j] == mid[j]);
                }
            }
            assert forall|j: int| 0 <= j < before.len() implies #[trigger] now[j] == before[j] by {
                assert(mid[j] == before[j]);
                assert(now[j] == mid[j]);
            }
        }
        p = p + 1;
    }
    proof {
        let now = board_views(nodes@);
        let edges = index_view(out@);
        assert forall|q: int| 0 <= q < edges.len() implies 0 <= #[trigger] edges[q] < now.len()
            && now[edges[q]] == targets[q] by {
            assert(out@[q] < nodes@.len());
        }
    }
    out
}

/// Builds the transition graph of `initial` under `tiles`. The root, node 0,
/// holds `initial`. Boards are expanded level by level, in the order of
/// their nodes; a board that comes up first gets the next node number, and
/// one that is reached again, from whatever board, keeps its node and gains
/// an edge.
pub fn generate_graph(initial: &Board, tiles: &TileCollection) -> (g: BoardGraph)
    ensures
        g@.represents(initial@, tiles@),
        g@.numbered_by_discovery(),
{
    let cells: usize = initial.cell_count();
    let mut nodes: Vec<Board> = Vec::new();
    nodes.push(initial.clone());
    let mut edges: Vec<Vec<usize>> = Vec::new();
    let mut complete: Option<usize> = if initial.is_all_marked() {
        Some(0)
    } else {
        None
    };
    let mut done: usize = 0;
    let ghost mut level: nat = 0;
    proof {
        assert(board_views(nodes@) =~= seq![initial@]);
        lemma_reachable_self(initial@, tiles@);
    }
    while done < nodes.len()
        invariant
            initial@.wf(),
            cells == initial@.marked.len(),
            arena_ok(board_views(nodes@), complete, initial@, tiles@),
            edges@.len() == done,
            done <= nodes@.len(),
            forall|i: int|
                0 <= i < done ==> edges_match(
                    board_views(nodes@),
                    #[trigger] edge_views(edges@)[i],
                    successors(board_views(nodes@)[i], tiles@),
                ),
            forall|i: int|
                done <= i < nodes@.len() ==> (#[trigger] board_views(nodes@)[i]).marked_count()
                    >= level,
            seen_through(edge_views(edges@), done as nat) == nodes@.len() - 1,
            forall|i: int|
                0 <= i < done ==> discovers(
                    seen_through(edge_views(edges@), i as nat),
                    #[trigger] edge_views(edges@)[i],
                ),
        decreases cells + 1 - level,
    {
        let ghost frontier = board_views(nodes@);
        let hi: usize = nodes.len();
        proof {
            let first = frontier[done as int];
            lemma_reachable_grows(initial@, tiles@, first);
            crate::board::lemma_count_true_bound(first.marked);
        }
        let expansions: Vec<Vec<Board>> = place_tile_on_all(&nodes, done, tiles);
        let mut k: usize = 0;
        while k < expansions.len()
            invariant
                initial@.wf(),
                k <= expansions@.len(),
                hi == done + expansions@.len(),
                hi == frontier.len(),
                arena_ok(board_views(nodes@), complete, initial@, tiles@),
                extended_by(frontier, board_views(nodes@)),
                edges@.len() == done + k,
                forall|i: int|
                    0 <= i < done + k ==> edges_match(
                        board_views(nodes@),
                        #[trigger] edge_views(edges@)[i],
                        successors(board_views(nodes@)[i], tiles@),
                    ),
                forall|i: int|
                    0 <= i < expansions@.len() ==> board_views(#[trigger] expansions@[i]@)
                        == successors(frontier[done + i], tiles@),
                forall|i: int| done <= i < hi ==> (#[trigger] frontier[i]).marked_count() >= level,
                forall|i: int|
                    hi <= i < nodes@.len() ==> (#[trigger] board_views(nodes@)[i]).marked_count()
                        >= level + 1,
                seen_through(edge_views(edges@), (done + k) as nat) == nodes@.len() - 1,
                forall|i: int|
                    0 <= i < done + k ==> discovers(
                        seen_through(edge_views(edges@), i as nat),
                        #[trigger] edge_views(edges@)[i],
                    ),
            decreases expansions@.len() - k,
        {
            let ghost mid = board_views(nodes@);
            let ghost mid_edges = edge_views(edges@);
            let ghost parent = frontier[done + k];
            proof {
                assert(mid[done + k] == parent);
                assert(parent.marked_count() >= level);
            }
            let out: Vec<usize> = connect(
                &mut nodes,
                &mut complete,
                &expansions[k],
                Ghost(parent),
                Ghost(initial@),
                Ghost(tiles@),
            );
            edges.push(out);
            proof {
                let now = board_views(nodes@);
                let now_edges = edge_views(edges@);
                assert forall|i: int| 0 <= i < done + k + 1 implies discovers(
                    seen_through(now_edges, i as nat),
                    #[trigger] now_edges[i],
                ) by {
                    lemma_seen_through_frame(now_edges, mid_edges, i as nat);
                    if i < done + k {
                        assert(now_edges[i] == mid_edges[i]);
                    } else {
                        assert(now_edges[i] == index_view(out@));
                    }
                }
                lemma_seen_through_frame(now_edges, mid_edges, (done + k) as nat);
                assert(now_edges[done + k] == index_view(out@));
                assert forall|j: int| 0 <= j < frontier.len() implies #[trigger] now[j]
                    == frontier[j] by {
                    assert(mid[j] == frontier[j]);
                    assert(now[j] == mid[j]);
                }
                assert forall|i: int| 0 <= i < done + k + 1 implies edges_match(
                    now,
                    #[trigger] now_edges[i],
                    successors(now[i], tiles@),
                ) by {
                    if i < done + k {
                        assert(now_edges[i] == mid_edges[i]);
                        assert(now[i] == mid[i]);
                        assert(edges_match(mid, mid_edges[i], successors(mid[i], tiles@)));
                        let e = mid_edges[i];
                        assert forall|p: int| 0 <= p < e.len() implies 0 <= #[trigger] e[p]
                            < now.len() && now[e[p]] == successors(mid[i], tiles@)[p] by {
                            assert(now[e[p]] == mid[e[p]]);
                        }
                    } else {
                        assert(now_edges[i] == index_view(out@));
                        assert(now[i] == parent);
                    }
                }
                assert forall|i: int| hi <= i < nodes@.len() implies (#[trigger] now[i]).marked_count()
                    >= level + 1 by {
                    if i < mid.len() {
                        assert(now[i] == mid[i]);
                    } else {
                        assert(extends(parent, now[i]));
                    }
                }
            }
            k = k + 1;
        }
        done = hi;
        proof {
            level = level + 1;
        }
    }
    proof {
        let state = graph_state(nodes@, edges@, complete);
        assert(state.nodes == board_views(nodes@));
        assert(state.edges == edge_views(edges@));
        assert forall|i: int, p: int|
            0 <= i < state.nodes.len() && 0 <= p < state.edges[i].len() implies state.edge_ok(
            i,
            p,
        ) by {
            lemma_reachable_grows(initial@, tiles@, state.nodes[i]);
            lemma_successors(state.nodes[i], tiles@);
            assert(edges_match(state.nodes, state.edges[i], successors(state.nodes[i], tiles@)));
            assert(extends(state.nodes[i], successors(state.nodes[i], tiles@)[p]));
        }
        assert(state.wf());
        assert(state.represents(initial@, tiles@));
        assert(state.numbered_by_discovery());
    }
    BoardGraph::from_parts(nodes, edges, complete)
}

} // verus!
