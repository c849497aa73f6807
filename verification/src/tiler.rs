//! The tiler: a board, a collection of tiles, and the ways to count and
//! sample the tilings of the one by the other.

use vstd::prelude::*;
use crate::board::Board;
use crate::board::BoardState;
use crate::builder::generate_graph;
use crate::counter::count_tilings_quick;
use crate::counter::modulus;
use crate::expand::board_views;
use crate::graph::BoardGraph;
use crate::graph::GraphState;
use crate::graph_counter::count_tilings_from_graph;
use crate::laws::lemma_graph_count_is_direct_count;
use crate::paths::completions;
use crate::sampler::collected;
use crate::sampler::is_tiling_path;
use crate::sampler::sample_one_tiling;
use crate::tile::TileCollection;

verus! {

/// Counts and samples the tilings of a board by a collection of tiles. Once
/// its transition graph is built, counting goes along the graph.
#[derive(Debug)]
pub struct Tiler {
    tiles: TileCollection,
    initial_board: Board,
    graph: Option<BoardGraph>,
}

impl Tiler {
    #[verifier::type_invariant]
    spec fn inv(self) -> bool {
        match self.graph {
            Some(g) => g@.represents(self.initial_board@, self.tiles@),
            None => true,
        }
    }

    /// The tiles.
    pub closed spec fn tiles_view(&self) -> Seq<Seq<(i64, i64)>> {
        self.tiles@
    }

    /// The board to tile.
    pub closed spec fn board_view(&self) -> BoardState {
        self.initial_board@
    }

    /// The transition graph, once it is built.
    pub closed spec fn graph_view(&self) -> Option<GraphState> {
        match self.graph {
            Some(g) => Some(g@),
            None => None,
        }
    }

    /// Number of ways to tile the board.
    pub open spec fn tilings(&self) -> nat {
        completions(self.board_view(), self.tiles_view())
    }

    /// A tiler for the board and the tiles, without a graph.
    pub fn new(tiles: TileCollection, initial_board: Board) -> (r: Tiler)
        ensures
            r.tiles_view() == tiles@,
            r.board_view() == initial_board@,
            r.graph_view().is_none(),
    {
        Tiler { tiles, initial_board, graph: None }
    }

    /// Counts the tilings of the board, modulo 2^64: along the graph if it
    /// is built, else directly. Both give the same count. The tiler is left
    /// as it was.
    pub fn count_tilings(&mut self) -> (r: u64)
        ensures
            final(self).tiles_view() == old(self).tiles_view(),
            final(self).board_view() == old(self).board_view(),
            final(self).graph_view() == old(self).graph_view(),
            r as nat == old(self).tilings() % modulus(),
            old(self).tilings() <= u64::MAX ==> r as nat == old(self).tilings(),
    {
        if self.graph.is_some() {
            self.count_tilings_from_graph()
        } else {
            self.count_tilings_quick()
        }
    }

    /// Counts the tilings of the board directly, modulo 2^64.
    pub fn count_tilings_quick(&self) -> (r: u64)
        ensures
            r as nat == self.tilings() % modulus(),
            self.tilings() <= u64::MAX ==> r as nat == self.tilings(),
    {
        count_tilings_quick(&self.initial_board, &self.tiles)
    }

    /// Counts the tilings of the board along the graph, modulo 2^64.
    pub fn count_tilings_from_graph(&self) -> (r: u64)
        requires
            self.graph_view().is_some(),
        ensures
            r as nat == self.graph_view().unwrap().walks(0) % modulus(),
            r as nat == self.tilings() % modulus(),
            self.tilings() <= u64::MAX ==> r as nat == self.tilings(),
    {
        match &self.graph {
            Some(graph) => {
                proof {
                    use_type_invariant(self);
                    lemma_graph_count_is_direct_count(graph@, self.initial_board@, self.tiles@);
                }
                count_tilings_from_graph(graph)
            },
            None => 0,
        }
    }

    /// Builds the transition graph of the board and keeps it.
    pub fn generate_graph(&mut self)
        ensures
            final(self).tiles_view() == old(self).tiles_view(),
            final(self).board_view() == old(self).board_view(),
            final(self).graph_view().is_some(),
            final(self).graph_view().unwrap().represents(
                old(self).board_view(),
                old(self).tiles_view(),
            ),
            final(self).graph_view().unwrap().numbered_by_discovery(),
    {
        let graph: BoardGraph = generate_graph(&self.initial_board, &self.tiles);
        self.graph = Some(graph);
    }

    /// The transition graph, once it is built.
    pub fn graph(&self) -> (r: Option<&BoardGraph>)
        ensures
            match r {
                Some(g) => self.graph_view() == Some(g@) && g@.represents(
                    self.board_view(),
                    self.tiles_view(),
                ),
                None => self.graph_view().is_none(),
            },
    {
        proof {
            use_type_invariant(self);
        }
        self.graph.as_ref()
    }

    /// One tiling of the board, as the boards from the initial one to the
    /// complete one, a placement apart: of the tilings that a depth-first
    /// search collects, up to its cap, the one at place `pick` modulo their
    /// number. `None` exactly when the board has no tiling.
    pub fn get_single_tiling(&self, pick: usize) -> (r: Option<Vec<Board>>)
        ensures
            match r {
                Some(path) => collected(self.board_view(), self.tiles_view()).len() > 0
                    && board_views(path@) == collected(self.board_view(), self.tiles_view())[(
                pick as int) % (collected(self.board_view(), self.tiles_view()).len() as int)],
                None => collected(self.board_view(), self.tiles_view()).len() == 0,
            },
            r.is_some() <==> self.tilings() > 0,
            r.is_some() ==> is_tiling_path(
                board_views(r.unwrap()@),
                self.board_view(),
                self.tiles_view(),
            ) && board_views(r.unwrap()@).last().is_complete(),
    {
        sample_one_tiling(&self.initial_board, &self.tiles, pick)
    }
}

} // verus!
