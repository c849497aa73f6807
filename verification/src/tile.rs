//! Tiles and single placements.
//!
//! A tile is a list of cells, each given by its row and column offset. A
//! placement puts one chosen cell of the tile onto an anchor cell of the
//! board; the other cells follow by their offsets relative to the chosen one.

use vstd::prelude::*;
use crate::board::Board;
use crate::board::BoardState;

verus! {

/// Row on which cell `k` of `tile` lands when cell `start` sits on `anchor`.
pub open spec fn target_row(
    s: BoardState,
    tile: Seq<(i64, i64)>,
    anchor: int,
    start: int,
    k: int,
) -> int {
    anchor / (s.width as int) + tile[k].0 - tile[start].0
}

/// Column on which cell `k` of `tile` lands when cell `start` sits on `anchor`.
pub open spec fn target_col(
    s: BoardState,
    tile: Seq<(i64, i64)>,
    anchor: int,
    start: int,
    k: int,
) -> int {
    anchor % (s.width as int) + tile[k].1 - tile[start].1
}

/// Cell `k` of the tile lands inside the grid.
pub open spec fn target_in_bounds(
    s: BoardState,
    tile: Seq<(i64, i64)>,
    anchor: int,
    start: int,
    k: int,
) -> bool {
    &&& 0 <= target_row(s, tile, anchor, start, k) < s.height
    &&& 0 <= target_col(s, tile, anchor, start, k) < s.width
}

/// Index of the grid cell on which cell `k` of the tile lands.
pub open spec fn target_index(
    s: BoardState,
    tile: Seq<(i64, i64)>,
    anchor: int,
    start: int,
    k: int,
) -> int {
    target_row(s, tile, anchor, start, k) * s.width + target_col(s, tile, anchor, start, k)
}

/// Cell `k` of the tile lands inside the grid and on a free cell.
pub open spec fn lands_free(
    s: BoardState,
    tile: Seq<(i64, i64)>,
    anchor: int,
    start: int,
    k: int,
) -> bool {
    &&& target_in_bounds(s, tile, anchor, start, k)
    &&& !s.marked[target_index(s, tile, anchor, start, k)]
}

/// The tile, with cell `start` on `anchor`, lies inside the grid and on free
/// cells only.
pub open spec fn fits(s: BoardState, tile: Seq<(i64, i64)>, anchor: int, start: int) -> bool {
    forall|k: int| 0 <= k < tile.len() ==> lands_free(s, tile, anchor, start, k)
}

/// The grid cells that the tile covers, one for each of its cells.
pub open spec fn placement_cells(
    s: BoardState,
    tile: Seq<(i64, i64)>,
    anchor: int,
    start: int,
) -> Seq<int> {
    Seq::new(tile.len(), |k: int| target_index(s, tile, anchor, start, k))
}

/// The board with the first `n` of the given cells covered.
pub open spec fn mark_cells(s: BoardState, cells: Seq<int>, n: nat) -> BoardState
    decreases n,
{
    if n == 0 {
        s
    } else {
        mark_cells(s, cells, (n - 1) as nat).mark(cells[n - 1])
    }
}

/// The board after the placement.
pub open spec fn place(s: BoardState, tile: Seq<(i64, i64)>, anchor: int, start: int) -> BoardState {
    let cells = placement_cells(s, tile, anchor, start);
    mark_cells(s, cells, cells.len())
}

/// A cell inside the grid has an index below the number of cells.
pub proof fn lemma_index_in_range(row: int, col: int, width: int, height: int)
    requires
        0 <= row < height,
        0 <= col < width,
    ensures
        0 <= row * width <= row * width + col < width * height,
        (row * width + col) / width == row,
        (row * width + col) % width == col,
{
    assert(0 <= row * width) by (nonlinear_arith)
        requires
            0 <= row,
            0 <= width,
    ;
    assert(row * width + width <= height * width) by (nonlinear_arith)
        requires
            row + 1 <= height,
            0 <= width,
    ;
    assert(height * width == width * height) by (nonlinear_arith);
    vstd::arithmetic::div_mod::lemma_fundamental_div_mod_converse(
        row * width + col,
        width,
        row,
        col,
    );
}

/// Marking cells keeps the dimensions, covers exactly the listed cells in
/// addition, and leaves everything else as it was.
pub proof fn lemma_mark_cells(s: BoardState, cells: Seq<int>, n: nat)
    requires
        n <= cells.len(),
        forall|k: int| 0 <= k < n ==> 0 <= #[trigger] cells[k] < s.marked.len(),
    ensures
        mark_cells(s, cells, n).width == s.width,
        mark_cells(s, cells, n).height == s.height,
        mark_cells(s, cells, n).marked.len() == s.marked.len(),
        forall|i: int|
            0 <= i < s.marked.len() ==> (#[trigger] mark_cells(s, cells, n).marked[i] <==> (
            s.marked[i] || exists|k: int| 0 <= k < n && cells[k] == i)),
    decreases n,
{
    if n > 0 {
        let m = (n - 1) as nat;
        lemma_mark_cells(s, cells, m);
        let before = mark_cells(s, cells, m);
        let after = mark_cells(s, cells, n);
        assert forall|i: int| 0 <= i < s.marked.len() implies (#[trigger] after.marked[i] <==> (
        s.marked[i] || exists|k: int| 0 <= k < n && cells[k] == i)) by {
            if after.marked[i] {
                if i == cells[n - 1] {
                    assert(0 <= n - 1 < n && cells[n - 1] == i);
                } else {
                    assert(before.marked[i]);
                    if !s.marked[i] {
                        let k = choose|k: int| 0 <= k < m && cells[k] == i;
                        assert(0 <= k < n && cells[k] == i);
                    }
                }
            }
            if exists|k: int| 0 <= k < n && cells[k] == i {
                let k = choose|k: int| 0 <= k < n && cells[k] == i;
                if k < m {
                    assert(before.marked[i]);
                }
            }
        }
    }
}

/// A placement that fits on the first free cell yields a well-formed board of
/// the same size that covers everything covered before, and strictly more.
pub proof fn lemma_place(s: BoardState, tile: Seq<(i64, i64)>, anchor: int, start: int)
    requires
        s.wf(),
        0 <= anchor < s.marked.len(),
        !s.marked[anchor],
        0 <= start < tile.len(),
        fits(s, tile, anchor, start),
    ensures
        place(s, tile, anchor, start).wf(),
        s.covered_by(place(s, tile, anchor, start)),
        place(s, tile, anchor, start).marked[anchor],
        place(s, tile, anchor, start).marked_count() > s.marked_count(),
        place(s, tile, anchor, start).unmarked_count() < s.unmarked_count(),
{
    let cells = placement_cells(s, tile, anchor, start);
    let after = place(s, tile, anchor, start);
    let w = s.width as int;
    let h = s.height as int;
    assert forall|k: int| 0 <= k < cells.len() implies 0 <= #[trigger] cells[k]
        < s.marked.len() by {
        assert(lands_free(s, tile, anchor, start, k));
        lemma_index_in_range(
            target_row(s, tile, anchor, start, k),
            target_col(s, tile, anchor, start, k),
            w,
            h,
        );
    }
    lemma_mark_cells(s, cells, cells.len());
    assert(w > 0) by (nonlinear_arith)
        requires
            0 <= anchor < w * h,
            0 <= w,
            0 <= h,
    ;
    vstd::arithmetic::div_mod::lemma_fundamental_div_mod(anchor, w);
    assert(w * (anchor / w) == (anchor / w) * w) by (nonlinear_arith);
    assert(cells[start] == anchor);
    assert(after.marked[anchor]);
    crate::board::lemma_count_true_monotone(s.marked, after.marked);
    crate::board::lemma_count_true_bound(after.marked);
    assert(!s.marked[anchor] && after.marked[anchor]);
}

/// A tile: the offsets (row, column) of its cells.
#[derive(Debug)]
pub struct Tile {
    cells: Vec<(i64, i64)>,
}

impl View for Tile {
    type V = Seq<(i64, i64)>;

    closed spec fn view(&self) -> Seq<(i64, i64)> {
        self.cells@
    }
}

impl Tile {
    /// The tile with the given cells.
    pub fn new(cells: Vec<(i64, i64)>) -> (r: Tile)
        ensures
            r@ == cells@,
    {
        Tile { cells }
    }

    /// Number of cells.
    pub fn len(&self) -> (r: usize)
        ensures
            r == self@.len(),
    {
        self.cells.len()
    }

    /// Offsets of cell `k`.
    pub fn cell(&self, k: usize) -> (r: (i64, i64))
        requires
            k < self@.len(),
        ensures
            r == self@[k as int],
    {
        self.cells[k]
    }
}

/// A collection of tiles. Orientations of one shape are tiles of their own.
#[derive(Debug)]
pub struct TileCollection {
    tiles: Vec<Tile>,
}

impl View for TileCollection {
    type V = Seq<Seq<(i64, i64)>>;

    closed spec fn view(&self) -> Seq<Seq<(i64, i64)>> {
        Seq::new(self.tiles@.len(), |i: int| self.tiles@[i]@)
    }
}

impl TileCollection {
    /// The collection of the given tiles, in their order.
    pub fn new(tiles: Vec<Tile>) -> (r: TileCollection)
        ensures
            r@.len() == tiles@.len(),
            forall|i: int| 0 <= i < tiles@.len() ==> r@[i] == tiles@[i]@,
    {
        TileCollection { tiles }
    }

    /// Number of tiles.
    pub fn len(&self) -> (r: usize)
        ensures
            r == self@.len(),
    {
        self.tiles.len()
    }

    /// Tile `i`.
    pub fn tile(&self, i: usize) -> (r: &Tile)
        requires
            i < self@.len(),
        ensures
            r@ == self@[i as int],
    {
        &self.tiles[i]
    }
}

/// One way to lay a tile: the grid cells that it covers.
#[derive(Debug)]
pub struct TilePlacement {
    cells: Vec<usize>,
}

impl View for TilePlacement {
    type V = Seq<int>;

    closed spec fn view(&self) -> Seq<int> {
        Seq::new(self.cells@.len(), |k: int| self.cells@[k] as int)
    }
}

/// Tests whether `tile`, with its cell `start` on cell `anchor` of the board,
/// lies inside the grid and on free cells only, and gives the placement if so.
pub fn tile_fits_at_position(board: &Board, tile: &Tile, anchor: usize, start: usize) -> (r:
    Option<TilePlacement>)
    requires
        anchor < board@.marked.len(),
        start < tile@.len(),
    ensures
        r.is_some() <==> fits(board@, tile@, anchor as int, start as int),
        r.is_some() ==> r.unwrap()@ == placement_cells(board@, tile@, anchor as int, start as int),
{
    let n: usize = board.cell_count();
    let width: usize = board.width();
    let height: usize = board.height();
    assert(width > 0) by (nonlinear_arith)
        requires
            anchor < width * height,
    ;
    let base_row: i128 = (anchor / width) as i128;
    let base_col: i128 = (anchor % width) as i128;
    let origin: (i64, i64) = tile.cell(start);
    let mut cells: Vec<usize> = Vec::new();
    let mut k: usize = 0;
    while k < tile.len()
        invariant
            k <= tile@.len(),
            board@.wf(),
            n == board@.marked.len(),
            width == board@.width,
            height == board@.height,
            width > 0,
            anchor < n,
            start < tile@.len(),
            base_row == (anchor as int) / (width as int),
            base_col == (anchor as int) % (width as int),
            origin == tile@[start as int],
            cells@.len() == k,
            forall|j: int| 0 <= j < k ==> lands_free(board@, tile@, anchor as int, start as int, j),
            forall|j: int|
                0 <= j < k ==> #[trigger] cells@[j] as int == target_index(
                    board@,
                    tile@,
                    anchor as int,
                    start as int,
                    j,
                ),
        decreases tile@.len() - k,
    {
        let c: (i64, i64) = tile.cell(k);
        let row: i128 = base_row + c.0 as i128 - origin.0 as i128;
        let col: i128 = base_col + c.1 as i128 - origin.1 as i128;
        assert(row == target_row(board@, tile@, anchor as int, start as int, k as int));
        assert(col == target_col(board@, tile@, anchor as int, start as int, k as int));
        if row < 0 || row >= height as i128 || col < 0 || col >= width as i128 {
            assert(!lands_free(board@, tile@, anchor as int, start as int, k as int));
            return None;
        }
        proof {
            lemma_index_in_range(row as int, col as int, width as int, height as int);
        }
        let index: usize = (row as usize) * width + (col as usize);
        assert(index == target_index(board@, tile@, anchor as int, start as int, k as int));
        if board.is_marked(index) {
            assert(!lands_free(board@, tile@, anchor as int, start as int, k as int));
            return None;
        }
        assert(lands_free(board@, tile@, anchor as int, start as int, k as int));
        cells.push(index);
        k = k + 1;
    }
    let r = TilePlacement { cells };
    assert(r@ =~= placement_cells(board@, tile@, anchor as int, start as int));
    Some(r)
}

/// The board with the cells of the placement covered.
pub fn mark_tile_at_position(board: &Board, placement: &TilePlacement) -> (r: Board)
    requires
        forall|k: int| 0 <= k < placement@.len() ==> 0 <= #[trigger] placement@[k] < board@.marked.len(),
    ensures
        r@ == mark_cells(board@, placement@, placement@.len()),
{
    let mut marked: Board = board.clone();
    let mut k: usize = 0;
    while k < placement.cells.len()
        invariant
            k <= placement.cells@.len(),
            placement@.len() == placement.cells@.len(),
            forall|j: int|
                0 <= j < placement@.len() ==> 0 <= #[trigger] placement@[j]
                    < board@.marked.len(),
            forall|j: int| 0 <= j < placement@.len() ==> placement@[j] == placement.cells@[j],
            marked@ == mark_cells(board@, placement@, k as nat),
        decreases placement.cells@.len() - k,
    {
        proof {
            lemma_mark_cells(board@, placement@, k as nat);
            assert(0 <= placement@[k as int] < board@.marked.len());
        }
        marked = marked.with_marked(placement.cells[k]);
        k = k + 1;
    }
    marked
}

} // verus!
