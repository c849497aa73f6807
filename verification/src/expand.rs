//! The placement expander: every board that arises from a board by laying
//! one more tile onto its first free cell.

use vstd::prelude::*;
use rayon::iter::IntoParallelRefIterator;
use rayon::iter::ParallelIterator;
use crate::board::Board;
use crate::board::BoardState;
use crate::tile::fits;
use crate::tile::place;
use crate::tile::placement_cells;
use crate::tile::lemma_place;
use crate::tile::mark_tile_at_position;
use crate::tile::tile_fits_at_position;
use crate::tile::Tile;
use crate::tile::TileCollection;

verus! {

/// The states of a list of boards, in order.
pub open spec fn board_views(v: Seq<Board>) -> Seq<BoardState> {
    Seq::new(v.len(), |i: int| v[i]@)
}

/// The boards that arise from `s` by laying `tile` with one of its first `n`
/// cells on `anchor`, in the order of those cells.
pub open spec fn tile_candidates(s: BoardState, tile: Seq<(i64, i64)>, anchor: int, n: nat) -> Seq<
    BoardState,
>
    decreases n,
{
    if n == 0 {
        Seq::empty()
    } else {
        let before = tile_candidates(s, tile, anchor, (n - 1) as nat);
        if fits(s, tile, anchor, n - 1) {
            before.push(place(s, tile, anchor, n - 1))
        } else {
            before
        }
    }
}

/// The boards that arise from `s` by laying one of the first `t` tiles onto
/// `anchor`, tile by tile. The same board may occur more than once.
pub open spec fn candidates(s: BoardState, tiles: Seq<Seq<(i64, i64)>>, anchor: int, t: nat) -> Seq<
    BoardState,
>
    decreases t,
{
    if t == 0 {
        Seq::empty()
    } else {
        candidates(s, tiles, anchor, (t - 1) as nat) + tile_candidates(
            s,
            tiles[t - 1],
            anchor,
            tiles[t - 1].len(),
        )
    }
}

/// The sequence without repetitions: of equal entries the first stays.
pub open spec fn distinct(q: Seq<BoardState>) -> Seq<BoardState>
    decreases q.len(),
{
    if q.len() == 0 {
        Seq::empty()
    } else {
        let before = distinct(q.drop_last());
        if before.contains(q.last()) {
            before
        } else {
            before.push(q.last())
        }
    }
}

/// The distinct boards that arise from `s` by laying one tile onto its first
/// free cell. A complete board has none.
pub open spec fn successors(s: BoardState, tiles: Seq<Seq<(i64, i64)>>) -> Seq<BoardState> {
    if s.is_complete() {
        Seq::empty()
    } else {
        distinct(candidates(s, tiles, s.first_unmarked(), tiles.len()))
    }
}

/// `next` is a well-formed board of the size of `s` that covers all that `s`
/// covers, and more.
pub open spec fn extends(s: BoardState, next: BoardState) -> bool {
    &&& next.wf()
    &&& s.covered_by(next)
    &&& next.marked_count() > s.marked_count()
    &&& next.unmarked_count() < s.unmarked_count()
}

/// What `distinct` does when one more entry arrives.
pub proof fn lemma_distinct_push(q: Seq<BoardState>, x: BoardState)
    ensures
        distinct(q.push(x)) == if distinct(q).contains(x) {
            distinct(q)
        } else {
            distinct(q).push(x)
        },
{
    assert(q.push(x).drop_last() =~= q);
}

/// `distinct` keeps exactly the entries that occur, each once.
pub proof fn lemma_distinct(q: Seq<BoardState>)
    ensures
        distinct(q).no_duplicates(),
        forall|x: BoardState| #[trigger] distinct(q).contains(x) ==> q.contains(x),
        forall|x: BoardState| #[trigger] q.contains(x) ==> distinct(q).contains(x),
    decreases q.len(),
{
    if q.len() > 0 {
        let p = q.drop_last();
        let before = distinct(p);
        lemma_distinct(p);
        assert forall|x: BoardState| #[trigger] distinct(q).contains(x) implies q.contains(x) by {
            let i = choose|i: int| 0 <= i < distinct(q).len() && distinct(q)[i] == x;
            if i < before.len() {
                assert(before[i] == x);
                assert(before.contains(x));
                assert(p.contains(x));
                let j = choose|j: int| 0 <= j < p.len() && p[j] == x;
                assert(q[j] == x);
            } else {
                assert(q[q.len() - 1] == x);
            }
        }
        assert forall|x: BoardState| #[trigger] q.contains(x) implies distinct(q).contains(x) by {
            let j = choose|j: int| 0 <= j < q.len() && q[j] == x;
            if j < p.len() {
                assert(p[j] == x);
                assert(p.contains(x));
                assert(before.contains(x));
                let i = choose|i: int| 0 <= i < before.len() && before[i] == x;
                assert(distinct(q)[i] == x);
            } else if before.contains(x) {
            } else {
                assert(distinct(q)[before.len() as int] == x);
            }
        }
    }
}

proof fn lemma_tile_candidates(s: BoardState, tile: Seq<(i64, i64)>, anchor: int, n: nat)
    requires
        s.wf(),
        s.is_first_unmarked(anchor),
        n <= tile.len(),
    ensures
        forall|i: int|
            0 <= i < tile_candidates(s, tile, anchor, n).len() ==> extends(
                s,
                #[trigger] tile_candidates(s, tile, anchor, n)[i],
            ),
    decreases n,
{
    if n > 0 {
        let before = tile_candidates(s, tile, anchor, (n - 1) as nat);
        let now = tile_candidates(s, tile, anchor, n);
        lemma_tile_candidates(s, tile, anchor, (n - 1) as nat);
        if fits(s, tile, anchor, n - 1) {
            lemma_place(s, tile, anchor, n - 1);
        }
        assert forall|i: int| 0 <= i < now.len() implies extends(s, #[trigger] now[i]) by {
            if i < before.len() {
                assert(now[i] == before[i]);
            }
        }
    }
}

proof fn lemma_candidates(s: BoardState, tiles: Seq<Seq<(i64, i64)>>, anchor: int, t: nat)
    requires
        s.wf(),
        s.is_first_unmarked(anchor),
        t <= tiles.len(),
    ensures
        forall|i: int|
            0 <= i < candidates(s, tiles, anchor, t).len() ==> extends(
                s,
                #[trigger] candidates(s, tiles, anchor, t)[i],
            ),
    decreases t,
{
    if t > 0 {
        let before = candidates(s, tiles, anchor, (t - 1) as nat);
        let added = tile_candidates(s, tiles[t - 1], anchor, tiles[t - 1].len());
        let now = candidates(s, tiles, anchor, t);
        lemma_candidates(s, tiles, anchor, (t - 1) as nat);
        lemma_tile_candidates(s, tiles[t - 1], anchor, tiles[t - 1].len());
        assert forall|i: int| 0 <= i < now.len() implies extends(s, #[trigger] now[i]) by {
            if i < before.len() {
                assert(now[i] == before[i]);
            } else {
                assert(now[i] == added[i - before.len()]);
            }
        }
    }
}

/// Every successor extends the board it comes from, and no successor occurs
/// twice.
pub proof fn lemma_successors(s: BoardState, tiles: Seq<Seq<(i64, i64)>>)
    requires
        s.wf(),
    ensures
        successors(s, tiles).no_duplicates(),
        forall|i: int|
            0 <= i < successors(s, tiles).len() ==> extends(s, #[trigger] successors(s, tiles)[i]),
{
    if !s.is_complete() {
        crate::board::lemma_first_unmarked(s);
        let anchor = s.first_unmarked();
        let all = candidates(s, tiles, anchor, tiles.len());
        lemma_candidates(s, tiles, anchor, tiles.len());
        lemma_distinct(all);
        assert forall|i: int| 0 <= i < successors(s, tiles).len() implies extends(
            s,
            #[trigger] successors(s, tiles)[i],
        ) by {
            let x = successors(s, tiles)[i];
            assert(distinct(all).contains(x));
            assert(all.contains(x));
        }
    }
}

/// The first place of a board equal to `board` in the list, if there is
/// one.
pub fn find_board(list: &Vec<Board>, board: &Board) -> (r: Option<usize>)
    ensures
        match r {
            Some(j) => j < list@.len() && list@[j as int]@ == board@ && forall|i: int|
                0 <= i < j ==> board_views(list@)[i] != board@,
            None => !board_views(list@).contains(board@),
        },
{
    let mut i: usize = 0;
    while i < list.len()
        invariant
            i <= list@.len(),
            forall|j: int| 0 <= j < i ==> board_views(list@)[j] != board@,
        decreases list@.len() - i,
    {
        if list[i].same_as(board) {
            return Some(i);
        }
        i = i + 1;
    }
    None
}

/// Lays every tile of the collection, with each of its cells in turn, onto
/// the first free cell of the board, and returns the distinct boards that
/// result. The list is empty when the board is complete and when no tile
/// fits.
pub fn place_tile(board: &Board, tiles: &TileCollection) -> (r: Vec<Board>)
    ensures
        board_views(r@) == successors(board@, tiles@),
{
    let mut out: Vec<Board> = Vec::new();
    let anchor: usize = match board.first_unmarked() {
        Some(a) => a,
        None => {
            assert(board_views(out@) =~= successors(board@, tiles@));
            return out;
        },
    };
    let ghost s = board@;
    let ghost a = anchor as int;
    let mut t: usize = 0;
    assert(board_views(out@) =~= distinct(candidates(s, tiles@, a, 0)));
    while t < tiles.len()
        invariant
            t <= tiles@.len(),
            s == board@,
            s.wf(),
            a == anchor,
            s.is_first_unmarked(a),
            board_views(out@) == distinct(candidates(s, tiles@, a, t as nat)),
        decreases tiles@.len() - t,
    {
        let tile: &Tile = tiles.tile(t);
        let ghost done = candidates(s, tiles@, a, t as nat);
        let mut start: usize = 0;
        assert(done + tile_candidates(s, tile@, a, 0) =~= done);
        while start < tile.len()
            invariant
                start <= tile@.len(),
                s == board@,
                s.wf(),
                a == anchor,
                s.is_first_unmarked(a),
                board_views(out@) == distinct(done + tile_candidates(s, tile@, a, start as nat)),
            decreases tile@.len() - start,
        {
            let ghost before = done + tile_candidates(s, tile@, a, start as nat);
            match tile_fits_at_position(board, tile, anchor, start) {
                Some(p) => {
                    proof {
                        lemma_placement_in_range(s, tile@, a, start as int);
                    }
                    let next: Board = mark_tile_at_position(board, &p);
                    proof {
                        assert(next@ == place(s, tile@, a, start as int));
                        assert(done + tile_candidates(s, tile@, a, (start + 1) as nat)
                            =~= before.push(next@));
                        lemma_distinct_push(before, next@);
                    }
                    let ghost known = out@;
                    if find_board(&out, &next).is_none() {
                        assert(!board_views(out@).contains(next@));
                        let ghost old_out = out@;
                        out.push(next);
                        assert(board_views(out@) =~= board_views(old_out).push(next@));
                    } else {
                        let ghost j = choose|j: int| 0 <= j < known.len() && known[j]@ == next@;
                        assert(board_views(known)[j] == next@);
                    }
                },
                None => {
                    assert(done + tile_candidates(s, tile@, a, (start + 1) as nat) =~= before);
                },
            }
            start = start + 1;
        }
        assert(candidates(s, tiles@, a, (t + 1) as nat) == done + tile_candidates(
            s,
            tile@,
            a,
            tile@.len(),
        ));
        t = t + 1;
    }
    out
}

/// Expands the boards of the list from place `from` on, in parallel. This
/// hands `place_tile` to `rayon`'s `par_iter`, `map` and `collect`: the
/// contract claims that the list that `collect` builds holds, for each of
/// those boards and in their order, what `place_tile` returned for it.
#[verifier::external_body]
pub(crate) fn place_tile_on_all(boards: &Vec<Board>, from: usize, tiles: &TileCollection) -> (r: Vec<
    Vec<Board>,
>)
    requires
        from <= boards@.len(),
    ensures
        r@.len() == boards@.len() - from,
        forall|i: int|
            0 <= i < r@.len() ==> board_views(#[trigger] r@[i]@) == successors(
                boards@[from + i]@,
                tiles@,
            ),
{
    boards[from..].par_iter().map(|board| place_tile(board, tiles)).collect()
}

/// The cells of a placement that fits lie inside the grid.
pub proof fn lemma_placement_in_range(
    s: BoardState,
    tile: Seq<(i64, i64)>,
    anchor: int,
    start: int,
)
    requires
        s.wf(),
        fits(s, tile, anchor, start),
    ensures
        forall|k: int|
            0 <= k < placement_cells(s, tile, anchor, start).len() ==> 0
                <= #[trigger] placement_cells(s, tile, anchor, start)[k] < s.marked.len(),
{
    assert forall|k: int| 0 <= k < placement_cells(s, tile, anchor, start).len() implies 0
        <= #[trigger] placement_cells(s, tile, anchor, start)[k] < s.marked.len() by {
        assert(crate::tile::lands_free(s, tile, anchor, start, k));
        crate::tile::lemma_index_in_range(
            crate::tile::target_row(s, tile, anchor, start, k),
            crate::tile::target_col(s, tile, anchor, start, k),
            s.width as int,
            s.height as int,
        );
    }
}

} // verus!
