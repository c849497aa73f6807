use rs_tiler::board::Board;
use rs_tiler::expand::find_board;
use rs_tiler::expand::place_tile;
use rs_tiler::tile::mark_tile_at_position;
use rs_tiler::tile::tile_fits_at_position;
use rs_tiler::tile::Tile;
use rs_tiler::tile::TileCollection;

fn marked_cells(board: &Board) -> Vec<usize> {
    let mut cells = Vec::new();
    for index in 0..board.cell_count() {
        if board.is_marked(index) {
            cells.push(index);
        }
    }
    cells
}

fn dominoes() -> TileCollection {
    TileCollection::new(vec![
        Tile::new(vec![(0, 0), (0, 1)]),
        Tile::new(vec![(0, 0), (1, 0)]),
    ])
}

#[test]
fn new_board_is_free() {
    let board = Board::new(3, 2);
    assert_eq!(board.width(), 3);
    assert_eq!(board.height(), 2);
    assert_eq!(board.cell_count(), 6);
    assert_eq!(marked_cells(&board), Vec::<usize>::new());
    assert!(!board.is_all_marked());
    assert_eq!(board.first_unmarked(), Some(0));
}

#[test]
fn board_without_cells_is_complete() {
    let board = Board::new(0, 0);
    assert_eq!(board.cell_count(), 0);
    assert!(board.is_all_marked());
    assert_eq!(board.first_unmarked(), None);
    let flat = Board::new(4, 0);
    assert!(flat.is_all_marked());
    assert_eq!(flat.first_unmarked(), None);
}

#[test]
fn marking_covers_one_cell() {
    let board = Board::new(2, 2).with_marked(0).with_marked(3);
    assert_eq!(marked_cells(&board), vec![0, 3]);
    assert_eq!(board.first_unmarked(), Some(1));
    let again = board.with_marked(0);
    assert_eq!(marked_cells(&again), vec![0, 3]);
}

#[test]
fn first_unmarked_follows_rows() {
    let board = Board::new(3, 2).with_marked(0).with_marked(1).with_marked(2);
    assert_eq!(board.first_unmarked(), Some(3));
    let full = board.with_marked(3).with_marked(4).with_marked(5);
    assert_eq!(full.first_unmarked(), None);
    assert!(full.is_all_marked());
}

#[test]
fn boards_compare_by_size_and_coverage() {
    let a = Board::new(2, 3).with_marked(4);
    let b = Board::new(2, 3).with_marked(4);
    let c = Board::new(3, 2).with_marked(4);
    let d = Board::new(2, 3).with_marked(5);
    assert!(a.same_as(&b));
    assert!(!a.same_as(&c));
    assert!(!a.same_as(&d));
    assert!(a.same_as(&a.clone()));
}

#[test]
fn tile_fits_inside_the_grid_on_free_cells() {
    let board = Board::new(3, 2).with_marked(0);
    let domino = Tile::new(vec![(0, 0), (0, 1)]);
    let placement = tile_fits_at_position(&board, &domino, 1, 0);
    assert!(placement.is_some());
    let next = mark_tile_at_position(&board, &placement.unwrap());
    assert_eq!(marked_cells(&next), vec![0, 1, 2]);
    assert_eq!(marked_cells(&board), vec![0]);
}

#[test]
fn tile_is_laid_by_the_chosen_cell() {
    let board = Board::new(3, 2);
    let domino = Tile::new(vec![(0, 0), (0, 1)]);
    let placement = tile_fits_at_position(&board, &domino, 4, 1);
    assert!(placement.is_some());
    let next = mark_tile_at_position(&board, &placement.unwrap());
    assert_eq!(marked_cells(&next), vec![3, 4]);
}

#[test]
fn tile_does_not_fit_outside_or_on_covered_cells() {
    let board = Board::new(3, 2).with_marked(1);
    let domino = Tile::new(vec![(0, 0), (0, 1)]);
    assert!(tile_fits_at_position(&board, &domino, 0, 0).is_none());
    assert!(tile_fits_at_position(&board, &domino, 0, 1).is_none());
    assert!(tile_fits_at_position(&board, &domino, 2, 0).is_none());
    assert!(tile_fits_at_position(&board, &domino, 5, 0).is_none());
    let upright = Tile::new(vec![(0, 0), (1, 0)]);
    assert!(tile_fits_at_position(&board, &upright, 3, 0).is_none());
    assert!(tile_fits_at_position(&board, &upright, 3, 1).is_some());
}

#[test]
fn tile_offsets_may_be_large() {
    let board = Board::new(2, 2);
    let far = Tile::new(vec![(i64::MIN, i64::MAX), (i64::MAX, i64::MIN)]);
    assert!(tile_fits_at_position(&board, &far, 0, 0).is_none());
    assert!(tile_fits_at_position(&board, &far, 0, 1).is_none());
    let shifted = Tile::new(vec![(i64::MAX, i64::MAX), (i64::MAX, i64::MAX - 1)]);
    let placement = tile_fits_at_position(&board, &shifted, 1, 0);
    assert!(placement.is_some());
    assert_eq!(marked_cells(&mark_tile_at_position(&board, &placement.unwrap())), vec![0, 1]);
}

#[test]
fn expansion_lays_one_tile_on_the_first_free_cell() {
    let board = Board::new(2, 2);
    let next = place_tile(&board, &dominoes());
    assert_eq!(next.len(), 2);
    assert_eq!(marked_cells(&next[0]), vec![0, 1]);
    assert_eq!(marked_cells(&next[1]), vec![0, 2]);
}

#[test]
fn expansion_gives_each_board_once() {
    let board = Board::new(2, 2);
    let twice = TileCollection::new(vec![
        Tile::new(vec![(0, 0), (0, 1)]),
        Tile::new(vec![(0, 1), (0, 0)]),
        Tile::new(vec![(5, 5), (5, 6)]),
    ]);
    let next = place_tile(&board, &twice);
    assert_eq!(next.len(), 1);
    assert_eq!(marked_cells(&next[0]), vec![0, 1]);
}

#[test]
fn expansion_of_complete_board_is_empty() {
    let full = Board::new(1, 2).with_marked(0).with_marked(1);
    assert_eq!(place_tile(&full, &dominoes()).len(), 0);
    assert_eq!(place_tile(&Board::new(0, 0), &dominoes()).len(), 0);
}

#[test]
fn expansion_of_dead_end_is_empty() {
    let board = Board::new(2, 2).with_marked(1).with_marked(2);
    assert_eq!(place_tile(&board, &dominoes()).len(), 0);
    assert_eq!(place_tile(&Board::new(2, 2), &TileCollection::new(Vec::new())).len(), 0);
    let empty_tile = TileCollection::new(vec![Tile::new(Vec::new())]);
    assert_eq!(place_tile(&Board::new(2, 2), &empty_tile).len(), 0);
}

#[test]
fn expansion_never_uncovers_a_cell() {
    let board = Board::new(3, 3).with_marked(0).with_marked(5);
    let before = marked_cells(&board);
    let next = place_tile(&board, &dominoes());
    assert_eq!(next.len(), 2);
    for later in next.iter() {
        let after = marked_cells(later);
        assert_eq!(after.len(), before.len() + 2);
        for cell in before.iter() {
            assert!(after.contains(cell));
        }
        assert!(after.contains(&1));
        assert_eq!(later.width(), 3);
        assert_eq!(later.height(), 3);
    }
}

#[test]
fn find_board_gives_the_place() {
    let list = vec![Board::new(2, 2), Board::new(2, 2).with_marked(1), Board::new(2, 2).with_marked(2)];
    assert_eq!(find_board(&list, &Board::new(2, 2).with_marked(2)), Some(2));
    assert_eq!(find_board(&list, &Board::new(2, 2)), Some(0));
    assert_eq!(find_board(&list, &Board::new(2, 2).with_marked(3)), None);
}

#[test]
fn tiles_and_collections_keep_their_order() {
    let tiles = dominoes();
    assert_eq!(tiles.len(), 2);
    assert_eq!(tiles.tile(0).len(), 2);
    assert_eq!(tiles.tile(1).cell(1), (1, 0));
    assert_eq!(tiles.tile(0).cell(1), (0, 1));
}

#[test]
fn equal_boards_are_equal_and_hash_alike() {
    let a = Board::new(2, 2).with_marked(1).with_marked(2);
    let b = Board::new(2, 2).with_marked(2).with_marked(1);
    let c = Board::new(2, 2).with_marked(1);
    assert_eq!(a, b);
    assert_ne!(a, c);
    assert_ne!(Board::new(1, 4), Board::new(4, 1));
    let mut set = std::collections::HashSet::new();
    set.insert(a);
    set.insert(b);
    set.insert(c);
    assert_eq!(set.len(), 2);
}
