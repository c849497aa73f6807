use rs_tiler::board::Board;
use rs_tiler::builder::generate_graph;
use rs_tiler::counter::count_tilings_quick;
use rs_tiler::graph_counter::count_tilings_from_graph;
use rs_tiler::tile::Tile;
use rs_tiler::tile::TileCollection;
use rs_tiler::tiler::Tiler;

fn flat_domino() -> TileCollection {
    TileCollection::new(vec![Tile::new(vec![(0, 0), (0, 1)])])
}

fn dominoes() -> TileCollection {
    TileCollection::new(vec![
        Tile::new(vec![(0, 0), (0, 1)]),
        Tile::new(vec![(0, 0), (1, 0)]),
    ])
}

fn l_trominoes() -> TileCollection {
    TileCollection::new(vec![
        Tile::new(vec![(0, 0), (1, 0), (1, 1)]),
        Tile::new(vec![(0, 0), (0, 1), (1, 0)]),
        Tile::new(vec![(0, 0), (0, 1), (1, 1)]),
        Tile::new(vec![(0, 1), (1, 0), (1, 1)]),
    ])
}

fn squares_and_dominoes() -> TileCollection {
    TileCollection::new(vec![
        Tile::new(vec![(0, 0)]),
        Tile::new(vec![(0, 0), (0, 1)]),
    ])
}

fn both_counts(board: &Board, tiles: &TileCollection) -> (u64, u64) {
    let quick = count_tilings_quick(board, tiles);
    let graph = generate_graph(board, tiles);
    (quick, count_tilings_from_graph(&graph))
}

#[test]
fn two_by_two_with_one_flat_domino_has_one_tiling() {
    let board = Board::new(2, 2);
    assert_eq!(both_counts(&board, &flat_domino()), (1, 1));
    let mut tiler = Tiler::new(flat_domino(), board);
    assert_eq!(tiler.count_tilings(), 1);
}

#[test]
fn board_without_cells_has_the_empty_tiling() {
    assert_eq!(both_counts(&Board::new(0, 0), &dominoes()), (1, 1));
    assert_eq!(both_counts(&Board::new(0, 5), &flat_domino()), (1, 1));
    let mut tiler = Tiler::new(dominoes(), Board::new(0, 0));
    assert_eq!(tiler.count_tilings(), 1);
    tiler.generate_graph();
    assert_eq!(tiler.count_tilings(), 1);
    assert_eq!(tiler.graph().unwrap().node_count(), 1);
    assert_eq!(tiler.graph().unwrap().get_edges(0).unwrap().len(), 0);
}

#[test]
fn complete_board_has_one_tiling() {
    let full = Board::new(2, 1).with_marked(0).with_marked(1);
    assert_eq!(both_counts(&full, &dominoes()), (1, 1));
    assert_eq!(both_counts(&full, &TileCollection::new(Vec::new())), (1, 1));
}

#[test]
fn board_with_a_cell_that_no_tile_covers_has_no_tiling() {
    assert_eq!(both_counts(&Board::new(3, 1), &flat_domino()), (0, 0));
    assert_eq!(both_counts(&Board::new(1, 2), &flat_domino()), (0, 0));
    assert_eq!(both_counts(&Board::new(3, 3), &dominoes()), (0, 0));
    assert_eq!(both_counts(&Board::new(2, 2), &TileCollection::new(Vec::new())), (0, 0));
    let notched = Board::new(2, 2).with_marked(0);
    assert_eq!(both_counts(&notched, &dominoes()), (0, 0));
}

#[test]
fn domino_tilings_of_rectangles() {
    assert_eq!(both_counts(&Board::new(2, 2), &dominoes()), (2, 2));
    assert_eq!(both_counts(&Board::new(3, 2), &dominoes()), (3, 3));
    assert_eq!(both_counts(&Board::new(2, 3), &dominoes()), (3, 3));
    assert_eq!(both_counts(&Board::new(4, 2), &dominoes()), (5, 5));
    assert_eq!(both_counts(&Board::new(4, 3), &dominoes()), (11, 11));
    assert_eq!(both_counts(&Board::new(4, 4), &dominoes()), (36, 36));
    assert_eq!(both_counts(&Board::new(6, 6), &dominoes()), (6728, 6728));
}

#[test]
fn tromino_tilings_of_rectangles() {
    assert_eq!(both_counts(&Board::new(3, 2), &l_trominoes()), (2, 2));
    assert_eq!(both_counts(&Board::new(2, 3), &l_trominoes()), (2, 2));
    assert_eq!(both_counts(&Board::new(3, 3), &l_trominoes()), (0, 0));
    assert_eq!(both_counts(&Board::new(6, 2), &l_trominoes()), (4, 4));
    assert_eq!(both_counts(&Board::new(6, 3), &l_trominoes()), (8, 8));
    assert_eq!(both_counts(&Board::new(6, 4), &l_trominoes()), (18, 18));
}

#[test]
fn blocked_cells_stay_out_of_the_tiling() {
    let notched = Board::new(2, 2).with_marked(3);
    assert_eq!(both_counts(&notched, &l_trominoes()), (1, 1));
    let holed = Board::new(3, 3).with_marked(4);
    assert_eq!(both_counts(&holed, &dominoes()), (2, 2));
}

#[test]
fn tiles_of_different_sizes_are_counted_by_sequence() {
    assert_eq!(both_counts(&Board::new(1, 1), &squares_and_dominoes()), (1, 1));
    assert_eq!(both_counts(&Board::new(2, 1), &squares_and_dominoes()), (2, 2));
    assert_eq!(both_counts(&Board::new(3, 1), &squares_and_dominoes()), (3, 3));
    assert_eq!(both_counts(&Board::new(4, 1), &squares_and_dominoes()), (5, 5));
    assert_eq!(both_counts(&Board::new(10, 1), &squares_and_dominoes()), (89, 89));
}

#[test]
fn counts_wrap_at_sixty_four_bits() {
    let mut before: u64 = 1;
    let mut last: u64 = 1;
    let mut exact: u128 = 1;
    let mut exact_before: u128 = 1;
    for _ in 2..=100 {
        let next = last.wrapping_add(before);
        before = last;
        last = next;
        let exact_next = exact + exact_before;
        exact_before = exact;
        exact = exact_next;
    }
    assert!(exact > u64::MAX as u128);
    assert_eq!(last as u128, exact % (1u128 << 64));
    assert_eq!(both_counts(&Board::new(100, 1), &squares_and_dominoes()), (last, last));
    assert_eq!(
        both_counts(&Board::new(92, 1), &squares_and_dominoes()),
        (12200160415121876738, 12200160415121876738)
    );
}

#[test]
fn tiler_counts_the_same_with_and_without_graph() {
    let mut tiler = Tiler::new(dominoes(), Board::new(4, 3));
    assert!(tiler.graph().is_none());
    assert_eq!(tiler.count_tilings(), 11);
    assert_eq!(tiler.count_tilings_quick(), 11);
    tiler.generate_graph();
    assert!(tiler.graph().is_some());
    assert_eq!(tiler.count_tilings(), 11);
    assert_eq!(tiler.count_tilings_from_graph(), 11);
    assert_eq!(tiler.count_tilings_quick(), 11);
}

#[test]
fn repeated_tiles_do_not_add_tilings() {
    let repeated = TileCollection::new(vec![
        Tile::new(vec![(0, 0), (0, 1)]),
        Tile::new(vec![(0, 0), (1, 0)]),
        Tile::new(vec![(0, 1), (0, 0)]),
        Tile::new(vec![(1, 0), (0, 0)]),
        Tile::new(vec![(0, 0), (0, 1)]),
    ]);
    assert_eq!(both_counts(&Board::new(4, 3), &repeated), (11, 11));
}
