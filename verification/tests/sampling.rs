use rs_tiler::board::Board;
use rs_tiler::expand::find_board;
use rs_tiler::expand::place_tile;
use rs_tiler::sampler::sample_one_tiling;
use rs_tiler::sampler::SOLUTION_CAP;
use rs_tiler::tile::Tile;
use rs_tiler::tile::TileCollection;
use rs_tiler::tiler::Tiler;

fn dominoes() -> TileCollection {
    TileCollection::new(vec![
        Tile::new(vec![(0, 0), (0, 1)]),
        Tile::new(vec![(0, 0), (1, 0)]),
    ])
}

fn check_tiling(path: &Vec<Board>, initial: &Board, tiles: &TileCollection) {
    assert!(path.len() >= 1);
    assert!(path[0].same_as(initial));
    assert!(path[path.len() - 1].is_all_marked());
    for step in 1..path.len() {
        let next = place_tile(&path[step - 1], tiles);
        assert!(find_board(&next, &path[step]).is_some());
    }
}

#[test]
fn sample_is_a_tiling() {
    let tiles = dominoes();
    let board = Board::new(4, 4);
    for pick in 0..40 {
        let path = sample_one_tiling(&board, &tiles, pick).unwrap();
        assert_eq!(path.len(), 9);
        check_tiling(&path, &board, &tiles);
    }
}

#[test]
fn sample_picks_among_all_tilings_below_the_cap() {
    let tiles = dominoes();
    let board = Board::new(4, 3);
    let mut seen: Vec<Board> = Vec::new();
    for pick in 0..11 {
        let path = sample_one_tiling(&board, &tiles, pick).unwrap();
        check_tiling(&path, &board, &tiles);
        let second = path[1].clone();
        if find_board(&seen, &second).is_none() {
            seen.push(second);
        }
    }
    assert_eq!(seen.len(), 2);
    let again = sample_one_tiling(&board, &tiles, 11 + 3).unwrap();
    let first = sample_one_tiling(&board, &tiles, 3).unwrap();
    assert_eq!(again.len(), first.len());
    for step in 0..first.len() {
        assert!(again[step].same_as(&first[step]));
    }
}

#[test]
fn sample_of_board_without_tiling_is_none() {
    assert!(sample_one_tiling(&Board::new(3, 3), &dominoes(), 0).is_none());
    assert!(sample_one_tiling(&Board::new(2, 2), &TileCollection::new(Vec::new()), 7).is_none());
}

#[test]
fn sample_of_complete_board_is_the_board() {
    let full = Board::new(2, 1).with_marked(0).with_marked(1);
    let path = sample_one_tiling(&full, &dominoes(), 5).unwrap();
    assert_eq!(path.len(), 1);
    assert!(path[0].same_as(&full));
    let none = sample_one_tiling(&Board::new(0, 0), &dominoes(), 0).unwrap();
    assert_eq!(none.len(), 1);
}

#[test]
fn sample_stops_at_the_cap() {
    assert_eq!(SOLUTION_CAP, 1000);
    let tiles = dominoes();
    let board = Board::new(6, 6);
    let path = sample_one_tiling(&board, &tiles, usize::MAX).unwrap();
    assert_eq!(path.len(), 19);
    check_tiling(&path, &board, &tiles);
}

#[test]
fn tiler_hands_out_a_tiling() {
    let tiler = Tiler::new(dominoes(), Board::new(2, 2));
    let first = tiler.get_single_tiling(0).unwrap();
    let second = tiler.get_single_tiling(1).unwrap();
    check_tiling(&first, &Board::new(2, 2), &dominoes());
    check_tiling(&second, &Board::new(2, 2), &dominoes());
    assert_eq!(first.len(), 3);
    assert!(!first[1].same_as(&second[1]));
    let stuck = Tiler::new(dominoes(), Board::new(1, 1));
    assert!(stuck.get_single_tiling(0).is_none());
}

#[test]
fn sample_follows_the_order_of_the_search() {
    let tiles = dominoes();
    let board = Board::new(2, 2);
    let upright = Board::new(2, 2).with_marked(0).with_marked(2);
    let flat = Board::new(2, 2).with_marked(0).with_marked(1);
    let first = sample_one_tiling(&board, &tiles, 0).unwrap();
    let second = sample_one_tiling(&board, &tiles, 1).unwrap();
    let third = sample_one_tiling(&board, &tiles, 2).unwrap();
    assert!(first[1].same_as(&upright));
    assert!(second[1].same_as(&flat));
    assert!(third[1].same_as(&upright));
}
