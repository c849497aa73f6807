use rs_tiler::board::Board;
use rs_tiler::builder::generate_graph;
use rs_tiler::expand::place_tile;
use rs_tiler::graph::BoardGraph;
use rs_tiler::graph_counter::count_tilings_from_graph;
use rs_tiler::tile::Tile;
use rs_tiler::tile::TileCollection;

fn dominoes() -> TileCollection {
    TileCollection::new(vec![
        Tile::new(vec![(0, 0), (0, 1)]),
        Tile::new(vec![(0, 0), (1, 0)]),
    ])
}

fn squares_and_dominoes() -> TileCollection {
    TileCollection::new(vec![
        Tile::new(vec![(0, 0)]),
        Tile::new(vec![(0, 0), (0, 1)]),
    ])
}

fn edge_total(graph: &BoardGraph) -> usize {
    let mut total = 0;
    for node in 0..graph.node_count() {
        total += graph.get_edges(node).unwrap().len();
    }
    total
}

#[test]
fn graph_of_two_by_two() {
    let graph = generate_graph(&Board::new(2, 2), &dominoes());
    assert_eq!(graph.node_count(), 4);
    assert!(graph.get_node(0).unwrap().same_as(&Board::new(2, 2)));
    assert!(graph.get_node(1).unwrap().same_as(&Board::new(2, 2).with_marked(0).with_marked(1)));
    assert!(graph.get_node(2).unwrap().same_as(&Board::new(2, 2).with_marked(0).with_marked(2)));
    assert!(graph.get_node(3).unwrap().is_all_marked());
    assert_eq!(graph.get_edges(0).unwrap(), &vec![1, 2]);
    assert_eq!(graph.get_edges(1).unwrap(), &vec![3]);
    assert_eq!(graph.get_edges(2).unwrap(), &vec![3]);
    assert_eq!(graph.get_edges(3).unwrap(), &Vec::<usize>::new());
    assert_eq!(graph.get_complete_index(), Some(3));
    assert!(graph.get_node(4).is_none());
    assert!(graph.get_edges(4).is_none());
    assert_eq!(count_tilings_from_graph(&graph), 2);
}

#[test]
fn graph_without_tiling_has_no_complete_node() {
    let graph = generate_graph(&Board::new(3, 1), &dominoes());
    assert_eq!(graph.node_count(), 2);
    assert_eq!(graph.get_edges(0).unwrap(), &vec![1]);
    assert_eq!(graph.get_edges(1).unwrap(), &Vec::<usize>::new());
    assert_eq!(graph.get_complete_index(), None);
    assert_eq!(count_tilings_from_graph(&graph), 0);
}

#[test]
fn graph_of_complete_board_is_its_root() {
    let full = Board::new(1, 1).with_marked(0);
    let graph = generate_graph(&full, &dominoes());
    assert_eq!(graph.node_count(), 1);
    assert_eq!(graph.get_complete_index(), Some(0));
    assert_eq!(edge_total(&graph), 0);
    assert_eq!(count_tilings_from_graph(&graph), 1);
}

#[test]
fn graph_stores_each_board_once() {
    let graph = generate_graph(&Board::new(4, 4), &dominoes());
    for a in 0..graph.node_count() {
        for b in (a + 1)..graph.node_count() {
            assert!(!graph.get_node(a).unwrap().same_as(graph.get_node(b).unwrap()));
        }
    }
}

#[test]
fn graph_edges_are_the_expansions() {
    let tiles = dominoes();
    let graph = generate_graph(&Board::new(4, 3), &tiles);
    for node in 0..graph.node_count() {
        let next = place_tile(graph.get_node(node).unwrap(), &tiles);
        let edges = graph.get_edges(node).unwrap();
        assert_eq!(edges.len(), next.len());
        for (edge, board) in edges.iter().zip(next.iter()) {
            assert!(graph.get_node(*edge).unwrap().same_as(board));
        }
    }
    let complete = graph.get_complete_index().unwrap();
    assert!(graph.get_node(complete).unwrap().is_all_marked());
}

#[test]
fn graph_reuses_a_node_reached_at_another_depth() {
    let graph = generate_graph(&Board::new(3, 1), &squares_and_dominoes());
    assert_eq!(graph.node_count(), 4);
    assert_eq!(graph.get_edges(0).unwrap(), &vec![1, 2]);
    assert_eq!(graph.get_edges(1).unwrap(), &vec![2, 3]);
    assert_eq!(graph.get_edges(2).unwrap(), &vec![3]);
    assert_eq!(graph.get_complete_index(), Some(3));
    assert_eq!(count_tilings_from_graph(&graph), 3);
}

#[test]
fn building_twice_gives_the_same_graph() {
    let tiles = dominoes();
    let board = Board::new(4, 4);
    let first = generate_graph(&board, &tiles);
    let second = generate_graph(&board, &tiles);
    assert_eq!(first.node_count(), second.node_count());
    assert_eq!(edge_total(&first), edge_total(&second));
    assert_eq!(first.get_complete_index().is_some(), second.get_complete_index().is_some());
    for node in 0..first.node_count() {
        assert!(first.get_node(node).unwrap().same_as(second.get_node(node).unwrap()));
        assert_eq!(first.get_edges(node).unwrap(), second.get_edges(node).unwrap());
    }
}
