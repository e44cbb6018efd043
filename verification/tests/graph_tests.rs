use celeb_shortest_distance::data::{MovieDB, MovieDBBuilder};
use celeb_shortest_distance::graph::{find_shortest_path, shortest_path, Graph, Node};
use std::collections::HashMap;

fn make_db(pairs: Vec<(usize, usize)>) -> MovieDB {
    let (actor_to_movies, movie_to_actors) = MovieDBBuilder::get_actor_movie_maps(pairs);
    MovieDB {
        actor_to_movies,
        movie_to_actors,
        actors: HashMap::new(),
        movies: HashMap::new(),
    }
}

#[test]
fn adding_nodes() {
    let mut graph = Graph::new();
    let node1 = Node::new(1, None, None);
    graph.add_node(node1.clone());
    let node2 = Node::new(2, Some(0), Some(8));
    graph.add_node(node2.clone());
    let node3 = Node::new(3, Some(1), Some(7));
    graph.add_node(node3.clone());

    assert_eq!(graph.nodes, vec![node1, node2, node3]);
    assert_eq!(graph.frontier, vec![0, 1, 2])
}

#[test]
fn graph_path_to_root() {
    let mut graph = Graph::new();
    let node1 = Node::new(1, None, None);
    graph.add_node(node1.clone());
    let node2 = Node::new(2, Some(0), Some(8));
    graph.add_node(node2.clone());
    let node3 = Node::new(3, Some(1), Some(7));
    graph.add_node(node3.clone());

    let path = graph.get_path_to_root(2);
    assert_eq!(path, vec![node1, node2, node3]);
}

#[test]
fn add_nodes_enqueues_in_order() {
    let mut graph = Graph::new();
    let batch = vec![
        Node::new(5, None, None),
        Node::new(6, Some(0), Some(40)),
        Node::new(7, Some(0), Some(41)),
    ];
    graph.add_nodes(batch.clone());
    assert_eq!(graph.nodes, batch);
    assert_eq!(graph.frontier, vec![0, 1, 2]);
}

#[test]
fn neighbours_exclude_explored() {
    // 129 appears in 104257 with 197 and 102, and in 95953 with 596520.
    let db = make_db(vec![
        (129, 104257),
        (197, 104257),
        (102, 104257),
        (129, 95953),
        (596520, 95953),
    ]);
    let mut graph = Graph::new();
    let root = Node::new(129, None, None);
    graph.explored.push(129);
    graph.add_node(root);

    let neighbours = graph.get_neighbours(0, &db);
    let mut ids: Vec<usize> = neighbours.iter().map(|n| n.actor_id).collect();
    ids.sort();
    assert_eq!(ids, vec![102, 197, 596520]);
}

#[test]
fn costar_sharing_two_movies_appears_once_per_movie() {
    let db = make_db(vec![(129, 10), (102, 10), (129, 11), (102, 11)]);
    let mut graph = Graph::new();
    graph.explored.push(129);
    graph.add_node(Node::new(129, None, None));

    let neighbours = graph.get_neighbours(0, &db);
    assert_eq!(neighbours.len(), 2);
    assert!(neighbours.iter().all(|n| n.actor_id == 102));
    let mut movies: Vec<usize> = neighbours.iter().map(|n| n.movie_id.unwrap()).collect();
    movies.sort();
    assert_eq!(movies, vec![10, 11]);
}

#[test]
fn one_degree_of_separation() {
    // Two actors share one movie: the path is the root plus one step.
    let db = make_db(vec![(129, 104257), (197, 104257), (102, 104257)]);
    let source = Node::new(129, None, None);
    let linked = Node::new(197, Some(0), Some(104257));

    let path = shortest_path(129, 197, &db);
    assert_eq!(path, Ok(vec![source, linked]));
}

#[test]
fn two_degrees_through_connector() {
    // 129 and 158 never share a movie; 102 appears with both.
    let db = make_db(vec![
        (129, 104257),
        (102, 104257),
        (197, 104257),
        (102, 112384),
        (158, 112384),
    ]);
    let source = Node::new(129, None, None);
    let connector = Node::new(102, Some(0), Some(104257));
    let target = Node::new(158, Some(1), Some(112384));

    let path = shortest_path(129, 158, &db);
    assert_eq!(path, Ok(vec![source, connector, target]));
}

#[test]
fn shortest_of_two_routes_wins() {
    // A direct shared movie beats a two-step detour.
    let db = make_db(vec![
        (1, 10),
        (2, 10),
        (1, 11),
        (3, 11),
        (3, 12),
        (2, 12),
    ]);
    let path = shortest_path(1, 2, &db).unwrap();
    assert_eq!(path.len(), 2);
    assert_eq!(path[0].actor_id, 1);
    assert_eq!(path[1].actor_id, 2);
    assert_eq!(path[1].movie_id, Some(10));
}

#[test]
fn disconnected_components_report_not_found() {
    let db = make_db(vec![(1, 10), (2, 10), (3, 11), (4, 11)]);
    let result = shortest_path(1, 3, &db);
    assert_eq!(result, Err("no path found"));
}

#[test]
fn path_steps_are_recorded_costars() {
    let pairs = vec![
        (129, 104257),
        (102, 104257),
        (197, 104257),
        (102, 112384),
        (158, 112384),
        (158, 95953),
        (420, 95953),
    ];
    let db = make_db(pairs.clone());
    let path = shortest_path(129, 420, &db).unwrap();
    assert_eq!(path.len(), 4);
    for k in 1..path.len() {
        let movie = path[k].movie_id.unwrap();
        assert!(pairs.contains(&(path[k - 1].actor_id, movie)));
        assert!(pairs.contains(&(path[k].actor_id, movie)));
    }
}

#[test]
fn same_actor_short_circuits() {
    // Equal endpoints never enter the search loop: one zero-length path.
    let db = make_db(vec![(129, 104257), (197, 104257)]);
    let path = find_shortest_path(129, 129, &db).unwrap();
    assert_eq!(path.len(), 1);
    assert_eq!(path[0].actor_id, 129);
    assert_eq!(path[0].movie_id, None);
}

#[test]
fn caller_entry_point_searches_distinct_endpoints() {
    let db = make_db(vec![(129, 104257), (197, 104257)]);
    let path = find_shortest_path(129, 197, &db).unwrap();
    assert_eq!(path.len(), 2);
    assert_eq!(path[1].actor_id, 197);
}
