use celeb_shortest_distance::connections::{path_connections, Connection, TwoActors};
use celeb_shortest_distance::data::{Actor, Movie, MovieDB, MovieDBBuilder};
use celeb_shortest_distance::graph::find_shortest_path;
use std::collections::HashMap;

fn full_db() -> MovieDB {
    let pairs = vec![
        (129, 104257),
        (102, 104257),
        (197, 104257),
        (102, 112384),
        (158, 112384),
    ];
    let (actor_to_movies, movie_to_actors) = MovieDBBuilder::get_actor_movie_maps(pairs);
    let mut actors = HashMap::new();
    actors.insert(
        129,
        Actor { id: 129, name: "Tom Cruise".to_string(), birth_year: Some(1962) },
    );
    actors.insert(
        102,
        Actor { id: 102, name: "Kevin Bacon".to_string(), birth_year: Some(1958) },
    );
    actors.insert(
        197,
        Actor { id: 197, name: "Jack Nicholson".to_string(), birth_year: Some(1937) },
    );
    actors.insert(
        158,
        Actor { id: 158, name: "Tom Hanks".to_string(), birth_year: Some(1956) },
    );
    let mut movies = HashMap::new();
    movies.insert(
        104257,
        Movie { id: 104257, title: "A Few Good Men".to_string(), year: 1992 },
    );
    movies.insert(
        112384,
        Movie { id: 112384, title: "Apollo 13".to_string(), year: 1995 },
    );
    MovieDB { actor_to_movies, movie_to_actors, actors, movies }
}

#[test]
fn path_renders_as_costar_triples() {
    let db = full_db();
    let query = TwoActors { actor_1: 129, actor_2: 158 };
    let path = find_shortest_path(query.actor_1, query.actor_2, &db).unwrap();
    let connections = path_connections(&path, &db).unwrap();
    assert_eq!(connections.len(), 2);
    assert_eq!(connections[0].actor_1, "Tom Cruise");
    assert_eq!(connections[0].movie, "A Few Good Men");
    assert_eq!(connections[0].actor_2, "Kevin Bacon");
    assert_eq!(connections[1].actor_1, "Kevin Bacon");
    assert_eq!(connections[1].movie, "Apollo 13");
    assert_eq!(connections[1].actor_2, "Tom Hanks");
}

#[test]
fn zero_length_path_renders_no_triples() {
    let db = full_db();
    let path = find_shortest_path(129, 129, &db).unwrap();
    let connections: Vec<Connection> = path_connections(&path, &db).unwrap();
    assert!(connections.is_empty());
}

#[test]
fn missing_table_entry_is_reported() {
    let mut db = full_db();
    db.movies.remove(&104257);
    let path = find_shortest_path(129, 197, &db).unwrap();
    assert!(path_connections(&path, &db).is_err());
}
