use celeb_shortest_distance::data::MovieDBBuilder;

#[test]
fn index_records_every_pair() {
    let pairs = vec![(129, 104257), (197, 104257), (102, 112384)];
    let (actor_to_movies, movie_to_actors) = MovieDBBuilder::get_actor_movie_maps(pairs);

    assert!(actor_to_movies[&129].contains(&104257));
    assert!(actor_to_movies[&197].contains(&104257));
    assert!(actor_to_movies[&102].contains(&112384));
    assert!(movie_to_actors[&104257].contains(&129));
    assert!(movie_to_actors[&104257].contains(&197));
    assert!(movie_to_actors[&112384].contains(&102));
    assert_eq!(movie_to_actors[&104257].len(), 2);
}

#[test]
fn index_mappings_mirror_each_other() {
    let pairs = vec![(1, 10), (1, 11), (2, 10), (3, 12), (2, 12)];
    let (actor_to_movies, movie_to_actors) = MovieDBBuilder::get_actor_movie_maps(pairs);

    for (actor, movies) in &actor_to_movies {
        for movie in movies {
            assert!(movie_to_actors[movie].contains(actor));
        }
    }
    for (movie, actors) in &movie_to_actors {
        for actor in actors {
            assert!(actor_to_movies[actor].contains(movie));
        }
    }
}

#[test]
fn repeated_pairs_are_recorded_once() {
    let pairs = vec![(1, 10), (1, 10), (1, 10)];
    let (actor_to_movies, movie_to_actors) = MovieDBBuilder::get_actor_movie_maps(pairs);
    assert_eq!(actor_to_movies[&1], vec![10]);
    assert_eq!(movie_to_actors[&10], vec![1]);
}

#[test]
fn empty_pair_list_builds_empty_index() {
    let (actor_to_movies, movie_to_actors) = MovieDBBuilder::get_actor_movie_maps(Vec::new());
    assert!(actor_to_movies.is_empty());
    assert!(movie_to_actors.is_empty());
}
