//! Rendering a found path for presentation: each step of the path becomes a
//! triple of the two actors' display names and the title of the movie they
//! shared.

use crate::data::{Actor, Movie, MovieDB};
use crate::graph::Node;
use vstd::prelude::*;

verus! {

/// A pair of actor identifiers between which a connection is asked for.
pub struct TwoActors {
    pub actor_1: usize,
    pub actor_2: usize,
}

/// One rendered step: two co-stars and the movie they shared.
#[derive(Debug)]
pub struct Connection {
    pub actor_1: String,
    pub movie: String,
    pub actor_2: String,
}

/// Every node of the path can be rendered: its actor is in the actor table
/// and, past the root, its recorded movie is in the movie table. A path
/// that fails this reveals an index built inconsistently with the tables.
pub open spec fn path_renderable(
    path: Seq<Node>,
    actors: Map<usize, Actor>,
    movies: Map<usize, Movie>,
) -> bool {
    forall|k: int| #![trigger path[k]] 0 <= k < path.len() ==> {
        &&& actors.contains_key(path[k].actor_id)
        &&& k >= 1 ==> path[k].movie_id is Some && movies.contains_key(path[k].movie_id->0)
    }
}

/// Renders a path as consecutive co-star triples, one per step. Fails
/// exactly when some node's actor or recorded movie is absent from the
/// tables, which is a consistency breach by whoever built the database, not
/// a search outcome.
pub fn path_connections(path: &Vec<Node>, movie_db: &MovieDB) -> (r: Result<
    Vec<Connection>,
    &'static str,
>)
    requires
        path@.len() >= 1,
    ensures
        match r {
            Ok(conns) => {
                &&& path_renderable(path@, movie_db.actors@, movie_db.movies@)
                &&& conns@.len() == path@.len() - 1
                &&& forall|k: int| #![trigger conns@[k]] 0 <= k < conns@.len() ==> {
                    &&& conns@[k].actor_1 == movie_db.actors@[path@[k].actor_id].name
                    &&& conns@[k].actor_2 == movie_db.actors@[path@[k + 1].actor_id].name
                    &&& path@[k + 1].movie_id is Some
                    &&& conns@[k].movie == movie_db.movies@[path@[k + 1].movie_id->0].title
                }
            },
            Err(_) => !path_renderable(path@, movie_db.actors@, movie_db.movies@),
        },
{
    if !movie_db.actors.contains_key(&path[0].actor_id) {
        proof {
            assert(!path_renderable(path@, movie_db.actors@, movie_db.movies@)) by {
                assert(path@[0] == path@[0]);
            }
        }
        return Err("actor missing from the actor table");
    }
    let mut conns: Vec<Connection> = Vec::new();
    let mut k: usize = 1;
    while k < path.len()
        invariant
            1 <= k <= path@.len(),
            forall|t: int| #![trigger path@[t]] 0 <= t < k ==> {
                &&& movie_db.actors@.contains_key(path@[t].actor_id)
                &&& t >= 1 ==> path@[t].movie_id is Some && movie_db.movies@.contains_key(
                    path@[t].movie_id->0,
                )
            },
            conns@.len() == k - 1,
            forall|t: int| #![trigger conns@[t]] 0 <= t < conns@.len() ==> {
                &&& conns@[t].actor_1 == movie_db.actors@[path@[t].actor_id].name
                &&& conns@[t].actor_2 == movie_db.actors@[path@[t + 1].actor_id].name
                &&& path@[t + 1].movie_id is Some
                &&& conns@[t].movie == movie_db.movies@[path@[t + 1].movie_id->0].title
            },
        decreases path@.len() - k,
    {
        let node = path[k];
        let prev = path[k - 1];
        let movie_id = match node.movie_id {
            Some(movie_id) => movie_id,
            None => {
                proof {
                    assert(path@[k as int] == node);
                }
                return Err("path step without a connecting movie");
            },
        };
        let actor_1 = match movie_db.actors.get(&prev.actor_id) {
            Some(a) => a,
            None => {
                proof {
                    assert(movie_db.actors@.contains_key(path@[k as int - 1].actor_id));
                    assert(false);
                }
                return Err("actor missing from the actor table");
            },
        };
        let actor_2 = match movie_db.actors.get(&node.actor_id) {
            Some(a) => a,
            None => {
                proof {
                    assert(path@[k as int] == node);
                }
                return Err("actor missing from the actor table");
            },
        };
        let movie = match movie_db.movies.get(&movie_id) {
            Some(m) => m,
            None => {
                proof {
                    assert(path@[k as int] == node);
                }
                return Err("movie missing from the movie table");
            },
        };
        conns.push(
            Connection {
                actor_1: actor_1.name.clone(),
                movie: movie.title.clone(),
                actor_2: actor_2.name.clone(),
            },
        );
        k += 1;
    }
    Ok(conns)
}

} // verus!
