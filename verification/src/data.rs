//! Actor and movie records and the connection index: two mutually consistent
//! mappings, one from an actor to the movies it appears in and one from a
//! movie to its cast.

use std::collections::HashMap;
use vstd::prelude::*;

verus! {

/// A film record. Identity is carried by the numeric key alone.
#[derive(Debug)]
pub struct Movie {
    pub id: usize,
    pub title: String,
    pub year: u32,
}

/// A person record. Identity is carried by the numeric key alone; distinct
/// actors may share a display name.
#[derive(Debug)]
pub struct Actor {
    pub id: usize,
    pub name: String,
    pub birth_year: Option<u32>,
}

impl Clone for Actor {
    fn clone(&self) -> (r: Actor)
        ensures
            r == *self,
    {
        Actor { id: self.id, name: self.name.clone(), birth_year: self.birth_year }
    }
}

impl PartialEq for Movie {
    fn eq(&self, other: &Self) -> bool {
        self.id == other.id
    }
}

impl vstd::std_specs::cmp::PartialEqSpecImpl for Movie {
    open spec fn obeys_eq_spec() -> bool {
        true
    }

    open spec fn eq_spec(&self, other: &Self) -> bool {
        self.id == other.id
    }
}

impl PartialEq for Actor {
    fn eq(&self, other: &Self) -> bool {
        self.id == other.id
    }
}

impl vstd::std_specs::cmp::PartialEqSpecImpl for Actor {
    open spec fn obeys_eq_spec() -> bool {
        true
    }

    open spec fn eq_spec(&self, other: &Self) -> bool {
        self.id == other.id
    }
}

/// One appearance pair is recorded in a mapping: the key is present and the
/// value lies in the key's list.
pub open spec fn map_has_pair(m: Map<usize, Vec<usize>>, k: usize, v: usize) -> bool {
    m.contains_key(k) && m[k]@.contains(v)
}

/// The two mappings of a connection index agree: a movie lies in an actor's
/// list exactly when the actor lies in the movie's cast list.
pub open spec fn mirrored(atm: Map<usize, Vec<usize>>, mta: Map<usize, Vec<usize>>) -> bool {
    forall|a: usize, m: usize| #![trigger map_has_pair(atm, a, m)] #![trigger map_has_pair(mta, m, a)]
        map_has_pair(atm, a, m) <==> map_has_pair(mta, m, a)
}

/// Every adjacency list of the mapping is a set: no identifier repeats.
pub open spec fn lists_unique(m: Map<usize, Vec<usize>>) -> bool {
    forall|k: usize| #[trigger] m.contains_key(k) ==> m[k]@.no_duplicates()
}

/// The in-memory database: the connection index plus the actor and movie
/// tables, shared read-only by every search.
pub struct MovieDB {
    pub actor_to_movies: HashMap<usize, Vec<usize>>,
    pub movie_to_actors: HashMap<usize, Vec<usize>>,
    pub actors: HashMap<usize, Actor>,
    pub movies: HashMap<usize, Movie>,
}

impl MovieDB {
    /// The connection index invariant: the two mappings mirror each other,
    /// and each adjacency list holds a set of identifiers, none repeated.
    pub open spec fn wf(&self) -> bool {
        &&& mirrored(self.actor_to_movies@, self.movie_to_actors@)
        &&& lists_unique(self.actor_to_movies@)
        &&& lists_unique(self.movie_to_actors@)
    }
}

/// A record table is keyed consistently when every entry's own key equals the
/// key it is filed under.
pub open spec fn actors_keyed(actors: Map<usize, Actor>) -> bool {
    forall|k: usize| #[trigger] actors.contains_key(k) ==> actors[k].id == k
}

/// Whether a list of identifiers holds the given one.
pub(crate) fn contains_id(v: &Vec<usize>, x: usize) -> (r: bool)
    ensures
        r == v@.contains(x),
{
    let mut i: usize = 0;
    while i < v.len()
        invariant
            i <= v@.len(),
            forall|j: int| 0 <= j < i ==> v@[j] != x,
        decreases v@.len() - i,
    {
        if v[i] == x {
            assert(v@[i as int] == x);
            return true;
        }
        i += 1;
    }
    false
}

pub struct MovieDBBuilder;

/// Copies a list of identifiers.
fn copy_ids(v: &Vec<usize>) -> (r: Vec<usize>)
    ensures
        r@ == v@,
{
    let mut r: Vec<usize> = Vec::new();
    let mut i: usize = 0;
    while i < v.len()
        invariant
            i <= v@.len(),
            r@ == v@.take(i as int),
        decreases v@.len() - i,
    {
        r.push(v[i]);
        proof {
            assert(r@ =~= v@.take(i + 1));
        }
        i += 1;
    }
    proof {
        assert(v@.take(v@.len() as int) =~= v@);
    }
    r
}

/// Appending one element extends membership by exactly that element.
pub(crate) proof fn lemma_push_contains<T>(s: Seq<T>, v: T)
    ensures
        forall|y: T| #[trigger] s.push(v).contains(y) <==> (s.contains(y) || y == v),
{
    assert forall|y: T| #[trigger] s.push(v).contains(y) <==> (s.contains(y) || y == v) by {
        if s.push(v).contains(y) {
            let j = choose|j: int| 0 <= j < s.push(v).len() && #[trigger] s.push(v)[j] == y;
            if j < s.len() {
                assert(s[j] == y);
            }
        }
        if s.contains(y) {
            let j = choose|j: int| 0 <= j < s.len() && #[trigger] s[j] == y;
            assert(s.push(v)[j] == y);
        }
        if y == v {
            assert(s.push(v)[s.len() as int] == y);
        }
    }
}

/// Appending an element not yet present keeps a list free of repetition.
pub(crate) proof fn lemma_push_no_dup<T>(s: Seq<T>, v: T)
    requires
        s.no_duplicates(),
        !s.contains(v),
    ensures
        s.push(v).no_duplicates(),
{
    assert forall|i: int, j: int|
        0 <= i < s.push(v).len() && 0 <= j < s.push(v).len() && i != j implies s.push(v)[i]
        != s.push(v)[j] by {
        if i < s.len() && j < s.len() {
        } else if j == s.len() && i < s.len() {
            if s[i] == v {
                assert(s.contains(v));
            }
        } else if i == s.len() && j < s.len() {
            if s[j] == v {
                assert(s.contains(v));
            }
        }
    }
}

/// Adds one (key, value) pair to a mapping, keeping each key's list free of
/// duplicates.
fn record_pair(map: &mut HashMap<usize, Vec<usize>>, key: usize, val: usize)
    ensures
        forall|x: usize, y: usize| #![trigger map_has_pair(final(map)@, x, y)]
            map_has_pair(final(map)@, x, y) <==> (map_has_pair(old(map)@, x, y) || (x == key && y
                == val)),
        forall|x: usize| #[trigger] final(map)@.contains_key(x) <==> (old(map)@.contains_key(x)
            || x == key),
        lists_unique(old(map)@) ==> lists_unique(final(map)@),
{
    let ghost old_map = map@;
    let mut entries: Vec<usize> = match map.get(&key) {
        Some(v) => copy_ids(v),
        None => Vec::new(),
    };
    let ghost had = entries@;
    if !contains_id(&entries, val) {
        entries.push(val);
        proof {
            lemma_push_contains(had, val);
        }
    }
    let ghost entries_snap = entries@;
    proof {
        if lists_unique(old_map) {
            if old_map.contains_key(key) {
                assert(old_map[key]@.no_duplicates());
            }
            assert(entries_snap.no_duplicates()) by {
                if had.no_duplicates() && !had.contains(val) && entries_snap == had.push(val) {
                    lemma_push_no_dup(had, val);
                }
            }
        }
    }
    map.insert(key, entries);
    proof {
        assert forall|x: usize|
            #![trigger map@.contains_key(x)]
            map@.contains_key(x) <==> (old_map.contains_key(x) || x == key) by {}
        if lists_unique(old_map) {
            assert forall|x: usize| #[trigger] map@.contains_key(x) implies map@[x]@.no_duplicates() by {
                if x != key {
                    assert(old_map.contains_key(x));
                    assert(map@[x] == old_map[x]);
                }
            }
        }
        assert forall|x: usize, y: usize|
            #![trigger map_has_pair(map@, x, y)]
            map_has_pair(map@, x, y) <==> (map_has_pair(old_map, x, y) || (x == key && y
                == val)) by {
            if x == key {
                assert(map@.contains_key(x) && map@[x]@ == entries_snap);
                assert(entries_snap.contains(y) <==> (had.contains(y) || y == val));
                if old_map.contains_key(key) {
                    assert(had == old_map[key]@);
                }
            } else {
                assert(map@.contains_key(x) <==> old_map.contains_key(x));
                if map@.contains_key(x) {
                    assert(map@[x] == old_map[x]);
                }
            }
        }
    }
}

impl MovieDBBuilder {
    /// Builds the connection index from a list of (actor, movie) appearance
    /// pairs. The two returned mappings record exactly the given pairs and
    /// mirror each other.
    pub fn get_actor_movie_maps(connections: Vec<(usize, usize)>) -> (maps: (
        HashMap<usize, Vec<usize>>,
        HashMap<usize, Vec<usize>>,
    ))
        ensures
            forall|a: usize, m: usize| #![trigger map_has_pair(maps.0@, a, m)]
                map_has_pair(maps.0@, a, m) <==> connections@.contains((a, m)),
            forall|a: usize, m: usize| #![trigger map_has_pair(maps.1@, m, a)]
                map_has_pair(maps.1@, m, a) <==> connections@.contains((a, m)),
            mirrored(maps.0@, maps.1@),
            forall|a: usize| #[trigger] maps.0@.contains_key(a) <==> exists|m: usize|
                connections@.contains((a, m)),
            forall|m: usize| #[trigger] maps.1@.contains_key(m) <==> exists|a: usize|
                connections@.contains((a, m)),
            lists_unique(maps.0@),
            lists_unique(maps.1@),
    {
        let mut actor_to_movie: HashMap<usize, Vec<usize>> = HashMap::new();
        let mut movie_to_actor: HashMap<usize, Vec<usize>> = HashMap::new();
        let mut i: usize = 0;
        while i < connections.len()
            invariant
                i <= connections@.len(),
                forall|a: usize, m: usize| #![trigger map_has_pair(actor_to_movie@, a, m)]
                    map_has_pair(actor_to_movie@, a, m) <==> connections@.take(i as int).contains(
                        (a, m),
                    ),
                forall|a: usize, m: usize| #![trigger map_has_pair(movie_to_actor@, m, a)]
                    map_has_pair(movie_to_actor@, m, a) <==> connections@.take(i as int).contains(
                        (a, m),
                    ),
                forall|a: usize| #[trigger] actor_to_movie@.contains_key(a) <==> exists|m: usize|
                    connections@.take(i as int).contains((a, m)),
                forall|m: usize| #[trigger] movie_to_actor@.contains_key(m) <==> exists|a: usize|
                    connections@.take(i as int).contains((a, m)),
                lists_unique(actor_to_movie@),
                lists_unique(movie_to_actor@),
            decreases connections@.len() - i,
        {
            let (actor_id, movie_id) = connections[i];
            let ghost atm_was = actor_to_movie@;
            let ghost mta_was = movie_to_actor@;
            record_pair(&mut actor_to_movie, actor_id, movie_id);
            record_pair(&mut movie_to_actor, movie_id, actor_id);
            proof {
                assert(connections@.take(i + 1) =~= connections@.take(i as int).push(
                    connections@[i as int],
                ));
                lemma_take_push_contains(connections@, i as int);
                assert forall|a: usize| #[trigger] actor_to_movie@.contains_key(a) <==> exists|
                    m: usize,
                | #[trigger]
                    connections@.take(i + 1).contains((a, m)) by {
                    if actor_to_movie@.contains_key(a) {
                        if atm_was.contains_key(a) {
                            let m = choose|m: usize| #[trigger]
                                connections@.take(i as int).contains((a, m));
                            assert(connections@.take(i + 1).contains((a, m)));
                        } else {
                            assert(a == actor_id);
                            assert(connections@.take(i + 1).contains((a, movie_id)));
                        }
                    }
                    if exists|m: usize| #[trigger] connections@.take(i + 1).contains((a, m)) {
                        let m = choose|m: usize| #[trigger] connections@.take(i + 1).contains(
                            (a, m),
                        );
                        if connections@.take(i as int).contains((a, m)) {
                            assert(atm_was.contains_key(a));
                        } else {
                            assert(a == actor_id);
                        }
                    }
                }
                assert forall|m: usize| #[trigger] movie_to_actor@.contains_key(m) <==> exists|
                    a: usize,
                | #[trigger]
                    connections@.take(i + 1).contains((a, m)) by {
                    if movie_to_actor@.contains_key(m) {
                        if mta_was.contains_key(m) {
                            let a = choose|a: usize| #[trigger]
                                connections@.take(i as int).contains((a, m));
                            assert(connections@.take(i + 1).contains((a, m)));
                        } else {
                            assert(m == movie_id);
                            assert(connections@.take(i + 1).contains((actor_id, m)));
                        }
                    }
                    if exists|a: usize| #[trigger] connections@.take(i + 1).contains((a, m)) {
                        let a = choose|a: usize| #[trigger] connections@.take(i + 1).contains(
                            (a, m),
                        );
                        if connections@.take(i as int).contains((a, m)) {
                            assert(mta_was.contains_key(m));
                        } else {
                            assert(m == movie_id);
                        }
                    }
                }
            }
            i += 1;
        }
        proof {
            assert(connections@.take(connections@.len() as int) =~= connections@);
            lemma_index_mirrored(actor_to_movie@, movie_to_actor@, connections@);
        }
        (actor_to_movie, movie_to_actor)
    }
}

/// Membership in a prefix one longer: the pair is among the first i pairs or
/// is the pair at position i itself.
proof fn lemma_take_push_contains(s: Seq<(usize, usize)>, i: int)
    requires
        0 <= i < s.len(),
    ensures
        forall|p: (usize, usize)| #[trigger] s.take(i + 1).contains(p) <==> (s.take(i).contains(p)
            || p == s[i]),
{
    assert forall|p: (usize, usize)| #[trigger] s.take(i + 1).contains(p) <==> (s.take(i).contains(
        p,
    ) || p == s[i]) by {
        if s.take(i + 1).contains(p) {
            let j = choose|j: int| 0 <= j < s.take(i + 1).len() && #[trigger] s.take(i + 1)[j]
                == p;
            if j < i {
                assert(s.take(i)[j] == p);
            }
        }
        if s.take(i).contains(p) {
            let j = choose|j: int| 0 <= j < s.take(i).len() && s.take(i)[j] == p;
            assert(s.take(i + 1)[j] == p);
        }
        if p == s[i] {
            assert(s.take(i + 1)[i] == p);
        }
    }
}

/// Law: an index whose two mappings each record exactly one list of
/// appearance pairs is mirrored, pair for pair.
pub proof fn lemma_index_mirrored(
    atm: Map<usize, Vec<usize>>,
    mta: Map<usize, Vec<usize>>,
    pairs: Seq<(usize, usize)>,
)
    requires
        forall|a: usize, m: usize| #![trigger map_has_pair(atm, a, m)]
            map_has_pair(atm, a, m) <==> pairs.contains((a, m)),
        forall|a: usize, m: usize| #![trigger map_has_pair(mta, m, a)]
            map_has_pair(mta, m, a) <==> pairs.contains((a, m)),
    ensures
        mirrored(atm, mta),
{
}

} // verus!
