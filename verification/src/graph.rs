//! The search arena and the breadth-first shortest-path engine.
//!
//! A search owns an append-only arena of visited nodes; each node carries an
//! actor, the movie through which it was reached, and the arena position of
//! the node that discovered it. The frontier is a FIFO of arena positions,
//! which makes the first path found a shortest one.

use crate::data::{contains_id, map_has_pair, MovieDB};
use vstd::prelude::*;

verus! {

/// One visited actor. `movie_id` and `parent_index` are absent only for the
/// root of a search.
#[derive(Debug, Clone, Copy)]
pub struct Node {
    pub actor_id: usize,
    pub parent_index: Option<usize>,
    pub movie_id: Option<usize>,
}

impl PartialEq for Node {
    fn eq(&self, other: &Self) -> bool {
        self.actor_id == other.actor_id && match (self.movie_id, other.movie_id) {
            (Some(a), Some(b)) => a == b,
            (None, None) => true,
            _ => false,
        }
    }
}

impl vstd::std_specs::cmp::PartialEqSpecImpl for Node {
    open spec fn obeys_eq_spec() -> bool {
        true
    }

    open spec fn eq_spec(&self, other: &Self) -> bool {
        self.actor_id == other.actor_id && self.movie_id == other.movie_id
    }
}

impl Node {
    pub fn new(actor_id: usize, parent_index: Option<usize>, movie_id: Option<usize>) -> (n: Node)
        ensures
            n.actor_id == actor_id,
            n.parent_index == parent_index,
            n.movie_id == movie_id,
    {
        Node { actor_id, parent_index, movie_id }
    }
}

/// Every node's back-reference points strictly earlier in the arena, so
/// parent chains reach a root in finitely many steps.
pub open spec fn parents_before(nodes: Seq<Node>) -> bool {
    forall|i: int| 0 <= i < nodes.len() ==> match (#[trigger] nodes[i]).parent_index {
        Some(p) => p < i,
        None => true,
    }
}

/// How many back-references lie between a node and its root.
pub open spec fn node_depth(nodes: Seq<Node>, i: int) -> nat
    decreases i,
{
    if 0 <= i < nodes.len() {
        match nodes[i].parent_index {
            None => 0,
            Some(p) => if p < i {
                node_depth(nodes, p as int) + 1
            } else {
                0
            },
        }
    } else {
        0
    }
}

/// The nodes on the back-reference chain of position i, root first.
pub open spec fn chain_to_root(nodes: Seq<Node>, i: int) -> Seq<Node>
    decreases i,
{
    if 0 <= i < nodes.len() {
        match nodes[i].parent_index {
            None => seq![nodes[i]],
            Some(p) => if p < i {
                chain_to_root(nodes, p as int).push(nodes[i])
            } else {
                seq![nodes[i]]
            },
        }
    } else {
        Seq::empty()
    }
}

/// One search's private state: the node arena, the FIFO frontier of arena
/// positions awaiting expansion, and the actors already discovered.
pub struct Graph {
    pub frontier: Vec<usize>,
    pub explored: Vec<usize>,
    pub nodes: Vec<Node>,
}

impl Default for Graph {
    fn default() -> (g: Graph)
        ensures
            g.frontier@ == Seq::<usize>::empty(),
            g.explored@ == Seq::<usize>::empty(),
            g.nodes@ == Seq::<Node>::empty(),
    {
        Graph::new()
    }
}

impl Graph {
    pub fn new() -> (g: Graph)
        ensures
            g.frontier@ == Seq::<usize>::empty(),
            g.explored@ == Seq::<usize>::empty(),
            g.nodes@ == Seq::<Node>::empty(),
    {
        Graph { frontier: Vec::new(), explored: Vec::new(), nodes: Vec::new() }
    }

    /// Appends a node to the arena and enqueues its position on the frontier.
    pub fn add_node(&mut self, node: Node)
        ensures
            final(self).nodes@ == old(self).nodes@.push(node),
            final(self).frontier@ == old(self).frontier@.push(old(self).nodes@.len() as usize),
            final(self).explored@ == old(self).explored@,
    {
        let max_index = self.nodes.len();
        self.nodes.push(node);
        self.frontier.push(max_index);
    }

    /// Appends each node in order, enqueuing the fresh arena positions.
    pub fn add_nodes(&mut self, nodes: Vec<Node>)
        ensures
            final(self).nodes@ == old(self).nodes@ + nodes@,
            final(self).frontier@ == old(self).frontier@ + Seq::new(
                nodes@.len(),
                |k: int| (old(self).nodes@.len() + k) as usize,
            ),
            final(self).explored@ == old(self).explored@,
    {
        let ghost orig = *self;
        let mut i: usize = 0;
        while i < nodes.len()
            invariant
                i <= nodes@.len(),
                self.nodes@ == orig.nodes@ + nodes@.take(i as int),
                self.frontier@ == orig.frontier@ + Seq::new(
                    i as nat,
                    |k: int| (orig.nodes@.len() + k) as usize,
                ),
                self.explored@ == orig.explored@,
            decreases nodes@.len() - i,
        {
            let node = nodes[i];
            self.add_node(node);
            proof {
                assert(self.nodes@ =~= orig.nodes@ + nodes@.take(i + 1));
                assert(self.frontier@ =~= orig.frontier@ + Seq::new(
                    (i + 1) as nat,
                    |k: int| (orig.nodes@.len() + k) as usize,
                ));
            }
            i += 1;
        }
        proof {
            assert(nodes@.take(nodes@.len() as int) =~= nodes@);
        }
    }
}

/// Two actors are linked through one movie: each appears in it.
pub open spec fn costar_link(atm: Map<usize, Vec<usize>>, a: usize, m: usize, b: usize) -> bool {
    map_has_pair(atm, a, m) && map_has_pair(atm, b, m)
}

/// Two actors are adjacent when they share at least one movie.
pub open spec fn adjacent(atm: Map<usize, Vec<usize>>, a: usize, b: usize) -> bool {
    exists|m: usize| costar_link(atm, a, m, b)
}

/// Consecutive actors of the sequence are adjacent in the index.
pub open spec fn actor_chain(atm: Map<usize, Vec<usize>>, s: Seq<usize>) -> bool {
    forall|i: int| 1 <= i < s.len() ==> #[trigger] adjacent(atm, s[i - 1], s[i])
}

/// The sequence is a chain of co-stars running from src to tgt.
pub open spec fn connects(atm: Map<usize, Vec<usize>>, s: Seq<usize>, src: usize, tgt: usize) -> bool {
    s.len() >= 1 && s[0] == src && s[s.len() - 1] == tgt && actor_chain(atm, s)
}

/// Some chain of co-stars runs from src to tgt.
pub open spec fn connected(atm: Map<usize, Vec<usize>>, src: usize, tgt: usize) -> bool {
    exists|s: Seq<usize>| connects(atm, s, src, tgt)
}

/// The node that expanding the arena position through one shared movie
/// creates for a co-star.
pub open spec fn expansion_node(node_index: usize, m: usize, b: usize) -> Node {
    Node { actor_id: b, parent_index: Some(node_index), movie_id: Some(m) }
}

/// In a list without repetition, an element never occurs before its own
/// position.
proof fn lemma_no_dup_take_excludes(s: Seq<usize>, i: int)
    requires
        s.no_duplicates(),
        0 <= i < s.len(),
    ensures
        !s.take(i).contains(s[i]),
{
    if s.take(i).contains(s[i]) {
        let t = choose|t: int| 0 <= t < s.take(i).len() && #[trigger] s.take(i)[t] == s[i];
        assert(s[t] == s[i]);
    }
}

impl Graph {
    /// Collects, for every movie of the node's actor, every co-star of that
    /// movie not yet discovered: one candidate node per (movie, co-star)
    /// incidence, none repeated. Relies on the index being mirrored and its
    /// adjacency lists being duplicate-free.
    pub fn get_neighbours(&self, node_index: usize, movie_db: &MovieDB) -> (neighbours: Vec<Node>)
        requires
            node_index < self.nodes@.len(),
            movie_db.wf(),
            movie_db.actor_to_movies@.contains_key(self.nodes@[node_index as int].actor_id),
        ensures
            forall|k: int| #![trigger neighbours@[k]] 0 <= k < neighbours@.len() ==> {
                &&& neighbours@[k].parent_index == Some(node_index)
                &&& neighbours@[k].movie_id matches Some(m) && costar_link(
                    movie_db.actor_to_movies@,
                    self.nodes@[node_index as int].actor_id,
                    m,
                    neighbours@[k].actor_id,
                )
                &&& !self.explored@.contains(neighbours@[k].actor_id)
            },
            neighbours@.no_duplicates(),
            forall|m: usize, b: usize|
                #[trigger] costar_link(
                    movie_db.actor_to_movies@,
                    self.nodes@[node_index as int].actor_id,
                    m,
                    b,
                ) && !self.explored@.contains(b) ==> neighbours@.contains(
                    expansion_node(node_index, m, b),
                ),
    {
        let ghost atm = movie_db.actor_to_movies@;
        let ghost mta = movie_db.movie_to_actors@;
        let parent_actor_id = self.nodes[node_index].actor_id;
        let mut neighbours: Vec<Node> = Vec::new();
        let movies = movie_db.actor_to_movies.get(&parent_actor_id).unwrap();
        let mut i: usize = 0;
        while i < movies.len()
            invariant
                i <= movies@.len(),
                movie_db.wf(),
                atm == movie_db.actor_to_movies@,
                mta == movie_db.movie_to_actors@,
                atm.contains_key(parent_actor_id),
                atm[parent_actor_id]@ == movies@,
                movies@.no_duplicates(),
                node_index < self.nodes@.len(),
                parent_actor_id == self.nodes@[node_index as int].actor_id,
                forall|k: int| #![trigger neighbours@[k]] 0 <= k < neighbours@.len() ==> {
                    &&& neighbours@[k].parent_index == Some(node_index)
                    &&& neighbours@[k].movie_id matches Some(m) && costar_link(
                        atm,
                        parent_actor_id,
                        m,
                        neighbours@[k].actor_id,
                    )
                    &&& !self.explored@.contains(neighbours@[k].actor_id)
                },
                forall|k: int|
                    0 <= k < neighbours@.len() ==> movies@.take(i as int).contains(
                        (#[trigger] neighbours@[k]).movie_id->0,
                    ),
                neighbours@.no_duplicates(),
                forall|m: usize, b: usize|
                    movies@.take(i as int).contains(m) && #[trigger] map_has_pair(atm, b, m)
                        && !self.explored@.contains(b) ==> neighbours@.contains(
                        expansion_node(node_index, m, b),
                    ),
            decreases movies@.len() - i,
        {
            let movie_id = movies[i];
            proof {
                assert(movies@.contains(movie_id));
                assert(map_has_pair(atm, parent_actor_id, movie_id));
                assert(map_has_pair(mta, movie_id, parent_actor_id));
                lemma_no_dup_take_excludes(movies@, i as int);
            }
            let actors = movie_db.movie_to_actors.get(&movie_id).unwrap();
            let mut j: usize = 0;
            while j < actors.len()
                invariant
                    j <= actors@.len(),
                    i < movies@.len(),
                    movie_db.wf(),
                    atm == movie_db.actor_to_movies@,
                    mta == movie_db.movie_to_actors@,
                    atm.contains_key(parent_actor_id),
                    atm[parent_actor_id]@ == movies@,
                    movies@.no_duplicates(),
                    node_index < self.nodes@.len(),
                    parent_actor_id == self.nodes@[node_index as int].actor_id,
                    movie_id == movies@[i as int],
                    !movies@.take(i as int).contains(movie_id),
                    mta.contains_key(movie_id),
                    mta[movie_id]@ == actors@,
                    actors@.no_duplicates(),
                    forall|k: int| #![trigger neighbours@[k]] 0 <= k < neighbours@.len() ==> {
                        &&& neighbours@[k].parent_index == Some(node_index)
                        &&& neighbours@[k].movie_id matches Some(m) && costar_link(
                            atm,
                            parent_actor_id,
                            m,
                            neighbours@[k].actor_id,
                        )
                        &&& !self.explored@.contains(neighbours@[k].actor_id)
                    },
                    forall|k: int| #![trigger neighbours@[k]] 0 <= k < neighbours@.len() ==> {
                        ||| movies@.take(i as int).contains(neighbours@[k].movie_id->0)
                        ||| (neighbours@[k].movie_id->0 == movie_id && actors@.take(
                            j as int,
                        ).contains(neighbours@[k].actor_id))
                    },
                    neighbours@.no_duplicates(),
                    forall|m: usize, b: usize|
                        movies@.take(i as int).contains(m) && #[trigger] map_has_pair(atm, b, m)
                            && !self.explored@.contains(b) ==> neighbours@.contains(
                            expansion_node(node_index, m, b),
                        ),
                    forall|b: usize|
                        actors@.take(j as int).contains(b) && !self.explored@.contains(b)
                            ==> neighbours@.contains(expansion_node(node_index, movie_id, b)),
                decreases actors@.len() - j,
            {
                let actor_id = actors[j];
                proof {
                    assert(actors@[j as int] == actor_id);
                    assert(actors@.contains(actor_id));
                    assert(map_has_pair(mta, movie_id, actor_id));
                    assert(map_has_pair(atm, actor_id, movie_id));
                    lemma_no_dup_take_excludes(actors@, j as int);
                }
                let ghost before = neighbours@;
                if !contains_id(&self.explored, actor_id) {
                    let node = Node::new(actor_id, Some(node_index), Some(movie_id));
                    neighbours.push(node);
                    proof {
                        assert(node == expansion_node(node_index, movie_id, actor_id));
                        assert(!before.contains(node)) by {
                            if before.contains(node) {
                                let k = choose|k: int|
                                    0 <= k < before.len() && #[trigger] before[k] == node;
                                assert(before[k].movie_id->0 == movie_id);
                                assert(actors@.take(j as int).contains(actor_id));
                            }
                        }
                        crate::data::lemma_push_no_dup(before, node);
                        crate::data::lemma_push_contains(before, node);
                        assert forall|b: usize|
                            actors@.take(j + 1).contains(b) && !self.explored@.contains(b)
                                implies neighbours@.contains(
                            expansion_node(node_index, movie_id, b),
                        ) by {
                            if b != actor_id {
                                assert(actors@.take(j as int).contains(b)) by {
                                    let t = choose|t: int|
                                        0 <= t < actors@.take(j + 1).len() && #[trigger] actors@.take(
                                            j + 1,
                                        )[t] == b;
                                    assert(actors@.take(j as int)[t] == b);
                                }
                            }
                        }
                        assert forall|k: int| 0 <= k < neighbours@.len() implies {
                            ||| movies@.take(i as int).contains(
                                (#[trigger] neighbours@[k]).movie_id->0,
                            )
                            ||| (neighbours@[k].movie_id->0 == movie_id && actors@.take(
                                j + 1,
                            ).contains(neighbours@[k].actor_id))
                        } by {
                            if k < before.len() {
                                if !movies@.take(i as int).contains(
                                    neighbours@[k].movie_id->0,
                                ) {
                                    assert(actors@.take(j as int).contains(
                                        neighbours@[k].actor_id,
                                    ));
                                    let t = choose|t: int|
                                        0 <= t < j && #[trigger] actors@.take(j as int)[t]
                                            == neighbours@[k].actor_id;
                                    assert(actors@.take(j + 1)[t] == neighbours@[k].actor_id);
                                }
                            } else {
                                assert(actors@.take(j + 1)[j as int] == actor_id);
                            }
                        }
                    }
                } else {
                    proof {
                        assert forall|b: usize|
                            actors@.take(j + 1).contains(b) && !self.explored@.contains(b)
                                implies neighbours@.contains(
                            expansion_node(node_index, movie_id, b),
                        ) by {
                            assert(b != actor_id);
                            assert(actors@.take(j as int).contains(b)) by {
                                let t = choose|t: int|
                                    0 <= t < actors@.take(j + 1).len() && #[trigger] actors@.take(
                                        j + 1,
                                    )[t] == b;
                                assert(actors@.take(j as int)[t] == b);
                            }
                        }
                        assert forall|k: int| 0 <= k < neighbours@.len() implies {
                            ||| movies@.take(i as int).contains(
                                (#[trigger] neighbours@[k]).movie_id->0,
                            )
                            ||| (neighbours@[k].movie_id->0 == movie_id && actors@.take(
                                j + 1,
                            ).contains(neighbours@[k].actor_id))
                        } by {
                            if !movies@.take(i as int).contains(neighbours@[k].movie_id->0) {
                                assert(actors@.take(j as int).contains(neighbours@[k].actor_id));
                                let t = choose|t: int|
                                    0 <= t < j && #[trigger] actors@.take(j as int)[t]
                                        == neighbours@[k].actor_id;
                                assert(actors@.take(j + 1)[t] == neighbours@[k].actor_id);
                            }
                        }
                    }
                }
                j += 1;
            }
            proof {
                assert(actors@.take(actors@.len() as int) =~= actors@);
                assert forall|m: usize, b: usize|
                    movies@.take(i + 1).contains(m) && #[trigger] map_has_pair(atm, b, m)
                        && !self.explored@.contains(b) implies neighbours@.contains(
                    expansion_node(node_index, m, b),
                ) by {
                    if m == movie_id {
                        assert(map_has_pair(mta, m, b));
                        assert(actors@.contains(b));
                    } else {
                        assert(movies@.take(i as int).contains(m)) by {
                            let t = choose|t: int|
                                0 <= t < movies@.take(i + 1).len() && #[trigger] movies@.take(
                                    i + 1,
                                )[t] == m;
                            assert(movies@.take(i as int)[t] == m);
                        }
                    }
                }
                assert forall|k: int| 0 <= k < neighbours@.len() implies movies@.take(
                    i + 1,
                ).contains((#[trigger] neighbours@[k]).movie_id->0) by {
                    if neighbours@[k].movie_id->0 == movie_id {
                        assert(movies@.take(i + 1)[i as int] == movie_id);
                    } else {
                        assert(movies@.take(i as int).contains(neighbours@[k].movie_id->0));
                        let t = choose|t: int|
                            0 <= t < i && #[trigger] movies@.take(i as int)[t]
                                == neighbours@[k].movie_id->0;
                        assert(movies@.take(i + 1)[t] == neighbours@[k].movie_id->0);
                    }
                }
            }
            i += 1;
        }
        proof {
            assert(movies@.take(movies@.len() as int) =~= movies@);
            assert forall|m: usize, b: usize|
                #[trigger] costar_link(atm, parent_actor_id, m, b) && !self.explored@.contains(b)
                    implies neighbours@.contains(expansion_node(node_index, m, b)) by {
                assert(movies@.contains(m));
            }
        }
        neighbours
    }

    /// Walks the back-references from the given arena position to the root
    /// and returns the chain in root-first order.
    pub fn get_path_to_root(&self, node_index: usize) -> (path: Vec<Node>)
        requires
            parents_before(self.nodes@),
            node_index < self.nodes@.len(),
        ensures
            path@ == chain_to_root(self.nodes@, node_index as int),
    {
        let mut collected: Vec<Node> = Vec::new();
        let mut idx = node_index;
        loop
            invariant_except_break
                idx < self.nodes@.len(),
                parents_before(self.nodes@),
                chain_to_root(self.nodes@, node_index as int) == chain_to_root(
                    self.nodes@,
                    idx as int,
                ) + collected@.reverse(),
            ensures
                chain_to_root(self.nodes@, node_index as int) == collected@.reverse(),
            decreases idx,
        {
            let node = self.nodes[idx];
            collected.push(node);
            match node.parent_index {
                Some(parent_id) => {
                    proof {
                        assert(chain_to_root(self.nodes@, idx as int) == chain_to_root(
                            self.nodes@,
                            parent_id as int,
                        ).push(node));
                        assert(chain_to_root(self.nodes@, parent_id as int)
                            + collected@.reverse() =~= chain_to_root(self.nodes@, parent_id as int)
                            .push(node) + collected@.drop_last().reverse());
                    }
                    idx = parent_id;
                },
                None => {
                    proof {
                        assert(chain_to_root(self.nodes@, idx as int) == seq![node]);
                        assert(seq![node] + collected@.drop_last().reverse()
                            =~= collected@.reverse());
                    }
                    break ;
                },
            }
        }
        let mut path: Vec<Node> = Vec::new();
        let mut k = collected.len();
        while k > 0
            invariant
                k <= collected@.len(),
                path@.len() == collected@.len() - k,
                forall|t: int| 0 <= t < path@.len() ==> path@[t] == collected@[collected@.len() - 1
                    - t],
            decreases k,
        {
            k -= 1;
            path.push(collected[k]);
        }
        proof {
            assert(path@ =~= collected@.reverse());
        }
        path
    }
}

/// Every non-root node records the movie that links its actor to its
/// parent's actor in the index.
pub open spec fn nodes_linked(atm: Map<usize, Vec<usize>>, nodes: Seq<Node>) -> bool {
    forall|i: int| 1 <= i < nodes.len() ==> {
        &&& (#[trigger] nodes[i]).movie_id is Some
        &&& nodes[i].parent_index is Some
        &&& costar_link(
            atm,
            nodes[nodes[i].parent_index->0 as int].actor_id,
            nodes[i].movie_id->0,
            nodes[i].actor_id,
        )
    }
}

/// The running state of one breadth-first search: a single root holding the
/// source actor, back-references pointing strictly earlier, every non-root
/// node linked to its parent through a recorded movie, the discovered set
/// listing exactly the arena's actors without repetition and within the
/// index's key space, and arena depths nondecreasing.
#[verifier::opaque]
pub open spec fn bfs_inv(
    atm: Map<usize, Vec<usize>>,
    nodes: Seq<Node>,
    explored: Seq<usize>,
    source: usize,
) -> bool {
    &&& nodes.len() >= 1
    &&& nodes[0].actor_id == source
    &&& nodes[0].parent_index is None
    &&& nodes[0].movie_id is None
    &&& parents_before(nodes)
    &&& forall|i: int| 1 <= i < nodes.len() ==> (#[trigger] nodes[i]).parent_index is Some
    &&& nodes_linked(atm, nodes)
    &&& explored.no_duplicates()
    &&& forall|a: usize| #[trigger] explored.contains(a) ==> atm.contains_key(a)
    &&& forall|i: int| 0 <= i < nodes.len() ==> explored.contains((#[trigger] nodes[i]).actor_id)
    &&& forall|a: usize| #[trigger] explored.contains(a) ==> exists|i: int|
        0 <= i < nodes.len() && (#[trigger] nodes[i]).actor_id == a
    &&& forall|i: int, j: int|
        #![trigger node_depth(nodes, i), node_depth(nodes, j)]
        0 <= i <= j < nodes.len() ==> node_depth(nodes, i) <= node_depth(nodes, j)
}

/// Every actor adjacent to the actor of an already expanded node has a node
/// of its own, at most one level deeper.
#[verifier::opaque]
pub open spec fn processed_closed(atm: Map<usize, Vec<usize>>, nodes: Seq<Node>, h: int) -> bool {
    forall|i: int, m: usize, b: usize|
        0 <= i < h && #[trigger] costar_link(atm, nodes[i].actor_id, m, b) ==> exists|k: int|
            0 <= k < nodes.len() && (#[trigger] nodes[k]).actor_id == b && node_depth(nodes, k)
                <= node_depth(nodes, i) + 1
}

/// Extending the arena changes no existing node's depth or chain.
proof fn lemma_arena_prefix(a: Seq<Node>, b: Seq<Node>, i: int)
    requires
        a.len() <= b.len(),
        forall|j: int| 0 <= j < a.len() ==> a[j] == b[j],
        0 <= i < a.len(),
    ensures
        node_depth(b, i) == node_depth(a, i),
        chain_to_root(b, i) == chain_to_root(a, i),
    decreases i,
{
    match a[i].parent_index {
        Some(p) => {
            if p < i {
                lemma_arena_prefix(a, b, p as int);
            }
        },
        None => {},
    }
}

/// The pointwise form of arena extension: all old depths and chains persist.
proof fn lemma_arena_prefix_all(a: Seq<Node>, b: Seq<Node>)
    requires
        a.len() <= b.len(),
        forall|j: int| 0 <= j < a.len() ==> a[j] == b[j],
    ensures
        forall|i: int|
            #![trigger node_depth(b, i)]
            #![trigger chain_to_root(b, i)]
            0 <= i < a.len() ==> node_depth(b, i) == node_depth(a, i) && chain_to_root(b, i)
                == chain_to_root(a, i),
{
    assert forall|i: int|
        #![trigger node_depth(b, i)]
        #![trigger chain_to_root(b, i)]
        0 <= i < a.len() implies node_depth(b, i) == node_depth(a, i) && chain_to_root(b, i)
        == chain_to_root(a, i) by {
        lemma_arena_prefix(a, b, i);
    }
}

/// A discovered list without repetition, all of whose entries are keys of
/// the index, is no longer than the index's key space.
proof fn lemma_explored_bounded(explored: Seq<usize>, dom: Set<usize>)
    requires
        explored.no_duplicates(),
        forall|a: usize| #[trigger] explored.contains(a) ==> dom.contains(a),
        dom.finite(),
    ensures
        explored.len() <= dom.len(),
{
    explored.unique_seq_to_set();
    assert(explored.to_set().subset_of(dom));
    vstd::set_lib::lemma_len_subset(explored.to_set(), dom);
}

/// The discovered set of a running search never outgrows the index's key
/// space.
proof fn lemma_explored_within(
    atm: Map<usize, Vec<usize>>,
    nodes: Seq<Node>,
    explored: Seq<usize>,
    source: usize,
)
    requires
        bfs_inv(atm, nodes, explored, source),
        atm.dom().finite(),
    ensures
        explored.len() <= atm.dom().len(),
{
    reveal(bfs_inv);
    lemma_explored_bounded(explored, atm.dom());
}

/// In a single-rooted arena whose nodes are linked to their parents, the
/// chain of a node runs from the root to the node, is one longer than the
/// node's depth, and each step shares the recorded movie.
proof fn lemma_chain_props(atm: Map<usize, Vec<usize>>, nodes: Seq<Node>, i: int)
    requires
        parents_before(nodes),
        nodes.len() >= 1,
        nodes[0].parent_index is None,
        forall|j: int| 1 <= j < nodes.len() ==> (#[trigger] nodes[j]).parent_index is Some,
        nodes_linked(atm, nodes),
        0 <= i < nodes.len(),
    ensures
        chain_to_root(nodes, i).len() == node_depth(nodes, i) + 1,
        chain_to_root(nodes, i)[0] == nodes[0],
        chain_to_root(nodes, i)[chain_to_root(nodes, i).len() - 1] == nodes[i],
        forall|t: int| 1 <= t < chain_to_root(nodes, i).len() ==> {
            &&& (#[trigger] chain_to_root(nodes, i)[t]).movie_id is Some
            &&& costar_link(
                atm,
                chain_to_root(nodes, i)[t - 1].actor_id,
                chain_to_root(nodes, i)[t].movie_id->0,
                chain_to_root(nodes, i)[t].actor_id,
            )
        },
    decreases i,
{
    match nodes[i].parent_index {
        None => {
            assert(i == 0);
        },
        Some(p) => {
            lemma_chain_props(atm, nodes, p as int);
            let prev = chain_to_root(nodes, p as int);
            let cur = chain_to_root(nodes, i);
            assert(cur == prev.push(nodes[i]));
            assert forall|t: int| 1 <= t < cur.len() implies {
                &&& (#[trigger] cur[t]).movie_id is Some
                &&& costar_link(atm, cur[t - 1].actor_id, cur[t].movie_id->0, cur[t].actor_id)
            } by {
                if t < prev.len() {
                    assert(cur[t] == prev[t]);
                    assert(cur[t - 1] == prev[t - 1]);
                } else {
                    assert(cur[t] == nodes[i]);
                    assert(cur[t - 1] == nodes[p as int]);
                }
            }
        },
    }
}

/// Any co-star chain out of the source whose hop count does not exceed the
/// depth of the next node awaiting expansion (or any chain at all, once the
/// frontier is exhausted) ends at an actor that already has a node, no
/// deeper than the chain's hop count.
#[verifier::rlimit(50)]
proof fn lemma_chain_reached(
    atm: Map<usize, Vec<usize>>,
    nodes: Seq<Node>,
    h: int,
    source: usize,
    s: Seq<usize>,
)
    requires
        nodes.len() >= 1,
        nodes[0].actor_id == source,
        nodes[0].parent_index is None,
        forall|i: int, j: int|
            #![trigger node_depth(nodes, i), node_depth(nodes, j)]
            0 <= i <= j < nodes.len() ==> node_depth(nodes, i) <= node_depth(nodes, j),
        processed_closed(atm, nodes, h),
        0 <= h <= nodes.len(),
        s.len() >= 1,
        s[0] == source,
        actor_chain(atm, s),
        h == nodes.len() || s.len() - 1 <= node_depth(nodes, h),
    ensures
        exists|k: int|
            0 <= k < nodes.len() && (#[trigger] nodes[k]).actor_id == s[s.len() - 1]
                && node_depth(nodes, k) <= s.len() - 1,
    decreases s.len(),
{
    reveal(processed_closed);
    if s.len() == 1 {
        assert(node_depth(nodes, 0) == 0);
        assert(0 <= 0 < nodes.len() && nodes[0].actor_id == s[s.len() - 1] && node_depth(nodes, 0)
            <= s.len() - 1);
    } else {
        let s0 = s.drop_last();
        assert(s0.len() == s.len() - 1);
        assert(actor_chain(atm, s0)) by {
            assert forall|i: int| 1 <= i < s0.len() implies #[trigger] adjacent(
                atm,
                s0[i - 1],
                s0[i],
            ) by {
                assert(adjacent(atm, s[i - 1], s[i]));
            }
        }
        lemma_chain_reached(atm, nodes, h, source, s0);
        let k1 = choose|k: int|
            0 <= k < nodes.len() && (#[trigger] nodes[k]).actor_id == s0[s0.len() - 1]
                && node_depth(nodes, k) <= s0.len() - 1;
        assert(k1 < h) by {
            if h < nodes.len() && k1 >= h {
                assert(node_depth(nodes, h) <= node_depth(nodes, k1));
            }
        }
        assert(adjacent(atm, s[s.len() - 2], s[s.len() - 1]));
        let m = choose|m: usize| #[trigger] costar_link(atm, s[s.len() - 2], m, s[s.len() - 1]);
        assert(costar_link(atm, nodes[k1].actor_id, m, s[s.len() - 1]));
        let k2 = choose|k: int|
            0 <= k < nodes.len() && (#[trigger] nodes[k]).actor_id == s[s.len() - 1]
                && node_depth(nodes, k) <= node_depth(nodes, k1) + 1;
        assert(node_depth(nodes, k2) <= s.len() - 1);
    }
}

/// A returned path is well formed: it starts at the source with no incoming
/// movie, ends at the target, and every later node shares its recorded movie
/// with the node before it.
pub open spec fn valid_path(
    atm: Map<usize, Vec<usize>>,
    path: Seq<Node>,
    src: usize,
    tgt: usize,
) -> bool {
    &&& path.len() >= 2
    &&& path[0].actor_id == src
    &&& path[0].movie_id is None
    &&& path[path.len() - 1].actor_id == tgt
    &&& forall|t: int| 1 <= t < path.len() ==> {
        &&& (#[trigger] path[t]).movie_id is Some
        &&& costar_link(atm, path[t - 1].actor_id, path[t].movie_id->0, path[t].actor_id)
    }
}

/// Appending a child below position h keeps the arena well formed, links it
/// through its recorded movie, and gives it depth one past its parent while
/// all earlier depths persist.
proof fn lemma_extend_arena(
    atm: Map<usize, Vec<usize>>,
    nodes_a: Seq<Node>,
    nb: Node,
    h: usize,
    d: int,
    pa: usize,
)
    requires
        parents_before(nodes_a),
        nodes_a.len() >= 1,
        nodes_a[0].parent_index is None,
        forall|i: int| 1 <= i < nodes_a.len() ==> (#[trigger] nodes_a[i]).parent_index is Some,
        nodes_linked(atm, nodes_a),
        (h as int) < nodes_a.len(),
        nodes_a[h as int].actor_id == pa,
        node_depth(nodes_a, h as int) == d,
        nb.parent_index == Some(h),
        nb.movie_id matches Some(m) && costar_link(atm, pa, m, nb.actor_id),
    ensures
        parents_before(nodes_a.push(nb)),
        nodes_a.push(nb)[0].parent_index is None,
        forall|i: int|
            1 <= i < nodes_a.push(nb).len() ==> (#[trigger] nodes_a.push(
                nb,
            )[i]).parent_index is Some,
        nodes_linked(atm, nodes_a.push(nb)),
        node_depth(nodes_a.push(nb), nodes_a.len() as int) == d + 1,
        forall|i: int|
            #![trigger node_depth(nodes_a.push(nb), i)]
            0 <= i < nodes_a.len() ==> node_depth(nodes_a.push(nb), i) == node_depth(nodes_a, i),
{
    let cur = nodes_a.push(nb);
    lemma_arena_prefix_all(nodes_a, cur);
    assert(cur[nodes_a.len() as int] == nb);
    assert(node_depth(cur, nodes_a.len() as int) == node_depth(cur, h as int) + 1);
    assert(nodes_linked(atm, cur)) by {
        assert forall|i: int| 1 <= i < cur.len() implies {
            &&& (#[trigger] cur[i]).movie_id is Some
            &&& cur[i].parent_index is Some
            &&& costar_link(
                atm,
                cur[cur[i].parent_index->0 as int].actor_id,
                cur[i].movie_id->0,
                cur[i].actor_id,
            )
        } by {
            if i < nodes_a.len() {
                assert(nodes_a[i].parent_index->0 < i);
            } else {
                assert(cur[i] == nb);
                assert(cur[h as int].actor_id == pa);
            }
        }
    }
}

/// Discovering one fresh child of the node at position h preserves the
/// whole search invariant, keeps the expanded prefix closed, and bounds
/// every depth by one past the parent's.
proof fn lemma_add_child_invs(
    atm: Map<usize, Vec<usize>>,
    nodes_a: Seq<Node>,
    explored_a: Seq<usize>,
    nb: Node,
    h: usize,
    d: int,
    pa: usize,
    source: usize,
    target: usize,
)
    requires
        bfs_inv(atm, nodes_a, explored_a, source),
        (h as int) < nodes_a.len(),
        nodes_a[h as int].actor_id == pa,
        node_depth(nodes_a, h as int) == d,
        forall|i: int| 0 <= i < nodes_a.len() ==> node_depth(nodes_a, i) <= d + 1,
        processed_closed(atm, nodes_a, h as int),
        !explored_a.contains(nb.actor_id),
        nb.parent_index == Some(h),
        nb.movie_id matches Some(m) && costar_link(atm, pa, m, nb.actor_id),
        !explored_a.contains(target),
        nb.actor_id != target,
    ensures
        bfs_inv(atm, nodes_a.push(nb), explored_a.push(nb.actor_id), source),
        processed_closed(atm, nodes_a.push(nb), h as int),
        forall|i: int|
            0 <= i < nodes_a.push(nb).len() ==> node_depth(nodes_a.push(nb), i) <= d + 1,
        node_depth(nodes_a.push(nb), nodes_a.len() as int) == d + 1,
        !explored_a.push(nb.actor_id).contains(target),
{
    reveal(bfs_inv);
    reveal(processed_closed);
    let cur = nodes_a.push(nb);
    let explored_cur = explored_a.push(nb.actor_id);
    let fresh = nodes_a.len() as int;
    lemma_extend_arena(atm, nodes_a, nb, h, d, pa);
    crate::data::lemma_push_no_dup(explored_a, nb.actor_id);
    crate::data::lemma_push_contains(explored_a, nb.actor_id);
    assert(explored_cur[explored_a.len() as int] == nb.actor_id);
    assert(explored_cur.contains(nb.actor_id));
    assert forall|a: usize| #[trigger] explored_cur.contains(a) implies atm.contains_key(a) by {
        if a != nb.actor_id {
            assert(explored_a.contains(a));
        } else {
            assert(nb.movie_id matches Some(m) && costar_link(atm, pa, m, nb.actor_id));
        }
    }
    assert forall|i: int| 0 <= i < cur.len() implies explored_cur.contains(
        (#[trigger] cur[i]).actor_id,
    ) by {
        if i < nodes_a.len() {
            assert(explored_a.contains(nodes_a[i].actor_id));
        }
    }
    assert forall|a: usize| #[trigger] explored_cur.contains(a) implies exists|i: int|
        0 <= i < cur.len() && (#[trigger] cur[i]).actor_id == a by {
        if a == nb.actor_id {
            assert(cur[fresh].actor_id == a);
        } else {
            assert(explored_a.contains(a));
            let i0 = choose|i: int|
                0 <= i < nodes_a.len() && (#[trigger] nodes_a[i]).actor_id == a;
            assert(cur[i0].actor_id == a);
        }
    }
    assert forall|i: int, j: int|
        #![trigger node_depth(cur, i), node_depth(cur, j)]
        0 <= i <= j < cur.len() implies node_depth(cur, i) <= node_depth(cur, j) by {
        if j < nodes_a.len() {
            assert(node_depth(nodes_a, i) <= node_depth(nodes_a, j));
        } else {
            assert(node_depth(cur, j) == d + 1);
            if i < nodes_a.len() {
                assert(node_depth(cur, i) == node_depth(nodes_a, i));
            }
        }
    }
    assert(processed_closed(atm, cur, h as int)) by {
        assert forall|i: int, m: usize, b: usize|
            0 <= i < h as int && #[trigger] costar_link(atm, cur[i].actor_id, m, b) implies exists|kx: int|
            0 <= kx < cur.len() && (#[trigger] cur[kx]).actor_id == b && node_depth(cur, kx)
                <= node_depth(cur, i) + 1 by {
            assert(costar_link(atm, nodes_a[i].actor_id, m, b));
            let kx = choose|kx: int|
                0 <= kx < nodes_a.len() && (#[trigger] nodes_a[kx]).actor_id == b && node_depth(
                    nodes_a,
                    kx,
                ) <= node_depth(nodes_a, i) + 1;
            assert(cur[kx].actor_id == b);
            assert(node_depth(cur, kx) <= node_depth(cur, i) + 1);
        }
    }
    assert forall|i: int| 0 <= i < cur.len() implies node_depth(cur, i) <= d + 1 by {
        if i < nodes_a.len() {
            assert(node_depth(cur, i) == node_depth(nodes_a, i));
        }
    }
}

/// Once every unexplored co-star of the actor at position h has been
/// discovered, the closed prefix extends past h.
proof fn lemma_close_processed(
    atm: Map<usize, Vec<usize>>,
    nodes0: Seq<Node>,
    explored0: Seq<usize>,
    cur: Seq<Node>,
    explored_cur: Seq<usize>,
    neighbours: Seq<Node>,
    h: int,
    d: int,
    pa: usize,
    source: usize,
)
    requires
        bfs_inv(atm, nodes0, explored0, source),
        bfs_inv(atm, cur, explored_cur, source),
        nodes0.len() <= cur.len(),
        forall|j: int| 0 <= j < nodes0.len() ==> cur[j] == nodes0[j],
        0 <= h < nodes0.len(),
        nodes0[h].actor_id == pa,
        node_depth(nodes0, h) == d,
        forall|i: int| 0 <= i < nodes0.len() ==> node_depth(nodes0, i) <= d + 1,
        forall|i: int| 0 <= i < cur.len() ==> node_depth(cur, i) <= d + 1,
        processed_closed(atm, cur, h),
        forall|m: usize, b: usize|
            #[trigger] costar_link(atm, pa, m, b) && !explored0.contains(b) ==> exists|t: int|
                0 <= t < neighbours.len() && #[trigger] neighbours[t].actor_id == b,
        forall|t: int|
            0 <= t < neighbours.len() ==> explored_cur.contains(
                (#[trigger] neighbours[t]).actor_id,
            ),
    ensures
        processed_closed(atm, cur, h + 1),
{
    reveal(bfs_inv);
    reveal(processed_closed);
    lemma_arena_prefix_all(nodes0, cur);
    assert forall|i: int, m: usize, b: usize|
        0 <= i < h + 1 && #[trigger] costar_link(atm, cur[i].actor_id, m, b) implies exists|kx: int|
        0 <= kx < cur.len() && (#[trigger] cur[kx]).actor_id == b && node_depth(cur, kx)
            <= node_depth(cur, i) + 1 by {
        if i == h {
            assert(cur[h].actor_id == pa);
            assert(node_depth(cur, h) == d);
            if explored0.contains(b) {
                let i0 = choose|i0: int|
                    0 <= i0 < nodes0.len() && (#[trigger] nodes0[i0]).actor_id == b;
                assert(cur[i0].actor_id == b);
                assert(node_depth(cur, i0) <= d + 1);
            } else {
                assert(costar_link(atm, pa, m, b));
                let t = choose|t: int|
                    0 <= t < neighbours.len() && #[trigger] neighbours[t].actor_id == b;
                assert(explored_cur.contains(b));
                let kx = choose|kx: int|
                    0 <= kx < cur.len() && (#[trigger] cur[kx]).actor_id == b;
                assert(node_depth(cur, kx) <= d + 1);
            }
        }
    }
}

/// While the node at position h awaits expansion and the target is still
/// undiscovered, no co-star chain reaches the target in fewer than two more
/// nodes than the parent's depth.
proof fn lemma_step_minimality(
    atm: Map<usize, Vec<usize>>,
    nodes0: Seq<Node>,
    explored0: Seq<usize>,
    h: int,
    source: usize,
    target: usize,
)
    requires
        bfs_inv(atm, nodes0, explored0, source),
        processed_closed(atm, nodes0, h),
        0 <= h < nodes0.len(),
        !explored0.contains(target),
    ensures
        forall|s: Seq<usize>| #[trigger] connects(atm, s, source, target) ==> s.len() >= node_depth(
            nodes0,
            h,
        ) + 2,
{
    reveal(bfs_inv);
    let d = node_depth(nodes0, h) as int;
    assert forall|s: Seq<usize>| #[trigger] connects(atm, s, source, target) implies s.len() >= d
        + 2 by {
        if s.len() - 1 <= d {
            lemma_chain_reached(atm, nodes0, h, source, s);
            let kk = choose|kk: int|
                0 <= kk < nodes0.len() && (#[trigger] nodes0[kk]).actor_id == s[s.len() - 1]
                    && node_depth(nodes0, kk) <= s.len() - 1;
            assert(explored0.contains(nodes0[kk].actor_id));
            assert(false);
        }
    }
}

/// Once the frontier has emptied with the target undiscovered, no co-star
/// chain connects the source to the target at all.
proof fn lemma_unreachable(
    atm: Map<usize, Vec<usize>>,
    nodes: Seq<Node>,
    explored: Seq<usize>,
    source: usize,
    target: usize,
)
    requires
        bfs_inv(atm, nodes, explored, source),
        processed_closed(atm, nodes, nodes.len() as int),
        !explored.contains(target),
    ensures
        !connected(atm, source, target),
{
    reveal(bfs_inv);
    assert forall|s: Seq<usize>| !#[trigger] connects(atm, s, source, target) by {
        if connects(atm, s, source, target) {
            lemma_chain_reached(atm, nodes, nodes.len() as int, source, s);
            let kk = choose|kk: int|
                0 <= kk < nodes.len() && (#[trigger] nodes[kk]).actor_id == s[s.len() - 1]
                    && node_depth(nodes, kk) <= s.len() - 1;
            assert(explored.contains(nodes[kk].actor_id));
            assert(false);
        }
    }
    if connected(atm, source, target) {
        let s = choose|s: Seq<usize>| connects(atm, s, source, target);
        assert(false);
    }
}

/// One discovery step of the search: marks a fresh co-star of the node at
/// the just-dequeued position and enqueues a node for it, preserving the
/// whole search invariant.
fn bfs_add_child(
    graph: &mut Graph,
    nb: Node,
    node_index: usize,
    Ghost(atm): Ghost<Map<usize, Vec<usize>>>,
    Ghost(nodes0): Ghost<Seq<Node>>,
    Ghost(explored0): Ghost<Seq<usize>>,
    Ghost(pa): Ghost<usize>,
    Ghost(d): Ghost<int>,
    Ghost(source): Ghost<usize>,
    Ghost(target): Ghost<usize>,
)
    requires
        bfs_inv(atm, old(graph).nodes@, old(graph).explored@, source),
        (node_index as int) < nodes0.len(),
        nodes0.len() <= old(graph).nodes@.len(),
        forall|j: int| 0 <= j < nodes0.len() ==> old(graph).nodes@[j] == nodes0[j],
        nodes0[node_index as int].actor_id == pa,
        node_depth(nodes0, node_index as int) == d,
        forall|i: int|
            0 <= i < old(graph).nodes@.len() ==> node_depth(old(graph).nodes@, i) <= d + 1,
        processed_closed(atm, old(graph).nodes@, node_index as int),
        !old(graph).explored@.contains(nb.actor_id),
        nb.parent_index == Some(node_index),
        nb.movie_id matches Some(m) && costar_link(atm, pa, m, nb.actor_id),
        !old(graph).explored@.contains(target),
        nb.actor_id != target,
        old(graph).frontier@.len() == old(graph).nodes@.len() - (node_index as int + 1),
        forall|j: int|
            0 <= j < old(graph).frontier@.len() ==> old(graph).frontier@[j] == node_index as int
                + 1 + j,
        forall|j: int| 0 <= j < explored0.len() ==> old(graph).explored@[j] == explored0[j],
        old(graph).explored@.len() - explored0.len() == old(graph).nodes@.len() - nodes0.len(),
    ensures
        final(graph).nodes@ == old(graph).nodes@.push(nb),
        final(graph).explored@ == old(graph).explored@.push(nb.actor_id),
        bfs_inv(atm, final(graph).nodes@, final(graph).explored@, source),
        processed_closed(atm, final(graph).nodes@, node_index as int),
        forall|i: int|
            0 <= i < final(graph).nodes@.len() ==> node_depth(final(graph).nodes@, i) <= d + 1,
        final(graph).frontier@.len() == final(graph).nodes@.len() - (node_index as int + 1),
        forall|j: int|
            0 <= j < final(graph).frontier@.len() ==> final(graph).frontier@[j] == node_index as int
                + 1 + j,
        forall|j: int| 0 <= j < explored0.len() ==> final(graph).explored@[j] == explored0[j],
        final(graph).explored@.len() - explored0.len() == final(graph).nodes@.len()
            - nodes0.len(),
        !final(graph).explored@.contains(target),
        final(graph).explored@.contains(nb.actor_id),
        forall|a: usize|
            old(graph).explored@.contains(a) ==> final(graph).explored@.contains(a),
{
    let ghost nodes_a = graph.nodes@;
    let ghost explored_a = graph.explored@;
    let ghost frontier_a = graph.frontier@;
    proof {
        lemma_arena_prefix(nodes0, nodes_a, node_index as int);
        lemma_add_child_invs(
            atm,
            nodes_a,
            explored_a,
            nb,
            node_index,
            d,
            pa,
            source,
            target,
        );
    }
    graph.explored.push(nb.actor_id);
    graph.add_node(nb);
    proof {
        crate::data::lemma_push_contains(explored_a, nb.actor_id);
        assert(vstd::std_specs::vec::spec_vec_len(&graph.nodes) == graph.nodes@.len());
        assert(graph.nodes@ == nodes_a.push(nb));
        assert(graph.explored@ == explored_a.push(nb.actor_id));
        assert(graph.explored@.contains(nb.actor_id)) by {
            assert(graph.explored@[explored_a.len() as int] == nb.actor_id);
        }
        assert forall|j: int|
            0 <= j < graph.frontier@.len() implies graph.frontier@[j] == node_index as int + 1
            + j by {
            if j < frontier_a.len() {
                assert(graph.frontier@[j] == frontier_a[j]);
            } else {
                assert(graph.frontier@[j] == nodes_a.len());
            }
        }
    }
}

/// Breadth-first search for a shortest chain of shared movie roles from the
/// source actor to the target actor. The frontier is served in FIFO order
/// and candidate children are scanned for the target before they are
/// enqueued, so the first match found closes a minimum-length path. Which of
/// several minimum-length paths comes back is not specified. Equal
/// endpoints are the caller's short-circuit case and are excluded here.
#[verifier::rlimit(100)]
pub fn shortest_path(
    source_actor_id: usize,
    target_actor_id: usize,
    movie_db: &MovieDB,
) -> (r: Result<Vec<Node>, &'static str>)
    requires
        movie_db.wf(),
        movie_db.actor_to_movies@.contains_key(source_actor_id),
        movie_db.actor_to_movies@.contains_key(target_actor_id),
        source_actor_id != target_actor_id,
    ensures
        match r {
            Ok(path) => is_shortest_path(
                movie_db.actor_to_movies@,
                path@,
                source_actor_id,
                target_actor_id,
            ),
            Err(m) => !connected(movie_db.actor_to_movies@, source_actor_id, target_actor_id)
                && m@ == "no path found"@,
        },
{
    let ghost atm = movie_db.actor_to_movies@;
    let mut graph = Graph::new();
    let source_node = Node::new(source_actor_id, None, None);
    graph.add_node(source_node);
    graph.explored.push(source_actor_id);
    proof {
        assert(graph.explored@ =~= seq![source_actor_id]);
        assert(graph.explored@[0] == source_actor_id);
        assert(graph.explored@.contains(source_actor_id));
        assert forall|a: usize| #[trigger] graph.explored@.contains(a) implies a
            == source_actor_id by {
            let j = choose|j: int| 0 <= j < graph.explored@.len() && graph.explored@[j] == a;
        }
        assert(graph.nodes@[0].actor_id == source_actor_id);
        assert(bfs_inv(atm, graph.nodes@, graph.explored@, source_actor_id)) by {
            reveal(bfs_inv);
        }
        assert(processed_closed(atm, graph.nodes@, 0)) by {
            reveal(processed_closed);
        }
        lemma_explored_bounded(graph.explored@, atm.dom());
    }
    while !graph.frontier.is_empty()
        invariant
            movie_db.wf(),
            atm == movie_db.actor_to_movies@,
            atm.contains_key(source_actor_id),
            atm.contains_key(target_actor_id),
            source_actor_id != target_actor_id,
            bfs_inv(atm, graph.nodes@, graph.explored@, source_actor_id),
            graph.frontier@.len() <= graph.nodes@.len(),
            forall|j: int|
                0 <= j < graph.frontier@.len() ==> graph.frontier@[j] == graph.nodes@.len()
                    - graph.frontier@.len() + j,
            processed_closed(atm, graph.nodes@, graph.nodes@.len() - graph.frontier@.len()),
            forall|i: int, j: int|
                #![trigger node_depth(graph.nodes@, i), node_depth(graph.nodes@, j)]
                0 <= i < graph.nodes@.len() && graph.nodes@.len() - graph.frontier@.len() <= j
                    < graph.nodes@.len() ==> node_depth(graph.nodes@, i) <= node_depth(
                    graph.nodes@,
                    j,
                ) + 1,
            !graph.explored@.contains(target_actor_id),
            graph.explored@.len() <= atm.dom().len(),
        decreases atm.dom().len() - graph.explored@.len(), graph.frontier@.len(),
    {
        let ghost nodes0 = graph.nodes@;
        let ghost explored0 = graph.explored@;
        let ghost h = nodes0.len() - graph.frontier@.len();
        let ghost d: int = node_depth(nodes0, h) as int;
        proof {
            assert(graph.frontier@[0] == h);
            assert forall|i: int| 0 <= i < nodes0.len() implies node_depth(nodes0, i) <= d + 1 by {
                assert(node_depth(nodes0, i) <= node_depth(nodes0, h) + 1);
            }
        }
        let node_index = graph.frontier.remove(0);
        proof {
            assert(node_index == h);
            assert(graph.explored@.contains(nodes0[h].actor_id) && atm.contains_key(
                nodes0[h].actor_id,
            )) by {
                reveal(bfs_inv);
            }
        }
        let neighbours = graph.get_neighbours(node_index, movie_db);
        let ghost pa = nodes0[h].actor_id;

        let mut found: Option<usize> = None;
        let mut k: usize = 0;
        while k < neighbours.len()
            invariant
                k <= neighbours@.len(),
                match found {
                    Some(fi) => fi < neighbours@.len() && neighbours@[
                        fi as int
                    ].actor_id == target_actor_id,
                    None => forall|t: int|
                        0 <= t < k ==> (#[trigger] neighbours@[t]).actor_id != target_actor_id,
                },
            decreases neighbours@.len() - k,
        {
            if found.is_none() && neighbours[k].actor_id == target_actor_id {
                found = Some(k);
            }
            k += 1;
        }

        match found {
            Some(fi) => {
                let child = neighbours[fi];
                proof {
                    assert(parents_before(nodes0) && nodes0[0].parent_index is None
                        && nodes0[0].movie_id is None && nodes0[0].actor_id == source_actor_id
                        && nodes_linked(atm, nodes0) && (forall|i: int|
                        1 <= i < nodes0.len() ==> (#[trigger] nodes0[i]).parent_index is Some))
                        by {
                        reveal(bfs_inv);
                    }
                    lemma_extend_arena(atm, nodes0, child, node_index, d, pa);
                }
                graph.add_node(child);
                let path = graph.get_path_to_root(graph.nodes.len() - 1);
                proof {
                    let cur = graph.nodes@;
                    let last = cur.len() - 1;
                    assert(cur == nodes0.push(child));
                    assert(cur[last] == child);
                    lemma_chain_props(atm, cur, last);
                    assert(node_depth(cur, last) == d + 1);
                    assert(path@.len() == d + 2);
                    assert(path@[0] == cur[0]);
                    assert(path@[path@.len() - 1] == cur[last]);
                    assert(valid_path(atm, path@, source_actor_id, target_actor_id));
                    lemma_step_minimality(
                        atm,
                        nodes0,
                        explored0,
                        h,
                        source_actor_id,
                        target_actor_id,
                    );
                }
                return Ok(path);
            },
            None => {
                let mut k2: usize = 0;
                while k2 < neighbours.len()
                    invariant
                        k2 <= neighbours@.len(),
                        h == node_index as int,
                        0 <= h < nodes0.len(),
                        nodes0[h].actor_id == pa,
                        node_depth(nodes0, h) == d,
                        forall|t: int| #![trigger neighbours@[t]] 0 <= t < neighbours@.len() ==> {
                            &&& neighbours@[t].parent_index == Some(node_index)
                            &&& neighbours@[t].movie_id matches Some(m) && costar_link(
                                atm,
                                pa,
                                m,
                                neighbours@[t].actor_id,
                            )
                            &&& !explored0.contains(neighbours@[t].actor_id)
                            &&& neighbours@[t].actor_id != target_actor_id
                        },
                        bfs_inv(atm, graph.nodes@, graph.explored@, source_actor_id),
                        nodes0.len() <= graph.nodes@.len(),
                        forall|j: int| 0 <= j < nodes0.len() ==> graph.nodes@[j] == nodes0[j],
                        graph.frontier@.len() == graph.nodes@.len() - (h + 1),
                        forall|j: int|
                            0 <= j < graph.frontier@.len() ==> graph.frontier@[j] == h + 1 + j,
                        graph.explored@.len() - explored0.len() == graph.nodes@.len()
                            - nodes0.len(),
                        forall|j: int|
                            0 <= j < explored0.len() ==> graph.explored@[j] == explored0[j],
                        processed_closed(atm, graph.nodes@, h),
                        forall|i: int|
                            0 <= i < graph.nodes@.len() ==> node_depth(graph.nodes@, i) <= d + 1,
                        forall|t: int|
                            0 <= t < k2 ==> graph.explored@.contains(
                                (#[trigger] neighbours@[t]).actor_id,
                            ),
                        !graph.explored@.contains(target_actor_id),
                    decreases neighbours@.len() - k2,
                {
                    let nb = neighbours[k2];
                    if !contains_id(&graph.explored, nb.actor_id) {
                        bfs_add_child(
                            &mut graph,
                            nb,
                            node_index,
                            Ghost(atm),
                            Ghost(nodes0),
                            Ghost(explored0),
                            Ghost(pa),
                            Ghost(d),
                            Ghost(source_actor_id),
                            Ghost(target_actor_id),
                        );
                    }
                    k2 += 1;
                }
                proof {
                    let cur = graph.nodes@;
                    lemma_arena_prefix(nodes0, cur, h);
                    lemma_close_processed(
                        atm,
                        nodes0,
                        explored0,
                        cur,
                        graph.explored@,
                        neighbours@,
                        h,
                        d,
                        pa,
                        source_actor_id,
                    );
                    assert forall|i: int, j: int|
                        #![trigger node_depth(cur, i), node_depth(cur, j)]
                        0 <= i < cur.len() && cur.len() - graph.frontier@.len() <= j
                            < cur.len() implies node_depth(cur, i) <= node_depth(cur, j) + 1 by {
                        reveal(bfs_inv);
                        assert(node_depth(cur, h) <= node_depth(cur, j));
                        assert(node_depth(cur, i) <= d + 1);
                    }
                    lemma_explored_within(atm, cur, graph.explored@, source_actor_id);
                }
            },
        }
    }
    proof {
        lemma_unreachable(
            atm,
            graph.nodes@,
            graph.explored@,
            source_actor_id,
            target_actor_id,
        );
    }
    Err("no path found")
}

/// The caller-facing search: equal endpoints short-circuit to a zero-length
/// path holding only the source actor, without entering the engine's search
/// loop; distinct endpoints run the breadth-first engine.
pub fn find_shortest_path(
    source_actor_id: usize,
    target_actor_id: usize,
    movie_db: &MovieDB,
) -> (r: Result<Vec<Node>, &'static str>)
    requires
        movie_db.wf(),
        movie_db.actor_to_movies@.contains_key(source_actor_id),
        movie_db.actor_to_movies@.contains_key(target_actor_id),
    ensures
        source_actor_id == target_actor_id ==> (r matches Ok(path) && path@.len() == 1
            && path@[0].actor_id == source_actor_id && path@[0].movie_id is None),
        source_actor_id != target_actor_id ==> match r {
            Ok(path) => is_shortest_path(
                movie_db.actor_to_movies@,
                path@,
                source_actor_id,
                target_actor_id,
            ),
            Err(m) => !connected(movie_db.actor_to_movies@, source_actor_id, target_actor_id)
                && m@ == "no path found"@,
        },
{
    if source_actor_id == target_actor_id {
        let mut path: Vec<Node> = Vec::new();
        path.push(Node::new(source_actor_id, None, None));
        Ok(path)
    } else {
        shortest_path(source_actor_id, target_actor_id, movie_db)
    }
}

/// Law: a well-formed returned path is itself a co-star chain from the
/// source to the target. Together with the minimality clause of
/// `is_shortest_path`, the length of a returned path therefore equals the
/// least length over all connecting chains.
pub proof fn lemma_path_is_chain(
    atm: Map<usize, Vec<usize>>,
    path: Seq<Node>,
    src: usize,
    tgt: usize,
)
    requires
        valid_path(atm, path, src, tgt),
    ensures
        connects(atm, path.map_values(|n: Node| n.actor_id), src, tgt),
{
    let s = path.map_values(|n: Node| n.actor_id);
    assert forall|i: int| 1 <= i < s.len() implies #[trigger] adjacent(atm, s[i - 1], s[i]) by {
        assert(path[i].movie_id is Some);
        assert(costar_link(atm, path[i - 1].actor_id, path[i].movie_id->0, path[i].actor_id));
        assert(costar_link(atm, s[i - 1], path[i].movie_id->0, s[i]));
    }
}

/// A returned path is well formed and no co-star chain between the two
/// actors has fewer nodes.
pub open spec fn is_shortest_path(
    atm: Map<usize, Vec<usize>>,
    path: Seq<Node>,
    src: usize,
    tgt: usize,
) -> bool {
    &&& valid_path(atm, path, src, tgt)
    &&& forall|s: Seq<usize>| #[trigger] connects(atm, s, src, tgt) ==> s.len() >= path.len()
}

} // verus!
