use std::collections::{HashMap, HashSet};
use std::hash::Hash;
use vstd::pervasive::strictly_cloned;
use vstd::prelude::*;
use vstd::std_specs::hash::obeys_key_model;

verus! {

broadcast use vstd::std_specs::hash::group_hash_axioms;

/// Cloning a `Node` gives back an equal value.
pub open spec fn clone_is_exact<Node: Clone>() -> bool {
    forall|a: Node, b: Node| #[trigger] strictly_cloned(a, b) ==> a == b
}

/// The arcs that an adjacency map stores: `(s, t)` for every `t` in the set
/// of `s`.
pub open spec fn arcs_of<Node>(edges: Map<Node, HashSet<Node>>) -> Set<(Node, Node)> {
    Set::new(|p: (Node, Node)| edges.contains_key(p.0) && edges[p.0]@.contains(p.1))
}

/// Lists the clones of the elements of a set, each once.
fn set_to_vec<Node: Clone + Eq + Hash>(set: &HashSet<Node>) -> (r: Vec<Node>)
    requires
        obeys_key_model::<Node>(),
        clone_is_exact::<Node>(),
    ensures
        r@.no_duplicates(),
        r@.to_set() == set@,
{
    let mut r: Vec<Node> = Vec::new();
    for n in it: set.iter()
        invariant
            obeys_key_model::<Node>(),
            clone_is_exact::<Node>(),
            it.seq().unref().to_set() == set@,
            it.seq().no_duplicates(),
            r@ == it.seq().take(it.index() as int).unref(),
            it.index() == it.seq().len() ==> r@.no_duplicates() && r@.to_set() == set@,
    {
        let ghost k = it.index();
        assert(*n == it.seq()[k]);
        let c = n.clone();
        assert(strictly_cloned(*n, c));
        r.push(c);
        assert(it.seq().take(k + 1) == it.seq().take(k).push(n));
        assert(r@ =~= it.seq().take(k + 1).unref());
        assert(k + 1 == it.seq().len() ==> it.seq().take(k + 1) =~= it.seq());
    }
    r
}

/// The nodes that an adjacency map lists `target` under.
pub open spec fn sources_of<Node>(edges: Map<Node, HashSet<Node>>, target: Node) -> Set<Node> {
    Set::new(|s: Node| edges.contains_key(s) && edges[s]@.contains(target))
}

/// The nodes that an adjacency map lists under `source`.
pub open spec fn targets_of<Node>(edges: Map<Node, HashSet<Node>>, source: Node) -> Set<Node> {
    Set::new(|t: Node| edges.contains_key(source) && edges[source]@.contains(t))
}

/// A graph whose vertices carry values and whose edges join pairs of nodes.
///
/// Vertices and edges are kept apart: an edge may name a node that has no
/// value, and removing a vertex leaves its edges.
pub trait Graph<Node: Clone, ValueType>: Sized {
    /// The value of each vertex.
    spec fn vertex_values(&self) -> Map<Node, ValueType>;

    /// The edges as they were added, each from its first node to its second.
    spec fn edge_set(&self) -> Set<(Node, Node)>;

    /// Whether the graph has an edge from `source` to `target`.
    spec fn joins(&self, source: Node, target: Node) -> bool;

    /// Tests whether there is an edge from `source` to `target`.
    fn adjacent(&self, source: Node, target: Node) -> (r: bool)
        requires
            obeys_key_model::<Node>(),
        ensures
            r == self.joins(source, target),
    ;

    /// Lists, once each and in no particular order, the nodes that `source`
    /// has an edge to.
    fn neighbours(&self, source: Node) -> (r: Vec<Node>)
        requires
            obeys_key_model::<Node>(),
            clone_is_exact::<Node>(),
        ensures
            r@.no_duplicates(),
            r@.to_set() == Set::new(|t: Node| self.joins(source, t)),
    ;

    /// Adds a vertex, or replaces the value of one.
    fn add_vertex(&mut self, node: Node, value: ValueType)
        requires
            obeys_key_model::<Node>(),
        ensures
            final(self).vertex_values() == old(self).vertex_values().insert(node, value),
            final(self).edge_set() == old(self).edge_set(),
    ;

    /// Removes a vertex and its value; its edges stay.
    fn remove_vertex(&mut self, node: Node)
        requires
            obeys_key_model::<Node>(),
        ensures
            final(self).vertex_values() == old(self).vertex_values().remove(node),
            final(self).edge_set() == old(self).edge_set(),
    ;

    /// Adds an edge from `source` to `target`.
    fn add_edge(&mut self, source: Node, target: Node)
        requires
            obeys_key_model::<Node>(),
        ensures
            final(self).vertex_values() == old(self).vertex_values(),
            final(self).edge_set() == old(self).edge_set().insert((source, target)),
    ;

    /// Removes the edge that was added from `source` to `target`, if any.
    fn remove_edge(&mut self, source: Node, target: Node)
        requires
            obeys_key_model::<Node>(),
        ensures
            final(self).vertex_values() == old(self).vertex_values(),
            final(self).edge_set() == old(self).edge_set().remove((source, target)),
    ;

    /// The value of a vertex, if it is one.
    fn get_vertex_value(&self, node: Node) -> (r: Option<ValueType>)
        requires
            obeys_key_model::<Node>(),
        ensures
            r == (if self.vertex_values().contains_key(node) {
                Some(self.vertex_values()[node])
            } else {
                None
            }),
    ;

    /// Replaces the value of a vertex; does nothing to a node that is not one.
    fn set_vertex_value(&mut self, node: Node, value: ValueType)
        requires
            obeys_key_model::<Node>(),
        ensures
            final(self).vertex_values() == (if old(self).vertex_values().contains_key(node) {
                old(self).vertex_values().insert(node, value)
            } else {
                old(self).vertex_values()
            }),
            final(self).edge_set() == old(self).edge_set(),
    ;
}

/// The edge set after the set under `source` had `target` added.
proof fn lemma_arcs_insert<Node>(
    before: Map<Node, HashSet<Node>>,
    after: Map<Node, HashSet<Node>>,
    source: Node,
    target: Node,
)
    requires
        after == before.insert(source, after[source]),
        after[source]@ == (if before.contains_key(source) {
            before[source]@
        } else {
            Set::empty()
        }).insert(target),
    ensures
        arcs_of(after) == arcs_of(before).insert((source, target)),
{
    assert(arcs_of(after) =~= arcs_of(before).insert((source, target)));
}

/// The edge set after the set under `source` had `target` taken out.
proof fn lemma_arcs_remove<Node>(
    before: Map<Node, HashSet<Node>>,
    after: Map<Node, HashSet<Node>>,
    source: Node,
    target: Node,
)
    requires
        before.contains_key(source),
        after == before.insert(source, after[source]),
        after[source]@ == before[source]@.remove(target),
    ensures
        arcs_of(after) == arcs_of(before).remove((source, target)),
{
    assert(arcs_of(after) =~= arcs_of(before).remove((source, target)));
}

/// Adds `target` to the set that `edges` keeps under `source`.
fn insert_arc<Node: Eq + Hash>(edges: &mut HashMap<Node, HashSet<Node>>, source: Node, target: Node)
    requires
        obeys_key_model::<Node>(),
    ensures
        arcs_of(final(edges)@) == arcs_of(old(edges)@).insert((source, target)),
{
    let ghost before = edges@;
    let mut set = match edges.remove(&source) {
        Some(set) => set,
        None => HashSet::new(),
    };
    set.insert(target);
    edges.insert(source, set);
    proof {
        assert(edges@ =~= before.insert(source, edges@[source]));
        lemma_arcs_insert(before, edges@, source, target);
    }
}

/// Takes `target` out of the set that `edges` keeps under `source`.
fn remove_arc<Node: Eq + Hash>(edges: &mut HashMap<Node, HashSet<Node>>, source: Node, target: Node)
    requires
        obeys_key_model::<Node>(),
    ensures
        arcs_of(final(edges)@) == arcs_of(old(edges)@).remove((source, target)),
{
    let ghost before = edges@;
    match edges.remove(&source) {
        Some(set) => {
            let mut set = set;
            set.remove(&target);
            edges.insert(source, set);
            proof {
                assert(edges@ =~= before.insert(source, edges@[source]));
                lemma_arcs_remove(before, edges@, source, target);
            }
        },
        None => {
            assert(arcs_of(edges@) =~= arcs_of(before).remove((source, target)));
        },
    }
}

/// Whether `edges` keeps `target` under `source`.
fn has_arc<Node: Eq + Hash>(edges: &HashMap<Node, HashSet<Node>>, source: &Node, target: &Node) -> (r:
    bool)
    requires
        obeys_key_model::<Node>(),
    ensures
        r == arcs_of(edges@).contains((*source, *target)),
{
    match edges.get(source) {
        Some(set) => set.contains(target),
        None => false,
    }
}

/// The value of `node` in `vertices`, if any.
fn value_of<Node: Eq + Hash, ValueType: Copy>(vertices: &HashMap<Node, ValueType>, node: &Node) -> (r:
    Option<ValueType>)
    requires
        obeys_key_model::<Node>(),
    ensures
        r == (if vertices@.contains_key(*node) {
            Some(vertices@[*node])
        } else {
            None
        }),
{
    match vertices.get(node) {
        Some(v) => Some(*v),
        None => None,
    }
}

/// Replaces the value of `node` in `vertices` when it has one.
fn replace_value<Node: Eq + Hash, ValueType>(
    vertices: &mut HashMap<Node, ValueType>,
    node: Node,
    value: ValueType,
)
    requires
        obeys_key_model::<Node>(),
    ensures
        final(vertices)@ == (if old(vertices)@.contains_key(node) {
            old(vertices)@.insert(node, value)
        } else {
            old(vertices)@
        }),
{
    if vertices.contains_key(&node) {
        vertices.insert(node, value);
    }
}

/// A graph whose edges have a direction: an edge from `A` to `B` does not
/// join `B` to `A`.
pub struct DiGraph<Node, ValueType> {
    vertices: HashMap<Node, ValueType>,
    edges: HashMap<Node, HashSet<Node>>,
}

impl<Node, ValueType> DiGraph<Node, ValueType> {
    /// The value of each vertex.
    pub closed spec fn values(&self) -> Map<Node, ValueType> {
        self.vertices@
    }

    /// The edges, each from its first node to its second.
    pub closed spec fn arcs(&self) -> Set<(Node, Node)> {
        arcs_of(self.edges@)
    }

    /// An empty directed graph.
    pub fn new() -> (r: Self)
        ensures
            r.values() == Map::<Node, ValueType>::empty(),
            r.arcs() == Set::<(Node, Node)>::empty(),
    {
        let r = DiGraph { vertices: HashMap::new(), edges: HashMap::new() };
        assert(r.arcs() =~= Set::<(Node, Node)>::empty());
        r
    }
}

impl<Node, ValueType> Default for DiGraph<Node, ValueType> {
    /// An empty directed graph.
    fn default() -> (r: Self)
        ensures
            r.values() == Map::<Node, ValueType>::empty(),
            r.arcs() == Set::<(Node, Node)>::empty(),
    {
        Self::new()
    }
}

impl<Node, ValueType> Graph<Node, ValueType> for DiGraph<Node, ValueType> where
    Node: Ord + Hash + Clone,
    ValueType: Copy + Clone,
 {
    open spec fn vertex_values(&self) -> Map<Node, ValueType> {
        self.values()
    }

    open spec fn edge_set(&self) -> Set<(Node, Node)> {
        self.arcs()
    }

    open spec fn joins(&self, source: Node, target: Node) -> bool {
        self.arcs().contains((source, target))
    }

    fn adjacent(&self, source: Node, target: Node) -> (r: bool) {
        has_arc(&self.edges, &source, &target)
    }

    fn neighbours(&self, source: Node) -> (r: Vec<Node>) {
        match self.edges.get(&source) {
            Some(set) => {
                let r = set_to_vec(set);
                assert(set@ =~= Set::new(|t: Node| self.joins(source, t)));
                r
            },
            None => {
                let r: Vec<Node> = Vec::new();
                assert(r@.to_set() =~= Set::new(|t: Node| self.joins(source, t)));
                r
            },
        }
    }

    fn add_vertex(&mut self, node: Node, value: ValueType) {
        self.vertices.insert(node, value);
    }

    fn remove_vertex(&mut self, node: Node) {
        self.vertices.remove(&node);
    }

    fn add_edge(&mut self, source: Node, target: Node) {
        insert_arc(&mut self.edges, source, target);
    }

    fn remove_edge(&mut self, source: Node, target: Node) {
        remove_arc(&mut self.edges, source, target);
    }

    fn get_vertex_value(&self, node: Node) -> (r: Option<ValueType>) {
        value_of(&self.vertices, &node)
    }

    fn set_vertex_value(&mut self, node: Node, value: ValueType) {
        replace_value(&mut self.vertices, node, value);
    }
}

/// Adds to `found` every node that `edges` lists `target` under.
fn collect_sources<Node: Eq + Hash + Clone>(
    edges: &HashMap<Node, HashSet<Node>>,
    target: &Node,
    found: &mut HashSet<Node>,
)
    requires
        obeys_key_model::<Node>(),
        clone_is_exact::<Node>(),
    ensures
        final(found)@ == old(found)@.union(sources_of(edges@, *target)),
{
    let ghost start = found@;
    for entry in it: edges.iter()
        invariant
            obeys_key_model::<Node>(),
            clone_is_exact::<Node>(),
            it.seq().len() == edges@.dom().len(),
            forall|i: int|
                0 <= i < it.seq().len() ==> edges@.contains_key(*it.seq()[i].0) && edges@[*it.seq()[i].0]
                    == *it.seq()[i].1,
            forall|k: Node| #[trigger] edges@.contains_key(k) ==> it.seq().contains((&k, &edges@[k])),
            found@ == start.union(
                Set::new(
                    |s: Node|
                        exists|i: int|
                            0 <= i < it.index() && *it.seq()[i].0 == s && it.seq()[i].1@.contains(
                                *target,
                            ),
                ),
            ),
            it.index() == it.seq().len() ==> found@ == start.union(sources_of(edges@, *target)),
    {
        let ghost k = it.index();
        let ghost before = found@;
        let (s, set) = entry;
        assert(it.seq()[k] == (s, set));
        if set.contains(target) {
            let c = s.clone();
            assert(strictly_cloned(*s, c));
            found.insert(c);
        }
        assert(found@ =~= start.union(
            Set::new(
                |n: Node|
                    exists|i: int|
                        0 <= i < k + 1 && *it.seq()[i].0 == n && it.seq()[i].1@.contains(*target),
            ),
        )) by {
            assert forall|n: Node|
                (exists|i: int|
                    0 <= i < k + 1 && *it.seq()[i].0 == n && it.seq()[i].1@.contains(
                        *target,
                    )) implies found@.contains(n) || start.contains(n) by {
                let i = choose|i: int|
                    0 <= i < k + 1 && *it.seq()[i].0 == n && it.seq()[i].1@.contains(*target);
                if i < k {
                    assert(before.contains(n));
                }
            }
        }
        assert(k + 1 == it.seq().len() ==> found@ =~= start.union(sources_of(edges@, *target))) by {
            if k + 1 == it.seq().len() {
                assert forall|n: Node| #[trigger] sources_of(edges@, *target).contains(n) implies (
                exists|i: int|
                    0 <= i < k + 1 && *it.seq()[i].0 == n && it.seq()[i].1@.contains(
                        *target,
                    )) by {
                    assert(it.seq().contains((&n, &edges@[n])));
                    let i = choose|i: int| 0 <= i < it.seq().len() && it.seq()[i] == (&n, &edges@[n]);
                    assert(*it.seq()[i].0 == n);
                }
            }
        }
    }
}

/// Adds to `found` every element of `set`.
fn collect_all<Node: Eq + Hash + Clone>(set: &HashSet<Node>, found: &mut HashSet<Node>)
    requires
        obeys_key_model::<Node>(),
        clone_is_exact::<Node>(),
    ensures
        final(found)@ == old(found)@.union(set@),
{
    let ghost start = found@;
    for n in it: set.iter()
        invariant
            obeys_key_model::<Node>(),
            clone_is_exact::<Node>(),
            it.seq().unref().to_set() == set@,
            found@ == start.union(it.seq().take(it.index() as int).unref().to_set()),
            it.index() == it.seq().len() ==> found@ == start.union(set@),
    {
        let ghost k = it.index();
        assert(*n == it.seq()[k]);
        let c = n.clone();
        assert(strictly_cloned(*n, c));
        found.insert(c);
        assert(it.seq().take(k + 1) == it.seq().take(k).push(n));
        assert(it.seq().take(k + 1).unref() =~= it.seq().take(k).unref().push(*n));
        let ghost prev = it.seq().take(k).unref();
        assert(prev.push(*n).to_set() =~= prev.to_set().insert(*n)) by {
            assert forall|x: Node| prev.push(*n).contains(x) implies prev.contains(x) || x == *n by {
                let i = choose|i: int| 0 <= i < prev.len() + 1 && prev.push(*n)[i] == x;
                if i < prev.len() {
                    assert(prev[i] == x);
                }
            }
            assert forall|x: Node| prev.contains(x) implies prev.push(*n).contains(x) by {
                let i = choose|i: int| 0 <= i < prev.len() && prev[i] == x;
                assert(prev.push(*n)[i] == x);
            }
            assert(prev.push(*n)[prev.len() as int] == *n);
        }
        assert(found@ =~= start.union(it.seq().take(k + 1).unref().to_set()));
        assert(k + 1 == it.seq().len() ==> it.seq().take(k + 1) =~= it.seq());
    }
}

/// A graph whose edges have no direction: an edge added from `A` to `B`
/// joins `B` to `A` as well.
pub struct UnDiGraph<Node, ValueType> {
    vertices: HashMap<Node, ValueType>,
    edges: HashMap<Node, HashSet<Node>>,
}

impl<Node, ValueType> UnDiGraph<Node, ValueType> {
    /// The value of each vertex.
    pub closed spec fn values(&self) -> Map<Node, ValueType> {
        self.vertices@
    }

    /// The edges, each as it was added.
    pub closed spec fn arcs(&self) -> Set<(Node, Node)> {
        arcs_of(self.edges@)
    }

    /// An empty undirected graph.
    pub fn new() -> (r: Self)
        ensures
            r.values() == Map::<Node, ValueType>::empty(),
            r.arcs() == Set::<(Node, Node)>::empty(),
    {
        let r = UnDiGraph { vertices: HashMap::new(), edges: HashMap::new() };
        assert(r.arcs() =~= Set::<(Node, Node)>::empty());
        r
    }
}

impl<Node, ValueType> Default for UnDiGraph<Node, ValueType> {
    /// An empty undirected graph.
    fn default() -> (r: Self)
        ensures
            r.values() == Map::<Node, ValueType>::empty(),
            r.arcs() == Set::<(Node, Node)>::empty(),
    {
        Self::new()
    }
}

impl<Node, ValueType> Graph<Node, ValueType> for UnDiGraph<Node, ValueType> where
    Node: Ord + Hash + Clone,
    ValueType: Copy + Clone,
 {
    open spec fn vertex_values(&self) -> Map<Node, ValueType> {
        self.values()
    }

    open spec fn edge_set(&self) -> Set<(Node, Node)> {
        self.arcs()
    }

    open spec fn joins(&self, source: Node, target: Node) -> bool {
        self.arcs().contains((source, target)) || self.arcs().contains((target, source))
    }

    fn adjacent(&self, source: Node, target: Node) -> (r: bool) {
        has_arc(&self.edges, &source, &target) || has_arc(&self.edges, &target, &source)
    }

    fn neighbours(&self, source: Node) -> (r: Vec<Node>) {
        let mut found: HashSet<Node> = HashSet::new();
        match self.edges.get(&source) {
            Some(set) => collect_all(set, &mut found),
            None => {},
        }
        assert(found@ =~= targets_of(self.edges@, source));
        collect_sources(&self.edges, &source, &mut found);
        assert(found@ =~= Set::new(|t: Node| self.joins(source, t)));
        set_to_vec(&found)
    }

    fn add_vertex(&mut self, node: Node, value: ValueType) {
        self.vertices.insert(node, value);
    }

    fn remove_vertex(&mut self, node: Node) {
        self.vertices.remove(&node);
    }

    fn add_edge(&mut self, source: Node, target: Node) {
        insert_arc(&mut self.edges, source, target);
    }

    fn remove_edge(&mut self, source: Node, target: Node) {
        remove_arc(&mut self.edges, source, target);
    }

    fn get_vertex_value(&self, node: Node) -> (r: Option<ValueType>) {
        value_of(&self.vertices, &node)
    }

    fn set_vertex_value(&mut self, node: Node, value: ValueType) {
        replace_value(&mut self.vertices, node, value);
    }
}

} // verus!
