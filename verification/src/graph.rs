//! The space: entities and the relations between them.
use crate::ids::{fresh_id, is_random};
use crate::stamp::{now, Timestamp};
use crate::text::same_text;
use petgraph::algo::astar;
use petgraph::graph::{Graph, NodeIndex};
use petgraph::Directed;
use std::collections::HashMap;
use vstd::multiset::Multiset;
use vstd::prelude::*;

verus! {

broadcast use vstd::std_specs::hash::group_hash_axioms;

/// What sort of being an entity is. People, programs, services and events share one space.
#[derive(Clone, Copy, Debug, PartialEq, Eq, Structural)]
pub enum EntityKind {
    Human,
    AI,
    Service,
    Stream,
    Event,
    Data,
}

/// A being that can respond. Vectors are held as the bit patterns of their coordinates.
#[derive(Debug)]
pub struct Entity {
    pub id: u128,
    pub kind: EntityKind,
    pub label: String,
    /// What the entity means. It never changes.
    pub embedding: Option<Vec<u32>>,
    /// What interests have gathered at the entity of late.
    pub activity_vec: Option<Vec<u32>>,
    pub last_active: Timestamp,
    pub expires_at: Option<Timestamp>,
}

/// An entity, as a mathematical value.
#[verifier::ext_equal]
pub struct EntityView {
    pub id: u128,
    pub kind: EntityKind,
    pub label: Seq<char>,
    pub embedding: Option<Seq<u32>>,
    pub activity_vec: Option<Seq<u32>>,
    pub last_active: Timestamp,
    pub expires_at: Option<Timestamp>,
}

/// The coordinates of a vector that may be missing.
pub open spec fn vector_view(v: Option<Vec<u32>>) -> Option<Seq<u32>> {
    match v {
        Some(x) => Some(x@),
        None => None,
    }
}

impl View for Entity {
    type V = EntityView;

    open spec fn view(&self) -> EntityView {
        EntityView {
            id: self.id,
            kind: self.kind,
            label: self.label@,
            embedding: vector_view(self.embedding),
            activity_vec: vector_view(self.activity_vec),
            last_active: self.last_active,
            expires_at: self.expires_at,
        }
    }
}

/// A copy of a vector.
pub fn copy_vector(v: &Vec<u32>) -> (r: Vec<u32>)
    ensures
        r@ == v@,
{
    let r = v.clone();
    proof {
        assert(r@ =~= v@);
    }
    r
}

/// A copy of a vector that may be missing.
pub fn copy_optional_vector(v: &Option<Vec<u32>>) -> (r: Option<Vec<u32>>)
    ensures
        vector_view(r) == vector_view(*v),
{
    match v {
        Some(x) => Some(copy_vector(x)),
        None => None,
    }
}

impl Clone for Entity {
    fn clone(&self) -> (r: Self)
        ensures
            r@ == self@,
    {
        Entity {
            id: self.id,
            kind: self.kind,
            label: self.label.clone(),
            embedding: copy_optional_vector(&self.embedding),
            activity_vec: copy_optional_vector(&self.activity_vec),
            last_active: self.last_active,
            expires_at: self.expires_at,
        }
    }
}

/// An entity as it enters the space: without vectors, and without end.
pub open spec fn newcomer(
    kind: EntityKind,
    label: Seq<char>,
    id: u128,
    at: Timestamp,
) -> EntityView {
    EntityView {
        id,
        kind,
        label,
        embedding: None,
        activity_vec: None,
        last_active: at,
        expires_at: None,
    }
}

impl Entity {
    /// A new entity with a random identifier, active now.
    pub fn new(kind: EntityKind, label: &str) -> (r: Entity)
        ensures
            r@ == newcomer(kind, label@, r.id, r.last_active),
            is_random(r.id),
            r.last_active.plain(),
    {
        Entity::new_at(kind, label, fresh_id(), now())
    }

    /// A new entity with the given identifier, active at the given time.
    pub fn new_at(kind: EntityKind, label: &str, id: u128, at: Timestamp) -> (r: Entity)
        ensures
            r@ == newcomer(kind, label@, id, at),
    {
        Entity {
            id,
            kind,
            label: label.to_owned(),
            embedding: None,
            activity_vec: None,
            last_active: at,
            expires_at: None,
        }
    }
}

/// How strongly one entity relates to another, in units of `1 / UNIT`.
#[derive(Clone, Copy, Debug, PartialEq, Eq, Structural)]
pub struct Relation {
    pub weight: i64,
}

/// The directed graph of the crate `petgraph`, with 32-bit indices.
#[verifier::external_type_specification]
#[verifier::external_body]
#[verifier::reject_recursive_types(N)]
#[verifier::reject_recursive_types(E)]
#[verifier::reject_recursive_types(Ty)]
#[verifier::reject_recursive_types(Ix)]
pub struct ExGraph<N, E, Ty, Ix>(Graph<N, E, Ty, Ix>);

/// The marker of the crate `petgraph` for a directed graph.
#[verifier::external_type_specification]
#[verifier::external_body]
pub struct ExDirected(Directed);

/// The nodes of a graph, by index.
pub uninterp spec fn graph_nodes(g: Graph<Entity, Relation, Directed, u32>) -> Seq<Entity>;

/// The edges of a graph: from which node, to which node, and what it carries.
pub uninterp spec fn graph_edges(
    g: Graph<Entity, Relation, Directed, u32>,
) -> Multiset<(usize, usize, Relation)>;

/// An empty graph, from `Graph::new`.
#[verifier::external_body]
fn new_graph() -> (g: Graph<Entity, Relation, Directed, u32>)
    ensures
        graph_nodes(g) == Seq::<Entity>::empty(),
        graph_edges(g) == Multiset::<(usize, usize, Relation)>::empty(),
{
    Graph::new()
}

/// The number of nodes, from `Graph::node_count`.
#[verifier::external_body]
fn node_count(g: &Graph<Entity, Relation, Directed, u32>) -> (n: usize)
    ensures
        n == graph_nodes(*g).len(),
{
    g.node_count()
}

/// The number of edges, from `Graph::edge_count`.
#[verifier::external_body]
fn edge_count(g: &Graph<Entity, Relation, Directed, u32>) -> (n: usize)
    ensures
        n == graph_edges(*g).len(),
{
    g.edge_count()
}

/// The node at an index, from the indexing operator of `Graph`.
#[verifier::external_body]
fn node_at(g: &Graph<Entity, Relation, Directed, u32>, i: usize) -> (e: &Entity)
    requires
        i < graph_nodes(*g).len(),
    ensures
        *e == graph_nodes(*g)[i as int],
{
    &g[NodeIndex::new(i)]
}

/// Puts another node in the place of the one at an index, with the indexing operator of
/// `Graph`. The edges stay.
#[verifier::external_body]
fn set_node(g: &mut Graph<Entity, Relation, Directed, u32>, i: usize, e: Entity)
    requires
        i < graph_nodes(*old(g)).len(),
    ensures
        graph_nodes(*final(g)) == graph_nodes(*old(g)).update(i as int, e),
        graph_edges(*final(g)) == graph_edges(*old(g)),
{
    g[NodeIndex::new(i)] = e;
}

/// Adds a node with `Graph::add_node`. It comes last, and its index is returned. There is
/// no room for more nodes than the largest 32-bit number.
#[verifier::external_body]
fn add_node(g: &mut Graph<Entity, Relation, Directed, u32>, e: Entity) -> (i: usize)
    requires
        graph_nodes(*old(g)).len() < u32::MAX,
    ensures
        i == graph_nodes(*old(g)).len(),
        graph_nodes(*final(g)) == graph_nodes(*old(g)).push(e),
        graph_edges(*final(g)) == graph_edges(*old(g)),
{
    g.add_node(e).index()
}

/// Adds an edge with `Graph::add_edge`, beside any that already join the two nodes. There is
/// no room for more edges than the largest 32-bit number.
#[verifier::external_body]
fn add_edge(g: &mut Graph<Entity, Relation, Directed, u32>, a: usize, b: usize, r: Relation)
    requires
        a < graph_nodes(*old(g)).len(),
        b < graph_nodes(*old(g)).len(),
        graph_edges(*old(g)).len() < u32::MAX,
    ensures
        graph_nodes(*final(g)) == graph_nodes(*old(g)),
        graph_edges(*final(g)) == graph_edges(*old(g)).insert((a, b, r)),
{
    g.add_edge(NodeIndex::new(a), NodeIndex::new(b), r);
}

/// Removes a node with `Graph::remove_node`, and with it every edge that touches it. The last
/// node takes the index that became free, and its edges follow it.
#[verifier::external_body]
fn remove_node(g: &mut Graph<Entity, Relation, Directed, u32>, i: usize)
    requires
        i < graph_nodes(*old(g)).len(),
    ensures
        graph_nodes(*final(g)) == swap_removed(graph_nodes(*old(g)), i as int),
        forall|a: usize, b: usize, r: Relation| #[trigger]
            graph_edges(*final(g)).count((a, b, r)) == edges_after_removal(
                graph_edges(*old(g)),
                i,
                (graph_nodes(*old(g)).len() - 1) as usize,
                a,
                b,
                r,
            ),
{
    g.remove_node(NodeIndex::new(i));
}

/// The number of edges that leave a node, from `Graph::edges`.
#[verifier::external_body]
fn out_degree(g: &Graph<Entity, Relation, Directed, u32>, i: usize) -> (n: usize)
    requires
        i < graph_nodes(*g).len() <= u32::MAX,
    ensures
        n == degree(graph_edges(*g), i),
{
    g.edges(NodeIndex::new(i)).count()
}

/// The cost of the cheapest walk that `astar` finds, where every edge costs one and nothing is
/// estimated: the number of edges of a shortest walk, and `None` where there is no walk.
#[verifier::external_body]
fn fewest_edges(g: &Graph<Entity, Relation, Directed, u32>, start: usize, goal: usize) -> (r:
    Option<usize>)
    requires
        start < graph_nodes(*g).len(),
    ensures
        is_distance(graph_edges(*g), start, goal, r),
{
    astar(
        g,
        NodeIndex::new(start),
        |n| is_goal(n.index(), goal),
        |_| edge_cost(),
        |_| estimate(),
    ).map(|found| found.0)
}

/// A search ends at its goal.
fn is_goal(n: usize, goal: usize) -> (r: bool)
    ensures
        r == (n == goal),
{
    n == goal
}

/// Every relation costs one step.
fn edge_cost() -> (r: usize)
    ensures
        r == 1,
{
    1
}

/// A search is guided by no estimate.
fn estimate() -> (r: usize)
    ensures
        r == 0,
{
    0
}

/// `s` without its item at `i`, whose place the last item takes.
pub open spec fn swap_removed<A>(s: Seq<A>, i: int) -> Seq<A> {
    if i == s.len() - 1 {
        s.drop_last()
    } else {
        s.drop_last().update(i, s.last())
    }
}

/// How many edges lead from `a` to `b` and carry `r`, once node `i` is gone and node `last`
/// has taken its index.
pub open spec fn edges_after_removal(
    edges: Multiset<(usize, usize, Relation)>,
    i: usize,
    last: usize,
    a: usize,
    b: usize,
    r: Relation,
) -> nat {
    if a >= last || b >= last {
        0
    } else {
        edges.count(
            (
                if a == i {
                    last
                } else {
                    a
                },
                if b == i {
                    last
                } else {
                    b
                },
                r,
            ),
        )
    }
}

/// The edges that leave node `i`.
pub open spec fn leaving(edges: Multiset<(usize, usize, Relation)>, i: usize) -> Multiset<
    (usize, usize, Relation),
> {
    edges.filter(|e: (usize, usize, Relation)| e.0 == i)
}

/// The number of edges that leave node `i`.
pub open spec fn degree(edges: Multiset<(usize, usize, Relation)>, i: usize) -> nat {
    leaving(edges, i).len()
}

/// An edge leads from `a` to `b`.
pub open spec fn linked(edges: Multiset<(usize, usize, Relation)>, a: usize, b: usize) -> bool {
    exists|r: Relation| edges.count((a, b, r)) > 0
}

/// A walk of `n` edges leads from `a` to `b`.
pub open spec fn walk(
    edges: Multiset<(usize, usize, Relation)>,
    a: usize,
    b: usize,
    n: nat,
) -> bool
    decreases n,
{
    if n == 0 {
        a == b
    } else {
        exists|m: usize| walk(edges, a, m, (n - 1) as nat) && #[trigger] linked(edges, m, b)
    }
}

/// `d` is the number of edges of a shortest walk from `a` to `b`, or `None` where there is none.
pub open spec fn is_distance(
    edges: Multiset<(usize, usize, Relation)>,
    a: usize,
    b: usize,
    d: Option<usize>,
) -> bool {
    match d {
        Some(k) => walk(edges, a, b, k as nat) && forall|n: nat|
            n < k ==> !#[trigger] walk(edges, a, b, n),
        None => forall|n: nat| !#[trigger] walk(edges, a, b, n),
    }
}

/// The first node from `i` on that bears `label`.
pub open spec fn labelled_from(nodes: Seq<EntityView>, label: Seq<char>, i: int) -> Option<int>
    decreases nodes.len() - i,
{
    if i < 0 || i >= nodes.len() {
        None
    } else if nodes[i].label == label {
        Some(i)
    } else {
        labelled_from(nodes, label, i + 1)
    }
}

/// The first node that bears `label`.
pub open spec fn labelled(nodes: Seq<EntityView>, label: Seq<char>) -> Option<int> {
    labelled_from(nodes, label, 0)
}

/// The space as a graph: nodes are entities, edges are relations.
pub struct SpaceGraph {
    pub graph: Graph<Entity, Relation, Directed, u32>,
    /// Where each identifier's entity stands in the graph.
    pub index_map: HashMap<u128, usize>,
}

impl SpaceGraph {
    /// The entities, in the order of their indices.
    pub open spec fn nodes(self) -> Seq<EntityView> {
        graph_nodes(self.graph).map_values(|e: Entity| e@)
    }

    /// The relations.
    pub open spec fn edges(self) -> Multiset<(usize, usize, Relation)> {
        graph_edges(self.graph)
    }

    /// Where each known identifier's entity stands.
    pub open spec fn index(self) -> Map<u128, usize> {
        self.index_map@
    }

    /// Every known identifier leads to an entity that bears it, and every relation joins two
    /// entities.
    pub open spec fn wf(self) -> bool {
        &&& self.nodes().len() <= u32::MAX
        &&& forall|id: u128| #[trigger]
            self.index().contains_key(id) ==> self.index()[id] < self.nodes().len()
                && self.nodes()[self.index()[id] as int].id == id
        &&& forall|a: usize, b: usize, r: Relation| #[trigger]
            self.edges().count((a, b, r)) > 0 ==> a < self.nodes().len() && b < self.nodes().len()
    }

    /// An empty space.
    pub fn new() -> (r: SpaceGraph)
        ensures
            r.wf(),
            r.nodes() == Seq::<EntityView>::empty(),
            r.edges() == Multiset::<(usize, usize, Relation)>::empty(),
            r.index() == Map::<u128, usize>::empty(),
    {
        let r = SpaceGraph { graph: new_graph(), index_map: HashMap::new() };
        proof {
            assert(r.nodes() =~= Seq::<EntityView>::empty());
            assert(r.index() =~= Map::<u128, usize>::empty());
        }
        r
    }

    /// Adds an entity, and returns its index. An identifier that is already known leads to
    /// the new entity from now on.
    pub fn add_entity(&mut self, entity: Entity) -> (i: usize)
        requires
            old(self).wf(),
            old(self).nodes().len() < u32::MAX,
        ensures
            final(self).wf(),
            i == old(self).nodes().len(),
            final(self).nodes() == old(self).nodes().push(entity@),
            final(self).edges() == old(self).edges(),
            final(self).index() == old(self).index().insert(entity.id, i),
    {
        let id: u128 = entity.id;
        let ghost seen = entity@;
        let i: usize = add_node(&mut self.graph, entity);
        self.index_map.insert(id, i);
        proof {
            assert(self.nodes() =~= old(self).nodes().push(seen));
            assert forall|k: u128| #[trigger] self.index().contains_key(k) implies self.index()[k]
                < self.nodes().len() && self.nodes()[self.index()[k] as int].id == k by {
                if k != id {
                    assert(old(self).index().contains_key(k));
                }
            }
            assert forall|a: usize, b: usize, r: Relation| #[trigger]
                self.edges().count((a, b, r)) > 0 implies a < self.nodes().len() && b
                < self.nodes().len() by {
                assert(old(self).edges().count((a, b, r)) > 0);
            }
        }
        i
    }

    /// Relates one entity to another. Nothing happens where either is unknown.
    pub fn add_relation(&mut self, from: u128, to: u128, weight: i64)
        requires
            old(self).wf(),
            old(self).edges().len() < u32::MAX,
        ensures
            final(self).wf(),
            final(self).nodes() == old(self).nodes(),
            final(self).index() == old(self).index(),
            final(self).edges() == if old(self).index().contains_key(from)
                && old(self).index().contains_key(to) {
                old(self).edges().insert(
                    (old(self).index()[from], old(self).index()[to], Relation { weight }),
                )
            } else {
                old(self).edges()
            },
    {
        let a = self.index_map.get(&from);
        let b = self.index_map.get(&to);
        if let (Some(a), Some(b)) = (a, b) {
            let a: usize = *a;
            let b: usize = *b;
            add_edge(&mut self.graph, a, b, Relation { weight });
        }
    }

    /// The entity that an identifier leads to.
    pub fn get_entity(&self, id: &u128) -> (r: Option<&Entity>)
        requires
            self.wf(),
        ensures
            r is Some <==> self.index().contains_key(*id),
            r matches Some(e) ==> e@ == self.nodes()[self.index()[*id] as int],
    {
        match self.index_map.get(id) {
            Some(i) => Some(node_at(&self.graph, *i)),
            None => None,
        }
    }

    /// The number of steps on a shortest way from one entity to another.
    pub fn shortest_path(&self, from: u128, to: u128) -> (r: Option<usize>)
        requires
            self.wf(),
        ensures
            self.index().contains_key(from) && self.index().contains_key(to) ==> is_distance(
                self.edges(),
                self.index()[from],
                self.index()[to],
                r,
            ),
            !self.index().contains_key(from) || !self.index().contains_key(to) ==> r is None,
    {
        match (self.index_map.get(&from), self.index_map.get(&to)) {
            (Some(a), Some(b)) => fewest_edges(&self.graph, *a, *b),
            _ => None,
        }
    }

    /// The number of entities.
    pub fn entity_count(&self) -> (n: usize)
        ensures
            n == self.nodes().len(),
    {
        node_count(&self.graph)
    }

    /// The number of relations.
    pub fn relation_count(&self) -> (n: usize)
        ensures
            n == self.edges().len(),
    {
        edge_count(&self.graph)
    }

    /// The entity at an index.
    pub fn entity_at(&self, i: usize) -> (e: &Entity)
        requires
            i < self.nodes().len(),
        ensures
            e@ == self.nodes()[i as int],
    {
        node_at(&self.graph, i)
    }

    /// The number of relations that lead away from the entity at an index.
    pub fn degree_at(&self, i: usize) -> (n: usize)
        requires
            self.wf(),
            i < self.nodes().len(),
        ensures
            n == degree(self.edges(), i),
    {
        out_degree(&self.graph, i)
    }

    /// The index of the first entity that bears a label.
    pub fn find_label(&self, label: &str) -> (r: Option<usize>)
        ensures
            match r {
                Some(i) => labelled(self.nodes(), label@) == Some(i as int),
                None => labelled(self.nodes(), label@) is None,
            },
    {
        let n: usize = node_count(&self.graph);
        let mut i: usize = 0;
        while i < n
            invariant
                i <= n,
                n == self.nodes().len(),
                labelled(self.nodes(), label@) == labelled_from(self.nodes(), label@, i as int),
            decreases n - i,
        {
            let e = node_at(&self.graph, i);
            assert(e@ == self.nodes()[i as int]);
            if same_text(e.label.as_str(), label) {
                return Some(i);
            }
            i = i + 1;
        }
        None
    }

    /// Takes an entity out of the space, together with its relations, and says whether it was
    /// known. The last entity takes its index.
    pub fn remove_entity(&mut self, id: &u128) -> (r: bool)
        requires
            old(self).wf(),
        ensures
            final(self).wf(),
            r == old(self).index().contains_key(*id),
            !r ==> final(self).nodes() == old(self).nodes() && final(self).edges() == old(
                self,
            ).edges() && final(self).index() == old(self).index(),
            r ==> {
                let i = old(self).index()[*id];
                let last = (old(self).nodes().len() - 1) as usize;
                &&& final(self).nodes() == swap_removed(old(self).nodes(), i as int)
                &&& final(self).index() == reindexed(old(self).index(), old(self).nodes(), *id)
                &&& forall|a: usize, b: usize, x: Relation| #[trigger]
                    final(self).edges().count((a, b, x)) == edges_after_removal(
                        old(self).edges(),
                        i,
                        last,
                        a,
                        b,
                        x,
                    )
            },
    {
        let i: usize = match self.index_map.get(id) {
            Some(i) => *i,
            None => {
                return false;
            },
        };
        let last: usize = node_count(&self.graph) - 1;
        let moved: u128 = node_at(&self.graph, last).id;
        let follows: bool = match self.index_map.get(&moved) {
            Some(j) => *j == last && moved != *id,
            None => false,
        };
        remove_node(&mut self.graph, i);
        self.index_map.remove(id);
        if follows {
            self.index_map.insert(moved, i);
        }
        proof {
            assert(old(self).nodes()[last as int].id == moved);
            assert(self.nodes() =~= swap_removed(old(self).nodes(), i as int));
            assert(self.index() =~= reindexed(old(self).index(), old(self).nodes(), *id));
            assert forall|k: u128| #[trigger] self.index().contains_key(k) implies self.index()[k]
                < self.nodes().len() && self.nodes()[self.index()[k] as int].id == k by {
                assert(old(self).index().contains_key(k));
                let j = old(self).index()[k];
                assert(old(self).nodes()[j as int].id == k);
            }
            assert forall|a: usize, b: usize, x: Relation| #[trigger]
                self.edges().count((a, b, x)) > 0 implies a < self.nodes().len() && b
                < self.nodes().len() by {}
        }
        true
    }

    /// Gives the entity at an index other gathered interests. Nothing else changes.
    pub fn set_activity(&mut self, i: usize, activity: Vec<u32>)
        requires
            old(self).wf(),
            i < old(self).nodes().len(),
        ensures
            final(self).wf(),
            final(self).edges() == old(self).edges(),
            final(self).index() == old(self).index(),
            final(self).nodes() == old(self).nodes().update(
                i as int,
                EntityView { activity_vec: Some(activity@), ..old(self).nodes()[i as int] },
            ),
    {
        let mut e: Entity = node_at(&self.graph, i).clone();
        e.activity_vec = Some(activity);
        self.put(i, e);
    }

    /// Puts an entity in the place of the one with the same identifier at an index.
    pub(crate) fn put(&mut self, i: usize, e: Entity)
        requires
            old(self).wf(),
            i < old(self).nodes().len(),
            e.id == old(self).nodes()[i as int].id,
        ensures
            final(self).wf(),
            final(self).edges() == old(self).edges(),
            final(self).index() == old(self).index(),
            final(self).nodes() == old(self).nodes().update(i as int, e@),
    {
        let ghost seen = e@;
        set_node(&mut self.graph, i, e);
        proof {
            assert(self.nodes() =~= old(self).nodes().update(i as int, seen));
            assert forall|k: u128| #[trigger] self.index().contains_key(k) implies self.index()[k]
                < self.nodes().len() && self.nodes()[self.index()[k] as int].id == k by {
                assert(old(self).index().contains_key(k));
            }
            assert forall|a: usize, b: usize, x: Relation| #[trigger]
                self.edges().count((a, b, x)) > 0 implies a < self.nodes().len() && b
                < self.nodes().len() by {
                assert(old(self).edges().count((a, b, x)) > 0);
            }
        }
    }

    /// Gives an entity its place under its label, and returns its index: it takes the place of
    /// the first entity that bears the same label, together with its relations, or a new one.
    /// An identifier that is already known leads to the new entity from now on, and the one of
    /// the entity that gave way leads nowhere.
    pub fn place_entity(&mut self, entity: Entity) -> (i: usize)
        requires
            old(self).wf(),
            old(self).nodes().len() < u32::MAX,
        ensures
            final(self).wf(),
            final(self).edges() == old(self).edges(),
            final(self).nodes() == placed(old(self).nodes(), entity@),
            i == place_of(old(self).nodes(), entity@.label),
            final(self).index() == placed_index(old(self).index(), old(self).nodes(), entity@),
    {
        proof {
            label_found(self.nodes(), entity@.label, 0);
        }
        let i: usize = match self.find_label(entity.label.as_str()) {
            None => {
                return self.add_entity(entity);
            },
            Some(i) => i,
        };
        let ghost seen = entity@;
        let id: u128 = entity.id;
        let other: u128 = node_at(&self.graph, i).id;
        let gives_way: bool = match self.index_map.get(&other) {
            Some(k) => *k == i,
            None => false,
        };
        set_node(&mut self.graph, i, entity);
        if gives_way {
            self.index_map.remove(&other);
        }
        self.index_map.insert(id, i);
        proof {
            assert(self.nodes() =~= old(self).nodes().update(i as int, seen));
            assert(self.index() =~= given_way(old(self).index(), other, i).insert(id, i));
            assert forall|k: u128| #[trigger] self.index().contains_key(k) implies self.index()[k]
                < self.nodes().len() && self.nodes()[self.index()[k] as int].id == k by {
                if k != id {
                    assert(old(self).index().contains_key(k));
                    assert(old(self).index()[k] == self.index()[k]);
                    assert(self.index()[k] != i);
                }
            }
            assert forall|a: usize, b: usize, x: Relation| #[trigger]
                self.edges().count((a, b, x)) > 0 implies a < self.nodes().len() && b
                < self.nodes().len() by {
                assert(old(self).edges().count((a, b, x)) > 0);
            }
        }
        i
    }

    /// Records a visit at an entity: it now gathers `activity`, and was last active at `at`.
    /// Says whether the entity is known. Its meaning stays as it is.
    pub fn update_entity_activity(&mut self, id: &u128, activity: Vec<u32>, at: Timestamp) -> (r:
        bool)
        requires
            old(self).wf(),
        ensures
            final(self).wf(),
            r == old(self).index().contains_key(*id),
            final(self).edges() == old(self).edges(),
            final(self).index() == old(self).index(),
            final(self).nodes() == if r {
                let i = old(self).index()[*id] as int;
                old(self).nodes().update(
                    i,
                    EntityView {
                        activity_vec: Some(activity@),
                        last_active: at,
                        ..old(self).nodes()[i]
                    },
                )
            } else {
                old(self).nodes()
            },
    {
        let i: usize = match self.index_map.get(id) {
            Some(i) => *i,
            None => {
                return false;
            },
        };
        let mut e: Entity = node_at(&self.graph, i).clone();
        e.activity_vec = Some(activity);
        e.last_active = at;
        self.put(i, e);
        true
    }
}

/// No two entities bear the same label.
pub open spec fn distinct_labels(nodes: Seq<EntityView>) -> bool {
    forall|i: int, j: int|
        0 <= i < j < nodes.len() ==> (#[trigger] nodes[i]).label != (#[trigger] nodes[j]).label
}

/// The entities with `e` among them, in the place of the first that bears its label.
pub open spec fn placed(nodes: Seq<EntityView>, e: EntityView) -> Seq<EntityView> {
    match labelled(nodes, e.label) {
        None => nodes.push(e),
        Some(i) => nodes.update(i, e),
    }
}

/// The index at which an entity with a label has its place.
pub open spec fn place_of(nodes: Seq<EntityView>, label: Seq<char>) -> int {
    match labelled(nodes, label) {
        None => nodes.len() as int,
        Some(i) => i,
    }
}

/// Where each identifier leads, once `e` has its place.
pub open spec fn placed_index(
    index: Map<u128, usize>,
    nodes: Seq<EntityView>,
    e: EntityView,
) -> Map<u128, usize> {
    let i = place_of(nodes, e.label) as usize;
    if i < nodes.len() {
        given_way(index, nodes[i as int].id, i).insert(e.id, i)
    } else {
        index.insert(e.id, i)
    }
}

/// Where each identifier leads, once `id` no longer leads to the index `i`.
pub open spec fn given_way(index: Map<u128, usize>, id: u128, i: usize) -> Map<u128, usize> {
    if index.contains_key(id) && index[id] == i {
        index.remove(id)
    } else {
        index
    }
}

/// Where labels are unique, they stay so when an entity is given its place, and exactly one
/// entity bears its label: the new one.
pub proof fn placing_keeps_labels_unique(nodes: Seq<EntityView>, e: EntityView)
    requires
        distinct_labels(nodes),
    ensures
        distinct_labels(placed(nodes, e)),
        placed(nodes, e).contains(e),
        forall|i: int|
            0 <= i < placed(nodes, e).len() && (#[trigger] placed(nodes, e)[i]).label == e.label
                ==> placed(nodes, e)[i] == e,
{
    label_found(nodes, e.label, 0);
    let all = placed(nodes, e);
    match labelled(nodes, e.label) {
        None => {
            assert(all[nodes.len() as int] == e);
        },
        Some(k) => {
            assert(all[k] == e);
        },
    }
    assert forall|i: int, j: int| 0 <= i < j < all.len() implies (#[trigger] all[i]).label != (
    #[trigger] all[j]).label by {
        if j < nodes.len() {
            assert(all[i].label == nodes[i].label);
            assert(all[j].label == nodes[j].label);
        }
    }
}

/// Giving an entity its place touches no other: whatever bears another label stays.
pub proof fn placing_keeps_others(nodes: Seq<EntityView>, e: EntityView, i: int)
    requires
        0 <= i < nodes.len(),
        nodes[i].label != e.label,
    ensures
        placed(nodes, e)[i] == nodes[i],
{
    label_found(nodes, e.label, 0);
}

/// A search finds the first entity with a label, and finds one where there is any.
pub proof fn label_found(nodes: Seq<EntityView>, label: Seq<char>, from: int)
    requires
        0 <= from <= nodes.len(),
    ensures
        match labelled_from(nodes, label, from) {
            Some(i) => from <= i < nodes.len() && nodes[i].label == label && forall|j: int|
                from <= j < i ==> (#[trigger] nodes[j]).label != label,
            None => forall|j: int| from <= j < nodes.len() ==> (#[trigger] nodes[j]).label != label,
        },
    decreases nodes.len() - from,
{
    if from < nodes.len() && nodes[from].label != label {
        label_found(nodes, label, from + 1);
    }
}

/// Where each identifier leads once `id` is gone and the last entity has taken its index.
pub open spec fn reindexed(
    index: Map<u128, usize>,
    nodes: Seq<EntityView>,
    id: u128,
) -> Map<u128, usize> {
    let moved = nodes.last().id;
    if moved != id && index.contains_key(moved) && index[moved] == nodes.len() - 1 {
        index.remove(id).insert(moved, index[id])
    } else {
        index.remove(id)
    }
}

proof fn walk_joined(
    edges: Multiset<(usize, usize, Relation)>,
    a: usize,
    b: usize,
    c: usize,
    m: nat,
    n: nat,
)
    requires
        walk(edges, a, b, m),
        walk(edges, b, c, n),
    ensures
        walk(edges, a, c, m + n),
    decreases n,
{
    if n > 0 {
        let k = choose|k: usize|
            walk(edges, b, k, (n - 1) as nat) && #[trigger] linked(edges, k, c);
        walk_joined(edges, a, b, k, m, (n - 1) as nat);
        assert(walk(edges, a, k, (m + n - 1) as nat));
    }
}

proof fn walk_kept(
    edges: Multiset<(usize, usize, Relation)>,
    more: Multiset<(usize, usize, Relation)>,
    a: usize,
    b: usize,
    n: nat,
)
    requires
        forall|e: (usize, usize, Relation)| edges.count(e) <= #[trigger] more.count(e),
        walk(edges, a, b, n),
    ensures
        walk(more, a, b, n),
    decreases n,
{
    if n > 0 {
        let k = choose|k: usize|
            walk(edges, a, k, (n - 1) as nat) && #[trigger] linked(edges, k, b);
        walk_kept(edges, more, a, k, (n - 1) as nat);
        let r = choose|r: Relation| edges.count((k, b, r)) > 0;
        assert(more.count((k, b, r)) > 0);
        assert(linked(more, k, b));
    }
}

/// Every entity is at distance zero from itself, and from nothing else.
pub proof fn distance_zero(
    edges: Multiset<(usize, usize, Relation)>,
    a: usize,
    b: usize,
    d: Option<usize>,
)
    requires
        is_distance(edges, a, b, d),
    ensures
        d == Some(0usize) <==> a == b,
{
    if a == b {
        assert(walk(edges, a, b, 0));
    }
}

/// There is only one distance from one entity to another.
pub proof fn distance_unique(
    edges: Multiset<(usize, usize, Relation)>,
    a: usize,
    b: usize,
    d: Option<usize>,
    e: Option<usize>,
)
    requires
        is_distance(edges, a, b, d),
        is_distance(edges, a, b, e),
    ensures
        d == e,
{
    if let Some(k) = d {
        assert(walk(edges, a, b, k as nat));
    }
    if let Some(k) = e {
        assert(walk(edges, a, b, k as nat));
    }
}

/// Going by way of a third entity is never shorter than the distance.
pub proof fn distance_triangle(
    edges: Multiset<(usize, usize, Relation)>,
    a: usize,
    b: usize,
    c: usize,
    ab: usize,
    bc: usize,
    ac: Option<usize>,
)
    requires
        is_distance(edges, a, b, Some(ab)),
        is_distance(edges, b, c, Some(bc)),
        is_distance(edges, a, c, ac),
    ensures
        ac is Some,
        ac->Some_0 <= ab + bc,
{
    walk_joined(edges, a, b, c, ab as nat, bc as nat);
}

/// A relation between two different entities brings the second within one step of the first.
pub proof fn relation_makes_neighbour(
    edges: Multiset<(usize, usize, Relation)>,
    a: usize,
    b: usize,
    r: Relation,
    d: Option<usize>,
)
    requires
        a != b,
        is_distance(edges.insert((a, b, r)), a, b, d),
    ensures
        d == Some(1usize),
{
    let more = edges.insert((a, b, r));
    assert(more.count((a, b, r)) > 0);
    assert(linked(more, a, b));
    assert(walk(more, a, a, 0));
    assert(walk(more, a, b, 1));
    assert(!walk(more, a, b, 0));
}

/// A new relation never makes a way longer.
pub proof fn relation_never_lengthens(
    edges: Multiset<(usize, usize, Relation)>,
    e: (usize, usize, Relation),
    a: usize,
    b: usize,
    before: usize,
    after: Option<usize>,
)
    requires
        is_distance(edges, a, b, Some(before)),
        is_distance(edges.insert(e), a, b, after),
    ensures
        after is Some,
        after->Some_0 <= before,
{
    assert forall|x: (usize, usize, Relation)| edges.count(x) <= #[trigger] edges.insert(
        e,
    ).count(x) by {}
    walk_kept(edges, edges.insert(e), a, b, before as nat);
}

/// Removing an entity right after it was added, with an identifier that was not known before,
/// leaves the space as it was.
pub proof fn removal_undoes_addition(
    index: Map<u128, usize>,
    nodes: Seq<EntityView>,
    e: EntityView,
)
    requires
        !index.contains_key(e.id),
        nodes.len() <= usize::MAX,
    ensures
        swap_removed(nodes.push(e), nodes.len() as int) == nodes,
        reindexed(index.insert(e.id, nodes.len() as usize), nodes.push(e), e.id) == index,
{
    assert(nodes.push(e).drop_last() =~= nodes);
    assert(index.insert(e.id, nodes.len() as usize).remove(e.id) =~= index);
}

/// Removing an entity touches no other: every other known identifier still leads to the same
/// entity, and the same relations join it to the others.
pub proof fn removal_keeps_others(
    index: Map<u128, usize>,
    nodes: Seq<EntityView>,
    edges: Multiset<(usize, usize, Relation)>,
    id: u128,
    k: u128,
    l: u128,
    r: Relation,
)
    requires
        nodes.len() <= usize::MAX,
        forall|x: u128| #[trigger]
            index.contains_key(x) ==> index[x] < nodes.len() && nodes[index[x] as int].id == x,
        index.contains_key(id),
        index.contains_key(k),
        index.contains_key(l),
        k != id,
        l != id,
    ensures
        ({
            let after = reindexed(index, nodes, id);
            let last = (nodes.len() - 1) as usize;
            &&& !after.contains_key(id)
            &&& after.contains_key(k)
            &&& after[k] < last
            &&& swap_removed(nodes, index[id] as int)[after[k] as int] == nodes[index[k] as int]
            &&& edges_after_removal(edges, index[id], last, after[k], after[l], r) == edges.count(
                (index[k], index[l], r),
            )
        }),
{
    assert(index[k] != index[id] && index[l] != index[id]);
}

/// Once an entity was given its place, its identifier leads to it; no identifier leads to what
/// had to give way; and every other identifier leads where it led before.
pub proof fn placing_moves_identifiers(
    index: Map<u128, usize>,
    nodes: Seq<EntityView>,
    e: EntityView,
    k: u128,
)
    requires
        nodes.len() < usize::MAX,
        forall|x: u128| #[trigger]
            index.contains_key(x) ==> index[x] < nodes.len() && nodes[index[x] as int].id == x,
    ensures
        ({
            let all = placed(nodes, e);
            let after = placed_index(index, nodes, e);
            &&& after.contains_key(e.id) && after[e.id] < all.len() && all[after[e.id] as int] == e
            &&& k != e.id ==> (after.contains_key(k) <==> index.contains_key(k)
                && all[index[k] as int] == nodes[index[k] as int])
            &&& k != e.id && after.contains_key(k) ==> after[k] == index[k]
        }),
{
    label_found(nodes, e.label, 0);
}

/// The first entity that bears the label gives way, and where none does, nothing gives way.
pub proof fn placing_takes_the_first_place(nodes: Seq<EntityView>, e: EntityView)
    ensures
        ({
            let all = placed(nodes, e);
            let known = exists|i: int|
                0 <= i < nodes.len() && (#[trigger] nodes[i]).label == e.label;
            &&& !known ==> all == nodes.push(e)
            &&& known ==> all.len() == nodes.len()
            &&& forall|i: int|
                0 <= i < nodes.len() ==> #[trigger] all[i] == if nodes[i].label == e.label
                    && forall|j: int| 0 <= j < i ==> (#[trigger] nodes[j]).label != e.label {
                    e
                } else {
                    nodes[i]
                }
        }),
{
    label_found(nodes, e.label, 0);
}

/// Every relation that leaves an entity counts for it, and no other does.
pub proof fn relations_count_where_they_leave(
    edges: Multiset<(usize, usize, Relation)>,
    a: usize,
    b: usize,
    r: Relation,
    i: usize,
)
    ensures
        degree(Multiset::empty(), i) == 0,
        degree(edges.insert((a, b, r)), i) == degree(edges, i) + if a == i {
            1int
        } else {
            0int
        },
{
    broadcast use vstd::multiset::group_multiset_axioms;

    let one = (a, b, r);
    let none = Multiset::<(usize, usize, Relation)>::empty();
    assert(leaving(none, i) =~= none);
    if a == i {
        assert(leaving(edges.insert(one), i) =~= leaving(edges, i).insert(one));
    } else {
        assert(leaving(edges.insert(one), i) =~= leaving(edges, i));
    }
}

/// A new entity has no meaning yet, nothing has gathered at it, and it has no end.
pub proof fn a_newcomer_is_blank(kind: EntityKind, label: Seq<char>, id: u128, at: Timestamp)
    ensures
        ({
            let e = newcomer(kind, label, id, at);
            &&& e.id == id && e.kind == kind && e.label == label && e.last_active == at
            &&& e.embedding is None && e.activity_vec is None && e.expires_at is None
        }),
{
}

/// Removing an entity makes no identifier known.
pub proof fn removal_adds_no_identifier(
    index: Map<u128, usize>,
    nodes: Seq<EntityView>,
    id: u128,
    k: u128,
)
    ensures
        reindexed(index, nodes, id).contains_key(k) ==> index.contains_key(k) && (k != id),
{
}

/// Relations lead one way: from an entity that no relation leaves there is no way to any other,
/// and none leads to an entity that no relation enters.
pub proof fn ways_follow_relations(
    edges: Multiset<(usize, usize, Relation)>,
    a: usize,
    b: usize,
    d: Option<usize>,
)
    requires
        a != b,
        is_distance(edges, a, b, d),
        (forall|x: usize, r: Relation| #[trigger] edges.count((a, x, r)) == 0) || (forall|
            x: usize,
            r: Relation,
        | #[trigger] edges.count((x, b, r)) == 0),
    ensures
        d is None,
{
    if let Some(k) = d {
        no_way(edges, a, b, k as nat);
    }
}

proof fn no_way(edges: Multiset<(usize, usize, Relation)>, a: usize, b: usize, n: nat)
    requires
        a != b,
        (forall|x: usize, r: Relation| #[trigger] edges.count((a, x, r)) == 0) || (forall|
            x: usize,
            r: Relation,
        | #[trigger] edges.count((x, b, r)) == 0),
    ensures
        !walk(edges, a, b, n),
    decreases n,
{
    if n > 0 && walk(edges, a, b, n) {
        let m = choose|m: usize|
            walk(edges, a, m, (n - 1) as nat) && #[trigger] linked(edges, m, b);
        let r = choose|r: Relation| edges.count((m, b, r)) > 0;
        assert(edges.count((m, b, r)) > 0);
        if m != a {
            if forall|x: usize, r: Relation| #[trigger] edges.count((a, x, r)) == 0 {
                no_way(edges, a, m, (n - 1) as nat);
            }
        }
    }
}

/// The last step of a shortest way comes from an entity that is one step closer, and is a
/// relation.
pub proof fn ways_go_step_by_step(
    edges: Multiset<(usize, usize, Relation)>,
    a: usize,
    b: usize,
    k: usize,
)
    requires
        k > 0,
        is_distance(edges, a, b, Some(k)),
    ensures
        exists|m: usize, r: Relation|
            #![trigger edges.count((m, b, r))]
            edges.count((m, b, r)) > 0 && is_distance(edges, a, m, Some((k - 1) as usize)),
{
    let n = (k - 1) as nat;
    let m = choose|m: usize| walk(edges, a, m, n) && #[trigger] linked(edges, m, b);
    let r = choose|r: Relation| edges.count((m, b, r)) > 0;
    assert(edges.count((m, b, r)) > 0);
    assert forall|j: nat| j < n implies !#[trigger] walk(edges, a, m, j) by {
        if walk(edges, a, m, j) {
            assert(walk(edges, a, b, j + 1));
        }
    }
    assert(is_distance(edges, a, m, Some((k - 1) as usize)));
}

} // verus!
