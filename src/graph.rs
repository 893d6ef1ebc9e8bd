use vstd::prelude::*;

use std::collections::HashMap;

use crate::types::{Edge, Node, NodeId};

verus! {

broadcast use vstd::std_specs::hash::group_hash_axioms;

/// Read access to a graph: what routing and range queries need.
pub trait GraphView {
    /// The node with this id, if the graph has one.
    spec fn node_spec(&self, id: NodeId) -> Option<Node>;

    /// The outgoing edges of a node, in order; empty for an unknown id.
    spec fn edges_spec(&self, id: NodeId) -> Seq<Edge>;

    /// A node found under an id carries that id.
    proof fn lemma_node_ids(&self)
        ensures
            forall|id: NodeId| #[trigger]
                self.node_spec(id) is Some ==> self.node_spec(id)->0.id == id,
    ;

    fn get_node(&self, id: NodeId) -> (r: Option<&Node>)
        ensures
            r is Some == self.node_spec(id) is Some,
            r is Some ==> *r->0 == self.node_spec(id)->0,
    ;

    fn get_edges(&self, id: NodeId) -> (r: Vec<Edge>)
        ensures
            r@ == self.edges_spec(id),
    ;
}

/// Why a graph could not be built.
#[derive(Clone, Copy, Debug, PartialEq, Eq, Structural)]
pub enum ConstructionError {
    /// Two nodes carry this id.
    DuplicateNode(NodeId),
    /// This edge names a node that was not supplied.
    DanglingEdge(Edge),
}

pub open spec fn ids_distinct(nodes: Seq<Node>) -> bool {
    forall|i: int, j: int| 0 <= i < j < nodes.len() ==> #[trigger] nodes[i].id != #[trigger] nodes[j].id
}

pub open spec fn has_id(nodes: Seq<Node>, id: NodeId) -> bool {
    exists|i: int| 0 <= i < nodes.len() && #[trigger] nodes[i].id == id
}

/// Every edge names supplied nodes at both ends.
pub open spec fn edges_known(nodes: Seq<Node>, edges: Seq<Edge>) -> bool {
    forall|k: int| 0 <= k < edges.len() ==> has_id(nodes, #[trigger] edges[k].from) && has_id(nodes, edges[k].to)
}

/// The edge is supplied, or is the reverse of a supplied stargate.
pub open spec fn canonical_edge(edges: Seq<Edge>, e: Edge) -> bool {
    edges.contains(e) || exists|k: int| 0 <= k < edges.len() && (#[trigger] edges[k]).is_stargate() && edges[k].reversed() == e
}

/// An immutable graph of systems and their outgoing connections.
pub struct SpaceGraph {
    nodes: Vec<Node>,
    index: HashMap<NodeId, usize>,
    adjacency: Vec<Vec<Edge>>,
}

impl SpaceGraph {
    #[verifier::type_invariant]
    spec fn inv(&self) -> bool {
        &&& self.nodes.len() == self.adjacency.len()
        &&& forall|id: NodeId| #[trigger] self.index@.contains_key(id) ==> {
            &&& self.index@[id] < self.nodes.len()
            &&& self.nodes@[self.index@[id] as int].id == id
        }
        &&& forall|i: int| 0 <= i < self.nodes.len() ==> self.index@.contains_key(#[trigger] self.nodes@[i].id)
            && self.index@[self.nodes@[i].id] == i
        &&& forall|i: int, j: int| 0 <= i < self.adjacency.len() && 0 <= j < self.adjacency@[i].len()
            ==> {
            &&& (#[trigger] self.adjacency@[i]@[j]).from == self.nodes@[i].id
            &&& self.index@.contains_key(self.adjacency@[i]@[j].to)
            &&& (self.adjacency@[i]@[j].is_stargate() ==> self.adjacency@[self.index@[self.adjacency@[i]@[j].to] as int]@.contains(self.adjacency@[i]@[j].reversed()))
        }
    }

    /// Builds the graph: indexes the nodes by id and each node's outgoing
    /// edges, adding the way back of every stargate that lacks one.
    pub fn new(nodes: Vec<Node>, edges: Vec<Edge>) -> (r: Result<SpaceGraph, ConstructionError>)
        ensures
            r is Ok <==> ids_distinct(nodes@) && edges_known(nodes@, edges@),
            r matches Err(ConstructionError::DuplicateNode(id)) ==> exists|i: int, j: int|
                0 <= i < j < nodes.len() && nodes@[i].id == id && nodes@[j].id == id,
            r matches Err(ConstructionError::DanglingEdge(e)) ==> ids_distinct(nodes@) && edges@.contains(e)
                && !(has_id(nodes@, e.from) && has_id(nodes@, e.to)),
            r matches Ok(g) ==> {
                &&& g.nodes_view() == nodes@
                &&& forall|i: int| 0 <= i < nodes.len() ==> g.node_spec(#[trigger] nodes@[i].id) == Some(nodes@[i])
                &&& forall|id: NodeId| !has_id(nodes@, id) ==> #[trigger] g.node_spec(id) is None
                &&& forall|id: NodeId, e: Edge| #[trigger] g.edges_spec(id).contains(e)
                    <==> e.from == id && canonical_edge(edges@, e)
                &&& forall|id: NodeId, e: Edge| #[trigger] g.edges_spec(id).contains(e) && e.is_stargate()
                    ==> g.edges_spec(e.to).contains(e.reversed())
            },
    {
        let mut index: HashMap<NodeId, usize> = HashMap::new();
        let n = nodes.len();
        let mut i: usize = 0;
        while i < n
            invariant
                i <= n == nodes.len(),
                ids_distinct(nodes@.take(i as int)),
                forall|id: NodeId| #[trigger] index@.contains_key(id) <==> has_id(nodes@.take(i as int), id),
                forall|id: NodeId| #[trigger] index@.contains_key(id) ==> index@[id] < i && nodes@[index@[id] as int].id == id,
                forall|x: int| 0 <= x < i ==> index@.contains_key(#[trigger] nodes@[x].id) && index@[nodes@[x].id] == x,
            decreases n - i,
        {
            let id = nodes[i].id;
            if index.contains_key(&id) {
                return Err(ConstructionError::DuplicateNode(id));
            }
            index.insert(id, i);
            proof {
                let t = nodes@.take(i as int + 1);
                assert(t.drop_last() == nodes@.take(i as int));
                assert forall|x: NodeId| index@.contains_key(x) <==> has_id(t, x) by {
                    if has_id(t, x) {
                        let k = choose|k: int| 0 <= k < t.len() && #[trigger] t[k].id == x;
                        if k < i {
                            assert(nodes@.take(i as int)[k].id == x);
                        }
                    }
                    if index@.contains_key(x) && x != id {
                        let k = choose|k: int| 0 <= k < i && #[trigger] nodes@.take(i as int)[k].id == x;
                        assert(t[k].id == x);
                    }
                    if x == id {
                        assert(t[i as int].id == x);
                    }
                }
                assert forall|x: int| 0 <= x < i + 1 implies index@.contains_key(#[trigger] nodes@[x].id) && index@[nodes@[x].id] == x by {
                    if x < i && nodes@[x].id == id {
                        assert(nodes@.take(i as int)[x].id == id);
                        assert(has_id(nodes@.take(i as int), id));
                    }
                }
                assert forall|a: int, b: int| 0 <= a < b < t.len() implies #[trigger] t[a].id != #[trigger] t[b].id by {
                    if b == i {
                        if t[a].id == id {
                            assert(nodes@.take(i as int)[a].id == id);
                        }
                    } else {
                        assert(nodes@.take(i as int)[a] == t[a]);
                        assert(nodes@.take(i as int)[b] == t[b]);
                    }
                }
            }
            i = i + 1;
        }
        assert(nodes@.take(n as int) == nodes@);
        let m = edges.len();
        let mut k: usize = 0;
        while k < m
            invariant
                k <= m == edges.len(),
                n == nodes.len(),
                ids_distinct(nodes@),
                forall|id: NodeId| #[trigger] index@.contains_key(id) <==> has_id(nodes@, id),
                forall|id: NodeId| #[trigger] index@.contains_key(id) ==> index@[id] < n && nodes@[index@[id] as int].id == id,
                forall|x: int| 0 <= x < n ==> index@.contains_key(#[trigger] nodes@[x].id) && index@[nodes@[x].id] == x,
                forall|x: int| 0 <= x < k ==> index@.contains_key(#[trigger] edges@[x].from) && index@.contains_key(edges@[x].to),
            decreases m - k,
        {
            let e = edges[k];
            if !index.contains_key(&e.from) || !index.contains_key(&e.to) {
                assert(edges@[k as int] == e);
                assert(!(has_id(nodes@, edges@[k as int].from) && has_id(nodes@, edges@[k as int].to)));
                return Err(ConstructionError::DanglingEdge(e));
            }
            assert forall|x: int| 0 <= x < k + 1 implies index@.contains_key(#[trigger] edges@[x].from)
                && index@.contains_key(edges@[x].to) by {
                if x == k {
                    assert(edges@[x] == e);
                }
            }
            k = k + 1;
        }
        let mut adjacency: Vec<Vec<Edge>> = Vec::new();
        let mut i: usize = 0;
        while i < n
            invariant
                i <= n,
                adjacency.len() == i,
                m == edges.len(),
                n == nodes.len(),
                ids_distinct(nodes@),
                forall|id: NodeId| #[trigger] index@.contains_key(id) <==> has_id(nodes@, id),
                forall|id: NodeId| #[trigger] index@.contains_key(id) ==> index@[id] < n && nodes@[index@[id] as int].id == id,
                forall|x: int| 0 <= x < n ==> index@.contains_key(#[trigger] nodes@[x].id) && index@[nodes@[x].id] == x,
                forall|x: int| 0 <= x < m ==> index@.contains_key(#[trigger] edges@[x].from) && index@.contains_key(edges@[x].to),
                forall|x: int| 0 <= x < i ==> (#[trigger] adjacency@[x])@.len() == 0,
            decreases n - i,
        {
            adjacency.push(Vec::new());
            i = i + 1;
        }
        let mut k: usize = 0;
        while k < m
            invariant
                k <= m == edges.len(),
                n == adjacency.len(),
                n == nodes.len(),
                ids_distinct(nodes@),
                forall|id: NodeId| #[trigger] index@.contains_key(id) <==> has_id(nodes@, id),
                forall|id: NodeId| #[trigger] index@.contains_key(id) ==> index@[id] < n && nodes@[index@[id] as int].id == id,
                forall|x: int| 0 <= x < n ==> index@.contains_key(#[trigger] nodes@[x].id) && index@[nodes@[x].id] == x,
                forall|x: int| 0 <= x < m ==> index@.contains_key(#[trigger] edges@[x].from) && index@.contains_key(edges@[x].to),
                forall|a: int, b: int| 0 <= a < n && 0 <= b < adjacency@[a].len() ==> {
                    &&& (#[trigger] adjacency@[a]@[b]).from == nodes@[a].id
                    &&& index@.contains_key(adjacency@[a]@[b].to)
                    &&& (adjacency@[a]@[b].is_stargate() ==> adjacency@[index@[adjacency@[a]@[b].to] as int]@.contains(adjacency@[a]@[b].reversed()))
                    &&& canonical_edge(edges@.take(k as int), adjacency@[a]@[b])
                },
                forall|x: int| 0 <= x < k ==> adjacency@[index@[(#[trigger] edges@[x]).from] as int]@.contains(edges@[x]),
                forall|x: int| 0 <= x < k && (#[trigger] edges@[x]).is_stargate() ==> adjacency@[index@[edges@[x].to] as int]@.contains(edges@[x].reversed()),
            decreases m - k,
        {
            let e = edges[k];
            let fi = *index.get(&e.from).unwrap();
            let ti = *index.get(&e.to).unwrap();
            let ghost before = adjacency@;
            let ghost tk = edges@.take(k as int);
            let ghost tk1 = edges@.take(k as int + 1);
            proof {
                assert(tk1[k as int] == e);
                assert forall|x: Edge| canonical_edge(tk, x) implies canonical_edge(tk1, x) by {
                    if tk.contains(x) {
                        let y = choose|y: int| 0 <= y < tk.len() && tk[y] == x;
                        assert(tk1[y] == x);
                    } else {
                        let y = choose|y: int| 0 <= y < tk.len() && (#[trigger] tk[y]).is_stargate() && tk[y].reversed() == x;
                        assert(tk1[y] == tk[y]);
                    }
                }
                assert(tk1.contains(e)) by { assert(tk1[k as int] == e); }
            }
            push_unique(&mut adjacency[fi], e);
            if e.is_stargate_exec() {
                push_unique(&mut adjacency[ti], e.reverse());
            }
            proof {
                assert forall|x: int| 0 <= x < k + 1 implies adjacency@[index@[(#[trigger] edges@[x]).from] as int]@.contains(edges@[x]) by {
                    if x < k {
                        assert(before[index@[edges@[x].from] as int]@.contains(edges@[x]));
                    }
                }
                assert forall|x: int| 0 <= x < k + 1 && (#[trigger] edges@[x]).is_stargate() implies adjacency@[index@[edges@[x].to] as int]@.contains(edges@[x].reversed()) by {
                    if x < k {
                        assert(before[index@[edges@[x].to] as int]@.contains(edges@[x].reversed()));
                    }
                }
                assert forall|a: int, b: int| 0 <= a < n && 0 <= b < adjacency@[a].len() implies {
                    &&& (#[trigger] adjacency@[a]@[b]).from == nodes@[a].id
                    &&& index@.contains_key(adjacency@[a]@[b].to)
                    &&& (adjacency@[a]@[b].is_stargate() ==> adjacency@[index@[adjacency@[a]@[b].to] as int]@.contains(adjacency@[a]@[b].reversed()))
                    &&& canonical_edge(tk1, adjacency@[a]@[b])
                } by {
                    let x = adjacency@[a]@[b];
                    assert(adjacency@[a]@.contains(x));
                    if before[a]@.contains(x) {
                        let y = choose|y: int| 0 <= y < before[a].len() && before[a]@[y] == x;
                        assert(x.is_stargate() ==> before[index@[x.to] as int]@.contains(x.reversed()));
                    } else {
                        assert(x == e || x == e.reversed());
                        if x == e.reversed() && x != e {
                            assert(tk1[k as int].is_stargate() && tk1[k as int].reversed() == x);
                            assert(x.reversed() == e);
                        }
                    }
                }
            }
            k = k + 1;
        }
        assert(edges@.take(m as int) == edges@);
        let g = SpaceGraph { nodes, index, adjacency };
        proof {
            assert forall|id: NodeId| !has_id(nodes@, id) implies #[trigger] g.node_spec(id) is None by {
                if index@.contains_key(id) {
                    assert(nodes@[index@[id] as int].id == id);
                }
            }
            assert forall|x: int| 0 <= x < nodes.len() implies g.node_spec(#[trigger] nodes@[x].id) == Some(nodes@[x]) by {
                let id = nodes@[x].id;
                assert(has_id(nodes@, id));
                assert(index@.contains_key(id));
                let y = index@[id] as int;
                if y != x {
                    if y < x {
                        assert(nodes@[y].id != nodes@[x].id);
                    } else {
                        assert(nodes@[x].id != nodes@[y].id);
                    }
                }
            }
            assert forall|id: NodeId, e: Edge| #[trigger] g.edges_spec(id).contains(e)
                <==> e.from == id && canonical_edge(edges@, e) by {
                if g.edges_spec(id).contains(e) {
                    let y = choose|y: int| 0 <= y < g.edges_spec(id).len() && g.edges_spec(id)[y] == e;
                    assert(adjacency@[index@[id] as int]@[y] == e);
                }
                if e.from == id && canonical_edge(edges@, e) {
                    if edges@.contains(e) {
                        let y = choose|y: int| 0 <= y < edges@.len() && edges@[y] == e;
                        assert(adjacency@[index@[edges@[y].from] as int]@.contains(edges@[y]));
                    } else {
                        let y = choose|y: int| 0 <= y < edges@.len() && (#[trigger] edges@[y]).is_stargate() && edges@[y].reversed() == e;
                        assert(adjacency@[index@[edges@[y].to] as int]@.contains(edges@[y].reversed()));
                    }
                }
            }
            assert forall|id: NodeId, e: Edge| #[trigger] g.edges_spec(id).contains(e) && e.is_stargate()
                implies g.edges_spec(e.to).contains(e.reversed()) by {
                let y = choose|y: int| 0 <= y < g.edges_spec(id).len() && g.edges_spec(id)[y] == e;
                assert(adjacency@[index@[id] as int]@[y] == e);
            }
        }
        Ok(g)
    }

    /// The nodes as supplied at construction, in that order.
    pub closed spec fn nodes_view(&self) -> Seq<Node> {
        self.nodes@
    }

    /// Every node, in the order of construction.
    pub fn all_nodes(&self) -> (r: &Vec<Node>)
        ensures
            r@ == self.nodes_view(),
            ids_distinct(r@),
            forall|i: int| 0 <= i < r.len() ==> self.node_spec(#[trigger] r@[i].id) == Some(r@[i]),
            forall|id: NodeId| #[trigger] self.node_spec(id) is Some ==> exists|i: int| 0 <= i < r.len() && r@[i].id == id,
    {
        proof {
            use_type_invariant(self);
            assert forall|i: int, j: int| 0 <= i < j < self.nodes.len() implies
                #[trigger] self.nodes@[i].id != #[trigger] self.nodes@[j].id by {
                assert(self.index@[self.nodes@[i].id] == i);
                assert(self.index@[self.nodes@[j].id] == j);
            }
        }
        &self.nodes
    }
}

/// Adds `e` to `list` unless it is already there.
fn push_unique(list: &mut Vec<Edge>, e: Edge)
    ensures
        forall|x: Edge| #[trigger] final(list)@.contains(x) <==> old(list)@.contains(x) || x == e,
{
    let mut i: usize = 0;
    while i < list.len()
        invariant
            i <= list.len(),
            forall|j: int| 0 <= j < i ==> list@[j] != e,
        decreases list.len() - i,
    {
        if list[i] == e {
            assert(list@[i as int] == e);
            return;
        }
        i = i + 1;
    }
    let ghost before = list@;
    list.push(e);
    proof {
        assert forall|x: Edge| #[trigger] list@.contains(x) <==> before.contains(x) || x == e by {
            if before.contains(x) {
                let j = choose|j: int| 0 <= j < before.len() && before[j] == x;
                assert(list@[j] == x);
            }
            if list@.contains(x) && x != e {
                let j = choose|j: int| 0 <= j < list@.len() && list@[j] == x;
                assert(before[j] == x);
            }
            assert(list@[before.len() as int] == e);
        }
    }
}

impl GraphView for SpaceGraph {
    closed spec fn node_spec(&self, id: NodeId) -> Option<Node> {
        if self.index@.contains_key(id) && self.nodes@[self.index@[id] as int].id == id {
            Some(self.nodes@[self.index@[id] as int])
        } else {
            None
        }
    }

    closed spec fn edges_spec(&self, id: NodeId) -> Seq<Edge> {
        if self.index@.contains_key(id) {
            self.adjacency@[self.index@[id] as int]@
        } else {
            Seq::empty()
        }
    }

    proof fn lemma_node_ids(&self) {
    }

    fn get_node(&self, id: NodeId) -> (r: Option<&Node>) {
        proof { use_type_invariant(self); }
        match self.index.get(&id) {
            Some(i) => Some(&self.nodes[*i]),
            None => None,
        }
    }

    fn get_edges(&self, id: NodeId) -> (r: Vec<Edge>) {
        proof { use_type_invariant(self); }
        match self.index.get(&id) {
            Some(i) => copy_edges(&self.adjacency[*i]),
            None => Vec::new(),
        }
    }
}

/// A copy of a list of edges.
fn copy_edges(list: &Vec<Edge>) -> (r: Vec<Edge>)
    ensures
        r@ == list@,
{
    let mut r: Vec<Edge> = Vec::new();
    let mut i: usize = 0;
    while i < list.len()
        invariant
            i <= list.len(),
            r@ == list@.take(i as int),
        decreases list.len() - i,
    {
        r.push(list[i]);
        proof { assert(r@ == list@.take(i as int + 1)); }
        i = i + 1;
    }
    proof { assert(list@.take(list.len() as int) == list@); }
    r
}

/// Why an overlay refused an edge.
#[derive(Clone, Copy, Debug, PartialEq, Eq, Structural)]
pub enum OverlayError {
    /// The base graph has no node with this id.
    UnknownNode(NodeId),
}

/// The edges of `edges` that leave `id` and whose endpoints were not removed,
/// in order.
pub open spec fn overlay_edges(edges: Seq<Edge>, id: NodeId, removed: Seq<(NodeId, NodeId)>) -> Seq<Edge>
    decreases edges.len(),
{
    if edges.len() == 0 {
        Seq::empty()
    } else {
        let rest = overlay_edges(edges.drop_last(), id, removed);
        let e = edges.last();
        if e.from == id && !removed.contains((e.from, e.to)) {
            rest.push(e)
        } else {
            rest
        }
    }
}

/// A read-only view of a base graph with edges added and removed, which
/// leaves the base untouched.
pub struct GraphOverlay<'a> {
    base: &'a SpaceGraph,
    added: Vec<Edge>,
    removed: Vec<(NodeId, NodeId)>,
}

fn contains_pair(pairs: &Vec<(NodeId, NodeId)>, from: NodeId, to: NodeId) -> (r: bool)
    ensures
        r == pairs@.contains((from, to)),
{
    let mut i: usize = 0;
    while i < pairs.len()
        invariant
            i <= pairs.len(),
            forall|j: int| 0 <= j < i ==> pairs@[j] != (from, to),
        decreases pairs.len() - i,
    {
        let (a, b) = pairs[i];
        if a == from && b == to {
            assert(pairs@[i as int] == (from, to));
            return true;
        }
        i = i + 1;
    }
    false
}

impl<'a> GraphOverlay<'a> {
    pub closed spec fn base_view(&self) -> SpaceGraph {
        *self.base
    }

    pub closed spec fn added_view(&self) -> Seq<Edge> {
        self.added@
    }

    pub closed spec fn removed_view(&self) -> Seq<(NodeId, NodeId)> {
        self.removed@
    }

    /// Nodes are those of the base; the edges of a node are its base edges,
    /// then the added ones, less those between removed endpoints.
    pub proof fn lemma_view(&self)
        ensures
            forall|id: NodeId| #[trigger] self.node_spec(id) == self.base_view().node_spec(id),
            forall|id: NodeId| #[trigger] self.edges_spec(id)
                == overlay_edges(self.base_view().edges_spec(id) + self.added_view(), id, self.removed_view()),
    {
    }

    /// An overlay that changes nothing.
    pub fn new(base: &'a SpaceGraph) -> (r: Self)
        ensures
            r.base_view() == *base,
            r.added_view() == Seq::<Edge>::empty(),
            r.removed_view() == Seq::<(NodeId, NodeId)>::empty(),
    {
        GraphOverlay { base, added: Vec::new(), removed: Vec::new() }
    }

    /// An overlay that adds `edges`, all of whose endpoints must be nodes of
    /// the base.
    pub fn with_added(base: &'a SpaceGraph, edges: Vec<Edge>) -> (r: Result<Self, OverlayError>)
        ensures
            r is Ok <==> forall|k: int| 0 <= k < edges.len() ==> base.node_spec(#[trigger] edges@[k].from) is Some
                && base.node_spec(edges@[k].to) is Some,
            r matches Err(OverlayError::UnknownNode(id)) ==> base.node_spec(id) is None
                && exists|k: int| 0 <= k < edges.len() && (#[trigger] edges@[k].from == id || edges@[k].to == id),
            r matches Ok(o) ==> o.base_view() == *base && o.added_view() == edges@
                && o.removed_view() == Seq::<(NodeId, NodeId)>::empty(),
    {
        let mut o = GraphOverlay::new(base);
        let mut k: usize = 0;
        while k < edges.len()
            invariant
                k <= edges.len(),
                o.base_view() == *base,
                o.added_view() == edges@.take(k as int),
                o.removed_view() == Seq::<(NodeId, NodeId)>::empty(),
                forall|x: int| 0 <= x < k ==> base.node_spec(#[trigger] edges@[x].from) is Some && base.node_spec(edges@[x].to) is Some,
            decreases edges.len() - k,
        {
            let e = edges[k];
            match o.add_edge(e) {
                Err(err) => {
                    assert(edges@[k as int] == e);
                    return Err(err);
                },
                Ok(()) => {},
            }
            proof {
                assert(edges@.take(k as int + 1) == edges@.take(k as int).push(e));
                assert(edges@[k as int] == e);
            }
            k = k + 1;
        }
        proof { assert(edges@.take(edges.len() as int) == edges@); }
        Ok(o)
    }

    /// Adds an edge, whose endpoints must be nodes of the base.
    pub fn add_edge(&mut self, e: Edge) -> (r: Result<(), OverlayError>)
        ensures
            old(self).base_view().node_spec(e.from) is None ==> r == Err::<(), OverlayError>(OverlayError::UnknownNode(e.from)),
            old(self).base_view().node_spec(e.from) is Some && old(self).base_view().node_spec(e.to) is None
                ==> r == Err::<(), OverlayError>(OverlayError::UnknownNode(e.to)),
            r is Ok <==> old(self).base_view().node_spec(e.from) is Some && old(self).base_view().node_spec(e.to) is Some,
            final(self).base_view() == old(self).base_view(),
            final(self).removed_view() == old(self).removed_view(),
            r is Ok ==> final(self).added_view() == old(self).added_view().push(e),
            r is Err ==> final(self).added_view() == old(self).added_view(),
    {
        if self.base.get_node(e.from).is_none() {
            return Err(OverlayError::UnknownNode(e.from));
        }
        if self.base.get_node(e.to).is_none() {
            return Err(OverlayError::UnknownNode(e.to));
        }
        self.added.push(e);
        Ok(())
    }

    /// Hides every edge from `from` to `to`, of the base or added.
    pub fn remove_edge(&mut self, from: NodeId, to: NodeId)
        ensures
            final(self).base_view() == old(self).base_view(),
            final(self).added_view() == old(self).added_view(),
            final(self).removed_view() == old(self).removed_view().push((from, to)),
    {
        self.removed.push((from, to));
    }

    /// The graph underneath.
    pub fn base(&self) -> (r: &'a SpaceGraph)
        ensures
            *r == self.base_view(),
    {
        self.base
    }
}

impl<'a> GraphView for GraphOverlay<'a> {
    closed spec fn node_spec(&self, id: NodeId) -> Option<Node> {
        self.base.node_spec(id)
    }

    closed spec fn edges_spec(&self, id: NodeId) -> Seq<Edge> {
        overlay_edges(self.base.edges_spec(id) + self.added@, id, self.removed@)
    }

    proof fn lemma_node_ids(&self) {
        self.base.lemma_node_ids();
    }

    fn get_node(&self, id: NodeId) -> (r: Option<&Node>) {
        self.base.get_node(id)
    }

    fn get_edges(&self, id: NodeId) -> (r: Vec<Edge>) {
        let mut all = self.base.get_edges(id);
        let mut k: usize = 0;
        let ghost b = all@;
        while k < self.added.len()
            invariant
                k <= self.added.len(),
                all@ == b + self.added@.take(k as int),
            decreases self.added.len() - k,
        {
            all.push(self.added[k]);
            proof { assert(self.added@.take(k as int + 1) == self.added@.take(k as int).push(self.added@[k as int])); }
            k = k + 1;
        }
        proof { assert(self.added@.take(self.added.len() as int) == self.added@); }
        let mut r: Vec<Edge> = Vec::new();
        let mut i: usize = 0;
        while i < all.len()
            invariant
                i <= all.len(),
                r@ == overlay_edges(all@.take(i as int), id, self.removed@),
            decreases all.len() - i,
        {
            let e = all[i];
            proof { assert(all@.take(i as int + 1).drop_last() == all@.take(i as int)); }
            if e.from == id && !contains_pair(&self.removed, e.from, e.to) {
                r.push(e);
            }
            i = i + 1;
        }
        proof { assert(all@.take(all.len() as int) == all@); }
        r
    }
}

} // verus!
