use vstd::prelude::*;

use std::collections::{HashMap, HashSet};

use vstd::set_lib::{lemma_int_range, lemma_len_subset, set_int_range};

use crate::graph::{ids_distinct, GraphView, SpaceGraph};
use crate::rules::{rule_cost, saturating_sum, Rule};
use crate::types::{Coordinate, Edge, Node, NodeId};

verus! {

broadcast use vstd::std_specs::hash::group_hash_axioms;

/// Why no path was returned.
#[derive(Clone, Copy, Debug, PartialEq, Eq, Structural)]
pub enum RouteError {
    /// The graph has no node with this id.
    UnknownNode(NodeId),
    /// No admissible walk leads from the source to the destination.
    NotFound,
}

/// One admissible hop: both nodes exist and some edge from `a` to `b` is
/// admitted by the rule.
pub open spec fn hop<G: GraphView>(g: &G, rules: &Rule, a: NodeId, b: NodeId) -> bool {
    &&& g.node_spec(a) is Some
    &&& g.node_spec(b) is Some
    &&& exists|j: int|
        0 <= j < g.edges_spec(a).len() && (#[trigger] g.edges_spec(a)[j]).to == b
            && rule_cost(*rules, g.node_spec(a)->0, g.node_spec(b)->0, g.edges_spec(a)[j]) is Some
}

/// The cost of the `j`-th edge of `a` as a hop to `b`, if it is one that
/// the rule admits.
pub open spec fn edge_cost<G: GraphView>(g: &G, rules: &Rule, a: NodeId, b: NodeId, j: int) -> Option<u64> {
    if 0 <= j < g.edges_spec(a).len() && g.edges_spec(a)[j].to == b && g.node_spec(a) is Some && g.node_spec(b) is Some {
        rule_cost(*rules, g.node_spec(a)->0, g.node_spec(b)->0, g.edges_spec(a)[j])
    } else {
        None
    }
}

/// The cheapest admissible hop to `b` among the first `k` edges of `a`.
pub open spec fn cheapest_edge<G: GraphView>(g: &G, rules: &Rule, a: NodeId, b: NodeId, k: nat) -> Option<u64>
    decreases k,
{
    if k == 0 {
        None
    } else {
        let rest = cheapest_edge(g, rules, a, b, (k - 1) as nat);
        match (rest, edge_cost(g, rules, a, b, k - 1)) {
            (None, c) => c,
            (Some(x), None) => Some(x),
            (Some(x), Some(y)) => Some(if y < x { y } else { x }),
        }
    }
}

/// The cost of the cheapest admissible edge from `a` to `b`.
pub open spec fn hop_cost<G: GraphView>(g: &G, rules: &Rule, a: NodeId, b: NodeId) -> u64 {
    match cheapest_edge(g, rules, a, b, g.edges_spec(a).len()) {
        Some(c) => c,
        None => u64::MAX,
    }
}

/// The cost of a walk: its hops at their cheapest, summed and held at
/// `u64::MAX`.
pub open spec fn walk_cost<G: GraphView>(g: &G, rules: &Rule, p: Seq<NodeId>) -> u64
    decreases p.len(),
{
    if p.len() < 2 {
        0
    } else {
        saturating_sum(walk_cost(g, rules, p.drop_last()), hop_cost(g, rules, p[p.len() - 2], p[p.len() - 1]))
    }
}

proof fn lemma_cheapest_edge<G: GraphView>(g: &G, rules: &Rule, a: NodeId, b: NodeId, k: nat)
    ensures
        forall|j: int| 0 <= j < k && #[trigger] edge_cost(g, rules, a, b, j) is Some
            ==> cheapest_edge(g, rules, a, b, k) is Some
                && cheapest_edge(g, rules, a, b, k)->0 <= edge_cost(g, rules, a, b, j)->0,
        cheapest_edge(g, rules, a, b, k) is Some ==> exists|j: int| 0 <= j < k
            && #[trigger] edge_cost(g, rules, a, b, j) == cheapest_edge(g, rules, a, b, k),
    decreases k,
{
    if k > 0 {
        lemma_cheapest_edge(g, rules, a, b, (k - 1) as nat);
        if cheapest_edge(g, rules, a, b, (k - 1) as nat) is None && edge_cost(g, rules, a, b, k - 1) is Some {
            assert(edge_cost(g, rules, a, b, k - 1) == cheapest_edge(g, rules, a, b, k));
        }
    }
}

proof fn lemma_walk_cost_push<G: GraphView>(g: &G, rules: &Rule, p: Seq<NodeId>, b: NodeId)
    requires
        p.len() > 0,
    ensures
        walk_cost(g, rules, p.push(b)) == saturating_sum(walk_cost(g, rules, p), hop_cost(g, rules, p.last(), b)),
{
    assert(p.push(b).drop_last() == p);
}

proof fn lemma_walk_cost_prefix<G: GraphView>(g: &G, rules: &Rule, q: Seq<NodeId>, j: int, k: int)
    requires
        1 <= j <= k <= q.len(),
    ensures
        walk_cost(g, rules, q.take(j)) <= walk_cost(g, rules, q.take(k)),
    decreases k - j,
{
    if j < k {
        lemma_walk_cost_prefix(g, rules, q, j, k - 1);
        assert(q.take(k).drop_last() == q.take(k - 1));
    }
}

proof fn lemma_unit_cheapest<G: GraphView>(g: &G, rules: &Rule, a: NodeId, b: NodeId, k: nat)
    requires
        *rules is UnitCost,
    ensures
        cheapest_edge(g, rules, a, b, k) is None || cheapest_edge(g, rules, a, b, k) == Some(1u64),
    decreases k,
{
    if k > 0 {
        lemma_unit_cheapest(g, rules, a, b, (k - 1) as nat);
    }
}

/// Under `UnitCost` every hop costs one.
proof fn lemma_unit_hop_cost<G: GraphView>(g: &G, rules: &Rule, a: NodeId, b: NodeId)
    requires
        *rules is UnitCost,
        hop(g, rules, a, b),
    ensures
        hop_cost(g, rules, a, b) == 1,
{
    lemma_unit_cheapest(g, rules, a, b, g.edges_spec(a).len());
    lemma_cheapest_edge(g, rules, a, b, g.edges_spec(a).len());
    let j = choose|j: int| 0 <= j < g.edges_spec(a).len() && (#[trigger] g.edges_spec(a)[j]).to == b
        && rule_cost(*rules, g.node_spec(a)->0, g.node_spec(b)->0, g.edges_spec(a)[j]) is Some;
    assert(edge_cost(g, rules, a, b, j) is Some);
}

/// Under `UnitCost` a walk costs its number of hops, held at `u64::MAX`.
proof fn lemma_unit_walk_cost<G: GraphView>(g: &G, rules: &Rule, p: Seq<NodeId>)
    requires
        *rules is UnitCost,
        is_walk(g, rules, p),
    ensures
        walk_cost(g, rules, p) == if p.len() - 1 > u64::MAX { u64::MAX } else { (p.len() - 1) as u64 },
    decreases p.len(),
{
    if p.len() >= 2 {
        let q = p.drop_last();
        assert forall|i: int| 0 <= i < q.len() - 1 implies #[trigger] hop(g, rules, q[i], q[i + 1]) by {
            assert(q[i] == p[i] && q[i + 1] == p[i + 1]);
            assert(hop(g, rules, p[i], p[i + 1]));
        }
        lemma_unit_walk_cost(g, rules, q);
        let k = p.len() - 2;
        assert(hop(g, rules, p[k], p[k + 1]));
        lemma_unit_hop_cost(g, rules, p[k], p[k + 1]);
    }
}

/// A walk of admissible hops through existing nodes.
pub open spec fn is_walk<G: GraphView>(g: &G, rules: &Rule, p: Seq<NodeId>) -> bool {
    &&& p.len() > 0
    &&& g.node_spec(p[0]) is Some
    &&& forall|i: int| 0 <= i < p.len() - 1 ==> #[trigger] hop(g, rules, p[i], p[i + 1])
}

/// A walk from `s` to `d`.
pub open spec fn is_route<G: GraphView>(g: &G, rules: &Rule, p: Seq<NodeId>, s: NodeId, d: NodeId) -> bool {
    &&& is_walk(g, rules, p)
    &&& p[0] == s
    &&& p.last() == d
}

pub open spec fn reachable<G: GraphView>(g: &G, rules: &Rule, s: NodeId, d: NodeId) -> bool {
    exists|p: Seq<NodeId>| #[trigger] is_route(g, rules, p, s, d)
}

proof fn lemma_walk_push<G: GraphView>(g: &G, rules: &Rule, p: Seq<NodeId>, b: NodeId)
    requires
        is_walk(g, rules, p),
        hop(g, rules, p.last(), b),
    ensures
        is_walk(g, rules, p.push(b)),
{
    let q = p.push(b);
    assert forall|i: int| 0 <= i < q.len() - 1 implies #[trigger] hop(g, rules, q[i], q[i + 1]) by {
        if i < p.len() - 1 {
            assert(q[i] == p[i] && q[i + 1] == p[i + 1]);
            assert(hop(g, rules, p[i], p[i + 1]));
        }
    }
}

/// A walk that starts in a set closed under admissible hops stays in it.
proof fn lemma_walk_stays_in<G: GraphView>(g: &G, rules: &Rule, p: Seq<NodeId>, closed: Set<NodeId>, i: int)
    requires
        is_walk(g, rules, p),
        closed.contains(p[0]),
        forall|a: NodeId, b: NodeId| closed.contains(a) && #[trigger] hop(g, rules, a, b) ==> closed.contains(b),
        0 <= i < p.len(),
    ensures
        closed.contains(p[i]),
    decreases i,
{
    if i > 0 {
        lemma_walk_stays_in(g, rules, p, closed, i - 1);
        let k = i - 1;
        assert(hop(g, rules, p[k], p[k + 1]));
    }
}

/// The last node of a walk exists.
proof fn lemma_walk_end<G: GraphView>(g: &G, rules: &Rule, p: Seq<NodeId>)
    requires
        is_walk(g, rules, p),
    ensures
        g.node_spec(p.last()) is Some,
{
    if p.len() > 1 {
        let k = p.len() - 2;
        assert(hop(g, rules, p[k], p[k + 1]));
    }
}

proof fn lemma_distinct_ids_fit(ids: Seq<NodeId>)
    requires
        forall|i: int, j: int| 0 <= i < ids.len() && 0 <= j < ids.len() && i != j ==> ids[i] != ids[j],
    ensures
        ids.len() <= 0x1_0000_0000,
{
    let m = ids.map_values(|x: NodeId| x as int);
    assert(m.no_duplicates()) by {
        assert forall|i: int, j: int| 0 <= i < m.len() && 0 <= j < m.len() && i != j implies m[i] != m[j] by {
            assert(ids[i] != ids[j]);
        }
    }
    m.unique_seq_to_set();
    lemma_int_range(0, 0x1_0000_0000);
    assert(m.to_set().subset_of(set_int_range(0, 0x1_0000_0000)));
    lemma_len_subset(m.to_set(), set_int_range(0, 0x1_0000_0000));
}

fn extended(p: &Vec<NodeId>, b: NodeId) -> (r: Vec<NodeId>)
    ensures
        r@ == p@.push(b),
{
    let mut r: Vec<NodeId> = Vec::new();
    let mut i: usize = 0;
    while i < p.len()
        invariant
            i <= p.len(),
            r@ == p@.take(i as int),
        decreases p.len() - i,
    {
        r.push(p[i]);
        proof { assert(r@ == p@.take(i as int + 1)); }
        i = i + 1;
    }
    proof { assert(p@.take(p.len() as int) == p@); }
    r.push(b);
    r
}

fn copy_ids(p: &Vec<NodeId>) -> (r: Vec<NodeId>)
    ensures
        r@ == p@,
{
    let mut r: Vec<NodeId> = Vec::new();
    let mut i: usize = 0;
    while i < p.len()
        invariant
            i <= p.len(),
            r@ == p@.take(i as int),
        decreases p.len() - i,
    {
        r.push(p[i]);
        proof { assert(r@ == p@.take(i as int + 1)); }
        i = i + 1;
    }
    proof { assert(p@.take(p.len() as int) == p@); }
    r
}

/// The last node inside a set on a walk that leaves it.
proof fn lemma_first_exit(p: Seq<NodeId>, inside: Set<NodeId>) -> (j: int)
    requires
        p.len() > 0,
        inside.contains(p[0]),
        !inside.contains(p.last()),
    ensures
        1 <= j < p.len(),
        inside.contains(p[j - 1]),
        !inside.contains(p[j]),
    decreases p.len(),
{
    if inside.contains(p[p.len() - 2]) {
        p.len() - 1
    } else {
        let q = p.drop_last();
        let j = lemma_first_exit(q, inside);
        assert(q[j - 1] == p[j - 1] && q[j] == p[j]);
        j
    }
}

proof fn lemma_route_prefix<G: GraphView>(g: &G, rules: &Rule, q: Seq<NodeId>, s: NodeId, d: NodeId, j: int)
    requires
        is_route(g, rules, q, s, d),
        1 <= j <= q.len(),
    ensures
        is_route(g, rules, q.take(j), s, q[j - 1]),
{
    let t = q.take(j);
    assert forall|i: int| 0 <= i < t.len() - 1 implies #[trigger] hop(g, rules, t[i], t[i + 1]) by {
        assert(t[i] == q[i] && t[i + 1] == q[i + 1]);
        assert(hop(g, rules, q[i], q[i + 1]));
    }
}

/// The cheapest admissible path from `source` to `destination`, as the ids
/// of the nodes it visits, both ends included. No route costs less; under
/// `UnitCost` none has fewer hops.
///
/// Nodes are settled in order of accumulated cost, the smaller id first
/// among equal costs; the search stops when the destination is settled.
pub fn find_path<G: GraphView>(g: &G, source: NodeId, destination: NodeId, rules: &Rule) -> (r: Result<Vec<NodeId>, RouteError>)
    ensures
        g.node_spec(source) is None ==> r == Err::<Vec<NodeId>, RouteError>(RouteError::UnknownNode(source)),
        g.node_spec(source) is Some && g.node_spec(destination) is None
            ==> r == Err::<Vec<NodeId>, RouteError>(RouteError::UnknownNode(destination)),
        g.node_spec(source) is Some && source == destination ==> r is Ok && r->Ok_0@ == seq![source],
        r is Ok ==> is_route(g, rules, r->Ok_0@, source, destination),
        r == Err::<Vec<NodeId>, RouteError>(RouteError::NotFound) <==> g.node_spec(source) is Some
            && g.node_spec(destination) is Some && !reachable(g, rules, source, destination),
        *rules is UnitCost && r is Ok ==> forall|q: Seq<NodeId>| #[trigger] is_route(g, rules, q, source, destination)
            ==> r->Ok_0@.len() <= q.len(),
        r is Ok ==> forall|q: Seq<NodeId>| #[trigger] is_route(g, rules, q, source, destination)
            ==> walk_cost(g, rules, r->Ok_0@) <= walk_cost(g, rules, q),
        r is Ok <==> g.node_spec(source) is Some && g.node_spec(destination) is Some
            && reachable(g, rules, source, destination),
        r matches Err(RouteError::UnknownNode(x)) ==> g.node_spec(x) is None,
{
    if g.get_node(source).is_none() {
        return Err(RouteError::UnknownNode(source));
    }
    if g.get_node(destination).is_none() {
        return Err(RouteError::UnknownNode(destination));
    }
    if source == destination {
        let r = vec![source];
        proof { assert(is_route(g, rules, r@, source, destination)); }
        return Ok(r);
    }
    let mut ids: Vec<NodeId> = vec![source];
    let mut dist: Vec<u64> = vec![0];
    let mut paths: Vec<Vec<NodeId>> = vec![vec![source]];
    let mut settled: Vec<bool> = vec![false];
    let mut pos: HashMap<NodeId, usize> = HashMap::new();
    pos.insert(source, 0);
    let ghost mut done: Set<int> = Set::empty();
    proof {
        assert(is_route(g, rules, paths@[0]@, source, ids@[0]));
    }
    loop
        invariant
            ids.len() == dist.len() == paths.len() == settled.len(),
            ids.len() > 0,
            ids@[0] == source,
            dist@[0] == 0,
            !settled@[0] ==> ids.len() == 1,
            g.node_spec(source) is Some,
            g.node_spec(destination) is Some,
            source != destination,
            forall|id: NodeId| #[trigger] pos@.contains_key(id) ==> pos@[id] < ids.len() && ids@[pos@[id] as int] == id,
            forall|i: int| 0 <= i < ids.len() ==> pos@.contains_key(#[trigger] ids@[i]) && pos@[ids@[i]] == i,
            forall|i: int| 0 <= i < ids.len() ==> is_route(g, rules, (#[trigger] paths@[i])@, source, ids@[i]),
            forall|i: int| 0 <= i < ids.len() ==> (#[trigger] settled@[i] <==> done.contains(i)),
            forall|i: int| #[trigger] done.contains(i) ==> 0 <= i < ids.len() && ids@[i] != destination,
            done.finite(),
            forall|i: int, b: NodeId| 0 <= i < ids.len() && settled@[i] && #[trigger] hop(g, rules, ids@[i], b) ==> pos@.contains_key(b),
            forall|i: int| 0 <= i < ids.len() ==> walk_cost(g, rules, (#[trigger] paths@[i])@) <= dist@[i],
            forall|i: int, q: Seq<NodeId>| 0 <= i < ids.len() && settled@[i] && #[trigger] is_route(g, rules, q, source, ids@[i])
                ==> dist@[i] <= walk_cost(g, rules, q),
            forall|i: int, v: int| 0 <= i < ids.len() && 0 <= v < ids.len() && settled@[i] && !settled@[v]
                && #[trigger] hop(g, rules, ids@[i], ids@[v]) ==> dist@[v] <= saturating_sum(dist@[i], hop_cost(g, rules, ids@[i], ids@[v])),
            forall|i: int, j: int| 0 <= i < ids.len() && 0 <= j < ids.len() && #[trigger] settled@[i] && !#[trigger] settled@[j]
                ==> dist@[i] <= dist@[j],
        decreases 0x1_0000_0000 - done.len(),
    {
        proof {
            assert forall|i: int, j: int| 0 <= i < ids.len() && 0 <= j < ids.len() && i != j implies ids@[i] != ids@[j] by {
                assert(pos@[ids@[i]] == i);
                assert(pos@[ids@[j]] == j);
            }
            lemma_distinct_ids_fit(ids@);
            lemma_int_range(0, ids.len() as int);
            assert(done.subset_of(set_int_range(0, ids.len() as int)));
            lemma_len_subset(done, set_int_range(0, ids.len() as int));
        }
        let mut best: Option<usize> = None;
        let mut i: usize = 0;
        while i < ids.len()
            invariant
                i <= ids.len() == dist.len() == settled.len(),
                best matches Some(b) ==> b < ids.len() && !settled@[b as int]
                    && forall|j: int| 0 <= j < i && !settled@[j] ==> dist@[b as int] <= #[trigger] dist@[j],
                best is None ==> forall|j: int| 0 <= j < i ==> settled@[j],
            decreases ids.len() - i,
        {
            if !settled[i] {
                best = match best {
                    None => Some(i),
                    Some(b) => if dist[i] < dist[b] || (dist[i] == dist[b] && ids[i] < ids[b]) {
                        Some(i)
                    } else {
                        Some(b)
                    },
                };
            }
            i = i + 1;
        }
        let u = match best {
            None => {
                proof {
                    let closed = pos@.dom();
                    assert forall|a: NodeId, b: NodeId| closed.contains(a) && #[trigger] hop(g, rules, a, b) implies closed.contains(b) by {
                        let ia = pos@[a] as int;
                        assert(settled@[ia]);
                    }
                    assert(!closed.contains(destination)) by {
                        if closed.contains(destination) {
                            assert(settled@[pos@[destination] as int]);
                            assert(done.contains(pos@[destination] as int));
                        }
                    }
                    assert forall|p: Seq<NodeId>| !#[trigger] is_route(g, rules, p, source, destination) by {
                        if is_route(g, rules, p, source, destination) {
                            assert(closed.contains(p[0]));
                            lemma_walk_stays_in(g, rules, p, closed, p.len() - 1);
                        }
                    }
                }
                return Err(RouteError::NotFound);
            },
            Some(u) => u,
        };
        let du = dist[u];
        proof {
            assert forall|q: Seq<NodeId>| #[trigger] is_route(g, rules, q, source, ids@[u as int]) implies du <= walk_cost(g, rules, q) by {
                if u != 0 {
                    let inside = Set::new(|x: NodeId| pos@.contains_key(x) && settled@[pos@[x] as int]);
                    assert(inside.contains(q[0]));
                    let j = lemma_first_exit(q, inside);
                    let i = pos@[q[j - 1]] as int;
                    let k = j - 1;
                    assert(hop(g, rules, q[k], q[k + 1]));
                    assert(hop(g, rules, ids@[i], q[j]));
                    assert(pos@.contains_key(q[j]));
                    let v = pos@[q[j]] as int;
                    assert(hop(g, rules, ids@[i], ids@[v]));
                    lemma_route_prefix(g, rules, q, source, ids@[u as int], j);
                    assert(is_route(g, rules, q.take(j), source, ids@[i]));
                    assert(dist@[i] <= walk_cost(g, rules, q.take(j)));
                    lemma_walk_cost_push(g, rules, q.take(j), q[j]);
                    assert(q.take(j).push(q[j]) == q.take(j + 1));
                    lemma_walk_cost_prefix(g, rules, q, j + 1, q.len() as int);
                    assert(q.take(q.len() as int) == q);
                    assert(dist@[v] <= saturating_sum(dist@[i], hop_cost(g, rules, ids@[i], ids@[v])));
                    assert(du <= dist@[v]);
                }
            }
        }
        if ids[u] == destination {
            let r = copy_ids(&paths[u]);
            let hops = r.len();
            proof {
                assert(is_route(g, rules, paths@[u as int]@, source, ids@[u as int]));
                if *rules is UnitCost {
                    lemma_unit_walk_cost(g, rules, r@);
                    assert(hops as int == r@.len() && hops as int <= u64::MAX);
                    assert(walk_cost(g, rules, r@) <= du);
                    assert forall|q: Seq<NodeId>| #[trigger] is_route(g, rules, q, source, destination) implies r@.len() <= q.len() by {
                        assert(is_route(g, rules, q, source, ids@[u as int]));
                        assert(du <= walk_cost(g, rules, q));
                        lemma_unit_walk_cost(g, rules, q);
                    }
                }
            }
            return Ok(r);
        }
        let ghost dist0 = dist@;
        let ghost settled0 = settled@;
        settled.set(u, true);
        proof {
            assert(!done.contains(u as int));
            done = done.insert(u as int);
            assert(done.subset_of(set_int_range(0, ids.len() as int)));
            lemma_len_subset(done, set_int_range(0, ids.len() as int));
            assert(is_route(g, rules, paths@[u as int]@, source, ids@[u as int]));
            lemma_walk_end(g, rules, paths@[u as int]@);
        }
        let a = ids[u];
        let from_node = g.get_node(a).unwrap();
        let edges = g.get_edges(a);
        let pu = copy_ids(&paths[u]);
        proof {
            assert(is_route(g, rules, paths@[u as int]@, source, a));
        }
        let ghost ids0 = ids@;
        let mut k: usize = 0;
        while k < edges.len()
            invariant
                k <= edges.len(),
                edges@ == g.edges_spec(a),
                g.node_spec(a) is Some,
                *from_node == g.node_spec(a)->0,
                is_route(g, rules, pu@, source, a),
                u < ids0.len() <= ids.len(),
                ids@[u as int] == a,
                settled@[u as int],
                settled@[0],
                dist@[u as int] == du,
                dist@[0] == 0,
                forall|x: int| 0 <= x < ids0.len() ==> ids@[x] == ids0[x],
                settled0.len() == dist0.len() == ids0.len(),
                forall|x: int| 0 <= x < ids0.len() ==> settled@[x] == (settled0[x] || x == u),
                forall|x: int| ids0.len() <= x < ids.len() ==> !settled@[x],
                forall|x: int| 0 <= x < ids0.len() && settled@[x] ==> dist@[x] == dist0[x],
                forall|x: int| 0 <= x < ids0.len() ==> dist@[x] <= dist0[x],
                ids.len() == dist.len() == paths.len() == settled.len(),
                ids@[0] == source,
                forall|id: NodeId| #[trigger] pos@.contains_key(id) ==> pos@[id] < ids.len() && ids@[pos@[id] as int] == id,
                forall|i: int| 0 <= i < ids.len() ==> pos@.contains_key(#[trigger] ids@[i]) && pos@[ids@[i]] == i,
                forall|i: int| 0 <= i < ids.len() ==> is_route(g, rules, (#[trigger] paths@[i])@, source, ids@[i]),
                forall|i: int| 0 <= i < ids.len() ==> (#[trigger] settled@[i] <==> done.contains(i)),
                forall|i: int| #[trigger] done.contains(i) ==> 0 <= i < ids0.len() && ids@[i] != destination,
                done.finite(),
                done.len() <= ids0.len() <= 0x1_0000_0000,
                forall|i: int, b: NodeId| 0 <= i < ids.len() && settled@[i] && i != u && #[trigger] hop(g, rules, ids@[i], b) ==> pos@.contains_key(b),
                forall|j: int| 0 <= j < k && g.node_spec(edges@[j].to) is Some
                    && rule_cost(*rules, g.node_spec(a)->0, g.node_spec(edges@[j].to)->0, #[trigger] edges@[j]) is Some
                    ==> pos@.contains_key(edges@[j].to),
                walk_cost(g, rules, pu@) <= du,
                forall|i: int| 0 <= i < ids.len() ==> walk_cost(g, rules, (#[trigger] paths@[i])@) <= dist@[i],
                forall|i: int| 0 <= i < ids.len() && #[trigger] settled@[i] ==> dist@[i] <= du,
                forall|j: int| 0 <= j < ids.len() && !#[trigger] settled@[j] ==> du <= dist@[j],
                forall|i: int, q: Seq<NodeId>| 0 <= i < ids.len() && settled@[i] && #[trigger] is_route(g, rules, q, source, ids@[i])
                    ==> dist@[i] <= walk_cost(g, rules, q),
                forall|i: int, v: int| 0 <= i < ids.len() && 0 <= v < ids.len() && settled@[i] && i != u && !settled@[v]
                    && #[trigger] hop(g, rules, ids@[i], ids@[v]) ==> dist@[v] <= saturating_sum(dist@[i], hop_cost(g, rules, ids@[i], ids@[v])),
                forall|j: int| 0 <= j < k && #[trigger] edge_cost(g, rules, a, edges@[j].to, j) is Some
                    ==> pos@.contains_key(edges@[j].to) && (!settled@[pos@[edges@[j].to] as int]
                        ==> dist@[pos@[edges@[j].to] as int] <= saturating_sum(du, edge_cost(g, rules, a, edges@[j].to, j)->0)),
            decreases edges.len() - k,
        {
            let e = edges[k];
            match g.get_node(e.to) {
                None => {},
                Some(to_node) => match rules.cost(from_node, to_node, &e) {
                    None => {},
                    Some(c) => {
                        proof {
                            assert(g.edges_spec(a)[k as int] == e);
                            assert(hop(g, rules, a, e.to));
                            lemma_walk_push(g, rules, pu@, e.to);
                        }
                        let nd = du.saturating_add(c);
                        proof {
                            assert(edge_cost(g, rules, a, e.to, k as int) == Some(c));
                            lemma_cheapest_edge(g, rules, a, e.to, g.edges_spec(a).len());
                            assert(hop_cost(g, rules, a, e.to) <= c);
                            lemma_walk_cost_push(g, rules, pu@, e.to);
                            assert(walk_cost(g, rules, pu@.push(e.to)) <= nd);
                        }
                        match pos.get(&e.to) {
                            Some(v) => {
                                let v = *v;
                                if !settled[v] && nd < dist[v] {
                                    dist.set(v, nd);
                                    paths.set(v, extended(&pu, e.to));
                                }
                            },
                            None => {
                                ids.push(e.to);
                                dist.push(nd);
                                paths.push(extended(&pu, e.to));
                                settled.push(false);
                                pos.insert(e.to, ids.len() - 1);
                            },
                        }
                    },
                },
            }
            k = k + 1;
        }
        proof {
            assert forall|i: int, b: NodeId| 0 <= i < ids.len() && settled@[i] && #[trigger] hop(g, rules, ids@[i], b) implies pos@.contains_key(b) by {
                if i == u {
                    let j = choose|j: int| 0 <= j < g.edges_spec(a).len() && (#[trigger] g.edges_spec(a)[j]).to == b
                        && rule_cost(*rules, g.node_spec(a)->0, g.node_spec(b)->0, g.edges_spec(a)[j]) is Some;
                    assert(edges@[j].to == b);
                }
            }
            assert forall|i: int, v: int| 0 <= i < ids.len() && 0 <= v < ids.len() && settled@[i] && !settled@[v]
                && #[trigger] hop(g, rules, ids@[i], ids@[v]) implies dist@[v] <= saturating_sum(dist@[i], hop_cost(g, rules, ids@[i], ids@[v])) by {
                if i == u {
                    let b = ids@[v];
                    lemma_cheapest_edge(g, rules, a, b, g.edges_spec(a).len());
                    let j0 = choose|j: int| 0 <= j < g.edges_spec(a).len() && (#[trigger] g.edges_spec(a)[j]).to == b
                        && rule_cost(*rules, g.node_spec(a)->0, g.node_spec(b)->0, g.edges_spec(a)[j]) is Some;
                    assert(edge_cost(g, rules, a, b, j0) is Some);
                    let j = choose|j: int| 0 <= j < g.edges_spec(a).len()
                        && #[trigger] edge_cost(g, rules, a, b, j) == cheapest_edge(g, rules, a, b, g.edges_spec(a).len());
                    assert(edges@[j].to == b);
                }
            }
        }
    }
}

/// `nodes` together with every node one admissible hop away from one of them.
pub open spec fn expand<G: GraphView>(g: &G, rules: &Rule, nodes: Set<NodeId>) -> Set<NodeId> {
    nodes.union(Set::new(|b: NodeId| exists|a: NodeId| nodes.contains(a) && #[trigger] hop(g, rules, a, b)))
}

/// The nodes that at most `n` admissible hops lead to from `s`.
pub open spec fn within_hops<G: GraphView>(g: &G, rules: &Rule, s: NodeId, n: nat) -> Set<NodeId>
    decreases n,
{
    if n == 0 {
        set![s]
    } else {
        expand(g, rules, within_hops(g, rules, s, (n - 1) as nat))
    }
}

/// Once a hop bound adds nothing, no larger bound does.
pub proof fn lemma_within_hops_stable<G: GraphView>(g: &G, rules: &Rule, s: NodeId, k: nat, m: nat)
    requires
        within_hops(g, rules, s, k + 1) == within_hops(g, rules, s, k),
        k <= m,
    ensures
        within_hops(g, rules, s, m) == within_hops(g, rules, s, k),
    decreases m - k,
{
    if m > k {
        lemma_within_hops_stable(g, rules, s, k, (m - 1) as nat);
        assert(within_hops(g, rules, s, m) == expand(g, rules, within_hops(g, rules, s, (m - 1) as nat)));
        assert(within_hops(g, rules, s, k + 1) == expand(g, rules, within_hops(g, rules, s, k)));
    }
}

/// The fewest hops, up to `n`, that lead from `s` to `b`.
pub open spec fn first_level<G: GraphView>(g: &G, rules: &Rule, s: NodeId, b: NodeId, n: nat) -> nat
    decreases n,
{
    if n > 0 && within_hops(g, rules, s, (n - 1) as nat).contains(b) {
        first_level(g, rules, s, b, (n - 1) as nat)
    } else {
        n
    }
}

/// `a` comes before `b`: it is fewer hops away, or as many and has the
/// smaller id.
pub open spec fn hop_order<G: GraphView>(g: &G, rules: &Rule, s: NodeId, n: nat, a: NodeId, b: NodeId) -> bool {
    ||| first_level(g, rules, s, a, n) < first_level(g, rules, s, b, n)
    ||| first_level(g, rules, s, a, n) == first_level(g, rules, s, b, n) && a < b
}

proof fn lemma_first_level_exact<G: GraphView>(g: &G, rules: &Rule, s: NodeId, b: NodeId, m: nat, n: nat)
    requires
        m <= n,
        within_hops(g, rules, s, m).contains(b),
        m == 0 || !within_hops(g, rules, s, (m - 1) as nat).contains(b),
    ensures
        first_level(g, rules, s, b, n) == m,
    decreases n - m,
{
    if n > m {
        lemma_within_hops_grow_to(g, rules, s, m, (n - 1) as nat);
        lemma_first_level_exact(g, rules, s, b, m, (n - 1) as nat);
    }
}

proof fn lemma_first_level_at_most<G: GraphView>(g: &G, rules: &Rule, s: NodeId, b: NodeId, m: nat, n: nat)
    requires
        m <= n,
        within_hops(g, rules, s, m).contains(b),
    ensures
        first_level(g, rules, s, b, n) <= m,
    decreases n,
{
    if n > 0 && within_hops(g, rules, s, (n - 1) as nat).contains(b) {
        if m <= n - 1 {
            lemma_first_level_at_most(g, rules, s, b, m, (n - 1) as nat);
        } else {
            lemma_first_level_at_most(g, rules, s, b, (n - 1) as nat, (n - 1) as nat);
        }
    } else if m < n {
        lemma_within_hops_grow_to(g, rules, s, m, (n - 1) as nat);
    }
}

pub open spec fn strictly_ascending(v: Seq<NodeId>) -> bool {
    forall|i: int, j: int| 0 <= i < j < v.len() ==> v[i] < v[j]
}

/// Puts `x` into an ascending list at its place.
fn insert_ascending(v: &mut Vec<NodeId>, x: NodeId)
    requires
        strictly_ascending(old(v)@),
        !old(v)@.contains(x),
    ensures
        strictly_ascending(final(v)@),
        forall|y: NodeId| #[trigger] final(v)@.contains(y) <==> old(v)@.contains(y) || y == x,
{
    let mut i: usize = 0;
    while i < v.len() && v[i] < x
        invariant
            i <= v.len(),
            forall|j: int| 0 <= j < i ==> v@[j] < x,
        decreases v.len() - i,
    {
        i = i + 1;
    }
    let ghost before = v@;
    proof {
        assert forall|j: int| i <= j < before.len() implies before[j] > x by {
            assert(before[i as int] >= x);
            if j > i {
                assert(before[i as int] < before[j]);
            }
            assert(before[j] != x);
        }
    }
    v.insert(i, x);
    proof {
        assert forall|y: NodeId| #[trigger] v@.contains(y) <==> before.contains(y) || y == x by {
            if v@.contains(y) {
                let j = choose|j: int| 0 <= j < v@.len() && v@[j] == y;
                if j < i {
                    assert(before[j] == y);
                } else if j > i {
                    assert(before[j - 1] == y);
                }
            }
            if before.contains(y) {
                let j = choose|j: int| 0 <= j < before.len() && before[j] == y;
                if j < i {
                    assert(v@[j] == y);
                } else {
                    assert(v@[j + 1] == y);
                }
            }
            assert(v@[i as int] == x);
        }
    }
}

/// Every node that at most `max_hops` admissible hops lead to from `source`,
/// the source included: by ascending hop count, then ascending id.
pub fn nodes_within_hops<G: GraphView>(g: &G, source: NodeId, max_hops: u32, rules: &Rule) -> (r: Result<Vec<NodeId>, RouteError>)
    ensures
        r is Ok <==> g.node_spec(source) is Some,
        r is Err ==> r == Err::<Vec<NodeId>, RouteError>(RouteError::UnknownNode(source)),
        r matches Ok(v) ==> v@.no_duplicates() && forall|b: NodeId|
            #[trigger] v@.contains(b) <==> within_hops(g, rules, source, max_hops as nat).contains(b),
        r matches Ok(v) ==> forall|i: int, j: int| 0 <= i < j < v.len()
            ==> hop_order(g, rules, source, max_hops as nat, #[trigger] v@[i], #[trigger] v@[j]),
{
    if g.get_node(source).is_none() {
        return Err(RouteError::UnknownNode(source));
    }
    let mut visited: HashSet<NodeId> = HashSet::new();
    visited.insert(source);
    let mut result: Vec<NodeId> = vec![source];
    let mut frontier: Vec<NodeId> = vec![source];
    let mut level: u32 = 0;
    proof {
        assert(visited@ == within_hops(g, rules, source, 0));
        assert(frontier@[0] == source);
        lemma_first_level_at_most(g, rules, source, source, 0, max_hops as nat);
    }
    while level < max_hops
        invariant
            level <= max_hops,
            visited@ == within_hops(g, rules, source, level as nat),
            forall|b: NodeId| #[trigger] result@.contains(b) <==> visited@.contains(b),
            result@.no_duplicates(),
            forall|a: NodeId| #[trigger] frontier@.contains(a) ==> visited@.contains(a),
            forall|a: NodeId| #[trigger] visited@.contains(a) ==> frontier@.contains(a)
                || (level > 0 && within_hops(g, rules, source, (level - 1) as nat).contains(a)),
            forall|i: int, j: int| 0 <= i < j < result.len()
                ==> hop_order(g, rules, source, max_hops as nat, #[trigger] result@[i], #[trigger] result@[j]),
            forall|i: int| 0 <= i < result.len() ==> first_level(g, rules, source, #[trigger] result@[i], max_hops as nat) <= level,
        ensures
            visited@ == within_hops(g, rules, source, max_hops as nat),
            forall|b: NodeId| #[trigger] result@.contains(b) <==> visited@.contains(b),
            result@.no_duplicates(),
            forall|i: int, j: int| 0 <= i < j < result.len()
                ==> hop_order(g, rules, source, max_hops as nat, #[trigger] result@[i], #[trigger] result@[j]),
        decreases max_hops - level,
    {
        let ghost w = within_hops(g, rules, source, level as nat);
        if frontier.len() == 0 {
            proof {
                assert(w.contains(source)) by {
                    if level > 0 {
                        lemma_within_hops_grow_to(g, rules, source, 0, level as nat);
                    }
                }
                assert(!frontier@.contains(source));
                let prev = within_hops(g, rules, source, (level - 1) as nat);
                assert(w == expand(g, rules, prev));
                assert(w =~= prev);
                lemma_within_hops_stable(g, rules, source, (level - 1) as nat, max_hops as nat);
            }
            break;
        }
        let mut next: Vec<NodeId> = Vec::new();
        let mut fi: usize = 0;
        while fi < frontier.len()
            invariant
                fi <= frontier.len(),
                w == within_hops(g, rules, source, level as nat),
                forall|a: NodeId| #[trigger] frontier@.contains(a) ==> w.contains(a),
                forall|b: NodeId| #[trigger] result@.contains(b) <==> w.contains(b),
                forall|b: NodeId| #[trigger] visited@.contains(b) <==> w.contains(b) || next@.contains(b),
                forall|b: NodeId| #[trigger] next@.contains(b) ==> !w.contains(b) && expand(g, rules, w).contains(b),
                strictly_ascending(next@),
                forall|x: int, b: NodeId| 0 <= x < fi && #[trigger] hop(g, rules, frontier@[x], b) ==> visited@.contains(b),
            decreases frontier.len() - fi,
        {
            let a = frontier[fi];
            proof {
                assert(frontier@.contains(a));
            }
            match g.get_node(a) {
                None => {
                    proof {
                        assert forall|b: NodeId| #[trigger] hop(g, rules, frontier@[fi as int], b) implies visited@.contains(b) by {}
                    }
                },
                Some(from_node) => {
                    let edges = g.get_edges(a);
                    let mut k: usize = 0;
                    while k < edges.len()
                        invariant
                            k <= edges.len(),
                            edges@ == g.edges_spec(a),
                            g.node_spec(a) is Some,
                            *from_node == g.node_spec(a)->0,
                            w.contains(a),
                            forall|b: NodeId| #[trigger] result@.contains(b) <==> w.contains(b),
                            forall|b: NodeId| #[trigger] visited@.contains(b) <==> w.contains(b) || next@.contains(b),
                            forall|b: NodeId| #[trigger] next@.contains(b) ==> !w.contains(b) && expand(g, rules, w).contains(b),
                            strictly_ascending(next@),
                            forall|j: int| 0 <= j < k && g.node_spec(edges@[j].to) is Some
                                && rule_cost(*rules, g.node_spec(a)->0, g.node_spec(edges@[j].to)->0, #[trigger] edges@[j]) is Some
                                ==> visited@.contains(edges@[j].to),
                            forall|x: int, b: NodeId| 0 <= x < fi && #[trigger] hop(g, rules, frontier@[x], b) ==> visited@.contains(b),
                        decreases edges.len() - k,
                    {
                        let e = edges[k];
                        match g.get_node(e.to) {
                            None => {},
                            Some(to_node) => {
                                if rules.admits(from_node, to_node, &e) && !visited.contains(&e.to) {
                                    proof {
                                        assert(g.edges_spec(a)[k as int] == e);
                                        assert(hop(g, rules, a, e.to));
                                        assert(expand(g, rules, w).contains(e.to));
                                    }
                                    visited.insert(e.to);
                                    insert_ascending(&mut next, e.to);
                                }
                            },
                        }
                        k = k + 1;
                    }
                    proof {
                        assert forall|b: NodeId| #[trigger] hop(g, rules, frontier@[fi as int], b) implies visited@.contains(b) by {
                            let j = choose|j: int| 0 <= j < g.edges_spec(a).len() && (#[trigger] g.edges_spec(a)[j]).to == b
                                && rule_cost(*rules, g.node_spec(a)->0, g.node_spec(b)->0, g.edges_spec(a)[j]) is Some;
                            assert(edges@[j].to == b);
                        }
                    }
                },
            }
            fi = fi + 1;
        }
        let ghost w1 = within_hops(g, rules, source, (level + 1) as nat);
        proof {
            assert(w1 == expand(g, rules, w));
            assert forall|b: NodeId| #[trigger] visited@.contains(b) <==> w1.contains(b) by {
                if w1.contains(b) && !w.contains(b) {
                    let a = choose|a: NodeId| w.contains(a) && #[trigger] hop(g, rules, a, b);
                    if frontier@.contains(a) {
                        let x = choose|x: int| 0 <= x < frontier.len() && frontier@[x] == a;
                        assert(hop(g, rules, frontier@[x], b));
                    } else {
                        let prev = within_hops(g, rules, source, (level - 1) as nat);
                        assert(w == expand(g, rules, prev));
                        assert(prev.contains(a));
                    }
                }
            }
            assert(visited@ =~= w1);
        }
        let ghost result0 = result@;
        proof {
            assert forall|i: int, j: int| 0 <= i < j < result0.len()
                implies hop_order(g, rules, source, max_hops as nat, #[trigger] result0[i], #[trigger] result0[j]) by {
                assert(result@[i] == result0[i] && result@[j] == result0[j]);
            }
            assert forall|i: int| 0 <= i < result0.len() implies first_level(g, rules, source, #[trigger] result0[i], max_hops as nat) <= level by {
                assert(result@[i] == result0[i]);
            }
        }
        let mut i: usize = 0;
        while i < next.len()
            invariant
                i <= next.len(),
                strictly_ascending(next@),
                result0.no_duplicates(),
                forall|b: NodeId| #[trigger] result0.contains(b) <==> w.contains(b),
                forall|b: NodeId| #[trigger] next@.contains(b) ==> !w.contains(b),
                result@ == result0 + next@.take(i as int),
            decreases next.len() - i,
        {
            proof {
                assert(next@.contains(next@[i as int]));
                assert(!result0.contains(next@[i as int]));
            }
            result.push(next[i]);
            proof {
                assert(next@.take(i as int + 1) == next@.take(i as int).push(next@[i as int]));
            }
            i = i + 1;
        }
        proof {
            assert(next@.take(next.len() as int) == next@);
            assert(result@.no_duplicates()) by {
                assert forall|x: int, y: int| 0 <= x < result@.len() && 0 <= y < result@.len() && x != y implies result@[x] != result@[y] by {
                    let n0 = result0.len() as int;
                    if x >= n0 && y >= n0 {
                        assert(next@[x - n0] != next@[y - n0]) by {
                            if x < y { assert(next@[x - n0] < next@[y - n0]); } else { assert(next@[y - n0] < next@[x - n0]); }
                        }
                    } else if x < n0 && y >= n0 {
                        assert(result0.contains(result@[x]));
                        assert(next@.contains(result@[y]));
                    } else if x >= n0 && y < n0 {
                        assert(result0.contains(result@[y]));
                        assert(next@.contains(result@[x]));
                    }
                }
            }
            assert forall|b: NodeId| #[trigger] result@.contains(b) <==> visited@.contains(b) by {
                if result@.contains(b) {
                    let x = choose|x: int| 0 <= x < result@.len() && result@[x] == b;
                    if x >= result0.len() {
                        assert(next@.contains(next@[x - result0.len()]));
                    } else {
                        assert(result0.contains(b));
                    }
                }
                if visited@.contains(b) {
                    if w.contains(b) {
                        assert(result0.contains(b));
                        let x = choose|x: int| 0 <= x < result0.len() && result0[x] == b;
                        assert(result@[x] == b);
                    } else {
                        let x = choose|x: int| 0 <= x < next@.len() && next@[x] == b;
                        assert(result@[result0.len() + x] == b);
                    }
                }
            }
        }
        proof {
            let n0 = result0.len() as int;
            assert forall|x: int| 0 <= x < next.len() implies first_level(g, rules, source, #[trigger] next@[x], max_hops as nat) == level + 1 by {
                assert(next@.contains(next@[x]));
                lemma_first_level_exact(g, rules, source, next@[x], (level + 1) as nat, max_hops as nat);
            }
            assert forall|i: int, j: int| 0 <= i < j < result.len()
                implies hop_order(g, rules, source, max_hops as nat, #[trigger] result@[i], #[trigger] result@[j]) by {
                if j < n0 {
                    assert(result@[i] == result0[i] && result@[j] == result0[j]);
                } else if i < n0 {
                    assert(result@[i] == result0[i]);
                    assert(result@[j] == next@[j - n0]);
                } else {
                    assert(result@[i] == next@[i - n0]);
                    assert(result@[j] == next@[j - n0]);
                }
            }
            assert forall|i: int| 0 <= i < result.len() implies first_level(g, rules, source, #[trigger] result@[i], max_hops as nat) <= level + 1 by {
                if i < n0 {
                    assert(result@[i] == result0[i]);
                } else {
                    assert(result@[i] == next@[i - n0]);
                }
            }
        }
        frontier = next;
        level = level + 1;
        proof {
            assert forall|a: NodeId| #[trigger] visited@.contains(a) implies frontier@.contains(a)
                || (level > 0 && within_hops(g, rules, source, (level - 1) as nat).contains(a)) by {}
        }
    }
    Ok(result)
}

/// A larger hop bound reaches at least the same nodes.
pub proof fn lemma_within_hops_grow_to<G: GraphView>(g: &G, rules: &Rule, s: NodeId, n: nat, m: nat)
    requires
        n <= m,
    ensures
        within_hops(g, rules, s, n).subset_of(within_hops(g, rules, s, m)),
    decreases m - n,
{
    if n < m {
        lemma_within_hops_grow_to(g, rules, s, n, (m - 1) as nat);
        assert(within_hops(g, rules, s, m) == expand(g, rules, within_hops(g, rules, s, (m - 1) as nat)));
    }
}

/// The squared straight-line distance between two coordinates.
pub open spec fn squared_distance(a: Coordinate, b: Coordinate) -> int {
    (a.x - b.x) * (a.x - b.x) + (a.y - b.y) * (a.y - b.y) + (a.z - b.z) * (a.z - b.z)
}

/// Whether `b` lies within `max_distance` units of `a`, where one unit is
/// `unit` raw coordinate units.
pub open spec fn within_distance(a: Coordinate, b: Coordinate, max_distance: u64, unit: u64) -> bool {
    squared_distance(a, b) <= (max_distance * unit) * (max_distance * unit)
}

fn is_within_distance(a: Coordinate, b: Coordinate, max_distance: u64, unit: u64) -> (r: bool)
    ensures
        r == within_distance(a, b, max_distance, unit),
{
    let dx = a.x as i128 - b.x as i128;
    let dy = a.y as i128 - b.y as i128;
    let dz = a.z as i128 - b.z as i128;
    assert(dx * dx <= 0x1_0000_0000 * 0x1_0000_0000) by (nonlinear_arith)
        requires -0x1_0000_0000 <= dx <= 0x1_0000_0000;
    assert(dy * dy <= 0x1_0000_0000 * 0x1_0000_0000) by (nonlinear_arith)
        requires -0x1_0000_0000 <= dy <= 0x1_0000_0000;
    assert(dz * dz <= 0x1_0000_0000 * 0x1_0000_0000) by (nonlinear_arith)
        requires -0x1_0000_0000 <= dz <= 0x1_0000_0000;
    assert(dx * dx >= 0 && dy * dy >= 0 && dz * dz >= 0) by (nonlinear_arith);
    let sq = dx * dx + dy * dy + dz * dz;
    assert(max_distance as u128 * unit as u128 <= 0xffff_ffff_ffff_ffff * 0xffff_ffff_ffff_ffff) by (nonlinear_arith)
        requires max_distance <= 0xffff_ffff_ffff_ffffu64, unit <= 0xffff_ffff_ffff_ffffu64;
    let t: u128 = max_distance as u128 * unit as u128;
    if t > 0x4_0000_0000 {
        assert(t * t > 0x4_0000_0000 * 0x4_0000_0000) by (nonlinear_arith)
            requires t > 0x4_0000_0000;
        true
    } else {
        assert(t * t <= 0x4_0000_0000 * 0x4_0000_0000) by (nonlinear_arith)
            requires 0 <= t <= 0x4_0000_0000;
        sq <= (t * t) as i128
    }
}

/// The nodes whose coordinate lies within `max_distance` units of `origin`,
/// one unit being `unit` raw coordinate units; in the graph's node order.
/// Connectivity plays no part.
pub fn nodes_within_distance(g: &SpaceGraph, origin: Coordinate, max_distance: u64, unit: u64) -> (r: Vec<NodeId>)
    ensures
        r@.no_duplicates(),
        forall|id: NodeId| #[trigger] r@.contains(id) <==> g.node_spec(id) is Some
            && within_distance(origin, g.node_spec(id)->0.coordinate, max_distance, unit),
{
    let nodes = g.all_nodes();
    let mut r: Vec<NodeId> = Vec::new();
    let mut i: usize = 0;
    while i < nodes.len()
        invariant
            i <= nodes.len(),
            forall|x: int| 0 <= x < nodes.len() ==> g.node_spec(#[trigger] nodes@[x].id) == Some(nodes@[x]),
            ids_distinct(nodes@),
            r@.no_duplicates(),
            forall|id: NodeId| #[trigger] r@.contains(id) <==> exists|x: int| 0 <= x < i && #[trigger] nodes@[x].id == id
                && within_distance(origin, nodes@[x].coordinate, max_distance, unit),
        decreases nodes.len() - i,
    {
        let ghost before = r@;
        if is_within_distance(origin, nodes[i].coordinate, max_distance, unit) {
            proof {
                assert(!before.contains(nodes@[i as int].id)) by {
                    if before.contains(nodes@[i as int].id) {
                        let x = choose|x: int| 0 <= x < i && #[trigger] nodes@[x].id == nodes@[i as int].id
                            && within_distance(origin, nodes@[x].coordinate, max_distance, unit);
                    }
                }
            }
            r.push(nodes[i].id);
            proof {
                assert forall|x: int, y: int| 0 <= x < r@.len() && 0 <= y < r@.len() && x != y implies r@[x] != r@[y] by {
                    if x < before.len() && y < before.len() {
                        assert(before[x] == r@[x] && before[y] == r@[y]);
                    } else if x < before.len() {
                        assert(before.contains(r@[x]));
                    } else if y < before.len() {
                        assert(before.contains(r@[y]));
                    }
                }
            }
        }
        proof {
            assert forall|id: NodeId| #[trigger] r@.contains(id) <==> exists|x: int| 0 <= x < i + 1 && #[trigger] nodes@[x].id == id
                && within_distance(origin, nodes@[x].coordinate, max_distance, unit) by {
                if r@.contains(id) && !before.contains(id) {
                    assert(r@.last() == id || before.contains(id)) by {
                        let y = choose|y: int| 0 <= y < r@.len() && r@[y] == id;
                        if y < before.len() { assert(before[y] == id); }
                    }
                }
                if before.contains(id) {
                    let y = choose|y: int| 0 <= y < before.len() && before[y] == id;
                    assert(r@[y] == id);
                }
                if exists|x: int| 0 <= x < i + 1 && #[trigger] nodes@[x].id == id
                    && within_distance(origin, nodes@[x].coordinate, max_distance, unit) {
                    if nodes@[i as int].id == id && within_distance(origin, nodes@[i as int].coordinate, max_distance, unit) {
                        assert(r@.last() == id);
                        assert(r@[r@.len() - 1] == id);
                    }
                }
            }
        }
        i = i + 1;
    }
    proof {
        assert forall|id: NodeId| #[trigger] r@.contains(id) <==> g.node_spec(id) is Some
            && within_distance(origin, g.node_spec(id)->0.coordinate, max_distance, unit) by {
            if g.node_spec(id) is Some {
                let x = choose|x: int| 0 <= x < nodes.len() && nodes@[x].id == id;
                assert(g.node_spec(nodes@[x].id) == Some(nodes@[x]));
            }
        }
    }
    r
}

/// A route from a node to itself is that node alone, whatever the rule.
pub proof fn lemma_route_to_self<G: GraphView>(g: &G, rules: &Rule, s: NodeId)
    requires
        g.node_spec(s) is Some,
    ensures
        is_route(g, rules, seq![s], s, s),
{
}

/// A route admitted by an avoid-list rule touches no listed node, except a
/// route of no hop at all.
pub proof fn lemma_avoided_nodes_stay_off_route<G: GraphView>(
    g: &G,
    avoid: Vec<NodeId>,
    inner: Box<Rule>,
    p: Seq<NodeId>,
    i: int,
)
    requires
        is_walk(g, &Rule::AvoidSet(avoid, inner), p),
        p.len() > 1,
        0 <= i < p.len(),
    ensures
        !avoid@.contains(p[i]),
{
    let rules = Rule::AvoidSet(avoid, inner);
    g.lemma_node_ids();
    let k = if i < p.len() - 1 { i } else { i - 1 };
    assert(hop(g, &rules, p[k], p[k + 1]));
    let j = choose|j: int| 0 <= j < g.edges_spec(p[k]).len() && (#[trigger] g.edges_spec(p[k])[j]).to == p[k + 1]
        && rule_cost(rules, g.node_spec(p[k])->0, g.node_spec(p[k + 1])->0, g.edges_spec(p[k])[j]) is Some;
}

/// No hop bound admits a node other than the source.
pub proof fn lemma_within_zero_hops<G: GraphView>(g: &G, rules: &Rule, s: NodeId)
    ensures
        within_hops(g, rules, s, 0) == set![s],
{
}

/// One hop more never loses a node.
pub proof fn lemma_within_hops_monotonic<G: GraphView>(g: &G, rules: &Rule, s: NodeId, n: nat)
    ensures
        within_hops(g, rules, s, n).subset_of(within_hops(g, rules, s, n + 1)),
{
    lemma_within_hops_grow_to(g, rules, s, n, n + 1);
}

/// What `nodes_within_hops` returns for a bound of `n` hops is part of what
/// it returns for `n + 1`.
pub proof fn lemma_hop_results_grow<G: GraphView>(
    g: &G,
    rules: &Rule,
    s: NodeId,
    n: u32,
    fewer: Seq<NodeId>,
    more: Seq<NodeId>,
)
    requires
        n < u32::MAX,
        forall|b: NodeId| #[trigger] fewer.contains(b) <==> within_hops(g, rules, s, n as nat).contains(b),
        forall|b: NodeId| #[trigger] more.contains(b) <==> within_hops(g, rules, s, (n + 1) as nat).contains(b),
    ensures
        forall|b: NodeId| #[trigger] fewer.contains(b) ==> more.contains(b),
{
    lemma_within_hops_monotonic(g, rules, s, n as nat);
}

/// Distance does not depend on which end it is measured from.
pub proof fn lemma_distance_symmetric(a: Coordinate, b: Coordinate, max_distance: u64, unit: u64)
    ensures
        within_distance(a, b, max_distance, unit) == within_distance(b, a, max_distance, unit),
{
    assert(squared_distance(a, b) == squared_distance(b, a)) by (nonlinear_arith);
}

/// At distance zero only the very same coordinate is within range.
pub proof fn lemma_distance_zero(a: Coordinate, b: Coordinate, unit: u64)
    ensures
        within_distance(a, b, 0, unit) <==> a == b,
{
    let dx = a.x - b.x;
    let dy = a.y - b.y;
    let dz = a.z - b.z;
    assert(dx * dx >= 0 && dy * dy >= 0 && dz * dz >= 0) by (nonlinear_arith);
    if dx * dx + dy * dy + dz * dz <= 0 {
        assert(dx == 0) by (nonlinear_arith) requires dx * dx <= 0;
        assert(dy == 0) by (nonlinear_arith) requires dy * dy <= 0;
        assert(dz == 0) by (nonlinear_arith) requires dz * dz <= 0;
    }
    assert(0 * unit == 0);
}

} // verus!
