use vstd::prelude::*;
use std::hash::BuildHasher;
use std::hash::RandomState;
use hashbrown::HashMap;
use petgraph::algo::NegativeCycle;
use petgraph::graphmap::GraphMap;
use petgraph::Undirected;

verus! {

/// `petgraph::graphmap::GraphMap`, opaque to the verifier: what a graph
/// holds is told by [`graph_nodes`] and [`graph_links`].
#[verifier::external_type_specification]
#[verifier::external_body]
#[verifier::reject_recursive_types(N)]
#[verifier::reject_recursive_types(E)]
#[verifier::reject_recursive_types(Ty)]
#[verifier::reject_recursive_types(S)]
pub struct ExGraphMap<N, E, Ty, S: BuildHasher>(GraphMap<N, E, Ty, S>);

/// `petgraph::Undirected`, the marker of graphs whose edges have no
/// direction.
#[verifier::external_type_specification]
#[verifier::external_body]
pub struct ExUndirected(Undirected);

/// `petgraph::algo::NegativeCycle`, the error of the search for shortest
/// paths; nothing is read from it.
#[verifier::external_type_specification]
#[verifier::external_body]
pub struct ExNegativeCycle(NegativeCycle);

/// The undirected graph over state numbers, with a cost on every edge.
pub type StateGraph = GraphMap<usize, u32, Undirected, RandomState>;

/// The nodes that a graph holds.
pub uninterp spec fn graph_nodes(g: StateGraph) -> Set<usize>;

/// The edges that a graph holds, each with its cost. The graph is
/// undirected, so an edge between `a` and `b` stands under `(a, b)` and
/// under `(b, a)`.
pub uninterp spec fn graph_links(g: StateGraph) -> Map<(usize, usize), u32>;

/// `GraphMap::new`: a graph without nodes or edges.
#[verifier::external_body]
pub(crate) fn graph_new() -> (g: StateGraph)
    ensures
        graph_nodes(g) == Set::<usize>::empty(),
        graph_links(g).dom() == Set::<(usize, usize)>::empty(),
{
    GraphMap::new()
}

/// `GraphMap::add_node`: the node is added where it is missing; the edges
/// stay as they are.
#[verifier::external_body]
pub(crate) fn graph_add_node(g: &mut StateGraph, n: usize)
    ensures
        graph_nodes(*final(g)) == graph_nodes(*old(g)).insert(n),
        graph_links(*final(g)) == graph_links(*old(g)),
{
    g.add_node(n);
}

/// `GraphMap::add_edge` on an undirected graph: both ends are added as nodes
/// where they are missing, and the edge between them gets the given cost,
/// whether or not it was there before.
#[verifier::external_body]
pub(crate) fn graph_add_edge(g: &mut StateGraph, a: usize, b: usize, cost: u32)
    ensures
        graph_nodes(*final(g)) == graph_nodes(*old(g)).insert(a).insert(b),
        graph_links(*final(g)) == graph_links(*old(g)).insert((a, b), cost).insert((b, a), cost),
{
    g.add_edge(a, b, cost);
}

/// Whether the node at position `i` of the walk is linked to the next one.
pub open spec fn linked_at(links: Set<(usize, usize)>, walk: Seq<usize>, i: int) -> bool {
    links.contains((walk[i], walk[i + 1]))
}

/// A walk: a sequence of nodes, one at least, in which each node is linked
/// to the next.
pub open spec fn is_walk(nodes: Set<usize>, links: Set<(usize, usize)>, walk: Seq<usize>) -> bool {
    &&& walk.len() >= 1
    &&& forall|i: int| 0 <= i < walk.len() ==> nodes.contains(#[trigger] walk[i])
    &&& forall|i: int| 0 <= i < walk.len() - 1 ==> #[trigger] linked_at(links, walk, i)
}

/// Whether some walk of exactly `hops` edges leads from `a` to `b`.
pub open spec fn walk_between(
    nodes: Set<usize>,
    links: Set<(usize, usize)>,
    a: usize,
    b: usize,
    hops: nat,
) -> bool {
    exists|walk: Seq<usize>|
        #[trigger] is_walk(nodes, links, walk) && walk[0] == a && walk.last() == b && walk.len()
            == hops + 1
}

/// Whether `b` can be reached from `a`.
pub open spec fn connected(nodes: Set<usize>, links: Set<(usize, usize)>, a: usize, b: usize) -> bool {
    exists|hops: nat| walk_between(nodes, links, a, b, hops)
}

/// Whether `hops` is the number of edges of a shortest walk from `a` to `b`.
pub open spec fn is_least_hops(
    nodes: Set<usize>,
    links: Set<(usize, usize)>,
    a: usize,
    b: usize,
    hops: nat,
) -> bool {
    &&& walk_between(nodes, links, a, b, hops)
    &&& forall|fewer: nat| fewer < hops ==> !walk_between(nodes, links, a, b, fewer)
}

/// The distance from `a` to `b`: the number of edges of a shortest walk.
/// It means something only where `b` can be reached from `a`.
pub open spec fn distance(nodes: Set<usize>, links: Set<(usize, usize)>, a: usize, b: usize) -> nat {
    choose|hops: nat| is_least_hops(nodes, links, a, b, hops)
}

proof fn lemma_least_hops_exists(
    nodes: Set<usize>,
    links: Set<(usize, usize)>,
    a: usize,
    b: usize,
    hops: nat,
)
    requires
        walk_between(nodes, links, a, b, hops),
    ensures
        exists|least: nat| least <= hops && is_least_hops(nodes, links, a, b, least),
    decreases hops,
{
    if exists|fewer: nat| fewer < hops && walk_between(nodes, links, a, b, fewer) {
        let fewer = choose|fewer: nat| fewer < hops && walk_between(nodes, links, a, b, fewer);
        lemma_least_hops_exists(nodes, links, a, b, fewer);
    } else {
        assert(is_least_hops(nodes, links, a, b, hops));
    }
}

/// Between connected nodes the distance is the length of some walk, and no
/// walk is shorter.
pub proof fn lemma_distance_is_least(
    nodes: Set<usize>,
    links: Set<(usize, usize)>,
    a: usize,
    b: usize,
)
    requires
        connected(nodes, links, a, b),
    ensures
        is_least_hops(nodes, links, a, b, distance(nodes, links, a, b)),
        forall|hops: nat|
            walk_between(nodes, links, a, b, hops) ==> distance(nodes, links, a, b) <= hops,
{
    let hops = choose|hops: nat| walk_between(nodes, links, a, b, hops);
    lemma_least_hops_exists(nodes, links, a, b, hops);
}

/// Every node is at distance zero from itself.
pub proof fn lemma_distance_to_self(nodes: Set<usize>, links: Set<(usize, usize)>, a: usize)
    requires
        nodes.contains(a),
    ensures
        connected(nodes, links, a, a),
        distance(nodes, links, a, a) == 0,
{
    let walk = seq![a];
    assert(is_walk(nodes, links, walk));
    assert(walk_between(nodes, links, a, a, 0));
    lemma_distance_is_least(nodes, links, a, a);
}

/// Linked nodes are connected, at distance one at most.
pub proof fn lemma_distance_of_link(nodes: Set<usize>, links: Set<(usize, usize)>, a: usize, b: usize)
    requires
        nodes.contains(a),
        nodes.contains(b),
        links.contains((a, b)),
    ensures
        connected(nodes, links, a, b),
        distance(nodes, links, a, b) <= 1,
{
    let walk = seq![a, b];
    assert forall|i: int| 0 <= i < walk.len() - 1 implies #[trigger] linked_at(links, walk, i) by {
        assert(walk[0] == a && walk[1] == b);
    }
    assert(is_walk(nodes, links, walk));
    assert(walk_between(nodes, links, a, b, 1));
    lemma_distance_is_least(nodes, links, a, b);
}

/// Two walks that meet can be joined into one.
pub proof fn lemma_walks_join(
    nodes: Set<usize>,
    links: Set<(usize, usize)>,
    a: usize,
    b: usize,
    c: usize,
    first: nat,
    second: nat,
)
    requires
        walk_between(nodes, links, a, b, first),
        walk_between(nodes, links, b, c, second),
    ensures
        walk_between(nodes, links, a, c, first + second),
{
    let u = choose|walk: Seq<usize>|
        #[trigger] is_walk(nodes, links, walk) && walk[0] == a && walk.last() == b && walk.len()
            == first + 1;
    let v = choose|walk: Seq<usize>|
        #[trigger] is_walk(nodes, links, walk) && walk[0] == b && walk.last() == c && walk.len()
            == second + 1;
    let joined = u + v.drop_first();
    assert forall|i: int| 0 <= i < joined.len() - 1 implies #[trigger] linked_at(
        links,
        joined,
        i,
    ) by {
        if i < u.len() - 1 {
            assert(linked_at(links, u, i));
        } else {
            let k = i - (u.len() - 1);
            assert(linked_at(links, v, k));
        }
    }
    assert forall|i: int| 0 <= i < joined.len() implies nodes.contains(#[trigger] joined[i]) by {
        if i < u.len() {
            assert(nodes.contains(u[i]));
        } else {
            assert(nodes.contains(v[i - u.len() + 1]));
        }
    }
    assert(is_walk(nodes, links, joined));
}

/// The triangle inequality: going from `a` to `c` is never longer than
/// going from `a` to `b` and on to `c`.
pub proof fn lemma_triangle_inequality(
    nodes: Set<usize>,
    links: Set<(usize, usize)>,
    a: usize,
    b: usize,
    c: usize,
)
    requires
        connected(nodes, links, a, b),
        connected(nodes, links, b, c),
    ensures
        connected(nodes, links, a, c),
        distance(nodes, links, a, c) <= distance(nodes, links, a, b) + distance(nodes, links, b, c),
{
    lemma_distance_is_least(nodes, links, a, b);
    lemma_distance_is_least(nodes, links, b, c);
    let first = distance(nodes, links, a, b);
    let second = distance(nodes, links, b, c);
    lemma_walks_join(nodes, links, a, b, c, first, second);
    lemma_distance_is_least(nodes, links, a, c);
}

/// A table of distances between pairs of nodes.
///
/// The table itself is the `hashbrown::HashMap` that `petgraph` fills; the
/// verifier sees it only through [`table_entries`].
#[verifier::external_body]
pub struct DistanceTable {
    map: HashMap<(usize, usize), u32>,
}

/// What a table holds: the distance recorded for each pair of nodes.
pub uninterp spec fn table_entries(table: DistanceTable) -> Map<(usize, usize), u32>;

/// Whether a table holds, for exactly the pairs of nodes that are
/// connected, the distance between them.
pub open spec fn records_distances(
    entries: Map<(usize, usize), u32>,
    nodes: Set<usize>,
    links: Set<(usize, usize)>,
) -> bool {
    forall|a: usize, b: usize|
        {
            &&& #[trigger] entries.contains_key((a, b)) == connected(nodes, links, a, b)
            &&& entries.contains_key((a, b)) ==> entries[(a, b)] == distance(nodes, links, a, b)
        }
}

/// `petgraph::algo::johnson` with the stored cost of each edge.
///
/// For every node it runs Dijkstra's algorithm, so the result holds, for
/// each pair of which the second can be reached from the first, the least
/// cost of a walk between them, and nothing for other pairs. With every
/// cost equal to one that is the number of edges. The costs are unsigned, so
/// the pass that looks for a negative cycle never lowers a distance and
/// reports none. The bound on the nodes keeps the square of their number,
/// which the table is sized with, within `usize`.
#[verifier::external_body]
pub(crate) fn all_pairs(g: &StateGraph) -> (r: Result<DistanceTable, NegativeCycle>)
    requires
        forall|n: usize| graph_nodes(*g).contains(n) ==> n < 0xFFFF,
        forall|k: (usize, usize)| #[trigger]
            graph_links(*g).contains_key(k) ==> graph_links(*g)[k] == 1 && graph_nodes(*g).contains(
                k.0,
            ) && graph_nodes(*g).contains(k.1),
    ensures
        r is Ok,
        r matches Ok(table) ==> records_distances(
            table_entries(table),
            graph_nodes(*g),
            graph_links(*g).dom(),
        ),
{
    match petgraph::algo::johnson(g, |edge| *edge.2) {
        Ok(map) => Ok(DistanceTable { map }),
        Err(cycle) => Err(cycle),
    }
}

/// `hashbrown::HashMap::get`, copied: the distance recorded for the pair.
#[verifier::external_body]
pub(crate) fn table_get(table: &DistanceTable, a: usize, b: usize) -> (found: Option<u32>)
    ensures
        found == (if table_entries(*table).contains_key((a, b)) {
            Some(table_entries(*table)[(a, b)])
        } else {
            None
        }),
{
    table.map.get(&(a, b)).copied()
}

} // verus!
