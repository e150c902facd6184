//! The solution's project dependency graph, held in a `petgraph` directed graph, and its
//! Mermaid and Graphviz renderings.

use vstd::prelude::*;

use petgraph::graph::DiGraph;

use crate::paths::{file_stem, file_stem_of};
use crate::project::{ProjectFile, ProjectRef};
use crate::text::{append_str, chars_of, owned, str_eq, string_from_chars};

verus! {

#[verifier::external_type_specification]
#[verifier::external_body]
#[verifier::reject_recursive_types(N)]
#[verifier::reject_recursive_types(E)]
#[verifier::reject_recursive_types(Ty)]
#[verifier::reject_recursive_types(Ix)]
pub struct ExGraph<N, E, Ty, Ix>(petgraph::graph::Graph<N, E, Ty, Ix>);

#[verifier::external_type_specification]
#[verifier::external_body]
pub struct ExDirected(petgraph::Directed);

/// The node weights of a graph, in index order.
pub uninterp spec fn graph_nodes(g: DiGraph<String, ()>) -> Seq<Seq<char>>;

/// The edges of a graph as (source, target) node indices, in index order.
pub uninterp spec fn graph_edges(g: DiGraph<String, ()>) -> Seq<(int, int)>;

/// The Graphviz text that `petgraph::dot::Dot` prints for a graph with these nodes and
/// edges, without edge labels.
pub uninterp spec fn dot_text(nodes: Seq<Seq<char>>, edges: Seq<(int, int)>) -> Seq<char>;

/// Calls `DiGraph::new`. Claimed: the graph has no nodes and no edges.
#[verifier::external_body]
pub(crate) fn graph_new() -> (g: DiGraph<String, ()>)
    ensures
        graph_nodes(g) == Seq::<Seq<char>>::empty(),
        graph_edges(g) == Seq::<(int, int)>::empty(),
{
    DiGraph::new()
}

/// Calls `Graph::add_node` and returns the new index as a `usize`. Claimed: the weight is
/// appended to the nodes, its index is the former node count, edges are unchanged.
/// `add_node` panics when the node count reaches the `u32` index limit, which `requires`
/// leaves out.
#[verifier::external_body]
pub(crate) fn graph_add_node(g: &mut DiGraph<String, ()>, weight: String) -> (r: usize)
    requires
        graph_nodes(*old(g)).len() < u32::MAX,
    ensures
        graph_nodes(*final(g)) == graph_nodes(*old(g)).push(weight@),
        graph_edges(*final(g)) == graph_edges(*old(g)),
        r == graph_nodes(*old(g)).len(),
{
    g.add_node(weight).index()
}

/// Calls `Graph::add_edge` with no weight. Claimed: the edge `(a, b)` is appended, the nodes
/// are unchanged. `add_edge` panics on an index out of bounds or at the edge-count limit,
/// which `requires` leaves out.
#[verifier::external_body]
pub(crate) fn graph_add_edge(g: &mut DiGraph<String, ()>, a: usize, b: usize)
    requires
        a < graph_nodes(*old(g)).len(),
        b < graph_nodes(*old(g)).len(),
        graph_edges(*old(g)).len() < u32::MAX,
    ensures
        graph_nodes(*final(g)) == graph_nodes(*old(g)),
        graph_edges(*final(g)) == graph_edges(*old(g)).push((a as int, b as int)),
{
    g.add_edge(petgraph::graph::NodeIndex::new(a), petgraph::graph::NodeIndex::new(b), ());
}

/// Calls `Graph::edge_count`. Claimed: the number of edges, which is at most `u32::MAX`
/// (`add_edge`, through which every edge comes, refuses one at index `u32::MAX`).
#[verifier::external_body]
fn graph_edge_count(g: &DiGraph<String, ()>) -> (r: usize)
    ensures
        r == graph_edges(*g).len(),
        r <= u32::MAX,
{
    g.edge_count()
}

/// Calls `Graph::edge_endpoints` on edge `e`, an edge of the graph below the `u32` index
/// limit (`EdgeIndex::new` keeps the low 32 bits of the index, so `requires` leaves larger
/// ones out). Claimed: the source and target of edge `e`, which are nodes of the graph
/// (`add_edge` refuses others, by panicking).
#[verifier::external_body]
fn graph_edge_endpoints(g: &DiGraph<String, ()>, e: usize) -> (r: Option<(usize, usize)>)
    requires
        e < graph_edges(*g).len(),
        e < u32::MAX,
    ensures
        r is Some && r.unwrap().0 == graph_edges(*g)[e as int].0 && r.unwrap().1 == graph_edges(
            *g,
        )[e as int].1,
        r.unwrap().0 < graph_nodes(*g).len() && r.unwrap().1 < graph_nodes(*g).len(),
{
    g.edge_endpoints(petgraph::graph::EdgeIndex::new(e)).map(|(a, b)| (a.index(), b.index()))
}

/// Indexes the graph by node `i`. Claimed: the weight of node `i`; indexing panics out of
/// bounds, which `requires` leaves out.
#[verifier::external_body]
fn graph_node_weight(g: &DiGraph<String, ()>, i: usize) -> (r: &String)
    requires
        i < graph_nodes(*g).len(),
    ensures
        r@ == graph_nodes(*g)[i as int],
{
    &g[petgraph::graph::NodeIndex::new(i)]
}

/// Formats `petgraph::dot::Dot::with_config(g, &[Config::EdgeNoLabel])` with `{:?}`.
/// Claimed: the text is `dot_text` of the nodes and edges, and (as `Dot` writes the graph
/// type first) it begins with `digraph {`.
#[verifier::external_body]
fn graph_dot(g: &DiGraph<String, ()>) -> (r: String)
    ensures
        r@ == dot_text(graph_nodes(*g), graph_edges(*g)),
        r@.len() >= 9 && r@.subrange(0, 9) == "digraph {"@,
{
    format!("{:?}", petgraph::dot::Dot::with_config(g, &[petgraph::dot::Config::EdgeNoLabel]))
}

/// The strongly connected components that `petgraph::algo::tarjan_scc` returns for a graph
/// with `node_count` nodes and these edges, as node indices.
pub uninterp spec fn tarjan_components(node_count: nat, edges: Seq<(int, int)>) -> Seq<Seq<int>>;

/// The values of groups of node indices.
pub open spec fn component_views(c: Seq<Vec<usize>>) -> Seq<Seq<int>> {
    c.map_values(|v: Vec<usize>| v@.map_values(|i: usize| i as int))
}

/// Calls `petgraph::algo::tarjan_scc` and converts each node index to a `usize`. Claimed: the
/// components are `tarjan_components` of the node count and the edges; they hold nodes of
/// the graph only, and (as the components partition the nodes, none of them empty) there
/// are at most as many as nodes. Which component comes first and the order of the nodes
/// within one are left to the name.
#[verifier::external_body]
pub(crate) fn graph_components(g: &DiGraph<String, ()>) -> (r: Vec<Vec<usize>>)
    ensures
        component_views(r@) == tarjan_components(graph_nodes(*g).len(), graph_edges(*g)),
        forall|i: int, j: int|
            0 <= i < r@.len() && 0 <= j < r@[i]@.len() ==> #[trigger] r@[i]@[j] < graph_nodes(*g).len(),
        r@.len() <= graph_nodes(*g).len(),
{
    petgraph::algo::tarjan_scc(g).into_iter().map(|c| c.into_iter().map(|n| n.index()).collect()).collect()
}

/// The solution's projects as a directed graph: one node per project, then one per
/// referenced project that is not in the solution, and one edge per project reference.
pub struct SolutionGraph {
    pub graph: DiGraph<String, ()>,
    /// Each node name with its node index (the last node of that name).
    pub name_to_idx: Vec<(String, usize)>,
}

/// The index of the last occurrence of `x` in `s`, or -1.
pub open spec fn last_index_of(s: Seq<Seq<char>>, x: Seq<char>) -> int
    decreases s.len(),
{
    if s.len() == 0 {
        -1
    } else if s.last() == x {
        s.len() - 1
    } else {
        last_index_of(s.drop_last(), x)
    }
}

/// `last_index_of` is in range, names the last match, and is -1 exactly when absent.
pub proof fn lemma_last_index_of(s: Seq<Seq<char>>, x: Seq<char>)
    ensures
        -1 <= last_index_of(s, x) < s.len(),
        last_index_of(s, x) >= 0 ==> s[last_index_of(s, x)] == x,
        last_index_of(s, x) == -1 <==> !s.contains(x),
        forall|k: int| last_index_of(s, x) < k < s.len() ==> s[k] != x,
    decreases s.len(),
{
    if s.len() > 0 {
        lemma_last_index_of(s.drop_last(), x);
        if s.last() != x {
            assert forall|k: int| last_index_of(s, x) < k < s.len() implies s[k] != x by {
                if k < s.len() - 1 {
                    assert(s.drop_last()[k] == s[k]);
                }
            }
            if s.drop_last().contains(x) {
                let k = choose|k: int| 0 <= k < s.drop_last().len() && s.drop_last()[k] == x;
                assert(s[k] == x);
            }
            if s.contains(x) {
                let k = choose|k: int| 0 <= k < s.len() && s[k] == x;
                assert(s.drop_last()[k] == x);
            }
        } else {
            assert(s[s.len() - 1] == x);
        }
    }
}

/// The name used for the target of a reference in the graph: the stem of its resolved
/// path, else the stem of its `Include` path, else the `Include` text.
pub open spec fn graph_target_name(r: ProjectRef) -> Seq<char> {
    match r.resolved {
        Some(p) if file_stem_of(p@) is Some => file_stem_of(p@)->0,
        _ => match file_stem_of(r.target@) {
            Some(s) => s,
            None => r.target@,
        },
    }
}

/// The (from, to) name pairs of the references of `p`.
pub open spec fn project_edge_names(p: ProjectFile) -> Seq<(Seq<char>, Seq<char>)> {
    Seq::new(p.project_refs@.len(), |j: int| (p.name@, graph_target_name(p.project_refs@[j])))
}

/// The (from, to) name pairs of the references of the first `n` projects, in order.
pub open spec fn edge_names(projects: Seq<ProjectFile>, n: nat) -> Seq<(Seq<char>, Seq<char>)>
    decreases n,
{
    if n == 0 {
        seq![]
    } else {
        edge_names(projects, (n - 1) as nat) + project_edge_names(projects[n - 1])
    }
}

/// The names of the projects, in order.
pub open spec fn project_names(projects: Seq<ProjectFile>) -> Seq<Seq<char>> {
    projects.map_values(|p: ProjectFile| p.name@)
}

/// The node names after the first `n` reference targets of `pairs` were added to `start`:
/// each target not yet present gets a node.
pub open spec fn node_names(
    start: Seq<Seq<char>>,
    pairs: Seq<(Seq<char>, Seq<char>)>,
    n: nat,
) -> Seq<Seq<char>>
    decreases n,
{
    if n == 0 {
        start
    } else {
        let prev = node_names(start, pairs, (n - 1) as nat);
        if prev.contains(pairs[n - 1].1) {
            prev
        } else {
            prev.push(pairs[n - 1].1)
        }
    }
}

/// The node names of the graph of `projects`.
pub open spec fn solution_nodes(projects: Seq<ProjectFile>) -> Seq<Seq<char>> {
    let pairs = edge_names(projects, projects.len());
    node_names(project_names(projects), pairs, pairs.len())
}

/// The edges of the graph of `projects`: each reference pair, by the last node of each name.
pub open spec fn solution_edges(projects: Seq<ProjectFile>) -> Seq<(int, int)> {
    let pairs = edge_names(projects, projects.len());
    let nodes = solution_nodes(projects);
    Seq::new(
        pairs.len(),
        |k: int| (last_index_of(nodes, pairs[k].0), last_index_of(nodes, pairs[k].1)),
    )
}

/// `map` gives, for each node name and only for those, the last node of that name.
pub open spec fn name_map_matches(map: Seq<(String, usize)>, nodes: Seq<Seq<char>>) -> bool {
    &&& forall|k: int| 0 <= k < map.len() ==> #[trigger] map[k].1 == last_index_of(nodes, map[k].0@)
    &&& forall|k: int| 0 <= k < map.len() ==> nodes.contains(#[trigger] map[k].0@)
    &&& forall|k1: int, k2: int|
        0 <= k1 < map.len() && 0 <= k2 < map.len() && k1 != k2 ==> #[trigger] map[k1].0@
            != #[trigger] map[k2].0@
    &&& forall|i: int|
        0 <= i < nodes.len() ==> exists|k: int|
            0 <= k < map.len() && #[trigger] map[k].0@ == #[trigger] nodes[i]
}

/// The names of the first `c` pairs are all nodes.
pub open spec fn pairs_present(
    pairs: Seq<(Seq<char>, Seq<char>)>,
    nodes: Seq<Seq<char>>,
    c: int,
) -> bool {
    forall|k: int| 0 <= k < c ==> nodes.contains(#[trigger] pairs[k].0) && nodes.contains(pairs[k].1)
}

/// The number of project references of the first `n` projects.
pub open spec fn ref_count(projects: Seq<ProjectFile>, n: nat) -> nat
    decreases n,
{
    if n == 0 {
        0
    } else {
        ref_count(projects, (n - 1) as nat) + projects[n - 1].project_refs@.len()
    }
}

proof fn lemma_edge_names_len(projects: Seq<ProjectFile>, n: nat)
    ensures
        edge_names(projects, n).len() == ref_count(projects, n),
    decreases n,
{
    if n > 0 {
        lemma_edge_names_len(projects, (n - 1) as nat);
    }
}

proof fn lemma_node_names_len(start: Seq<Seq<char>>, pairs: Seq<(Seq<char>, Seq<char>)>, n: nat)
    ensures
        node_names(start, pairs, n).len() <= start.len() + n,
    decreases n,
{
    if n > 0 {
        lemma_node_names_len(start, pairs, (n - 1) as nat);
    }
}

/// The name of the graph node for the target of `pref`.
pub(crate) fn graph_target(pref: &ProjectRef) -> (r: String)
    ensures
        r@ == graph_target_name(*pref),
{
    if let Some(p) = &pref.resolved {
        if let Some(s) = file_stem(p.as_str()) {
            return s;
        }
    }
    match file_stem(pref.target.as_str()) {
        Some(s) => s,
        None => pref.target.clone(),
    }
}

/// Looks `name` up in the name map.
fn map_lookup(map: &Vec<(String, usize)>, name: &str) -> (r: Option<usize>)
    ensures
        r matches Some(i) ==> exists|k: int| 0 <= k < map@.len() && map@[k].0@ == name@ && map@[k].1 == i,
        r is None ==> forall|k: int| 0 <= k < map@.len() ==> #[trigger] map@[k].0@ != name@,
{
    let mut k: usize = 0;
    while k < map.len()
        invariant
            k <= map@.len(),
            forall|q: int| 0 <= q < k ==> #[trigger] map@[q].0@ != name@,
        decreases map@.len() - k,
    {
        if str_eq(map[k].0.as_str(), name) {
            return Some(map[k].1);
        }
        k = k + 1;
    }
    None
}

/// Adds a node named `name` and records it in the map.
fn add_named_node(g: &mut DiGraph<String, ()>, map: &mut Vec<(String, usize)>, name: &String) -> (r:
    usize)
    requires
        graph_nodes(*old(g)).len() < u32::MAX,
        name_map_matches(old(map)@, graph_nodes(*old(g))),
    ensures
        graph_nodes(*final(g)) == graph_nodes(*old(g)).push(name@),
        graph_edges(*final(g)) == graph_edges(*old(g)),
        r == graph_nodes(*old(g)).len(),
        name_map_matches(final(map)@, graph_nodes(*final(g))),
{
    let ghost nodes0 = graph_nodes(*g);
    let idx = graph_add_node(g, name.clone());
    let ghost nodes1 = graph_nodes(*g);
    proof {
        assert(nodes1.drop_last() =~= nodes0);
        assert forall|x: Seq<char>| x != name@ implies last_index_of(nodes1, x) == last_index_of(
            nodes0,
            x,
        ) by {}
        assert(last_index_of(nodes1, name@) == idx);
    }
    let found = map_lookup(map, name.as_str());
    match found {
        Some(_) => {
            let mut k: usize = 0;
            let ghost m0 = map@;
            while k < map.len() && !str_eq(map[k].0.as_str(), name.as_str())
                invariant
                    k <= map@.len(),
                    map@ == m0,
                    forall|q: int| 0 <= q < k ==> #[trigger] map@[q].0@ != name@,
                    exists|q: int| 0 <= q < map@.len() && map@[q].0@ == name@,
                decreases map@.len() - k,
            {
                k = k + 1;
            }
            proof {
                if k == map@.len() {
                    let q = choose|q: int| 0 <= q < map@.len() && map@[q].0@ == name@;
                    assert(map@[q].0@ != name@);
                }
                assert(map@[k as int].0@ == name@);
            }
            let ghost before = map@;
            map.set(k, (name.clone(), idx));
            proof {
                assert forall|q: int| 0 <= q < map@.len() implies #[trigger] map@[q].1
                    == last_index_of(nodes1, map@[q].0@) by {
                    if q != k {
                        assert(before[q].0@ != name@);
                    }
                }
                assert forall|q: int| 0 <= q < map@.len() implies nodes1.contains(
                    #[trigger] map@[q].0@,
                ) by {
                    if q == k {
                        assert(nodes1[nodes1.len() - 1] == name@);
                    } else {
                        let w = choose|w: int| 0 <= w < nodes0.len() && nodes0[w] == before[q].0@;
                        assert(nodes1[w] == before[q].0@);
                    }
                }
                assert forall|k1: int, k2: int|
                    0 <= k1 < map@.len() && 0 <= k2 < map@.len() && k1 != k2 implies #[trigger] map@[k1].0@
                    != #[trigger] map@[k2].0@ by {
                    assert(before[k1].0@ != before[k2].0@);
                    if k1 == k {
                        assert(before[k1].0@ == name@);
                    }
                    if k2 == k {
                        assert(before[k2].0@ == name@);
                    }
                }
                assert forall|i: int| 0 <= i < nodes1.len() implies exists|q: int|
                    0 <= q < map@.len() && #[trigger] map@[q].0@ == #[trigger] nodes1[i] by {
                    if i == nodes1.len() - 1 {
                        assert(map@[k as int].0@ == nodes1[i]);
                    } else {
                        assert(nodes1[i] == nodes0[i]);
                        let q = choose|q: int| 0 <= q < before.len() && #[trigger] before[q].0@ == nodes0[i];
                        if q == k {
                            assert(map@[k as int].0@ == nodes1[i]);
                        } else {
                            assert(map@[q].0@ == nodes1[i]);
                        }
                    }
                }
            }
        },
        None => {
            let ghost before = map@;
            map.push((name.clone(), idx));
            proof {
                assert forall|q: int| 0 <= q < map@.len() implies #[trigger] map@[q].1
                    == last_index_of(nodes1, map@[q].0@) by {
                    if q < before.len() {
                        assert(before[q].0@ != name@);
                    }
                }
                assert forall|q: int| 0 <= q < map@.len() implies nodes1.contains(
                    #[trigger] map@[q].0@,
                ) by {
                    if q == before.len() {
                        assert(nodes1[nodes1.len() - 1] == name@);
                    } else {
                        let w = choose|w: int| 0 <= w < nodes0.len() && nodes0[w] == before[q].0@;
                        assert(nodes1[w] == before[q].0@);
                    }
                }
                assert forall|i: int| 0 <= i < nodes1.len() implies exists|q: int|
                    0 <= q < map@.len() && #[trigger] map@[q].0@ == #[trigger] nodes1[i] by {
                    if i == nodes1.len() - 1 {
                        assert(map@[before.len() as int].0@ == nodes1[i]);
                    } else {
                        assert(nodes1[i] == nodes0[i]);
                        let q = choose|q: int| 0 <= q < before.len() && #[trigger] before[q].0@ == nodes0[i];
                        assert(map@[q].0@ == nodes1[i]);
                    }
                }
                assert forall|k1: int, k2: int|
                    0 <= k1 < map@.len() && 0 <= k2 < map@.len() && k1 != k2 implies #[trigger] map@[k1].0@
                    != #[trigger] map@[k2].0@ by {
                    if k1 < before.len() && k2 < before.len() {
                        assert(before[k1].0@ != before[k2].0@);
                    }
                }
            }
        },
    }
    idx
}


/// Earlier prefixes of the reference pairs are prefixes of later ones.
proof fn lemma_edge_names_prefix(projects: Seq<ProjectFile>, m: nat, n: nat)
    requires
        m <= n,
    ensures
        edge_names(projects, m).len() <= edge_names(projects, n).len(),
        edge_names(projects, m) == edge_names(projects, n).take(edge_names(projects, m).len() as int),
    decreases n,
{
    if m < n {
        lemma_edge_names_prefix(projects, m, (n - 1) as nat);
        let a = edge_names(projects, m);
        let b = edge_names(projects, (n - 1) as nat);
        let c = edge_names(projects, n);
        assert(c.take(b.len() as int) =~= b);
        assert(c.take(a.len() as int) =~= b.take(a.len() as int));
    } else {
        assert(edge_names(projects, n).take(edge_names(projects, n).len() as int) =~= edge_names(
            projects,
            n,
        ));
    }
}

/// The node names always begin with the starting names and only grow.
proof fn lemma_node_names_prefix(start: Seq<Seq<char>>, pairs: Seq<(Seq<char>, Seq<char>)>, n: nat)
    ensures
        node_names(start, pairs, n).len() >= start.len(),
        forall|i: int| 0 <= i < start.len() ==> node_names(start, pairs, n)[i] == start[i],
    decreases n,
{
    if n > 0 {
        lemma_node_names_prefix(start, pairs, (n - 1) as nat);
    }
}

proof fn lemma_node_names_targets(start: Seq<Seq<char>>, pairs: Seq<(Seq<char>, Seq<char>)>, n: nat)
    requires
        n <= pairs.len(),
    ensures
        forall|k: int| 0 <= k < n ==> node_names(start, pairs, n).contains(#[trigger] pairs[k].1),
    decreases n,
{
    if n > 0 {
        lemma_node_names_targets(start, pairs, (n - 1) as nat);
        let prev = node_names(start, pairs, (n - 1) as nat);
        let cur = node_names(start, pairs, n);
        assert forall|k: int| 0 <= k < n implies cur.contains(#[trigger] pairs[k].1) by {
            if k < n - 1 {
                let a = choose|a: int| 0 <= a < prev.len() && prev[a] == pairs[k].1;
                if !prev.contains(pairs[n - 1].1) {
                    assert(cur[a] == pairs[k].1);
                }
            } else if !prev.contains(pairs[n - 1].1) {
                assert(cur[cur.len() - 1] == pairs[k].1);
            }
        }
    }
}

/// The distinct reference targets among the first `n` of `pairs` that are not in `start`.
pub open spec fn new_targets(
    start: Seq<Seq<char>>,
    pairs: Seq<(Seq<char>, Seq<char>)>,
    n: nat,
) -> Set<Seq<char>>
    decreases n,
{
    if n == 0 {
        Set::empty()
    } else {
        let prev = new_targets(start, pairs, (n - 1) as nat);
        if start.contains(pairs[n - 1].1) {
            prev
        } else {
            prev.insert(pairs[n - 1].1)
        }
    }
}

proof fn lemma_node_names_count(start: Seq<Seq<char>>, pairs: Seq<(Seq<char>, Seq<char>)>, n: nat)
    requires
        n <= pairs.len(),
    ensures
        new_targets(start, pairs, n).finite(),
        node_names(start, pairs, n).len() == start.len() + new_targets(start, pairs, n).len(),
        forall|x: Seq<char>|
            #[trigger] node_names(start, pairs, n).contains(x) ==> start.contains(x) || new_targets(
                start,
                pairs,
                n,
            ).contains(x),
        forall|x: Seq<char>|
            #[trigger] new_targets(start, pairs, n).contains(x) ==> node_names(
                start,
                pairs,
                n,
            ).contains(x) && !start.contains(x) && exists|k: int|
                0 <= k < n && #[trigger] pairs[k].1 == x,
        forall|k: int|
            0 <= k < n && !start.contains(#[trigger] pairs[k].1) ==> new_targets(
                start,
                pairs,
                n,
            ).contains(pairs[k].1),
    decreases n,
{
    if n > 0 {
        let m = (n - 1) as nat;
        lemma_node_names_count(start, pairs, m);
        lemma_node_names_prefix(start, pairs, m);
        let prev = node_names(start, pairs, m);
        let cur = node_names(start, pairs, n);
        let nt0 = new_targets(start, pairs, m);
        let nt = new_targets(start, pairs, n);
        let t = pairs[n - 1].1;
        assert forall|x: Seq<char>| #[trigger] cur.contains(x) implies start.contains(x)
            || nt.contains(x) by {
            if !prev.contains(t) && x == t {
                if start.contains(t) {
                    let a = choose|a: int| 0 <= a < start.len() && start[a] == t;
                    assert(prev[a] == t);
                }
                assert(nt == nt0.insert(t));
            } else {
                if !prev.contains(t) {
                    let a = choose|a: int| 0 <= a < cur.len() && cur[a] == x;
                    assert(prev[a] == x);
                }
                assert(prev.contains(x));
                if nt0.contains(x) {
                    if !start.contains(t) {
                        assert(nt == nt0.insert(t));
                    }
                }
            }
        }
        assert forall|x: Seq<char>| #[trigger] nt.contains(x) implies cur.contains(x)
            && !start.contains(x) && exists|k: int| 0 <= k < n && #[trigger] pairs[k].1 == x by {
            if nt0.contains(x) {
                let k = choose|k: int| 0 <= k < m && #[trigger] pairs[k].1 == x;
                assert(pairs[k].1 == x);
                if !prev.contains(t) {
                    let a = choose|a: int| 0 <= a < prev.len() && prev[a] == x;
                    assert(cur[a] == x);
                }
            } else {
                assert(x == t);
                assert(pairs[n - 1].1 == x);
                if !prev.contains(t) {
                    assert(cur[cur.len() - 1] == x);
                }
            }
        }
        if start.contains(t) {
            let a = choose|a: int| 0 <= a < start.len() && start[a] == t;
            assert(prev[a] == t);
        }
    }
}

/// Some reference of one of the first `n` projects has the node name `x` as its target.
pub open spec fn referenced(projects: Seq<ProjectFile>, n: nat, x: Seq<char>) -> bool {
    exists|i: int, j: int|
        0 <= i < n && 0 <= j < projects[i].project_refs@.len() && #[trigger] graph_target_name(
            projects[i].project_refs@[j],
        ) == x
}

/// The distinct reference targets that are not the name of a project: the names that get a
/// node of their own.
pub open spec fn unresolved_targets(projects: Seq<ProjectFile>) -> Set<Seq<char>> {
    let pairs = edge_names(projects, projects.len());
    new_targets(project_names(projects), pairs, pairs.len())
}

proof fn lemma_edge_targets(projects: Seq<ProjectFile>, n: nat, x: Seq<char>)
    requires
        n <= projects.len(),
    ensures
        (exists|k: int|
            0 <= k < edge_names(projects, n).len() && #[trigger] edge_names(projects, n)[k].1 == x)
            <==> referenced(projects, n, x),
    decreases n,
{
    if n > 0 {
        let m = (n - 1) as nat;
        lemma_edge_targets(projects, m, x);
        let a = edge_names(projects, m);
        let e = project_edge_names(projects[m as int]);
        let c = edge_names(projects, n);
        assert(c == a + e);
        if exists|k: int| 0 <= k < c.len() && #[trigger] c[k].1 == x {
            let k = choose|k: int| 0 <= k < c.len() && #[trigger] c[k].1 == x;
            if k < a.len() {
                assert(a[k].1 == x);
                let (i, j) = choose|i: int, j: int|
                    0 <= i < m && 0 <= j < projects[i].project_refs@.len() && #[trigger] graph_target_name(
                        projects[i].project_refs@[j],
                    ) == x;
                assert(graph_target_name(projects[i].project_refs@[j]) == x);
            } else {
                let j = k - a.len();
                assert(e[j].1 == x);
                assert(graph_target_name(projects[m as int].project_refs@[j]) == x);
            }
        }
        if referenced(projects, n, x) {
            let (i, j) = choose|i: int, j: int|
                0 <= i < n && 0 <= j < projects[i].project_refs@.len() && #[trigger] graph_target_name(
                    projects[i].project_refs@[j],
                ) == x;
            if i < m {
                assert(referenced(projects, m, x));
                let k = choose|k: int| 0 <= k < a.len() && #[trigger] a[k].1 == x;
                assert(c[k].1 == x);
            } else {
                assert(c[a.len() + j].1 == e[j].1);
                assert(c[a.len() + j].1 == x);
            }
        }
    }
}

/// The graph has one node per project and one more per distinct reference target that is
/// not the name of a project.
pub proof fn law_graph_node_count(projects: Seq<ProjectFile>)
    ensures
        unresolved_targets(projects).finite(),
        solution_nodes(projects).len() == projects.len() + unresolved_targets(projects).len(),
        forall|x: Seq<char>|
            #[trigger] unresolved_targets(projects).contains(x) <==> !project_names(
                projects,
            ).contains(x) && referenced(projects, projects.len(), x),
{
    let pairs = edge_names(projects, projects.len());
    let names = project_names(projects);
    lemma_node_names_count(names, pairs, pairs.len());
    let u = new_targets(names, pairs, pairs.len());
    assert forall|x: Seq<char>| #[trigger] u.contains(x) <==> !names.contains(x) && referenced(
        projects,
        projects.len(),
        x,
    ) by {
        lemma_edge_targets(projects, projects.len(), x);
        if !names.contains(x) && referenced(projects, projects.len(), x) {
            let k = choose|k: int| 0 <= k < pairs.len() && #[trigger] pairs[k].1 == x;
            assert(!names.contains(pairs[k].1));
        }
    }
}

/// The graph's shape: the projects are its first nodes, in order; every referenced name is
/// a node; and there is one edge per project reference.
pub proof fn law_graph_shape(projects: Seq<ProjectFile>)
    ensures
        solution_edges(projects).len() == ref_count(projects, projects.len()),
        solution_nodes(projects).len() >= projects.len(),
        forall|i: int|
            0 <= i < projects.len() ==> #[trigger] solution_nodes(projects)[i] == projects[i].name@,
        forall|k: int|
            0 <= k < edge_names(projects, projects.len()).len() ==> solution_nodes(projects).contains(
                (#[trigger] edge_names(projects, projects.len())[k]).1,
            ),
{
    let pairs = edge_names(projects, projects.len());
    lemma_edge_names_len(projects, projects.len());
    lemma_node_names_prefix(project_names(projects), pairs, pairs.len());
    lemma_node_names_targets(project_names(projects), pairs, pairs.len());
    assert forall|i: int| 0 <= i < projects.len() implies #[trigger] solution_nodes(projects)[i]
        == projects[i].name@ by {
        assert(project_names(projects)[i] == projects[i].name@);
    }
}

impl SolutionGraph {
    /// Builds the graph: a node per project (in order), then for each project reference (in
    /// order) a node for a target name not seen yet, and an edge from the project's node to
    /// the target's node; a name stands for its last node. Node indices are `u32`, which
    /// bounds the number of projects and references.
    #[verifier::spinoff_prover]
    pub fn build(projects: &[ProjectFile]) -> (r: SolutionGraph)
        requires
            projects@.len() + ref_count(projects@, projects@.len()) < u32::MAX,
        ensures
            graph_nodes(r.graph) == solution_nodes(projects@),
            graph_edges(r.graph) == solution_edges(projects@),
            name_map_matches(r.name_to_idx@, graph_nodes(r.graph)),
            graph_nodes(r.graph).len() == projects@.len() + unresolved_targets(projects@).len(),
            graph_edges(r.graph).len() == ref_count(projects@, projects@.len()),
            forall|k: int|
                0 <= k < r.name_to_idx@.len() ==> graph_nodes(r.graph)[(
                #[trigger] r.name_to_idx@[k]).1 as int] == r.name_to_idx@[k].0@,
    {
        let mut g = graph_new();
        let mut map: Vec<(String, usize)> = Vec::new();
        let ghost names = project_names(projects@);
        let mut i: usize = 0;
        while i < projects.len()
            invariant
                i <= projects@.len(),
                names == project_names(projects@),
                projects@.len() + ref_count(projects@, projects@.len()) < u32::MAX,
                graph_nodes(g) == names.take(i as int),
                graph_edges(g) == Seq::<(int, int)>::empty(),
                name_map_matches(map@, graph_nodes(g)),
            decreases projects@.len() - i,
        {
            add_named_node(&mut g, &mut map, &projects[i].name);
            proof {
                assert(graph_nodes(g) =~= names.take(i + 1));
            }
            i = i + 1;
        }
        proof {
            assert(names.take(projects@.len() as int) =~= names);
            lemma_edge_names_len(projects@, projects@.len());
            assert(name_map_matches(map@, graph_nodes(g)));
        }
        let ghost pairs = edge_names(projects@, projects@.len());
        let mut c: usize = 0;
        let mut i: usize = 0;
        while i < projects.len()
            invariant
                i <= projects@.len(),
                names == project_names(projects@),
                names.len() == projects@.len(),
                pairs == edge_names(projects@, projects@.len()),
                pairs.len() == ref_count(projects@, projects@.len()),
                projects@.len() + ref_count(projects@, projects@.len()) < u32::MAX,
                c == edge_names(projects@, i as nat).len(),
                c <= pairs.len(),
                graph_nodes(g) == node_names(names, pairs, c as nat),
                graph_nodes(g).len() <= names.len() + c,
                graph_edges(g) == Seq::new(
                    c as nat,
                    |k: int|
                        (
                            last_index_of(graph_nodes(g), pairs[k].0),
                            last_index_of(graph_nodes(g), pairs[k].1),
                        ),
                ),
                pairs_present(pairs, graph_nodes(g), c as int),
                name_map_matches(map@, graph_nodes(g)),
            decreases projects@.len() - i,
        {
            let project = &projects[i];
            proof {
                lemma_edge_names_prefix(projects@, (i + 1) as nat, projects@.len());
                assert(edge_names(projects@, (i + 1) as nat) == edge_names(projects@, i as nat)
                    + project_edge_names(projects@[i as int]));
                assert(project_edge_names(projects@[i as int]).len()
                    == projects@[i as int].project_refs@.len());
            }
            let mut j: usize = 0;
            while j < project.project_refs.len()
                invariant
                    i < projects@.len(),
                    *project == projects@[i as int],
                    j <= project.project_refs@.len(),
                    names == project_names(projects@),
                    names.len() == projects@.len(),
                    pairs == edge_names(projects@, projects@.len()),
                    pairs.len() == ref_count(projects@, projects@.len()),
                    projects@.len() + ref_count(projects@, projects@.len()) < u32::MAX,
                    edge_names(projects@, (i + 1) as nat) == pairs.take(
                        edge_names(projects@, (i + 1) as nat).len() as int,
                    ),
                    edge_names(projects@, (i + 1) as nat) == edge_names(projects@, i as nat)
                        + project_edge_names(projects@[i as int]),
                    c == edge_names(projects@, i as nat).len() + j,
                    c <= pairs.len(),
                    graph_nodes(g) == node_names(names, pairs, c as nat),
                    graph_nodes(g).len() <= names.len() + c,
                    graph_edges(g) == Seq::new(
                        c as nat,
                        |k: int|
                            (
                                last_index_of(graph_nodes(g), pairs[k].0),
                                last_index_of(graph_nodes(g), pairs[k].1),
                            ),
                    ),
                    pairs_present(pairs, graph_nodes(g), c as int),
                    edge_names(projects@, (i + 1) as nat).len() <= pairs.len(),
                    name_map_matches(map@, graph_nodes(g)),
                decreases project.project_refs@.len() - j,
            {
                let ghost nodes0 = graph_nodes(g);
                let ghost edges0 = graph_edges(g);
                proof {
                    let en1 = edge_names(projects@, (i + 1) as nat);
                    assert(project_edge_names(projects@[i as int]).len()
                        == projects@[i as int].project_refs@.len());
                    assert(c < en1.len());
                    assert(en1[c as int] == project_edge_names(projects@[i as int])[j as int]);
                    assert(pairs.take(en1.len() as int)[c as int] == pairs[c as int]);
                    assert(pairs[c as int] == project_edge_names(projects@[i as int])[j as int]);
                    assert(pairs[c as int].0 == project.name@);
                    lemma_node_names_prefix(names, pairs, c as nat);
                    assert(names[i as int] == project.name@);
                    assert(nodes0[i as int] == project.name@);
                }
                let from = match map_lookup(&map, project.name.as_str()) {
                    Some(f) => f,
                    None => {
                        proof {
                            let w = choose|w: int|
                                0 <= w < map@.len() && #[trigger] map@[w].0@ == nodes0[i as int];
                            assert(map@[w].0@ != project.name@);
                        }
                        0
                    },
                };
                proof {
                    let w = choose|w: int|
                        0 <= w < map@.len() && map@[w].0@ == project.name@ && map@[w].1 == from;
                    assert(map@[w].1 == last_index_of(nodes0, map@[w].0@));
                    lemma_last_index_of(nodes0, project.name@);
                    assert(nodes0.contains(project.name@));
                }
                let target = graph_target(&project.project_refs[j]);
                proof {
                    assert(pairs[c as int].1 == target@);
                }
                let to = match map_lookup(&map, target.as_str()) {
                    Some(t) => {
                        proof {
                            let w = choose|w: int|
                                0 <= w < map@.len() && map@[w].0@ == target@ && map@[w].1 == t;
                            assert(map@[w].1 == last_index_of(nodes0, map@[w].0@));
                            assert(nodes0.contains(map@[w].0@));
                            lemma_last_index_of(nodes0, target@);
                        }
                        t
                    },
                    None => {
                        proof {
                            if nodes0.contains(target@) {
                                let q = choose|q: int| 0 <= q < nodes0.len() && nodes0[q] == target@;
                                let w = choose|w: int|
                                    0 <= w < map@.len() && #[trigger] map@[w].0@ == nodes0[q];
                                assert(map@[w].0@ != target@);
                            }
                        }
                        let t = add_named_node(&mut g, &mut map, &target);
                        proof {
                            let nodes1 = graph_nodes(g);
                            assert(nodes1.drop_last() =~= nodes0);
                            assert forall|x: Seq<char>| nodes0.contains(x) implies last_index_of(
                                nodes1,
                                x,
                            ) == last_index_of(nodes0, x) && nodes1.contains(x) by {
                                let q = choose|q: int| 0 <= q < nodes0.len() && nodes0[q] == x;
                                assert(nodes1[q] == x);
                            }
                            assert(nodes1[nodes1.len() - 1] == target@);
                        }
                        t
                    },
                };
                let ghost nodes1 = graph_nodes(g);
                proof {
                    lemma_last_index_of(nodes1, target@);
                    lemma_last_index_of(nodes1, project.name@);
                    assert(nodes1 == node_names(names, pairs, (c + 1) as nat));
                    assert(last_index_of(nodes1, project.name@) == from);
                    assert(last_index_of(nodes1, target@) == to);
                }
                graph_add_edge(&mut g, from, to);
                proof {
                    assert forall|k: int| 0 <= k < c + 1 implies nodes1.contains(
                        #[trigger] pairs[k].0,
                    ) && nodes1.contains(pairs[k].1) by {
                        if k < c {
                            assert(nodes0.contains(pairs[k].0) && nodes0.contains(pairs[k].1));
                        }
                    }
                    assert forall|k: int| 0 <= k < c implies last_index_of(nodes1, pairs[k].0)
                        == last_index_of(nodes0, pairs[k].0) && last_index_of(nodes1, pairs[k].1)
                        == last_index_of(nodes0, pairs[k].1) by {
                        assert(nodes0.contains(pairs[k].0) && nodes0.contains(pairs[k].1));
                    }
                    assert(graph_edges(g) =~= Seq::new(
                        (c + 1) as nat,
                        |k: int|
                            (
                                last_index_of(graph_nodes(g), pairs[k].0),
                                last_index_of(graph_nodes(g), pairs[k].1),
                            ),
                    ));
                }
                c = c + 1;
                j = j + 1;
            }
            proof {
                assert(c == edge_names(projects@, (i + 1) as nat).len());
            }
            i = i + 1;
        }
        proof {
            assert(c == pairs.len());
            law_graph_node_count(projects@);
            law_graph_shape(projects@);
            assert forall|k: int| 0 <= k < map@.len() implies graph_nodes(g)[(
            #[trigger] map@[k]).1 as int] == map@[k].0@ by {
                lemma_last_index_of(graph_nodes(g), map@[k].0@);
            }
        }
        SolutionGraph { graph: g, name_to_idx: map }
    }
}


/// `c` with `.`, `-` and space replaced by `_`.
pub open spec fn sanitized_char(c: char) -> char {
    if c == '.' || c == '-' || c == ' ' {
        '_'
    } else {
        c
    }
}

/// `s` with `.`, `-` and spaces replaced by `_`.
pub open spec fn sanitized(s: Seq<char>) -> Seq<char> {
    s.map_values(|c: char| sanitized_char(c))
}

/// A Mermaid node id for `s`: `.`, `-` and spaces become `_`.
pub fn sanitize_id(s: &str) -> (r: String)
    ensures
        r@ == sanitized(s@),
{
    let v = chars_of(s);
    let mut out: Vec<char> = Vec::new();
    let mut i: usize = 0;
    while i < v.len()
        invariant
            v@ == s@,
            i <= v@.len(),
            out@ == v@.take(i as int).map_values(|c: char| sanitized_char(c)),
        decreases v@.len() - i,
    {
        let c = v[i];
        let d = if c == '.' || c == '-' || c == ' ' {
            '_'
        } else {
            c
        };
        out.push(d);
        proof {
            assert(v@.take(i + 1).map_values(|c: char| sanitized_char(c)) =~= v@.take(
                i as int,
            ).map_values(|c: char| sanitized_char(c)).push(d));
        }
        i = i + 1;
    }
    proof {
        assert(v@.take(v@.len() as int) =~= v@);
    }
    string_from_chars(out.as_slice())
}

/// The Mermaid line of edge `e` over `nodes`.
pub open spec fn mermaid_line(nodes: Seq<Seq<char>>, e: (int, int)) -> Seq<char> {
    "    "@ + sanitized(nodes[e.0]) + " --> "@ + sanitized(nodes[e.1]) + "\n"@
}

/// The Mermaid lines of the first `n` edges.
pub open spec fn mermaid_lines(nodes: Seq<Seq<char>>, edges: Seq<(int, int)>, n: nat) -> Seq<char>
    decreases n,
{
    if n == 0 {
        seq![]
    } else {
        mermaid_lines(nodes, edges, (n - 1) as nat) + mermaid_line(nodes, edges[n - 1])
    }
}

impl SolutionGraph {
    /// The graph as a Mermaid flowchart: a `graph TD` header and one line per edge, in edge
    /// order, between sanitized node names.
    pub fn to_mermaid(&self) -> (r: String)
        ensures
            r@ == "graph TD\n"@ + mermaid_lines(
                graph_nodes(self.graph),
                graph_edges(self.graph),
                graph_edges(self.graph).len(),
            ),
    {
        let ghost nodes = graph_nodes(self.graph);
        let ghost edges = graph_edges(self.graph);
        let mut out = owned("graph TD\n");
        let n = graph_edge_count(&self.graph);
        let mut e: usize = 0;
        while e < n
            invariant
                n == edges.len(),
                n <= u32::MAX,
                e <= n,
                nodes == graph_nodes(self.graph),
                edges == graph_edges(self.graph),
                out@ == "graph TD\n"@ + mermaid_lines(nodes, edges, e as nat),
            decreases n - e,
        {
            let ends = graph_edge_endpoints(&self.graph, e);
            let (a, b) = match ends {
                Some(p) => p,
                None => (0, 0),
            };
            let from = sanitize_id(graph_node_weight(&self.graph, a).as_str());
            let to = sanitize_id(graph_node_weight(&self.graph, b).as_str());
            let ghost before = out@;
            append_str(&mut out, "    ");
            append_str(&mut out, from.as_str());
            append_str(&mut out, " --> ");
            append_str(&mut out, to.as_str());
            append_str(&mut out, "\n");
            proof {
                assert(out@ =~= before + mermaid_line(nodes, edges[e as int]));
            }
            e = e + 1;
        }
        out
    }

    /// The graph in Graphviz format, as `petgraph::dot::Dot` prints it without edge labels.
    pub fn to_dot(&self) -> (r: String)
        ensures
            r@ == dot_text(graph_nodes(self.graph), graph_edges(self.graph)),
            r@.len() >= 9 && r@.subrange(0, 9) == "digraph {"@,
    {
        graph_dot(&self.graph)
    }

    /// The graph rendered in `format`: Graphviz for `dot`, Mermaid otherwise.
    pub fn render(&self, format: &str) -> (r: String)
        ensures
            format@ == "dot"@ ==> r@ == dot_text(graph_nodes(self.graph), graph_edges(self.graph)),
            format@ != "dot"@ ==> r@ == "graph TD\n"@ + mermaid_lines(
                graph_nodes(self.graph),
                graph_edges(self.graph),
                graph_edges(self.graph).len(),
            ),
    {
        if str_eq(format, "dot") {
            self.to_dot()
        } else {
            self.to_mermaid()
        }
    }
}

} // verus!
