//! Reading a graph from dot text: the node names and the edges, as the dot parser reads them.
use vstd::prelude::*;
use dot_parser::{ast, canonical};
use crate::graph::graph::{Graph, Node, Edge, ids, edge_pairs, forward_map, reversed, ids_sorted, node_set};
use crate::viewer::utils::input::texts;

verus! {

/// What the dot parser reads from a text: nothing if the text is not a dot graph, else the
/// set of node names and the edges (pairs of names) in the order of the text.
pub uninterp spec fn dot_contents(dot: Seq<char>) -> Option<(Set<Seq<char>>, Seq<(Seq<char>, Seq<char>)>)>;

/// The texts of a list of pairs of strings.
pub open spec fn pair_texts(v: Seq<(String, String)>) -> Seq<(Seq<char>, Seq<char>)> {
    v.map_values(|p: (String, String)| (p.0@, p.1@))
}

/// Parses dot text with `dot_parser` (`ast::Graph::try_from` into a `canonical::Graph`)
/// and lists the node names (in the order of the parser's hash map, which is not fixed) and
/// the edges. A refused text gives `None`.
#[verifier::external_body]
fn read_dot(dot: &str) -> (res: Option<(Vec<String>, Vec<(String, String)>)>)
    ensures
        res is None <==> dot_contents(dot@) is None,
        res matches Some(r) ==> dot_contents(dot@) == Some((texts(r.0@).to_set(), pair_texts(r.1@))),
{
    let graph = ast::Graph::try_from(dot).ok()?;
    let canonical: canonical::Graph<(ast::ID, ast::ID)> = canonical::Graph::from(graph);
    let nodes = canonical.nodes.set.values().map(|n| n.id.clone()).collect();
    let edges = canonical.edges.set.iter().map(|e| (e.from.clone(), e.to.clone())).collect();
    Some((nodes, edges))
}

/// The graph of the given node names and edges: the names as a sorted set of nodes, the
/// edges in their order.
pub fn parse_canonical(nodes: Vec<String>, edges: Vec<(String, String)>) -> (res: Graph)
    ensures
        res.wf(),
        ids(res.nodes@).to_set() == texts(nodes@).to_set(),
        res.forward.as_map() == forward_map(pair_texts(edges@)),
        res.backward.as_map() == forward_map(reversed(pair_texts(edges@))),
{
    let mut ns: Vec<Node> = Vec::new();
    for i in 0..nodes.len()
        invariant
            ids(ns@) == texts(nodes@).take(i as int),
    {
        let ghost before = ns@;
        let n = Node::new(nodes[i].as_str());
        ns.push(n);
        assert(ids(ns@) =~= ids(before).push(nodes@[i as int]@));
        assert(texts(nodes@).take(i + 1) =~= texts(nodes@).take(i as int).push(nodes@[i as int]@));
    }
    assert(texts(nodes@).take(nodes.len() as int) =~= texts(nodes@));
    let mut es: Vec<Edge> = Vec::new();
    for i in 0..edges.len()
        invariant
            edge_pairs(es@) == pair_texts(edges@).take(i as int),
    {
        let ghost before = es@;
        let e = Edge::new(Node::new(edges[i].0.as_str()), Node::new(edges[i].1.as_str()));
        es.push(e);
        assert(edge_pairs(es@) =~= edge_pairs(before).push((edges@[i as int].0@, edges@[i as int].1@)));
        assert(pair_texts(edges@).take(i + 1) =~= pair_texts(edges@).take(i as int).push((edges@[i as int].0@, edges@[i as int].1@)));
    }
    assert(pair_texts(edges@).take(edges.len() as int) =~= pair_texts(edges@));
    Graph::new(node_set(ns), es)
}

/// The graph of a dot text, which must parse.
pub fn parse(dot: &str) -> (res: Graph)
    requires
        dot_contents(dot@) is Some,
    ensures
        res.wf(),
        ids(res.nodes@).to_set() == dot_contents(dot@).unwrap().0,
        res.forward.as_map() == forward_map(dot_contents(dot@).unwrap().1),
        res.backward.as_map() == forward_map(reversed(dot_contents(dot@).unwrap().1)),
{
    match read_dot(dot) {
        Some((nodes, edges)) => parse_canonical(nodes, edges),
        None => Graph::new(Vec::new(), Vec::new()),
    }
}

/// The graph of a dot text, or nothing if the text is not a dot graph.
pub fn try_parse(dot: &str) -> (res: Option<Graph>)
    ensures
        res is None <==> dot_contents(dot@) is None,
        res matches Some(g) ==> g.wf()
            && ids(g.nodes@).to_set() == dot_contents(dot@).unwrap().0
            && g.forward.as_map() == forward_map(dot_contents(dot@).unwrap().1)
            && g.backward.as_map() == forward_map(reversed(dot_contents(dot@).unwrap().1)),
{
    match read_dot(dot) {
        Some((nodes, edges)) => Some(parse_canonical(nodes, edges)),
        None => None,
    }
}

} // verus!
