use dot_viewer::graph::graph::{node_set, Edge, EdgeMap, Graph, Node};
use dot_viewer::graph::parser::{parse, parse_canonical, try_parse};
use dot_viewer::repl::command::{goto, show};
use dot_viewer::repl::context::Context;

fn edges(pairs: &[(&str, &str)]) -> Vec<Edge> {
    pairs.iter().map(|(a, b)| Edge::new(Node::new(a), Node::new(b))).collect()
}

fn graph(ids: &[&str], pairs: &[(&str, &str)]) -> Graph {
    Graph::new(node_set(ids.iter().map(|i| Node::new(i)).collect()), edges(pairs))
}

fn ids(nodes: &[Node]) -> Vec<String> {
    nodes.iter().map(|n| n.id.clone()).collect()
}

#[test]
fn node_set_sorts_and_dedups() {
    let set = node_set(vec![Node::new("b"), Node::new("a"), Node::new("b")]);
    assert_eq!(ids(&set), vec!["a", "b"]);
}

#[test]
fn graph_to_dot() {
    let g = graph(&["c", "a", "b"], &[("a", "b"), ("b", "c")]);
    assert_eq!(g.to_dot(), "digraph G {\n\ta [shape=box]\n\tb [shape=box]\n\tc [shape=box]\n\ta -> b\n\tb -> c\n}");
    assert!(g.contains("b"));
    assert!(!g.contains("z"));
}

#[test]
fn edge_maps_keep_edge_order() {
    let es = edges(&[("a", "c"), ("a", "b"), ("b", "c")]);
    let fwd = EdgeMap::forward(&es);
    assert_eq!(fwd.to_dot(), "\ta -> c\n\ta -> b\n\tb -> c\n");
    let bwd = EdgeMap::backward(&es);
    assert_eq!(bwd.to_dot(), "\tb -> a\n\tc -> a\n\tc -> b\n");
}

#[test]
fn centergraph_console() {
    let g = graph(&["a", "b", "c"], &[("a", "b"), ("b", "c")]);
    let cg = g.centergraph(&Node::new("b"), 1);
    assert_eq!(cg.center.id, "b");
    assert_eq!(cg.vicinity.iter().map(|(n, d)| (n.id.clone(), *d)).collect::<Vec<_>>(), vec![(String::from("a"), -1), (String::from("c"), 1)]);
    let pad = " ".repeat(12);
    let expected = format!(
        "\ndepth -1\n-------------------------------\n| [0] {pad}a{pad} |\n--------------------------------\n\n/\\ prevs /\\\n\n--------------------------------\n| {pad}b{pad} |\n--------------------------------\n\n\\/ nexts \\/\n\n\ndepth 1\n--------------------------------\n| [1] {pad}c{pad} |\n--------------------------------\n"
    );
    assert_eq!(cg.to_console(), expected);
    assert_eq!(cg.graph.to_dot(), "digraph G {\n\ta [shape=box]\n\tb [shape=box]\n\tc [shape=box]\n\ta -> b\n\tb -> c\n}");
}

#[test]
fn centergraph_depth_limit() {
    let g = graph(&["a", "b", "c", "d"], &[("a", "b"), ("b", "c"), ("c", "d")]);
    let cg = g.centergraph(&Node::new("a"), 2);
    assert_eq!(ids(&cg.graph.nodes), vec!["a", "b", "c"]);
    let cg = g.centergraph(&Node::new("a"), 0);
    assert_eq!(ids(&cg.graph.nodes), vec!["a"]);
}

#[test]
fn neighbour_listing() {
    let flat = dot_viewer::graph::Graph::new(
        vec![Node::new("a"), Node::new("b"), Node::new("c"), Node::new("d")],
        edges(&[("a", "b"), ("b", "c"), ("c", "d")]),
    );
    assert!(flat.contains("d"));
    let map = dot_viewer::graph::EdgeMap::new(&flat);
    assert_eq!(map.render(&Node::new("b"), 2), "(1) a\n\n/\\ prevs /\\\n\nb\n\n\\/ nexts \\/\n\n(1) c\n(2) d\n");
    assert_eq!(map.render(&Node::new("a"), 0), "\n/\\ prevs /\\\n\na\n\n\\/ nexts \\/\n\n");
}

#[test]
fn parse_dot_text() {
    let g = parse("digraph G { a -> b; b -> c; }");
    assert_eq!(ids(&g.nodes), vec!["a", "b", "c"]);
    assert_eq!(g.to_dot(), "digraph G {\n\ta [shape=box]\n\tb [shape=box]\n\tc [shape=box]\n\ta -> b\n\tb -> c\n}");
    assert!(try_parse("this is not dot").is_none());
    assert!(try_parse("digraph { x }").is_some());
}

#[test]
fn canonical_graph() {
    let g = parse_canonical(vec![String::from("y"), String::from("x")], vec![(String::from("x"), String::from("y"))]);
    assert_eq!(ids(&g.nodes), vec!["x", "y"]);
    assert_eq!(g.forward.to_dot(), "\tx -> y\n");
    assert_eq!(g.backward.to_dot(), "\ty -> x\n");
}

#[test]
fn context_status_and_moves() {
    let g = graph(&["a", "b", "c"], &[("a", "b"), ("b", "c")]);
    let ctx = Context::open("g.dot", g);
    assert_eq!(ctx.filename, "g.dot");
    assert_eq!(ctx.to_string(), "center : a\ndepth: 1\n");
    let moved = ctx.center(&Node::new("b"));
    assert_eq!(moved.to_string(), "center : b\ndepth: 1\n");
    let deeper = moved.depth_limit(2);
    assert_eq!(deeper.to_string(), "center : b\ndepth: 2\n");
    assert_eq!(ids(&deeper.centergraph.graph.nodes), vec!["a", "b", "c"]);
}

#[test]
fn repl_show_and_goto() {
    let (text, ctx) = show(None);
    assert_eq!(text, "Please open a graph");
    assert!(ctx.is_none());
    let g = graph(&["a", "b"], &[("a", "b")]);
    let ctx = Context::open("g.dot", g);
    let console = ctx.centergraph.to_console();
    let (text, ctx) = show(Some(ctx));
    assert_eq!(text, format!("{}\ncenter : a\ndepth: 1\n", console));
    let (text, ctx) = goto("zz", ctx);
    assert_eq!(text, "No such node");
    let (text, ctx) = goto("b", ctx);
    assert!(text.ends_with("center : b\ndepth: 1\n"));
    assert_eq!(ctx.unwrap().centergraph.center.id, "b");
}

#[test]
fn search_keeps_the_walk_found_first() {
    // The frontier is taken in node order: `a` is reached through b, c (three steps) before
    // the two-step walk through z, and keeps that depth; `w`, three steps away through z and
    // a, lies past the limit along the walk that was kept.
    let es = edges(&[("s", "b"), ("s", "z"), ("b", "c"), ("c", "a"), ("z", "a"), ("a", "w")]);
    let fwd = EdgeMap::forward(&es);
    let cg = fwd.search(&Node::new("s"), 3);
    let vicinity: Vec<(String, i8)> = cg.vicinity.iter().map(|(n, d)| (n.id.clone(), *d)).collect();
    assert!(vicinity.contains(&(String::from("a"), 3)));
    assert!(vicinity.contains(&(String::from("z"), 1)));
    assert!(!vicinity.iter().any(|(n, _)| n == "w"));
    let nodes = ids(&cg.graph.nodes);
    assert!(nodes.contains(&String::from("a")));
    assert!(!nodes.contains(&String::from("w")));
}

#[test]
fn search_through_a_cycle_back_to_the_start() {
    let es = edges(&[("s", "a"), ("a", "s"), ("a", "b")]);
    let fwd = EdgeMap::forward(&es);
    let cg = fwd.search(&Node::new("s"), 3);
    let vicinity: Vec<(String, i8)> = cg.vicinity.iter().map(|(n, d)| (n.id.clone(), *d)).collect();
    assert_eq!(vicinity, vec![(String::from("a"), 1), (String::from("b"), 2)]);
    assert_eq!(ids(&cg.graph.nodes), vec!["a", "b"]);
}
