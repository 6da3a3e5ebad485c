//! Graphs: a plain list of nodes and edges with the neighbour listing around a node, and
//! (in the submodules) indexed graphs, their searches and center graphs.
pub mod center;
pub mod graph;
pub mod order;
pub mod parser;
pub mod render;
pub mod search;

use vstd::prelude::*;
use vstd::string::*;
use crate::graph::graph::{Node, Edge, ids, edge_pairs, forward_map, reversed};
use crate::graph::render::{Leveled, leveled_view, render_lt, in_neighbourhood, render_map};
use crate::graph::order::{compare_ids, Order};
use crate::text::{decimal, push_decimal};

verus! {

/// A graph as lists of nodes and edges.
pub struct Graph {
    pub nodes: Vec<Node>,
    pub edges: Vec<Edge>,
}

impl Graph {
    pub fn new(nodes: Vec<Node>, edges: Vec<Edge>) -> (res: Graph)
        ensures
            res.nodes@ == nodes@,
            res.edges@ == edges@,
    {
        Graph { nodes, edges }
    }

    /// Whether a node is named `node`.
    pub fn contains(&self, node: &str) -> (res: bool)
        ensures
            res == ids(self.nodes@).contains(node@),
    {
        for i in 0..self.nodes.len()
            invariant
                forall|q: int| 0 <= q < i ==> ids(self.nodes@)[q] != node@,
        {
            if compare_ids(self.nodes[i].id.as_str(), node) == Order::Equal {
                assert(ids(self.nodes@)[i as int] == node@);
                return true;
            }
        }
        false
    }
}

/// For each node, the nodes its edges lead to, and the nodes whose edges lead to it.
pub struct EdgeMap {
    pub forward: crate::graph::graph::EdgeMap,
    pub backward: crate::graph::graph::EdgeMap,
}

/// One line of the neighbour listing: the depth in brackets, then the node.
pub open spec fn leveled_line(x: Leveled) -> Seq<char> {
    "("@ + decimal(x.0 as nat) + ") "@ + x.1 + "\n"@
}

/// The lines of a neighbour listing.
pub open spec fn leveled_lines(s: Seq<Leveled>) -> Seq<char>
    decreases s.len(),
{
    if s.len() == 0 {
        Seq::empty()
    } else {
        leveled_lines(s.drop_last()) + leveled_line(s.last())
    }
}

/// `l` lists the nodes within `limit` steps of `start` along `dir`, each with its distance,
/// deepest first and by node among equally deep ones.
pub open spec fn neighbour_listing(dir: Map<Seq<char>, Seq<Seq<char>>>, start: Seq<char>, limit: u8, l: Seq<Leveled>) -> bool {
    &&& forall|i: int, j: int| 0 <= i < j < l.len() ==> render_lt(#[trigger] l[i], #[trigger] l[j])
    &&& forall|x: Leveled| #[trigger] l.contains(x) <==> in_neighbourhood(dir, start, limit as nat, x)
}

/// The text of the neighbour listing: the predecessors deepest first, the center, then the
/// successors closest first.
pub open spec fn render_text(prevs: Seq<Leveled>, center: Seq<char>, nexts: Seq<Leveled>) -> Seq<char> {
    leveled_lines(prevs) + "\n/\\ prevs /\\\n\n"@ + center + "\n\n"@ + "\\/ nexts \\/\n\n"@ + leveled_lines(nexts.reverse())
}

fn push_leveled(out: &mut String, depth: u8, node: &Node)
    ensures
        final(out)@ == old(out)@ + leveled_line((depth, node@)),
{
    out.append("(");
    push_decimal(out, depth as u64);
    out.append(") ");
    out.append(node.id.as_str());
    out.append("\n");
    assert(final(out)@ =~= old(out)@ + leveled_line((depth, node@)));
}

impl EdgeMap {
    /// The maps of a graph's edges, each list in the order of the edges.
    pub fn new(graph: &Graph) -> (res: EdgeMap)
        ensures
            res.forward.wf(),
            res.backward.wf(),
            res.forward.as_map() == forward_map(edge_pairs(graph.edges@)),
            res.backward.as_map() == forward_map(reversed(edge_pairs(graph.edges@))),
    {
        let forward = crate::graph::graph::EdgeMap::forward(&graph.edges);
        let backward = crate::graph::graph::EdgeMap::backward(&graph.edges);
        EdgeMap { forward, backward }
    }

    /// The neighbour listing of `center` within `depth_limit` steps, both ways.
    pub fn render(&self, center: &Node, depth_limit: u8) -> (res: String)
        requires
            self.forward.wf(),
            self.backward.wf(),
            depth_limit < 255,
        ensures
            exists|prevs: Seq<Leveled>, nexts: Seq<Leveled>|
                neighbour_listing(self.backward.as_map(), center@, depth_limit, prevs)
                    && neighbour_listing(self.forward.as_map(), center@, depth_limit, nexts)
                    && res@ == #[trigger] render_text(prevs, center@, nexts),
    {
        let forward = render_map(center, &self.forward, depth_limit);
        let backward = render_map(center, &self.backward, depth_limit);
        let ghost b = leveled_view(backward@);
        let ghost f = leveled_view(forward@);
        let mut out = String::new();
        for i in 0..backward.len()
            invariant
                b == leveled_view(backward@),
                out@ == leveled_lines(b.take(i as int)),
        {
            push_leveled(&mut out, backward[i].0, &backward[i].1);
            assert(b.take(i + 1).drop_last() =~= b.take(i as int));
        }
        assert(b.take(backward.len() as int) =~= b);
        out.append("\n/\\ prevs /\\\n\n");
        out.append(center.id.as_str());
        out.append("\n\n");
        out.append("\\/ nexts \\/\n\n");
        let ghost head = out@;
        let n = forward.len();
        let mut k: usize = 0;
        while k < n
            invariant
                f == leveled_view(forward@),
                n == f.len(),
                k <= n,
                out@ == head + leveled_lines(f.reverse().take(k as int)),
            decreases n - k,
        {
            let j = n - 1 - k;
            push_leveled(&mut out, forward[j].0, &forward[j].1);
            assert(f.reverse().take(k + 1).drop_last() =~= f.reverse().take(k as int));
            assert(f.reverse().take(k + 1).last() == f[j as int]);
            k = k + 1;
        }
        assert(f.reverse().take(n as int) =~= f.reverse());
        proof {
            assert(neighbour_listing(self.backward.as_map(), center@, depth_limit, b));
            assert(neighbour_listing(self.forward.as_map(), center@, depth_limit, f));
            assert(out@ =~= render_text(b, center@, f));
        }
        out
    }
}

} // verus!
