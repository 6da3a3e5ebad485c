//! What the command line works on: the open file, its graph and the current center graph.
use vstd::prelude::*;
use vstd::string::*;
use crate::graph::graph::{Graph, Node, ids};
use crate::graph::center::{CenterGraph, centered_at};
use crate::text::{decimal, push_decimal};

verus! {

/// The open graph and the part of it around the current center.
pub struct Context {
    pub filename: String,
    pub graph: Graph,
    pub centergraph: CenterGraph,
}

impl Context {
    /// The graph is well formed and the center graph is one of it.
    pub open spec fn wf(&self) -> bool {
        &&& self.graph.wf()
        &&& self.centergraph.depth_limit < 128
        &&& centered_at(self.graph, self.centergraph.center@, self.centergraph.depth_limit, self.centergraph)
    }

    /// A context for a freshly opened graph: centered on its first node, one step deep.
    pub fn open(filename: &str, graph: Graph) -> (res: Context)
        requires
            graph.wf(),
            graph.nodes.len() > 0,
        ensures
            res.wf(),
            res.filename@ == filename@,
            ids(res.graph.nodes@) == ids(graph.nodes@),
            res.graph.forward.entries() == graph.forward.entries(),
            res.graph.backward.entries() == graph.backward.entries(),
            res.centergraph.center@ == graph.nodes@[0]@,
            res.centergraph.depth_limit == 1,
    {
        let centergraph = graph.centergraph(&graph.nodes[0], 1);
        Context { filename: String::from_str(filename), graph, centergraph }
    }

    /// The status text: the center and the depth limit.
    pub fn to_string(&self) -> (res: String)
        ensures
            res@ == "center : "@ + self.centergraph.center@ + "\ndepth: "@ + decimal(self.centergraph.depth_limit as nat) + "\n"@,
    {
        let mut out = String::from_str("center : ");
        out.append(self.centergraph.center.id.as_str());
        out.append("\ndepth: ");
        push_decimal(&mut out, self.centergraph.depth_limit as u64);
        out.append("\n");
        out
    }

    /// The same graph centered on `center`, with the same depth limit.
    pub fn center(&self, center: &Node) -> (res: Context)
        requires
            self.wf(),
        ensures
            res.wf(),
            res.filename@ == self.filename@,
            ids(res.graph.nodes@) == ids(self.graph.nodes@),
            res.graph.forward.entries() == self.graph.forward.entries(),
            res.graph.backward.entries() == self.graph.backward.entries(),
            centered_at(self.graph, center@, self.centergraph.depth_limit, res.centergraph),
    {
        let graph = self.graph.duplicate();
        let centergraph = self.graph.centergraph(center, self.centergraph.depth_limit);
        let res = Context { filename: self.filename.clone(), graph, centergraph };
        assert(res.graph.forward.as_map() == self.graph.forward.as_map());
        assert(res.graph.backward.as_map() == self.graph.backward.as_map());
        res
    }

    /// The same graph and center with another depth limit.
    pub fn depth_limit(&self, depth_limit: u8) -> (res: Context)
        requires
            self.wf(),
            depth_limit < 128,
        ensures
            res.wf(),
            res.filename@ == self.filename@,
            ids(res.graph.nodes@) == ids(self.graph.nodes@),
            res.graph.forward.entries() == self.graph.forward.entries(),
            res.graph.backward.entries() == self.graph.backward.entries(),
            centered_at(self.graph, self.centergraph.center@, depth_limit, res.centergraph),
    {
        let graph = self.graph.duplicate();
        let centergraph = self.graph.centergraph(&self.centergraph.center, depth_limit);
        let res = Context { filename: self.filename.clone(), graph, centergraph };
        assert(res.graph.forward.as_map() == self.graph.forward.as_map());
        assert(res.graph.backward.as_map() == self.graph.backward.as_map());
        res
    }
}

} // verus!
