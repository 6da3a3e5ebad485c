//! The commands of the command line that only read the open graph: showing the center
//! graph and moving its center.
use vstd::prelude::*;
use vstd::string::*;
use crate::graph::center::{console_text, near_view, bwd_view, centered_at};
use crate::graph::graph::{Node, ids};
use crate::repl::context::Context;
use crate::text::decimal;

verus! {

/// The text `show` prints for a context: the center graph, then the status lines.
pub open spec fn shown(ctxt: Context) -> Seq<char> {
    console_text(near_view(ctxt.centergraph.vicinity@), bwd_view(ctxt.centergraph.bwd@), ctxt.centergraph.center@)
        + "\n"@ + "center : "@ + ctxt.centergraph.center@ + "\ndepth: "@ + decimal(ctxt.centergraph.depth_limit as nat) + "\n"@
}

/// Prints the center graph and the status of the open graph, if one is open.
pub fn show(context: Option<Context>) -> (res: (String, Option<Context>))
    requires
        context matches Some(c) ==> c.wf(),
    ensures
        res.1 == context,
        context is None ==> res.0@ == "Please open a graph"@,
        context matches Some(c) ==> res.0@ == shown(c),
{
    let result = match &context {
        Some(ctxt) => {
            let mut out = ctxt.centergraph.to_console();
            out.append("\n");
            let status = ctxt.to_string();
            out.append(status.as_str());
            out
        },
        None => String::from_str("Please open a graph"),
    };
    (result, context)
}

/// Moves the center to `node` and shows the result; an unknown node is reported and the
/// context kept.
pub fn goto(node: &str, context: Option<Context>) -> (res: (String, Option<Context>))
    requires
        context matches Some(c) ==> c.wf(),
    ensures
        context is None ==> res.0@ == "Please open a graph"@ && res.1 == context,
        context matches Some(c) ==> (!ids(c.graph.nodes@).contains(node@) ==> res.0@ == "No such node"@ && res.1 == context),
        context matches Some(c) ==> (ids(c.graph.nodes@).contains(node@) ==> (res.1 matches Some(n)
            && n.wf()
            && centered_at(c.graph, node@, c.centergraph.depth_limit, n.centergraph)
            && ids(n.graph.nodes@) == ids(c.graph.nodes@)
            && res.0@ == shown(n))),
{
    match &context {
        Some(ctxt) => {
            if ctxt.graph.contains(node) {
                let moved = ctxt.center(&Node::new(node));
                show(Some(moved))
            } else {
                (String::from_str("No such node"), context)
            }
        },
        None => (String::from_str("Please open a graph"), context),
    }
}

} // verus!
