//! The center graph: the nodes around a center node with their signed distance to it.
use vstd::prelude::*;
use crate::graph::order::{compare_ids, Order};
use crate::graph::graph::{Node, Graph, EdgeMap, ids, merged_map, forward_map, reversed, edge_pairs};
use crate::graph::search::{search_ok, search_result, vic_view};
use crate::text::{decimal, signed_decimal, centered, push_decimal, push_signed_decimal, push_centered};
use vstd::string::*;

verus! {

/// A vicinity entry as plain values: a node and its signed depth.
pub type Near = (Seq<char>, i8);

pub open spec fn near_view(v: Seq<(Node, i8)>) -> Seq<Near> {
    v.map_values(|p: (Node, i8)| (p.0@, p.1))
}

/// Whether an entry lies at depth `d`.
pub open spec fn has_depth(d: i8) -> spec_fn(Near) -> bool {
    |x: Near| x.1 == d
}

/// `out` holds the entries of `inp` ordered by depth, entries of equal depth keeping their
/// order (a stable sort by depth).
pub open spec fn stable_by_depth(inp: Seq<Near>, out: Seq<Near>) -> bool {
    &&& forall|i: int, j: int| 0 <= i < j < out.len() ==> #[trigger] out[i].1 <= #[trigger] out[j].1
    &&& forall|d: i8| #[trigger] out.filter(has_depth(d)) == inp.filter(has_depth(d))
}

pub proof fn lemma_filter_all(s: Seq<Near>, d: i8)
    requires
        forall|i: int| 0 <= i < s.len() ==> #[trigger] s[i].1 == d,
    ensures
        s.filter(has_depth(d)) == s,
    decreases s.len(),
{
    reveal(Seq::filter);
    if s.len() > 0 {
        let t = s.drop_last();
        assert forall|i: int| 0 <= i < t.len() implies #[trigger] t[i].1 == d by {
            assert(t[i] == s[i]);
        }
        lemma_filter_all(t, d);
        assert(s.last().1 == d);
        assert(t.push(s.last()) =~= s);
    }
}

pub proof fn lemma_filter_none(s: Seq<Near>, d: i8)
    requires
        forall|i: int| 0 <= i < s.len() ==> #[trigger] s[i].1 != d,
    ensures
        s.filter(has_depth(d)) == Seq::<Near>::empty(),
    decreases s.len(),
{
    reveal(Seq::filter);
    if s.len() > 0 {
        let t = s.drop_last();
        assert forall|i: int| 0 <= i < t.len() implies #[trigger] t[i].1 != d by {
            assert(t[i] == s[i]);
        }
        lemma_filter_none(t, d);
        assert(s.last().1 != d);
    }
}

/// Orders the vicinity by depth, keeping the order of entries of equal depth.
pub fn sort_by_depth(vicinity: &Vec<(Node, i8)>) -> (res: Vec<(Node, i8)>)
    ensures
        stable_by_depth(near_view(vicinity@), near_view(res@)),
{
    let ghost inp = near_view(vicinity@);
    let mut out: Vec<(Node, i8)> = Vec::new();
    let mut dd: i16 = -128;
    while dd < 128
        invariant
            inp == near_view(vicinity@),
            -128 <= dd <= 128,
            forall|i: int| 0 <= i < out@.len() ==> (#[trigger] near_view(out@)[i]).1 < dd,
            forall|i: int, j: int| 0 <= i < j < out@.len() ==> #[trigger] near_view(out@)[i].1 <= #[trigger] near_view(out@)[j].1,
            forall|e: i8| e < dd ==> #[trigger] near_view(out@).filter(has_depth(e)) == inp.filter(has_depth(e)),
        decreases 128 - dd,
    {
        let d: i8 = dd as i8;
        let ghost out0 = near_view(out@);
        for i in 0..vicinity.len()
            invariant
                inp == near_view(vicinity@),
                d == dd,
                near_view(out@) == out0 + inp.take(i as int).filter(has_depth(d)),
        {
            let ghost before = near_view(out@);
            if vicinity[i].1 == d {
                out.push((vicinity[i].0.clone(), d));
                assert(near_view(out@) =~= before.push(inp[i as int]));
            }
            proof {
                assert(inp.take(i + 1) =~= inp.take(i as int).push(inp[i as int]));
                inp.take(i as int).lemma_filter_push(inp[i as int], has_depth(d));
            }
        }
        proof {
            assert(inp.take(vicinity@.len() as int) =~= inp);
            let f = inp.filter(has_depth(d));
            let o = near_view(out@);
            assert(o == out0 + f);
            assert forall|i: int| 0 <= i < f.len() implies #[trigger] f[i].1 == d by {
                inp.lemma_filter_pred(has_depth(d), i);
                assert(has_depth(d)(f[i]));
            }
            assert forall|i: int| 0 <= i < o.len() implies (#[trigger] o[i]).1 < dd + 1 by {
                if i >= out0.len() {
                    assert(o[i] == f[i - out0.len()]);
                } else {
                    assert(o[i] == out0[i]);
                }
            }
            assert forall|i: int, j: int| 0 <= i < j < o.len() implies #[trigger] o[i].1 <= #[trigger] o[j].1 by {
                if i < out0.len() && j < out0.len() {
                    assert(o[i] == out0[i] && o[j] == out0[j]);
                } else if i < out0.len() {
                    assert(o[i] == out0[i] && o[j] == f[j - out0.len()]);
                } else {
                    assert(o[i] == f[i - out0.len()] && o[j] == f[j - out0.len()]);
                }
            }
            assert forall|e: i8| e < dd + 1 implies #[trigger] o.filter(has_depth(e)) == inp.filter(has_depth(e)) by {
                Seq::filter_distributes_over_add(out0, f, has_depth(e));
                if e == d {
                    lemma_filter_all(f, d);
                    assert forall|i: int| 0 <= i < out0.len() implies #[trigger] out0[i].1 != d by {}
                    lemma_filter_none(out0, d);
                    assert(Seq::<Near>::empty() + f =~= f);
                } else {
                    assert forall|i: int| 0 <= i < f.len() implies #[trigger] f[i].1 != e by {}
                    lemma_filter_none(f, e);
                    assert(out0.filter(has_depth(e)) + Seq::<Near>::empty() =~= out0.filter(has_depth(e)));
                }
            }
        }
        dd = dd + 1;
    }
    out
}


/// Position `idx` as the one-byte key it is stored under.
pub open spec fn slot(idx: int) -> u8 {
    (idx % 256) as u8
}

/// The position map built by inserting, for each entry in order, its position under its
/// one-byte key (a later position overwrites an earlier one with the same key).
pub open spec fn fwd_of(s: Seq<Near>) -> Map<u8, Seq<char>>
    decreases s.len(),
{
    if s.len() == 0 {
        Map::empty()
    } else {
        fwd_of(s.drop_last()).insert(slot(s.len() - 1), s.last().0)
    }
}

/// The node map built by inserting, for each entry in order, its node with the one-byte key
/// of its position (a later position overwrites an earlier one for the same node).
pub open spec fn bwd_of(s: Seq<Near>) -> Map<Seq<char>, u8>
    decreases s.len(),
{
    if s.len() == 0 {
        Map::empty()
    } else {
        bwd_of(s.drop_last()).insert(s.last().0, slot(s.len() - 1))
    }
}

pub proof fn lemma_bwd_of_covers(s: Seq<Near>)
    ensures
        forall|i: int| 0 <= i < s.len() ==> bwd_of(s).contains_key(#[trigger] s[i].0),
    decreases s.len(),
{
    if s.len() > 0 {
        let t = s.drop_last();
        lemma_bwd_of_covers(t);
        assert forall|i: int| 0 <= i < s.len() implies bwd_of(s).contains_key(#[trigger] s[i].0) by {
            if i < s.len() - 1 {
                assert(t[i] == s[i]);
            }
        }
    }
}

pub open spec fn fwd_view(fwd: Seq<(u8, Node)>) -> Map<u8, Seq<char>> {
    Map::new(|k: u8| (k as int) < fwd.len(), |k: u8| fwd[k as int].1@)
}

/// Keys of a node-keyed list occur once each.
pub open spec fn unique_nodes(bwd: Seq<(Node, u8)>) -> bool {
    forall|i: int, j: int| 0 <= i < j < bwd.len() ==> #[trigger] bwd[i].0@ != #[trigger] bwd[j].0@
}

pub open spec fn bwd_view(bwd: Seq<(Node, u8)>) -> Map<Seq<char>, u8> {
    Map::new(
        |k: Seq<char>| exists|i: int| 0 <= i < bwd.len() && #[trigger] bwd[i].0@ == k,
        |k: Seq<char>| bwd[choose|i: int| 0 <= i < bwd.len() && #[trigger] bwd[i].0@ == k].1,
    )
}

/// Sets the value of `n` in a node-keyed list, adding `n` where it is missing.
pub fn bwd_insert(bwd: &mut Vec<(Node, u8)>, n: Node, v: u8)
    requires
        unique_nodes(old(bwd)@),
    ensures
        unique_nodes(final(bwd)@),
        bwd_view(final(bwd)@) =~= bwd_view(old(bwd)@).insert(n@, v),
{
    let ghost b0 = bwd@;
    let len = bwd.len();
    let mut i: usize = 0;
    while i < len
        invariant
            bwd@ == b0,
            b0 == old(bwd)@,
            len == b0.len(),
            i <= len,
            unique_nodes(b0),
            forall|q: int| 0 <= q < i ==> b0[q].0@ != n@,
        decreases len - i,
    {
        if compare_ids(bwd[i].0.id.as_str(), n.id.as_str()) == Order::Equal {
            let ghost key = n@;
            assert(b0[i as int].0@ == key);
            bwd.set(i, (n, v));
            proof {
                let b1 = bwd@;
                assert(b1[i as int].0@ == key);
                assert forall|a: int, b: int| 0 <= a < b < b1.len() implies #[trigger] b1[a].0@ != #[trigger] b1[b].0@ by {
                    assert(b1[a].0@ == b0[a].0@ && b1[b].0@ == b0[b].0@);
                }
                assert forall|k: Seq<char>| #[trigger] bwd_view(b1).contains_key(k) == bwd_view(b0).insert(key, v).contains_key(k) by {
                    if exists|q: int| 0 <= q < b1.len() && #[trigger] b1[q].0@ == k {
                        let q = choose|q: int| 0 <= q < b1.len() && #[trigger] b1[q].0@ == k;
                        assert(b0[q].0@ == k);
                    }
                    if exists|q: int| 0 <= q < b0.len() && #[trigger] b0[q].0@ == k {
                        let q = choose|q: int| 0 <= q < b0.len() && #[trigger] b0[q].0@ == k;
                        assert(b1[q].0@ == k);
                    }
                }
                assert forall|k: Seq<char>| #[trigger] bwd_view(b1).contains_key(k) implies bwd_view(b1)[k] == bwd_view(b0).insert(key, v)[k] by {
                    let q = choose|q: int| 0 <= q < b1.len() && #[trigger] b1[q].0@ == k;
                    if q == i {
                        assert(k == key);
                    } else {
                        assert(b0[q].0@ == k);
                        let q0 = choose|q: int| 0 <= q < b0.len() && #[trigger] b0[q].0@ == k;
                        assert(q0 == q);
                        if q < i {
                            assert(b0[q].0@ != b0[i as int].0@);
                        } else {
                            assert(b0[i as int].0@ != b0[q].0@);
                        }
                    }
                }
                assert(bwd_view(b1) =~= bwd_view(b0).insert(key, v));
            }
            return;
        }
        i = i + 1;
    }
    let ghost key = n@;
    bwd.push((n, v));
    proof {
        let b1 = bwd@;
        assert forall|a: int, b: int| 0 <= a < b < b1.len() implies #[trigger] b1[a].0@ != #[trigger] b1[b].0@ by {
            if b < b0.len() {
                assert(b1[a] == b0[a] && b1[b] == b0[b]);
            } else {
                assert(b1[a] == b0[a]);
            }
        }
        assert forall|k: Seq<char>| #[trigger] bwd_view(b1).contains_key(k) == bwd_view(b0).insert(key, v).contains_key(k) by {
            if exists|q: int| 0 <= q < b1.len() && #[trigger] b1[q].0@ == k {
                let q = choose|q: int| 0 <= q < b1.len() && #[trigger] b1[q].0@ == k;
                if q < b0.len() {
                    assert(b0[q].0@ == k);
                }
            }
            if exists|q: int| 0 <= q < b0.len() && #[trigger] b0[q].0@ == k {
                let q = choose|q: int| 0 <= q < b0.len() && #[trigger] b0[q].0@ == k;
                assert(b1[q].0@ == k);
            }
            if k == key {
                assert(b1[b0.len() as int].0@ == k);
            }
        }
        assert forall|k: Seq<char>| #[trigger] bwd_view(b1).contains_key(k) implies bwd_view(b1)[k] == bwd_view(b0).insert(key, v)[k] by {
            let q = choose|q: int| 0 <= q < b1.len() && #[trigger] b1[q].0@ == k;
            if q == b0.len() {
                assert(k == key);
            } else {
                assert(b1[q] == b0[q]);
                let q0 = choose|q: int| 0 <= q < b0.len() && #[trigger] b0[q].0@ == k;
                assert(q0 == q);
            }
        }
    }
}

/// The graph around a center node within a depth limit, with each node's signed distance
/// (negative before the center, positive after it) and its position in that order.
pub struct CenterGraph {
    pub graph: Graph,
    pub center: Node,
    /// closeness of a node with respect to the center node
    pub vicinity: Vec<(Node, i8)>,
    /// position => node
    pub fwd: Vec<(u8, Node)>,
    /// node => position, bindings for faster goto
    pub bwd: Vec<(Node, u8)>,
    pub depth_limit: u8,
}

impl CenterGraph {
    /// The position maps are those of the vicinity, which is ordered by depth.
    pub open spec fn wf(&self) -> bool {
        &&& self.graph.wf()
        &&& forall|i: int, j: int| 0 <= i < j < self.vicinity@.len() ==> #[trigger] self.vicinity@[i].1 <= #[trigger] self.vicinity@[j].1
        &&& forall|k: int| 0 <= k < self.fwd@.len() ==> #[trigger] self.fwd@[k].0 == k
        &&& fwd_view(self.fwd@) == fwd_of(near_view(self.vicinity@))
        &&& unique_nodes(self.bwd@)
        &&& bwd_view(self.bwd@) == bwd_of(near_view(self.vicinity@))
    }

    /// Orders the vicinity by depth (stable) and numbers its entries in that order.
    pub fn new(graph: Graph, center: Node, vicinity: Vec<(Node, i8)>, depth_limit: u8) -> (res: CenterGraph)
        requires
            graph.wf(),
        ensures
            res.wf(),
            res.graph == graph,
            res.center == center,
            res.depth_limit == depth_limit,
            stable_by_depth(near_view(vicinity@), near_view(res.vicinity@)),
    {
        let sorted = sort_by_depth(&vicinity);
        let ghost s = near_view(sorted@);
        let mut fwd: Vec<(u8, Node)> = Vec::new();
        let mut bwd: Vec<(Node, u8)> = Vec::new();
        for idx in 0..sorted.len()
            invariant
                s == near_view(sorted@),
                fwd@.len() == if idx < 256 { idx as int } else { 256 },
                forall|k: int| 0 <= k < fwd@.len() ==> #[trigger] fwd@[k].0 == k,
                fwd_view(fwd@) =~= fwd_of(s.take(idx as int)),
                unique_nodes(bwd@),
                bwd_view(bwd@) =~= bwd_of(s.take(idx as int)),
        {
            let key: u8 = (idx % 256) as u8;
            let ghost node = s[idx as int].0;
            proof {
                assert(s.take(idx + 1).drop_last() =~= s.take(idx as int));
                assert(key == slot(idx as int));
            }
            if idx < 256 {
                fwd.push((key, sorted[idx].0.clone()));
            } else {
                fwd.set(key as usize, (key, sorted[idx].0.clone()));
            }
            bwd_insert(&mut bwd, sorted[idx].0.clone(), key);
            proof {
                assert(fwd_view(fwd@) =~= fwd_of(s.take(idx as int)).insert(key, node));
            }
        }
        proof {
            assert(s.take(sorted@.len() as int) =~= s);
            assert forall|i: int, j: int| 0 <= i < j < sorted@.len() implies #[trigger] sorted@[i].1 <= #[trigger] sorted@[j].1 by {
                assert(s[i].1 == sorted@[i].1 && s[j].1 == sorted@[j].1);
            }
        }
        CenterGraph { graph, center, vicinity: sorted, fwd, bwd, depth_limit }
    }
}


/// Every entry of a stably sorted sequence comes from the input.
pub proof fn lemma_stable_from_input(inp: Seq<Near>, out: Seq<Near>, i: int)
    requires
        stable_by_depth(inp, out),
        0 <= i < out.len(),
    ensures
        inp.contains(out[i]),
{
    let d = out[i].1;
    out.lemma_filter_contains(has_depth(d), i);
    assert(out.filter(has_depth(d)) == inp.filter(has_depth(d)));
    inp.lemma_filter_contains_rev(has_depth(d), out[i]);
}

/// Entries before the center have their depth negated.
pub open spec fn negated(s: Seq<Near>) -> Seq<Near> {
    s.map_values(|x: Near| (x.0, (-1 * x.1) as i8))
}

/// `res` joins the predecessor center graph `prevs` and the successor one `nexts`.
pub open spec fn merged_from(prevs: CenterGraph, nexts: CenterGraph, res: CenterGraph) -> bool {
    &&& res.wf()
    &&& res.center@ == prevs.center@
    &&& res.depth_limit == prevs.depth_limit
    &&& res.graph.node_ids() == prevs.graph.node_ids().union(nexts.graph.node_ids()).insert(prevs.center@)
    &&& res.graph.forward.as_map() == merged_map(prevs.graph.backward.as_map(), nexts.graph.forward.as_map())
    &&& res.graph.backward.as_map() == merged_map(prevs.graph.forward.as_map(), nexts.graph.backward.as_map())
    &&& stable_by_depth(negated(near_view(prevs.vicinity@)) + near_view(nexts.vicinity@), near_view(res.vicinity@))
}

/// `cg` is what the search of `dir` from `start` within `limit` steps yields: the visited
/// nodes, the recorded edges and the vicinity (ordered by depth) with which `search_run`
/// ends.
pub open spec fn searched(dir: Map<Seq<char>, Seq<Seq<char>>>, start: Seq<char>, limit: u8, cg: CenterGraph) -> bool {
    &&& cg.wf()
    &&& cg.center@ == start
    &&& cg.depth_limit == limit
    &&& exists|vic0: Seq<Near>, es0: Seq<(Seq<char>, Seq<char>)>|
        #[trigger] search_ok(dir, start, limit as nat, vic0, ids(cg.graph.nodes@), es0)
            && search_result(dir, start, limit as nat, ids(cg.graph.nodes@).to_set(), vic0, es0)
            && stable_by_depth(vic0, near_view(cg.vicinity@))
            && cg.graph.forward.as_map() == forward_map(es0)
            && cg.graph.backward.as_map() == forward_map(reversed(es0))
}

impl CenterGraph {
    /// Joins the predecessor and successor center graphs of the same center: the merged
    /// graph, and the vicinity with the predecessors' depths negated.
    pub fn merge(prevs: CenterGraph, nexts: CenterGraph) -> (res: CenterGraph)
        requires
            prevs.center@ == nexts.center@,
            prevs.depth_limit == nexts.depth_limit,
            prevs.graph.wf(),
            nexts.graph.wf(),
            forall|i: int| 0 <= i < prevs.vicinity@.len() ==> #[trigger] prevs.vicinity@[i].1 != -128,
        ensures
            merged_from(prevs, nexts, res),
    {
        let graph = Graph::merge(&prevs.center, &prevs.graph, &nexts.graph);
        let mut vicinity: Vec<(Node, i8)> = Vec::new();
        let ghost pv = near_view(prevs.vicinity@);
        let ghost nv = near_view(nexts.vicinity@);
        for i in 0..prevs.vicinity.len()
            invariant
                pv == near_view(prevs.vicinity@),
                forall|q: int| 0 <= q < prevs.vicinity@.len() ==> #[trigger] prevs.vicinity@[q].1 != -128,
                near_view(vicinity@) =~= negated(pv.take(i as int)),
        {
            let ghost before = near_view(vicinity@);
            let d = prevs.vicinity[i].1;
            vicinity.push((prevs.vicinity[i].0.clone(), -1 * d));
            proof {
                assert(pv.take(i + 1) =~= pv.take(i as int).push(pv[i as int]));
                assert(near_view(vicinity@) =~= before.push((pv[i as int].0, (-1 * pv[i as int].1) as i8)));
            }
        }
        for i in 0..nexts.vicinity.len()
            invariant
                nv == near_view(nexts.vicinity@),
                near_view(vicinity@) =~= negated(pv) + nv.take(i as int),
        {
            let ghost before = near_view(vicinity@);
            vicinity.push((nexts.vicinity[i].0.clone(), nexts.vicinity[i].1));
            proof {
                assert(nv.take(i + 1) =~= nv.take(i as int).push(nv[i as int]));
                assert(near_view(vicinity@) =~= before.push(nv[i as int]));
            }
        }
        proof {
            assert(pv.take(pv.len() as int) =~= pv);
            assert(nv.take(nv.len() as int) =~= nv);
        }
        CenterGraph::new(graph, prevs.center, vicinity, prevs.depth_limit)
    }
}

impl EdgeMap {
    /// The center graph of the search from `start` within `depth_limit` steps (see
    /// `search_core`): the visited nodes, the recorded edges, and the vicinity with the
    /// depth each node was found at.
    pub fn search(&self, start: &Node, depth_limit: u8) -> (res: CenterGraph)
        requires
            self.wf(),
            depth_limit < 255,
        ensures
            searched(self.as_map(), start@, depth_limit, res),
    {
        let (nodes, vicinity, edges) = self.search_core(start, depth_limit);
        let ghost vic0 = near_view(vicinity@);
        let ghost es0 = edge_pairs(edges@);
        let graph = Graph::new(nodes, edges);
        let res = CenterGraph::new(graph, start.clone(), vicinity, depth_limit);
        proof {
            assert(vic_view(vicinity@) =~= vic0);
            assert(search_ok(self.as_map(), start@, depth_limit as nat, vic0, ids(res.graph.nodes@), es0));
            assert(search_result(self.as_map(), start@, depth_limit as nat, ids(res.graph.nodes@).to_set(), vic0, es0));
        }
        res
    }
}

/// `cg` is the center graph of `g` around `center` within `depth_limit` steps: the join of
/// the backward search and the forward search from `center`.
pub open spec fn centered_at(g: Graph, center: Seq<char>, depth_limit: u8, cg: CenterGraph) -> bool {
    exists|prevs: CenterGraph, nexts: CenterGraph|
        searched(g.backward.as_map(), center, depth_limit, prevs)
            && searched(g.forward.as_map(), center, depth_limit, nexts)
            && #[trigger] merged_from(prevs, nexts, cg)
}

impl Graph {
    /// The center graph of `center` within `depth_limit` steps: the search backward (the
    /// predecessors) joined with the search forward (the successors).
    pub fn centergraph(&self, center: &Node, depth_limit: u8) -> (res: CenterGraph)
        requires
            self.wf(),
            depth_limit < 128,
        ensures
            centered_at(*self, center@, depth_limit, res),
    {
        let prevs = self.backward.search(center, depth_limit);
        let nexts = self.forward.search(center, depth_limit);
        proof {
            let (vic0, es0) = choose|vic0: Seq<Near>, es0: Seq<(Seq<char>, Seq<char>)>|
                #[trigger] search_ok(self.backward.as_map(), center@, depth_limit as nat, vic0, ids(prevs.graph.nodes@), es0)
                    && search_result(self.backward.as_map(), center@, depth_limit as nat, ids(prevs.graph.nodes@).to_set(), vic0, es0)
                    && stable_by_depth(vic0, near_view(prevs.vicinity@))
                    && prevs.graph.forward.as_map() == forward_map(es0)
                    && prevs.graph.backward.as_map() == forward_map(reversed(es0));
            assert forall|i: int| 0 <= i < prevs.vicinity@.len() implies #[trigger] prevs.vicinity@[i].1 != -128 by {
                let out = near_view(prevs.vicinity@);
                lemma_stable_from_input(vic0, out, i);
                let j = choose|j: int| 0 <= j < vic0.len() && vic0[j] == out[i];
                assert(crate::graph::search::vicinity_entry_ok(self.backward.as_map(), center@, depth_limit as nat, ids(prevs.graph.nodes@).to_set(), es0, vic0[j]));
                assert(out[i].1 == prevs.vicinity@[i].1);
            }
        }
        let ghost p = prevs;
        let ghost n = nexts;
        let res = CenterGraph::merge(prevs, nexts);
        assert(merged_from(p, n, res));
        res
    }
}


/// The line naming an entry in the console view: its position and its node, centered.
pub open spec fn box_line(idx: u8, id: Seq<char>) -> Seq<char> {
    "| ["@ + decimal(idx as nat) + "] "@ + centered(id, 25) + " |\n"@
}

/// The depth the console view was last headed with, after printing `s`.
pub open spec fn last_track(s: Seq<Near>, track: i8) -> i8 {
    if s.len() == 0 {
        track
    } else {
        s.last().1
    }
}

/// The console text of one entry at position `idx`: a depth heading when the depth
/// changes, then its box.
pub open spec fn entry_text(x: Near, track: i8, idx: u8, top: Seq<char>) -> Seq<char> {
    (if x.1 != track {
        "\ndepth "@ + signed_decimal(x.1 as int) + "\n"@
    } else {
        Seq::empty()
    }) + top + box_line(idx, x.0) + "--------------------------------\n"@
}

/// The console text of one entry, numbered by the position map.
pub open spec fn entry_console(x: Near, track: i8, bwd: Map<Seq<char>, u8>, top: Seq<char>) -> Seq<char> {
    entry_text(x, track, bwd[x.0], top)
}


/// The heading before an entry's box in the console: `depth <d>` on a line of its own when
/// the entry's depth `d` differs from the depth last headed, nothing otherwise.
pub open spec fn heading(depth: i8, last: i8) -> Seq<char> {
    if depth != last {
        "\ndepth "@ + signed_decimal(depth as int) + "\n"@
    } else {
        Seq::empty()
    }
}

/// In the console text of a run of entries, each entry's heading is decided by the depth of
/// the entry before it (by `track` for the first): the text of a run followed by `x` is the
/// text of the run, then a `depth` heading when `x`'s depth differs from that of the run's
/// last entry, then `x`'s box.
pub proof fn lemma_console_headings(s: Seq<Near>, x: Near, track: i8, bwd: Map<Seq<char>, u8>, top: Seq<char>)
    ensures
        entries_console(s.push(x), track, bwd, top) == entries_console(s, track, bwd, top)
            + heading(x.1, if s.len() == 0 { track } else { s.last().1 })
            + top + box_line(bwd[x.0], x.0) + "--------------------------------\n"@,
{
    assert(s.push(x).drop_last() =~= s);
    assert(s.push(x).last() == x);
}

/// Two entries in a row at different depths are separated by a heading for the second; two
/// at the same depth are not.
pub proof fn lemma_console_consecutive(s: Seq<Near>, x: Near, y: Near, track: i8, bwd: Map<Seq<char>, u8>, top: Seq<char>)
    ensures
        entries_console(s.push(x).push(y), track, bwd, top) == entries_console(s.push(x), track, bwd, top)
            + heading(y.1, x.1) + top + box_line(bwd[y.0], y.0) + "--------------------------------\n"@,
{
    lemma_console_headings(s.push(x), y, track, bwd, top);
}

/// The console text of a run of entries, starting with `track` as the last heading.
pub open spec fn entries_console(s: Seq<Near>, track: i8, bwd: Map<Seq<char>, u8>, top: Seq<char>) -> Seq<char>
    decreases s.len(),
{
    if s.len() == 0 {
        Seq::empty()
    } else {
        entries_console(s.drop_last(), track, bwd, top) + entry_console(s.last(), last_track(s.drop_last(), track), bwd, top)
    }
}

pub open spec fn before_center() -> spec_fn(Near) -> bool {
    |x: Near| x.1 < 0
}

pub open spec fn after_center() -> spec_fn(Near) -> bool {
    |x: Near| x.1 > 0
}

/// The console view of a center graph: the predecessors by depth, the center, the
/// successors by depth.
pub open spec fn console_text(vic: Seq<Near>, bwd: Map<Seq<char>, u8>, center: Seq<char>) -> Seq<char> {
    let prevs = vic.filter(before_center());
    let nexts = vic.filter(after_center());
    entries_console(prevs, -100i8, bwd, "-------------------------------\n"@) + "\n/\\ prevs /\\\n\n"@ + "--------------------------------\n"@ + "| "@ + centered(center, 25)
        + " |\n"@ + "--------------------------------\n"@ + "\n\\/ nexts \\/\n\n"@ + entries_console(nexts, last_track(prevs, -100i8), bwd, "--------------------------------\n"@)
}

/// The value a node-keyed list holds for `n`.
pub fn bwd_get(bwd: &Vec<(Node, u8)>, n: &Node) -> (res: u8)
    requires
        unique_nodes(bwd@),
        bwd_view(bwd@).contains_key(n@),
    ensures
        res == bwd_view(bwd@)[n@],
{
    let ghost q = choose|i: int| 0 <= i < bwd@.len() && #[trigger] bwd@[i].0@ == n@;
    let mut i: usize = 0;
    while i < bwd.len()
        invariant
            unique_nodes(bwd@),
            q == choose|i: int| 0 <= i < bwd@.len() && #[trigger] bwd@[i].0@ == n@,
            0 <= q < bwd@.len(),
            bwd@[q].0@ == n@,
            i <= q,
            forall|j: int| 0 <= j < i ==> bwd@[j].0@ != n@,
        decreases bwd@.len() - i,
    {
        if compare_ids(bwd[i].0.id.as_str(), n.id.as_str()) == Order::Equal {
            proof {
                if (i as int) != q {
                    assert(bwd@[i as int].0@ == n@);
                    assert(bwd@[q].0@ == n@);
                    if (i as int) < q {
                        assert(bwd@[i as int].0@ != bwd@[q].0@);
                    }
                }
            }
            return bwd[i].1;
        }
        i = i + 1;
    }
    proof {
        assert(false);
    }
    0
}

/// Keeps the entries on one side of the center, in order.
fn side_entries(vicinity: &Vec<(Node, i8)>, before: bool) -> (res: Vec<(Node, i8)>)
    ensures
        near_view(res@) == near_view(vicinity@).filter(if before { before_center() } else { after_center() }),
{
    let ghost v = near_view(vicinity@);
    let ghost p = if before { before_center() } else { after_center() };
    let mut res: Vec<(Node, i8)> = Vec::new();
    for i in 0..vicinity.len()
        invariant
            v == near_view(vicinity@),
            p == if before { before_center() } else { after_center() },
            near_view(res@) == v.take(i as int).filter(p),
    {
        let ghost prior = near_view(res@);
        let d = vicinity[i].1;
        if (before && d < 0) || (!before && d > 0) {
            res.push((vicinity[i].0.clone(), d));
            assert(near_view(res@) =~= prior.push(v[i as int]));
        }
        proof {
            assert(v.take(i + 1) =~= v.take(i as int).push(v[i as int]));
            v.take(i as int).lemma_filter_push(v[i as int], p);
        }
    }
    assert(v.take(vicinity@.len() as int) =~= v);
    res
}

/// Appends the console text of one entry.
#[verifier::rlimit(40)]
#[verifier::spinoff_prover]
fn push_entry(console: &mut String, node: &Node, depth: i8, track: i8, idx: u8, top: &str)
    ensures
        final(console)@ == old(console)@ + entry_text((node@, depth), track, idx, top@),
{
    if depth != track {
        console.append("\ndepth ");
        push_signed_decimal(console, depth as i64);
        console.append("\n");
    }
    console.append(top);
    console.append("| [");
    push_decimal(console, idx as u64);
    console.append("] ");
    push_centered(console, node.id.as_str(), 25);
    console.append(" |\n");
    console.append("--------------------------------\n");
    assert(console@ =~= old(console)@ + entry_text((node@, depth), track, idx, top@));
}

impl CenterGraph {
    /// Appends the console lines of a run of entries; returns the last depth heading.
    fn push_entries(&self, console: &mut String, side: &Vec<(Node, i8)>, track: i8, top: &str) -> (last: i8)
        requires
            self.wf(),
            forall|i: int| 0 <= i < side@.len() ==> near_view(self.vicinity@).contains(#[trigger] near_view(side@)[i]),
        ensures
            final(console)@ == old(console)@ + entries_console(near_view(side@), track, bwd_view(self.bwd@), top@),
            last == last_track(near_view(side@), track),
    {
        let ghost s = near_view(side@);
        let ghost bwd = bwd_view(self.bwd@);
        let mut depth_track = track;
        proof {
            lemma_bwd_of_covers(near_view(self.vicinity@));
        }
        for i in 0..side.len()
            invariant
                s == near_view(side@),
                bwd == bwd_view(self.bwd@),
                self.wf(),
                forall|k: int| 0 <= k < side@.len() ==> near_view(self.vicinity@).contains(#[trigger] near_view(side@)[k]),
                forall|k: int| 0 <= k < near_view(self.vicinity@).len() ==> bwd_of(near_view(self.vicinity@)).contains_key(#[trigger] near_view(self.vicinity@)[k].0),
                console@ == old(console)@ + entries_console(s.take(i as int), track, bwd, top@),
                depth_track == last_track(s.take(i as int), track),
        {
            let node = &side[i].0;
            let depth = side[i].1;
            proof {
                assert(s.contains(s[i as int]));
                let j = choose|j: int| 0 <= j < near_view(self.vicinity@).len() && near_view(self.vicinity@)[j] == s[i as int];
                assert(bwd.contains_key(near_view(self.vicinity@)[j].0));
            }
            let idx = bwd_get(&self.bwd, node);
            push_entry(console, node, depth, depth_track, idx, top);
            depth_track = depth;
            proof {
                let t = s.take(i + 1);
                assert(t.drop_last() =~= s.take(i as int));
                assert(console@ =~= old(console)@ + entries_console(t, track, bwd, top@));
            }
        }
        assert(s.take(side@.len() as int) =~= s);
        depth_track
    }

    /// The center graph as console text: the predecessors grouped by depth, the center, then
    /// the successors grouped by depth, each node with its position.
    pub fn to_console(&self) -> (res: String)
        requires
            self.wf(),
        ensures
            res@ == console_text(near_view(self.vicinity@), bwd_view(self.bwd@), self.center@),
    {
        let mut console = String::new();
        let prevs = side_entries(&self.vicinity, true);
        let nexts = side_entries(&self.vicinity, false);
        proof {
            let v = near_view(self.vicinity@);
            assert forall|i: int| 0 <= i < prevs@.len() implies v.contains(#[trigger] near_view(prevs@)[i]) by {
                v.lemma_filter_contains_rev(before_center(), near_view(prevs@)[i]);
            }
            assert forall|i: int| 0 <= i < nexts@.len() implies v.contains(#[trigger] near_view(nexts@)[i]) by {
                v.lemma_filter_contains_rev(after_center(), near_view(nexts@)[i]);
            }
        }
        let track = self.push_entries(&mut console, &prevs, -100, "-------------------------------\n");
        console.append("\n/\\ prevs /\\\n\n");
        console.append("--------------------------------\n");
        console.append("| ");
        push_centered(&mut console, self.center.id.as_str(), 25);
        console.append(" |\n");
        console.append("--------------------------------\n");
        console.append("\n\\/ nexts \\/\n\n");
        self.push_entries(&mut console, &nexts, track, "--------------------------------\n");
        assert(console@ =~= console_text(near_view(self.vicinity@), bwd_view(self.bwd@), self.center@));
        console
    }
}

} // verus!
