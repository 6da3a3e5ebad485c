//! Graphs of named nodes, with the forward and backward adjacency of each node, and the
//! "center graph": the part of a graph that lies within a depth limit around one node.
use vstd::prelude::*;
use vstd::string::*;
use crate::graph::order::{id_lt, lemma_id_lt_irreflexive, lemma_id_lt_transitive, lemma_id_lt_total, lemma_id_lt_asymmetric, compare_ids, Order};

verus! {

/// A node, named by its identifier.
pub struct Node {
    pub id: String,
}

impl View for Node {
    type V = Seq<char>;

    open spec fn view(&self) -> Seq<char> {
        self.id@
    }
}

impl Clone for Node {
    fn clone(&self) -> (res: Node)
        ensures
            res@ == self@,
    {
        Node { id: self.id.clone() }
    }
}

/// A directed edge between two nodes.
pub struct Edge {
    pub from: Node,
    pub to: Node,
}

/// Identifiers of a sequence of nodes.
pub open spec fn ids(nodes: Seq<Node>) -> Seq<Seq<char>> {
    nodes.map_values(|n: Node| n@)
}

pub proof fn lemma_forward_map_push(es: Seq<(Seq<char>, Seq<char>)>, e: (Seq<char>, Seq<char>))
    ensures
        forward_map(es.push(e)) =~= forward_map(es).insert(e.0, lookup(forward_map(es), e.0).push(e.1)),
{
    let ne = es.push(e);
    let m = forward_map(es).insert(e.0, lookup(forward_map(es), e.0).push(e.1));
    assert forall|k: Seq<char>| forward_map(ne).contains_key(k) == m.contains_key(k) by {
        if k == e.0 {
            assert(ne[es.len() as int].0 == k);
        }
        if exists|i: int| 0 <= i < ne.len() && #[trigger] ne[i].0 == k {
            let i = choose|i: int| 0 <= i < ne.len() && #[trigger] ne[i].0 == k;
            if i < es.len() {
                assert(es[i].0 == k);
            }
        }
        if exists|i: int| 0 <= i < es.len() && #[trigger] es[i].0 == k {
            let i = choose|i: int| 0 <= i < es.len() && #[trigger] es[i].0 == k;
            assert(ne[i].0 == k);
        }
    }
    assert forall|k: Seq<char>| #[trigger] forward_map(ne).contains_key(k) implies forward_map(ne)[k] == m[k] by {
        es.lemma_filter_push(e, starts_at(k));
        if k == e.0 {
            assert(targets(ne, k) =~= targets(es, k).push(e.1));
            if !(exists|i: int| 0 <= i < es.len() && #[trigger] es[i].0 == k) {
                lemma_filter_none(es, k);
                assert(targets(es, k) =~= Seq::<Seq<char>>::empty());
            }
        } else {
            assert(targets(ne, k) =~= targets(es, k));
        }
    }
}

/// `v` is among the targets of `u` exactly when `(u, v)` is one of the edges.
pub proof fn lemma_lookup_edge(es: Seq<(Seq<char>, Seq<char>)>, u: Seq<char>, v: Seq<char>)
    ensures
        lookup(forward_map(es), u).contains(v) <==> es.contains((u, v)),
{
    let f = es.filter(starts_at(u));
    #[allow(deprecated)]
    es.filter_lemma(starts_at(u));
    if es.contains((u, v)) {
        let i = choose|i: int| 0 <= i < es.len() && es[i] == (u, v);
        assert(es[i].0 == u);
        es.lemma_filter_contains(starts_at(u), i);
        let j = choose|j: int| 0 <= j < f.len() && f[j] == (u, v);
        assert(targets(es, u)[j] == v);
        assert(forward_map(es).contains_key(u));
    }
    if lookup(forward_map(es), u).contains(v) {
        assert(forward_map(es).contains_key(u));
        let t = targets(es, u);
        let j = choose|j: int| 0 <= j < t.len() && t[j] == v;
        assert(t[j] == f[j].1);
        assert(starts_at(u)(f[j]));
        assert(f[j].1 == v && f[j].0 == u);
        assert(f.contains(f[j]));
        es.lemma_filter_contains_rev(starts_at(u), f[j]);
    }
}

/// The backward map mirrors the forward one: `u` leads to `v` exactly when `v` is led to
/// from `u`.
pub proof fn lemma_backward_mirrors_forward(es: Seq<(Seq<char>, Seq<char>)>, u: Seq<char>, v: Seq<char>)
    ensures
        lookup(forward_map(es), u).contains(v) <==> lookup(forward_map(reversed(es)), v).contains(u),
{
    lemma_lookup_edge(es, u, v);
    lemma_lookup_edge(reversed(es), v, u);
    if es.contains((u, v)) {
        let i = choose|i: int| 0 <= i < es.len() && es[i] == (u, v);
        assert(reversed(es)[i] == (v, u));
    }
    if reversed(es).contains((v, u)) {
        let i = choose|i: int| 0 <= i < reversed(es).len() && reversed(es)[i] == (v, u);
        assert(es[i] == (u, v));
    }
}

/// Keeping the edges with source `k` keeps none when no edge starts at `k`.
pub proof fn lemma_filter_none(es: Seq<(Seq<char>, Seq<char>)>, k: Seq<char>)
    requires
        !(exists|i: int| 0 <= i < es.len() && #[trigger] es[i].0 == k),
    ensures
        es.filter(starts_at(k)).len() == 0,
    decreases es.len(),
{
    reveal(Seq::filter);
    if es.len() > 0 {
        let d = es.drop_last();
        assert forall|i: int| 0 <= i < d.len() implies #[trigger] d[i].0 != k by {
            assert(d[i] == es[i]);
        }
        lemma_filter_none(d, k);
        assert(es[es.len() - 1].0 != k);
    }
}

/// An adjacency map given as a list of entries: an identifier and the identifiers it maps to.
pub type Entries = Seq<(Seq<char>, Seq<Seq<char>>)>;

/// The keys of the entries are strictly increasing, so no key occurs twice.
pub open spec fn keys_sorted(es: Entries) -> bool {
    forall|i: int, j: int| 0 <= i < j < es.len() ==> id_lt(#[trigger] es[i].0, #[trigger] es[j].0)
}

pub open spec fn has_key(es: Entries, k: Seq<char>) -> bool {
    exists|i: int| 0 <= i < es.len() && #[trigger] es[i].0 == k
}

pub open spec fn key_index(es: Entries, k: Seq<char>) -> int {
    choose|i: int| 0 <= i < es.len() && #[trigger] es[i].0 == k
}

/// The map that a list of entries stands for.
pub open spec fn entries_map(es: Entries) -> Map<Seq<char>, Seq<Seq<char>>> {
    Map::new(|k: Seq<char>| has_key(es, k), |k: Seq<char>| es[key_index(es, k)].1)
}

/// What the map holds for `k`, the empty sequence where it holds nothing.
pub open spec fn lookup(m: Map<Seq<char>, Seq<Seq<char>>>, k: Seq<char>) -> Seq<Seq<char>> {
    if m.contains_key(k) {
        m[k]
    } else {
        Seq::empty()
    }
}

/// Identifier pairs of a sequence of edges.
pub open spec fn edge_pairs(edges: Seq<Edge>) -> Seq<(Seq<char>, Seq<char>)> {
    edges.map_values(|e: Edge| (e.from@, e.to@))
}

/// Whether an edge starts at `k`.
pub open spec fn starts_at(k: Seq<char>) -> spec_fn((Seq<char>, Seq<char>)) -> bool {
    |e: (Seq<char>, Seq<char>)| e.0 == k
}

/// The targets of the edges that start at `k`, in order.
pub open spec fn targets(es: Seq<(Seq<char>, Seq<char>)>, k: Seq<char>) -> Seq<Seq<char>> {
    es.filter(starts_at(k)).map_values(|e: (Seq<char>, Seq<char>)| e.1)
}

/// For each source, the targets of the edges leaving it, in the order of the edges.
pub open spec fn forward_map(es: Seq<(Seq<char>, Seq<char>)>) -> Map<Seq<char>, Seq<Seq<char>>> {
    Map::new(
        |k: Seq<char>| exists|i: int| 0 <= i < es.len() && #[trigger] es[i].0 == k,
        |k: Seq<char>| targets(es, k),
    )
}

/// The same edges, each turned around.
pub open spec fn reversed(es: Seq<(Seq<char>, Seq<char>)>) -> Seq<(Seq<char>, Seq<char>)> {
    es.map_values(|e: (Seq<char>, Seq<char>)| (e.1, e.0))
}

/// The union of two maps, where a key held by both maps to the left list followed by the
/// right one.
pub open spec fn merged_map(
    l: Map<Seq<char>, Seq<Seq<char>>>,
    r: Map<Seq<char>, Seq<Seq<char>>>,
) -> Map<Seq<char>, Seq<Seq<char>>> {
    Map::new(
        |k: Seq<char>| l.contains_key(k) || r.contains_key(k),
        |k: Seq<char>| lookup(l, k) + lookup(r, k),
    )
}

/// Dot text of one edge line.
pub open spec fn edge_line(from: Seq<char>, to: Seq<char>) -> Seq<char> {
    "\t"@ + from + " -> "@ + to + "\n"@
}

/// Dot text of the edges from one node, in order.
pub open spec fn targets_dot(from: Seq<char>, tos: Seq<Seq<char>>) -> Seq<char>
    decreases tos.len(),
{
    if tos.len() == 0 {
        Seq::empty()
    } else {
        targets_dot(from, tos.drop_last()) + edge_line(from, tos.last())
    }
}

/// Dot text of all the edges of an adjacency list, in order.
pub open spec fn entries_dot(es: Entries) -> Seq<char>
    decreases es.len(),
{
    if es.len() == 0 {
        Seq::empty()
    } else {
        entries_dot(es.drop_last()) + targets_dot(es.last().0, es.last().1)
    }
}

/// Dot text of a node statement.
pub open spec fn node_dot(id: Seq<char>) -> Seq<char> {
    id + " [shape=box]"@
}

/// Dot text of the node statements of a graph, in order.
pub open spec fn nodes_dot(nodes: Seq<Seq<char>>) -> Seq<char>
    decreases nodes.len(),
{
    if nodes.len() == 0 {
        Seq::empty()
    } else {
        nodes_dot(nodes.drop_last()) + "\t"@ + node_dot(nodes.last()) + "\n"@
    }
}

/// A sequence of identifiers in strictly increasing order: a set, listed in order.
pub open spec fn ids_sorted(s: Seq<Seq<char>>) -> bool {
    forall|i: int, j: int| 0 <= i < j < s.len() ==> id_lt(#[trigger] s[i], #[trigger] s[j])
}

pub proof fn lemma_sorted_unique_key(es: Entries, i: int)
    requires
        keys_sorted(es),
        0 <= i < es.len(),
    ensures
        has_key(es, es[i].0),
        key_index(es, es[i].0) == i,
        entries_map(es)[es[i].0] == es[i].1,
{
    let k = es[i].0;
    assert(has_key(es, k));
    let j = key_index(es, k);
    if j < i {
        lemma_id_lt_irreflexive(k);
    } else if j > i {
        lemma_id_lt_irreflexive(k);
    }
}

impl Node {
    /// A node with the given identifier.
    pub fn new(id: &str) -> (res: Node)
        ensures
            res@ == id@,
    {
        Node { id: id.to_string() }
    }

    /// The node statement in dot.
    pub fn to_dot(&self) -> (res: String)
        ensures
            res@ == node_dot(self@),
    {
        let mut dot = String::new();
        dot.append(self.id.as_str());
        dot.append(" [shape=box]");
        proof {
            assert(dot@ =~= node_dot(self@));
        }
        dot
    }
}

impl Edge {
    pub fn new(from: Node, to: Node) -> (res: Edge)
        ensures
            res.from@ == from@,
            res.to@ == to@,
    {
        Edge { from, to }
    }
}


/// Copies a list of nodes.
pub fn clone_nodes(v: &Vec<Node>) -> (res: Vec<Node>)
    ensures
        ids(res@) == ids(v@),
{
    let mut res: Vec<Node> = Vec::new();
    for i in 0..v.len()
        invariant
            ids(res@) =~= ids(v@.take(i as int)),
    {
        let ghost before = res@;
        res.push(v[i].clone());
        assert(v@.take(i + 1) =~= v@.take(i as int).push(v@[i as int]));
        assert(ids(res@) =~= ids(before).push(v@[i as int]@));
        assert(ids(v@.take(i + 1)) =~= ids(v@.take(i as int)).push(v@[i as int]@));
    }
    assert(v@.take(v.len() as int) =~= v@);
    res
}

pub proof fn lemma_update_entry(es: Entries, i: int, v: Seq<Seq<char>>)
    requires
        keys_sorted(es),
        0 <= i < es.len(),
    ensures
        keys_sorted(es.update(i, (es[i].0, v))),
        entries_map(es.update(i, (es[i].0, v))) =~= entries_map(es).insert(es[i].0, v),
{
    let ne = es.update(i, (es[i].0, v));
    assert(keys_sorted(ne)) by {
        assert forall|a: int, b: int| 0 <= a < b < ne.len() implies id_lt(#[trigger] ne[a].0, #[trigger] ne[b].0) by {
            assert(ne[a].0 == es[a].0 && ne[b].0 == es[b].0);
        }
    }
    let m = entries_map(es).insert(es[i].0, v);
    assert forall|k: Seq<char>| entries_map(ne).contains_key(k) == m.contains_key(k) by {
        if has_key(ne, k) {
            let j = choose|j: int| 0 <= j < ne.len() && #[trigger] ne[j].0 == k;
            assert(es[j].0 == k);
        }
        if has_key(es, k) {
            let j = choose|j: int| 0 <= j < es.len() && #[trigger] es[j].0 == k;
            assert(ne[j].0 == k);
        }
    }
    assert forall|k: Seq<char>| #[trigger] entries_map(ne).contains_key(k) implies entries_map(ne)[k] == m[k] by {
        let j = choose|j: int| 0 <= j < ne.len() && #[trigger] ne[j].0 == k;
        lemma_sorted_unique_key(ne, j);
        lemma_sorted_unique_key(ne, i);
        assert(es[j].0 == k);
        lemma_sorted_unique_key(es, j);
        if j != i {
            assert(k != es[i].0);
        }
    }
}

pub proof fn lemma_insert_entry(es: Entries, i: int, k: Seq<char>, v: Seq<Seq<char>>)
    requires
        keys_sorted(es),
        0 <= i <= es.len(),
        forall|j: int| 0 <= j < i ==> id_lt(#[trigger] es[j].0, k),
        forall|j: int| i <= j < es.len() ==> id_lt(k, #[trigger] es[j].0),
    ensures
        keys_sorted(es.insert(i, (k, v))),
        !has_key(es, k),
        entries_map(es.insert(i, (k, v))) =~= entries_map(es).insert(k, v),
{
    let ne = es.insert(i, (k, v));
    assert(keys_sorted(ne)) by {
        assert forall|a: int, b: int| 0 <= a < b < ne.len() implies id_lt(#[trigger] ne[a].0, #[trigger] ne[b].0) by {
            if a < i && b > i {
                lemma_id_lt_transitive(es[a].0, k, es[b - 1].0);
            }
        }
    }
    if has_key(es, k) {
        let j = choose|j: int| 0 <= j < es.len() && #[trigger] es[j].0 == k;
        lemma_id_lt_irreflexive(k);
    }
    let m = entries_map(es).insert(k, v);
    assert forall|q: Seq<char>| entries_map(ne).contains_key(q) == m.contains_key(q) by {
        if q == k {
            assert(ne[i].0 == k);
        }
        if has_key(ne, q) {
            let j = choose|j: int| 0 <= j < ne.len() && #[trigger] ne[j].0 == q;
            if j < i {
                assert(es[j].0 == q);
            } else if j > i {
                assert(es[j - 1].0 == q);
            }
        }
        if has_key(es, q) {
            let j = choose|j: int| 0 <= j < es.len() && #[trigger] es[j].0 == q;
            if j < i {
                assert(ne[j].0 == q);
            } else {
                assert(ne[j + 1].0 == q);
            }
        }
    }
    assert forall|q: Seq<char>| #[trigger] entries_map(ne).contains_key(q) implies entries_map(ne)[q] == m[q] by {
        let j = choose|j: int| 0 <= j < ne.len() && #[trigger] ne[j].0 == q;
        lemma_sorted_unique_key(ne, j);
        if j < i {
            lemma_sorted_unique_key(es, j);
        } else if j > i {
            lemma_sorted_unique_key(es, j - 1);
        }
    }
}

/// An adjacency map: each node and the list of nodes it leads to, ordered by node.
pub struct EdgeMap {
    pub direction: Vec<(Node, Vec<Node>)>,
}

impl EdgeMap {
    pub open spec fn entries(&self) -> Entries {
        self.direction@.map_values(|e: (Node, Vec<Node>)| (e.0@, ids(e.1@)))
    }

    /// The entries are in increasing order of their node.
    pub open spec fn wf(&self) -> bool {
        keys_sorted(self.entries())
    }

    pub open spec fn as_map(&self) -> Map<Seq<char>, Seq<Seq<char>>> {
        entries_map(self.entries())
    }

    /// An empty map.
    pub fn empty() -> (res: EdgeMap)
        ensures
            res.wf(),
            res.entries() == Seq::<(Seq<char>, Seq<Seq<char>>)>::empty(),
            res.as_map() =~= Map::<Seq<char>, Seq<Seq<char>>>::empty(),
    {
        let res = EdgeMap { direction: Vec::new() };
        assert(res.entries() =~= Seq::<(Seq<char>, Seq<Seq<char>>)>::empty());
        res
    }

    /// Where `key` stands: `Ok` with its index, or `Err` with the index it belongs at.
    pub fn locate(&self, key: &Node) -> (res: Result<usize, usize>)
        requires
            self.wf(),
        ensures
            res matches Ok(i) ==> i < self.entries().len() && self.entries()[i as int].0 == key@,
            res matches Err(i) ==> i <= self.entries().len() && (forall|j: int|
                0 <= j < i ==> id_lt(#[trigger] self.entries()[j].0, key@)) && (forall|j: int|
                i <= j < self.entries().len() ==> id_lt(key@, #[trigger] self.entries()[j].0)),
    {
        let ghost es = self.entries();
        let mut j: usize = 0;
        while j < self.direction.len()
            invariant
                es == self.entries(),
                keys_sorted(es),
                j <= es.len(),
                es.len() == self.direction@.len(),
                forall|q: int| 0 <= q < j ==> id_lt(#[trigger] es[q].0, key@),
            decreases self.direction@.len() - j,
        {
            match compare_ids(self.direction[j].0.id.as_str(), key.id.as_str()) {
                Order::Less => {
                    j = j + 1;
                },
                Order::Equal => {
                    return Ok(j);
                },
                Order::Greater => {
                    proof {
                        assert forall|q: int| j <= q < es.len() implies id_lt(key@, #[trigger] es[q].0) by {
                            if q > j {
                                lemma_id_lt_transitive(key@, es[j as int].0, es[q].0);
                            }
                        }
                    }
                    return Err(j);
                },
            }
        }
        Err(j)
    }

    /// Appends `tos` to the list of `from`, adding `from` where it is missing.
    pub fn add_targets(&mut self, from: Node, tos: Vec<Node>)
        requires
            old(self).wf(),
        ensures
            final(self).wf(),
            final(self).as_map() =~= old(self).as_map().insert(
                from@,
                lookup(old(self).as_map(), from@) + ids(tos@),
            ),
    {
        let ghost es = self.entries();
        match self.locate(&from) {
            Ok(i) => {
                let mut tos = tos;
                let ghost added = ids(tos@);
                let ghost old_dir = self.direction@;
                let ghost tos_before = tos@;
                let entry = &mut self.direction[i];
                entry.1.append(&mut tos);
                proof {
                    let new_targets = self.direction@[i as int].1@;
                    assert(new_targets =~= old_dir[i as int].1@ + tos_before);
                    assert(ids(new_targets) =~= ids(old_dir[i as int].1@) + added);
                    lemma_update_entry(es, i as int, es[i as int].1 + added);
                    lemma_sorted_unique_key(es, i as int);
                    assert(self.entries() =~= es.update(i as int, (es[i as int].0, es[i as int].1 + added)));
                }
            },
            Err(i) => {
                let ghost v = ids(tos@);
                self.direction.insert(i, (from, tos));
                proof {
                    lemma_insert_entry(es, i as int, from@, v);
                    assert(self.entries() =~= es.insert(i as int, (from@, v)));
                }
            },
        }
    }
}


impl EdgeMap {
    /// For each source node, the targets of the edges leaving it, in the order of `edges`.
    pub fn forward(edges: &Vec<Edge>) -> (res: EdgeMap)
        ensures
            res.wf(),
            res.as_map() == forward_map(edge_pairs(edges@)),
    {
        let mut res = EdgeMap::empty();
        let ghost es = edge_pairs(edges@);
        for i in 0..edges.len()
            invariant
                es == edge_pairs(edges@),
                res.wf(),
                res.as_map() =~= forward_map(es.take(i as int)),
        {
            let mut tos: Vec<Node> = Vec::new();
            tos.push(edges[i].to.clone());
            assert(ids(tos@) =~= seq![edges@[i as int].to@]);
            let ghost before = res.as_map();
            res.add_targets(edges[i].from.clone(), tos);
            proof {
                let e = es[i as int];
                assert(e == (edges@[i as int].from@, edges@[i as int].to@));
                assert(es.take(i + 1) =~= es.take(i as int).push(e));
                lemma_forward_map_push(es.take(i as int), e);
                assert(lookup(before, e.0) + seq![e.1] =~= lookup(before, e.0).push(e.1));
            }
        }
        assert(es.take(edges.len() as int) =~= es);
        res
    }

    /// For each target node, the sources of the edges reaching it, in the order of `edges`.
    pub fn backward(edges: &Vec<Edge>) -> (res: EdgeMap)
        ensures
            res.wf(),
            res.as_map() == forward_map(reversed(edge_pairs(edges@))),
    {
        let mut turned: Vec<Edge> = Vec::new();
        for i in 0..edges.len()
            invariant
                edge_pairs(turned@) =~= reversed(edge_pairs(edges@.take(i as int))),
        {
            let ghost before = turned@;
            turned.push(Edge::new(edges[i].to.clone(), edges[i].from.clone()));
            assert(edges@.take(i + 1) =~= edges@.take(i as int).push(edges@[i as int]));
            assert(edge_pairs(turned@) =~= edge_pairs(before).push((edges@[i as int].to@, edges@[i as int].from@)));
            assert(reversed(edge_pairs(edges@.take(i + 1))) =~= reversed(edge_pairs(edges@.take(i as int))).push((edges@[i as int].to@, edges@[i as int].from@)));
        }
        assert(edges@.take(edges.len() as int) =~= edges@);
        EdgeMap::forward(&turned)
    }

    /// A copy of the map.
    pub fn duplicate(&self) -> (res: EdgeMap)
        ensures
            res.entries() == self.entries(),
    {
        let mut direction: Vec<(Node, Vec<Node>)> = Vec::new();
        for i in 0..self.direction.len()
            invariant
                direction@.map_values(|e: (Node, Vec<Node>)| (e.0@, ids(e.1@))) =~= self.entries().take(i as int),
        {
            let ghost before = direction@;
            direction.push((self.direction[i].0.clone(), clone_nodes(&self.direction[i].1)));
            assert(direction@.map_values(|e: (Node, Vec<Node>)| (e.0@, ids(e.1@))) =~= before.map_values(|e: (Node, Vec<Node>)| (e.0@, ids(e.1@))).push(self.entries()[i as int]));
            assert(self.entries().take(i + 1) =~= self.entries().take(i as int).push(self.entries()[i as int]));
        }
        assert(self.entries().take(self.direction.len() as int) =~= self.entries());
        EdgeMap { direction }
    }

    /// The union of two maps: a node held by both maps to the list of `left` followed by
    /// that of `right`.
    pub fn merge(left: &EdgeMap, right: &EdgeMap) -> (res: EdgeMap)
        requires
            left.wf(),
            right.wf(),
        ensures
            res.wf(),
            res.as_map() == merged_map(left.as_map(), right.as_map()),
    {
        let mut merged = left.duplicate();
        let ghost re = right.entries();
        assert(merged_map(left.as_map(), entries_map(re.take(0))) =~= left.as_map());
        for i in 0..right.direction.len()
            invariant
                re == right.entries(),
                keys_sorted(re),
                merged.wf(),
                merged.as_map() =~= merged_map(left.as_map(), entries_map(re.take(i as int))),
        {
            let ghost pre = re.take(i as int);
            let ghost k = re[i as int].0;
            let ghost v = re[i as int].1;
            merged.add_targets(right.direction[i].0.clone(), clone_nodes(&right.direction[i].1));
            proof {
                let post = re.take(i + 1);
                assert(post =~= pre.push(re[i as int]));
                assert(keys_sorted(pre));
                assert forall|j: int| 0 <= j < pre.len() implies id_lt(#[trigger] pre[j].0, k) by {
                    assert(pre[j] == re[j]);
                }
                lemma_insert_entry(pre, pre.len() as int, k, v);
                assert(post =~= pre.insert(pre.len() as int, (k, v)));
                assert(entries_map(post) =~= entries_map(pre).insert(k, v));
            }
        }
        assert(re.take(right.direction.len() as int) =~= re);
        merged
    }

    /// The edges as dot statements, in order.
    pub fn to_dot(&self) -> (res: String)
        ensures
            res@ == entries_dot(self.entries()),
    {
        let mut dot = String::new();
        let ghost es = self.entries();
        for i in 0..self.direction.len()
            invariant
                es == self.entries(),
                dot@ == entries_dot(es.take(i as int)),
        {
            let from = &self.direction[i].0;
            let tos = &self.direction[i].1;
            let ghost base = dot@;
            for j in 0..tos.len()
                invariant
                    dot@ == base + targets_dot(from@, ids(tos@).take(j as int)),
            {
                dot.append("\t");
                dot.append(from.id.as_str());
                dot.append(" -> ");
                dot.append(tos[j].id.as_str());
                dot.append("\n");
                proof {
                    let t = ids(tos@);
                    assert(t.take(j + 1).drop_last() =~= t.take(j as int));
                    assert(dot@ =~= base + targets_dot(from@, t.take(j as int)) + edge_line(from@, t[j as int]));
                }
            }
            proof {
                assert(ids(tos@).take(tos.len() as int) =~= ids(tos@));
                assert(es.take(i + 1).drop_last() =~= es.take(i as int));
            }
        }
        assert(es.take(self.direction.len() as int) =~= es);
        dot
    }
}


pub proof fn lemma_sorted_insert(s: Seq<Seq<char>>, i: int, k: Seq<char>)
    requires
        ids_sorted(s),
        0 <= i <= s.len(),
        forall|j: int| 0 <= j < i ==> id_lt(#[trigger] s[j], k),
        forall|j: int| i <= j < s.len() ==> id_lt(k, #[trigger] s[j]),
    ensures
        ids_sorted(s.insert(i, k)),
        s.insert(i, k).to_set() =~= s.to_set().insert(k),
{
    let ns = s.insert(i, k);
    assert forall|a: int, b: int| 0 <= a < b < ns.len() implies id_lt(#[trigger] ns[a], #[trigger] ns[b]) by {
        if a < i && b > i {
            lemma_id_lt_transitive(s[a], k, s[b - 1]);
        }
    }
    assert forall|x: Seq<char>| ns.to_set().contains(x) == s.to_set().insert(k).contains(x) by {
        if ns.contains(x) {
            let j = choose|j: int| 0 <= j < ns.len() && ns[j] == x;
            if j < i {
                assert(s[j] == x);
            } else if j > i {
                assert(s[j - 1] == x);
            }
        }
        if s.contains(x) {
            let j = choose|j: int| 0 <= j < s.len() && s[j] == x;
            if j < i {
                assert(ns[j] == x);
            } else {
                assert(ns[j + 1] == x);
            }
        }
        if x == k {
            assert(ns[i] == k);
        }
    }
}

pub proof fn lemma_take_push_to_set(s: Seq<Seq<char>>, i: int)
    requires
        0 <= i < s.len(),
    ensures
        s.take(i + 1).to_set() =~= s.take(i).to_set().insert(s[i]),
{
    let a = s.take(i + 1);
    let b = s.take(i);
    assert forall|x: Seq<char>| a.to_set().contains(x) == b.to_set().insert(s[i]).contains(x) by {
        if a.contains(x) {
            let q = choose|q: int| 0 <= q < a.len() && #[trigger] a[q] == x;
            if q < i {
                assert(b[q] == x);
            }
        }
        if b.contains(x) {
            let q = choose|q: int| 0 <= q < b.len() && #[trigger] b[q] == x;
            assert(a[q] == x);
        }
        if x == s[i] {
            assert(a[i] == x);
        }
    }
}

/// Adds `n` to a set of nodes kept as a list in increasing order.
pub fn set_insert(set: &mut Vec<Node>, n: Node)
    requires
        ids_sorted(ids(old(set)@)),
    ensures
        ids_sorted(ids(final(set)@)),
        ids(final(set)@).to_set() =~= ids(old(set)@).to_set().insert(n@),
{
    let ghost s = ids(set@);
    let mut j: usize = 0;
    while j < set.len()
        invariant
            s == ids(set@),
            s == ids(old(set)@),
            ids_sorted(s),
            j <= set@.len(),
            forall|q: int| 0 <= q < j ==> id_lt(#[trigger] s[q], n@),
        decreases set@.len() - j,
    {
        match compare_ids(set[j].id.as_str(), n.id.as_str()) {
            Order::Less => {
                j = j + 1;
            },
            Order::Equal => {
                proof {
                    assert(s.to_set().insert(n@) =~= s.to_set()) by {
                        assert(s.contains(n@)) by {
                            assert(s[j as int] == n@);
                        }
                    }
                }
                return;
            },
            Order::Greater => {
                proof {
                    assert forall|q: int| j <= q < s.len() implies id_lt(n@, #[trigger] s[q]) by {
                        if q > j {
                            lemma_id_lt_transitive(n@, s[j as int], s[q]);
                        }
                    }
                    lemma_sorted_insert(s, j as int, n@);
                }
                let ghost nn = n@;
                set.insert(j, n);
                assert(ids(set@) =~= s.insert(j as int, nn));
                return;
            },
        }
    }
    proof {
        lemma_sorted_insert(s, j as int, n@);
    }
    let ghost nn = n@;
    set.insert(j, n);
    assert(ids(set@) =~= s.insert(j as int, nn));
}

/// The set of the given nodes, listed in increasing order without repetition.
pub fn node_set(nodes: Vec<Node>) -> (res: Vec<Node>)
    ensures
        ids_sorted(ids(res@)),
        ids(res@).to_set() =~= ids(nodes@).to_set(),
{
    let mut res: Vec<Node> = Vec::new();
    let mut nodes = nodes;
    let ghost all = ids(nodes@);
    assert(ids(res@).to_set() =~= all.take(0).to_set());
    let mut i: usize = 0;
    let n = nodes.len();
    while i < n
        invariant
            n == all.len(),
            nodes@.len() == n,
            ids(nodes@) == all,
            i <= n,
            ids_sorted(ids(res@)),
            ids(res@).to_set() =~= all.take(i as int).to_set(),
        decreases n - i,
    {
        set_insert(&mut res, nodes[i].clone());
        proof {
            lemma_take_push_to_set(all, i as int);
        }
        i = i + 1;
    }
    assert(all.take(n as int) =~= all);
    res
}

/// A graph: its nodes, and for each node the nodes it leads to and the nodes leading to it.
pub struct Graph {
    pub nodes: Vec<Node>,
    /// from => [tos]
    pub forward: EdgeMap,
    /// to => [froms]
    pub backward: EdgeMap,
}

impl Graph {
    /// The nodes are listed in increasing order, and both maps are well formed.
    pub open spec fn wf(&self) -> bool {
        &&& ids_sorted(ids(self.nodes@))
        &&& self.forward.wf()
        &&& self.backward.wf()
    }

    pub open spec fn node_ids(&self) -> Set<Seq<char>> {
        ids(self.nodes@).to_set()
    }

    /// A graph of the given node set and edges.
    pub fn new(nodes: Vec<Node>, edges: Vec<Edge>) -> (res: Graph)
        requires
            ids_sorted(ids(nodes@)),
        ensures
            res.wf(),
            ids(res.nodes@) == ids(nodes@),
            res.forward.as_map() == forward_map(edge_pairs(edges@)),
            res.backward.as_map() == forward_map(reversed(edge_pairs(edges@))),
    {
        let forward = EdgeMap::forward(&edges);
        let backward = EdgeMap::backward(&edges);
        Graph { nodes, forward, backward }
    }

    /// Joins the predecessor graph and the successor graph of `center`: the nodes of both and
    /// `center`; edges of the predecessor graph are turned around.
    pub fn merge(center: &Node, prevs: &Graph, nexts: &Graph) -> (res: Graph)
        requires
            prevs.wf(),
            nexts.wf(),
        ensures
            res.wf(),
            res.node_ids() == prevs.node_ids().union(nexts.node_ids()).insert(center@),
            res.forward.as_map() == merged_map(prevs.backward.as_map(), nexts.forward.as_map()),
            res.backward.as_map() == merged_map(prevs.forward.as_map(), nexts.backward.as_map()),
    {
        let mut nodes = clone_nodes(&prevs.nodes);
        let ghost base = ids(prevs.nodes@).to_set();
        let ghost other = ids(nexts.nodes@);
        for i in 0..nexts.nodes.len()
            invariant
                other == ids(nexts.nodes@),
                ids_sorted(ids(nodes@)),
                ids(nodes@).to_set() =~= base.union(other.take(i as int).to_set()),
        {
            set_insert(&mut nodes, nexts.nodes[i].clone());
            proof {
                lemma_take_push_to_set(other, i as int);
            }
        }
        assert(other.take(nexts.nodes.len() as int) =~= other);
        set_insert(&mut nodes, center.clone());
        Graph {
            nodes,
            forward: EdgeMap::merge(&prevs.backward, &nexts.forward),
            backward: EdgeMap::merge(&prevs.forward, &nexts.backward),
        }
    }

    /// A copy of the graph.
    pub fn duplicate(&self) -> (res: Graph)
        ensures
            ids(res.nodes@) == ids(self.nodes@),
            res.forward.entries() == self.forward.entries(),
            res.backward.entries() == self.backward.entries(),
            self.wf() ==> res.wf(),
    {
        Graph { nodes: clone_nodes(&self.nodes), forward: self.forward.duplicate(), backward: self.backward.duplicate() }
    }

    /// Whether the graph has a node named `node`.
    pub fn contains(&self, node: &str) -> (res: bool)
        ensures
            res == ids(self.nodes@).contains(node@),
    {
        let target = Node::new(node);
        for i in 0..self.nodes.len()
            invariant
                target@ == node@,
                forall|q: int| 0 <= q < i ==> ids(self.nodes@)[q] != node@,
        {
            if compare_ids(self.nodes[i].id.as_str(), target.id.as_str()) == Order::Equal {
                assert(ids(self.nodes@)[i as int] == node@);
                return true;
            }
        }
        false
    }

    /// The graph in the dot format.
    pub fn to_dot(&self) -> (res: String)
        ensures
            res@ == "digraph G {\n"@ + nodes_dot(ids(self.nodes@)) + entries_dot(self.forward.entries()) + "}"@,
    {
        let mut dot = String::new();
        dot.append("digraph G {\n");
        let ghost head = dot@;
        let ghost ns = ids(self.nodes@);
        for i in 0..self.nodes.len()
            invariant
                ns == ids(self.nodes@),
                dot@ == head + nodes_dot(ns.take(i as int)),
        {
            dot.append("\t");
            let line = self.nodes[i].to_dot();
            dot.append(line.as_str());
            dot.append("\n");
            proof {
                assert(ns.take(i + 1).drop_last() =~= ns.take(i as int));
                assert(dot@ =~= head + nodes_dot(ns.take(i + 1)));
            }
        }
        assert(ns.take(self.nodes.len() as int) =~= ns);
        let edges = self.forward.to_dot();
        dot.append(edges.as_str());
        dot.append("}");
        assert(dot@ =~= "digraph G {\n"@ + nodes_dot(ns) + entries_dot(self.forward.entries()) + "}"@);
        dot
    }
}

} // verus!
