//! The depth-limited search from a center node, as done by `EdgeMap::search`.
use vstd::prelude::*;
use crate::graph::order::{id_lt, lemma_id_lt_irreflexive, lemma_id_lt_transitive, compare_ids, Order};
use crate::graph::graph::{
    Node, Edge, EdgeMap, Entries, ids, ids_sorted, lookup, edge_pairs, keys_sorted, has_key,
    key_index, entries_map, lemma_sorted_unique_key, set_insert,
};

verus! {

/// `path` follows the map: each node after the first is one the previous node leads to.
pub open spec fn is_path(dir: Map<Seq<char>, Seq<Seq<char>>>, path: Seq<Seq<char>>) -> bool {
    forall|i: int| 0 <= i < path.len() - 1 ==> lookup(dir, #[trigger] path[i]).contains(path[i + 1])
}

/// `n` is reached from `start` by a walk of exactly `d` steps along the map.
#[verifier::opaque]
pub open spec fn walk(dir: Map<Seq<char>, Seq<Seq<char>>>, start: Seq<char>, n: Seq<char>, d: nat) -> bool {
    exists|path: Seq<Seq<char>>|
        path.len() == d + 1 && path[0] == start && path[d as int] == n && #[trigger] is_path(dir, path)
}

/// Every identifier that occurs in a list of entries, as a key or as a target.
pub open spec fn universe(es: Entries) -> Set<Seq<char>>
    decreases es.len(),
{
    if es.len() == 0 {
        Set::empty()
    } else {
        universe(es.drop_last()).insert(es.last().0).union(es.last().1.to_set())
    }
}

pub proof fn lemma_universe(es: Entries)
    ensures
        universe(es).finite(),
        forall|i: int, j: int| 0 <= i < es.len() && 0 <= j < es[i].1.len() ==> universe(es).contains(#[trigger] es[i].1[j]),
    decreases es.len(),
{
    if es.len() > 0 {
        let d = es.drop_last();
        lemma_universe(d);
        assert forall|i: int, j: int| 0 <= i < es.len() && 0 <= j < es[i].1.len() implies universe(es).contains(#[trigger] es[i].1[j]) by {
            if i < es.len() - 1 {
                assert(d[i] == es[i]);
                assert(universe(d).contains(d[i].1[j]));
            } else {
                assert(es.last().1.to_set().contains(es[i].1[j])) by {
                    assert(es.last().1.contains(es[i].1[j]));
                }
            }
        }
    }
}

/// What a well formed map holds for `u` lies in the universe of its entries.
pub proof fn lemma_lookup_in_universe(es: Entries, u: Seq<char>, v: Seq<char>)
    requires
        keys_sorted(es),
        lookup(entries_map(es), u).contains(v),
    ensures
        universe(es).contains(v),
{
    lemma_universe(es);
    let m = entries_map(es);
    assert(m.contains_key(u));
    let i = choose|i: int| 0 <= i < es.len() && #[trigger] es[i].0 == u;
    lemma_sorted_unique_key(es, i);
    let j = choose|j: int| 0 <= j < es[i].1.len() && es[i].1[j] == v;
    assert(universe(es).contains(es[i].1[j]));
}

/// Frontier items: a node and the depth it was reached at.
pub type Item = (Seq<char>, u8);

/// Items are ordered by node, then by depth.
pub open spec fn item_lt(a: Item, b: Item) -> bool {
    id_lt(a.0, b.0) || (a.0 == b.0 && a.1 < b.1)
}

pub open spec fn items_sorted(s: Seq<Item>) -> bool {
    forall|i: int, j: int| 0 <= i < j < s.len() ==> item_lt(#[trigger] s[i], #[trigger] s[j])
}

pub open spec fn items_view(v: Seq<(Node, u8)>) -> Seq<Item> {
    v.map_values(|p: (Node, u8)| (p.0@, p.1))
}

/// `base` to the power `levels`.
pub open spec fn level_weight(base: nat, levels: nat) -> nat
    decreases levels,
{
    if levels == 0 {
        1
    } else {
        base * level_weight(base, (levels - 1) as nat)
    }
}

pub proof fn lemma_level_weight_positive(base: nat, levels: nat)
    requires
        base >= 1,
    ensures
        level_weight(base, levels) >= 1,
    decreases levels,
{
    if levels > 0 {
        lemma_level_weight_positive(base, (levels - 1) as nat);
        let w = level_weight(base, (levels - 1) as nat);
        assert(base * w >= 1) by (nonlinear_arith)
            requires
                base >= 1,
                w >= 1,
        ;
    }
}

/// The weight of a frontier: items closer to the root weigh more.
pub open spec fn frontier_weight(s: Seq<Item>, base: nat, top: nat) -> nat
    decreases s.len(),
{
    if s.len() == 0 {
        0
    } else {
        level_weight(base, (top - s[0].1) as nat) + frontier_weight(s.drop_first(), base, top)
    }
}

pub proof fn lemma_frontier_weight_insert(s: Seq<Item>, i: int, x: Item, base: nat, top: nat)
    requires
        0 <= i <= s.len(),
    ensures
        frontier_weight(s.insert(i, x), base, top) == frontier_weight(s, base, top) + level_weight(base, (top - x.1) as nat),
    decreases s.len(),
{
    if i == 0 {
        assert(s.insert(0, x).drop_first() =~= s);
    } else {
        lemma_frontier_weight_insert(s.drop_first(), i - 1, x, base, top);
        assert(s.insert(i, x).drop_first() =~= s.drop_first().insert(i - 1, x));
    }
}

/// Inserts an item into a sorted frontier, unless it is there already.
pub fn frontier_insert(frontier: &mut Vec<(Node, u8)>, n: Node, k: u8) -> (inserted: bool)
    requires
        items_sorted(items_view(old(frontier)@)),
    ensures
        items_sorted(items_view(final(frontier)@)),
        inserted == !items_view(old(frontier)@).contains((n@, k)),
        items_view(final(frontier)@).to_set() =~= items_view(old(frontier)@).to_set().insert((n@, k)),
        inserted ==> exists|i: int| 0 <= i <= old(frontier)@.len() && items_view(final(frontier)@) == items_view(old(frontier)@).insert(i, (n@, k)),
        !inserted ==> final(frontier)@ == old(frontier)@,
{
    let ghost s = items_view(frontier@);
    let ghost x: Item = (n@, k);
    let mut j: usize = 0;
    while j < frontier.len()
        invariant
            s == items_view(frontier@),
            frontier@ == old(frontier)@,
            items_sorted(s),
            x == (n@, k),
            j <= frontier@.len(),
            forall|q: int| 0 <= q < j ==> item_lt(#[trigger] s[q], x),
        decreases frontier@.len() - j,
    {
        let o = compare_ids(frontier[j].0.id.as_str(), n.id.as_str());
        let less = match o {
            Order::Less => true,
            Order::Equal => frontier[j].1 < k,
            Order::Greater => false,
        };
        if less {
            j = j + 1;
        } else {
            let same = match o {
                Order::Equal => frontier[j].1 == k,
                _ => false,
            };
            if same {
                assert(s[j as int] == x);
                proof {
                    assert(s.to_set().insert(x) =~= s.to_set()) by {
                        assert(s.contains(x));
                    }
                }
                return false;
            }
            proof {
                assert(item_lt(x, s[j as int]));
                assert forall|q: int| j <= q < s.len() implies item_lt(x, #[trigger] s[q]) by {
                    if q > j {
                        let a = s[j as int];
                        let b = s[q];
                        assert(item_lt(a, b));
                        if id_lt(x.0, a.0) && id_lt(a.0, b.0) {
                            lemma_id_lt_transitive(x.0, a.0, b.0);
                        }
                    }
                }
            }
            let ghost pos = j as int;
            frontier.insert(j, (n, k));
            proof {
                lemma_items_insert(s, pos, x);
                assert(items_view(frontier@) =~= s.insert(pos, x));
            }
            return true;
        }
    }
    proof {
        lemma_items_insert(s, j as int, x);
    }
    let ghost pos = j as int;
    frontier.push((n, k));
    assert(items_view(frontier@) =~= s.insert(pos, x));
    true
}

pub proof fn lemma_items_insert(s: Seq<Item>, i: int, x: Item)
    requires
        items_sorted(s),
        0 <= i <= s.len(),
        forall|j: int| 0 <= j < i ==> item_lt(#[trigger] s[j], x),
        forall|j: int| i <= j < s.len() ==> item_lt(x, #[trigger] s[j]),
    ensures
        items_sorted(s.insert(i, x)),
        !s.contains(x),
        s.insert(i, x).to_set() =~= s.to_set().insert(x),
{
    let ns = s.insert(i, x);
    assert forall|a: int, b: int| 0 <= a < b < ns.len() implies item_lt(#[trigger] ns[a], #[trigger] ns[b]) by {
        if a < i && b > i {
            lemma_item_lt_transitive(s[a], x, s[b - 1]);
        }
    }
    if s.contains(x) {
        let j = choose|j: int| 0 <= j < s.len() && s[j] == x;
        lemma_id_lt_irreflexive(x.0);
    }
    assert forall|y: Item| ns.to_set().contains(y) == s.to_set().insert(x).contains(y) by {
        if ns.contains(y) {
            let j = choose|j: int| 0 <= j < ns.len() && ns[j] == y;
            if j < i {
                assert(s[j] == y);
            } else if j > i {
                assert(s[j - 1] == y);
            }
        }
        if s.contains(y) {
            let j = choose|j: int| 0 <= j < s.len() && s[j] == y;
            if j < i {
                assert(ns[j] == y);
            } else {
                assert(ns[j + 1] == y);
            }
        }
        if y == x {
            assert(ns[i] == x);
        }
    }
}

pub proof fn lemma_item_lt_transitive(a: Item, b: Item, c: Item)
    requires
        item_lt(a, b),
        item_lt(b, c),
    ensures
        item_lt(a, c),
{
    if id_lt(a.0, b.0) && id_lt(b.0, c.0) {
        lemma_id_lt_transitive(a.0, b.0, c.0);
    }
}


/// The state of a search: the frontier, the visited nodes, the vicinity in visiting order
/// and the recorded edges.
pub type SearchState = (Set<Item>, Set<Seq<char>>, Seq<(Seq<char>, i8)>, Seq<(Seq<char>, Seq<char>)>);

/// The least item of a frontier, by node then depth.
pub open spec fn least_item(f: Set<Item>) -> Item {
    choose|x: Item| f.contains(x) && forall|y: Item| #[trigger] f.contains(y) ==> y == x || item_lt(x, y)
}

/// One step of the search from `start` within `limit` steps: the least item of the
/// frontier leaves it; if it is deeper than the limit, or its node was visited, nothing else
/// happens. Otherwise the nodes it leads to join the frontier one level deeper, its node
/// (unless it is `start`) is visited and joins the vicinity at that depth, and, below the
/// limit, the edges leaving it are recorded.
pub open spec fn search_step(dir: Map<Seq<char>, Seq<Seq<char>>>, start: Seq<char>, limit: nat, st: SearchState) -> SearchState {
    let x = least_item(st.0);
    let f = st.0.remove(x);
    if x.1 > limit || st.1.contains(x.0) {
        (f, st.1, st.2, st.3)
    } else {
        let succ = lookup(dir, x.0);
        (
            f.union(Set::new(|y: Item| y.1 == x.1 + 1 && succ.contains(y.0))),
            if x.0 == start { st.1 } else { st.1.insert(x.0) },
            if x.0 == start { st.2 } else { st.2.push((x.0, x.1 as i8)) },
            if x.1 < limit { st.3 + edges_from(x.0, succ) } else { st.3 },
        )
    }
}

/// The search after `k` steps, from the frontier holding `start` at depth 0; once the
/// frontier is empty the search stays as it is.
pub open spec fn search_run(dir: Map<Seq<char>, Seq<Seq<char>>>, start: Seq<char>, limit: nat, k: nat) -> SearchState
    decreases k,
{
    if k == 0 {
        (set![(start, 0u8)], Set::empty(), Seq::empty(), Seq::empty())
    } else {
        let p = search_run(dir, start, limit, (k - 1) as nat);
        if p.0 == Set::<Item>::empty() {
            p
        } else {
            search_step(dir, start, limit, p)
        }
    }
}

/// The search from `start` within `limit` steps ends with these visited nodes, vicinity and
/// edges.
pub open spec fn search_result(
    dir: Map<Seq<char>, Seq<Seq<char>>>,
    start: Seq<char>,
    limit: nat,
    vis: Set<Seq<char>>,
    vic: Seq<(Seq<char>, i8)>,
    edges: Seq<(Seq<char>, Seq<char>)>,
) -> bool {
    exists|k: nat| #[trigger] search_run(dir, start, limit, k) == (Set::<Item>::empty(), vis, vic, edges)
}

/// Once the frontier is empty, more steps change nothing.
proof fn lemma_search_stays(dir: Map<Seq<char>, Seq<Seq<char>>>, start: Seq<char>, limit: nat, k: nat, j: nat)
    requires
        search_run(dir, start, limit, k).0 == Set::<Item>::empty(),
    ensures
        search_run(dir, start, limit, k + j) == search_run(dir, start, limit, k),
    decreases j,
{
    if j > 0 {
        lemma_search_stays(dir, start, limit, k, (j - 1) as nat);
        assert(search_run(dir, start, limit, k + j) == search_run(dir, start, limit, (k + j - 1) as nat));
    }
}

/// The search ends with one result: two runs whose frontiers are empty are the same.
pub proof fn lemma_search_result_unique(
    dir: Map<Seq<char>, Seq<Seq<char>>>,
    start: Seq<char>,
    limit: nat,
    vis1: Set<Seq<char>>,
    vic1: Seq<(Seq<char>, i8)>,
    edges1: Seq<(Seq<char>, Seq<char>)>,
    vis2: Set<Seq<char>>,
    vic2: Seq<(Seq<char>, i8)>,
    edges2: Seq<(Seq<char>, Seq<char>)>,
)
    requires
        search_result(dir, start, limit, vis1, vic1, edges1),
        search_result(dir, start, limit, vis2, vic2, edges2),
    ensures
        vis1 == vis2,
        vic1 == vic2,
        edges1 == edges2,
{
    let k1 = choose|k: nat| #[trigger] search_run(dir, start, limit, k) == (Set::<Item>::empty(), vis1, vic1, edges1);
    let k2 = choose|k: nat| #[trigger] search_run(dir, start, limit, k) == (Set::<Item>::empty(), vis2, vic2, edges2);
    if k1 <= k2 {
        lemma_search_stays(dir, start, limit, k1, (k2 - k1) as nat);
    } else {
        lemma_search_stays(dir, start, limit, k2, (k1 - k2) as nat);
    }
}

/// No item comes before itself.
proof fn lemma_item_lt_irreflexive(x: Item)
    ensures
        !item_lt(x, x),
{
    lemma_id_lt_irreflexive(x.0);
}

/// The least item of a sorted frontier is its first, and taking it out leaves the rest.
proof fn lemma_least_sorted(s: Seq<Item>)
    requires
        items_sorted(s),
        s.len() > 0,
    ensures
        least_item(s.to_set()) == s[0],
        s.drop_first().to_set() == s.to_set().remove(s[0]),
{
    let f = s.to_set();
    assert forall|y: Item| #[trigger] f.contains(y) implies y == s[0] || item_lt(s[0], y) by {
        let j = choose|j: int| 0 <= j < s.len() && s[j] == y;
        if j > 0 {
            assert(item_lt(s[0], s[j]));
        }
    }
    assert(f.contains(s[0]));
    let x = least_item(f);
    if x != s[0] {
        assert(item_lt(x, s[0]));
        assert(item_lt(s[0], x));
        lemma_item_lt_transitive(x, s[0], x);
        lemma_item_lt_irreflexive(x);
    }
    assert forall|y: Item| #[trigger] s.drop_first().to_set().contains(y) <==> f.remove(s[0]).contains(y) by {
        if s.drop_first().contains(y) {
            let j = choose|j: int| 0 <= j < s.drop_first().len() && s.drop_first()[j] == y;
            assert(s[j + 1] == y);
            assert(item_lt(s[0], s[j + 1]));
            lemma_item_lt_irreflexive(y);
        }
        if f.contains(y) && y != s[0] {
            let j = choose|j: int| 0 <= j < s.len() && s[j] == y;
            assert(s.drop_first()[j - 1] == y);
        }
    }
    assert(s.drop_first().to_set() =~= f.remove(s[0]));
}

/// The edges from `u` to each of `vs`.
pub open spec fn edges_from(u: Seq<char>, vs: Seq<Seq<char>>) -> Seq<(Seq<char>, Seq<char>)> {
    vs.map_values(|v: Seq<char>| (u, v))
}

pub proof fn lemma_walk_start(dir: Map<Seq<char>, Seq<Seq<char>>>, start: Seq<char>)
    ensures
        walk(dir, start, start, 0),
{
    reveal(walk);
    let path = seq![start];
    assert(is_path(dir, path));
}

pub proof fn lemma_walk_step(dir: Map<Seq<char>, Seq<Seq<char>>>, start: Seq<char>, p: Seq<char>, d: nat, v: Seq<char>)
    requires
        walk(dir, start, p, d),
        lookup(dir, p).contains(v),
    ensures
        walk(dir, start, v, d + 1),
{
    reveal(walk);
    let path = choose|path: Seq<Seq<char>>|
        path.len() == d + 1 && path[0] == start && path[d as int] == p && #[trigger] is_path(dir, path);
    let np = path.push(v);
    assert forall|i: int| 0 <= i < np.len() - 1 implies lookup(dir, #[trigger] np[i]).contains(np[i + 1]) by {
        if i < d {
            assert(np[i] == path[i] && np[i + 1] == path[i + 1]);
        }
    }
    assert(is_path(dir, np));
}

/// A walk of no steps ends where it starts.
pub proof fn lemma_walk_zero(dir: Map<Seq<char>, Seq<Seq<char>>>, start: Seq<char>, n: Seq<char>)
    requires
        walk(dir, start, n, 0),
    ensures
        n == start,
{
    reveal(walk);
}

pub proof fn lemma_push_to_set<A>(s: Seq<A>, x: A)
    ensures
        s.push(x).to_set() =~= s.to_set().insert(x),
{
    let t = s.push(x);
    assert forall|y: A| #[trigger] t.contains(y) <==> s.contains(y) || y == x by {
        if t.contains(y) {
            let q = choose|q: int| 0 <= q < t.len() && #[trigger] t[q] == y;
            if q < s.len() {
                assert(s[q] == y);
            }
        }
        if s.contains(y) {
            let q = choose|q: int| 0 <= q < s.len() && #[trigger] s[q] == y;
            assert(t[q] == y);
        }
        if y == x {
            assert(t[s.len() as int] == x);
        }
    }
}

pub proof fn lemma_take_push_contains<A>(s: Seq<A>, j: int, x: A)
    requires
        0 <= j < s.len(),
    ensures
        s.take(j + 1).contains(x) <==> s.take(j).contains(x) || x == s[j],
{
    let a = s.take(j + 1);
    let b = s.take(j);
    if a.contains(x) {
        let q = choose|q: int| 0 <= q < a.len() && #[trigger] a[q] == x;
        if q < j {
            assert(b[q] == x);
        }
    }
    if b.contains(x) {
        let q = choose|q: int| 0 <= q < b.len() && #[trigger] b[q] == x;
        assert(a[q] == x);
    }
    if x == s[j] {
        assert(a[j] == x);
    }
}

pub proof fn lemma_pop_keeps(s: Seq<Item>)
    requires
        items_sorted(s),
        s.len() > 0,
    ensures
        items_sorted(s.drop_first()),
        forall|x: Item| #[trigger] s.drop_first().contains(x) <==> s.contains(x) && x != s[0],
{
    let d = s.drop_first();
    assert forall|x: Item| #[trigger] d.contains(x) <==> s.contains(x) && x != s[0] by {
        if d.contains(x) {
            let q = choose|q: int| 0 <= q < d.len() && d[q] == x;
            assert(s[q + 1] == x);
            assert(item_lt(s[0], s[q + 1]));
            lemma_id_lt_irreflexive(x.0);
        }
        if s.contains(x) && x != s[0] {
            let q = choose|q: int| 0 <= q < s.len() && s[q] == x;
            assert(d[q - 1] == x);
        }
    }
}

/// Whether a list of nodes in increasing order holds `n`.
pub fn set_contains(set: &Vec<Node>, n: &Node) -> (res: bool)
    ensures
        res == ids(set@).contains(n@),
{
    for i in 0..set.len()
        invariant
            forall|q: int| 0 <= q < i ==> ids(set@)[q] != n@,
    {
        if compare_ids(set[i].id.as_str(), n.id.as_str()) == Order::Equal {
            assert(ids(set@)[i as int] == n@);
            return true;
        }
    }
    false
}

pub open spec fn vic_view(v: Seq<(Node, i8)>) -> Seq<(Seq<char>, i8)> {
    v.map_values(|p: (Node, i8)| (p.0@, p.1))
}

pub open spec fn vic_ids(v: Seq<(Seq<char>, i8)>) -> Seq<Seq<char>> {
    v.map_values(|p: (Seq<char>, i8)| p.0)
}

/// When `u` was expanded at depth `k` below the limit, every node it leads to was reached
/// (it is the start or a visited node), and the edge to it was recorded.
pub open spec fn closed_at(
    dir: Map<Seq<char>, Seq<Seq<char>>>,
    start: Seq<char>,
    limit: nat,
    vis: Set<Seq<char>>,
    edges: Seq<(Seq<char>, Seq<char>)>,
    u: Seq<char>,
    k: nat,
) -> bool {
    k < limit ==> forall|v: Seq<char>| #[trigger] lookup(dir, u).contains(v) ==> (v == start || vis.contains(v)) && edges.contains((u, v))
}

/// A node of the vicinity: not the start, found at a depth between 1 and the limit at the
/// end of a walk of that length, and expanded there.
pub open spec fn vicinity_entry_ok(
    dir: Map<Seq<char>, Seq<Seq<char>>>,
    start: Seq<char>,
    limit: nat,
    vis: Set<Seq<char>>,
    edges: Seq<(Seq<char>, Seq<char>)>,
    entry: (Seq<char>, i8),
) -> bool {
    &&& entry.0 != start
    &&& exists|dd: nat|
        1 <= dd <= limit && entry.1 == dd as i8 && #[trigger] walk(dir, start, entry.0, dd)
            && closed_at(dir, start, limit, vis, edges, entry.0, dd)
}

/// What the search from `start` within `limit` steps yields: the visited nodes `vis`, the
/// vicinity (each visited node once, with its depth) and the edges followed.
pub open spec fn search_ok(
    dir: Map<Seq<char>, Seq<Seq<char>>>,
    start: Seq<char>,
    limit: nat,
    vic: Seq<(Seq<char>, i8)>,
    vis: Seq<Seq<char>>,
    edges: Seq<(Seq<char>, Seq<char>)>,
) -> bool {
    &&& ids_sorted(vis)
    &&& vis.to_set() == vic_ids(vic).to_set()
    &&& forall|i: int, j: int| 0 <= i < j < vic.len() ==> #[trigger] vic[i].0 != #[trigger] vic[j].0
    &&& forall|i: int| 0 <= i < vic.len() ==> vicinity_entry_ok(dir, start, limit, vis.to_set(), edges, #[trigger] vic[i])
    &&& closed_at(dir, start, limit, vis.to_set(), edges, start, 0)
    &&& forall|i: int| 0 <= i < edges.len() ==> (#[trigger] edges[i].0 == start || vis.to_set().contains(edges[i].0))
        && lookup(dir, edges[i].0).contains(edges[i].1)
}

impl EdgeMap {
    /// What the map holds for `node`, as a list of nodes (empty where it holds nothing).
    pub fn targets_of<'a>(&'a self, node: &Node, empty: &'a Vec<Node>) -> (res: &'a Vec<Node>)
        requires
            self.wf(),
            empty@.len() == 0,
        ensures
            ids(res@) == lookup(self.as_map(), node@),
    {
        match self.locate(node) {
            Ok(i) => {
                proof {
                    lemma_sorted_unique_key(self.entries(), i as int);
                }
                &self.direction[i].1
            },
            Err(_) => {
                proof {
                    let es = self.entries();
                    if has_key(es, node@) {
                        let q = choose|q: int| 0 <= q < es.len() && #[trigger] es[q].0 == node@;
                        lemma_id_lt_irreflexive(node@);
                    }
                    assert(ids(empty@) =~= Seq::<Seq<char>>::empty());
                }
                empty
            },
        }
    }
}


impl EdgeMap {
    /// The search from `start`: the frontier holds (node, depth) pairs and always yields the
    /// least pair, by node then depth. A pair deeper than `depth_limit`, or whose node was
    /// already visited, is dropped; otherwise the nodes it leads to join the frontier one
    /// level deeper, the node (unless it is `start`) is visited at that depth, and, below the
    /// limit, the edges leaving it are recorded. Returns the visited nodes in increasing
    /// order, the vicinity in visiting order and the recorded edges.
    #[verifier::rlimit(100)]
    #[verifier::spinoff_prover]
    #[verifier::loop_isolation(false)]
    pub fn search_core(&self, start: &Node, depth_limit: u8) -> (res: (Vec<Node>, Vec<(Node, i8)>, Vec<Edge>))
        requires
            self.wf(),
            depth_limit < 255,
        ensures
            search_ok(self.as_map(), start@, depth_limit as nat, vic_view(res.1@), ids(res.0@), edge_pairs(res.2@)),
            search_result(self.as_map(), start@, depth_limit as nat, ids(res.0@).to_set(), vic_view(res.1@), edge_pairs(res.2@)),
    {
        let ghost dir = self.as_map();
        let ghost es = self.entries();
        let ghost limit = depth_limit as nat;
        proof {
            lemma_universe(es);
        }
        let ghost uni = universe(es).insert(start@);
        let ghost n_all = uni.len();
        let ghost base = n_all + 1;
        let ghost top = limit + 1;
        let mut nodes: Vec<Node> = Vec::new();
        let mut vicinity: Vec<(Node, i8)> = Vec::new();
        let mut edges: Vec<Edge> = Vec::new();
        let mut frontier: Vec<(Node, u8)> = Vec::new();
        frontier.push((start.clone(), 0));
        let ghost mut vdep: Seq<nat> = Seq::empty();
        let ghost mut expanded: Set<(Seq<char>, nat)> = Set::empty();
        let ghost mut k: nat = 0;
        proof {
            assert(items_view(frontier@)[0] == (start@, 0u8));
            assert(items_view(frontier@).to_set() =~= set![(start@, 0u8)]);
            assert(vic_view(vicinity@) =~= Seq::<(Seq<char>, i8)>::empty());
            assert(edge_pairs(edges@) =~= Seq::<(Seq<char>, Seq<char>)>::empty());
            lemma_walk_start(dir, start@);
            assert(ids(nodes@).to_set() =~= Set::<Seq<char>>::empty());
            assert(vic_ids(vic_view(vicinity@)).to_set() =~= Set::<Seq<char>>::empty());
        }
        while frontier.len() > 0
            invariant
                self.wf(),
                dir == self.as_map(),
                es == self.entries(),
                keys_sorted(es),
                limit == depth_limit as nat,
                depth_limit < 255,
                uni == universe(es).insert(start@),
                uni.finite(),
                n_all == uni.len(),
                base == n_all + 1,
                top == limit + 1,
                // the search so far
                search_run(dir, start@, limit, k) == (items_view(frontier@).to_set(), ids(nodes@).to_set(), vic_view(vicinity@), edge_pairs(edges@)),
                // the frontier
                items_sorted(items_view(frontier@)),
                forall|i: int| 0 <= i < frontier@.len() ==> uni.contains(#[trigger] items_view(frontier@)[i].0)
                    && items_view(frontier@)[i].1 <= limit + 1
                    && walk(dir, start@, items_view(frontier@)[i].0, items_view(frontier@)[i].1 as nat),
                // visited nodes and the vicinity
                ids_sorted(ids(nodes@)),
                ids(nodes@).to_set() == vic_ids(vic_view(vicinity@)).to_set(),
                ids(nodes@).to_set().subset_of(uni),
                !ids(nodes@).to_set().contains(start@),
                vdep.len() == vicinity@.len(),
                forall|i: int, j: int| 0 <= i < j < vicinity@.len() ==> #[trigger] vic_view(vicinity@)[i].0 != #[trigger] vic_view(vicinity@)[j].0,
                forall|i: int| 0 <= i < vicinity@.len() ==> {
                    let e = #[trigger] vic_view(vicinity@)[i];
                    &&& e.0 != start@
                    &&& 1 <= vdep[i] <= limit
                    &&& e.1 == vdep[i] as i8
                    &&& walk(dir, start@, e.0, vdep[i])
                    &&& expanded.contains((e.0, vdep[i]))
                },
                // expanded nodes
                forall|u: Seq<char>, k: nat| #[trigger] expanded.contains((u, k)) ==> (u == start@ || ids(nodes@).to_set().contains(u)) && k <= limit,
                forall|u: Seq<char>, k: nat, v: Seq<char>|
                    #![trigger expanded.contains((u, k)), lookup(dir, u).contains(v)]
                    expanded.contains((u, k)) && k < limit && lookup(dir, u).contains(v) ==> (v == start@ || ids(nodes@).to_set().contains(v)
                        || items_view(frontier@).contains((v, (k + 1) as u8))) && edge_pairs(edges@).contains((u, v)),
                items_view(frontier@).contains((start@, 0u8)) || expanded.contains((start@, 0)),
                // recorded edges
                forall|i: int| 0 <= i < edges@.len() ==> (#[trigger] edge_pairs(edges@)[i].0 == start@ || ids(nodes@).to_set().contains(edge_pairs(edges@)[i].0))
                    && lookup(dir, edge_pairs(edges@)[i].0).contains(edge_pairs(edges@)[i].1),
            decreases
                n_all - ids(nodes@).to_set().len(),
                frontier_weight(items_view(frontier@), base, top),
        {
            proof {
                vstd::set_lib::lemma_len_subset(ids(nodes@).to_set(), uni);
            }
            let ghost f_before = items_view(frontier@);
            let (node, depth) = frontier.remove(0);
            let ghost f_pop = items_view(frontier@);
            let ghost st = search_run(dir, start@, limit, k);
            proof {
                assert(f_pop =~= f_before.drop_first());
                assert(f_before[0] == (node@, depth));
                assert(st.0.contains((node@, depth)));
                lemma_least_sorted(f_before);
                assert(search_run(dir, start@, limit, k + 1) == search_step(dir, start@, limit, st));
            }
            proof {
                assert(frontier_weight(f_before, base, top) == level_weight(base, (top - depth) as nat) + frontier_weight(f_pop, base, top));
            }
            if depth > depth_limit {
                proof {
                    lemma_level_weight_positive(base, (top - depth) as nat);
                    lemma_pop_keeps(f_before);
                    k = k + 1;
                }
                continue;
            }
            if set_contains(&nodes, &node) {
                proof {
                    lemma_level_weight_positive(base, (top - depth) as nat);
                    lemma_pop_keeps(f_before);
                    k = k + 1;
                }
                continue;
            }
            // expand `node` at `depth`
            let empty: Vec<Node> = Vec::new();
            let nexts = self.targets_of(&node, &empty);
            let ghost succ = ids(nexts@);
            let next_depth: u8 = depth + 1;
            let ghost w_next = level_weight(base, (top - next_depth) as nat);
            let ghost mut ins: Set<Seq<char>> = Set::empty();
            proof {
                lemma_pop_keeps(f_before);
                assert(walk(dir, start@, node@, depth as nat));
                assert(uni.contains(node@));
            }
            for j in 0..nexts.len()
                invariant
                    succ == ids(nexts@),
                    succ == lookup(dir, node@),
                    next_depth == depth + 1,
                    depth <= depth_limit,
                    depth_limit < 255,
                    walk(dir, start@, node@, depth as nat),
                    keys_sorted(es),
                    dir == entries_map(es),
                    uni == universe(es).insert(start@),
                    uni.finite(),
                    items_sorted(items_view(frontier@)),
                    forall|x: Item| #[trigger] items_view(frontier@).contains(x) <==> f_pop.contains(x) || (x.1 == next_depth && succ.take(j as int).contains(x.0)),
                    forall|i: int| 0 <= i < frontier@.len() ==> uni.contains(#[trigger] items_view(frontier@)[i].0)
                        && items_view(frontier@)[i].1 <= limit + 1
                        && walk(dir, start@, items_view(frontier@)[i].0, items_view(frontier@)[i].1 as nat),
                    ins.finite(),
                    ins.subset_of(uni),
                    forall|v: Seq<char>| #[trigger] ins.contains(v) ==> items_view(frontier@).contains((v, next_depth)),
                    frontier_weight(items_view(frontier@), base, top) == frontier_weight(f_pop, base, top) + ins.len() * w_next,
            {
                let ghost f_cur = items_view(frontier@);
                let ghost v = succ[j as int];
                let inserted = frontier_insert(&mut frontier, nexts[j].clone(), next_depth);
                proof {
                    let f_new = items_view(frontier@);
                    assert(lookup(dir, node@).contains(v)) by {
                        assert(succ[j as int] == v);
                    }
                    lemma_lookup_in_universe(es, node@, v);
                    lemma_walk_step(dir, start@, node@, depth as nat, v);
                    assert(succ.take(j + 1) =~= succ.take(j as int).push(v));
                    assert forall|x: Item| #[trigger] f_new.contains(x) <==> f_pop.contains(x) || (x.1 == next_depth && succ.take(j + 1).contains(x.0)) by {
                        assert(f_new.to_set().contains(x) == f_cur.to_set().insert((v, next_depth)).contains(x));
                        lemma_take_push_contains(succ, j as int, x.0);
                    }
                    assert forall|i: int| 0 <= i < f_new.len() implies uni.contains(#[trigger] f_new[i].0)
                        && f_new[i].1 <= limit + 1 && walk(dir, start@, f_new[i].0, f_new[i].1 as nat) by {
                        assert(f_new.contains(f_new[i]));
                        assert(f_new.to_set().contains(f_new[i]));
                        if f_new[i] != (v, next_depth) {
                            assert(f_cur.to_set().contains(f_new[i]));
                            let q = choose|q: int| 0 <= q < f_cur.len() && f_cur[q] == f_new[i];
                            assert(f_cur[q] == f_new[i]);
                        }
                    }
                    if inserted {
                        let i = choose|i: int| 0 <= i <= f_cur.len() && f_new == f_cur.insert(i, (v, next_depth));
                        lemma_frontier_weight_insert(f_cur, i, (v, next_depth), base, top);
                        assert(!ins.contains(v));
                        let old_len = ins.len();
                        ins = ins.insert(v);
                        assert(ins.len() == old_len + 1);
                        assert((old_len + 1) * w_next == old_len * w_next + w_next) by (nonlinear_arith);
                    }
                    assert forall|u: Seq<char>| #[trigger] ins.contains(u) implies f_new.contains((u, next_depth)) by {
                        assert(f_new.to_set().contains((u, next_depth)) == f_cur.to_set().insert((v, next_depth)).contains((u, next_depth)));
                        if u != v {
                            assert(f_cur.contains((u, next_depth)));
                        }
                    }
                }
            }
            proof {
                let f_end = items_view(frontier@);
                assert(succ.take(nexts@.len() as int) =~= succ);
                vstd::set_lib::lemma_len_subset(ins, uni);
                lemma_level_weight_positive(base, (top - next_depth) as nat);
                assert(level_weight(base, (top - depth) as nat) == base * w_next);
                let il = ins.len();
                assert(il * w_next < base * w_next) by (nonlinear_arith)
                    requires
                        il <= n_all,
                        base == n_all + 1,
                        w_next >= 1,
                ;
            }
            let is_start = compare_ids(node.id.as_str(), start.id.as_str()) == Order::Equal;
            let ghost vis_before = ids(nodes@).to_set();
            let ghost e_before = edge_pairs(edges@);
            let ghost vic_before = vic_view(vicinity@);
            if !is_start {
                set_insert(&mut nodes, node.clone());
                vicinity.push((node.clone(), depth as i8));
                proof {
                    vdep = vdep.push(depth as nat);
                    assert(vic_view(vicinity@) =~= vic_before.push((node@, depth as i8)));
                    assert(vic_ids(vic_view(vicinity@)) =~= vic_ids(vic_before).push(node@));
                    lemma_push_to_set(vic_ids(vic_before), node@);
                    assert(!vis_before.contains(node@));
                    assert(ids(nodes@).to_set().len() == vis_before.len() + 1);
                    if depth == 0 {
                        lemma_walk_zero(dir, start@, node@);
                    }
                }
            }
            if depth < depth_limit {
                for j in 0..nexts.len()
                    invariant
                        succ == ids(nexts@),
                        edge_pairs(edges@) =~= e_before + edges_from(node@, succ.take(j as int)),
                {
                    let ghost before = edge_pairs(edges@);
                    edges.push(Edge::new(node.clone(), nexts[j].clone()));
                    proof {
                        assert(edge_pairs(edges@) =~= before.push((node@, succ[j as int])));
                        assert(succ.take(j + 1) =~= succ.take(j as int).push(succ[j as int]));
                        assert(edges_from(node@, succ.take(j + 1)) =~= edges_from(node@, succ.take(j as int)).push((node@, succ[j as int])));
                    }
                }
                proof {
                    assert(succ.take(nexts@.len() as int) =~= succ);
                }
            }
            proof {
                assert(frontier_weight(f_before, base, top) == level_weight(base, (top - depth) as nat) + frontier_weight(f_pop, base, top));
                assert(frontier_weight(items_view(frontier@), base, top) < frontier_weight(f_before, base, top));
                expanded = expanded.insert((node@, depth as nat));
                vstd::set_lib::lemma_len_subset(ids(nodes@).to_set(), uni);
                let f_end = items_view(frontier@);
                let vis = ids(nodes@).to_set();
                let e_end = edge_pairs(edges@);
                assert(vis == if is_start { vis_before } else { vis_before.insert(node@) });
                assert(forall|x: (Seq<char>, Seq<char>)| e_before.contains(x) ==> e_end.contains(x)) by {
                    assert forall|x: (Seq<char>, Seq<char>)| e_before.contains(x) implies e_end.contains(x) by {
                        let q = choose|q: int| 0 <= q < e_before.len() && e_before[q] == x;
                        if depth < depth_limit {
                            assert(e_end[q] == x);
                        }
                    }
                }
                if depth < depth_limit {
                    assert forall|v: Seq<char>| #[trigger] succ.contains(v) implies e_end.contains((node@, v)) by {
                        let q = choose|q: int| 0 <= q < succ.len() && succ[q] == v;
                        assert(e_end[e_before.len() + q] == (node@, v));
                    }
                    assert forall|i: int| 0 <= i < e_end.len() implies (#[trigger] e_end[i].0 == start@ || vis.contains(e_end[i].0))
                        && lookup(dir, e_end[i].0).contains(e_end[i].1) by {
                        if i >= e_before.len() {
                            assert(e_end[i] == (node@, succ[i - e_before.len()]));
                        } else {
                            assert(e_end[i] == e_before[i]);
                        }
                    }
                }
                assert forall|u: Seq<char>, k: nat, v: Seq<char>|
                    #![trigger expanded.contains((u, k)), lookup(dir, u).contains(v)]
                    expanded.contains((u, k)) && k < limit && lookup(dir, u).contains(v) implies (v == start@ || vis.contains(v)
                        || f_end.contains((v, (k + 1) as u8))) && e_end.contains((u, v)) by {
                    if u == node@ && k == depth as nat {
                        assert(succ.contains(v));
                        assert(f_end.contains((v, next_depth)));
                    } else {
                        let x = (v, (k + 1) as u8);
                        if f_before.contains(x) && x != f_before[0] {
                            assert(f_pop.contains(x));
                            assert(f_end.contains(x));
                        }
                    }
                }
                let next_items = Set::new(|y: Item| y.1 == depth + 1 && succ.contains(y.0));
                assert(f_end.to_set() =~= f_pop.to_set().union(next_items)) by {
                    assert forall|y: Item| #[trigger] f_end.to_set().contains(y) <==> f_pop.to_set().union(next_items).contains(y) by {
                        assert(f_end.contains(y) <==> f_pop.contains(y) || (y.1 == next_depth && succ.contains(y.0)));
                    }
                }
                assert(vic_view(vicinity@) == if is_start { vic_before } else { vic_before.push((node@, depth as i8)) });
                assert(e_end == if depth < depth_limit { e_before + edges_from(node@, succ) } else { e_before });
                assert(search_run(dir, start@, limit, k + 1) == (f_end.to_set(), vis, vic_view(vicinity@), e_end));
                k = k + 1;
                assert(f_end.contains((start@, 0u8)) || expanded.contains((start@, 0))) by {
                    if f_before.contains((start@, 0u8)) && (start@, 0u8) != f_before[0] {
                        assert(f_pop.contains((start@, 0u8)));
                        assert(f_end.contains((start@, 0u8)));
                    }
                }
            }
        }
        proof {
            assert(items_view(frontier@).to_set() =~= Set::<Item>::empty());
            assert(search_run(dir, start@, limit, k) == (Set::<Item>::empty(), ids(nodes@).to_set(), vic_view(vicinity@), edge_pairs(edges@)));
        }
        (nodes, vicinity, edges)
    }
}

} // verus!
