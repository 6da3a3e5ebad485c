//! The breadth-first neighbourhood of a node, as listed by `EdgeMap::render`: every node
//! within the depth limit with its distance from the center.
use vstd::prelude::*;
use crate::graph::order::{id_lt, lemma_id_lt_irreflexive, lemma_id_lt_transitive, lemma_id_lt_total, compare_ids, Order};
use crate::graph::graph::{Node, EdgeMap, Entries, ids, lookup, keys_sorted, entries_map};
use crate::graph::search::{walk, is_path, universe, lemma_universe, lemma_lookup_in_universe, level_weight, lemma_level_weight_positive, lemma_walk_start, lemma_walk_step};

verus! {

/// A node with the depth it was reached at.
pub type Leveled = (u8, Seq<char>);

/// Leveled items are ordered by depth, then by node.
pub open spec fn leveled_lt(a: Leveled, b: Leveled) -> bool {
    a.0 < b.0 || (a.0 == b.0 && id_lt(a.1, b.1))
}

pub open spec fn leveled_sorted(s: Seq<Leveled>) -> bool {
    forall|i: int, j: int| 0 <= i < j < s.len() ==> leveled_lt(#[trigger] s[i], #[trigger] s[j])
}

pub open spec fn leveled_view(v: Seq<(u8, Node)>) -> Seq<Leveled> {
    v.map_values(|p: (u8, Node)| (p.0, p.1@))
}

pub proof fn lemma_leveled_lt_transitive(a: Leveled, b: Leveled, c: Leveled)
    requires
        leveled_lt(a, b),
        leveled_lt(b, c),
    ensures
        leveled_lt(a, c),
{
    if a.0 == b.0 && b.0 == c.0 {
        lemma_id_lt_transitive(a.1, b.1, c.1);
    }
}

/// `d` is the length of a shortest walk from `start` to `v`.
pub open spec fn dist(dir: Map<Seq<char>, Seq<Seq<char>>>, start: Seq<char>, v: Seq<char>, d: nat) -> bool {
    walk(dir, start, v, d) && forall|e: nat| e < d ==> !#[trigger] walk(dir, start, v, e)
}

/// The nodes other than `start` within `limit` steps of it, each with its distance.
pub open spec fn in_neighbourhood(dir: Map<Seq<char>, Seq<Seq<char>>>, start: Seq<char>, limit: nat, x: Leveled) -> bool {
    x.1 != start && x.0 <= limit && dist(dir, start, x.1, x.0 as nat)
}

/// Deepest first, and by node among equally deep ones.
pub open spec fn render_lt(a: Leveled, b: Leveled) -> bool {
    a.0 > b.0 || (a.0 == b.0 && id_lt(a.1, b.1))
}

/// Weight of a frontier ordered by depth: items closer to the root weigh more.
pub open spec fn leveled_weight(s: Seq<Leveled>, base: nat, top: nat) -> nat
    decreases s.len(),
{
    if s.len() == 0 {
        0
    } else {
        level_weight(base, (top - s[0].0) as nat) + leveled_weight(s.drop_first(), base, top)
    }
}

pub proof fn lemma_leveled_weight_insert(s: Seq<Leveled>, i: int, x: Leveled, base: nat, top: nat)
    requires
        0 <= i <= s.len(),
    ensures
        leveled_weight(s.insert(i, x), base, top) == leveled_weight(s, base, top) + level_weight(base, (top - x.0) as nat),
    decreases s.len(),
{
    if i == 0 {
        assert(s.insert(0, x).drop_first() =~= s);
    } else {
        lemma_leveled_weight_insert(s.drop_first(), i - 1, x, base, top);
        assert(s.insert(i, x).drop_first() =~= s.drop_first().insert(i - 1, x));
    }
}

pub proof fn lemma_leveled_insert(s: Seq<Leveled>, i: int, x: Leveled)
    requires
        leveled_sorted(s),
        0 <= i <= s.len(),
        forall|j: int| 0 <= j < i ==> leveled_lt(#[trigger] s[j], x),
        forall|j: int| i <= j < s.len() ==> leveled_lt(x, #[trigger] s[j]),
    ensures
        leveled_sorted(s.insert(i, x)),
        !s.contains(x),
        forall|y: Leveled| #[trigger] s.insert(i, x).contains(y) <==> s.contains(y) || y == x,
{
    let ns = s.insert(i, x);
    assert forall|a: int, b: int| 0 <= a < b < ns.len() implies leveled_lt(#[trigger] ns[a], #[trigger] ns[b]) by {
        if a < i && b > i {
            lemma_leveled_lt_transitive(s[a], x, s[b - 1]);
        }
    }
    if s.contains(x) {
        let j = choose|j: int| 0 <= j < s.len() && s[j] == x;
        lemma_id_lt_irreflexive(x.1);
    }
    assert forall|y: Leveled| #[trigger] ns.contains(y) <==> s.contains(y) || y == x by {
        if ns.contains(y) {
            let j = choose|j: int| 0 <= j < ns.len() && ns[j] == y;
            if j < i {
                assert(s[j] == y);
            } else if j > i {
                assert(s[j - 1] == y);
            }
        }
        if s.contains(y) {
            let j = choose|j: int| 0 <= j < s.len() && s[j] == y;
            if j < i {
                assert(ns[j] == y);
            } else {
                assert(ns[j + 1] == y);
            }
        }
        if y == x {
            assert(ns[i] == x);
        }
    }
}

/// Inserts `(k, n)` into a list kept in increasing (depth, node) order, unless it is there.
pub fn leveled_insert(list: &mut Vec<(u8, Node)>, k: u8, n: Node) -> (inserted: bool)
    requires
        leveled_sorted(leveled_view(old(list)@)),
    ensures
        leveled_sorted(leveled_view(final(list)@)),
        inserted == !leveled_view(old(list)@).contains((k, n@)),
        forall|y: Leveled| #[trigger] leveled_view(final(list)@).contains(y) <==> leveled_view(old(list)@).contains(y) || y == (k, n@),
        inserted ==> exists|i: int| 0 <= i <= old(list)@.len() && leveled_view(final(list)@) == leveled_view(old(list)@).insert(i, (k, n@)),
        !inserted ==> final(list)@ == old(list)@,
{
    let ghost s = leveled_view(list@);
    let ghost x: Leveled = (k, n@);
    let mut j: usize = 0;
    while j < list.len()
        invariant
            s == leveled_view(list@),
            list@ == old(list)@,
            leveled_sorted(s),
            x == (k, n@),
            j <= list@.len(),
            forall|q: int| 0 <= q < j ==> leveled_lt(#[trigger] s[q], x),
        decreases list@.len() - j,
    {
        let o = compare_ids(list[j].1.id.as_str(), n.id.as_str());
        let less = list[j].0 < k || (list[j].0 == k && o == Order::Less);
        if less {
            j = j + 1;
        } else {
            if list[j].0 == k && o == Order::Equal {
                assert(s[j as int] == x);
                return false;
            }
            proof {
                lemma_id_lt_total(s[j as int].1, x.1);
                assert(leveled_lt(x, s[j as int]));
                assert forall|q: int| j <= q < s.len() implies leveled_lt(x, #[trigger] s[q]) by {
                    if q > j {
                        lemma_leveled_lt_transitive(x, s[j as int], s[q]);
                    }
                }
                lemma_leveled_insert(s, j as int, x);
            }
            let ghost pos = j as int;
            list.insert(j, (k, n));
            assert(leveled_view(list@) =~= s.insert(pos, x));
            return true;
        }
    }
    proof {
        lemma_leveled_insert(s, j as int, x);
    }
    let ghost pos = j as int;
    list.push((k, n));
    assert(leveled_view(list@) =~= s.insert(pos, x));
    true
}

/// A node counts as settled at depth at most `k`: the start once expanded, or a visited
/// node found no deeper than `k`.
pub open spec fn settled_le(w: Seq<char>, k: int, vis: Seq<Leveled>, start: Seq<char>, start_done: bool) -> bool {
    (w == start && start_done) || exists|q: int| 0 <= q < vis.len() && #[trigger] vis[q].1 == w && vis[q].0 <= k
}

pub open spec fn settled(w: Seq<char>, vis: Seq<Leveled>, start: Seq<char>) -> bool {
    w == start || exists|q: int| 0 <= q < vis.len() && #[trigger] vis[q].1 == w
}

/// Every visited node was found at its distance from the start.
pub open spec fn vis_exact(dir: Map<Seq<char>, Seq<Seq<char>>>, start: Seq<char>, vis: Seq<Leveled>) -> bool {
    forall|q: int| 0 <= q < vis.len() ==> dist(dir, start, #[trigger] vis[q].1, vis[q].0 as nat)
}

/// Each expanded node's successors are settled or wait in the frontier one level deeper.
pub open spec fn vis_closed(dir: Map<Seq<char>, Seq<Seq<char>>>, start: Seq<char>, limit: nat, vis: Seq<Leveled>, f: Seq<Leveled>, start_done: bool) -> bool {
    &&& (start_done && 0 < limit) ==> forall|v: Seq<char>| #[trigger] lookup(dir, start).contains(v) ==> settled(v, vis, start) || f.contains((1u8, v))
    &&& forall|q: int, v: Seq<char>|
        #![trigger vis[q], lookup(dir, vis[q].1).contains(v)]
        0 <= q < vis.len() && vis[q].0 < limit && lookup(dir, vis[q].1).contains(v) ==> settled(v, vis, start) || f.contains(((vis[q].0 + 1) as u8, v))
}

pub proof fn lemma_path_walk(dir: Map<Seq<char>, Seq<Seq<char>>>, start: Seq<char>, p: Seq<Seq<char>>, i: int)
    requires
        is_path(dir, p),
        p.len() > 0,
        p[0] == start,
        0 <= i < p.len(),
    ensures
        walk(dir, start, p[i], i as nat),
{
    reveal(walk);
    let q = p.take(i + 1);
    assert forall|j: int| 0 <= j < q.len() - 1 implies lookup(dir, #[trigger] q[j]).contains(q[j + 1]) by {
        assert(q[j] == p[j] && q[j + 1] == p[j + 1]);
        assert(lookup(dir, p[j]).contains(p[j + 1]));
    }
    assert(is_path(dir, q));
}

/// Along a walk from a settled node, either the walk's end is settled no deeper than the
/// walk's length, or some later node of the walk waits in the frontier no deeper than its
/// place on the walk.
pub proof fn lemma_progress(
    dir: Map<Seq<char>, Seq<Seq<char>>>,
    start: Seq<char>,
    limit: nat,
    vis: Seq<Leveled>,
    f: Seq<Leveled>,
    start_done: bool,
    p: Seq<Seq<char>>,
    i: int,
)
    requires
        vis_closed(dir, start, limit, vis, f, start_done),
        vis_exact(dir, start, vis),
        is_path(dir, p),
        p.len() > 0,
        p[0] == start,
        p.len() <= limit + 1,
        0 <= i < p.len(),
        settled_le(p[i], i, vis, start, start_done),
        forall|q: int| 0 <= q < vis.len() ==> (#[trigger] vis[q]).1 != start,
        vis.len() > 0 ==> start_done,
    ensures
        settled_le(p.last(), p.len() - 1, vis, start, start_done)
            || exists|q: int, j: u8| i <= q < p.len() && j <= q && #[trigger] f.contains((j, p[q])),
    decreases p.len() - i,
{
    if i < p.len() - 1 {
        let w = p[i];
        let v = p[i + 1];
        assert(lookup(dir, p[i]).contains(p[i + 1]));
        if w == start && start_done {
            if f.contains((1u8, v)) {
                assert(f.contains((1u8, p[i + 1])));
            } else {
                assert(settled(v, vis, start));
                lemma_settled_le_next(dir, start, vis, start_done, p, i + 1);
                lemma_progress(dir, start, limit, vis, f, start_done, p, i + 1);
            }
        } else {
            let q = choose|q: int| 0 <= q < vis.len() && #[trigger] vis[q].1 == w && vis[q].0 <= i;
            assert(vis[q].0 < limit);
            assert(lookup(dir, vis[q].1).contains(v));
            if f.contains(((vis[q].0 + 1) as u8, v)) {
                assert(f.contains(((vis[q].0 + 1) as u8, p[i + 1])));
            } else {
                lemma_settled_le_next(dir, start, vis, start_done, p, i + 1);
                lemma_progress(dir, start, limit, vis, f, start_done, p, i + 1);
            }
        }
    }
}

/// A settled node on a walk is settled no deeper than its place on the walk.
pub proof fn lemma_settled_le_next(
    dir: Map<Seq<char>, Seq<Seq<char>>>,
    start: Seq<char>,
    vis: Seq<Leveled>,
    start_done: bool,
    p: Seq<Seq<char>>,
    i: int,
)
    requires
        vis_exact(dir, start, vis),
        is_path(dir, p),
        p.len() > 0,
        p[0] == start,
        0 <= i < p.len(),
        settled(p[i], vis, start),
        p[i] == start ==> start_done,
    ensures
        settled_le(p[i], i, vis, start, start_done),
{
    if p[i] != start {
        let q = choose|q: int| 0 <= q < vis.len() && #[trigger] vis[q].1 == p[i];
        lemma_path_walk(dir, start, p, i);
        assert(dist(dir, start, vis[q].1, vis[q].0 as nat));
        if vis[q].0 > i {
            assert(!walk(dir, start, p[i], i as nat));
        }
    }
}


pub proof fn lemma_pop_first(s: Seq<Leveled>)
    requires
        leveled_sorted(s),
        s.len() > 0,
    ensures
        leveled_sorted(s.drop_first()),
        forall|x: Leveled| #[trigger] s.drop_first().contains(x) <==> s.contains(x) && x != s[0],
        forall|i: int| 0 < i < s.len() ==> leveled_lt(s[0], #[trigger] s[i]),
{
    let d = s.drop_first();
    assert forall|x: Leveled| #[trigger] d.contains(x) <==> s.contains(x) && x != s[0] by {
        if d.contains(x) {
            let q = choose|q: int| 0 <= q < d.len() && d[q] == x;
            assert(s[q + 1] == x);
            assert(leveled_lt(s[0], s[q + 1]));
            lemma_id_lt_irreflexive(x.1);
        }
        if s.contains(x) && x != s[0] {
            let q = choose|q: int| 0 <= q < s.len() && s[q] == x;
            assert(d[q - 1] == x);
        }
    }
}

pub proof fn lemma_dist_unique(dir: Map<Seq<char>, Seq<Seq<char>>>, start: Seq<char>, v: Seq<char>, a: nat, b: nat)
    requires
        dist(dir, start, v, a),
        dist(dir, start, v, b),
    ensures
        a == b,
{
    if a < b {
        assert(!walk(dir, start, v, a));
    } else if b < a {
        assert(!walk(dir, start, v, b));
    }
}

/// Visited nodes found at their distance, listed in order, occur once each, so there are
/// no more of them than nodes in the universe.
pub proof fn lemma_unique_len(vv: Seq<Leveled>, uni: Set<Seq<char>>, dir: Map<Seq<char>, Seq<Seq<char>>>, start: Seq<char>)
    requires
        leveled_sorted(vv),
        vis_exact(dir, start, vv),
        uni.finite(),
        forall|q: int| 0 <= q < vv.len() ==> uni.contains(#[trigger] vv[q].1),
    ensures
        vv.len() <= uni.len(),
{
    let names = vv.map_values(|x: Leveled| x.1);
    assert forall|a: int, b: int| 0 <= a < vv.len() && 0 <= b < vv.len() && a != b implies names[a] != names[b] by {
        if names[a] == names[b] {
            assert(dist(dir, start, vv[a].1, vv[a].0 as nat));
            assert(dist(dir, start, vv[b].1, vv[b].0 as nat));
            lemma_dist_unique(dir, start, vv[a].1, vv[a].0 as nat, vv[b].0 as nat);
            if a < b {
                assert(leveled_lt(vv[a], vv[b]));
            } else {
                assert(leveled_lt(vv[b], vv[a]));
            }
            lemma_id_lt_irreflexive(vv[a].1);
        }
    }
    assert(names.no_duplicates());
    names.unique_seq_to_set();
    assert(names.to_set().subset_of(uni)) by {
        assert forall|x: Seq<char>| names.to_set().contains(x) implies uni.contains(x) by {
            let q = choose|q: int| 0 <= q < names.len() && names[q] == x;
            assert(uni.contains(vv[q].1));
        }
    }
    vstd::set_lib::lemma_len_subset(names.to_set(), uni);
}

/// The frontier and visited list after expanding the least frontier pair keep every
/// expanded node's successors settled or waiting.
pub proof fn lemma_closed_after(
    dir: Map<Seq<char>, Seq<Seq<char>>>,
    start: Seq<char>,
    limit: nat,
    v0: Seq<Leveled>,
    v1: Seq<Leveled>,
    f0: Seq<Leveled>,
    f1: Seq<Leveled>,
    sd0: bool,
    sd1: bool,
    depth: u8,
    node: Seq<char>,
    succ: Seq<Seq<char>>,
)
    requires
        vis_closed(dir, start, limit, v0, f0, sd0),
        f0.len() > 0,
        f0[0] == (depth, node),
        depth <= limit,
        limit < 255,
        succ == lookup(dir, node),
        forall|y: Leveled| #[trigger] v1.contains(y) <==> v0.contains(y) || (node != start && y == (depth, node)),
        forall|y: Leveled| f0.contains(y) && y != f0[0] ==> #[trigger] f1.contains(y),
        forall|v: Seq<char>| #[trigger] succ.contains(v) ==> f1.contains(((depth + 1) as u8, v)),
        sd1 == (sd0 || (node == start && depth == 0)),
        forall|r: int| 0 <= r < v0.len() ==> (#[trigger] v0[r]).1 != node,
    ensures
        vis_closed(dir, start, limit, v1, f1, sd1),
{
    assert forall|v: Seq<char>| settled(v, v0, start) implies #[trigger] settled(v, v1, start) by {
        if v != start {
            let r = choose|r: int| 0 <= r < v0.len() && #[trigger] v0[r].1 == v;
            assert(v0.contains(v0[r]));
            assert(v1.contains(v0[r]));
            let q = choose|q: int| 0 <= q < v1.len() && v1[q] == v0[r];
            assert(v1[q].1 == v);
        }
    }
    assert(node != start ==> settled(node, v1, start)) by {
        if node != start {
            assert(v1.contains((depth, node)));
            let q = choose|q: int| 0 <= q < v1.len() && v1[q] == (depth, node);
            assert(v1[q].1 == node);
        }
    }
    if sd1 && 0 < limit {
        assert forall|v: Seq<char>| #[trigger] lookup(dir, start).contains(v) implies settled(v, v1, start) || f1.contains((1u8, v)) by {
            if sd0 {
                if !settled(v, v0, start) {
                    assert(f0.contains((1u8, v)));
                    if (1u8, v) == f0[0] {
                        assert(v == node);
                    } else {
                        assert(f1.contains((1u8, v)));
                    }
                }
            } else {
                assert(node == start && depth == 0);
                assert(succ.contains(v));
            }
        }
    }
    assert forall|q: int, v: Seq<char>|
        #![trigger v1[q], lookup(dir, v1[q].1).contains(v)]
        0 <= q < v1.len() && v1[q].0 < limit && lookup(dir, v1[q].1).contains(v) implies settled(v, v1, start) || f1.contains(((v1[q].0 + 1) as u8, v)) by {
        assert(v1.contains(v1[q]));
        if v1[q] == (depth, node) && node != start {
            assert(succ.contains(v));
        } else {
            assert(v0.contains(v1[q]));
            let r = choose|r: int| 0 <= r < v0.len() && v0[r] == v1[q];
            assert(v0[r].0 < limit && lookup(dir, v0[r].1).contains(v));
            if !settled(v, v0, start) {
                let y = ((v0[r].0 + 1) as u8, v);
                assert(f0.contains(y));
                if y == f0[0] {
                    assert(v == node);
                } else {
                    assert(f1.contains(y));
                }
            }
        }
    }
}

/// Every walk from the start within the limit ends at a node settled no deeper than the
/// walk, or passes a node that waits in the frontier no deeper than its place on the walk.
pub proof fn lemma_pending(
    dir: Map<Seq<char>, Seq<Seq<char>>>,
    start: Seq<char>,
    limit: nat,
    vis: Seq<Leveled>,
    f: Seq<Leveled>,
    start_done: bool,
    p: Seq<Seq<char>>,
)
    requires
        vis_closed(dir, start, limit, vis, f, start_done),
        vis_exact(dir, start, vis),
        is_path(dir, p),
        p.len() > 0,
        p[0] == start,
        p.len() <= limit + 1,
        forall|q: int| 0 <= q < vis.len() ==> (#[trigger] vis[q]).1 != start,
        vis.len() > 0 ==> start_done,
        f.contains((0u8, start)) || start_done,
    ensures
        settled_le(p.last(), p.len() - 1, vis, start, start_done)
            || exists|q: int, j: u8| 0 <= q < p.len() && j <= q && #[trigger] f.contains((j, p[q])),
{
    if start_done {
        lemma_progress(dir, start, limit, vis, f, start_done, p, 0);
    } else {
        assert(f.contains((0u8, p[0])));
    }
}

/// A node popped from the frontier before it was visited has no shorter walk from the start:
/// a shorter walk would have settled it already or left a smaller pair in the frontier.
pub proof fn lemma_first_reach(
    dir: Map<Seq<char>, Seq<Seq<char>>>,
    start: Seq<char>,
    limit: nat,
    v: Seq<Leveled>,
    f: Seq<Leveled>,
    start_done: bool,
    depth: u8,
    node: Seq<char>,
)
    requires
        vis_closed(dir, start, limit, v, f, start_done),
        vis_exact(dir, start, v),
        forall|q: int| 0 <= q < v.len() ==> (#[trigger] v[q]).1 != start,
        v.len() > 0 ==> start_done,
        f.contains((0u8, start)) || start_done,
        leveled_sorted(f),
        f.len() > 0,
        f[0] == (depth, node),
        depth <= limit,
        node != start,
        forall|r: int| 0 <= r < v.len() ==> (#[trigger] v[r]).1 != node,
    ensures
        forall|e: nat| e < depth ==> !#[trigger] walk(dir, start, node, e),
{
    assert forall|e: nat| e < depth implies !#[trigger] walk(dir, start, node, e) by {
        if walk(dir, start, node, e) {
            reveal(walk);
            let p = choose|p: Seq<Seq<char>>| p.len() == e + 1 && p[0] == start && p[e as int] == node && #[trigger] is_path(dir, p);
            lemma_pending(dir, start, limit, v, f, start_done, p);
            if settled_le(p.last(), p.len() - 1, v, start, start_done) {
                let r = choose|r: int| 0 <= r < v.len() && #[trigger] v[r].1 == p.last() && v[r].0 <= p.len() - 1;
                assert(v[r].1 == node);
            } else {
                let (q, j) = choose|q: int, j: u8| 0 <= q < p.len() && j <= q && #[trigger] f.contains((j, p[q]));
                let r = choose|r: int| 0 <= r < f.len() && f[r] == (j, p[q]);
                if r > 0 {
                    assert(leveled_lt(f[0], f[r]));
                }
            }
        }
    }
}

/// A frontier pair is a node of the universe, at most one level past the limit, reached by a
/// walk of its depth.
pub open spec fn frontier_item_ok(dir: Map<Seq<char>, Seq<Seq<char>>>, start: Seq<char>, uni: Set<Seq<char>>, limit: nat, x: Leveled) -> bool {
    uni.contains(x.1) && x.0 <= limit + 1 && walk(dir, start, x.1, x.0 as nat)
}

pub open spec fn frontier_ok(dir: Map<Seq<char>, Seq<Seq<char>>>, start: Seq<char>, uni: Set<Seq<char>>, limit: nat, f: Seq<Leveled>) -> bool {
    forall|i: int| 0 <= i < f.len() ==> frontier_item_ok(dir, start, uni, limit, #[trigger] f[i])
}

/// Taking the least pair off a frontier keeps the rest in order and well placed; while the
/// start waits in the frontier unexpanded, the least pair is the start at depth 0.
pub proof fn lemma_frontier_pop(
    dir: Map<Seq<char>, Seq<Seq<char>>>,
    start: Seq<char>,
    uni: Set<Seq<char>>,
    limit: nat,
    f: Seq<Leveled>,
    start_done: bool,
)
    requires
        leveled_sorted(f),
        f.len() > 0,
        frontier_ok(dir, start, uni, limit, f),
        f.contains((0u8, start)) || start_done,
    ensures
        frontier_item_ok(dir, start, uni, limit, f[0]),
        frontier_ok(dir, start, uni, limit, f.drop_first()),
        !start_done ==> f[0] == (0u8, start),
{
    assert(frontier_item_ok(dir, start, uni, limit, f[0]));
    let d = f.drop_first();
    assert forall|i: int| 0 <= i < d.len() implies frontier_item_ok(dir, start, uni, limit, #[trigger] d[i]) by {
        assert(d[i] == f[i + 1]);
        assert(frontier_item_ok(dir, start, uni, limit, f[i + 1]));
    }
    if !start_done {
        let r = choose|r: int| 0 <= r < f.len() && f[r] == (0u8, start);
        if r > 0 {
            assert(leveled_lt(f[0], f[r]));
            crate::graph::search::lemma_walk_zero(dir, start, f[0].1);
            lemma_id_lt_irreflexive(start);
        }
    }
}

/// The nodes within `depth_limit` steps of `start` along `direction`, other than `start`,
/// each with its distance, deepest first and by node among equally deep ones.
pub fn render_map(start: &Node, direction: &EdgeMap, depth_limit: u8) -> (res: Vec<(u8, Node)>)
    requires
        direction.wf(),
        depth_limit < 255,
    ensures
        forall|i: int, j: int| 0 <= i < j < res@.len() ==> render_lt(#[trigger] leveled_view(res@)[i], #[trigger] leveled_view(res@)[j]),
        forall|x: Leveled| #[trigger] leveled_view(res@).contains(x) <==> in_neighbourhood(direction.as_map(), start@, depth_limit as nat, x),
{
    let visited = bfs_levels(start, direction, depth_limit);
    deepest_first(&visited)
}

/// Breadth-first search: the frontier always yields its least (depth, node) pair; pairs
/// deeper than the limit and already visited nodes are dropped, other nodes are visited
/// (except `start`) and their successors join the frontier one level deeper. Returns the
/// visited pairs in (depth, node) order.
#[verifier::rlimit(100)]
#[verifier::spinoff_prover]
#[verifier::loop_isolation(false)]
fn bfs_levels(start: &Node, direction: &EdgeMap, depth_limit: u8) -> (res: Vec<(u8, Node)>)
    requires
        direction.wf(),
        depth_limit < 255,
    ensures
        leveled_sorted(leveled_view(res@)),
        forall|x: Leveled| #[trigger] leveled_view(res@).contains(x) <==> in_neighbourhood(direction.as_map(), start@, depth_limit as nat, x),
{
    let ghost dir = direction.as_map();
    let ghost es = direction.entries();
    let ghost limit = depth_limit as nat;
    proof {
        lemma_universe(es);
    }
    let ghost uni = universe(es).insert(start@);
    let ghost n_all = uni.len();
    let ghost base = n_all + 1;
    let ghost top = limit + 1;
    let mut nodes: Vec<(u8, Node)> = Vec::new();
    let mut frontier: Vec<(u8, Node)> = Vec::new();
    frontier.push((0, start.clone()));
    let ghost mut start_done = false;
    proof {
        assert(leveled_view(frontier@)[0] == (0u8, start@));
        lemma_walk_start(dir, start@);
    }
    while frontier.len() > 0
        invariant
            direction.wf(),
            dir == direction.as_map(),
            es == direction.entries(),
            keys_sorted(es),
            dir == entries_map(es),
            limit == depth_limit as nat,
            depth_limit < 255,
            uni == universe(es).insert(start@),
            uni.finite(),
            n_all == uni.len(),
            base == n_all + 1,
            top == limit + 1,
            leveled_sorted(leveled_view(frontier@)),
            frontier_ok(dir, start@, uni, limit, leveled_view(frontier@)),
            leveled_sorted(leveled_view(nodes@)),
            vis_exact(dir, start@, leveled_view(nodes@)),
            forall|q: int| 0 <= q < nodes@.len() ==> (#[trigger] leveled_view(nodes@)[q]).1 != start@
                && leveled_view(nodes@)[q].0 <= limit
                && uni.contains(leveled_view(nodes@)[q].1),
            vis_closed(dir, start@, limit, leveled_view(nodes@), leveled_view(frontier@), start_done),
            nodes@.len() > 0 ==> start_done,
            leveled_view(frontier@).contains((0u8, start@)) || start_done,
            nodes@.len() <= n_all,
        decreases
            n_all - nodes@.len(),
            leveled_weight(leveled_view(frontier@), base, top),
    {
        let ghost f_before = leveled_view(frontier@);
        let ghost v_before = leveled_view(nodes@);
        let (depth, node) = frontier.remove(0);
        let ghost f_pop = leveled_view(frontier@);
        proof {
            assert(f_pop =~= f_before.drop_first());
            assert(f_before[0] == (depth, node@));
            lemma_pop_first(f_before);
            assert(leveled_weight(f_before, base, top) == level_weight(base, (top - depth) as nat) + leveled_weight(f_pop, base, top));
            lemma_level_weight_positive(base, (top - depth) as nat);
            lemma_frontier_pop(dir, start@, uni, limit, f_before, start_done);
            assert(f_before[0] == (depth, node@));
        }
        if depth > depth_limit {
            continue;
        }
        let mut seen = false;
        for q in 0..nodes.len()
            invariant
                seen <==> exists|r: int| 0 <= r < q && #[trigger] leveled_view(nodes@)[r].1 == node@,
        {
            if compare_ids(nodes[q].1.id.as_str(), node.id.as_str()) == Order::Equal {
                seen = true;
                assert(leveled_view(nodes@)[q as int].1 == node@);
            }
        }
        if seen {
            assert(leveled_view(frontier@) == f_pop);
            continue;
        }
        // expand `node` at `depth`
        let is_start = compare_ids(node.id.as_str(), start.id.as_str()) == Order::Equal;
        if !is_start {
            proof {
                assert forall|r: int| 0 <= r < v_before.len() implies (#[trigger] v_before[r]).1 != node@ by {
                    assert(leveled_view(nodes@)[r].1 != node@);
                }
                lemma_first_reach(dir, start@, limit, v_before, f_before, start_done, depth, node@);
            }
            let inserted = leveled_insert(&mut nodes, depth, node.clone());
            proof {
                assert(!v_before.contains((depth, node@)));
            }
        }
        let empty: Vec<Node> = Vec::new();
        let nexts = direction.targets_of(&node, &empty);
        let ghost succ = ids(nexts@);
        let next_depth: u8 = depth + 1;
        let ghost w_next = level_weight(base, (top - next_depth) as nat);
        let ghost mut ins: Set<Seq<char>> = Set::empty();
        let ghost f_mid = leveled_view(frontier@);
        for j in 0..nexts.len()
            invariant
                succ == ids(nexts@),
                succ == lookup(dir, node@),
                next_depth == depth + 1,
                leveled_sorted(leveled_view(frontier@)),
                forall|x: Leveled| #[trigger] leveled_view(frontier@).contains(x) <==> f_mid.contains(x) || (x.0 == next_depth && succ.take(j as int).contains(x.1)),
                frontier_ok(dir, start@, uni, limit, leveled_view(frontier@)),
                ins.finite(),
                ins.subset_of(uni),
                forall|v: Seq<char>| #[trigger] ins.contains(v) ==> leveled_view(frontier@).contains((next_depth, v)),
                leveled_weight(leveled_view(frontier@), base, top) == leveled_weight(f_mid, base, top) + ins.len() * w_next,
        {
            let ghost f_cur = leveled_view(frontier@);
            let ghost v = succ[j as int];
            let inserted = leveled_insert(&mut frontier, next_depth, nexts[j].clone());
            proof {
                let f_new = leveled_view(frontier@);
                assert(lookup(dir, node@).contains(v)) by {
                    assert(succ[j as int] == v);
                }
                lemma_lookup_in_universe(es, node@, v);
                lemma_walk_step(dir, start@, node@, depth as nat, v);
                crate::graph::search::lemma_take_push_contains(succ, j as int, v);
                assert forall|x: Leveled| #[trigger] f_new.contains(x) <==> f_mid.contains(x) || (x.0 == next_depth && succ.take(j + 1).contains(x.1)) by {
                    crate::graph::search::lemma_take_push_contains(succ, j as int, x.1);
                }
                assert forall|i: int| 0 <= i < f_new.len() implies frontier_item_ok(dir, start@, uni, limit, #[trigger] f_new[i]) by {
                    assert(f_new.contains(f_new[i]));
                    if f_new[i] != (next_depth, v) {
                        let q = choose|q: int| 0 <= q < f_cur.len() && f_cur[q] == f_new[i];
                        assert(f_cur[q] == f_new[i]);
                    }
                }
                if inserted {
                    let i = choose|i: int| 0 <= i <= f_cur.len() && f_new == f_cur.insert(i, (next_depth, v));
                    lemma_leveled_weight_insert(f_cur, i, (next_depth, v), base, top);
                    assert(!ins.contains(v));
                    let old_len = ins.len();
                    ins = ins.insert(v);
                    assert(ins.len() == old_len + 1);
                    assert((old_len + 1) * w_next == old_len * w_next + w_next) by (nonlinear_arith);
                }
            }
        }
        proof {
            assert(succ.take(nexts@.len() as int) =~= succ);
            vstd::set_lib::lemma_len_subset(ins, uni);
            lemma_level_weight_positive(base, (top - next_depth) as nat);
            assert(level_weight(base, (top - depth) as nat) == base * w_next);
            let il = ins.len();
            assert(il * w_next < base * w_next) by (nonlinear_arith)
                requires
                    il <= n_all,
                    base == n_all + 1,
                    w_next >= 1,
            ;
            let f_end = leveled_view(frontier@);
            let vv = leveled_view(nodes@);
                        let sd0 = start_done;
            if is_start && depth == 0 {
                start_done = true;
            }
            assert forall|y: Leveled| f_before.contains(y) && y != f_before[0] implies #[trigger] f_end.contains(y) by {
                assert(f_pop.contains(y));
                assert(f_mid.contains(y));
            }
            assert forall|v: Seq<char>| #[trigger] succ.contains(v) implies f_end.contains(((depth + 1) as u8, v)) by {
                assert(succ.take(nexts@.len() as int).contains(v));
            }
            assert forall|r: int| 0 <= r < v_before.len() implies (#[trigger] v_before[r]).1 != node@ by {
                if v_before[r].1 == node@ {
                    assert(leveled_view(nodes@)[r].1 == node@);
                }
            }
            lemma_closed_after(dir, start@, limit, v_before, vv, f_before, f_end, sd0, start_done, depth, node@, succ);
            lemma_unique_len(vv, uni, dir, start@);
        }
    }
    proof {
        let vv = leveled_view(nodes@);
        assert forall|x: Leveled| #[trigger] vv.contains(x) <==> in_neighbourhood(dir, start@, limit, x) by {
            if vv.contains(x) {
                let q = choose|q: int| 0 <= q < vv.len() && vv[q] == x;
                assert(vv[q].1 != start@);
            }
            if in_neighbourhood(dir, start@, limit, x) {
                reveal(walk);
                let p = choose|p: Seq<Seq<char>>| p.len() == x.0 + 1 && p[0] == start@ && p[x.0 as int] == x.1 && #[trigger] is_path(dir, p);
                lemma_pending(dir, start@, limit, vv, leveled_view(frontier@), start_done, p);
                let r = choose|r: int| 0 <= r < vv.len() && #[trigger] vv[r].1 == p.last() && vv[r].0 <= p.len() - 1;
                assert(dist(dir, start@, vv[r].1, vv[r].0 as nat));
                if vv[r].0 < x.0 {
                    assert(walk(dir, start@, x.1, vv[r].0 as nat));
                }
                assert(vv[r] == x);
            }
        }
    }
    nodes
}

/// Reorders a list kept in increasing (depth, node) order so that deeper nodes come first,
/// keeping the node order among equally deep ones: runs of equal depth are taken from the
/// back of the list, each in its own order.
fn deepest_first(v: &Vec<(u8, Node)>) -> (res: Vec<(u8, Node)>)
    requires
        leveled_sorted(leveled_view(v@)),
    ensures
        forall|i: int, j: int| 0 <= i < j < res@.len() ==> render_lt(#[trigger] leveled_view(res@)[i], #[trigger] leveled_view(res@)[j]),
        forall|x: Leveled| #[trigger] leveled_view(res@).contains(x) <==> leveled_view(v@).contains(x),
{
    let ghost vv = leveled_view(v@);
    let mut out: Vec<(u8, Node)> = Vec::new();
    let mut i: usize = v.len();
    while i > 0
        invariant
            vv == leveled_view(v@),
            leveled_sorted(vv),
            i <= vv.len(),
            0 < i < vv.len() ==> vv[i - 1].0 < vv[i as int].0,
            forall|a: int, b: int| 0 <= a < b < out@.len() ==> render_lt(#[trigger] leveled_view(out@)[a], #[trigger] leveled_view(out@)[b]),
            forall|x: Leveled| #[trigger] leveled_view(out@).contains(x) <==> vv.subrange(i as int, vv.len() as int).contains(x),
            forall|a: int, k: int| 0 <= a < out@.len() && 0 <= k < i ==> #[trigger] leveled_view(out@)[a].0 > #[trigger] vv[k].0,
        decreases i,
    {
        let d = v[i - 1].0;
        let mut s: usize = i - 1;
        while s > 0 && v[s - 1].0 == d
            invariant
                vv == leveled_view(v@),
                s < i <= vv.len(),
                d == vv[i - 1].0,
                forall|m: int| s <= m < i ==> #[trigger] vv[m].0 == d,
            decreases s,
        {
            s = s - 1;
        }
        let ghost o0 = leveled_view(out@);
        let ghost i0 = i as int;
        for k in s..i
            invariant
                vv == leveled_view(v@),
                leveled_sorted(vv),
                s < i <= vv.len(),
                i0 == i as int,
                forall|m: int| s <= m < i ==> #[trigger] vv[m].0 == d,
                forall|a: int, b: int| 0 <= a < b < out@.len() ==> render_lt(#[trigger] leveled_view(out@)[a], #[trigger] leveled_view(out@)[b]),
                forall|a: int, m: int| 0 <= a < out@.len() && k <= m < i ==> render_lt(#[trigger] leveled_view(out@)[a], #[trigger] vv[m]),
                forall|x: Leveled| #[trigger] leveled_view(out@).contains(x) <==> o0.contains(x) || vv.subrange(s as int, k as int).contains(x),
                forall|a: int| 0 <= a < out@.len() ==> #[trigger] leveled_view(out@)[a].0 >= d,
                forall|a: int| 0 <= a < o0.len() ==> #[trigger] o0[a].0 > d,
        {
            let ghost o1 = leveled_view(out@);
            out.push((v[k].0, v[k].1.clone()));
            proof {
                let o2 = leveled_view(out@);
                assert(o2 =~= o1.push(vv[k as int]));
                assert forall|a: int, m: int| 0 <= a < o2.len() && k + 1 <= m < i implies render_lt(#[trigger] o2[a], #[trigger] vv[m]) by {
                    if a == o1.len() {
                        assert(leveled_lt(vv[k as int], vv[m]));
                    } else {
                        assert(o2[a] == o1[a]);
                    }
                }
                assert forall|a: int, b: int| 0 <= a < b < o2.len() implies render_lt(#[trigger] o2[a], #[trigger] o2[b]) by {
                    if b == o1.len() {
                        assert(o2[a] == o1[a]);
                    } else {
                        assert(o2[a] == o1[a] && o2[b] == o1[b]);
                    }
                }
                assert forall|x: Leveled| #[trigger] o2.contains(x) <==> o0.contains(x) || vv.subrange(s as int, k + 1).contains(x) by {
                    let sub0 = vv.subrange(s as int, k as int);
                    let sub1 = vv.subrange(s as int, k + 1);
                    assert(sub1 =~= sub0.push(vv[k as int]));
                    if o2.contains(x) {
                        let q = choose|q: int| 0 <= q < o2.len() && o2[q] == x;
                        if q < o1.len() {
                            assert(o1[q] == x);
                            assert(o1.contains(x));
                            if sub0.contains(x) {
                                let r = choose|r: int| 0 <= r < sub0.len() && sub0[r] == x;
                                assert(sub1[r] == x);
                            }
                        } else {
                            assert(sub1[k - s] == x);
                        }
                    }
                    if sub1.contains(x) {
                        let r = choose|r: int| 0 <= r < sub1.len() && sub1[r] == x;
                        if r < sub0.len() {
                            assert(sub0[r] == x);
                            assert(o1.contains(x));
                            let q = choose|q: int| 0 <= q < o1.len() && o1[q] == x;
                            assert(o2[q] == x);
                        } else {
                            assert(o2[o1.len() as int] == x);
                        }
                    }
                    if o0.contains(x) {
                        assert(o1.contains(x));
                        let q = choose|q: int| 0 <= q < o1.len() && o1[q] == x;
                        assert(o2[q] == x);
                    }
                }
                assert forall|a: int| 0 <= a < o2.len() implies #[trigger] o2[a].0 >= d by {
                    if a < o1.len() {
                        assert(o2[a] == o1[a]);
                    }
                }
            }
        }
        proof {
            let o = leveled_view(out@);
            assert(s > 0 ==> vv[s - 1].0 < d) by {
                if s > 0 {
                    assert(leveled_lt(vv[s - 1], vv[s as int]));
                }
            }
            assert forall|x: Leveled| #[trigger] o.contains(x) <==> vv.subrange(s as int, vv.len() as int).contains(x) by {
                let a = vv.subrange(s as int, i0);
                let b = vv.subrange(i0, vv.len() as int);
                let c = vv.subrange(s as int, vv.len() as int);
                assert(c =~= a + b);
                if c.contains(x) {
                    let r = choose|r: int| 0 <= r < c.len() && c[r] == x;
                    if r < a.len() {
                        assert(a[r] == x);
                    } else {
                        assert(b[r - a.len()] == x);
                    }
                }
                if a.contains(x) {
                    let r = choose|r: int| 0 <= r < a.len() && a[r] == x;
                    assert(c[r] == x);
                }
                if b.contains(x) {
                    let r = choose|r: int| 0 <= r < b.len() && b[r] == x;
                    assert(c[r + a.len()] == x);
                }
            }
            assert forall|a: int, k: int| 0 <= a < o.len() && 0 <= k < s implies #[trigger] o[a].0 > #[trigger] vv[k].0 by {
                assert(leveled_lt(vv[k], vv[s - 1]) || k == s - 1);
            }
        }
        i = s;
    }
    proof {
        assert(vv.subrange(0, vv.len() as int) =~= vv);
    }
    out
}

} // verus!
