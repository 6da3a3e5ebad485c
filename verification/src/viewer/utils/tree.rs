//! The subgraph tree of a view: each subgraph with its child subgraphs, in order of their
//! ids, and the subgraph a path of child indices leads to.
use vstd::prelude::*;
use crate::graph::order::{compare_ids, id_lt, lemma_id_lt_transitive, lemma_id_lt_total, Order};

verus! {

broadcast use vstd::seq_lib::group_to_multiset_ensures, vstd::multiset::group_multiset_axioms;

/// A subgraph and its child subgraphs.
pub struct Item {
    pub id: String,
    pub children: Vec<Item>,
}

/// No id comes before a smaller one.
pub open spec fn ids_ordered(items: Seq<Item>) -> bool {
    forall|i: int, j: int| 0 <= i < j < items.len() ==> !id_lt(#[trigger] items[j].id@, #[trigger] items[i].id@)
}

/// The subgraph that `path` leads to from the roots `items`: the first index picks a root,
/// each next one a child of the subgraph reached so far.
pub open spec fn item_at(items: Seq<Item>, path: Seq<usize>) -> Option<Seq<char>>
    decreases path.len(),
{
    if path.len() == 0 || path[0] >= items.len() {
        None
    } else if path.len() == 1 {
        Some(items[path[0] as int].id@)
    } else {
        item_at(items[path[0] as int].children@, path.drop_first())
    }
}

/// Every index of `path` picks an existing subgraph.
pub open spec fn path_ok(items: Seq<Item>, path: Seq<usize>) -> bool
    decreases path.len(),
{
    path.len() == 0 || (path[0] < items.len() && path_ok(items[path[0] as int].children@, path.drop_first()))
}

/// The id of the subgraph that `path` leads to, if the path is not empty.
pub fn selected_id(items: &Vec<Item>, path: &[usize]) -> (res: Option<String>)
    requires
        path_ok(items@, path@),
    ensures
        res matches Some(s) ==> item_at(items@, path@) == Some(s@),
        res is None <==> item_at(items@, path@) is None,
{
    if path.len() == 0 {
        return None;
    }
    proof {
        let t = seq![0usize] + path@.skip(1);
        assert(path@.skip(1) =~= path@.drop_first());
        assert(t.drop_first() =~= path@.drop_first());
        if path@.len() == 1 {
            assert(t.len() == 1);
        }
    }
    let mut node: &Item = &items[path[0]];
    let mut k: usize = 1;
    while k < path.len()
        invariant
            1 <= k <= path@.len(),
            path_ok(node.children@, path@.skip(k as int)),
            item_at(items@, path@) == item_at(seq![*node], seq![0usize] + path@.skip(k as int)),
        decreases path@.len() - k,
    {
        let ghost rest = path@.skip(k as int);
        let idx = path[k];
        proof {
            assert(rest[0] == idx);
            let t = seq![0usize] + rest;
            assert(t.drop_first() =~= rest);
            assert(t.len() > 1);
            assert(item_at(seq![*node], t) == item_at(node.children@, rest));
            assert(path_ok(node.children@[idx as int].children@, rest.drop_first()));
            let u = seq![0usize] + path@.skip(k + 1);
            assert(rest.drop_first() =~= path@.skip(k + 1));
            assert(u.drop_first() =~= path@.skip(k + 1));
            if rest.len() == 1 {
                assert(item_at(node.children@, rest) == Some(node.children@[idx as int].id@));
                assert(u.len() == 1);
            } else {
                assert(item_at(node.children@, rest) == item_at(node.children@[idx as int].children@, rest.drop_first()));
            }
        }
        node = &node.children[idx];
        k = k + 1;
    }
    proof {
        let t = seq![0usize] + path@.skip(k as int);
        assert(path@.skip(k as int).len() == 0);
        assert(t.len() == 1);
    }
    Some(node.id.clone())
}

/// Whether every index of `path` picks an existing subgraph.
pub fn path_valid(items: &Vec<Item>, path: &[usize]) -> (res: bool)
    ensures
        res == path_ok(items@, path@),
{
    let mut level: &Vec<Item> = items;
    let mut k: usize = 0;
    assert(path@.skip(0) =~= path@);
    while k < path.len()
        invariant
            k <= path@.len(),
            path_ok(items@, path@) == path_ok(level@, path@.skip(k as int)),
        decreases path@.len() - k,
    {
        let ghost rest = path@.skip(k as int);
        assert(rest[0] == path@[k as int]);
        assert(rest.drop_first() =~= path@.skip(k + 1));
        if path[k] >= level.len() {
            return false;
        }
        level = &level[path[k]].children;
        k = k + 1;
    }
    assert(path@.skip(k as int).len() == 0);
    true
}

/// Inserting `x` after the items it is not smaller than, and before one it is smaller than,
/// keeps a list ordered.
proof fn lemma_insert_ordered(s: Seq<Item>, j: int, x: Item)
    requires
        ids_ordered(s),
        0 <= j <= s.len(),
        forall|q: int| 0 <= q < j ==> !id_lt(x.id@, #[trigger] s[q].id@),
        j < s.len() ==> id_lt(x.id@, s[j].id@),
    ensures
        ids_ordered(s.insert(j, x)),
{
    let ns = s.insert(j, x);
    assert forall|a: int, b: int| 0 <= a < b < ns.len() implies !id_lt(#[trigger] ns[b].id@, #[trigger] ns[a].id@) by {
        if b < j {
            assert(ns[a] == s[a] && ns[b] == s[b]);
            assert(!id_lt(s[b].id@, s[a].id@));
        } else if b == j {
            assert(ns[a] == s[a] && ns[b] == x);
            assert(!id_lt(x.id@, s[a].id@));
        } else if a < j {
            assert(ns[a] == s[a] && ns[b] == s[b - 1]);
            assert(!id_lt(s[b - 1].id@, s[a].id@));
        } else if a == j {
            assert(ns[a] == x && ns[b] == s[b - 1]);
            if b - 1 == j {
                crate::graph::order::lemma_id_lt_asymmetric(x.id@, s[j].id@);
            } else if id_lt(s[b - 1].id@, x.id@) {
                lemma_id_lt_transitive(s[b - 1].id@, x.id@, s[j].id@);
                assert(!id_lt(s[b - 1].id@, s[j].id@));
            }
        } else {
            assert(ns[a] == s[a - 1] && ns[b] == s[b - 1]);
            assert(!id_lt(s[b - 1].id@, s[a - 1].id@));
        }
    }
}

/// Puts `x` after the subgraphs whose id is not greater, keeping an ordered list ordered.
fn insert_ordered(list: &mut Vec<Item>, x: Item)
    requires
        ids_ordered(old(list)@),
    ensures
        ids_ordered(final(list)@),
        final(list)@.to_multiset() == old(list)@.to_multiset().insert(x),
{
    let ghost s = list@;
    let mut j: usize = 0;
    while j < list.len() && compare_ids(x.id.as_str(), list[j].id.as_str()) != Order::Less
        invariant
            list@ == s,
            ids_ordered(s),
            j <= s.len(),
            forall|q: int| 0 <= q < j ==> !id_lt(x.id@, #[trigger] s[q].id@),
        decreases s.len() - j,
    {
        j = j + 1;
    }
    assert(j < s.len() ==> id_lt(x.id@, s[j as int].id@));
    proof {
        lemma_insert_ordered(s, j as int, x);
    }
    list.insert(j, x);
}

/// The subgraphs ordered by id; subgraphs with equal ids keep their order.
pub fn sort_by_id(items: Vec<Item>) -> (res: Vec<Item>)
    ensures
        ids_ordered(res@),
        res@.to_multiset() == items@.to_multiset(),
{
    let mut rest = items;
    let mut out: Vec<Item> = Vec::new();
    let ghost all = rest@;
    while rest.len() > 0
        invariant
            ids_ordered(out@),
            out@.to_multiset().add(rest@.to_multiset()) == all.to_multiset(),
        decreases rest@.len(),
    {
        let ghost before_rest = rest@;
        let ghost before_out = out@;
        let x = rest.remove(0);
        proof {
            assert(before_rest.remove(0).to_multiset() == before_rest.to_multiset().remove(before_rest[0]));
        }
        insert_ordered(&mut out, x);
        proof {
            broadcast use vstd::multiset::group_multiset_axioms;
            assert(before_rest.to_multiset().count(x) > 0) by {
                vstd::seq_lib::to_multiset_contains(before_rest, x);
                assert(before_rest.contains(x)) by {
                    assert(before_rest[0] == x);
                }
            }
            assert(out@.to_multiset().add(rest@.to_multiset()) =~= all.to_multiset());
        }
    }
    proof {
        broadcast use vstd::multiset::group_multiset_axioms;
        assert(rest@.to_multiset() =~= vstd::multiset::Multiset::<Item>::empty());
        assert(out@.to_multiset().add(vstd::multiset::Multiset::<Item>::empty()) =~= out@.to_multiset());
    }
    out
}

impl Item {
    /// A subgraph with its children ordered by id.
    pub fn new(id: String, children: Vec<Item>) -> (res: Item)
        ensures
            res.id@ == id@,
            ids_ordered(res.children@),
            res.children@.to_multiset() == children@.to_multiset(),
    {
        Item { id, children: sort_by_id(children) }
    }
}

} // verus!
