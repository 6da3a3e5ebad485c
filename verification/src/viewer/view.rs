//! A view of a graph: the nodes in topological order with one of them selected, its
//! predecessors and successors, and the nodes matching a search.
use vstd::prelude::*;
use vstd::string::*;
use vstd::view::View as _;
use regex::Regex;
use fuzzy_matcher::FuzzyMatcher;
use fuzzy_matcher::skim::SkimMatcherV2;
use crate::app::utils::trie::{Trie, cut_ok, completions, lists_sorted, prefix_of, opt_text};
use crate::chars::{byte_len, string_byte_len};
use crate::viewer::error::DotViewerError;
use crate::viewer::utils::input::texts;
use crate::viewer::utils::list::List;
use crate::text::{decimal, push_decimal};
use crate::words::starts_with;

verus! {

/// What the viewer needs to know of a graph: its node ids in topological order, and for
/// each node its predecessors, its successors and its text in the dot format.
pub struct GraphModel {
    pub ids: Vec<String>,
    pub froms: Vec<Vec<String>>,
    pub tos: Vec<Vec<String>>,
    pub dots: Vec<String>,
}

impl GraphModel {
    /// Each node has its predecessors, successors and dot text.
    pub open spec fn wf(&self) -> bool {
        &&& self.froms.len() == self.ids.len()
        &&& self.tos.len() == self.ids.len()
        &&& self.dots.len() == self.ids.len()
    }
}

/// Which list has the focus.
#[derive(Debug, Clone, Copy, PartialEq, Eq, Structural, Hash)]
pub enum Focus {
    Current,
    Prev,
    Next,
}

/// The characters of `choice` that the skim fuzzy matcher matches `pattern` against, if it
/// matches.
pub uninterp spec fn skim_indices(choice: Seq<char>, pattern: Seq<char>) -> Option<Seq<usize>>;

/// Whether `pattern` is a valid regular expression, and if so whether it matches `text`.
pub uninterp spec fn regex_match(pattern: Seq<char>, text: Seq<char>) -> Option<bool>;

/// The debug text of a string, as `{:?}` prints it.
pub uninterp spec fn str_debug(s: Seq<char>) -> Seq<char>;

/// The view of an optional list of indices.
pub open spec fn opt_indices(v: Option<Vec<usize>>) -> Option<Seq<usize>> {
    match v {
        Some(x) => Some(x@),
        None => None,
    }
}

/// Fuzzy match of `pattern` in `choice` with the skim matcher of `fuzzy_matcher`
/// (`SkimMatcherV2::default().fuzzy_indices`): the indices of the matched characters, or
/// nothing. Its result depends on the two texts alone.
#[verifier::external_body]
fn fuzzy_indices(choice: &str, pattern: &str) -> (res: Option<Vec<usize>>)
    ensures
        opt_indices(res) == skim_indices(choice@, pattern@),
{
    SkimMatcherV2::default().fuzzy_indices(choice, pattern).map(|(_, indices)| indices)
}

/// Compiles `pattern` with `regex::Regex::new` and, if it compiles, tells whether it
/// matches `text` (`regex::Regex::is_match`). The result depends on the two texts alone.
#[verifier::external_body]
fn regex_is_match(pattern: &str, text: &str) -> (res: Option<bool>)
    ensures
        res == regex_match(pattern@, text@),
{
    Regex::new(pattern).ok().map(|r| r.is_match(text))
}

/// Formats a string with `{:?}`: the standard library's `Debug` for `str`, which depends on
/// the string alone.
#[verifier::external_body]
pub(crate) fn debug_text(s: &str) -> (res: String)
    ensures
        res@ == str_debug(s@),
{
    format!("{:?}", s)
}

/// The matches of a search: the index of each matching node and the indices to highlight.
pub open spec fn matches_view(m: Seq<(usize, Vec<usize>)>) -> Seq<(usize, Seq<usize>)> {
    m.map_values(|p: (usize, Vec<usize>)| (p.0, p.1@))
}

/// The fuzzy matches of `key` among the first `n` ids, in order.
pub open spec fn fuzzy_matches(ids: Seq<Seq<char>>, key: Seq<char>, n: nat) -> Seq<(usize, Seq<usize>)>
    decreases n,
{
    if n == 0 {
        Seq::empty()
    } else {
        let rest = fuzzy_matches(ids, key, (n - 1) as nat);
        match skim_indices(ids[n - 1], key) {
            Some(h) => rest.push(((n - 1) as usize, h)),
            None => rest,
        }
    }
}

/// Indices `0..n`.
pub open spec fn upto(n: nat) -> Seq<usize> {
    Seq::new(n, |i: int| i as usize)
}

/// The regular-expression matches of `key` among the first `n` nodes, matched against their
/// dot text, each highlighted whole (by the bytes of its id).
pub open spec fn regex_matches(ids: Seq<Seq<char>>, dots: Seq<Seq<char>>, key: Seq<char>, n: nat) -> Seq<(usize, Seq<usize>)>
    decreases n,
{
    if n == 0 {
        Seq::empty()
    } else {
        let rest = regex_matches(ids, dots, key, (n - 1) as nat);
        if regex_match(key, dots[n - 1]) == Some(true) {
            rest.push(((n - 1) as usize, upto(byte_len(ids[n - 1]) as nat)))
        } else {
            rest
        }
    }
}

/// The nodes among the first `n` whose id starts with `key`, each highlighted over the
/// bytes of `key`.
pub open spec fn prefix_matches(ids: Seq<Seq<char>>, key: Seq<char>, n: nat) -> Seq<(usize, Seq<usize>)>
    decreases n,
{
    if n == 0 {
        Seq::empty()
    } else {
        let rest = prefix_matches(ids, key, (n - 1) as nat);
        if key.len() <= ids[n - 1].len() && ids[n - 1].take(key.len() as int) == key {
            rest.push(((n - 1) as usize, upto(byte_len(key) as nat)))
        } else {
            rest
        }
    }
}


/// The prefix filter keeps the nodes whose id starts with the key, and only those: node `i`
/// (among the first `n`) is matched exactly when the key is no longer than its id and its id
/// begins with the key. The matches come in increasing order of node, and each highlights the
/// key's bytes.
pub proof fn lemma_prefix_matches(ids: Seq<Seq<char>>, key: Seq<char>, n: nat)
    requires
        n <= ids.len(),
        ids.len() <= usize::MAX,
    ensures
        forall|i: int| 0 <= i < n ==> ((exists|k: int| 0 <= k < prefix_matches(ids, key, n).len()
            && #[trigger] prefix_matches(ids, key, n)[k].0 == i)
            <==> (key.len() <= ids[i].len() && #[trigger] ids[i].take(key.len() as int) == key)),
        forall|k: int| 0 <= k < prefix_matches(ids, key, n).len() ==> {
            let i = (#[trigger] prefix_matches(ids, key, n)[k]).0 as int;
            &&& 0 <= i < n
            &&& key.len() <= ids[i].len() && ids[i].take(key.len() as int) == key
            &&& prefix_matches(ids, key, n)[k].1 == upto(byte_len(key) as nat)
        },
        forall|a: int, b: int| 0 <= a < b < prefix_matches(ids, key, n).len()
            ==> #[trigger] prefix_matches(ids, key, n)[a].0 < #[trigger] prefix_matches(ids, key, n)[b].0,
    decreases n,
{
    if n > 0 {
        let m = (n - 1) as nat;
        lemma_prefix_matches(ids, key, m);
        let rest = prefix_matches(ids, key, m);
        let all = prefix_matches(ids, key, n);
        let cond = key.len() <= ids[m as int].len() && ids[m as int].take(key.len() as int) == key;
        let e = (m as usize, upto(byte_len(key) as nat));
        assert(m as usize == m);
        if cond {
            assert(all == rest.push(e));
        } else {
            assert(all == rest);
        }
        assert forall|i: int| 0 <= i < n implies ((exists|k: int| 0 <= k < all.len() && #[trigger] all[k].0 == i)
            <==> (key.len() <= ids[i].len() && #[trigger] ids[i].take(key.len() as int) == key)) by {
            if exists|k: int| 0 <= k < all.len() && #[trigger] all[k].0 == i {
                let k = choose|k: int| 0 <= k < all.len() && #[trigger] all[k].0 == i;
                if k < rest.len() {
                    assert(all[k] == rest[k]);
                    assert(rest[k].0 == i);
                    assert(key.len() <= ids[i].len() && ids[i].take(key.len() as int) == key);
                } else {
                    assert(cond && all[k] == e);
                }
            }
            if key.len() <= ids[i].len() && ids[i].take(key.len() as int) == key {
                if i < m {
                    let k = choose|k: int| 0 <= k < rest.len() && #[trigger] rest[k].0 == i;
                    assert(all[k] == rest[k]);
                    assert(all[k].0 == i);
                } else {
                    assert(all[rest.len() as int] == e);
                    assert(all[rest.len() as int].0 == i);
                }
            }
        }
        assert forall|k: int| 0 <= k < all.len() implies {
            let i = (#[trigger] all[k]).0 as int;
            &&& 0 <= i < n
            &&& key.len() <= ids[i].len() && ids[i].take(key.len() as int) == key
            &&& all[k].1 == upto(byte_len(key) as nat)
        } by {
            if k < rest.len() {
                assert(all[k] == rest[k]);
            } else {
                assert(all[k] == e);
            }
        }
        assert forall|a: int, b: int| 0 <= a < b < all.len() implies #[trigger] all[a].0 < #[trigger] all[b].0 by {
            assert(all[a] == rest[a]);
            if b < rest.len() {
                assert(all[b] == rest[b]);
            } else {
                assert(all[b] == e);
                assert(rest[a].0 < m);
            }
        }
    }
}

/// A list freshly built from items: the first one selected if there is one.
pub open spec fn fresh<T>(l: List<T>) -> bool {
    l.state == (if l.items@.len() > 0 { Some(0usize) } else { None })
}

/// A view of a graph.
pub struct View {
    pub title: String,
    pub graph: GraphModel,
    pub focus: Focus,
    /// All nodes, in topological order.
    pub current: List<String>,
    /// Predecessors of the selected node.
    pub prevs: List<String>,
    /// Successors of the selected node.
    pub nexts: List<String>,
    /// Keyword of the last search.
    pub key: String,
    /// Matching nodes (by index in `current`) with the indices to highlight.
    pub matches: List<(usize, Vec<usize>)>,
    /// Completion of the search keyword, over the matching nodes.
    pub trie: Trie,
}

impl View {
    /// The current list is the graph's nodes with one selected, the matches point into it,
    /// and the completion tree is well formed.
    pub open spec fn wf(&self) -> bool {
        &&& self.graph.wf()
        &&& texts(self.current.items@) == texts(self.graph.ids@)
        &&& self.current.state matches Some(i) && i < self.current.items.len()
        &&& self.prevs.wf()
        &&& self.nexts.wf()
        &&& self.matches.wf()
        &&& forall|k: int| 0 <= k < self.matches.items@.len() ==> (#[trigger] self.matches.items@[k]).0 < self.current.items@.len()
        &&& self.trie.wf()
    }

    /// Index of the selected node.
    pub open spec fn selected_index(&self) -> int {
        self.current.state.unwrap() as int
    }

    /// The predecessor and successor lists are those of the selected node, freshly built.
    pub open spec fn adjacent_ok(&self) -> bool {
        &&& texts(self.prevs.items@) == texts(self.graph.froms@[self.selected_index()]@)
        &&& texts(self.nexts.items@) == texts(self.graph.tos@[self.selected_index()]@)
        &&& fresh(self.prevs)
        &&& fresh(self.nexts)
    }

    /// A view of a non-empty graph: all nodes with the first selected, its neighbors listed,
    /// no search, and completion over all nodes.
    pub fn new(title: String, graph: GraphModel) -> (res: View)
        requires
            graph.wf(),
            graph.ids.len() > 0,
        ensures
            res.wf(),
            res.adjacent_ok(),
            res.title@ == title@,
            res.graph == graph,
            res.focus == Focus::Current,
            res.current.state == Some(0usize),
            res.key@ == Seq::<char>::empty(),
            res.matches.items@.len() == 0,
            texts(res.trie.items@) == texts(graph.ids@),
    {
        let node_ids = clone_strings(&graph.ids);
        let trie = Trie::new(&node_ids);
        let current = List::from_vec(node_ids);
        let prevs: List<String> = List::from_vec(Vec::new());
        let nexts: List<String> = List::from_vec(Vec::new());
        let matches: List<(usize, Vec<usize>)> = List::from_vec(Vec::new());
        let mut view = View { title, graph, focus: Focus::Current, current, prevs, nexts, key: String::new(), matches, trie };
        view.update_adjacent();
        view
    }

    /// Lists the predecessors and successors of the selected node.
    pub fn update_adjacent(&mut self)
        requires
            old(self).wf(),
        ensures
            final(self).wf(),
            final(self).adjacent_ok(),
            final(self).title == old(self).title,
            final(self).graph == old(self).graph,
            final(self).focus == old(self).focus,
            final(self).current == old(self).current,
            final(self).key == old(self).key,
            final(self).matches == old(self).matches,
            final(self).trie == old(self).trie,
    {
        let i = match self.current.state {
            Some(i) => i,
            None => 0,
        };
        assert(texts(self.current.items@).len() == texts(self.graph.ids@).len());
        let prevs = clone_strings(&self.graph.froms[i]);
        let nexts = clone_strings(&self.graph.tos[i]);
        self.prevs = List::from_vec(prevs);
        self.nexts = List::from_vec(nexts);
    }

    /// Selects the node `id` and lists its neighbors; an unknown id is refused.
    pub fn goto(&mut self, id: &str) -> (res: Result<(), DotViewerError>)
        requires
            old(self).wf(),
        ensures
            final(self).wf(),
            texts(old(self).current.items@).contains(id@) <==> res is Ok,
            res is Ok ==> final(self).current.items@ == old(self).current.items@
                && texts(final(self).current.items@)[final(self).selected_index()] == id@
                && (forall|j: int| 0 <= j < final(self).selected_index() ==> texts(final(self).current.items@)[j] != id@)
                && final(self).adjacent_ok(),
            res is Err ==> *final(self) == *old(self),
            res matches Err(e) ==> (e matches DotViewerError::ViewerError(m) && m@ == "no such node "@ + str_debug(id@)),
            final(self).title == old(self).title,
            final(self).graph == old(self).graph,
            final(self).focus == old(self).focus,
            final(self).key == old(self).key,
            final(self).matches == old(self).matches,
            final(self).trie == old(self).trie,
    {
        match self.current.find(id) {
            Some(idx) => {
                proof {
                    assert(texts(self.current.items@)[idx as int] == id@);
                }
                self.current.select(idx);
                self.update_adjacent();
                Ok(())
            },
            None => {
                proof {
                    if texts(self.current.items@).contains(id@) {
                        let j = choose|j: int| 0 <= j < texts(self.current.items@).len() && texts(self.current.items@)[j] == id@;
                        assert(self.current.items@[j]@ == id@);
                    }
                }
                let mut m = String::from_str("no such node ");
                let d = debug_text(id);
                m.append(d.as_str());
                Err(DotViewerError::ViewerError(m))
            },
        }
    }

    /// Goes to the node selected in the focused list of predecessors or successors.
    pub fn goto_adjacent(&mut self) -> (res: Result<(), DotViewerError>)
        requires
            old(self).wf(),
        ensures
            final(self).wf(),
            old(self).focus == Focus::Current ==> *final(self) == *old(self),
            (old(self).focus == Focus::Current || (old(self).focus == Focus::Prev && old(self).prevs.state is None)
                || (old(self).focus == Focus::Next && old(self).nexts.state is None)) ==> (res matches Err(DotViewerError::ViewerError(m))
                && m@ == "no node selected"@),
            old(self).focus == Focus::Prev && old(self).prevs.state is Some ==> (res is Ok <==> texts(old(self).current.items@).contains(old(self).prevs.items@[old(self).prevs.state.unwrap() as int]@)),
            old(self).focus == Focus::Next && old(self).nexts.state is Some ==> (res is Ok <==> texts(old(self).current.items@).contains(old(self).nexts.items@[old(self).nexts.state.unwrap() as int]@)),
            res is Ok ==> final(self).adjacent_ok(),
    {
        let err = DotViewerError::ViewerError(String::from_str("no node selected"));
        match self.focus {
            Focus::Prev => match self.prevs.state {
                Some(i) => {
                    let id = self.prevs.items[i].clone();
                    self.goto(id.as_str())
                },
                None => Err(err),
            },
            Focus::Next => match self.nexts.state {
                Some(i) => {
                    let id = self.nexts.items[i].clone();
                    self.goto(id.as_str())
                },
                None => Err(err),
            },
            Focus::Current => Err(err),
        }
    }

    /// Goes to the node of the selected match.
    pub fn goto_match(&mut self) -> (res: Result<(), DotViewerError>)
        requires
            old(self).wf(),
        ensures
            final(self).wf(),
            old(self).matches.state is None ==> *final(self) == *old(self) && (res matches Err(DotViewerError::ViewerError(m))
                && m@ == "no node selected"@),
            old(self).matches.state matches Some(k) ==> res is Ok
                && texts(final(self).current.items@)[final(self).selected_index()]
                    == texts(old(self).current.items@)[old(self).matches.items@[k as int].0 as int]
                && final(self).adjacent_ok(),
            final(self).current.items@ == old(self).current.items@,
            final(self).title == old(self).title,
            final(self).graph == old(self).graph,
            final(self).focus == old(self).focus,
            final(self).key == old(self).key,
            final(self).matches == old(self).matches,
            final(self).trie == old(self).trie,
    {
        match self.matched_id() {
            Some(id) => {
                let res = self.goto(id.as_str());
                proof {
                    let k = self.matches.state.unwrap();
                    let idx = self.matches.items@[k as int].0 as int;
                    assert(texts(old(self).current.items@)[idx] == id@);
                }
                res
            },
            None => Err(DotViewerError::ViewerError(String::from_str("no node selected"))),
        }
    }

    /// The id of the selected node.
    pub fn current_id(&self) -> (res: String)
        requires
            self.wf(),
        ensures
            res@ == texts(self.current.items@)[self.selected_index()],
    {
        let i = match self.current.state {
            Some(i) => i,
            None => 0,
        };
        self.current.items[i].clone()
    }

    /// The id of the node of the selected match, if a match is selected.
    pub fn matched_id(&self) -> (res: Option<String>)
        requires
            self.wf(),
        ensures
            self.matches.state is None ==> res is None,
            self.matches.state matches Some(k) ==> (res matches Some(id)
                && id@ == texts(self.current.items@)[self.matches.items@[k as int].0 as int]),
    {
        match self.matches.state {
            Some(k) => {
                let idx = self.matches.items[k].0;
                Some(self.current.items[idx].clone())
            },
            None => None,
        }
    }

    /// Searches the node ids for `key` with the fuzzy matcher.
    pub fn update_fuzzy(&mut self, key: &str)
        requires
            old(self).wf(),
        ensures
            final(self).wf(),
            final(self).key@ == key@,
            matches_view(final(self).matches.items@) == fuzzy_matches(texts(old(self).current.items@), key@, old(self).current.items@.len()),
            fresh(final(self).matches),
            final(self).current == old(self).current,
            final(self).prevs == old(self).prevs,
            final(self).nexts == old(self).nexts,
            final(self).graph == old(self).graph,
            final(self).trie == old(self).trie,
            final(self).title == old(self).title,
            final(self).focus == old(self).focus,
    {
        let ghost ids = texts(self.current.items@);
        let mut found: Vec<(usize, Vec<usize>)> = Vec::new();
        for idx in 0..self.current.items.len()
            invariant
                ids == texts(self.current.items@),
                matches_view(found@) == fuzzy_matches(ids, key@, idx as nat),
                forall|k: int| 0 <= k < found@.len() ==> (#[trigger] found@[k]).0 < idx,
        {
            let ghost before = found@;
            match fuzzy_indices(self.current.items[idx].as_str(), key) {
                Some(h) => {
                    found.push((idx, h));
                    assert(matches_view(found@) =~= matches_view(before).push((idx, h@)));
                },
                None => {},
            }
        }
        self.key = String::from_str(key);
        self.matches = List::from_vec(found);
    }

    /// Searches the nodes' dot texts for the regular expression `key`; a match highlights the
    /// whole id. An invalid expression matches nothing.
    pub fn update_regex(&mut self, key: &str)
        requires
            old(self).wf(),
        ensures
            final(self).wf(),
            final(self).key@ == key@,
            matches_view(final(self).matches.items@) == regex_matches(texts(old(self).current.items@), texts(old(self).graph.dots@), key@, old(self).current.items@.len()),
            fresh(final(self).matches),
            final(self).current == old(self).current,
            final(self).prevs == old(self).prevs,
            final(self).nexts == old(self).nexts,
            final(self).graph == old(self).graph,
            final(self).trie == old(self).trie,
            final(self).title == old(self).title,
            final(self).focus == old(self).focus,
    {
        let ghost ids = texts(self.current.items@);
        let ghost dots = texts(self.graph.dots@);
        assert(texts(self.current.items@).len() == texts(self.graph.ids@).len());
        let mut found: Vec<(usize, Vec<usize>)> = Vec::new();
        for idx in 0..self.current.items.len()
            invariant
                ids == texts(self.current.items@),
                dots == texts(self.graph.dots@),
                self.graph.dots@.len() == self.current.items@.len(),
                matches_view(found@) == regex_matches(ids, dots, key@, idx as nat),
                forall|k: int| 0 <= k < found@.len() ==> (#[trigger] found@[k]).0 < idx,
        {
            let ghost before = found@;
            if regex_is_match(key, self.graph.dots[idx].as_str()) == Some(true) {
                let h = indices(string_byte_len(&self.current.items[idx]));
                found.push((idx, h));
                assert(matches_view(found@) =~= matches_view(before).push((idx, upto(byte_len(ids[idx as int]) as nat))));
            }
        }
        self.key = String::from_str(key);
        self.matches = List::from_vec(found);
    }

    /// Keeps the nodes whose id starts with `key`.
    pub fn update_filter(&mut self, key: &str)
        requires
            old(self).wf(),
        ensures
            final(self).wf(),
            final(self).key@ == key@,
            matches_view(final(self).matches.items@) == prefix_matches(texts(old(self).current.items@), key@, old(self).current.items@.len()),
            fresh(final(self).matches),
            final(self).current == old(self).current,
            final(self).prevs == old(self).prevs,
            final(self).nexts == old(self).nexts,
            final(self).graph == old(self).graph,
            final(self).trie == old(self).trie,
            final(self).title == old(self).title,
            final(self).focus == old(self).focus,
    {
        let ghost ids = texts(self.current.items@);
        let key_text = String::from_str(key);
        let key_len = string_byte_len(&key_text);
        let mut found: Vec<(usize, Vec<usize>)> = Vec::new();
        for idx in 0..self.current.items.len()
            invariant
                ids == texts(self.current.items@),
                key_len == byte_len(key@),
                matches_view(found@) == prefix_matches(ids, key@, idx as nat),
                forall|k: int| 0 <= k < found@.len() ==> (#[trigger] found@[k]).0 < idx,
        {
            let ghost before = found@;
            if starts_with(self.current.items[idx].as_str(), key) {
                let h = indices(key_len);
                found.push((idx, h));
                assert(matches_view(found@) =~= matches_view(before).push((idx, upto(byte_len(key@) as nat))));
            }
        }
        self.key = key_text;
        self.matches = List::from_vec(found);
    }

    /// Completion over the ids of the matching nodes.
    pub fn update_trie(&mut self)
        requires
            old(self).wf(),
        ensures
            final(self).wf(),
            texts(final(self).trie.items@) == matched_ids(texts(old(self).current.items@), old(self).matches.items@),
            final(self).current == old(self).current,
            final(self).matches == old(self).matches,
            final(self).graph == old(self).graph,
            final(self).title == old(self).title,
            final(self).focus == old(self).focus,
            final(self).prevs == old(self).prevs,
            final(self).nexts == old(self).nexts,
            final(self).key == old(self).key,
    {
        let ghost ids = texts(self.current.items@);
        let mut nodes: Vec<String> = Vec::new();
        for k in 0..self.matches.items.len()
            invariant
                ids == texts(self.current.items@),
                forall|q: int| 0 <= q < self.matches.items@.len() ==> (#[trigger] self.matches.items@[q]).0 < self.current.items@.len(),
                texts(nodes@) == matched_ids(ids, self.matches.items@.take(k as int)),
        {
            let idx = self.matches.items[k].0;
            let ghost before = nodes@;
            nodes.push(self.current.items[idx].clone());
            assert(self.matches.items@.take(k + 1).drop_last() =~= self.matches.items@.take(k as int));
            assert(texts(nodes@) =~= texts(before).push(ids[idx as int]));
        }
        assert(self.matches.items@.take(self.matches.items@.len() as int) =~= self.matches.items@);
        self.trie = Trie::new(&nodes);
    }

    /// The longest completion of `key` among the matching nodes.
    pub fn autocomplete(&self, key: &str) -> (res: Option<String>)
        requires
            self.wf(),
            key@.len() == 0 ==> cut_ok(texts(self.trie.items@)),
            key@.len() > 0 ==> forall|l: Seq<Seq<char>>| lists_sorted(l, completions(texts(self.trie.items@), key@)) ==> #[trigger] cut_ok(l),
        ensures
            key@.len() == 0 ==> opt_text(res) == prefix_of(texts(self.trie.items@)),
            key@.len() > 0 ==> exists|l: Seq<Seq<char>>| lists_sorted(l, completions(texts(self.trie.items@), key@))
                && opt_text(res) == #[trigger] prefix_of(l),
    {
        self.trie.autocomplete(key)
    }

    /// The ids of the matching nodes, which a filter keeps.
    pub fn filter_ids(&self) -> (res: Vec<String>)
        requires
            self.wf(),
        ensures
            texts(res@) == matched_ids(texts(self.current.items@), self.matches.items@),
    {
        let ghost ids = texts(self.current.items@);
        let mut nodes: Vec<String> = Vec::new();
        for k in 0..self.matches.items.len()
            invariant
                ids == texts(self.current.items@),
                forall|q: int| 0 <= q < self.matches.items@.len() ==> (#[trigger] self.matches.items@[q]).0 < self.current.items@.len(),
                texts(nodes@) == matched_ids(ids, self.matches.items@.take(k as int)),
        {
            let idx = self.matches.items[k].0;
            let ghost before = nodes@;
            nodes.push(self.current.items[idx].clone());
            assert(self.matches.items@.take(k + 1).drop_last() =~= self.matches.items@.take(k as int));
            assert(texts(nodes@) =~= texts(before).push(ids[idx as int]));
        }
        assert(self.matches.items@.take(self.matches.items@.len() as int) =~= self.matches.items@);
        nodes
    }

    /// The view of the graph the filter kept, titled after this view and the search keyword;
    /// an empty graph is refused.
    pub fn filtered(&self, graph: GraphModel) -> (res: Result<View, DotViewerError>)
        requires
            graph.wf(),
        ensures
            graph.ids.len() == 0 <==> res is Err,
            res matches Err(e) ==> (e matches DotViewerError::ViewerError(m) && m@ == "no match for keyword "@ + self.key@),
            res matches Ok(v) ==> v.wf() && v.graph == graph && v.title@ == self.title@ + " - "@ + self.key@,
    {
        if graph.ids.len() == 0 {
            let mut m = String::from_str("no match for keyword ");
            m.append(self.key.as_str());
            return Err(DotViewerError::ViewerError(m));
        }
        let mut title = self.title.clone();
        title.append(" - ");
        title.append(self.key.as_str());
        Ok(View::new(title, graph))
    }

    /// The view of the subgraph `key` of this view's graph; an empty one is refused.
    pub fn subgraph_view(&self, key: &str, graph: GraphModel) -> (res: Result<View, DotViewerError>)
        requires
            graph.wf(),
        ensures
            graph.ids.len() == 0 <==> res is Err,
            res matches Err(e) ==> (e matches DotViewerError::ViewerError(m) && m@ == "empty graph"@),
            res matches Ok(v) ==> v.wf() && v.graph == graph && v.title@ == self.title@ + " - "@ + key@,
    {
        if graph.ids.len() == 0 {
            return Err(DotViewerError::ViewerError(String::from_str("empty graph")));
        }
        let mut title = self.title.clone();
        title.append(" - ");
        title.append(key);
        Ok(View::new(title, graph))
    }

    /// The view of the neighbors of the selected node within `depth`; an empty graph is
    /// refused.
    pub fn neighbors_view(&self, depth: usize, graph: GraphModel) -> (res: Result<View, DotViewerError>)
        requires
            self.wf(),
            graph.wf(),
        ensures
            graph.ids.len() == 0 <==> res is Err,
            res matches Err(e) ==> (e matches DotViewerError::ViewerError(m) && m@ == "cannot define a neighbors graph"@),
            res matches Ok(v) ==> v.wf() && v.graph == graph && v.title@ == self.title@ + " - neighbors-"@
                + texts(self.current.items@)[self.selected_index()] + "-"@ + decimal(depth as nat),
    {
        if graph.ids.len() == 0 {
            return Err(DotViewerError::ViewerError(String::from_str("cannot define a neighbors graph")));
        }
        let id = self.current_id();
        let mut title = self.title.clone();
        title.append(" - neighbors-");
        title.append(id.as_str());
        title.append("-");
        push_decimal(&mut title, depth as u64);
        Ok(View::new(title, graph))
    }
}

/// The ids of the matched nodes, in the order of the matches.
pub open spec fn matched_ids(ids: Seq<Seq<char>>, m: Seq<(usize, Vec<usize>)>) -> Seq<Seq<char>>
    decreases m.len(),
{
    if m.len() == 0 {
        Seq::empty()
    } else {
        matched_ids(ids, m.drop_last()).push(ids[m.last().0 as int])
    }
}

/// The indices `0..n`.
fn indices(n: usize) -> (res: Vec<usize>)
    ensures
        res@ == upto(n as nat),
{
    let mut res: Vec<usize> = Vec::new();
    for i in 0..n
        invariant
            res@ == upto(i as nat),
    {
        res.push(i);
        assert(res@ =~= upto((i + 1) as nat));
    }
    res
}

/// Copies of a list of strings.
pub fn clone_strings(v: &Vec<String>) -> (res: Vec<String>)
    ensures
        texts(res@) == texts(v@),
        res@ == v@,
{
    let mut res: Vec<String> = Vec::new();
    for i in 0..v.len()
        invariant
            res@ == v@.take(i as int),
    {
        let s = v[i].clone();
        res.push(s);
        assert(res@ =~= v@.take(i + 1));
    }
    assert(v@.take(v.len() as int) =~= v@);
    res
}

} // verus!
