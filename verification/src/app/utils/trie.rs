//! Autocompletion of node names: the names are kept in a prefix tree, and the typed text is
//! completed to the longest prefix that all the names it starts are sharing.
use vstd::prelude::*;
use vstd::string::*;
use vstd::utf8::*;
use trie_rs::{Trie as PrefixTree, TrieBuilder};
use crate::chars::{char_boundary, char_at_byte, is_boundary, lemma_char_at_byte, byte_offset};
use crate::graph::order::{bytes_lt, id_lt};
use crate::viewer::utils::input::texts;

verus! {

broadcast use vstd::utf8::encode_utf8_valid_utf8, vstd::utf8::encode_utf8_decode_utf8;

#[verifier::external_type_specification]
#[verifier::external_body]
#[verifier::reject_recursive_types(Label)]
pub struct ExPrefixTree<Label>(PrefixTree<Label>);

#[verifier::external_type_specification]
#[verifier::external_body]
#[verifier::reject_recursive_types(Label)]
pub struct ExTrieBuilder<Label>(TrieBuilder<Label>);

/// The paths of a builder's tree: the non-empty byte strings that lead from its root to a
/// node.
pub uninterp spec fn builder_paths(b: TrieBuilder<u8>) -> Set<Seq<u8>>;

/// The paths of a builder's tree whose node is marked as the end of a word.
pub uninterp spec fn builder_terminals(b: TrieBuilder<u8>) -> Set<Seq<u8>>;

/// The words that a prefix tree holds.
pub uninterp spec fn trie_words(t: PrefixTree<u8>) -> Set<Seq<u8>>;

/// `p` is a prefix of `w`.
pub open spec fn is_prefix(p: Seq<u8>, w: Seq<u8>) -> bool {
    p.len() <= w.len() && w.take(p.len() as int) == p
}

/// The words a builder marks as complete: a non-empty pushed word such that no word pushed
/// before it starts with it (a word whose path already exists is not marked).
pub open spec fn terminal_words(ws: Seq<Seq<u8>>) -> Set<Seq<u8>> {
    Set::new(|w: Seq<u8>| w.len() > 0 && exists|i: int| 0 <= i < ws.len() && ws[i] == w
        && forall|j: int| 0 <= j < i ==> !is_prefix(w, #[trigger] ws[j]))
}

/// The non-empty prefixes of `w`.
pub open spec fn nonempty_prefixes(w: Seq<u8>) -> Set<Seq<u8>> {
    Set::new(|p: Seq<u8>| p.len() > 0 && is_prefix(p, w))
}

/// The non-empty prefixes of the words of `ws`.
pub open spec fn prefix_paths(ws: Seq<Seq<u8>>) -> Set<Seq<u8>> {
    Set::new(|p: Seq<u8>| p.len() > 0 && exists|j: int| 0 <= j < ws.len() && is_prefix(p, #[trigger] ws[j]))
}

/// The byte strings of a list.
pub open spec fn byte_words(v: Seq<Vec<u8>>) -> Seq<Seq<u8>> {
    v.map_values(|w: Vec<u8>| w@)
}

/// The words of `s` that start with `p`.
pub open spec fn with_prefix(s: Set<Seq<u8>>, p: Seq<u8>) -> Set<Seq<u8>> {
    s.filter(|w: Seq<u8>| is_prefix(p, w))
}

/// `l` lists the set `s` in increasing byte order, each element once.
pub open spec fn lists_bytes_sorted(l: Seq<Seq<u8>>, s: Set<Seq<u8>>) -> bool {
    &&& forall|i: int, j: int| 0 <= i < j < l.len() ==> bytes_lt(#[trigger] l[i], #[trigger] l[j])
    &&& forall|w: Seq<u8>| l.contains(w) <==> s.contains(w)
}

/// An empty builder: `trie_rs::TrieBuilder::new`, a tree with its root alone.
#[verifier::external_body]
fn builder_new() -> (b: TrieBuilder<u8>)
    ensures
        builder_paths(b) == Set::<Seq<u8>>::empty(),
        builder_terminals(b) == Set::<Seq<u8>>::empty(),
{
    TrieBuilder::new()
}

/// Adds a word to a builder: `trie_rs::TrieBuilder::push`, with the word's UTF-8 bytes. The
/// push follows the word's bytes from the root, creating the nodes that are missing; only a
/// node created for the word's last byte is marked as the end of a word, so a word whose
/// path is already there (a repeated word, or the prefix of an earlier one) leaves the marks
/// as they were.
#[verifier::external_body]
fn builder_push(b: &mut TrieBuilder<u8>, word: &String)
    ensures
        builder_paths(*final(b)) == builder_paths(*old(b)).union(nonempty_prefixes(encode_utf8(word@))),
        builder_terminals(*final(b)) == (if encode_utf8(word@).len() > 0 && !builder_paths(*old(b)).contains(encode_utf8(word@)) { builder_terminals(*old(b)).insert(encode_utf8(word@)) } else { builder_terminals(*old(b)) }),
{
    b.push(word.as_bytes());
}

/// The prefix tree of a builder: `trie_rs::TrieBuilder::build`, which keeps each node's mark,
/// so its complete words are the marked paths of the builder.
#[verifier::external_body]
fn builder_build(b: &TrieBuilder<u8>) -> (t: PrefixTree<u8>)
    ensures
        trie_words(t) == builder_terminals(*b),
{
    b.build()
}

/// The words of the tree that start with `query`: `trie_rs::Trie::predictive_search`, which
/// walks the tree depth first with children in label order, so each word comes once and
/// the words come in increasing byte order. It panics on an empty query.
#[verifier::external_body]
fn predictive_search(t: &PrefixTree<u8>, query: &str) -> (res: Vec<Vec<u8>>)
    requires
        query@.len() > 0,
    ensures
        lists_bytes_sorted(byte_words(res@), with_prefix(trie_words(*t), encode_utf8(query@))),
{
    t.predictive_search(query.as_bytes())
}

/// The text of UTF-8 bytes: `std::str::from_utf8`, which refuses bytes that are not valid
/// UTF-8.
#[verifier::external_body]
fn utf8_text(bytes: &Vec<u8>) -> (res: Option<String>)
    ensures
        res is Some <==> valid_utf8(bytes@),
        res matches Some(s) ==> encode_utf8(s@) == bytes@,
{
    std::str::from_utf8(bytes.as_slice()).ok().map(|s| s.to_string())
}

/// The UTF-8 bytes of each text.
pub open spec fn encodings(items: Seq<Seq<char>>) -> Seq<Seq<u8>> {
    items.map_values(|s: Seq<char>| encode_utf8(s))
}

/// The names that complete `query`: complete words of the tree built from `items` that
/// start with the bytes of `query`.
pub open spec fn completions(items: Seq<Seq<char>>, query: Seq<char>) -> Set<Seq<char>> {
    Set::new(|c: Seq<char>| terminal_words(encodings(items)).contains(encode_utf8(c))
        && is_prefix(encode_utf8(query), encode_utf8(c)))
}

/// `l` lists the set `s` in increasing order, each element once.
pub open spec fn lists_sorted(l: Seq<Seq<char>>, s: Set<Seq<char>>) -> bool {
    &&& forall|i: int, j: int| 0 <= i < j < l.len() ==> id_lt(#[trigger] l[i], #[trigger] l[j])
    &&& forall|c: Seq<char>| l.contains(c) <==> s.contains(c)
}

/// Length, in characters, of the common prefix of all texts, at most the first text.
pub open spec fn common_from(strs: Seq<Seq<char>>, i: nat) -> nat
    decreases strs[0].len() - i,
{
    if strs.len() > 0 && i < strs[0].len() && forall|k: int| 0 <= k < strs.len() ==> i < (#[trigger] strs[k]).len() && strs[k][i as int] == strs[0][i as int] {
        common_from(strs, i + 1)
    } else {
        i
    }
}

pub open spec fn common_len(strs: Seq<Seq<char>>) -> nat {
    common_from(strs, 0)
}

/// The completion of a list of candidates: nothing for no candidate or an empty first one;
/// else the first candidate cut at the byte position given by the number of characters all
/// candidates share.
pub open spec fn prefix_of(strs: Seq<Seq<char>>) -> Option<Seq<char>> {
    if strs.len() == 0 || strs[0].len() == 0 {
        None
    } else {
        Some(strs[0].take(char_at_byte(strs[0], common_len(strs) as int)))
    }
}

/// The cut of `prefix_of` falls between two characters (it always does for ASCII names).
pub open spec fn cut_ok(strs: Seq<Seq<char>>) -> bool {
    strs.len() == 0 || strs[0].len() == 0 || char_boundary(strs[0], common_len(strs) as int)
}

/// The names, and their prefix tree.
pub struct Trie {
    pub items: Vec<String>,
    pub trie: PrefixTree<u8>,
}

/// Text `k` has, at index `j`, the character that the first text has there.
pub open spec fn agree(strs: Seq<Seq<char>>, k: int, j: int) -> bool {
    j < strs[k].len() && strs[k][j] == strs[0][j]
}

proof fn lemma_common_from(strs: Seq<Seq<char>>, i: nat)
    requires
        strs.len() > 0,
        i <= strs[0].len(),
        forall|k: int, j: int| 0 <= k < strs.len() && 0 <= j < i ==> #[trigger] agree(strs, k, j),
    ensures
        i <= common_from(strs, i) <= strs[0].len(),
        forall|k: int, j: int| 0 <= k < strs.len() && 0 <= j < common_from(strs, i) ==> #[trigger] agree(strs, k, j),
        common_from(strs, i) < strs[0].len() ==> exists|k: int| 0 <= k < strs.len() && (common_from(strs, i) >= (#[trigger] strs[k]).len()
            || strs[k][common_from(strs, i) as int] != strs[0][common_from(strs, i) as int]),
    decreases strs[0].len() - i,
{
    if i < strs[0].len() && forall|k: int| 0 <= k < strs.len() ==> i < (#[trigger] strs[k]).len() && strs[k][i as int] == strs[0][i as int] {
        assert(common_from(strs, i) == common_from(strs, i + 1));
        assert forall|k: int, j: int| 0 <= k < strs.len() && 0 <= j < i + 1 implies #[trigger] agree(strs, k, j) by {
            if j == i {
                assert(i < strs[k].len() && strs[k][i as int] == strs[0][i as int]);
            }
        }
        lemma_common_from(strs, (i + 1) as nat);
        let m = common_from(strs, i);
        assert forall|k: int, j: int| 0 <= k < strs.len() && 0 <= j < m implies #[trigger] agree(strs, k, j) by {
            assert(0 <= j < common_from(strs, (i + 1) as nat));
        }
    } else {
        assert(common_from(strs, i) == i);
    }
}

/// The first byte of a character's encoding is below 128 only for an ASCII character, whose
/// encoding is that byte alone.
proof fn lemma_first_byte(c: char)
    ensures
        encode_scalar(c as u32).len() >= 1,
        encode_scalar(c as u32)[0] < 128 ==> (c as u32) < 128 && encode_scalar(c as u32) == seq![(c as u32) as u8],
{
    let v = c as u32;
    if has_width_1_encoding(v) {
        assert((v & 0x7F) as u8 == v as u8) by (bit_vector)
            requires
                v <= 0x7F,
        ;
    } else if has_width_2_encoding(v) {
        assert(0xC0 | ((v >> 6) & 0x1F) as u8 >= 0xC0) by (bit_vector);
    } else if has_width_3_encoding(v) {
        assert(0xE0 | ((v >> 12) & 0x0F) as u8 >= 0xC0) by (bit_vector);
    } else {
        assert(0xF0 | ((v >> 18) & 0x7) as u8 >= 0xC0) by (bit_vector);
    }
}

/// A text whose bytes start the bytes of an ASCII text is ASCII and starts that text.
proof fn lemma_ascii_prefix(q: Seq<char>, c: Seq<char>)
    requires
        is_ascii_chars(c),
        is_prefix(encode_utf8(q), encode_utf8(c)),
    ensures
        is_ascii_chars(q),
        q.len() <= c.len(),
        c.take(q.len() as int) == q,
    decreases q.len(),
{
    if q.len() > 0 {
        let eq = encode_utf8(q);
        let ec = encode_utf8(c);
        is_ascii_chars_encode_utf8(c);
        lemma_first_byte(q[0]);
        assert(eq[0] == encode_scalar(q[0] as u32)[0]);
        assert(c.len() > 0);
        assert(eq[0] == ec[0]);
        assert(ec[0] == c[0] as u8);
        assert((c[0] as u32) < 128);
        assert(q[0] == c[0]) by {
            assert((q[0] as u32) as u8 == (c[0] as u32) as u8);
            assert((q[0] as u32) == (c[0] as u32));
            vstd::utf8::char_u32_cast(q[0], q[0] as u32);
            vstd::utf8::char_u32_cast(c[0], c[0] as u32);
        }
        let q1 = q.drop_first();
        let c1 = c.drop_first();
        assert(eq == seq![(q[0] as u32) as u8] + encode_utf8(q1));
        lemma_first_byte(c[0]);
        assert(ec == seq![(c[0] as u32) as u8] + encode_utf8(c1));
        assert(encode_utf8(c1).take(encode_utf8(q1).len() as int) =~= ec.take(eq.len() as int).drop_first());
        assert(eq.drop_first() =~= encode_utf8(q1));
        assert(is_ascii_chars(c1));
        lemma_ascii_prefix(q1, c1);
        assert(c.take(q.len() as int) =~= seq![c[0]] + c1.take(q1.len() as int));
        assert(q =~= seq![q[0]] + q1);
        assert forall|i: int| 0 <= i < q.len() implies '\0' <= #[trigger] q[i] <= '\u{7f}' by {
            if i > 0 {
                assert(q[i] == q1[i - 1]);
            }
        }
    }
}

/// Bytes and characters count alike in ASCII text.
proof fn lemma_ascii_offsets(s: Seq<char>, k: int)
    requires
        is_ascii_chars(s),
        0 <= k <= s.len(),
    ensures
        byte_offset(s, k) == k,
{
    assert(is_ascii_chars(s.take(k)));
    is_ascii_chars_encode_utf8(s.take(k));
}

/// All candidates agree on their first `n` characters, so at least `n` are shared.
proof fn lemma_common_at_least(strs: Seq<Seq<char>>, i: nat, n: nat)
    requires
        strs.len() > 0,
        i <= n <= strs[0].len(),
        forall|k: int, j: int| 0 <= k < strs.len() && 0 <= j < n ==> #[trigger] agree(strs, k, j),
    ensures
        common_from(strs, i) >= n,
    decreases n - i,
{
    if i < n {
        assert forall|k: int| 0 <= k < strs.len() implies i < (#[trigger] strs[k]).len() && strs[k][i as int] == strs[0][i as int] by {
            assert(agree(strs, k, i as int));
        }
        assert(common_from(strs, i) == common_from(strs, (i + 1) as nat));
        lemma_common_at_least(strs, (i + 1) as nat, n);
    } else {
        assert forall|k: int, j: int| 0 <= k < strs.len() && 0 <= j < i implies #[trigger] agree(strs, k, j) by {}
        lemma_common_from(strs, i);
    }
}

/// Among ASCII names, completing a typed text that some name starts with gives a completion
/// that starts with the typed text (and the completion's cut falls between characters).
pub proof fn lemma_completion_extends_query(items: Seq<Seq<char>>, query: Seq<char>, l: Seq<Seq<char>>)
    requires
        forall|i: int| 0 <= i < items.len() ==> is_ascii_chars(#[trigger] items[i]),
        lists_sorted(l, completions(items, query)),
        l.len() > 0,
    ensures
        cut_ok(l),
        prefix_of(l) matches Some(p) && query.len() <= p.len() && p.take(query.len() as int) == query,
{
    let s = completions(items, query);
    assert forall|k: int| 0 <= k < l.len() implies is_ascii_chars(#[trigger] l[k]) && query.len() <= l[k].len()
        && l[k].take(query.len() as int) == query by {
        assert(l.contains(l[k]));
        assert(s.contains(l[k]));
        let enc = encodings(items);
        let w = encode_utf8(l[k]);
        assert(terminal_words(enc).contains(w));
        let i = choose|i: int| 0 <= i < enc.len() && enc[i] == w
            && forall|j: int| 0 <= j < i ==> !is_prefix(w, #[trigger] enc[j]);
        assert(encode_utf8(items[i]) == w);
        assert(decode_utf8(encode_utf8(items[i])) == decode_utf8(w));
        assert(items[i] == l[k]);
        lemma_ascii_prefix(query, l[k]);
    }
    let n = query.len();
    assert forall|k: int, j: int| 0 <= k < l.len() && 0 <= j < n implies #[trigger] agree(l, k, j) by {
        assert(l[k].take(n as int)[j] == query[j]);
        assert(l[0].take(n as int)[j] == query[j]);
    }
    lemma_common_at_least(l, 0, n);
    lemma_common_from(l, 0);
    let m = common_len(l);
    lemma_ascii_offsets(l[0], m as int);
    lemma_char_at_byte(l[0], m as int);
    if l[0].len() > 0 {
        let p = l[0].take(char_at_byte(l[0], m as int));
        assert(p.take(n as int) =~= l[0].take(n as int));
    } else {
        assert(l.contains(l[0]));
        assert(terminal_words(encodings(items)).contains(encode_utf8(l[0])));
        assert(l[0] =~= Seq::<char>::empty());
        assert(encode_utf8(l[0]).len() == 0);
    }
}

/// Pushing a word adds its non-empty prefixes to the paths.
proof fn lemma_prefix_paths_push(ws: Seq<Seq<u8>>, w: Seq<u8>)
    ensures
        prefix_paths(ws.push(w)) == prefix_paths(ws).union(nonempty_prefixes(w)),
{
    let ws2 = ws.push(w);
    assert forall|p: Seq<u8>| prefix_paths(ws2).contains(p) <==> #[trigger] prefix_paths(ws).union(nonempty_prefixes(w)).contains(p) by {
        if prefix_paths(ws2).contains(p) {
            let j = choose|j: int| 0 <= j < ws2.len() && is_prefix(p, #[trigger] ws2[j]);
            if j < ws.len() {
                assert(ws2[j] == ws[j]);
            }
        }
        if prefix_paths(ws).contains(p) {
            let j = choose|j: int| 0 <= j < ws.len() && is_prefix(p, #[trigger] ws[j]);
            assert(ws2[j] == ws[j]);
        }
        if nonempty_prefixes(w).contains(p) {
            assert(ws2[ws.len() as int] == w);
        }
    }
    assert(prefix_paths(ws2) =~= prefix_paths(ws).union(nonempty_prefixes(w)));
}

/// Pushing a word marks it as complete when it is not empty and no earlier word starts with
/// it.
proof fn lemma_terminal_words_push(ws: Seq<Seq<u8>>, w: Seq<u8>)
    ensures
        terminal_words(ws.push(w)) == (if w.len() > 0 && !prefix_paths(ws).contains(w) { terminal_words(ws).insert(w) } else { terminal_words(ws) }),
{
    let ws2 = ws.push(w);
    let n = ws.len() as int;
    let fresh = w.len() > 0 && !prefix_paths(ws).contains(w);
    let rhs = if fresh { terminal_words(ws).insert(w) } else { terminal_words(ws) };
    assert forall|x: Seq<u8>| terminal_words(ws2).contains(x) <==> #[trigger] rhs.contains(x) by {
        if terminal_words(ws2).contains(x) {
            let i = choose|i: int| 0 <= i < ws2.len() && ws2[i] == x
                && forall|j: int| 0 <= j < i ==> !is_prefix(x, #[trigger] ws2[j]);
            if i < n {
                assert(ws2[i] == ws[i]);
                assert forall|j: int| 0 <= j < i implies !is_prefix(x, #[trigger] ws[j]) by {
                    assert(ws2[j] == ws[j]);
                }
                assert(terminal_words(ws).contains(x));
            } else {
                assert(x == w);
                if prefix_paths(ws).contains(w) {
                    let j = choose|j: int| 0 <= j < ws.len() && is_prefix(w, #[trigger] ws[j]);
                    assert(ws2[j] == ws[j]);
                    assert(false);
                }
            }
        }
        if rhs.contains(x) {
            if terminal_words(ws).contains(x) {
                let i = choose|i: int| 0 <= i < ws.len() && ws[i] == x
                    && forall|j: int| 0 <= j < i ==> !is_prefix(x, #[trigger] ws[j]);
                assert(ws2[i] == ws[i]);
                assert forall|j: int| 0 <= j < i implies !is_prefix(x, #[trigger] ws2[j]) by {
                    assert(ws2[j] == ws[j]);
                }
            } else {
                assert(fresh && x == w);
                assert(ws2[n] == w);
                assert forall|j: int| 0 <= j < n implies !is_prefix(x, #[trigger] ws2[j]) by {
                    assert(ws2[j] == ws[j]);
                    if is_prefix(w, ws[j]) {
                        assert(prefix_paths(ws).contains(w));
                    }
                }
            }
        }
    }
    assert(terminal_words(ws2) =~= rhs);
}

impl Trie {
    /// The tree holds the complete words of the names pushed in order.
    pub open spec fn wf(&self) -> bool {
        trie_words(self.trie) == terminal_words(encodings(texts(self.items@)))
    }

    /// The names, and their prefix tree.
    pub fn new(ids: &Vec<String>) -> (res: Trie)
        ensures
            texts(res.items@) == texts(ids@),
            res.wf(),
    {
        let mut items: Vec<String> = Vec::new();
        let mut builder = builder_new();
        for i in 0..ids.len()
            invariant
                texts(items@) == texts(ids@).take(i as int),
                builder_paths(builder) == prefix_paths(encodings(texts(items@))),
                builder_terminals(builder) == terminal_words(encodings(texts(items@))),
        {
            let ghost ws = encodings(texts(items@));
            let ghost w = encode_utf8(ids[i as int]@);
            builder_push(&mut builder, &ids[i]);
            items.push(ids[i].clone());
            assert(texts(items@) =~= texts(ids@).take(i + 1));
            assert(encodings(texts(items@)) =~= ws.push(w));
            proof {
                lemma_prefix_paths_push(ws, w);
                lemma_terminal_words_push(ws, w);
            }
        }
        assert(texts(ids@).take(ids.len() as int) =~= texts(ids@));
        let trie = builder_build(&builder);
        Trie { items, trie }
    }

    /// The names starting with the non-empty `query`, in increasing order.
    fn predict(&self, query: &str) -> (res: Vec<String>)
        requires
            self.wf(),
            query@.len() > 0,
        ensures
            lists_sorted(texts(res@), completions(texts(self.items@), query@)),
    {
        let words = predictive_search(&self.trie, query);
        let ghost enc = encodings(texts(self.items@));
        let ghost bw = byte_words(words@);
        proof {
            assert forall|a: int, b: int| 0 <= a < b < words@.len() implies bytes_lt(#[trigger] words@[a]@, #[trigger] words@[b]@) by {
                assert(bw[a] == words@[a]@ && bw[b] == words@[b]@);
            }
            assert forall|w: Seq<u8>| (exists|q: int| 0 <= q < words@.len() && #[trigger] words@[q]@ == w)
                <==> trie_words(self.trie).contains(w) && is_prefix(encode_utf8(query@), w) by {
                if exists|q: int| 0 <= q < words@.len() && #[trigger] words@[q]@ == w {
                    let q = choose|q: int| 0 <= q < words@.len() && #[trigger] words@[q]@ == w;
                    assert(bw[q] == w);
                    assert(bw.contains(w));
                }
                if trie_words(self.trie).contains(w) && is_prefix(encode_utf8(query@), w) {
                    assert(with_prefix(trie_words(self.trie), encode_utf8(query@)).contains(w));
                    assert(bw.contains(w));
                    let q = choose|q: int| 0 <= q < bw.len() && bw[q] == w;
                    assert(words@[q]@ == w);
                }
            }
        }
        let mut res: Vec<String> = Vec::new();
        for i in 0..words.len()
            invariant
                enc == encodings(texts(self.items@)),
                trie_words(self.trie) == terminal_words(enc),
                forall|a: int, b: int| 0 <= a < b < words@.len() ==> bytes_lt(#[trigger] words@[a]@, #[trigger] words@[b]@),
                forall|w: Seq<u8>| (exists|q: int| 0 <= q < words@.len() && #[trigger] words@[q]@ == w)
                    <==> trie_words(self.trie).contains(w) && is_prefix(encode_utf8(query@), w),
                res@.len() == i,
                forall|q: int| 0 <= q < i ==> encode_utf8(#[trigger] res@[q]@) == words@[q]@,
        {
            assert(trie_words(self.trie).contains(words@[i as int]@) && is_prefix(encode_utf8(query@), words@[i as int]@));
            let ghost w = words@[i as int]@;
            assert(valid_utf8(w)) by {
                let k = choose|k: int| 0 <= k < enc.len() && enc[k] == w
                    && forall|j: int| 0 <= j < k ==> !is_prefix(w, #[trigger] enc[j]);
                assert(enc[k] == encode_utf8(texts(self.items@)[k]));
            }
            let text = utf8_text(&words[i]);
            match text {
                Some(t) => res.push(t),
                None => {},
            }
        }
        let ghost l = texts(res@);
        proof {
            let s = completions(texts(self.items@), query@);
            assert forall|a: int, b: int| 0 <= a < b < l.len() implies id_lt(#[trigger] l[a], #[trigger] l[b]) by {
                assert(encode_utf8(res@[a]@) == words@[a]@ && encode_utf8(res@[b]@) == words@[b]@);
            }
            assert forall|c: Seq<char>| l.contains(c) <==> s.contains(c) by {
                if l.contains(c) {
                    let q = choose|q: int| 0 <= q < l.len() && l[q] == c;
                    assert(words@[q]@ == encode_utf8(c));
                }
                if s.contains(c) {
                    let w = encode_utf8(c);
                    assert(trie_words(self.trie).contains(w) && is_prefix(encode_utf8(query@), w));
                    let q = choose|q: int| 0 <= q < words@.len() && #[trigger] words@[q]@ == w;
                    assert(encode_utf8(l[q]) == w);
                    assert(decode_utf8(encode_utf8(l[q])) == decode_utf8(w));
                    assert(l[q] == c);
                }
            }
        }
        res
    }

    /// The longest completion of `query`: the common prefix of the names it starts (of all
    /// names when it is empty).
    pub fn autocomplete(&self, query: &str) -> (res: Option<String>)
        requires
            self.wf(),
            query@.len() == 0 ==> cut_ok(texts(self.items@)),
            query@.len() > 0 ==> forall|l: Seq<Seq<char>>| lists_sorted(l, completions(texts(self.items@), query@)) ==> #[trigger] cut_ok(l),
        ensures
            query@.len() == 0 ==> opt_text(res) == prefix_of(texts(self.items@)),
            query@.len() > 0 ==> exists|l: Seq<Seq<char>>| lists_sorted(l, completions(texts(self.items@), query@))
                && opt_text(res) == #[trigger] prefix_of(l),
    {
        let predictions = if query.unicode_len() == 0 {
            clone_texts(&self.items)
        } else {
            self.predict(query)
        };
        proof {
            if query@.len() > 0 {
                assert(cut_ok(texts(predictions@)));
            }
        }
        longest_common_prefix(&predictions)
    }

    /// Whether `autocomplete` can cut the completion of `query` between two characters.
    pub fn can_autocomplete(&self, query: &str) -> (res: bool)
        requires
            self.wf(),
        ensures
            res == (if query@.len() == 0 {
                cut_ok(texts(self.items@))
            } else {
                forall|l: Seq<Seq<char>>| lists_sorted(l, completions(texts(self.items@), query@)) ==> #[trigger] cut_ok(l)
            }),
    {
        if query.unicode_len() == 0 {
            cut_check(&self.items)
        } else {
            let p = self.predict(query);
            proof {
                assert forall|l: Seq<Seq<char>>| lists_sorted(l, completions(texts(self.items@), query@)) implies #[trigger] cut_ok(l) == cut_ok(texts(p@)) by {
                    lemma_sorted_listing_unique(l, texts(p@), completions(texts(self.items@), query@));
                }
            }
            cut_check(&p)
        }
    }
}

/// Two increasing listings of one set are equal.
proof fn lemma_sorted_listing_unique(a: Seq<Seq<char>>, b: Seq<Seq<char>>, s: Set<Seq<char>>)
    requires
        lists_sorted(a, s),
        lists_sorted(b, s),
    ensures
        a == b,
    decreases a.len() + b.len(),
{
    if a.len() == 0 {
        if b.len() > 0 {
            assert(b.contains(b[0]));
        }
        assert(a =~= b);
    } else if b.len() == 0 {
        assert(a.contains(a[0]));
    } else {
        assert(a.contains(a[0]) && b.contains(b[0]));
        let ia = choose|i: int| 0 <= i < a.len() && a[i] == b[0];
        let ib = choose|i: int| 0 <= i < b.len() && b[i] == a[0];
        if ia > 0 && ib > 0 {
            crate::graph::order::lemma_id_lt_asymmetric(a[0], a[ia]);
        }
        if ia > 0 && ib == 0 {
            crate::graph::order::lemma_id_lt_irreflexive(a[0]);
        }
        if ia == 0 && ib > 0 {
            crate::graph::order::lemma_id_lt_irreflexive(b[0]);
        }
        assert(a[0] == b[0]);
        let s1 = s.remove(a[0]);
        assert forall|c: Seq<char>| a.drop_first().contains(c) <==> s1.contains(c) by {
            if a.drop_first().contains(c) {
                let i = choose|i: int| 0 <= i < a.drop_first().len() && a.drop_first()[i] == c;
                assert(a[i + 1] == c);
                assert(id_lt(a[0], a[i + 1]));
                crate::graph::order::lemma_id_lt_irreflexive(c);
            }
            if s1.contains(c) {
                assert(a.contains(c));
                let i = choose|i: int| 0 <= i < a.len() && a[i] == c;
                assert(a.drop_first()[i - 1] == c);
            }
        }
        assert forall|c: Seq<char>| b.drop_first().contains(c) <==> s1.contains(c) by {
            if b.drop_first().contains(c) {
                let i = choose|i: int| 0 <= i < b.drop_first().len() && b.drop_first()[i] == c;
                assert(b[i + 1] == c);
                assert(id_lt(b[0], b[i + 1]));
                crate::graph::order::lemma_id_lt_irreflexive(c);
            }
            if s1.contains(c) {
                assert(b.contains(c));
                let i = choose|i: int| 0 <= i < b.len() && b[i] == c;
                assert(b.drop_first()[i - 1] == c);
            }
        }
        lemma_sorted_listing_unique(a.drop_first(), b.drop_first(), s1);
        assert(a.len() == b.len());
        assert forall|i: int| 0 <= i < a.len() implies a[i] == b[i] by {
            if i > 0 {
                assert(a[i] == a.drop_first()[i - 1]);
                assert(b[i] == b.drop_first()[i - 1]);
            }
        }
        assert(a =~= b);
    }
}

/// The text of an optional string.
pub open spec fn opt_text(s: Option<String>) -> Option<Seq<char>> {
    match s {
        Some(t) => Some(t@),
        None => None,
    }
}

fn clone_texts(v: &Vec<String>) -> (res: Vec<String>)
    ensures
        texts(res@) == texts(v@),
{
    let mut res: Vec<String> = Vec::new();
    for i in 0..v.len()
        invariant
            texts(res@) == texts(v@).take(i as int),
    {
        let ghost before = res@;
        let c = v[i].clone();
        res.push(c);
        assert(res@ == before.push(v@[i as int]));
        assert(texts(res@) =~= texts(before).push(v@[i as int]@));
        assert(texts(v@).take(i + 1) =~= texts(v@).take(i as int).push(v@[i as int]@));
    }
    assert(texts(v@).take(v.len() as int) =~= texts(v@));
    res
}

/// The characters of a text.
fn chars_of(s: &str) -> (res: Vec<char>)
    ensures
        res@ == s@,
{
    let n = s.unicode_len();
    let mut res: Vec<char> = Vec::new();
    for i in 0..n
        invariant
            n == s@.len(),
            res@ == s@.take(i as int),
    {
        res.push(s.get_char(i));
        assert(res@ =~= s@.take(i + 1));
    }
    assert(s@.take(n as int) =~= s@);
    res
}

/// Number of characters shared by all candidates, at most the first candidate.
fn common_count(strs: &Vec<String>) -> (m: usize)
    requires
        strs@.len() > 0,
    ensures
        m == common_len(texts(strs@)),
{
    let ghost t = texts(strs@);
    let mut table: Vec<Vec<char>> = Vec::new();
    for k in 0..strs.len()
        invariant
            t == texts(strs@),
            table@.len() == k,
            forall|q: int| 0 <= q < k ==> #[trigger] table@[q]@ == t[q],
    {
        table.push(chars_of(strs[k].as_str()));
    }
    let n = table[0].len();
    let mut i: usize = 0;
    proof {
        lemma_common_from(t, 0);
    }
    while i < n
        invariant
            t == texts(strs@),
            table@.len() == t.len(),
            t.len() > 0,
            forall|q: int| 0 <= q < t.len() ==> #[trigger] table@[q]@ == t[q],
            n == t[0].len(),
            i <= n,
            forall|k: int, j: int| 0 <= k < t.len() && 0 <= j < i ==> #[trigger] agree(t, k, j),
            common_from(t, 0) == common_from(t, i as nat),
        decreases n - i,
    {
        let c = table[0][i];
        let mut all = true;
        for k in 0..table.len()
            invariant
                table@.len() == t.len(),
                forall|q: int| 0 <= q < t.len() ==> #[trigger] table@[q]@ == t[q],
                i < t[0].len(),
                c == t[0][i as int],
                all <==> forall|q: int| 0 <= q < k ==> i < (#[trigger] t[q]).len() && t[q][i as int] == c,
        {
            if !(i < table[k].len() && table[k][i] == c) {
                all = false;
            }
        }
        if !all {
            assert(common_from(t, i as nat) == i);
            return i;
        }
        assert forall|k: int, j: int| 0 <= k < t.len() && 0 <= j < i + 1 implies #[trigger] agree(t, k, j) by {
            if j == i {
                assert(i < t[k].len() && t[k][i as int] == c);
            }
        }
        i = i + 1;
    }
    i
}

/// Whether the cut of `prefix_of` falls between two characters.
fn cut_check(strs: &Vec<String>) -> (res: bool)
    ensures
        res == cut_ok(texts(strs@)),
{
    if strs.len() == 0 || strs[0].as_str().unicode_len() == 0 {
        return true;
    }
    let m = common_count(strs);
    is_boundary(&strs[0], m)
}

/// The common prefix of the candidates, cut from the first one at the byte position given by
/// the number of characters they all share; nothing for no candidate or an empty first one.
pub fn longest_common_prefix(strs: &Vec<String>) -> (res: Option<String>)
    requires
        cut_ok(texts(strs@)),
    ensures
        opt_text(res) == prefix_of(texts(strs@)),
{
    if strs.len() == 0 || strs[0].as_str().unicode_len() == 0 {
        return None;
    }
    let m = common_count(strs);
    let s0 = strs[0].as_str();
    let k = char_index_of(&strs[0], m);
    Some(String::from_str(s0.substring_char(0, k)))
}

/// The index of the character that starts at byte position `b`.
fn char_index_of(s: &String, b: usize) -> (k: usize)
    requires
        char_boundary(s@, b as int),
    ensures
        k == char_at_byte(s@, b as int),
{
    let ghost k0 = char_at_byte(s@, b as int);
    let n = s.as_str().unicode_len();
    let mut k: usize = 0;
    let mut off: usize = 0;
    while k < n && off < b
        invariant
            n == s@.len(),
            0 <= k0 <= n,
            crate::chars::byte_offset(s@, k0) == b,
            k <= n,
            off == crate::chars::byte_offset(s@, k as int),
            k <= k0,
        decreases n - k,
    {
        let c = s.as_str().get_char(k);
        proof {
            let t = s@.take(k as int);
            crate::chars::lemma_insert_bytes(t, k as int, c);
            assert(t.insert(k as int, c) =~= s@.take(k + 1));
            assert(t.take(k as int) =~= t);
            assert(s@.take(k + 1).take(k + 1) =~= s@.take(k + 1));
            if k + 1 < k0 {
                crate::chars::lemma_byte_offset_increasing(s@, k as int + 1, k0);
            }
        }
        off = off + char_len(c);
        k = k + 1;
    }
    proof {
        if k < k0 {
            crate::chars::lemma_byte_offset_increasing(s@, k as int, k0);
        }
        lemma_char_at_byte(s@, k0);
    }
    k
}

/// Number of UTF-8 bytes of `c`.
fn char_len(c: char) -> (n: usize)
    ensures
        n == encode_scalar(c as u32).len(),
{
    let v = c as u32;
    if v < 0x80 {
        1
    } else if v < 0x800 {
        2
    } else if v < 0x10000 {
        3
    } else {
        4
    }
}

} // verus!
