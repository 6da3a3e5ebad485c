//! Splitting a line into whitespace-separated words, with Unicode's notion of whitespace.
use vstd::prelude::*;
use vstd::string::*;

verus! {

/// Unicode's `White_Space` characters.
pub open spec fn is_space(c: char) -> bool {
    ('\u{9}' <= c <= '\u{d}') || c == ' ' || c == '\u{85}' || c == '\u{a0}' || c == '\u{1680}'
        || ('\u{2000}' <= c <= '\u{200a}') || c == '\u{2028}' || c == '\u{2029}' || c == '\u{202f}'
        || c == '\u{205f}' || c == '\u{3000}'
}

/// Whether `c` is whitespace.
pub fn space(c: char) -> (b: bool)
    ensures
        b == is_space(c),
{
    ('\u{9}' <= c && c <= '\u{d}') || c == ' ' || c == '\u{85}' || c == '\u{a0}' || c == '\u{1680}'
        || ('\u{2000}' <= c && c <= '\u{200a}') || c == '\u{2028}' || c == '\u{2029}' || c == '\u{202f}'
        || c == '\u{205f}' || c == '\u{3000}'
}

/// The maximal runs of non-whitespace characters of `s`, in order.
pub open spec fn words(s: Seq<char>) -> Seq<Seq<char>>
    decreases s.len(),
{
    if s.len() == 0 {
        Seq::empty()
    } else if is_space(s.last()) {
        words(s.drop_last())
    } else if s.len() >= 2 && !is_space(s[s.len() - 2]) {
        let w = words(s.drop_last());
        w.update(w.len() - 1, w.last().push(s.last()))
    } else {
        words(s.drop_last()).push(seq![s.last()])
    }
}

/// Views of a list of string slices.
pub open spec fn slice_texts<'a>(v: Seq<&'a str>) -> Seq<Seq<char>> {
    v.map_values(|s: &'a str| s@)
}

/// A text that ends with a word has at least one word, the last of which is the run of
/// non-whitespace at its end.
proof fn lemma_words_last(s: Seq<char>, st: int)
    requires
        0 <= st < s.len(),
        st == 0 || is_space(s[st - 1]),
        forall|m: int| st <= m < s.len() ==> !is_space(#[trigger] s[m]),
    ensures
        words(s).len() == words(s.take(st)).len() + 1,
        words(s).take(words(s).len() - 1) == words(s.take(st)),
        words(s).last() == s.subrange(st, s.len() as int),
    decreases s.len(),
{
    let d = s.drop_last();
    assert(s.last() == s[s.len() - 1]);
    if s.len() - 1 == st {
        assert(d =~= s.take(st));
        assert(s.subrange(st, s.len() as int) =~= seq![s.last()]);
        assert(words(s).take(words(s).len() - 1) =~= words(s.take(st)));
    } else {
        lemma_words_last(d, st);
        assert(d.take(st) =~= s.take(st));
        assert(d[d.len() - 1] == s[s.len() - 2]);
        assert(s.subrange(st, s.len() as int) =~= d.subrange(st, d.len() as int).push(s.last()));
        let w = words(d);
        assert(words(s).take(words(s).len() - 1) =~= w.take(w.len() - 1));
    }
}

/// Every word is non-empty and holds no whitespace.
pub proof fn lemma_words_are_words(s: Seq<char>)
    ensures
        forall|i: int| 0 <= i < words(s).len() ==> (#[trigger] words(s)[i]).len() > 0
            && forall|j: int| 0 <= j < words(s)[i].len() ==> !is_space(#[trigger] words(s)[i][j]),
    decreases s.len(),
{
    if s.len() > 0 {
        lemma_words_are_words(s.drop_last());
        let w = words(s.drop_last());
        if !is_space(s.last()) && s.len() >= 2 && !is_space(s[s.len() - 2]) {
            assert(w.len() > 0) by {
                lemma_words_nonempty_end(s.drop_last());
            }
            let last = w.last().push(s.last());
            assert forall|i: int| 0 <= i < words(s).len() implies (#[trigger] words(s)[i]).len() > 0
                && forall|j: int| 0 <= j < words(s)[i].len() ==> !is_space(#[trigger] words(s)[i][j]) by {
                if i == w.len() - 1 {
                    assert(words(s)[i] == last);
                    assert forall|j: int| 0 <= j < last.len() implies !is_space(#[trigger] last[j]) by {
                        if j < w.last().len() {
                            assert(last[j] == w[w.len() - 1][j]);
                        }
                    }
                } else {
                    assert(words(s)[i] == w[i]);
                }
            }
        } else if !is_space(s.last()) {
            assert forall|i: int| 0 <= i < words(s).len() implies (#[trigger] words(s)[i]).len() > 0
                && forall|j: int| 0 <= j < words(s)[i].len() ==> !is_space(#[trigger] words(s)[i][j]) by {
                if i < w.len() {
                    assert(words(s)[i] == w[i]);
                } else {
                    assert(words(s)[i] == seq![s.last()]);
                }
            }
        }
    }
}

/// A text that ends with a non-whitespace character has a word.
proof fn lemma_words_nonempty_end(s: Seq<char>)
    requires
        s.len() > 0,
        !is_space(s.last()),
    ensures
        words(s).len() > 0,
    decreases s.len(),
{
    if s.len() >= 2 && !is_space(s[s.len() - 2]) {
        let d = s.drop_last();
        assert(d.last() == s[s.len() - 2]);
        lemma_words_nonempty_end(d);
    }
}

/// The words of `s`, as slices of it.
pub fn split_whitespace<'a>(s: &'a str) -> (res: Vec<&'a str>)
    ensures
        slice_texts(res@) == words(s@),
{
    let n = s.unicode_len();
    let mut out: Vec<&'a str> = Vec::new();
    let mut in_word = false;
    let mut st: usize = 0;
    let mut i: usize = 0;
    while i < n
        invariant
            n == s@.len(),
            i <= n,
            st <= i,
            !in_word ==> slice_texts(out@) == words(s@.take(i as int)),
            !in_word ==> (i == 0 || is_space(s@[i - 1])),
            in_word ==> st < i && (st == 0 || is_space(s@[st - 1]))
                && slice_texts(out@) == words(s@.take(st as int))
                && forall|m: int| st <= m < i ==> !is_space(#[trigger] s@[m]),
        decreases n - i,
    {
        let c = s.get_char(i);
        let ghost t = s@.take(i as int + 1);
        proof {
            assert(t.drop_last() =~= s@.take(i as int));
            assert(t.last() == c);
        }
        if space(c) {
            if in_word {
                let w = s.substring_char(st, i);
                proof {
                    let pre = s@.take(i as int);
                    assert(pre.take(st as int) =~= s@.take(st as int));
                    lemma_words_last(pre, st as int);
                    assert(pre.subrange(st as int, i as int) =~= w@);
                    assert(words(pre) =~= words(s@.take(st as int)).push(w@));
                }
                out.push(w);
                proof {
                    assert(slice_texts(out@) =~= words(s@.take(i as int)));
                }
                in_word = false;
            }
            proof {
                assert(words(t) == words(s@.take(i as int)));
            }
        } else {
            if !in_word {
                st = i;
                in_word = true;
            }
        }
        i = i + 1;
        proof {
            assert(s@.take(i as int) =~= t);
        }
    }
    if in_word {
        let w = s.substring_char(st, n);
        proof {
            let all = s@.take(n as int);
            assert(all =~= s@);
            lemma_words_last(s@, st as int);
            assert(s@.subrange(st as int, n as int) =~= w@);
            assert(words(s@) =~= words(s@.take(st as int)).push(w@));
        }
        out.push(w);
        proof {
            assert(slice_texts(out@) =~= words(s@));
        }
    } else {
        proof {
            assert(s@.take(n as int) =~= s@);
        }
    }
    out
}

/// Whether two texts are equal, character by character.
pub fn same_text(a: &str, b: &str) -> (res: bool)
    ensures
        res == (a@ == b@),
{
    let n = a.unicode_len();
    if n != b.unicode_len() {
        return false;
    }
    let mut i: usize = 0;
    while i < n
        invariant
            n == a@.len(),
            n == b@.len(),
            i <= n,
            forall|j: int| 0 <= j < i ==> a@[j] == b@[j],
        decreases n - i,
    {
        if a.get_char(i) != b.get_char(i) {
            return false;
        }
        i = i + 1;
    }
    assert(a@ =~= b@);
    true
}

/// Whether `s` starts with `prefix`.
pub fn starts_with(s: &str, prefix: &str) -> (res: bool)
    ensures
        res == (prefix@.len() <= s@.len() && s@.take(prefix@.len() as int) == prefix@),
{
    let n = prefix.unicode_len();
    if n > s.unicode_len() {
        return false;
    }
    let mut i: usize = 0;
    while i < n
        invariant
            n == prefix@.len(),
            n <= s@.len(),
            i <= n,
            forall|j: int| 0 <= j < i ==> s@[j] == prefix@[j],
        decreases n - i,
    {
        if s.get_char(i) != prefix.get_char(i) {
            assert(s@.take(n as int)[i as int] != prefix@[i as int]);
            return false;
        }
        i = i + 1;
    }
    assert(s@.take(n as int) =~= prefix@);
    true
}

} // verus!
