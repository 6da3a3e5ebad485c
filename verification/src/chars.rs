//! Text as characters and as UTF-8 bytes: byte positions that fall between characters, and
//! editing a string at such a position.
use vstd::prelude::*;
use vstd::string::*;
use vstd::utf8::*;

verus! {

broadcast use vstd::utf8::encode_utf8_valid_utf8;

/// Number of UTF-8 bytes taken by the first `k` characters of `s`.
pub open spec fn byte_offset(s: Seq<char>, k: int) -> int {
    encode_utf8(s.take(k)).len() as int
}

/// Byte position `b` of the UTF-8 text of `s` lies between two characters (or at an end).
pub open spec fn char_boundary(s: Seq<char>, b: int) -> bool {
    exists|k: int| 0 <= k <= s.len() && #[trigger] byte_offset(s, k) == b
}

/// The index of the character that starts at byte position `b`.
pub open spec fn char_at_byte(s: Seq<char>, b: int) -> int {
    choose|k: int| 0 <= k <= s.len() && #[trigger] byte_offset(s, k) == b
}

/// Number of UTF-8 bytes of `s`.
pub open spec fn byte_len(s: Seq<char>) -> int {
    encode_utf8(s).len() as int
}

pub proof fn lemma_encode_concat(a: Seq<char>, b: Seq<char>)
    ensures
        encode_utf8(a + b) == encode_utf8(a) + encode_utf8(b),
    decreases a.len(),
{
    if a.len() == 0 {
        assert(a + b =~= b);
    } else {
        lemma_encode_concat(a.drop_first(), b);
        assert((a + b).drop_first() =~= a.drop_first() + b);
        assert((a + b)[0] == a[0]);
        assert(encode_utf8(a + b) =~= encode_utf8(a) + encode_utf8(b));
    }
}

/// Every character takes at least one byte.
pub proof fn lemma_encode_len(s: Seq<char>)
    ensures
        encode_utf8(s).len() >= s.len(),
    decreases s.len(),
{
    if s.len() > 0 {
        lemma_encode_len(s.drop_first());
    }
}

/// Offsets grow with the number of characters, up to the whole text.
pub proof fn lemma_byte_offset_increasing(s: Seq<char>, j: int, k: int)
    requires
        0 <= j < k <= s.len(),
    ensures
        byte_offset(s, j) < byte_offset(s, k),
        byte_offset(s, k) <= byte_len(s),
{
    let a = s.take(j);
    let m = s.subrange(j, k);
    let r = s.skip(k);
    assert(s.take(k) =~= a + m);
    assert(s =~= s.take(k) + r);
    lemma_encode_concat(a, m);
    lemma_encode_concat(s.take(k), r);
    lemma_encode_len(m);
}

/// A boundary starts exactly one character index.
pub proof fn lemma_char_at_byte(s: Seq<char>, k: int)
    requires
        0 <= k <= s.len(),
    ensures
        char_boundary(s, byte_offset(s, k)),
        char_at_byte(s, byte_offset(s, k)) == k,
{
    let b = byte_offset(s, k);
    assert(char_boundary(s, b));
    let c = char_at_byte(s, b);
    if c < k {
        lemma_byte_offset_increasing(s, c, k);
    } else if k < c {
        lemma_byte_offset_increasing(s, k, c);
    }
}

/// The byte view of the first character split off a text.
pub proof fn lemma_encode_first(s: Seq<char>)
    requires
        s.len() > 0,
    ensures
        length_of_first_scalar(encode_utf8(s)) == encode_scalar(s[0] as u32).len(),
        pop_first_scalar(encode_utf8(s)) == encode_utf8(s.drop_first()),
        encode_utf8(s).len() == encode_scalar(s[0] as u32).len() + encode_utf8(s.drop_first()).len(),
{
    encode_utf8_first_scalar(s);
    assert(pop_first_scalar(encode_utf8(s)) =~= encode_utf8(s.drop_first()));
}

/// The standard library's boundary test on the UTF-8 bytes of `s` agrees with
/// `char_boundary`.
pub proof fn lemma_char_boundary_bytes(s: Seq<char>, b: int)
    ensures
        is_char_boundary(encode_utf8(s), b) <==> char_boundary(s, b),
    decreases s.len(),
{
    let bytes = encode_utf8(s);
    if b == 0 {
        assert(byte_offset(s, 0) == 0) by {
            assert(s.take(0) =~= Seq::<char>::empty());
        }
    } else if b < 0 || bytes.len() < b {
        if char_boundary(s, b) {
            let k = char_at_byte(s, b);
            if k > 0 {
                lemma_byte_offset_increasing(s, 0, k);
            }
            assert(s.take(0) =~= Seq::<char>::empty());
            assert(s.take(s.len() as int) =~= s);
        }
    } else {
        lemma_encode_first(s);
        let rest = s.drop_first();
        let w = encode_scalar(s[0] as u32).len() as int;
        lemma_char_boundary_bytes(rest, b - w);
        assert forall|j: int| 0 <= j <= rest.len() implies #[trigger] byte_offset(s, j + 1) == w + byte_offset(rest, j) by {
            assert(s.take(j + 1) =~= seq![s[0]] + rest.take(j));
            lemma_encode_concat(seq![s[0]], rest.take(j));
            let one = seq![s[0]];
            assert(one.drop_first() =~= Seq::<char>::empty());
            assert(encode_utf8(Seq::<char>::empty()) =~= Seq::<u8>::empty());
            assert(encode_utf8(one) == encode_scalar(one[0] as u32) + encode_utf8(one.drop_first()));
            assert(encode_utf8(one) =~= encode_scalar(s[0] as u32));
        }
        if char_boundary(s, b) {
            let k = char_at_byte(s, b);
            if k == 0 {
                assert(s.take(0) =~= Seq::<char>::empty());
            }
            assert(byte_offset(s, (k - 1) + 1) == w + byte_offset(rest, k - 1));
            assert(char_boundary(rest, b - w));
        }
        if char_boundary(rest, b - w) {
            let j = char_at_byte(rest, b - w);
            assert(byte_offset(s, j + 1) == b);
        }
    }
}

/// Inserting a character adds its bytes and leaves the bytes before it in place.
pub proof fn lemma_insert_bytes(s: Seq<char>, k: int, c: char)
    requires
        0 <= k <= s.len(),
    ensures
        byte_len(s.insert(k, c)) == byte_len(s) + encode_scalar(c as u32).len(),
        byte_offset(s.insert(k, c), k) == byte_offset(s, k),
        byte_offset(s.insert(k, c), k + 1) == byte_offset(s, k) + encode_scalar(c as u32).len(),
        encode_scalar(c as u32).len() >= 1,
{
    let t = s.insert(k, c);
    let one = seq![c];
    assert(t =~= s.take(k) + one + s.skip(k));
    assert(s =~= s.take(k) + s.skip(k));
    assert(t.take(k) =~= s.take(k));
    assert(t.take(k + 1) =~= s.take(k) + one);
    lemma_encode_concat(s.take(k) + one, s.skip(k));
    lemma_encode_concat(s.take(k), one);
    lemma_encode_concat(s.take(k), s.skip(k));
    assert(one.drop_first() =~= Seq::<char>::empty());
    assert(encode_utf8(Seq::<char>::empty()) =~= Seq::<u8>::empty());
    assert(encode_utf8(one) == encode_scalar(one[0] as u32) + encode_utf8(one.drop_first()));
    assert(encode_utf8(one) =~= encode_scalar(c as u32));
    lemma_encode_len(one);
}

/// Removing a character takes its bytes away and leaves the bytes before it in place.
pub proof fn lemma_remove_bytes(s: Seq<char>, k: int)
    requires
        0 <= k < s.len(),
    ensures
        byte_len(s.remove(k)) == byte_len(s) - encode_scalar(s[k] as u32).len(),
        byte_offset(s.remove(k), k) == byte_offset(s, k),
{
    let t = s.remove(k);
    assert(t.insert(k, s[k]) =~= s);
    lemma_insert_bytes(t, k, s[k]);
}

/// A byte offset is never past the end of the text.
pub proof fn lemma_byte_offset_bound(s: Seq<char>, k: int)
    requires
        0 <= k <= s.len(),
    ensures
        0 <= byte_offset(s, k) <= byte_len(s),
{
    if k < s.len() {
        lemma_byte_offset_increasing(s, k, s.len() as int);
    }
    assert(s.take(s.len() as int) =~= s);
}

/// Typing a character at a boundary and deleting the character that then starts at the same
/// byte position gives the text back; that position is still a boundary after the insertion.
pub proof fn lemma_insert_then_remove(s: Seq<char>, b: int, c: char)
    requires
        char_boundary(s, b),
    ensures
        char_boundary(s.insert(char_at_byte(s, b), c), b),
        char_at_byte(s.insert(char_at_byte(s, b), c), b) == char_at_byte(s, b),
        s.insert(char_at_byte(s, b), c).remove(char_at_byte(s, b)) == s,
        b < byte_len(s.insert(char_at_byte(s, b), c)),
{
    let k = char_at_byte(s, b);
    let t = s.insert(k, c);
    lemma_insert_bytes(s, k, c);
    lemma_char_at_byte(t, k);
    lemma_byte_offset_bound(s, k);
    assert(t.remove(k) =~= s);
}

/// Inserts `c` at byte position `idx`: `String::insert`, which the standard library
/// documents as inserting a character at a byte position that lies on a char boundary
/// (and panicking elsewhere).
#[verifier::external_body]
pub(crate) fn string_insert(s: &mut String, idx: usize, c: char)
    requires
        char_boundary(old(s)@, idx as int),
    ensures
        final(s)@ == old(s)@.insert(char_at_byte(old(s)@, idx as int), c),
{
    s.insert(idx, c);
}

/// Removes the character that starts at byte position `idx` and returns it:
/// `String::remove`, which the standard library documents as removing the char at a byte
/// position (panicking when the position is at or past the end or not on a char boundary).
#[verifier::external_body]
pub(crate) fn string_remove(s: &mut String, idx: usize) -> (c: char)
    requires
        char_boundary(old(s)@, idx as int),
        idx < byte_len(old(s)@),
    ensures
        c == old(s)@[char_at_byte(old(s)@, idx as int)],
        final(s)@ == old(s)@.remove(char_at_byte(old(s)@, idx as int)),
{
    s.remove(idx)
}

/// Byte length of a string: `String::len`, documented as the length in bytes.
#[verifier::external_body]
pub(crate) fn string_byte_len(s: &String) -> (n: usize)
    ensures
        n == byte_len(s@),
{
    s.len()
}

/// Whether byte position `idx` of `s` lies between two characters.
pub fn is_boundary(s: &String, idx: usize) -> (b: bool)
    ensures
        b == char_boundary(s@, idx as int),
{
    proof {
        lemma_char_boundary_bytes(s@, idx as int);
    }
    s.as_str().is_char_boundary(idx)
}

} // verus!
