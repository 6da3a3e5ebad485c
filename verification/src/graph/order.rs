//! The order of node identifiers: byte-wise lexicographic order of their UTF-8
//! encoding, which is how `String` values are ordered.
use vstd::prelude::*;
use vstd::utf8::*;
use vstd::string::*;

verus! {

/// Result of comparing two identifiers.
#[derive(PartialEq, Eq, Structural, Clone, Copy, Debug)]
pub enum Order {
    Less,
    Equal,
    Greater,
}

/// Strict lexicographic order on byte sequences, starting the comparison at index `i`.
pub open spec fn bytes_lt_from(a: Seq<u8>, b: Seq<u8>, i: nat) -> bool
    decreases a.len() - i,
{
    if i >= a.len() {
        i < b.len()
    } else if i >= b.len() {
        false
    } else if a[i as int] != b[i as int] {
        a[i as int] < b[i as int]
    } else {
        bytes_lt_from(a, b, i + 1)
    }
}

/// Strict lexicographic order on byte sequences.
pub open spec fn bytes_lt(a: Seq<u8>, b: Seq<u8>) -> bool {
    bytes_lt_from(a, b, 0)
}

/// Strict order on identifiers (given by their characters): the byte-wise order of their
/// UTF-8 encodings.
pub open spec fn id_lt(a: Seq<char>, b: Seq<char>) -> bool {
    bytes_lt(encode_utf8(a), encode_utf8(b))
}

pub proof fn lemma_bytes_lt_from_irreflexive(a: Seq<u8>, i: nat)
    ensures
        !bytes_lt_from(a, a, i),
    decreases a.len() - i,
{
    if i < a.len() {
        lemma_bytes_lt_from_irreflexive(a, i + 1);
    }
}

pub proof fn lemma_bytes_lt_from_transitive(a: Seq<u8>, b: Seq<u8>, c: Seq<u8>, i: nat)
    requires
        bytes_lt_from(a, b, i),
        bytes_lt_from(b, c, i),
    ensures
        bytes_lt_from(a, c, i),
    decreases a.len() - i,
{
    if i < a.len() && i < b.len() && i < c.len() && a[i as int] == b[i as int] && b[i as int] == c[i as int] {
        lemma_bytes_lt_from_transitive(a, b, c, i + 1);
    }
}

/// Two sequences that are not ordered either way agree from index `i` on.
pub proof fn lemma_bytes_lt_from_total(a: Seq<u8>, b: Seq<u8>, i: nat)
    requires
        i <= a.len(),
        i <= b.len(),
        !bytes_lt_from(a, b, i),
        !bytes_lt_from(b, a, i),
    ensures
        a.len() == b.len(),
        forall|k: int| i <= k < a.len() ==> a[k] == b[k],
    decreases a.len() - i,
{
    if i < a.len() && i < b.len() {
        lemma_bytes_lt_from_total(a, b, i + 1);
    }
}

pub proof fn lemma_id_lt_irreflexive(a: Seq<char>)
    ensures
        !id_lt(a, a),
{
    lemma_bytes_lt_from_irreflexive(encode_utf8(a), 0);
}

pub proof fn lemma_id_lt_transitive(a: Seq<char>, b: Seq<char>, c: Seq<char>)
    requires
        id_lt(a, b),
        id_lt(b, c),
    ensures
        id_lt(a, c),
{
    lemma_bytes_lt_from_transitive(encode_utf8(a), encode_utf8(b), encode_utf8(c), 0);
}

pub proof fn lemma_id_lt_asymmetric(a: Seq<char>, b: Seq<char>)
    requires
        id_lt(a, b),
    ensures
        !id_lt(b, a),
{
    if id_lt(b, a) {
        lemma_id_lt_transitive(a, b, a);
        lemma_id_lt_irreflexive(a);
    }
}

/// Distinct identifiers are ordered one way or the other.
pub proof fn lemma_id_lt_total(a: Seq<char>, b: Seq<char>)
    ensures
        a == b || id_lt(a, b) || id_lt(b, a),
{
    if !id_lt(a, b) && !id_lt(b, a) {
        let ea = encode_utf8(a);
        let eb = encode_utf8(b);
        lemma_bytes_lt_from_total(ea, eb, 0);
        assert(ea =~= eb);
        encode_utf8_decode_utf8(a);
        encode_utf8_decode_utf8(b);
    }
}

/// Compares two identifiers by their UTF-8 bytes.
pub fn compare_ids(a: &str, b: &str) -> (res: Order)
    ensures
        res == Order::Less <==> id_lt(a@, b@),
        res == Order::Greater <==> id_lt(b@, a@),
        res == Order::Equal <==> a@ == b@,
{
    let x = a.as_bytes();
    let y = b.as_bytes();
    let ghost ea = encode_utf8(a@);
    let ghost eb = encode_utf8(b@);
    assert(x@ == ea);
    assert(y@ == eb);
    let mut i: usize = 0;
    proof {
        lemma_bytes_lt_from_irreflexive(ea, 0);
        lemma_id_lt_total(a@, b@);
        encode_utf8_decode_utf8(a@);
        encode_utf8_decode_utf8(b@);
        if id_lt(a@, b@) {
            lemma_id_lt_asymmetric(a@, b@);
        }
        if id_lt(b@, a@) {
            lemma_id_lt_asymmetric(b@, a@);
        }
    }
    loop
        invariant
            x@ == ea,
            y@ == eb,
            ea == encode_utf8(a@),
            eb == encode_utf8(b@),
            a@ == b@ <==> ea == eb,
            i <= x@.len(),
            i <= y@.len(),
            forall|k: int| 0 <= k < i ==> x@[k] == y@[k],
            !(id_lt(a@, b@) && id_lt(b@, a@)),
            id_lt(a@, b@) || id_lt(b@, a@) || a@ == b@,
            id_lt(a@, b@) == bytes_lt_from(ea, eb, i as nat),
            id_lt(b@, a@) == bytes_lt_from(eb, ea, i as nat),
        decreases x@.len() - i,
    {
        if i == x.len() {
            if i == y.len() {
                assert(ea =~= eb);
                return Order::Equal;
            } else {
                return Order::Less;
            }
        }
        if i == y.len() {
            return Order::Greater;
        }
        if x[i] < y[i] {
            return Order::Less;
        }
        if x[i] > y[i] {
            return Order::Greater;
        }
        i = i + 1;
    }
}

} // verus!
