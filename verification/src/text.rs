//! Small text helpers: decimal numbers and centered fields, as the `{}` and `{: ^n}`
//! formats print them.
use vstd::prelude::*;
use vstd::string::*;
use crate::viewer::command::{digits_value, is_digit, usize_of};

verus! {

/// The decimal digit for `d` (below ten).
pub open spec fn digit(d: int) -> char {
    if d == 0 { '0' } else if d == 1 { '1' } else if d == 2 { '2' } else if d == 3 { '3' }
    else if d == 4 { '4' } else if d == 5 { '5' } else if d == 6 { '6' } else if d == 7 { '7' }
    else if d == 8 { '8' } else { '9' }
}

/// Decimal digits of a natural number, without leading zeros.
pub open spec fn decimal(n: nat) -> Seq<char>
    decreases n,
{
    if n < 10 {
        seq![digit(n as int)]
    } else {
        decimal(n / 10) + seq![digit((n % 10) as int)]
    }
}

/// Decimal text of an integer, with a leading minus sign for negatives.
pub open spec fn signed_decimal(n: int) -> Seq<char> {
    if n < 0 {
        seq!['-'] + decimal((-n) as nat)
    } else {
        decimal(n as nat)
    }
}

/// `n` spaces.
pub open spec fn spaces(n: nat) -> Seq<char> {
    Seq::new(n, |i: int| ' ')
}

/// `s` centered in a field of `width` characters, the extra space going to the right.
pub open spec fn centered(s: Seq<char>, width: nat) -> Seq<char> {
    if s.len() >= width {
        s
    } else {
        let pad = (width - s.len()) as nat;
        spaces(pad / 2) + s + spaces((pad - pad / 2) as nat)
    }
}


/// The digit for `d` is the character whose code is `'0'` plus `d`.
proof fn lemma_digit_code(d: int)
    requires
        0 <= d < 10,
    ensures
        is_digit(digit(d)),
        (digit(d) as u32) - 48 == d,
{
}

/// The decimal text of `n` is made of ASCII digits and reads back, most significant digit
/// first, as `n`; it has no leading zero.
pub proof fn lemma_decimal_reads_back(n: nat)
    ensures
        decimal(n).len() > 0,
        forall|i: int| 0 <= i < decimal(n).len() ==> is_digit(#[trigger] decimal(n)[i]),
        digits_value(decimal(n)) == n,
        n > 0 ==> decimal(n)[0] != '0',
    decreases n,
{
    if n < 10 {
        lemma_digit_code(n as int);
        let t = decimal(n);
        assert(t.drop_last() =~= Seq::<char>::empty());
        assert(digits_value(t) == digits_value(t.drop_last()) * 10 + ((t.last() as u32) - 48) as nat);
        assert(digits_value(t.drop_last()) == 0);
    } else {
        lemma_decimal_reads_back(n / 10);
        lemma_digit_code((n % 10) as int);
        let h = decimal(n / 10);
        let t = decimal(n);
        assert(t.drop_last() =~= h);
        assert(t.last() == digit((n % 10) as int));
        assert(digits_value(t) == digits_value(h) * 10 + ((t.last() as u32) - 48) as nat);
        let q = n / 10;
        let r = n % 10;
        assert(q * 10 + r == n) by (nonlinear_arith)
            requires
                q == n / 10,
                r == n % 10,
        ;
        assert forall|i: int| 0 <= i < t.len() implies is_digit(#[trigger] t[i]) by {
            if i < h.len() {
                assert(t[i] == h[i]);
            }
        }
        assert(t[0] == h[0]);
    }
}

/// The decimal text of a `usize` is read back as that `usize`.
pub proof fn lemma_decimal_parses(n: usize)
    ensures
        usize_of(decimal(n as nat)) == Some(n),
{
    lemma_decimal_reads_back(n as nat);
    let t = decimal(n as nat);
    assert(is_digit(t[0]));
    assert(t[0] != '+');
}

fn digit_char(d: u8) -> (c: char)
    requires
        d < 10,
    ensures
        c == digit(d as int),
{
    if d == 0 { '0' } else if d == 1 { '1' } else if d == 2 { '2' } else if d == 3 { '3' }
    else if d == 4 { '4' } else if d == 5 { '5' } else if d == 6 { '6' } else if d == 7 { '7' }
    else if d == 8 { '8' } else { '9' }
}

/// Appends one character: `String::push`, which the standard library documents as
/// appending the given char to the end of the string.
#[verifier::external_body]
pub(crate) fn push_char(s: &mut String, c: char)
    ensures
        final(s)@ == old(s)@.push(c),
{
    s.push(c);
}

/// Appends the decimal text of `n`.
pub fn push_decimal(s: &mut String, n: u64)
    ensures
        final(s)@ == old(s)@ + decimal(n as nat),
    decreases n,
{
    if n < 10 {
        push_char(s, digit_char(n as u8));
        assert(decimal(n as nat) =~= seq![digit(n as int)]);
    } else {
        push_decimal(s, n / 10);
        push_char(s, digit_char((n % 10) as u8));
        assert(decimal(n as nat) =~= decimal((n / 10) as nat) + seq![digit((n % 10) as int)]);
    }
}

/// Appends the decimal text of `n`, signed.
pub fn push_signed_decimal(s: &mut String, n: i64)
    requires
        n > i64::MIN,
    ensures
        final(s)@ == old(s)@ + signed_decimal(n as int),
{
    if n < 0 {
        push_char(s, '-');
        push_decimal(s, (-n) as u64);
        assert(old(s)@.push('-') + decimal((-n) as nat) =~= old(s)@ + signed_decimal(n as int));
    } else {
        push_decimal(s, n as u64);
    }
}

/// Appends `n` spaces.
pub fn push_spaces(s: &mut String, n: usize)
    ensures
        final(s)@ == old(s)@ + spaces(n as nat),
{
    let ghost start = s@;
    for i in 0..n
        invariant
            s@ == start + spaces(i as nat),
    {
        push_char(s, ' ');
        assert(start + spaces((i + 1) as nat) =~= (start + spaces(i as nat)).push(' '));
    }
}

/// Appends `text` centered in a field of `width` characters.
pub fn push_centered(s: &mut String, text: &str, width: usize)
    ensures
        final(s)@ == old(s)@ + centered(text@, width as nat),
{
    let len = text.unicode_len();
    if len >= width {
        s.append(text);
    } else {
        let pad = width - len;
        push_spaces(s, pad / 2);
        s.append(text);
        push_spaces(s, pad - pad / 2);
        assert(s@ =~= old(s)@ + centered(text@, width as nat));
    }
}

} // verus!
