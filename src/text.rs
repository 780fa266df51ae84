//! Character-level helpers shared by the textual formats.
use vstd::prelude::*;

verus! {

/// The decimal digits, in order.
pub open spec fn digit_chars() -> Seq<char> {
    seq!['0', '1', '2', '3', '4', '5', '6', '7', '8', '9']
}

pub open spec fn is_digit(c: char) -> bool {
    '0' <= c && c <= '9'
}

pub open spec fn digit_value(c: char) -> nat {
    (c as u32 - '0' as u32) as nat
}

/// The decimal text of `n`, with no leading zero.
pub open spec fn dec(n: nat) -> Seq<char>
    decreases n,
{
    if n < 10 {
        seq![digit_chars()[n as int]]
    } else {
        dec(n / 10).push(digit_chars()[(n % 10) as int])
    }
}

/// The value of a sequence of decimal digits.
pub open spec fn dec_value(s: Seq<char>) -> nat
    decreases s.len(),
{
    if s.len() == 0 {
        0
    } else {
        dec_value(s.drop_last()) * 10 + digit_value(s.last())
    }
}

pub proof fn lemma_digit_chars(d: nat)
    requires
        d < 10,
    ensures
        is_digit(digit_chars()[d as int]),
        digit_value(digit_chars()[d as int]) == d,
{
}

pub proof fn lemma_dec_digits(n: nat)
    ensures
        dec(n).len() >= 1,
        forall|i: int| 0 <= i < dec(n).len() ==> is_digit(#[trigger] dec(n)[i]),
        dec_value(dec(n)) == n,
    decreases n,
{
    if n < 10 {
        lemma_digit_chars(n);
        assert(dec(n).drop_last() =~= Seq::<char>::empty());
        assert(dec_value(Seq::<char>::empty()) == 0);
    } else {
        lemma_dec_digits(n / 10);
        lemma_digit_chars(n % 10);
        assert(dec(n).drop_last() =~= dec(n / 10));
        assert(dec(n).last() == digit_chars()[(n % 10) as int]);
        assert(n == (n / 10) * 10 + n % 10);
        assert(forall|i: int| 0 <= i < dec(n / 10).len() ==> dec(n)[i] == dec(n / 10)[i]);
    }
}

/// Relies on `str::chars`: the characters of the text, in order.
#[verifier::external_body]
pub fn chars_of(s: &str) -> (r: Vec<char>)
    ensures
        r@ == s@,
{
    s.chars().collect()
}

/// Relies on `String::from_iter`: the text made of the characters, in order.
#[verifier::external_body]
pub fn string_of(v: &Vec<char>) -> (r: String)
    ensures
        r@ == v@,
{
    v.iter().collect()
}

/// Appends the decimal text of `n` to `out`.
pub fn push_dec(out: &mut Vec<char>, n: u32)
    ensures
        final(out)@ == old(out)@ + dec(n as nat),
    decreases n,
{
    if n >= 10 {
        push_dec(out, n / 10);
    }
    let d = n % 10;
    let c = if d == 0 { '0' } else if d == 1 { '1' } else if d == 2 { '2' } else if d == 3 {
        '3'
    } else if d == 4 { '4' } else if d == 5 { '5' } else if d == 6 { '6' } else if d == 7 {
        '7'
    } else if d == 8 { '8' } else { '9' };
    assert(c == digit_chars()[d as int]);
    out.push(c);
    proof {
        if n >= 10 {
            assert(dec(n as nat) == dec((n / 10) as nat).push(c));
        }
    }
}

/// Whether `a[start..start + b.len()]` equals `b`.
pub fn matches_at(a: &Vec<char>, start: usize, b: &Vec<char>) -> (r: bool)
    ensures
        r == (start + b@.len() <= a@.len() && a@.subrange(start as int, start + b@.len()) == b@),
{
    if start > a.len() || a.len() - start < b.len() {
        return false;
    }
    let mut i: usize = 0;
    while i < b.len()
        invariant
            start + b.len() <= a.len(),
            i <= b@.len(),
            forall|j: int| 0 <= j < i ==> a@[start + j] == b@[j],
        decreases b@.len() - i,
    {
        let k: usize = start + i;
        if a[k] != b[i] {
            assert(a@.subrange(start as int, start + b@.len())[i as int] != b@[i as int]);
            return false;
        }
        i += 1;
    }
    assert(a@.subrange(start as int, start + b@.len()) =~= b@);
    true
}

/// Whether two character sequences are equal.
pub fn chars_equal(a: &Vec<char>, b: &Vec<char>) -> (r: bool)
    ensures
        r == (a@ == b@),
{
    if a.len() != b.len() {
        return false;
    }
    let r = matches_at(a, 0, b);
    proof {
        if r {
            assert(a@ =~= a@.subrange(0, b@.len() as int));
        } else {
            assert(a@.subrange(0, b@.len() as int) =~= a@);
        }
    }
    r
}

/// Whether two byte sequences are equal.
pub fn bytes_equal(a: &Vec<u8>, b: &Vec<u8>) -> (r: bool)
    ensures
        r == (a@ == b@),
{
    if a.len() != b.len() {
        return false;
    }
    let mut i: usize = 0;
    while i < a.len()
        invariant
            a@.len() == b@.len(),
            i <= a@.len(),
            forall|j: int| 0 <= j < i ==> a@[j] == b@[j],
        decreases a@.len() - i,
    {
        if a[i] != b[i] {
            return false;
        }
        i += 1;
    }
    assert(a@ =~= b@);
    true
}

} // verus!
