//! Content hashing and hexadecimal rendering of hash values.
//!
//! A definition's `own_hash` is a fast 64-bit hash of its full raw content,
//! computed by an outside hash function and named here by the uninterpreted
//! `content_hash`. Tree hashes combine own hashes with a commutative
//! exclusive-or step, guarded by a tie-break that skips a contribution equal
//! to the running accumulator.

use vstd::prelude::*;
use crate::text::string_from_chars;

verus! {

/// The 64-bit content hash of a text, as the outside hash function computes
/// it. The hash is a function of the characters alone: the same content
/// always yields the same value.
pub uninterp spec fn content_hash(s: Seq<char>) -> u64;

/// Relies on `seahash::hash`: a pure function from the byte content to a
/// 64-bit value, with a fixed prechosen seed, so the result depends on the
/// argument alone.
#[verifier::external_body]
pub fn hash_content(s: &str) -> (r: u64)
    ensures
        r == content_hash(s@),
{
    seahash::hash(s.as_bytes())
}

/// One combination step of the tree hash: exclusive-or, except that a
/// contribution equal to the current accumulator is skipped so that the
/// accumulator cannot cancel itself to zero.
pub open spec fn combine(acc: u64, h: u64) -> u64 {
    if acc == h {
        acc
    } else {
        acc ^ h
    }
}

/// `combine` folded over a sequence of hashes, left to right.
pub open spec fn combine_fold(acc: u64, hs: Seq<u64>) -> u64
    decreases hs.len(),
{
    if hs.len() == 0 {
        acc
    } else {
        combine_fold(combine(acc, hs[0]), hs.skip(1))
    }
}

/// Executable combination step.
pub fn combine_step(acc: u64, h: u64) -> (r: u64)
    ensures
        r == combine(acc, h),
{
    if acc == h {
        acc
    } else {
        acc ^ h
    }
}

/// The hexadecimal digit for a value below 16.
pub open spec fn hex_digit(d: int) -> char {
    if d == 0 { '0' }
    else if d == 1 { '1' }
    else if d == 2 { '2' }
    else if d == 3 { '3' }
    else if d == 4 { '4' }
    else if d == 5 { '5' }
    else if d == 6 { '6' }
    else if d == 7 { '7' }
    else if d == 8 { '8' }
    else if d == 9 { '9' }
    else if d == 10 { 'a' }
    else if d == 11 { 'b' }
    else if d == 12 { 'c' }
    else if d == 13 { 'd' }
    else if d == 14 { 'e' }
    else { 'f' }
}

/// The shortest hexadecimal rendering of a non-negative number, most
/// significant digit first.
pub open spec fn hex_chars(n: int) -> Seq<char>
    decreases n,
{
    if n < 16 {
        seq![hex_digit(n)]
    } else {
        hex_chars(n / 16).push(hex_digit(n % 16))
    }
}

/// The value of a hexadecimal digit character, or -1 for any other character.
pub open spec fn hex_val(c: char) -> int {
    if c == '0' { 0 }
    else if c == '1' { 1 }
    else if c == '2' { 2 }
    else if c == '3' { 3 }
    else if c == '4' { 4 }
    else if c == '5' { 5 }
    else if c == '6' { 6 }
    else if c == '7' { 7 }
    else if c == '8' { 8 }
    else if c == '9' { 9 }
    else if c == 'a' || c == 'A' { 10 }
    else if c == 'b' || c == 'B' { 11 }
    else if c == 'c' || c == 'C' { 12 }
    else if c == 'd' || c == 'D' { 13 }
    else if c == 'e' || c == 'E' { 14 }
    else if c == 'f' || c == 'F' { 15 }
    else { -1 }
}

/// A non-empty run of hexadecimal digit characters.
pub open spec fn is_hex(s: Seq<char>) -> bool {
    s.len() > 0 && forall|j: int| 0 <= j < s.len() ==> hex_val(#[trigger] s[j]) >= 0
}

/// The number a run of hexadecimal digits denotes, most significant first.
pub open spec fn hex_value(s: Seq<char>) -> int
    decreases s.len(),
{
    if s.len() == 0 {
        0
    } else {
        16 * hex_value(s.drop_last()) + hex_val(s.last())
    }
}

/// The value of a valid digit run is non-negative.
pub proof fn lemma_hex_value_nonneg(s: Seq<char>)
    requires
        forall|j: int| 0 <= j < s.len() ==> hex_val(#[trigger] s[j]) >= 0,
    ensures
        hex_value(s) >= 0,
    decreases s.len(),
{
    if s.len() > 0 {
        lemma_hex_value_nonneg(s.drop_last());
    }
}

/// Extending a valid digit run never decreases its value.
pub proof fn lemma_hex_value_extends(s: Seq<char>, k: int)
    requires
        0 <= k <= s.len(),
        forall|j: int| 0 <= j < s.len() ==> hex_val(#[trigger] s[j]) >= 0,
    ensures
        hex_value(s) >= hex_value(s.take(k)),
    decreases s.len(),
{
    lemma_hex_value_nonneg(s.take(k));
    if k < s.len() {
        assert forall|j: int| 0 <= j < s.drop_last().len() implies hex_val(
            #[trigger] s.drop_last()[j],
        ) >= 0 by {
            assert(s.drop_last()[j] == s[j]);
        }
        assert(s.drop_last().take(k) =~= s.take(k));
        lemma_hex_value_extends(s.drop_last(), k);
        lemma_hex_value_nonneg(s.drop_last());
    } else {
        assert(s.take(k) =~= s);
    }
}

/// Executable digit rendering.
fn hex_digit_char(d: u64) -> (c: char)
    requires
        d < 16,
    ensures
        c == hex_digit(d as int),
{
    if d == 0 { '0' }
    else if d == 1 { '1' }
    else if d == 2 { '2' }
    else if d == 3 { '3' }
    else if d == 4 { '4' }
    else if d == 5 { '5' }
    else if d == 6 { '6' }
    else if d == 7 { '7' }
    else if d == 8 { '8' }
    else if d == 9 { '9' }
    else if d == 10 { 'a' }
    else if d == 11 { 'b' }
    else if d == 12 { 'c' }
    else if d == 13 { 'd' }
    else if d == 14 { 'e' }
    else { 'f' }
}

/// The digits of `h` in hexadecimal, most significant first.
fn hex_digits_of(h: u64) -> (v: Vec<char>)
    ensures
        v@ == hex_chars(h as int),
    decreases h,
{
    if h < 16 {
        let mut v: Vec<char> = Vec::new();
        v.push(hex_digit_char(h));
        proof {
            assert(v@ =~= hex_chars(h as int));
        }
        v
    } else {
        let mut v = hex_digits_of(h / 16);
        v.push(hex_digit_char(h % 16));
        proof {
            assert(v@ =~= hex_chars(h as int));
        }
        v
    }
}

/// The hexadecimal rendering of a 64-bit hash, lower case, without leading
/// zeroes.
pub fn hex64(h: u64) -> (s: String)
    ensures
        s@ == hex_chars(h as int),
{
    let v = hex_digits_of(h);
    string_from_chars(&v)
}

/// Executable digit value; `None` for a character that is no digit.
fn hex_val_of(c: char) -> (r: Option<u64>)
    ensures
        match r {
            Some(d) => hex_val(c) == d as int && d < 16,
            None => hex_val(c) < 0,
        },
{
    if c == '0' { Some(0) }
    else if c == '1' { Some(1) }
    else if c == '2' { Some(2) }
    else if c == '3' { Some(3) }
    else if c == '4' { Some(4) }
    else if c == '5' { Some(5) }
    else if c == '6' { Some(6) }
    else if c == '7' { Some(7) }
    else if c == '8' { Some(8) }
    else if c == '9' { Some(9) }
    else if c == 'a' || c == 'A' { Some(10) }
    else if c == 'b' || c == 'B' { Some(11) }
    else if c == 'c' || c == 'C' { Some(12) }
    else if c == 'd' || c == 'D' { Some(13) }
    else if c == 'e' || c == 'E' { Some(14) }
    else if c == 'f' || c == 'F' { Some(15) }
    else { None }
}

/// Parses a hexadecimal digit run into a 64-bit value. Returns `None` when
/// the run is empty, contains a character that is no digit, or denotes a
/// number too large for 64 bits.
pub fn parse_hex(v: &Vec<char>) -> (r: Option<u64>)
    ensures
        match r {
            Some(h) => is_hex(v@) && hex_value(v@) == h as int,
            None => !is_hex(v@) || hex_value(v@) > u64::MAX,
        },
{
    if v.len() == 0 {
        return None;
    }
    let mut acc: u64 = 0;
    let mut i: usize = 0;
    while i < v.len()
        invariant
            i <= v@.len(),
            forall|j: int| 0 <= j < i ==> hex_val(#[trigger] v@[j]) >= 0,
            acc as int == hex_value(v@.take(i as int)),
        decreases v@.len() - i,
    {
        let ghost pre = v@.take(i as int);
        match hex_val_of(v[i]) {
            None => {
                return None;
            },
            Some(d) => {
                if acc > (u64::MAX - d) / 16 {
                    proof {
                        let ext = v@.take(i + 1);
                        assert(ext.drop_last() =~= pre);
                        assert(ext.last() == v@[i as int]);
                        assert(hex_value(ext) == 16 * (acc as int) + d);
                        assert(16 * (acc as int) + d > u64::MAX) by {
                            let m = u64::MAX - d;
                            assert(acc as int >= m / 16 + 1);
                            assert(16 * (m / 16) + m % 16 == m);
                            assert(16 * (acc as int) >= 16 * (m / 16) + 16);
                        }
                        if forall|j: int| 0 <= j < v@.len() ==> hex_val(#[trigger] v@[j]) >= 0 {
                            lemma_hex_value_extends(v@, i + 1);
                        }
                    }
                    return None;
                }
                proof {
                    let m = u64::MAX - d;
                    assert(16 * (m / 16) + m % 16 == m);
                    assert(16 * (acc as int) + d <= u64::MAX);
                }
                acc = 16 * acc + d;
                i = i + 1;
                proof {
                    let ext = v@.take(i as int);
                    assert(ext.drop_last() =~= pre);
                    assert(ext.last() == v@[i - 1]);
                }
            },
        }
    }
    proof {
        assert(v@.take(v@.len() as int) =~= v@);
    }
    Some(acc)
}

/// The digit characters render exactly the digit values.
proof fn lemma_hex_digit_val(d: int)
    requires
        0 <= d < 16,
    ensures
        hex_val(hex_digit(d)) == d,
{
}

/// Rendering a hash in hexadecimal and parsing it back yields the hash: the
/// two directions of the textual hash encoding agree.
pub proof fn lemma_hex_roundtrip(n: u64)
    ensures
        is_hex(hex_chars(n as int)),
        hex_value(hex_chars(n as int)) == n as int,
    decreases n,
{
    if n < 16 {
        let s = hex_chars(n as int);
        lemma_hex_digit_val(n as int);
        assert(s.drop_last() =~= Seq::<char>::empty());
        assert(hex_value(s) == 16 * hex_value(Seq::<char>::empty()) + hex_val(s.last()));
    } else {
        lemma_hex_roundtrip(n / 16);
        lemma_hex_digit_val(n as int % 16);
        let s = hex_chars(n as int);
        let p = hex_chars(n as int / 16);
        assert(s == p.push(hex_digit(n as int % 16)));
        assert(s.drop_last() =~= p);
        assert(s.last() == hex_digit(n as int % 16));
        assert(hex_value(s) == 16 * hex_value(p) + hex_val(hex_digit(n as int % 16)));
        assert(16 * (n as int / 16) + n as int % 16 == n as int);
        assert(forall|j: int| 0 <= j < s.len() ==> hex_val(#[trigger] s[j]) >= 0) by {
            assert(forall|j: int| 0 <= j < p.len() ==> s[j] == p[j]);
        }
    }
}

} // verus!
