//! The grammar of the wire format, as specification-level parsing functions.
//!
//! These functions are the meaning of decoding: the executable decoder is
//! proved to return exactly what they compute. Each parser takes the unread
//! bytes (and, for containers, the remaining allocation budget) and yields the
//! parsed result together with the bytes left over, or `None` on any
//! malformed byte, premature end of input, arithmetic overflow, duplicate
//! dictionary key, or budget exhaustion.

use vstd::prelude::*;

use crate::model::{lex_lt, SpecValue};

verus! {

/// An ASCII decimal digit.
pub open spec fn is_digit(c: u8) -> bool {
    48 <= c <= 57
}

/// The length of the longest prefix of `s` made of decimal digits.
pub open spec fn digit_run(s: Seq<u8>) -> nat
    decreases s.len(),
{
    if s.len() == 0 || !is_digit(s[0]) {
        0
    } else {
        1 + digit_run(s.skip(1))
    }
}

/// The value of a digit string, most significant digit first.
pub open spec fn digits_val(s: Seq<u8>) -> nat
    decreases s.len(),
{
    if s.len() == 0 {
        0
    } else {
        (digits_val(s.drop_last()) * 10 + (s.last() - 48)) as nat
    }
}

/// A digit run splits at any point within its leading digits.
pub proof fn lemma_digit_run_skip(s: Seq<u8>, j: int)
    requires
        0 <= j <= s.len(),
        forall|i: int| 0 <= i < j ==> is_digit(#[trigger] s[i]),
    ensures
        digit_run(s) == j + digit_run(s.skip(j)),
    decreases j,
{
    if j == 0 {
        assert(s.skip(0) =~= s);
    } else {
        assert(forall|i: int| 0 <= i < j - 1 ==> is_digit(#[trigger] s.skip(1)[i]));
        lemma_digit_run_skip(s.skip(1), j - 1);
        assert(s.skip(1).skip(j - 1) =~= s.skip(j));
    }
}

/// The digit run is exactly the leading digits: no more, no fewer.
pub proof fn lemma_digit_run_digits(s: Seq<u8>)
    ensures
        digit_run(s) <= s.len(),
        forall|i: int| 0 <= i < digit_run(s) ==> is_digit(#[trigger] s[i]),
        digit_run(s) < s.len() ==> !is_digit(s[digit_run(s) as int]),
    decreases s.len(),
{
    if s.len() > 0 && is_digit(s[0]) {
        lemma_digit_run_digits(s.skip(1));
        assert forall|i: int| 0 <= i < digit_run(s) implies is_digit(#[trigger] s[i]) by {
            if i > 0 {
                assert(is_digit(s.skip(1)[i - 1]));
            }
        }
        if digit_run(s) < s.len() {
            assert(s.skip(1)[digit_run(s) - 1] == s[digit_run(s) as int]);
        }
    }
}

/// Reading one more digit multiplies the value by ten and adds the digit.
pub proof fn lemma_digits_val_step(s: Seq<u8>, j: int)
    requires
        0 <= j < s.len(),
        forall|i: int| 0 <= i <= j ==> is_digit(#[trigger] s[i]),
    ensures
        digits_val(s.take(j + 1)) == digits_val(s.take(j)) * 10 + (s[j] - 48),
{
    assert(s.take(j + 1).drop_last() =~= s.take(j));
    assert(s.take(j + 1).last() == s[j]);
}

/// The value of a digit string never shrinks as more digits are read.
pub proof fn lemma_digits_val_mono(s: Seq<u8>, j: int, k: int)
    requires
        0 <= j <= k <= s.len(),
        forall|i: int| 0 <= i < k ==> is_digit(#[trigger] s[i]),
    ensures
        digits_val(s.take(j)) <= digits_val(s.take(k)),
    decreases k - j,
{
    if j < k {
        lemma_digits_val_mono(s, j, k - 1);
        lemma_digits_val_step(s, k - 1);
    }
}

/// Parses one or more decimal digits as an unsigned magnitude, permissively
/// (redundant leading zeros are accepted). Fails when no digit is present or
/// the accumulated value exceeds `bound`.
pub open spec fn parse_number(s: Seq<u8>, bound: nat) -> Option<(nat, Seq<u8>)> {
    let k = digit_run(s);
    if k == 0 {
        None
    } else if digits_val(s.take(k as int)) <= bound {
        Some((digits_val(s.take(k as int)), s.skip(k as int)))
    } else {
        None
    }
}

/// Parses an optional `-` followed by digits: the body of an integer. The
/// magnitude must fit the 64-bit signed range of the signed result.
pub open spec fn parse_signed(s: Seq<u8>) -> Option<(int, Seq<u8>)> {
    let neg = s.len() > 0 && s[0] == 45;
    let s1 = if neg {
        s.skip(1)
    } else {
        s
    };
    let bound: nat = if neg {
        0x8000_0000_0000_0000nat
    } else {
        0x7fff_ffff_ffff_ffffnat
    };
    match parse_number(s1, bound) {
        Some((m, r)) => Some(
            (
                if neg {
                    -(m as int)
                } else {
                    m as int
                },
                r,
            ),
        ),
        None => None,
    }
}

/// Parses `i`, a signed magnitude, `e`.
pub open spec fn parse_int(s: Seq<u8>) -> Option<(int, Seq<u8>)> {
    if s.len() == 0 || s[0] != 105 {
        None
    } else {
        match parse_signed(s.skip(1)) {
            Some((n, r)) => if r.len() > 0 && r[0] == 101 {
                Some((n, r.skip(1)))
            } else {
                None
            },
            None => None,
        }
    }
}

/// Parses a byte string: decimal length, `:`, then exactly that many raw
/// bytes.
pub open spec fn parse_bstr(s: Seq<u8>) -> Option<(Seq<u8>, Seq<u8>)> {
    match parse_number(s, usize::MAX as nat) {
        Some((n, r)) => if r.len() > 0 && r[0] == 58 && n <= r.len() - 1 {
            Some((r.skip(1).take(n as int), r.skip(1).skip(n as int)))
        } else {
            None
        },
        None => None,
    }
}

/// Inserts a key/value pair into a key-sorted entry sequence, keeping the
/// order; fails on a duplicate key.
pub open spec fn insert_sorted(
    es: Seq<(Seq<u8>, SpecValue)>,
    k: Seq<u8>,
    v: SpecValue,
) -> Option<Seq<(Seq<u8>, SpecValue)>>
    decreases es.len(),
{
    if es.len() == 0 {
        Some(seq![(k, v)])
    } else if lex_lt(k, es[0].0) {
        Some(seq![(k, v)] + es)
    } else if k == es[0].0 {
        None
    } else {
        match insert_sorted(es.skip(1), k, v) {
            Some(r) => Some(seq![es[0]] + r),
            None => None,
        }
    }
}

/// Parses one value. Dispatch is by the first unread byte: `i` opens an
/// integer, a digit opens a byte string, `l` a list, `d` a dictionary.
///
/// The guards that re-check `r.len() < s.len()` after an inner parse are
/// termination bookkeeping only: a successful parse always consumes at least
/// one byte (`lemma_parse_value_consumes`), so they never fail.
pub open spec fn parse_value(s: Seq<u8>, b: nat) -> Option<(SpecValue, Seq<u8>, nat)>
    decreases s.len(), 2int,
{
    if s.len() == 0 {
        None
    } else if s[0] == 105 {
        match parse_int(s) {
            Some((n, r)) => Some((SpecValue::Int(n), r, b)),
            None => None,
        }
    } else if is_digit(s[0]) {
        match parse_bstr(s) {
            Some((bs, r)) => Some((SpecValue::Str(bs), r, b)),
            None => None,
        }
    } else if s[0] == 108 {
        match parse_items(s.skip(1), b) {
            Some((items, r, b2)) => Some((SpecValue::List(items), r, b2)),
            None => None,
        }
    } else if s[0] == 100 {
        match parse_entries(s.skip(1), b, Seq::empty()) {
            Some((es, r, b2)) => Some((SpecValue::Dict(es), r, b2)),
            None => None,
        }
    } else {
        None
    }
}

/// Parses list elements up to and including the closing `e`. Each element
/// charges one budget unit before its value is parsed.
pub open spec fn parse_items(s: Seq<u8>, b: nat) -> Option<(Seq<SpecValue>, Seq<u8>, nat)>
    decreases s.len(), 3int,
{
    if s.len() == 0 {
        None
    } else if s[0] == 101 {
        Some((Seq::empty(), s.skip(1), b))
    } else if b == 0 {
        None
    } else {
        match parse_value(s, (b - 1) as nat) {
            Some((v, r, b2)) => if r.len() < s.len() {
                match parse_items(r, b2) {
                    Some((items, r2, b3)) => Some((seq![v] + items, r2, b3)),
                    None => None,
                }
            } else {
                None
            },
            None => None,
        }
    }
}

/// Parses dictionary entries up to and including the closing `e`, keeping
/// them sorted as they come and rejecting duplicate keys. Each entry charges
/// one budget unit after its key and before its value is parsed.
pub open spec fn parse_entries(
    s: Seq<u8>,
    b: nat,
    acc: Seq<(Seq<u8>, SpecValue)>,
) -> Option<(Seq<(Seq<u8>, SpecValue)>, Seq<u8>, nat)>
    decreases s.len(), 3int,
{
    if s.len() == 0 {
        None
    } else if s[0] == 101 {
        Some((acc, s.skip(1), b))
    } else {
        match parse_bstr(s) {
            Some((k, r1)) => if r1.len() < s.len() {
                if b == 0 {
                    None
                } else {
                    match parse_value(r1, (b - 1) as nat) {
                        Some((v, r2, b2)) => if r2.len() < s.len() {
                            match insert_sorted(acc, k, v) {
                                Some(acc2) => parse_entries(r2, b2, acc2),
                                None => None,
                            }
                        } else {
                            None
                        },
                        None => None,
                    }
                }
            } else {
                None
            },
            None => None,
        }
    }
}

/// Decoding a buffer: parse one value from the front; trailing bytes are not
/// an error.
pub open spec fn spec_decode(s: Seq<u8>, b: nat) -> Option<SpecValue> {
    match parse_value(s, b) {
        Some((v, _, _)) => Some(v),
        None => None,
    }
}

} // verus!
