//! The mathematical model of the data: the tree of values, the byte-wise
//! lexicographic order on keys, well-formedness, and the canonical encoding.

use vstd::prelude::*;

verus! {

/// The specification-level tree: what a `value::Value` denotes.
///
/// Dictionaries are modelled as a sequence of key/value pairs; a well-formed
/// dictionary keeps its entries in strictly ascending byte-lexicographic key
/// order, which makes the canonical encoding a plain left-to-right walk.
pub enum SpecValue {
    Int(int),
    Str(Seq<u8>),
    List(Seq<SpecValue>),
    Dict(Seq<(Seq<u8>, SpecValue)>),
}

/// Strict byte-lexicographic order: `a` sorts before `b`.
pub open spec fn lex_lt(a: Seq<u8>, b: Seq<u8>) -> bool
    decreases a.len(),
{
    if b.len() == 0 {
        false
    } else if a.len() == 0 {
        true
    } else {
        a[0] < b[0] || (a[0] == b[0] && lex_lt(a.skip(1), b.skip(1)))
    }
}

/// Skipping a common prefix does not change how two byte strings compare.
pub proof fn lemma_lex_skip(a: Seq<u8>, b: Seq<u8>, i: int)
    requires
        0 <= i <= a.len(),
        i <= b.len(),
        a.take(i) == b.take(i),
    ensures
        lex_lt(a, b) == lex_lt(a.skip(i), b.skip(i)),
    decreases i,
{
    if i > 0 {
        assert(a.take(i)[0] == b.take(i)[0]);
        assert(a.take(i)[0] == a[0]);
        assert(b.take(i)[0] == b[0]);
        assert(a.skip(1).take(i - 1) =~= a.take(i).skip(1));
        assert(b.skip(1).take(i - 1) =~= b.take(i).skip(1));
        lemma_lex_skip(a.skip(1), b.skip(1), i - 1);
        assert(a.skip(1).skip(i - 1) =~= a.skip(i));
        assert(b.skip(1).skip(i - 1) =~= b.skip(i));
        assert(a.len() > 0 && b.len() > 0 && a[0] == b[0]);
    } else {
        assert(a.skip(0) =~= a);
        assert(b.skip(0) =~= b);
    }
}

/// Exactly one of `a < b`, `a == b`, `b < a` holds.
pub proof fn lemma_lex_trichotomy(a: Seq<u8>, b: Seq<u8>)
    ensures
        lex_lt(a, b) || lex_lt(b, a) || a == b,
        lex_lt(a, b) ==> !lex_lt(b, a) && a != b,
        lex_lt(b, a) ==> !lex_lt(a, b) && a != b,
    decreases a.len(),
{
    if a.len() == 0 || b.len() == 0 {
        if a.len() == 0 && b.len() == 0 {
            assert(a =~= b);
        }
    } else {
        lemma_lex_trichotomy(a.skip(1), b.skip(1));
        if a[0] == b[0] && a.skip(1) == b.skip(1) {
            assert(a =~= seq![a[0]] + a.skip(1));
            assert(b =~= seq![b[0]] + b.skip(1));
        }
        if a == b {
            assert(a.skip(1) =~= b.skip(1));
        }
    }
}

/// The lexicographic order is transitive.
pub proof fn lemma_lex_trans(a: Seq<u8>, b: Seq<u8>, c: Seq<u8>)
    requires
        lex_lt(a, b),
        lex_lt(b, c),
    ensures
        lex_lt(a, c),
    decreases a.len(),
{
    if a.len() == 0 {
    } else {
        if a[0] == b[0] && b[0] == c[0] {
            lemma_lex_trans(a.skip(1), b.skip(1), c.skip(1));
        }
    }
}

/// Dictionary entries stand in strictly ascending key order (hence keys are
/// unique).
pub open spec fn entries_sorted(es: Seq<(Seq<u8>, SpecValue)>) -> bool {
    forall|i: int, j: int| 0 <= i < j < es.len() ==> lex_lt(es[i].0, es[j].0)
}

/// Well-formedness of a tree: integers fit the 64-bit signed range, byte
/// strings fit in memory, and every dictionary is sorted with unique keys.
pub open spec fn wf(v: SpecValue) -> bool
    decreases v,
{
    match v {
        SpecValue::Int(n) => i64::MIN <= n <= i64::MAX,
        SpecValue::Str(s) => s.len() <= usize::MAX,
        SpecValue::List(items) => forall|i: int| 0 <= i < items.len() ==> wf(#[trigger] items[i]),
        SpecValue::Dict(es) => {
            &&& entries_sorted(es)
            &&& forall|i: int| 0 <= i < es.len() ==> (#[trigger] es[i]).0.len() <= usize::MAX
            &&& forall|i: int| 0 <= i < es.len() ==> wf((#[trigger] es[i]).1)
        },
    }
}

/// How many allocation-budget units decoding this tree costs: one per list
/// element and one per dictionary entry, over the whole tree.
pub open spec fn count_entries(v: SpecValue) -> nat
    decreases v,
{
    match v {
        SpecValue::Int(_) => 0,
        SpecValue::Str(_) => 0,
        SpecValue::List(items) => count_list(items),
        SpecValue::Dict(es) => count_dict(es),
    }
}

pub open spec fn count_list(items: Seq<SpecValue>) -> nat
    decreases items,
{
    if items.len() == 0 {
        0
    } else {
        1 + count_entries(items[0]) + count_list(items.skip(1))
    }
}

pub open spec fn count_dict(es: Seq<(Seq<u8>, SpecValue)>) -> nat
    decreases es,
{
    if es.len() == 0 {
        0
    } else {
        1 + count_entries(es[0].1) + count_dict(es.skip(1))
    }
}

/// The minimal decimal rendering of a magnitude: no leading zeros, except that
/// zero itself renders as the single digit `0`.
pub open spec fn dec_digits(n: nat) -> Seq<u8>
    decreases n,
{
    if n < 10 {
        seq![(48 + n) as u8]
    } else {
        dec_digits(n / 10).push((48 + n % 10) as u8)
    }
}

/// The magnitude of an integer.
pub open spec fn abs_of(n: int) -> nat {
    if n < 0 {
        (-n) as nat
    } else {
        n as nat
    }
}

/// The canonical byte encoding of a tree.
///
/// Integers render as `i`, an optional `-`, the minimal decimal digits of the
/// magnitude, then `e`. Byte strings render as their decimal length, `:`, then
/// the raw bytes. Lists wrap their elements in `l` ... `e`; dictionaries wrap
/// their entries, each as key then value, in `d` ... `e`, in stored order
/// (ascending key order whenever the tree is well-formed).
pub open spec fn encoded(v: SpecValue) -> Seq<u8>
    decreases v, 1int,
{
    match v {
        SpecValue::Int(n) => seq![105u8] + (if n < 0 {
            seq![45u8]
        } else {
            Seq::<u8>::empty()
        }) + dec_digits(abs_of(n)) + seq![101u8],
        SpecValue::Str(s) => encoded_str(s),
        SpecValue::List(items) => seq![108u8] + encoded_list(items) + seq![101u8],
        SpecValue::Dict(es) => seq![100u8] + encoded_dict(es) + seq![101u8],
    }
}

/// The encoding of a byte string: decimal length, `:`, raw bytes.
pub open spec fn encoded_str(s: Seq<u8>) -> Seq<u8> {
    dec_digits(s.len()) + seq![58u8] + s
}

/// The elements of a list, encoded back to back.
pub open spec fn encoded_list(items: Seq<SpecValue>) -> Seq<u8>
    decreases items, 0int,
{
    if items.len() == 0 {
        Seq::<u8>::empty()
    } else {
        encoded(items[0]) + encoded_list(items.skip(1))
    }
}

/// The entries of a dictionary, each as key then value, back to back.
pub open spec fn encoded_dict(es: Seq<(Seq<u8>, SpecValue)>) -> Seq<u8>
    decreases es, 0int,
{
    if es.len() == 0 {
        Seq::<u8>::empty()
    } else {
        encoded_str(es[0].0) + encoded(es[0].1) + encoded_dict(es.skip(1))
    }
}

} // verus!
