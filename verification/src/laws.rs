//! The laws that tie decoding and encoding together: every decoded tree is
//! well formed, decoding what the encoder wrote gives the tree back, and the
//! allocation budget draws an exact threshold.

use vstd::prelude::*;

use crate::grammar::{
    digit_run, digits_val, insert_sorted, is_digit, lemma_digit_run_digits,
    lemma_digit_run_skip, parse_bstr, parse_entries, parse_items, parse_number, parse_value,
    spec_decode,
};
use crate::model::{
    abs_of, count_dict, count_entries, count_list, dec_digits, encoded, encoded_dict,
    encoded_list, entries_sorted, lemma_lex_trans, lemma_lex_trichotomy, lex_lt, wf, SpecValue,
};

verus! {

/// Inserting an entry adds exactly one unit plus the cost of its value to a
/// dictionary's budget cost.
pub proof fn lemma_count_insert_sorted(es: Seq<(Seq<u8>, SpecValue)>, k: Seq<u8>, v: SpecValue)
    ensures
        insert_sorted(es, k, v) matches Some(r) ==> count_dict(r) == count_dict(es) + 1
            + count_entries(v),
    decreases es.len(),
{
    if es.len() == 0 {
        if insert_sorted(es, k, v) is Some {
            let r = insert_sorted(es, k, v)->Some_0;
            assert(r[0] == (k, v));
            assert(r.skip(1) =~= Seq::<(Seq<u8>, SpecValue)>::empty());
            assert(count_dict(Seq::<(Seq<u8>, SpecValue)>::empty()) == 0);
        }
    } else if lex_lt(k, es[0].0) {
        let r = insert_sorted(es, k, v)->Some_0;
        assert(r[0] == (k, v));
        assert(r.skip(1) =~= es);
        assert(count_dict(r) == 1 + count_entries(v) + count_dict(es));
    } else if k == es[0].0 {
    } else {
        lemma_count_insert_sorted(es.skip(1), k, v);
        if insert_sorted(es.skip(1), k, v) is Some {
            let r0 = insert_sorted(es.skip(1), k, v)->Some_0;
            let r = insert_sorted(es, k, v)->Some_0;
            assert(r.skip(1) =~= r0);
            assert(r[0] == es[0]);
            assert(count_dict(r) == 1 + count_entries(es[0].1) + count_dict(r0));
            assert(count_dict(es) == 1 + count_entries(es[0].1) + count_dict(es.skip(1)));
        }
    }
}

/// A successful insertion keeps the entries sorted, and every entry of the
/// result is the new pair or one of the old entries.
pub proof fn lemma_insert_sorted_props(es: Seq<(Seq<u8>, SpecValue)>, k: Seq<u8>, v: SpecValue)
    requires
        entries_sorted(es),
    ensures
        insert_sorted(es, k, v) matches Some(r) ==> entries_sorted(r) && r.len() == es.len() + 1
            && forall|i: int|
            0 <= i < r.len() ==> (#[trigger] r[i] == (k, v) || exists|j: int|
                0 <= j < es.len() && r[i] == es[j]),
    decreases es.len(),
{
    if es.len() == 0 {
        if insert_sorted(es, k, v) is Some {
            let r = insert_sorted(es, k, v)->Some_0;
            assert(r[0] == (k, v));
        }
    } else if lex_lt(k, es[0].0) {
        let r = insert_sorted(es, k, v)->Some_0;
        assert(r[0] == (k, v));
        assert forall|i: int, j: int| 0 <= i < j < r.len() implies lex_lt(r[i].0, r[j].0) by {
            if i == 0 {
                if j > 1 {
                    lemma_lex_trans(k, es[0].0, es[j - 1].0);
                }
            }
        }
        assert forall|i: int|
            0 <= i < r.len() implies (#[trigger] r[i] == (k, v) || exists|j: int|
                0 <= j < es.len() && r[i] == es[j]) by {
            if i > 0 {
                assert(r[i] == es[i - 1]);
            }
        }
    } else if k == es[0].0 {
    } else {
        assert(entries_sorted(es.skip(1))) by {
            assert(forall|i: int, j: int|
                0 <= i < j < es.skip(1).len() ==> lex_lt(
                    (#[trigger] es.skip(1)[i]).0,
                    (#[trigger] es.skip(1)[j]).0,
                ));
        }
        lemma_insert_sorted_props(es.skip(1), k, v);
        lemma_lex_trichotomy(k, es[0].0);
        if insert_sorted(es.skip(1), k, v) is Some {
            let r0 = insert_sorted(es.skip(1), k, v)->Some_0;
            let r = insert_sorted(es, k, v)->Some_0;
            assert(r[0] == es[0]);
            assert(forall|i: int| 1 <= i < r.len() ==> r[i] == #[trigger] r0[i - 1]);
            assert forall|i: int, j: int| 0 <= i < j < r.len() implies lex_lt(r[i].0, r[j].0) by {
                if i > 0 {
                    assert(lex_lt(r0[i - 1].0, r0[j - 1].0));
                } else {
                    // the head key sorts before the new key and before every
                    // old key, hence before every entry of the tail
                    if r0[j - 1] == (k, v) {
                        assert(lex_lt(es[0].0, k));
                    } else {
                        let jj = choose|jj: int|
                            0 <= jj < es.skip(1).len() && r0[j - 1] == es.skip(1)[jj];
                        assert(lex_lt(es[0].0, es[jj + 1].0));
                    }
                }
            }
            assert forall|i: int|
                0 <= i < r.len() implies (#[trigger] r[i] == (k, v) || exists|j: int|
                    0 <= j < es.len() && r[i] == es[j]) by {
                if i == 0 {
                    assert(r[0] == es[0]);
                } else {
                    if r0[i - 1] == (k, v) {
                    } else {
                        let jj = choose|jj: int|
                            0 <= jj < es.skip(1).len() && r0[i - 1] == es.skip(1)[jj];
                        assert(r[i] == es[jj + 1]);
                    }
                }
            }
        }
    }
}

/// Whatever a parse returns is well formed: integers in range, byte strings
/// bounded, dictionaries sorted with unique keys. A successful parse also
/// consumes at least one byte and never gains budget.
pub proof fn lemma_parse_value_wf(s: Seq<u8>, b: nat)
    ensures
        parse_value(s, b) matches Some((v, r, b2)) ==> wf(v) && b2 <= b && r.len() < s.len(),
    decreases s.len(), 2int,
{
    if s.len() == 0 {
    } else if s[0] == 105 {
        let s1 = s.skip(1);
        let neg = s1.len() > 0 && s1[0] == 45;
        let s2 = if neg {
            s1.skip(1)
        } else {
            s1
        };
        lemma_digit_run_digits(s2);
    } else if is_digit(s[0]) {
        lemma_digit_run_digits(s);
    } else if s[0] == 108 {
        lemma_parse_items_wf(s.skip(1), b);
    } else if s[0] == 100 {
        lemma_parse_entries_wf(s.skip(1), b, Seq::empty());
    }
}

/// Every element parsed for a list is well formed.
pub proof fn lemma_parse_items_wf(s: Seq<u8>, b: nat)
    ensures
        parse_items(s, b) matches Some((items, r, b2)) ==> (forall|i: int|
            0 <= i < items.len() ==> wf(#[trigger] items[i])) && b2 <= b && r.len() < s.len(),
    decreases s.len(), 3int,
{
    if s.len() == 0 {
    } else if s[0] == 101 {
    } else if b == 0 {
    } else {
        lemma_parse_value_wf(s, (b - 1) as nat);
        if parse_value(s, (b - 1) as nat) is Some {
            let (v, r, b2) = parse_value(s, (b - 1) as nat)->Some_0;
            if r.len() < s.len() {
                lemma_parse_items_wf(r, b2);
            }
        }
    }
}

/// The entries accumulated while parsing a dictionary stay sorted, with
/// bounded keys and well-formed values.
pub proof fn lemma_parse_entries_wf(s: Seq<u8>, b: nat, acc: Seq<(Seq<u8>, SpecValue)>)
    requires
        entries_sorted(acc),
        forall|i: int| 0 <= i < acc.len() ==> (#[trigger] acc[i]).0.len() <= usize::MAX,
        forall|i: int| 0 <= i < acc.len() ==> wf((#[trigger] acc[i]).1),
    ensures
        parse_entries(s, b, acc) matches Some((es, r, b2)) ==> entries_sorted(es) && (forall|
            i: int,
        |
            0 <= i < es.len() ==> (#[trigger] es[i]).0.len() <= usize::MAX) && (forall|i: int|
            0 <= i < es.len() ==> wf((#[trigger] es[i]).1)) && b2 <= b && r.len() < s.len(),
    decreases s.len(), 3int,
{
    if s.len() == 0 {
    } else if s[0] == 101 {
    } else {
        if parse_bstr(s) is Some {
            let (k, r1) = parse_bstr(s)->Some_0;
            if r1.len() < s.len() && b > 0 {
                lemma_parse_value_wf(r1, (b - 1) as nat);
                if parse_value(r1, (b - 1) as nat) is Some {
                    let (v, r2, b2) = parse_value(r1, (b - 1) as nat)->Some_0;
                    if r2.len() < s.len() {
                        lemma_insert_sorted_props(acc, k, v);
                        if insert_sorted(acc, k, v) is Some {
                            let acc2 = insert_sorted(acc, k, v)->Some_0;
                            lemma_parse_entries_wf(r2, b2, acc2);
                        }
                    }
                }
            }
        }
    }
}

/// Decoding only ever yields a well-formed tree.
pub proof fn lemma_decode_wf(s: Seq<u8>, b: nat)
    ensures
        spec_decode(s, b) matches Some(v) ==> wf(v),
{
    lemma_parse_value_wf(s, b);
}


/// The decimal rendering of a magnitude is one or more digits.
pub proof fn lemma_dec_digits_shape(n: nat)
    ensures
        dec_digits(n).len() >= 1,
        forall|i: int| 0 <= i < dec_digits(n).len() ==> is_digit(#[trigger] dec_digits(n)[i]),
    decreases n,
{
    if n >= 10 {
        lemma_dec_digits_shape(n / 10);
        assert forall|i: int|
            0 <= i < dec_digits(n).len() implies is_digit(#[trigger] dec_digits(n)[i]) by {
            if i < dec_digits(n).len() - 1 {
                assert(dec_digits(n)[i] == dec_digits(n / 10)[i]);
            }
        }
    }
}

/// Rendering a magnitude and reading the digits back gives it back.
pub proof fn lemma_dec_digits_val(n: nat)
    ensures
        digits_val(dec_digits(n)) == n,
    decreases n,
{
    if n < 10 {
        assert(dec_digits(n).drop_last() =~= Seq::<u8>::empty());
        assert(digits_val(Seq::<u8>::empty()) == 0);
    } else {
        lemma_dec_digits_val(n / 10);
        assert(dec_digits(n).drop_last() =~= dec_digits(n / 10));
        assert(dec_digits(n).last() == (48 + n % 10) as u8);
    }
}

/// Reading a number from a rendered magnitude followed by a non-digit stops
/// exactly after the rendered digits and yields the magnitude.
pub proof fn lemma_parse_number_of_dec(n: nat, rest: Seq<u8>, bound: nat)
    requires
        n <= bound,
        rest.len() == 0 || !is_digit(rest[0]),
    ensures
        parse_number(dec_digits(n) + rest, bound) == Some((n, rest)),
{
    let s = dec_digits(n) + rest;
    let dl = dec_digits(n).len() as int;
    lemma_dec_digits_shape(n);
    assert forall|i: int| 0 <= i < dl implies is_digit(#[trigger] s[i]) by {
        assert(s[i] == dec_digits(n)[i]);
    }
    lemma_digit_run_skip(s, dl);
    assert(s.skip(dl) =~= rest);
    assert(digit_run(rest) == 0);
    assert(s.take(dl) =~= dec_digits(n));
    lemma_dec_digits_val(n);
}

/// The first byte of an encoding names the shape and is never `e`.
pub proof fn lemma_encoded_head(v: SpecValue)
    ensures
        encoded(v).len() > 0,
        encoded(v)[0] != 101,
        match v {
            SpecValue::Int(_) => encoded(v)[0] == 105,
            SpecValue::Str(s) => is_digit(encoded(v)[0]),
            SpecValue::List(_) => encoded(v)[0] == 108,
            SpecValue::Dict(_) => encoded(v)[0] == 100,
        },
{
    match v {
        SpecValue::Str(s) => {
            lemma_dec_digits_shape(s.len());
            assert(encoded(v)[0] == dec_digits(s.len())[0]);
            assert(is_digit(dec_digits(s.len())[0]));
        },
        _ => {},
    }
}

/// Parsing the canonical encoding of a well-formed tree, with any suffix
/// behind it and any budget at least the tree's entry count, gives the tree
/// back, leaves exactly the suffix, and uses exactly the entry count.
pub proof fn lemma_parse_encoded(v: SpecValue, rest: Seq<u8>, b: nat)
    requires
        wf(v),
        b >= count_entries(v),
    ensures
        parse_value(encoded(v) + rest, b) == Some((v, rest, (b - count_entries(v)) as nat)),
    decreases v,
{
    let s = encoded(v) + rest;
    lemma_encoded_head(v);
    assert(s[0] == encoded(v)[0]);
    match v {
        SpecValue::Int(n) => {
            let m = abs_of(n);
            let tail = seq![101u8] + rest;
            if n < 0 {
                assert(s.skip(1) =~= seq![45u8] + (dec_digits(m) + tail));
                assert(s.skip(1)[0] == 45);
                assert(s.skip(1).skip(1) =~= dec_digits(m) + tail);
                lemma_parse_number_of_dec(m, tail, 0x8000_0000_0000_0000nat);
            } else {
                lemma_dec_digits_shape(m);
                assert(s.skip(1) =~= dec_digits(m) + tail);
                assert(s.skip(1)[0] == dec_digits(m)[0]);
                assert(s.skip(1)[0] != 45);
                lemma_parse_number_of_dec(m, tail, 0x7fff_ffff_ffff_ffffnat);
            }
            assert(tail[0] == 101);
            assert(tail.skip(1) =~= rest);
        },
        SpecValue::Str(bs) => {
            let tail = seq![58u8] + (bs + rest);
            assert(s =~= dec_digits(bs.len()) + tail);
            lemma_parse_number_of_dec(bs.len(), tail, usize::MAX as nat);
            assert(tail[0] == 58);
            assert(tail.skip(1) =~= bs + rest);
            assert((bs + rest).take(bs.len() as int) =~= bs);
            assert((bs + rest).skip(bs.len() as int) =~= rest);
        },
        SpecValue::List(items) => {
            assert(s.skip(1) =~= encoded_list(items) + seq![101u8] + rest);
            lemma_parse_items_encoded(items, rest, b);
        },
        SpecValue::Dict(es) => {
            assert(s.skip(1) =~= encoded_dict(es) + seq![101u8] + rest);
            lemma_parse_entries_encoded(es, rest, b, Seq::empty());
            assert(Seq::<(Seq<u8>, SpecValue)>::empty() + es =~= es);
        },
    }
}

/// Parsing the encodings of a list's elements, then `e`, gives the elements
/// in order, one budget unit plus each element's own cost charged apiece.
pub proof fn lemma_parse_items_encoded(items: Seq<SpecValue>, rest: Seq<u8>, b: nat)
    requires
        forall|i: int| 0 <= i < items.len() ==> wf(#[trigger] items[i]),
        b >= count_list(items),
    ensures
        parse_items(encoded_list(items) + seq![101u8] + rest, b) == Some(
            (items, rest, (b - count_list(items)) as nat),
        ),
    decreases items,
{
    let s = encoded_list(items) + seq![101u8] + rest;
    if items.len() == 0 {
        assert(s =~= seq![101u8] + rest);
        assert(s[0] == 101);
        assert(s.skip(1) =~= rest);
        assert(items =~= Seq::<SpecValue>::empty());
    } else {
        let v0 = items[0];
        let tail = encoded_list(items.skip(1)) + seq![101u8] + rest;
        assert(s =~= encoded(v0) + tail);
        lemma_encoded_head(v0);
        assert(s[0] == encoded(v0)[0]);
        assert(count_list(items) == 1 + count_entries(v0) + count_list(items.skip(1)));
        lemma_parse_encoded(v0, tail, (b - 1) as nat);
        assert(tail.len() < s.len());
        assert(forall|i: int|
            0 <= i < items.skip(1).len() ==> wf(#[trigger] items.skip(1)[i]));
        lemma_parse_items_encoded(items.skip(1), rest, (b - 1 - count_entries(v0)) as nat);
        assert(seq![v0] + items.skip(1) =~= items);
    }
}

/// Parsing the encodings of a dictionary's entries, emitted in ascending key
/// order behind entries already gathered, appends them in order: each key
/// re-parses, each insertion lands at the end, and no duplicate arises.
pub proof fn lemma_parse_entries_encoded(
    es: Seq<(Seq<u8>, SpecValue)>,
    rest: Seq<u8>,
    b: nat,
    acc: Seq<(Seq<u8>, SpecValue)>,
)
    requires
        entries_sorted(es),
        forall|i: int| 0 <= i < es.len() ==> (#[trigger] es[i]).0.len() <= usize::MAX,
        forall|i: int| 0 <= i < es.len() ==> wf((#[trigger] es[i]).1),
        entries_sorted(acc),
        forall|i: int, j: int|
            0 <= i < acc.len() && 0 <= j < es.len() ==> lex_lt(
                (#[trigger] acc[i]).0,
                (#[trigger] es[j]).0,
            ),
        b >= count_dict(es),
    ensures
        parse_entries(encoded_dict(es) + seq![101u8] + rest, b, acc) == Some(
            (acc + es, rest, (b - count_dict(es)) as nat),
        ),
    decreases es,
{
    let s = encoded_dict(es) + seq![101u8] + rest;
    if es.len() == 0 {
        assert(s =~= seq![101u8] + rest);
        assert(s[0] == 101);
        assert(s.skip(1) =~= rest);
        assert(acc + es =~= acc);
    } else {
        let k = es[0].0;
        let v0 = es[0].1;
        let tail3 = encoded_dict(es.skip(1)) + seq![101u8] + rest;
        let tail2 = encoded(v0) + tail3;
        let tail1 = seq![58u8] + (k + tail2);
        assert(s =~= dec_digits(k.len()) + tail1);
        lemma_dec_digits_shape(k.len());
        assert(s[0] == dec_digits(k.len())[0]);
        assert(is_digit(s[0]));
        lemma_parse_number_of_dec(k.len(), tail1, usize::MAX as nat);
        assert(tail1[0] == 58);
        assert(tail1.skip(1) =~= k + tail2);
        assert((k + tail2).take(k.len() as int) =~= k);
        assert((k + tail2).skip(k.len() as int) =~= tail2);
        assert(parse_bstr(s) == Some((k, tail2)));
        assert(tail2.len() < s.len());
        assert(count_dict(es) == 1 + count_entries(es[0].1) + count_dict(es.skip(1)));
        lemma_encoded_head(v0);
        lemma_parse_encoded(v0, tail3, (b - 1) as nat);
        assert(tail3.len() < s.len());
        crate::value::lemma_insert_sorted_at(acc, k, v0, acc.len() as int);
        assert(acc.take(acc.len() as int) + seq![(k, v0)] + acc.skip(acc.len() as int) =~= acc.push(
            (k, v0),
        ));
        let acc2 = acc.push((k, v0));
        assert(entries_sorted(es.skip(1))) by {
            assert(forall|i: int, j: int|
                0 <= i < j < es.skip(1).len() ==> lex_lt(
                    (#[trigger] es.skip(1)[i]).0,
                    (#[trigger] es.skip(1)[j]).0,
                ));
        }
        assert(entries_sorted(acc2)) by {
            assert forall|i: int, j: int| 0 <= i < j < acc2.len() implies lex_lt(
                acc2[i].0,
                acc2[j].0,
            ) by {
                if j == acc2.len() - 1 {
                    assert(acc2[i] == acc[i]);
                    assert(acc2[j] == (k, v0));
                }
            }
        }
        assert forall|i: int, j: int|
            0 <= i < acc2.len() && 0 <= j < es.skip(1).len() implies lex_lt(
            (#[trigger] acc2[i]).0,
            (#[trigger] es.skip(1)[j]).0,
        ) by {
            assert(es.skip(1)[j] == es[j + 1]);
            if i < acc.len() {
                assert(acc2[i] == acc[i]);
            } else {
                assert(acc2[i] == (k, v0));
                assert(lex_lt(es[0].0, es[j + 1].0));
            }
        }
        lemma_parse_entries_encoded(
            es.skip(1),
            rest,
            (b - 1 - count_entries(v0)) as nat,
            acc2,
        );
        assert(acc.push((k, v0)) + es.skip(1) =~= acc + es);
    }
}

/// Encoding a well-formed tree and decoding the bytes, with any budget at
/// least the tree's entry count, reproduces the tree exactly.
pub proof fn lemma_round_trip(v: SpecValue, b: nat)
    requires
        wf(v),
        b >= count_entries(v),
    ensures
        spec_decode(encoded(v), b) == Some(v),
{
    lemma_parse_encoded(v, Seq::empty(), b);
    assert(encoded(v) + Seq::<u8>::empty() =~= encoded(v));
}


/// A parse charges exactly the entry count of the tree it returns: the same
/// parse with any budget at least that count yields the same tree and the
/// same leftover bytes, and with any smaller budget it fails.
pub proof fn lemma_budget_value(s: Seq<u8>, b: nat, c: nat)
    ensures
        parse_value(s, b) matches Some((v, r, rb)) ==> rb <= b && b - rb == count_entries(v) && (
        if c >= count_entries(v) {
            parse_value(s, c) == Some((v, r, (c - count_entries(v)) as nat))
        } else {
            parse_value(s, c) is None
        }),
    decreases s.len(), 2int,
{
    if s.len() == 0 {
    } else if s[0] == 105 {
    } else if is_digit(s[0]) {
    } else if s[0] == 108 {
        lemma_budget_items(s.skip(1), b, c);
    } else if s[0] == 100 {
        lemma_budget_entries(s.skip(1), b, c, Seq::empty());
        assert(count_dict(Seq::<(Seq<u8>, SpecValue)>::empty()) == 0);
    }
}

/// The list form of the budget law, one unit charged per element.
pub proof fn lemma_budget_items(s: Seq<u8>, b: nat, c: nat)
    ensures
        parse_items(s, b) matches Some((items, r, rb)) ==> rb <= b && b - rb == count_list(items)
            && (if c >= count_list(items) {
            parse_items(s, c) == Some((items, r, (c - count_list(items)) as nat))
        } else {
            parse_items(s, c) is None
        }),
    decreases s.len(), 3int,
{
    if s.len() == 0 {
    } else if s[0] == 101 {
    } else if b == 0 {
    } else {
        if parse_value(s, (b - 1) as nat) is Some {
            let (v, r, b2) = parse_value(s, (b - 1) as nat)->Some_0;
            if r.len() < s.len() && parse_items(r, b2) is Some {
                let (items2, r2, b3) = parse_items(r, b2)->Some_0;
                assert(count_list(seq![v] + items2) == 1 + count_entries(v) + count_list(
                    (seq![v] + items2).skip(1),
                )) by {
                    assert((seq![v] + items2)[0] == v);
                }
                assert((seq![v] + items2).skip(1) =~= items2);
                if c == 0 {
                    lemma_budget_value(s, (b - 1) as nat, 0);
                    lemma_budget_items(r, b2, 0);
                } else if c - 1 < count_entries(v) {
                    lemma_budget_value(s, (b - 1) as nat, (c - 1) as nat);
                    lemma_budget_items(r, b2, 0);
                } else {
                    lemma_budget_value(s, (b - 1) as nat, (c - 1) as nat);
                    lemma_budget_items(r, b2, (c - 1 - count_entries(v)) as nat);
                }
            } else {
                lemma_budget_value(s, (b - 1) as nat, c);
            }
        }
    }
}

/// The dictionary form of the budget law, one unit charged per entry; the
/// running total is measured against the entries gathered so far.
pub proof fn lemma_budget_entries(s: Seq<u8>, b: nat, c: nat, acc: Seq<(Seq<u8>, SpecValue)>)
    ensures
        parse_entries(s, b, acc) matches Some((es, r, rb)) ==> rb <= b && count_dict(acc) + (b
            - rb) == count_dict(es) && (if c + count_dict(acc) >= count_dict(es) {
            parse_entries(s, c, acc) == Some(
                (es, r, (c + count_dict(acc) - count_dict(es)) as nat),
            )
        } else {
            parse_entries(s, c, acc) is None
        }),
    decreases s.len(), 3int,
{
    if s.len() == 0 {
    } else if s[0] == 101 {
    } else {
        if parse_bstr(s) is Some {
            let (k, r1) = parse_bstr(s)->Some_0;
            if r1.len() < s.len() && b > 0 {
                if parse_value(r1, (b - 1) as nat) is Some {
                    let (v, r2, b2) = parse_value(r1, (b - 1) as nat)->Some_0;
                    if r2.len() < s.len() && insert_sorted(acc, k, v) is Some {
                        let acc2 = insert_sorted(acc, k, v)->Some_0;
                        lemma_count_insert_sorted(acc, k, v);
                        if c == 0 {
                            lemma_budget_value(r1, (b - 1) as nat, 0);
                            lemma_budget_entries(r2, b2, 0, acc2);
                        } else if c - 1 < count_entries(v) {
                            lemma_budget_value(r1, (b - 1) as nat, (c - 1) as nat);
                            lemma_budget_entries(r2, b2, 0, acc2);
                        } else {
                            lemma_budget_value(r1, (b - 1) as nat, (c - 1) as nat);
                            lemma_budget_entries(
                                r2,
                                b2,
                                (c - 1 - count_entries(v)) as nat,
                                acc2,
                            );
                        }
                    } else {
                        lemma_budget_value(r1, (b - 1) as nat, c);
                    }
                } else {
                    lemma_budget_value(r1, (b - 1) as nat, c);
                }
            }
        }
    }
}

/// The budget threshold, at the decoding entry point: when a decode succeeds,
/// it succeeds with exactly the budgets at least the entry count of the tree
/// it returns, always with the same tree, and fails below that.
pub proof fn lemma_budget_threshold(s: Seq<u8>, b: nat, c: nat)
    ensures
        spec_decode(s, b) matches Some(v) ==> {
            &&& c >= count_entries(v) ==> spec_decode(s, c) == Some(v)
            &&& c < count_entries(v) ==> spec_decode(s, c) is None
        },
{
    lemma_budget_value(s, b, c);
}

} // verus!
