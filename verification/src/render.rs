//! Human-readable diagnostic rendering of a tree: integers as decimal, byte
//! strings as quoted text when they are valid UTF-8 and as lowercase hex
//! otherwise, lists and dictionaries structurally. Purely for diagnostics —
//! this is not the wire format and does not round-trip.

use vstd::prelude::*;
use vstd::utf8::valid_utf8;

use crate::model::{abs_of, dec_digits, SpecValue};
use crate::try_from_value::utf8_to_str;
use crate::value::{view_dict, view_list, Value};

verus! {

/// The lowercase hex digit of a value below sixteen.
pub open spec fn hex_digit(n: int) -> u8 {
    if n < 10 {
        (48 + n) as u8
    } else {
        (87 + n) as u8
    }
}

/// Two lowercase hex digits for each byte.
pub open spec fn hex_bytes(s: Seq<u8>) -> Seq<u8>
    decreases s.len(),
{
    if s.len() == 0 {
        Seq::empty()
    } else {
        seq![hex_digit(s[0] as int / 16), hex_digit(s[0] as int % 16)] + hex_bytes(s.skip(1))
    }
}

/// A byte string renders as quoted text when valid UTF-8, else as hex.
pub open spec fn rendered_str(s: Seq<u8>) -> Seq<u8> {
    if valid_utf8(s) {
        seq![34u8] + s + seq![34u8]
    } else {
        hex_bytes(s)
    }
}

/// The diagnostic text of a tree.
pub open spec fn rendered(v: SpecValue) -> Seq<u8>
    decreases v, 1int,
{
    match v {
        SpecValue::Int(n) => (if n < 0 {
            seq![45u8]
        } else {
            Seq::<u8>::empty()
        }) + dec_digits(abs_of(n)),
        SpecValue::Str(s) => rendered_str(s),
        SpecValue::List(items) => seq![91u8] + rendered_items(items) + seq![93u8],
        SpecValue::Dict(es) => seq![123u8] + rendered_entries(es) + seq![125u8],
    }
}

/// List elements, separated by a comma and a space.
pub open spec fn rendered_items(items: Seq<SpecValue>) -> Seq<u8>
    decreases items, 0int,
{
    if items.len() == 0 {
        Seq::empty()
    } else {
        rendered(items[0]) + rendered_items_tail(items.skip(1))
    }
}

/// The elements after the first, each preceded by a comma and a space.
pub open spec fn rendered_items_tail(items: Seq<SpecValue>) -> Seq<u8>
    decreases items, 0int,
{
    if items.len() == 0 {
        Seq::empty()
    } else {
        seq![44u8, 32u8] + rendered(items[0]) + rendered_items_tail(items.skip(1))
    }
}

/// Dictionary entries, each as key, a colon and a space, then the value,
/// separated by a comma and a space.
pub open spec fn rendered_entries(es: Seq<(Seq<u8>, SpecValue)>) -> Seq<u8>
    decreases es, 0int,
{
    if es.len() == 0 {
        Seq::empty()
    } else {
        rendered_entry(es[0]) + rendered_entries_tail(es.skip(1))
    }
}

/// The entries after the first, each preceded by a comma and a space.
pub open spec fn rendered_entries_tail(es: Seq<(Seq<u8>, SpecValue)>) -> Seq<u8>
    decreases es, 0int,
{
    if es.len() == 0 {
        Seq::empty()
    } else {
        seq![44u8, 32u8] + rendered_entry(es[0]) + rendered_entries_tail(es.skip(1))
    }
}

/// One dictionary entry: key, colon, space, value.
pub open spec fn rendered_entry(e: (Seq<u8>, SpecValue)) -> Seq<u8>
    decreases e, 1int,
{
    rendered_str(e.0) + seq![58u8, 32u8] + rendered(e.1)
}

/// Extending the tail by one element appends a separator and its text.
proof fn lemma_items_tail_push(items: Seq<SpecValue>, v: SpecValue)
    ensures
        rendered_items_tail(items.push(v)) == rendered_items_tail(items) + (seq![44u8, 32u8]
            + rendered(v)),
    decreases items.len(),
{
    if items.len() == 0 {
        assert(items.push(v)[0] == v);
        assert(items.push(v).skip(1) =~= items);
        assert(rendered_items_tail(items.push(v)) =~= rendered_items_tail(items) + (seq![
            44u8,
            32u8,
        ] + rendered(v)));
    } else {
        assert(items.push(v)[0] == items[0]);
        assert(items.push(v).skip(1) =~= items.skip(1).push(v));
        lemma_items_tail_push(items.skip(1), v);
        assert(rendered_items_tail(items.push(v)) =~= rendered_items_tail(items) + (seq![
            44u8,
            32u8,
        ] + rendered(v)));
    }
}

/// Extending the tail by one entry appends a separator and its text.
proof fn lemma_entries_tail_push(es: Seq<(Seq<u8>, SpecValue)>, e: (Seq<u8>, SpecValue))
    ensures
        rendered_entries_tail(es.push(e)) == rendered_entries_tail(es) + (seq![44u8, 32u8]
            + rendered_entry(e)),
    decreases es.len(),
{
    if es.len() == 0 {
        assert(es.push(e)[0] == e);
        assert(es.push(e).skip(1) =~= es);
        assert(rendered_entries_tail(es.push(e)) =~= rendered_entries_tail(es) + (seq![44u8, 32u8]
            + rendered_entry(e)));
    } else {
        assert(es.push(e)[0] == es[0]);
        assert(es.push(e).skip(1) =~= es.skip(1).push(e));
        lemma_entries_tail_push(es.skip(1), e);
        assert(rendered_entries_tail(es.push(e)) =~= rendered_entries_tail(es) + (seq![44u8, 32u8]
            + rendered_entry(e)));
    }
}

/// The lowercase hex digit of a value below sixteen.
fn hex_digit_byte(n: u8) -> (r: u8)
    requires
        n < 16,
    ensures
        r == hex_digit(n as int),
{
    if n < 10 {
        48 + n
    } else {
        87 + n
    }
}

/// Appends the diagnostic text of a byte string.
fn render_str_into(s: &[u8], out: &mut Vec<u8>)
    ensures
        final (out)@ == old(out)@ + rendered_str(s@),
{
    if utf8_to_str(s).is_some() {
        out.push(34);
        out.extend_from_slice(s);
        out.push(34);
        proof {
            assert(final (out)@ =~= old(out)@ + rendered_str(s@));
        }
        return ;
    }
    let ghost base = out@;
    let n = s.len();
    let mut i: usize = 0;
    while i < n
        invariant
            0 <= i <= n,
            n == s@.len(),
            !valid_utf8(s@),
            out@ == base + hex_bytes(s@.take(i as int)),
        decreases n - i,
    {
        let b = s[i];
        out.push(hex_digit_byte(b / 16));
        out.push(hex_digit_byte(b % 16));
        proof {
            lemma_hex_bytes_push(s@.take(i as int), s@[i as int]);
            assert(s@.take(i + 1) =~= s@.take(i as int).push(s@[i as int]));
        }
        i += 1;
    }
    proof {
        assert(s@.take(n as int) =~= s@);
    }
}

/// Hexing one more byte appends its two digits.
proof fn lemma_hex_bytes_push(s: Seq<u8>, b: u8)
    ensures
        hex_bytes(s.push(b)) == hex_bytes(s) + seq![
            hex_digit(b as int / 16),
            hex_digit(b as int % 16),
        ],
    decreases s.len(),
{
    if s.len() == 0 {
        assert(s.push(b)[0] == b);
        assert(s.push(b).skip(1) =~= s);
        assert(hex_bytes(s.push(b)) =~= hex_bytes(s) + seq![
            hex_digit(b as int / 16),
            hex_digit(b as int % 16),
        ]);
    } else {
        assert(s.push(b)[0] == s[0]);
        assert(s.push(b).skip(1) =~= s.skip(1).push(b));
        lemma_hex_bytes_push(s.skip(1), b);
        assert(hex_bytes(s.push(b)) =~= hex_bytes(s) + seq![
            hex_digit(b as int / 16),
            hex_digit(b as int % 16),
        ]);
    }
}

/// Appends the minimal decimal digits of a magnitude.
fn render_dec_u64(m: u64, out: &mut Vec<u8>)
    ensures
        final (out)@ == old(out)@ + dec_digits(m as nat),
    decreases m,
{
    if m >= 10 {
        render_dec_u64(m / 10, out);
    }
    out.push(48 + (m % 10) as u8);
    proof {
        if m >= 10 {
            assert(old(out)@ + dec_digits((m / 10) as nat).push((48 + m % 10) as u8) =~= (old(
                out,
            )@ + dec_digits((m / 10) as nat)).push((48 + m % 10) as u8));
        } else {
            assert(old(out)@ + dec_digits(m as nat) =~= old(out)@.push((48 + m) as u8));
        }
    }
}

/// Appends the diagnostic text of one value.
fn render_value(v: &Value, out: &mut Vec<u8>)
    ensures
        final (out)@ == old(out)@ + rendered(v@),
    decreases v,
{
    match v {
        Value::Int(n) => {
            if *n < 0 {
                out.push(45);
            }
            let m: u64 = if *n < 0 {
                if *n == i64::MIN {
                    9223372036854775808u64
                } else {
                    (-*n) as u64
                }
            } else {
                *n as u64
            };
            proof {
                assert(m as nat == abs_of(*n as int));
            }
            render_dec_u64(m, out);
            proof {
                assert(final (out)@ =~= old(out)@ + rendered(v@));
            }
        },
        Value::Str(s) => {
            render_str_into(s.as_slice(), out);
        },
        Value::List(l) => {
            render_list(l.as_slice(), out);
        },
        Value::Dict(d) => {
            render_dict(d.as_slice(), out);
        },
    }
}

/// Appends the diagnostic text of a list.
fn render_list(l: &[Value], out: &mut Vec<u8>)
    ensures
        final (out)@ == old(out)@ + rendered(SpecValue::List(view_list(l@))),
    decreases l@,
{
    out.push(91);
    let ghost base = out@;
    let ghost view = view_list(l@);
    proof {
        crate::value::lemma_view_list(l@);
    }
    let n = l.len();
    let mut i: usize = 0;
    while i < n
        invariant
            0 <= i <= n,
            n == l@.len(),
            view == view_list(l@),
            view.len() == n,
            forall|j: int| 0 <= j < n ==> #[trigger] view[j] == l@[j]@,
            out@ == base + (if i == 0 {
                Seq::<u8>::empty()
            } else {
                rendered(view[0]) + rendered_items_tail(view.subrange(1, i as int))
            }),
        decreases n - i,
    {
        let ghost pre = out@;
        if i > 0 {
            out.push(44);
            out.push(32);
        }
        render_value(&l[i], out);
        proof {
            if i == 0 {
                assert(view.subrange(1, 1) =~= Seq::<SpecValue>::empty());
                assert(out@ =~= base + (rendered(view[0]) + rendered_items_tail(view.subrange(
                    1,
                    1,
                ))));
            } else {
                lemma_items_tail_push(view.subrange(1, i as int), view[i as int]);
                assert(view.subrange(1, i + 1) =~= view.subrange(1, i as int).push(
                    view[i as int],
                ));
                assert(out@ =~= base + (rendered(view[0]) + rendered_items_tail(view.subrange(
                    1,
                    i + 1,
                ))));
            }
        }
        i += 1;
    }
    out.push(93);
    proof {
        if n > 0 {
            assert(view.subrange(1, n as int) =~= view.skip(1));
        }
        assert(final (out)@ =~= old(out)@ + rendered(SpecValue::List(view)));
    }
}

/// Appends the diagnostic text of a dictionary.
fn render_dict(d: &[(Vec<u8>, Value)], out: &mut Vec<u8>)
    ensures
        final (out)@ == old(out)@ + rendered(SpecValue::Dict(view_dict(d@))),
    decreases d@,
{
    out.push(123);
    let ghost base = out@;
    let ghost view = view_dict(d@);
    proof {
        crate::value::lemma_view_dict(d@);
    }
    let n = d.len();
    let mut i: usize = 0;
    while i < n
        invariant
            0 <= i <= n,
            n == d@.len(),
            view == view_dict(d@),
            view.len() == n,
            forall|j: int| 0 <= j < n ==> #[trigger] view[j] == (d@[j].0@, d@[j].1@),
            out@ == base + (if i == 0 {
                Seq::<u8>::empty()
            } else {
                rendered_entry(view[0]) + rendered_entries_tail(view.subrange(1, i as int))
            }),
        decreases n - i,
    {
        if i > 0 {
            out.push(44);
            out.push(32);
        }
        render_str_into(d[i].0.as_slice(), out);
        out.push(58);
        out.push(32);
        render_value(&d[i].1, out);
        proof {
            if i == 0 {
                assert(view.subrange(1, 1) =~= Seq::<(Seq<u8>, SpecValue)>::empty());
                assert(out@ =~= base + (rendered_entry(view[0]) + rendered_entries_tail(
                    view.subrange(1, 1),
                )));
            } else {
                lemma_entries_tail_push(view.subrange(1, i as int), view[i as int]);
                assert(view.subrange(1, i + 1) =~= view.subrange(1, i as int).push(
                    view[i as int],
                ));
                assert(out@ =~= base + (rendered_entry(view[0]) + rendered_entries_tail(
                    view.subrange(1, i + 1),
                )));
            }
        }
        i += 1;
    }
    out.push(125);
    proof {
        if n > 0 {
            assert(view.subrange(1, n as int) =~= view.skip(1));
        }
        assert(final (out)@ =~= old(out)@ + rendered(SpecValue::Dict(view)));
    }
}

impl Value {
    /// The diagnostic text of this tree, as bytes: decimal integers, quoted
    /// text or lowercase hex for byte strings, brackets and braces for the
    /// containers. Not the wire format, and not round-trippable.
    pub fn render(&self) -> (r: Vec<u8>)
        ensures
            r@ == rendered(self@),
    {
        let mut out: Vec<u8> = Vec::new();
        render_value(self, &mut out);
        proof {
            assert(Seq::<u8>::empty() + rendered(self@) =~= rendered(self@));
        }
        out
    }
}

} // verus!
