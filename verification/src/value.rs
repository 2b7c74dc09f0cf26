//! The tagged-union tree type and the operations that keep its invariants.

use vstd::prelude::*;

use crate::decoder::Decoder;
use crate::encoder::Encoder;
use crate::grammar::{insert_sorted, spec_decode};
use crate::model::{
    encoded, entries_sorted, lemma_lex_skip, lemma_lex_trichotomy, lex_lt, wf, SpecValue,
};
use crate::try_from_value::TryFromValue;
use vstd::string::StringSliceAdditionalSpecFns;

verus! {

/// An alias for the integer shape.
pub type Int = i64;

/// An alias for the byte-string shape. Byte strings are held as owned,
/// independently allocated bytes, so a decoded tree never ties itself to the
/// lifetime of its input buffer and equality is byte-content equality.
pub type Str = Vec<u8>;

/// An alias for the list shape.
pub type List = Vec<Value>;

/// An alias for the dictionary shape: entries kept in strictly ascending
/// byte-lexicographic key order with unique keys. The sort order is an
/// invariant of construction ([`dict_insert`]), not something the encoder
/// recomputes.
pub type Dict = Vec<(Vec<u8>, Value)>;

/// A tree value: an integer, a byte string, a list, or a key-sorted
/// dictionary.
#[derive(Debug, PartialEq, Eq, PartialOrd, Ord, Hash)]
pub enum Value {
    Int(Int),
    Str(Str),
    List(List),
    Dict(Dict),
}

/// The denotation of a list's elements.
pub open spec fn view_list(items: Seq<Value>) -> Seq<SpecValue>
    decreases items,
{
    if items.len() == 0 {
        Seq::empty()
    } else {
        seq![items[0]@] + view_list(items.skip(1))
    }
}

/// The denotation of a dictionary's entries.
pub open spec fn view_dict(es: Seq<(Vec<u8>, Value)>) -> Seq<(Seq<u8>, SpecValue)>
    decreases es,
{
    if es.len() == 0 {
        Seq::empty()
    } else {
        seq![(es[0].0@, es[0].1@)] + view_dict(es.skip(1))
    }
}

impl View for Value {
    type V = SpecValue;

    open spec fn view(&self) -> SpecValue
        decreases self,
    {
        match self {
            Value::Int(n) => SpecValue::Int(*n as int),
            Value::Str(s) => SpecValue::Str(s@),
            Value::List(l) => SpecValue::List(view_list(l@)),
            Value::Dict(d) => SpecValue::Dict(view_dict(d@)),
        }
    }
}

/// `view_list` maps the sequence element by element.
pub proof fn lemma_view_list(items: Seq<Value>)
    ensures
        view_list(items).len() == items.len(),
        forall|i: int| 0 <= i < items.len() ==> #[trigger] view_list(items)[i] == items[i]@,
    decreases items.len(),
{
    if items.len() > 0 {
        lemma_view_list(items.skip(1));
        assert(view_list(items) == seq![items[0]@] + view_list(items.skip(1)));
        assert forall|i: int|
            0 <= i < items.len() implies #[trigger] view_list(items)[i] == items[i]@ by {
            if i > 0 {
                assert(items.skip(1)[i - 1] == items[i]);
            }
        }
    }
}

/// `view_dict` maps the sequence entry by entry.
pub proof fn lemma_view_dict(es: Seq<(Vec<u8>, Value)>)
    ensures
        view_dict(es).len() == es.len(),
        forall|i: int|
            0 <= i < es.len() ==> #[trigger] view_dict(es)[i] == (es[i].0@, es[i].1@),
    decreases es.len(),
{
    if es.len() > 0 {
        lemma_view_dict(es.skip(1));
        assert(view_dict(es) == seq![(es[0].0@, es[0].1@)] + view_dict(es.skip(1)));
        assert forall|i: int|
            0 <= i < es.len() implies #[trigger] view_dict(es)[i] == (es[i].0@, es[i].1@) by {
            if i > 0 {
                assert(es.skip(1)[i - 1] == es[i]);
            }
        }
    }
}

/// Byte-content equality of two byte strings.
pub fn bytes_eq(a: &[u8], b: &[u8]) -> (r: bool)
    ensures
        r == (a@ == b@),
{
    if a.len() != b.len() {
        proof {
            assert(a@ != b@);
        }
        return false;
    }
    let n = a.len();
    let mut i: usize = 0;
    while i < n
        invariant
            0 <= i <= n,
            n == a@.len() == b@.len(),
            forall|j: int| 0 <= j < i ==> a@[j] == b@[j],
        decreases n - i,
    {
        if a[i] != b[i] {
            return false;
        }
        i += 1;
    }
    proof {
        assert(a@ =~= b@);
    }
    true
}

/// Whether `a` sorts strictly before `b` in byte-lexicographic order.
pub fn bytes_lt(a: &[u8], b: &[u8]) -> (r: bool)
    ensures
        r == lex_lt(a@, b@),
{
    let na = a.len();
    let nb = b.len();
    let n = if na < nb {
        na
    } else {
        nb
    };
    let mut i: usize = 0;
    while i < n
        invariant
            0 <= i <= n,
            na == a@.len(),
            nb == b@.len(),
            n == if na < nb {
                na
            } else {
                nb
            },
            a@.take(i as int) =~= b@.take(i as int),
        decreases n - i,
    {
        if a[i] < b[i] {
            proof {
                lemma_lex_skip(a@, b@, i as int);
            }
            return true;
        }
        if a[i] > b[i] {
            proof {
                lemma_lex_skip(a@, b@, i as int);
            }
            return false;
        }
        proof {
            assert(a@.take(i + 1) =~= b@.take(i + 1));
        }
        i += 1;
    }
    proof {
        lemma_lex_skip(a@, b@, n as int);
    }
    na < nb
}

/// Where the recursive `insert_sorted` puts a new key, said with an index:
/// scanning past the keys that sort before `k`, the pair lands at position
/// `p`, unless the key at `p` equals `k`, which is the duplicate failure.
pub proof fn lemma_insert_sorted_at(
    es: Seq<(Seq<u8>, SpecValue)>,
    k: Seq<u8>,
    v: SpecValue,
    p: int,
)
    requires
        0 <= p <= es.len(),
        forall|i: int| 0 <= i < p ==> lex_lt((#[trigger] es[i]).0, k),
        p < es.len() ==> !lex_lt(es[p].0, k),
    ensures
        insert_sorted(es, k, v) == if p < es.len() && es[p].0 == k {
            None::<Seq<(Seq<u8>, SpecValue)>>
        } else {
            Some(es.take(p) + seq![(k, v)] + es.skip(p))
        },
    decreases es.len(),
{
    if es.len() == 0 {
        assert(es.take(0) + seq![(k, v)] + es.skip(0) =~= seq![(k, v)]);
    } else if p == 0 {
        lemma_lex_trichotomy(k, es[0].0);
        if es[0].0 == k {
        } else {
            assert(lex_lt(k, es[0].0));
            assert(es.take(0) + seq![(k, v)] + es.skip(0) =~= seq![(k, v)] + es);
        }
    } else {
        lemma_lex_trichotomy(k, es[0].0);
        lemma_insert_sorted_at(es.skip(1), k, v, p - 1);
        if p < es.len() && es[p].0 == k {
            assert(es.skip(1)[p - 1].0 == k);
        } else {
            assert(seq![es[0]] + (es.skip(1).take(p - 1) + seq![(k, v)] + es.skip(1).skip(p - 1))
                =~= es.take(p) + seq![(k, v)] + es.skip(p));
        }
    }
}

/// The number of leading entries whose keys sort strictly before `key`.
fn scan_before(entries: &Dict, key: &[u8]) -> (p: usize)
    ensures
        0 <= p <= entries@.len(),
        forall|i: int| 0 <= i < p ==> lex_lt(#[trigger] view_dict(entries@)[i].0, key@),
        p < entries@.len() ==> !lex_lt(view_dict(entries@)[p as int].0, key@),
{
    proof {
        lemma_view_dict(entries@);
    }
    let n = entries.len();
    let mut p: usize = 0;
    while p < n
        invariant
            0 <= p <= n,
            n == entries@.len(),
            view_dict(entries@).len() == n,
            forall|i: int|
                0 <= i < n ==> #[trigger] view_dict(entries@)[i] == (entries@[i].0@, entries@[i].1@),
            forall|i: int| 0 <= i < p ==> lex_lt(#[trigger] view_dict(entries@)[i].0, key@),
        decreases n - p,
    {
        if !bytes_lt(entries[p].0.as_slice(), key) {
            return p;
        }
        p += 1;
    }
    p
}

/// Inserts a key/value pair into a key-sorted dictionary, keeping the order;
/// refuses a duplicate key and then leaves the dictionary unchanged.
pub fn dict_insert(entries: &mut Dict, key: Vec<u8>, value: Value) -> (ok: bool)
    ensures
        match insert_sorted(view_dict(old(entries)@), key@, value@) {
            Some(es) => ok && view_dict(final (entries)@) == es,
            None => !ok && final (entries)@ == old(entries)@,
        },
{
    proof {
        lemma_view_dict(entries@);
    }
    let ghost es0 = view_dict(entries@);
    let n = entries.len();
    let p = scan_before(entries, key.as_slice());
    if p < n {
        if bytes_eq(entries[p].0.as_slice(), key.as_slice()) {
            proof {
                lemma_insert_sorted_at(es0, key@, value@, p as int);
            }
            return false;
        }
    }
    proof {
        lemma_insert_sorted_at(es0, key@, value@, p as int);
    }
    let ghost pre = entries@;
    entries.insert(p, (key, value));
    proof {
        lemma_view_dict(entries@);
        lemma_view_dict(pre);
        assert(view_dict(entries@) =~= es0.take(p as int) + seq![(key@, value@)] + es0.skip(
            p as int,
        ));
    }
    true
}


/// The value stored under a key, looking entries up front to back.
pub open spec fn dict_lookup(es: Seq<(Vec<u8>, Value)>, k: Seq<u8>) -> Option<Value>
    decreases es.len(),
{
    if es.len() == 0 {
        None
    } else if es[0].0@ == k {
        Some(es[0].1)
    } else {
        dict_lookup(es.skip(1), k)
    }
}

impl Value {
    /// Encodes the tree into a fresh buffer, pre-sized with a generous
    /// default capacity to avoid reallocation in common cases.
    pub fn encode(&self) -> (r: Vec<u8>)
        ensures
            r@ == encoded(self@),
    {
        let mut e = Encoder::new(Vec::with_capacity(1500));
        e.value(self);
        proof {
            assert(Seq::<u8>::empty() + encoded(self@) =~= encoded(self@));
        }
        e.into_buf()
    }

    /// Encodes the tree into the provided buffer, which is cleared first; its
    /// capacity is kept and only ever grows, so reusing one buffer across
    /// calls amortizes allocation.
    pub fn encode_into(&self, buf: &mut Vec<u8>)
        ensures
            final (buf)@ == encoded(self@),
    {
        let mut tmp: Vec<u8> = Vec::new();
        core::mem::swap(buf, &mut tmp);
        let mut e = Encoder::new(tmp);
        e.value(self);
        proof {
            assert(Seq::<u8>::empty() + encoded(self@) =~= encoded(self@));
        }
        let mut out = e.into_buf();
        core::mem::swap(buf, &mut out);
    }

    /// Decodes one value from the front of `buf`; bytes after it are left
    /// alone and are not an error. `max_allocs` bounds how many list elements
    /// and dictionary entries the parse may materialize: each costs one unit
    /// as its parsing begins, and an exhausted budget fails the whole decode.
    /// Any malformed byte, truncation, numeric overflow or duplicate
    /// dictionary key also fails the whole decode: there is no partial
    /// result. A returned tree is always well formed.
    pub fn decode(buf: &[u8], max_allocs: usize) -> (r: Option<Value>)
        ensures
            match r {
                Some(v) => spec_decode(buf@, max_allocs as nat) == Some(v@) && wf(v@),
                None => spec_decode(buf@, max_allocs as nat) is None,
            },
    {
        let mut d = Decoder::new(buf, max_allocs);
        let r = d.take_value();
        proof {
            crate::laws::lemma_parse_value_wf(buf@, max_allocs as nat);
        }
        r
    }

    /// Converts the tree into one that owns all of its data. Byte strings are
    /// always held as owned bytes here, so the tree is already independent of
    /// any input buffer and is returned unchanged.
    pub fn into_owned(self) -> (r: Value)
        ensures
            r == self,
    {
        self
    }

    /// Converts this value into the requested target shape, failing when the
    /// variant does not match or its validation fails.
    pub fn try_into<'b, T: TryFromValue<'b>>(&'b self) -> (r: Option<T>)
        ensures
            r is Some <==> T::accepts(*self),
            r matches Some(t) ==> T::extracted(t, *self),
    {
        T::try_from(self)
    }

    /// Treats this value as a dictionary and extracts the value under `key`,
    /// converted into the requested shape. Not being a dictionary, a missing
    /// key and a failed conversion all yield the same empty outcome.
    pub fn get<'b, T: TryFromValue<'b>>(&'b self, key: &str) -> (r: Option<T>)
        ensures
            match *self {
                Value::Dict(es) => match dict_lookup(es@, key.spec_bytes()) {
                    Some(w) => (r is Some <==> T::accepts(w)) && (r matches Some(t)
                        ==> T::extracted(t, w)),
                    None => r is None,
                },
                _ => r is None,
            },
    {
        let es = match self {
            Value::Dict(es) => es,
            _ => {
                return None;
            },
        };
        let kb = key.as_bytes();
        let n = es.len();
        let mut i: usize = 0;
        proof {
            assert(es@.skip(0) =~= es@);
        }
        while i < n
            invariant
                0 <= i <= n,
                n == es@.len(),
                *self == Value::Dict(*es),
                kb@ == key.spec_bytes(),
                dict_lookup(es@.skip(i as int), kb@) == dict_lookup(es@, kb@),
            decreases n - i,
        {
            proof {
                assert(es@.skip(i as int)[0] == es@[i as int]);
                assert(es@.skip(i as int).skip(1) =~= es@.skip(i + 1));
            }
            if bytes_eq(es[i].0.as_slice(), kb) {
                proof {
                    assert(dict_lookup(es@.skip(i as int), kb@) == Some(es@[i as int].1));
                }
                return T::try_from(&es[i].1);
            }
            i += 1;
        }
        None
    }
}

} // verus!
