//! The canonical serializer: writes a tree into a byte buffer, producing
//! exactly the bytes that `model::encoded` describes.

use vstd::prelude::*;

use crate::model::{abs_of, dec_digits, encoded, encoded_dict, encoded_list, encoded_str, SpecValue};
use crate::value::{view_dict, view_list, Value};

verus! {

/// Appending one more element to a list encodes as the old encoding followed
/// by the element's encoding.
pub proof fn lemma_encoded_list_push(s: Seq<SpecValue>, v: SpecValue)
    ensures
        encoded_list(s.push(v)) == encoded_list(s) + encoded(v),
    decreases s.len(),
{
    if s.len() == 0 {
        assert(s.push(v)[0] == v);
        assert(s.push(v).skip(1) =~= s);
        assert(encoded_list(s) == Seq::<u8>::empty());
        assert(encoded_list(s.push(v)) == encoded(v) + encoded_list(s));
        assert(encoded_list(s.push(v)) =~= encoded_list(s) + encoded(v));
    } else {
        assert(s.push(v)[0] == s[0]);
        assert(s.push(v).skip(1) =~= s.skip(1).push(v));
        lemma_encoded_list_push(s.skip(1), v);
        assert(encoded_list(s.push(v)) == encoded(s[0]) + (encoded_list(s.skip(1)) + encoded(v)));
        assert(encoded_list(s) == encoded(s[0]) + encoded_list(s.skip(1)));
        assert(encoded_list(s.push(v)) =~= encoded_list(s) + encoded(v));
    }
}

/// Appending one more entry to a dictionary encodes as the old encoding
/// followed by the key's and the value's encodings.
pub proof fn lemma_encoded_dict_push(es: Seq<(Seq<u8>, SpecValue)>, k: Seq<u8>, v: SpecValue)
    ensures
        encoded_dict(es.push((k, v))) == encoded_dict(es) + encoded_str(k) + encoded(v),
    decreases es.len(),
{
    if es.len() == 0 {
        assert(es.push((k, v))[0] == (k, v));
        assert(es.push((k, v)).skip(1) =~= es);
        assert(encoded_dict(es) == Seq::<u8>::empty());
        assert(encoded_dict(es.push((k, v))) == encoded_str(k) + encoded(v) + encoded_dict(es));
        assert(encoded_dict(es.push((k, v))) =~= encoded_dict(es) + encoded_str(k) + encoded(v));
    } else {
        assert(es.push((k, v))[0] == es[0]);
        assert(es.push((k, v)).skip(1) =~= es.skip(1).push((k, v)));
        lemma_encoded_dict_push(es.skip(1), k, v);
        assert(encoded_dict(es.push((k, v))) == encoded_str(es[0].0) + encoded(es[0].1) + (
        encoded_dict(es.skip(1)) + encoded_str(k) + encoded(v)));
        assert(encoded_dict(es) == encoded_str(es[0].0) + encoded(es[0].1) + encoded_dict(
            es.skip(1),
        ));
        assert(encoded_dict(es.push((k, v))) =~= encoded_dict(es) + encoded_str(k) + encoded(v));
    }
}

/// A serializer around a growable output buffer. The buffer is cleared when
/// the encoder takes it over and only ever appended to afterwards, so its
/// capacity grows monotonically across reuse.
pub struct Encoder {
    buf: Vec<u8>,
}

impl View for Encoder {
    type V = Seq<u8>;

    closed spec fn view(&self) -> Seq<u8> {
        self.buf@
    }
}

impl Encoder {
    /// Takes over an output buffer, clearing any previous contents (the
    /// allocated capacity is kept).
    pub fn new(buf: Vec<u8>) -> (e: Encoder)
        ensures
            e@ == Seq::<u8>::empty(),
    {
        let mut buf = buf;
        buf.clear();
        Encoder { buf }
    }

    /// Hands the filled buffer back.
    pub fn into_buf(self) -> (r: Vec<u8>)
        ensures
            r@ == self@,
    {
        self.buf
    }

    /// Empties the output buffer, keeping its capacity.
    pub fn clear(&mut self)
        ensures
            final (self)@ == Seq::<u8>::empty(),
    {
        self.buf.clear();
    }

    /// Appends one raw byte.
    pub fn raw_u8(&mut self, n: u8)
        ensures
            final (self)@ == old(self)@.push(n),
    {
        self.buf.push(n);
    }

    /// Appends the minimal decimal digits of an unsigned 64-bit magnitude.
    pub fn raw_u64(&mut self, n: u64)
        ensures
            final (self)@ == old(self)@ + dec_digits(n as nat),
        decreases n,
    {
        if n >= 10 {
            self.raw_u64(n / 10);
        }
        self.raw_u8(48 + (n % 10) as u8);
        proof {
            if n >= 10 {
                assert(old(self)@ + dec_digits((n / 10) as nat).push((48 + n % 10) as u8)
                    =~= (old(self)@ + dec_digits((n / 10) as nat)).push((48 + n % 10) as u8));
            } else {
                assert(old(self)@ + dec_digits(n as nat) =~= old(self)@.push((48 + n) as u8));
            }
        }
    }

    /// Appends the minimal decimal digits of an unsigned machine-word
    /// magnitude.
    pub fn raw_usize(&mut self, n: usize)
        ensures
            final (self)@ == old(self)@ + dec_digits(n as nat),
        decreases n,
    {
        if n >= 10 {
            self.raw_usize(n / 10);
        }
        self.raw_u8(48 + (n % 10) as u8);
        proof {
            if n >= 10 {
                assert(old(self)@ + dec_digits((n / 10) as nat).push((48 + n % 10) as u8)
                    =~= (old(self)@ + dec_digits((n / 10) as nat)).push((48 + n % 10) as u8));
            } else {
                assert(old(self)@ + dec_digits(n as nat) =~= old(self)@.push((48 + n) as u8));
            }
        }
    }

    /// Appends raw bytes verbatim.
    pub fn raw_slice(&mut self, data: &[u8])
        ensures
            final (self)@ == old(self)@ + data@,
    {
        self.buf.extend_from_slice(data);
    }

    /// Extends the buffer with `len` zero bytes, returning the offset where
    /// the fresh region begins.
    pub fn grow(&mut self, len: usize) -> (start: usize)
        requires
            old(self)@.len() + len <= usize::MAX,
        ensures
            final (self)@ == old(self)@ + Seq::new(len as nat, |i: int| 0u8),
            start == old(self)@.len(),
    {
        let start = self.buf.len();
        self.buf.resize(start + len, 0);
        proof {
            assert(final (self)@ =~= old(self)@ + Seq::new(len as nat, |i: int| 0u8));
        }
        start
    }

    /// Writes an integer: `i`, an optional `-`, the minimal decimal digits of
    /// the magnitude, `e`.
    pub fn integer(&mut self, n: i64)
        ensures
            final (self)@ == old(self)@ + encoded(SpecValue::Int(n as int)),
    {
        self.raw_u8(105);
        if n < 0 {
            self.raw_u8(45);
        }
        let m: u64 = if n < 0 {
            if n == i64::MIN {
                9223372036854775808u64
            } else {
                (-n) as u64
            }
        } else {
            n as u64
        };
        proof {
            assert(m as nat == abs_of(n as int));
        }
        self.raw_u64(m);
        self.raw_u8(101);
        proof {
            assert(final (self)@ =~= old(self)@ + encoded(SpecValue::Int(n as int)));
        }
    }

    /// Writes a byte string: its decimal length, `:`, then the bytes.
    pub fn str(&mut self, s: &[u8])
        ensures
            final (self)@ == old(self)@ + encoded_str(s@),
    {
        self.raw_usize(s.len());
        self.raw_u8(58);
        self.raw_slice(s);
        proof {
            assert(final (self)@ =~= old(self)@ + encoded_str(s@));
        }
    }

    /// Writes a list: `l`, the elements in their stored order, `e`.
    pub fn list(&mut self, l: &[Value])
        ensures
            final (self)@ == old(self)@ + encoded(SpecValue::List(view_list(l@))),
        decreases l@,
    {
        self.raw_u8(108);
        let ghost base = self@;
        let n = l.len();
        let mut i: usize = 0;
        proof {
            crate::value::lemma_view_list(l@);
        }
        while i < n
            invariant
                0 <= i <= n,
                n == l@.len(),
                view_list(l@).len() == n,
                forall|j: int| 0 <= j < n ==> #[trigger] view_list(l@)[j] == l@[j]@,
                self@ == base + encoded_list(view_list(l@).take(i as int)),
            decreases n - i,
        {
            let ghost pre = view_list(l@).take(i as int);
            self.value(&l[i]);
            proof {
                lemma_encoded_list_push(pre, l@[i as int]@);
                assert(view_list(l@).take(i + 1) =~= pre.push(view_list(l@)[i as int]));
            }
            i += 1;
        }
        self.raw_u8(101);
        proof {
            assert(view_list(l@).take(n as int) =~= view_list(l@));
            assert(final (self)@ =~= old(self)@ + encoded(SpecValue::List(view_list(l@))));
        }
    }

    /// Writes a dictionary: `d`, each entry as key then value in their stored
    /// order (ascending key order for a well-formed tree), `e`.
    pub fn dict(&mut self, d: &[(Vec<u8>, Value)])
        ensures
            final (self)@ == old(self)@ + encoded(SpecValue::Dict(view_dict(d@))),
        decreases d@,
    {
        self.raw_u8(100);
        let ghost base = self@;
        let n = d.len();
        let mut i: usize = 0;
        proof {
            crate::value::lemma_view_dict(d@);
        }
        while i < n
            invariant
                0 <= i <= n,
                n == d@.len(),
                view_dict(d@).len() == n,
                forall|j: int| 0 <= j < n ==> #[trigger] view_dict(d@)[j] == (d@[j].0@, d@[j].1@),
                self@ == base + encoded_dict(view_dict(d@).take(i as int)),
            decreases n - i,
        {
            let ghost pre = view_dict(d@).take(i as int);
            self.str(d[i].0.as_slice());
            self.value(&d[i].1);
            proof {
                lemma_encoded_dict_push(pre, d@[i as int].0@, d@[i as int].1@);
                assert(view_dict(d@).take(i + 1) =~= pre.push(view_dict(d@)[i as int]));
            }
            i += 1;
        }
        self.raw_u8(101);
        proof {
            assert(view_dict(d@).take(n as int) =~= view_dict(d@));
            assert(final (self)@ =~= old(self)@ + encoded(SpecValue::Dict(view_dict(d@))));
        }
    }

    /// Writes one value of any shape.
    pub fn value(&mut self, v: &Value)
        ensures
            final (self)@ == old(self)@ + encoded(v@),
        decreases v,
    {
        match v {
            Value::Int(i) => self.integer(*i),
            Value::Str(s) => self.str(s.as_slice()),
            Value::List(l) => self.list(l.as_slice()),
            Value::Dict(d) => self.dict(d.as_slice()),
        }
    }
}

} // verus!
