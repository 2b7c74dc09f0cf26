//! The recursive-descent parser: reads one value from the front of a byte
//! buffer, charging an allocation budget for every container element, and is
//! proved to return exactly what the grammar functions compute.

use vstd::prelude::*;

use crate::grammar::{
    digit_run, digits_val, is_digit, lemma_digit_run_digits, lemma_digit_run_skip,
    lemma_digits_val_mono, lemma_digits_val_step, parse_bstr, parse_entries, parse_int,
    parse_items, parse_number, parse_signed, parse_value,
};
use crate::model::SpecValue;
use crate::value::{dict_insert, lemma_view_dict, lemma_view_list, view_dict, view_list, Value};

verus! {

/// Whether a byte is an ASCII decimal digit.
pub fn is_digit_byte(c: u8) -> (b: bool)
    ensures
        b == is_digit(c),
{
    48 <= c && c <= 57
}

/// A cursor over the input buffer together with the remaining allocation
/// budget. Its view is the pair of the unread bytes and the budget left.
pub struct Decoder<'a> {
    buf: &'a [u8],
    pos: usize,
    rem_allocs: usize,
}

impl<'a> View for Decoder<'a> {
    type V = (Seq<u8>, nat);

    closed spec fn view(&self) -> (Seq<u8>, nat) {
        (self.buf@.skip(self.pos as int), self.rem_allocs as nat)
    }
}

impl<'a> Decoder<'a> {
    /// The cursor never runs past the end of the buffer.
    pub closed spec fn wf(&self) -> bool {
        self.pos <= self.buf@.len()
    }

    /// Starts a decode of `buf` with `max_allocs` budget units.
    pub fn new(buf: &'a [u8], max_allocs: usize) -> (d: Decoder<'a>)
        ensures
            d.wf(),
            d@ == (buf@, max_allocs as nat),
    {
        proof {
            assert(buf@.skip(0) =~= buf@);
        }
        Decoder { buf, pos: 0, rem_allocs: max_allocs }
    }

    /// Consumes one budget unit, or fails when the budget is exhausted.
    fn charge(&mut self) -> (r: Option<()>)
        requires
            old(self).wf(),
        ensures
            final (self).wf(),
            final (self)@.0 == old(self)@.0,
            match r {
                Some(()) => old(self)@.1 > 0 && final (self)@.1 == old(self)@.1 - 1,
                None => old(self)@.1 == 0 && final (self)@ == old(self)@,
            },
    {
        if self.rem_allocs == 0 {
            return None;
        }
        self.rem_allocs = self.rem_allocs - 1;
        Some(())
    }

    /// Consumes the next byte when it equals `c`.
    pub fn take_u8_eq(&mut self, c: u8) -> (r: Option<()>)
        requires
            old(self).wf(),
        ensures
            final (self).wf(),
            final (self)@.1 == old(self)@.1,
            match r {
                Some(()) => old(self)@.0.len() > 0 && old(self)@.0[0] == c && final (self)@.0
                    == old(self)@.0.skip(1),
                None => final (self)@ == old(self)@ && (old(self)@.0.len() == 0 || old(
                    self,
                )@.0[0] != c),
            },
    {
        if self.pos < self.buf.len() {
            if self.buf[self.pos] == c {
                proof {
                    assert(self.buf@.skip(self.pos as int).skip(1) =~= self.buf@.skip(
                        self.pos + 1,
                    ));
                }
                self.pos = self.pos + 1;
                return Some(());
            }
        }
        None
    }

    /// Consumes the next byte when the given test accepts it.
    pub fn take_u8_if<F: Fn(u8) -> bool>(&mut self, f: F) -> (r: Option<u8>)
        requires
            old(self).wf(),
            forall|c: u8| call_requires(f, (c,)),
        ensures
            final (self).wf(),
            final (self)@.1 == old(self)@.1,
            match r {
                Some(c) => old(self)@.0.len() > 0 && c == old(self)@.0[0] && call_ensures(
                    f,
                    (c,),
                    true,
                ) && final (self)@.0 == old(self)@.0.skip(1),
                None => final (self)@ == old(self)@ && (old(self)@.0.len() == 0 || call_ensures(
                    f,
                    (old(self)@.0[0],),
                    false,
                )),
            },
    {
        if self.pos < self.buf.len() {
            let c = self.buf[self.pos];
            if f(c) {
                proof {
                    assert(self.buf@.skip(self.pos as int).skip(1) =~= self.buf@.skip(
                        self.pos + 1,
                    ));
                }
                self.pos = self.pos + 1;
                return Some(c);
            }
            return None;
        }
        None
    }

    /// Copies the next `n` bytes out, or fails when fewer are left.
    pub fn take_u8_slice(&mut self, n: usize) -> (r: Option<Vec<u8>>)
        requires
            old(self).wf(),
        ensures
            final (self).wf(),
            final (self)@.1 == old(self)@.1,
            match r {
                Some(v) => old(self)@.0.len() >= n && v@ == old(self)@.0.take(n as int) && final (
                self)@.0 == old(self)@.0.skip(n as int),
                None => final (self)@ == old(self)@ && old(self)@.0.len() < n,
            },
    {
        let blen = self.buf.len();
        if n > blen - self.pos {
            return None;
        }
        let mut out: Vec<u8> = Vec::new();
        let mut i: usize = 0;
        while i < n
            invariant
                0 <= i <= n,
                self.wf(),
                blen == self.buf@.len(),
                self.pos + n <= blen,
                out@.len() == i,
                forall|j: int| 0 <= j < i ==> out@[j] == self@.0[j],
            decreases n - i,
        {
            let b = self.buf[self.pos + i];
            out.push(b);
            i += 1;
        }
        proof {
            assert(out@ =~= self@.0.take(n as int));
            assert(self.buf@.skip(self.pos as int).skip(n as int) =~= self.buf@.skip(
                self.pos + n,
            ));
        }
        self.pos = self.pos + n;
        Some(out)
    }

    /// Reads one or more decimal digits as an unsigned machine-word value,
    /// permissively (leading zeros are accepted); fails without a leading
    /// digit or when the value overflows.
    pub fn take_usize(&mut self) -> (r: Option<usize>)
        requires
            old(self).wf(),
        ensures
            final (self).wf(),
            final (self)@.1 == old(self)@.1,
            match r {
                Some(x) => parse_number(old(self)@.0, usize::MAX as nat) == Some(
                    (x as nat, final (self)@.0),
                ) && final (self)@.0.len() < old(self)@.0.len(),
                None => parse_number(old(self)@.0, usize::MAX as nat) is None,
            },
    {
        let ghost s0 = self@.0;
        let n0 = self.buf.len();
        proof {
            assert(s0.len() <= n0);
        }
        let d0 = match self.take_u8_if(is_digit_byte) {
            Some(d) => d,
            None => {
                return None;
            },
        };
        let mut acc: usize = (d0 - 48) as usize;
        let mut j: usize = 1;
        proof {
            assert(s0.take(1).drop_last() =~= Seq::<u8>::empty());
            assert(s0.take(1).last() == s0[0]);
            assert(digits_val(Seq::<u8>::empty()) == 0);
            assert(acc as nat == digits_val(s0.take(1)));
        }
        loop
            invariant
                self.wf(),
                self@.1 == old(self)@.1,
                s0 == old(self)@.0,
                s0.len() <= usize::MAX,
                1 <= j <= s0.len(),
                self@.0 == s0.skip(j as int),
                forall|i: int| 0 <= i < j ==> is_digit(#[trigger] s0[i]),
                acc as nat == digits_val(s0.take(j as int)),
            decreases s0.len() - j,
        {
            let d = match self.take_u8_if(is_digit_byte) {
                Some(d) => d,
                None => {
                    proof {
                        lemma_digit_run_skip(s0, j as int);
                        assert(digit_run(s0.skip(j as int)) == 0);
                        assert(digit_run(s0) == j as int);
                    }
                    return Some(acc);
                },
            };
            proof {
                assert(s0.skip(j as int)[0] == s0[j as int]);
                lemma_digits_val_step(s0, j as int);
                assert(s0.skip(j as int).skip(1) =~= s0.skip(j + 1));
            }
            let next = match acc.checked_mul(10) {
                Some(m) => m.checked_add((d - 48) as usize),
                None => None,
            };
            match next {
                Some(m) => {
                    acc = m;
                },
                None => {
                    proof {
                        lemma_digit_run_digits(s0);
                        lemma_digit_run_skip(s0, j + 1);
                        let k = digit_run(s0) as int;
                        lemma_digits_val_mono(s0, j + 1, k);
                        assert(digits_val(s0.take(k)) > usize::MAX as nat);
                    }
                    return None;
                },
            }
            j += 1;
        }
    }

    /// Reads an optional `-` and decimal digits as a signed value; fails
    /// without a digit or when the magnitude leaves the 64-bit signed range.
    pub fn take_i64(&mut self) -> (r: Option<i64>)
        requires
            old(self).wf(),
        ensures
            final (self).wf(),
            final (self)@.1 == old(self)@.1,
            match r {
                Some(x) => parse_signed(old(self)@.0) == Some((x as int, final (self)@.0))
                    && final (self)@.0.len() < old(self)@.0.len(),
                None => parse_signed(old(self)@.0) is None,
            },
    {
        let neg = self.take_u8_eq(45).is_some();
        let ghost s0 = self@.0;
        let n0 = self.buf.len();
        proof {
            assert(s0.len() <= n0);
        }
        let ghost bound: nat = if neg {
            0x8000_0000_0000_0000nat
        } else {
            0x7fff_ffff_ffff_ffffnat
        };
        let d0 = match self.take_u8_if(is_digit_byte) {
            Some(d) => d,
            None => {
                return None;
            },
        };
        let mut acc: u64 = (d0 - 48) as u64;
        let mut j: usize = 1;
        proof {
            assert(s0.take(1).drop_last() =~= Seq::<u8>::empty());
            assert(s0.take(1).last() == s0[0]);
            assert(digits_val(Seq::<u8>::empty()) == 0);
            assert(acc as nat == digits_val(s0.take(1)));
        }
        loop
            invariant
                self.wf(),
                self@.1 == old(self)@.1,
                neg == (old(self)@.0.len() > 0 && old(self)@.0[0] == 45),
                s0 == if neg {
                    old(self)@.0.skip(1)
                } else {
                    old(self)@.0
                },
                bound == if neg {
                    0x8000_0000_0000_0000nat
                } else {
                    0x7fff_ffff_ffff_ffffnat
                },
                s0.len() <= usize::MAX,
                1 <= j <= s0.len(),
                self@.0 == s0.skip(j as int),
                forall|i: int| 0 <= i < j ==> is_digit(#[trigger] s0[i]),
                acc as nat == digits_val(s0.take(j as int)),
            decreases s0.len() - j,
        {
            let d = match self.take_u8_if(is_digit_byte) {
                Some(d) => d,
                None => {
                    proof {
                        lemma_digit_run_skip(s0, j as int);
                        assert(digit_run(s0.skip(j as int)) == 0);
                        assert(digit_run(s0) == j as int);
                    }
                    if neg {
                        if acc > 9223372036854775808u64 {
                            return None;
                        }
                        if acc == 9223372036854775808u64 {
                            return Some(i64::MIN);
                        }
                        return Some(-(acc as i64));
                    }
                    if acc > 9223372036854775807u64 {
                        return None;
                    }
                    return Some(acc as i64);
                },
            };
            proof {
                assert(s0.skip(j as int)[0] == s0[j as int]);
                lemma_digits_val_step(s0, j as int);
                assert(s0.skip(j as int).skip(1) =~= s0.skip(j + 1));
            }
            let next = match acc.checked_mul(10) {
                Some(m) => m.checked_add((d - 48) as u64),
                None => None,
            };
            match next {
                Some(m) => {
                    acc = m;
                },
                None => {
                    proof {
                        lemma_digit_run_digits(s0);
                        lemma_digit_run_skip(s0, j + 1);
                        let k = digit_run(s0) as int;
                        lemma_digits_val_mono(s0, j + 1, k);
                        assert(digits_val(s0.take(k)) > bound);
                    }
                    return None;
                },
            }
            j += 1;
        }
    }

    /// Reads an integer value: `i`, an optional `-`, digits, `e`.
    pub fn take_int(&mut self) -> (r: Option<i64>)
        requires
            old(self).wf(),
        ensures
            final (self).wf(),
            final (self)@.1 == old(self)@.1,
            match r {
                Some(x) => parse_int(old(self)@.0) == Some((x as int, final (self)@.0)) && final (
                self)@.0.len() < old(self)@.0.len(),
                None => parse_int(old(self)@.0) is None,
            },
    {
        let ghost s0 = self@.0;
        if self.take_u8_eq(105).is_none() {
            return None;
        }
        let x = match self.take_i64() {
            Some(x) => x,
            None => {
                return None;
            },
        };
        if self.take_u8_eq(101).is_none() {
            return None;
        }
        Some(x)
    }

    /// Reads a byte string: its decimal length, `:`, then that many raw
    /// bytes, copied out.
    pub fn take_str(&mut self) -> (r: Option<Vec<u8>>)
        requires
            old(self).wf(),
        ensures
            final (self).wf(),
            final (self)@.1 == old(self)@.1,
            match r {
                Some(v) => parse_bstr(old(self)@.0) == Some((v@, final (self)@.0)) && final (
                self)@.0.len() < old(self)@.0.len(),
                None => parse_bstr(old(self)@.0) is None,
            },
    {
        let n = match self.take_usize() {
            Some(n) => n,
            None => {
                return None;
            },
        };
        if self.take_u8_eq(58).is_none() {
            return None;
        }
        match self.take_u8_slice(n) {
            Some(v) => Some(v),
            None => None,
        }
    }

    /// Reads one value of any shape, dispatching on the first unread byte.
    pub fn take_value(&mut self) -> (r: Option<Value>)
        requires
            old(self).wf(),
        ensures
            final (self).wf(),
            match r {
                Some(v) => parse_value(old(self)@.0, old(self)@.1) == Some(
                    (v@, final (self)@.0, final (self)@.1),
                ) && final (self)@.0.len() < old(self)@.0.len() && final (self)@.1 <= old(
                    self,
                )@.1,
                None => parse_value(old(self)@.0, old(self)@.1) is None,
            },
        decreases self@.0.len(), 1int,
    {
        if self.pos >= self.buf.len() {
            return None;
        }
        let c = self.buf[self.pos];
        if c == 105 {
            match self.take_int() {
                Some(x) => Some(Value::Int(x)),
                None => None,
            }
        } else if 48 <= c && c <= 57 {
            match self.take_str() {
                Some(s) => Some(Value::Str(s)),
                None => None,
            }
        } else if c == 108 {
            match self.take_list() {
                Some(l) => Some(Value::List(l)),
                None => None,
            }
        } else if c == 100 {
            match self.take_dict() {
                Some(d) => Some(Value::Dict(d)),
                None => None,
            }
        } else {
            None
        }
    }

    /// Reads a list: `l`, elements back to back, `e`, charging one budget
    /// unit before each element.
    pub fn take_list(&mut self) -> (r: Option<Vec<Value>>)
        requires
            old(self).wf(),
        ensures
            final (self).wf(),
            match r {
                Some(l) => old(self)@.0.len() > 0 && old(self)@.0[0] == 108 && parse_items(
                    old(self)@.0.skip(1),
                    old(self)@.1,
                ) == Some((view_list(l@), final (self)@.0, final (self)@.1)) && final (
                self)@.0.len() < old(self)@.0.len() && final (self)@.1 <= old(self)@.1,
                None => old(self)@.0.len() == 0 || old(self)@.0[0] != 108 || parse_items(
                    old(self)@.0.skip(1),
                    old(self)@.1,
                ) is None,
            },
        decreases self@.0.len(), 0int,
    {
        if self.take_u8_eq(108).is_none() {
            return None;
        }
        let ghost s_l = self@.0;
        let ghost b_l = self@.1;
        let mut list: Vec<Value> = Vec::new();
        proof {
            assert(view_list(list@) =~= Seq::<SpecValue>::empty());
        }
        loop
            invariant
                self.wf(),
                old(self)@.0.len() > 0 && old(self)@.0[0] == 108,
                s_l == old(self)@.0.skip(1),
                b_l == old(self)@.1,
                self@.0.len() < old(self)@.0.len(),
                self@.1 <= b_l,
                match parse_items(self@.0, self@.1) {
                    Some((items, r2, b3)) => parse_items(s_l, b_l) == Some(
                        (view_list(list@) + items, r2, b3),
                    ),
                    None => parse_items(s_l, b_l) is None,
                },
            decreases self@.0.len(),
        {
            let ghost cur = self@.0;
            let ghost b = self@.1;
            let ghost acc = view_list(list@);
            if self.pos >= self.buf.len() {
                return None;
            }
            if self.buf[self.pos] == 101 {
                let took = self.take_u8_eq(101);
                proof {
                    assert(took is Some);
                    assert(acc + Seq::<SpecValue>::empty() =~= acc);
                }
                return Some(list);
            }
            if self.charge().is_none() {
                return None;
            }
            let v = match self.take_value() {
                Some(v) => v,
                None => {
                    return None;
                },
            };
            proof {
                lemma_view_list(list@.push(v));
                lemma_view_list(list@);
                assert(view_list(list@.push(v)) =~= acc.push(v@));
            }
            list.push(v);
            proof {
                if parse_items(self@.0, self@.1) is Some {
                    let (items2, r2, b3) = parse_items(self@.0, self@.1)->Some_0;
                    assert(parse_items(cur, b) == Some((seq![v@] + items2, r2, b3)));
                    assert(acc.push(v@) + items2 =~= acc + (seq![v@] + items2));
                }
            }
        }
    }

    /// Reads a dictionary: `d`, entries as key then value back to back, `e`,
    /// charging one budget unit per entry after its key; entries are kept
    /// sorted as they arrive and a duplicate key fails the whole parse.
    pub fn take_dict(&mut self) -> (r: Option<Vec<(Vec<u8>, Value)>>)
        requires
            old(self).wf(),
        ensures
            final (self).wf(),
            match r {
                Some(d) => old(self)@.0.len() > 0 && old(self)@.0[0] == 100 && parse_entries(
                    old(self)@.0.skip(1),
                    old(self)@.1,
                    Seq::empty(),
                ) == Some((view_dict(d@), final (self)@.0, final (self)@.1)) && final (
                self)@.0.len() < old(self)@.0.len() && final (self)@.1 <= old(self)@.1,
                None => old(self)@.0.len() == 0 || old(self)@.0[0] != 100 || parse_entries(
                    old(self)@.0.skip(1),
                    old(self)@.1,
                    Seq::empty(),
                ) is None,
            },
        decreases self@.0.len(), 0int,
    {
        if self.take_u8_eq(100).is_none() {
            return None;
        }
        let ghost s_d = self@.0;
        let ghost b_d = self@.1;
        let mut entries: Vec<(Vec<u8>, Value)> = Vec::new();
        proof {
            assert(view_dict(entries@) =~= Seq::<(Seq<u8>, SpecValue)>::empty());
        }
        loop
            invariant
                self.wf(),
                old(self)@.0.len() > 0 && old(self)@.0[0] == 100,
                s_d == old(self)@.0.skip(1),
                b_d == old(self)@.1,
                self@.0.len() < old(self)@.0.len(),
                self@.1 <= b_d,
                match parse_entries(self@.0, self@.1, view_dict(entries@)) {
                    Some(res) => parse_entries(s_d, b_d, Seq::empty()) == Some(res),
                    None => parse_entries(s_d, b_d, Seq::empty()) is None,
                },
            decreases self@.0.len(),
        {
            let ghost cur = self@.0;
            let ghost b = self@.1;
            let ghost acc = view_dict(entries@);
            if self.pos >= self.buf.len() {
                return None;
            }
            if self.buf[self.pos] == 101 {
                let took = self.take_u8_eq(101);
                proof {
                    assert(took is Some);
                }
                return Some(entries);
            }
            let key = match self.take_str() {
                Some(k) => k,
                None => {
                    return None;
                },
            };
            if self.charge().is_none() {
                return None;
            }
            let v = match self.take_value() {
                Some(v) => v,
                None => {
                    return None;
                },
            };
            let ghost r2 = self@.0;
            let ghost b2 = self@.1;
            if !dict_insert(&mut entries, key, v) {
                return None;
            }
            proof {
                assert(parse_entries(cur, b, acc) == parse_entries(
                    r2,
                    b2,
                    view_dict(entries@),
                ));
            }
        }
    }
}

} // verus!
