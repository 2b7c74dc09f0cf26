//! The typed projection layer: fallible, type-directed extraction of concrete
//! values from a tree reference. Each supported target shape implements the
//! conversion once, pattern-matching on the tree's variant.

use vstd::prelude::*;
use vstd::string::StringSliceAdditionalSpecFns;
use vstd::utf8::valid_utf8;

use crate::value::{Dict, List, Value};

verus! {

/// Conversion from a [`Value`] reference into a concrete target shape.
///
/// Each implementation says in `accepts` exactly which values convert, and in
/// `extracted` what the converted result holds of its source.
pub trait TryFromValue<'a>: Sized {
    /// Whether the conversion succeeds on this value.
    spec fn accepts(v: Value) -> bool;

    /// What a successful conversion carries away from its source.
    spec fn extracted(r: Self, v: Value) -> bool;

    /// Converts, or fails when the value's variant does not match the target
    /// shape or its variant-specific validation fails.
    fn try_from(value: &'a Value) -> (r: Option<Self>)
        ensures
            r is Some <==> Self::accepts(*value),
            r matches Some(t) ==> Self::extracted(t, *value),
    ;
}

/// Relies on core::str::from_utf8: it returns Ok exactly on bytes that are
/// valid UTF-8 (vstd's `valid_utf8`), viewing those same bytes as text.
#[verifier::external_body]
pub(crate) fn utf8_to_str(v: &[u8]) -> (r: Option<&str>)
    ensures
        r is Some <==> valid_utf8(v@),
        r matches Some(s) ==> s.spec_bytes() == v@,
{
    core::str::from_utf8(v).ok()
}

impl<'a> TryFromValue<'a> for i64 {
    open spec fn accepts(v: Value) -> bool {
        v is Int
    }

    open spec fn extracted(r: Self, v: Value) -> bool {
        v == Value::Int(r)
    }

    fn try_from(value: &'a Value) -> (r: Option<Self>) {
        match value {
            Value::Int(i) => Some(*i),
            _ => None,
        }
    }
}

impl<'a> TryFromValue<'a> for &'a [u8] {
    open spec fn accepts(v: Value) -> bool {
        v is Str
    }

    open spec fn extracted(r: Self, v: Value) -> bool {
        match v {
            Value::Str(s) => r@ == s@,
            _ => false,
        }
    }

    fn try_from(value: &'a Value) -> (r: Option<Self>) {
        match value {
            Value::Str(s) => Some(s.as_slice()),
            _ => None,
        }
    }
}

impl<'a, const N: usize> TryFromValue<'a> for [u8; N] {
    open spec fn accepts(v: Value) -> bool {
        match v {
            Value::Str(s) => s@.len() == N,
            _ => false,
        }
    }

    open spec fn extracted(r: Self, v: Value) -> bool {
        match v {
            Value::Str(s) => r@ == s@,
            _ => false,
        }
    }

    fn try_from(value: &'a Value) -> (r: Option<Self>) {
        match value {
            Value::Str(s) => {
                if s.len() != N {
                    return None;
                }
                let mut a = [0u8; N];
                let mut i: usize = 0;
                while i < N
                    invariant
                        0 <= i <= N,
                        s@.len() == N,
                        a@.len() == N,
                        forall|j: int| 0 <= j < i ==> a@[j] == s@[j],
                    decreases N - i,
                {
                    a[i] = s[i];
                    i += 1;
                }
                proof {
                    assert(a@ =~= s@);
                }
                Some(a)
            },
            _ => None,
        }
    }
}

impl<'a> TryFromValue<'a> for &'a str {
    open spec fn accepts(v: Value) -> bool {
        match v {
            Value::Str(s) => valid_utf8(s@),
            _ => false,
        }
    }

    open spec fn extracted(r: Self, v: Value) -> bool {
        match v {
            Value::Str(s) => r.spec_bytes() == s@,
            _ => false,
        }
    }

    fn try_from(value: &'a Value) -> (r: Option<Self>) {
        match value {
            Value::Str(s) => utf8_to_str(s.as_slice()),
            _ => None,
        }
    }
}

impl<'a, A: TryFromValue<'a>, B: TryFromValue<'a>> TryFromValue<'a> for (A, B) {
    open spec fn accepts(v: Value) -> bool {
        match v {
            Value::List(l) => l@.len() >= 2 && A::accepts(l@[0]) && B::accepts(l@[1]),
            _ => false,
        }
    }

    open spec fn extracted(r: Self, v: Value) -> bool {
        match v {
            Value::List(l) => l@.len() >= 2 && A::extracted(r.0, l@[0]) && B::extracted(
                r.1,
                l@[1],
            ),
            _ => false,
        }
    }

    fn try_from(value: &'a Value) -> (r: Option<Self>) {
        match value {
            Value::List(l) => {
                if l.len() < 2 {
                    return None;
                }
                let a = match A::try_from(&l[0]) {
                    Some(a) => a,
                    None => {
                        return None;
                    },
                };
                let b = match B::try_from(&l[1]) {
                    Some(b) => b,
                    None => {
                        return None;
                    },
                };
                Some((a, b))
            },
            _ => None,
        }
    }
}

impl<'a> TryFromValue<'a> for &'a List {
    open spec fn accepts(v: Value) -> bool {
        v is List
    }

    open spec fn extracted(r: Self, v: Value) -> bool {
        match v {
            Value::List(l) => *r == l,
            _ => false,
        }
    }

    fn try_from(value: &'a Value) -> (r: Option<Self>) {
        match value {
            Value::List(l) => Some(l),
            _ => None,
        }
    }
}

impl<'a> TryFromValue<'a> for &'a Dict {
    open spec fn accepts(v: Value) -> bool {
        v is Dict
    }

    open spec fn extracted(r: Self, v: Value) -> bool {
        match v {
            Value::Dict(d) => *r == d,
            _ => false,
        }
    }

    fn try_from(value: &'a Value) -> (r: Option<Self>) {
        match value {
            Value::Dict(d) => Some(d),
            _ => None,
        }
    }
}

impl<'a> TryFromValue<'a> for &'a Value {
    open spec fn accepts(v: Value) -> bool {
        true
    }

    open spec fn extracted(r: Self, v: Value) -> bool {
        *r == v
    }

    fn try_from(value: &'a Value) -> (r: Option<Self>) {
        Some(value)
    }
}

} // verus!
