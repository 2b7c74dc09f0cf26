//! Conversion of common byte and text sources into the byte-string shape.

use vstd::prelude::*;
use vstd::slice::slice_to_vec;
use vstd::string::StringSliceAdditionalSpecFns;
use vstd::utf8::encode_utf8;

use crate::value::Str;

verus! {

/// Conversion into [`Str`]: anything that carries bytes can become the
/// byte-string shape, keeping exactly its content.
pub trait IntoStr: Sized {
    /// The byte content this source carries.
    spec fn byte_view(self) -> Seq<u8>;

    /// Converts the source into an owned byte string with that content.
    fn into_str(self) -> (r: Str)
        ensures
            r@ == self.byte_view(),
    ;
}

/// Relies on String::into_bytes: a String holds the UTF-8 encoding of its
/// characters, and into_bytes hands those bytes over unchanged.
#[verifier::external_body]
fn string_into_bytes(s: String) -> (r: Vec<u8>)
    ensures
        r@ == encode_utf8(s@),
{
    s.into_bytes()
}

impl<'b> IntoStr for &'b [u8] {
    open spec fn byte_view(self) -> Seq<u8> {
        self@
    }

    fn into_str(self) -> (r: Str) {
        slice_to_vec(self)
    }
}

impl<'b, const N: usize> IntoStr for &'b [u8; N] {
    open spec fn byte_view(self) -> Seq<u8> {
        self@
    }

    fn into_str(self) -> (r: Str) {
        slice_to_vec(self.as_slice())
    }
}

impl<const N: usize> IntoStr for [u8; N] {
    open spec fn byte_view(self) -> Seq<u8> {
        self@
    }

    fn into_str(self) -> (r: Str) {
        slice_to_vec(self.as_slice())
    }
}

impl<'b> IntoStr for &'b str {
    open spec fn byte_view(self) -> Seq<u8> {
        self.spec_bytes()
    }

    fn into_str(self) -> (r: Str) {
        slice_to_vec(self.as_bytes())
    }
}

impl IntoStr for Vec<u8> {
    open spec fn byte_view(self) -> Seq<u8> {
        self@
    }

    fn into_str(self) -> (r: Str) {
        self
    }
}

impl IntoStr for String {
    open spec fn byte_view(self) -> Seq<u8> {
        encode_utf8(self@)
    }

    fn into_str(self) -> (r: Str) {
        string_into_bytes(self)
    }
}

} // verus!
