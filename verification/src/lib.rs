//! Conversion of fixed-width integers and machine addresses to text.
//!
//! Values are written digit by digit, back to front, into a fixed-capacity
//! byte buffer owned by the caller; no heap allocation is needed on the
//! conversion path.  The textual form of every value is pinned down by the
//! spec functions in [`digits`], and every encoder is proved to produce
//! exactly that form.

use vstd::prelude::*;

pub mod buffer;
pub mod digits;
pub mod numeric;

pub use buffer::Buffer;
pub use numeric::Address;

verus! {

use crate::digits::ascii_chars;
use vstd::string::StringSliceAdditionalSpecFns;

/// Buffer wide enough to write any 8-bit integer.
pub type Buffer8 = Buffer<4>;

/// Buffer wide enough to write any 32-bit integer.
pub type Buffer32 = Buffer<11>;

/// Buffer wide enough to write any 64-bit integer.
pub type Buffer64 = Buffer<21>;

/// Buffer wide enough to write any pointer-sized integer.
pub type BufferSized = Buffer<21>;

/// Buffer wide enough to write any 128-bit integer.
pub type Buffer128 = Buffer<40>;

/// Turns the tail of `bytes`, from `start` on, into text.
///
/// Relies on `core::str::from_utf8`: a sequence of bytes below 128 is valid
/// UTF-8 and decodes to exactly one character per byte, each the character
/// with that byte's code.
#[verifier::external_body]
pub(crate) fn ascii_tail_to_str<'a>(bytes: &'a [u8], start: usize) -> (r: &'a str)
    requires
        start <= bytes@.len(),
        forall|i: int| start <= i < bytes@.len() ==> bytes@[i] < 128,
    ensures
        r@ == ascii_chars(bytes@.skip(start as int)),
        r.spec_bytes() == bytes@.skip(start as int),
{
    match core::str::from_utf8(&bytes[start..]) {
        Ok(text) => text,
        Err(_) => "",
    }
}

/// The capability of writing oneself as text into a caller-owned buffer.
pub trait ToStr {
    /// The exact byte sequence of this value's textual form.
    spec fn text(&self) -> Seq<u8>;

    /// Worst-case byte length of the textual form of any value of the type.
    spec fn spec_text_size() -> nat;

    /// The textual form is never empty, fits in `spec_text_size` bytes, and
    /// consists of ASCII bytes only.
    proof fn lemma_text_size(&self)
        ensures
            1 <= self.text().len() <= Self::spec_text_size(),
            forall|i: int| 0 <= i < self.text().len() ==> self.text()[i] < 128,
    ;

    /// `spec_text_size` as a run-time value.
    fn text_size() -> (n: usize)
        ensures
            n == Self::spec_text_size(),
    ;

    /// Writes the textual form into the tail of `buffer` and returns it.
    fn to_str<'a>(&self, buffer: &'a mut [u8]) -> (r: &'a str)
        requires
            Self::spec_text_size() <= old(buffer)@.len(),
        ensures
            final(buffer)@ == old(buffer)@.take(
                old(buffer)@.len() - self.text().len(),
            ) + self.text(),
            r@ == ascii_chars(self.text()),
            r.spec_bytes() == self.text(),
    ;

    /// As `to_str` if `buffer` is wide enough; `None`, and no write, if not.
    fn to_str_if<'a>(&self, buffer: &'a mut [u8]) -> (r: Option<&'a str>)
        ensures
            match r {
                Some(text) => Self::spec_text_size() <= old(buffer)@.len() && final(buffer)@ == old(
                    buffer,
                )@.take(old(buffer)@.len() - self.text().len()) + self.text() && text@
                    == ascii_chars(self.text()) && text.spec_bytes() == self.text(),
                None => old(buffer)@.len() < Self::spec_text_size() && final(buffer)@ == old(
                    buffer,
                )@,
            },
    {
        if buffer.len() < Self::text_size() {
            None
        } else {
            Some(self.to_str(buffer))
        }
    }
}

impl<T: ToStr> ToStr for &T {
    open spec fn text(&self) -> Seq<u8> {
        (**self).text()
    }

    open spec fn spec_text_size() -> nat {
        T::spec_text_size()
    }

    proof fn lemma_text_size(&self) {
        (**self).lemma_text_size()
    }

    fn text_size() -> (n: usize) {
        T::text_size()
    }

    fn to_str<'a>(&self, buffer: &'a mut [u8]) -> (r: &'a str) {
        (**self).to_str(buffer)
    }
}

impl<T: ToStr> ToStr for &mut T {
    open spec fn text(&self) -> Seq<u8> {
        (**self).text()
    }

    open spec fn spec_text_size() -> nat {
        T::spec_text_size()
    }

    proof fn lemma_text_size(&self) {
        (**self).lemma_text_size()
    }

    fn text_size() -> (n: usize) {
        T::text_size()
    }

    fn to_str<'a>(&self, buffer: &'a mut [u8]) -> (r: &'a str) {
        (**self).to_str(buffer)
    }
}

} // verus!
