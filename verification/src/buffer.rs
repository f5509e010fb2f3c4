//! The fixed-capacity text buffer.
//!
//! A `Buffer<N>` owns `N` bytes of storage and a cursor.  Text is written
//! back to front into the tail of the storage; the cursor remembers where the
//! last remembered write begins, so the bytes from the cursor to the end are
//! always the remembered text and nothing before the cursor is ever exposed.

use vstd::prelude::*;

verus! {

use crate::ToStr;
use crate::ascii_tail_to_str;
use crate::digits::ascii_chars;
use crate::digits::dec_digits;
use crate::digits::signed_text;
use vstd::string::StringSliceAdditionalSpecFns;

broadcast use vstd::array::group_array_axioms;

/// Fixed-capacity storage for text plus the cursor where the remembered
/// text begins.  A fresh buffer has its cursor at the end: empty text.
pub struct Buffer<const N: usize> {
    inner: [u8; N],
    offset: usize,
}

impl<const N: usize> Buffer<N> {
    /// The bytes of the underlying storage.
    pub closed spec fn storage(self) -> Seq<u8> {
        self.inner@
    }

    /// The index where the remembered text begins.
    pub closed spec fn cursor(self) -> int {
        self.offset as int
    }

    /// Well-formedness: the cursor lies within the storage, and everything
    /// from the cursor to the end is ASCII text.
    pub open spec fn wf(self) -> bool {
        0 <= self.cursor() <= N && self.storage().len() == N && (forall|i: int|
            self.cursor() <= i < N ==> self.storage()[i] < 128)
    }

    /// The remembered text, as bytes.
    pub open spec fn text_bytes(self) -> Seq<u8> {
        self.storage().skip(self.cursor())
    }

    /// Creates a buffer that remembers empty text.
    pub fn new() -> (r: Self)
        ensures
            r.wf(),
            r.text_bytes() == Seq::<u8>::empty(),
    {
        let this = Buffer { inner: vstd::array::array_fill_for_copy_types::<u8, N>(0u8), offset: N };
        proof {
            assert(this.text_bytes() =~= Seq::<u8>::empty());
        }
        this
    }

    /// The buffer's overall capacity.
    pub fn capacity() -> (r: usize)
        ensures
            r == N,
    {
        N
    }

    /// The remembered text; empty if nothing has been written yet.
    pub fn as_str(&self) -> (r: &str)
        requires
            self.wf(),
        ensures
            r@ == ascii_chars(self.text_bytes()),
            r.spec_bytes() == self.text_bytes(),
    {
        ascii_tail_to_str(&self.inner, self.offset)
    }

    /// Writes `val`'s text into the buffer's storage and returns it, without
    /// remembering it: the cursor stays where it was.
    pub fn format<T: ToStr>(&mut self, val: T) -> (r: &str)
        requires
            old(self).wf(),
            T::spec_text_size() <= N,
        ensures
            final(self).wf(),
            final(self).cursor() == old(self).cursor(),
            final(self).storage() == old(self).storage().take(N - val.text().len()) + val.text(),
            r@ == ascii_chars(val.text()),
            r.spec_bytes() == val.text(),
    {
        proof {
            val.lemma_text_size();
        }
        val.to_str(&mut self.inner)
    }

    /// Writes `val`'s text into the buffer, remembers it, and returns it:
    /// `as_str` afterwards yields the same text.
    pub fn write<T: ToStr>(&mut self, val: T) -> (r: &str)
        requires
            old(self).wf(),
            T::spec_text_size() <= N,
        ensures
            final(self).wf(),
            final(self).text_bytes() == val.text(),
            r@ == ascii_chars(val.text()),
            r.spec_bytes() == val.text(),
    {
        proof {
            val.lemma_text_size();
        }
        let written: usize = self.format(val).len();
        self.offset = N - written;
        proof {
            assert(self.text_bytes() =~= self.storage().skip(N - written));
        }
        self.as_str()
    }

    /// Creates a new buffer holding `val`'s text.
    pub fn fmt<T: ToStr>(val: T) -> (r: Self)
        requires
            T::spec_text_size() <= N,
        ensures
            r.wf(),
            r.text_bytes() == val.text(),
    {
        let mut this = Self::new();
        this.write(val);
        this
    }

    /// Specialized `format` for a `u8` value.
    pub fn format_u8(&mut self, val: u8) -> (r: &str)
        requires
            old(self).wf(),
            3 <= N,
        ensures
            final(self).wf(),
            final(self).cursor() == old(self).cursor(),
            final(self).storage() == old(self).storage().take(N - dec_digits(val as nat).len()) + dec_digits(val as nat),
            r@ == ascii_chars(dec_digits(val as nat)),
            r.spec_bytes() == dec_digits(val as nat),
    {
        self.format(val)
    }

    /// Creates a new buffer holding the text of a `u8` value.
    pub fn fmt_u8(val: u8) -> (r: Self)
        requires
            3 <= N,
        ensures
            r.wf(),
            r.text_bytes() == dec_digits(val as nat),
    {
        Self::fmt(val)
    }

    /// Specialized `format` for a `u16` value.
    pub fn format_u16(&mut self, val: u16) -> (r: &str)
        requires
            old(self).wf(),
            5 <= N,
        ensures
            final(self).wf(),
            final(self).cursor() == old(self).cursor(),
            final(self).storage() == old(self).storage().take(N - dec_digits(val as nat).len()) + dec_digits(val as nat),
            r@ == ascii_chars(dec_digits(val as nat)),
            r.spec_bytes() == dec_digits(val as nat),
    {
        self.format(val)
    }

    /// Creates a new buffer holding the text of a `u16` value.
    pub fn fmt_u16(val: u16) -> (r: Self)
        requires
            5 <= N,
        ensures
            r.wf(),
            r.text_bytes() == dec_digits(val as nat),
    {
        Self::fmt(val)
    }

    /// Specialized `format` for a `u32` value.
    pub fn format_u32(&mut self, val: u32) -> (r: &str)
        requires
            old(self).wf(),
            10 <= N,
        ensures
            final(self).wf(),
            final(self).cursor() == old(self).cursor(),
            final(self).storage() == old(self).storage().take(N - dec_digits(val as nat).len()) + dec_digits(val as nat),
            r@ == ascii_chars(dec_digits(val as nat)),
            r.spec_bytes() == dec_digits(val as nat),
    {
        self.format(val)
    }

    /// Creates a new buffer holding the text of a `u32` value.
    pub fn fmt_u32(val: u32) -> (r: Self)
        requires
            10 <= N,
        ensures
            r.wf(),
            r.text_bytes() == dec_digits(val as nat),
    {
        Self::fmt(val)
    }

    /// Specialized `format` for a `u64` value.
    pub fn format_u64(&mut self, val: u64) -> (r: &str)
        requires
            old(self).wf(),
            20 <= N,
        ensures
            final(self).wf(),
            final(self).cursor() == old(self).cursor(),
            final(self).storage() == old(self).storage().take(N - dec_digits(val as nat).len()) + dec_digits(val as nat),
            r@ == ascii_chars(dec_digits(val as nat)),
            r.spec_bytes() == dec_digits(val as nat),
    {
        self.format(val)
    }

    /// Creates a new buffer holding the text of a `u64` value.
    pub fn fmt_u64(val: u64) -> (r: Self)
        requires
            20 <= N,
        ensures
            r.wf(),
            r.text_bytes() == dec_digits(val as nat),
    {
        Self::fmt(val)
    }

    /// Specialized `format` for a `usize` value.
    pub fn format_usize(&mut self, val: usize) -> (r: &str)
        requires
            old(self).wf(),
            20 <= N,
        ensures
            final(self).wf(),
            final(self).cursor() == old(self).cursor(),
            final(self).storage() == old(self).storage().take(N - dec_digits(val as nat).len()) + dec_digits(val as nat),
            r@ == ascii_chars(dec_digits(val as nat)),
            r.spec_bytes() == dec_digits(val as nat),
    {
        self.format(val)
    }

    /// Creates a new buffer holding the text of a `usize` value.
    pub fn fmt_usize(val: usize) -> (r: Self)
        requires
            20 <= N,
        ensures
            r.wf(),
            r.text_bytes() == dec_digits(val as nat),
    {
        Self::fmt(val)
    }

    /// Specialized `format` for a `u128` value.
    pub fn format_u128(&mut self, val: u128) -> (r: &str)
        requires
            old(self).wf(),
            39 <= N,
        ensures
            final(self).wf(),
            final(self).cursor() == old(self).cursor(),
            final(self).storage() == old(self).storage().take(N - dec_digits(val as nat).len()) + dec_digits(val as nat),
            r@ == ascii_chars(dec_digits(val as nat)),
            r.spec_bytes() == dec_digits(val as nat),
    {
        self.format(val)
    }

    /// Creates a new buffer holding the text of a `u128` value.
    pub fn fmt_u128(val: u128) -> (r: Self)
        requires
            39 <= N,
        ensures
            r.wf(),
            r.text_bytes() == dec_digits(val as nat),
    {
        Self::fmt(val)
    }

    /// Specialized `format` for a `i8` value.
    pub fn format_i8(&mut self, val: i8) -> (r: &str)
        requires
            old(self).wf(),
            4 <= N,
        ensures
            final(self).wf(),
            final(self).cursor() == old(self).cursor(),
            final(self).storage() == old(self).storage().take(N - signed_text(val as int).len()) + signed_text(val as int),
            r@ == ascii_chars(signed_text(val as int)),
            r.spec_bytes() == signed_text(val as int),
    {
        self.format(val)
    }

    /// Creates a new buffer holding the text of a `i8` value.
    pub fn fmt_i8(val: i8) -> (r: Self)
        requires
            4 <= N,
        ensures
            r.wf(),
            r.text_bytes() == signed_text(val as int),
    {
        Self::fmt(val)
    }

    /// Specialized `format` for a `i16` value.
    pub fn format_i16(&mut self, val: i16) -> (r: &str)
        requires
            old(self).wf(),
            6 <= N,
        ensures
            final(self).wf(),
            final(self).cursor() == old(self).cursor(),
            final(self).storage() == old(self).storage().take(N - signed_text(val as int).len()) + signed_text(val as int),
            r@ == ascii_chars(signed_text(val as int)),
            r.spec_bytes() == signed_text(val as int),
    {
        self.format(val)
    }

    /// Creates a new buffer holding the text of a `i16` value.
    pub fn fmt_i16(val: i16) -> (r: Self)
        requires
            6 <= N,
        ensures
            r.wf(),
            r.text_bytes() == signed_text(val as int),
    {
        Self::fmt(val)
    }

    /// Specialized `format` for a `i32` value.
    pub fn format_i32(&mut self, val: i32) -> (r: &str)
        requires
            old(self).wf(),
            11 <= N,
        ensures
            final(self).wf(),
            final(self).cursor() == old(self).cursor(),
            final(self).storage() == old(self).storage().take(N - signed_text(val as int).len()) + signed_text(val as int),
            r@ == ascii_chars(signed_text(val as int)),
            r.spec_bytes() == signed_text(val as int),
    {
        self.format(val)
    }

    /// Creates a new buffer holding the text of a `i32` value.
    pub fn fmt_i32(val: i32) -> (r: Self)
        requires
            11 <= N,
        ensures
            r.wf(),
            r.text_bytes() == signed_text(val as int),
    {
        Self::fmt(val)
    }

    /// Specialized `format` for a `i64` value.
    pub fn format_i64(&mut self, val: i64) -> (r: &str)
        requires
            old(self).wf(),
            21 <= N,
        ensures
            final(self).wf(),
            final(self).cursor() == old(self).cursor(),
            final(self).storage() == old(self).storage().take(N - signed_text(val as int).len()) + signed_text(val as int),
            r@ == ascii_chars(signed_text(val as int)),
            r.spec_bytes() == signed_text(val as int),
    {
        self.format(val)
    }

    /// Creates a new buffer holding the text of a `i64` value.
    pub fn fmt_i64(val: i64) -> (r: Self)
        requires
            21 <= N,
        ensures
            r.wf(),
            r.text_bytes() == signed_text(val as int),
    {
        Self::fmt(val)
    }

    /// Specialized `format` for a `isize` value.
    pub fn format_isize(&mut self, val: isize) -> (r: &str)
        requires
            old(self).wf(),
            21 <= N,
        ensures
            final(self).wf(),
            final(self).cursor() == old(self).cursor(),
            final(self).storage() == old(self).storage().take(N - signed_text(val as int).len()) + signed_text(val as int),
            r@ == ascii_chars(signed_text(val as int)),
            r.spec_bytes() == signed_text(val as int),
    {
        self.format(val)
    }

    /// Creates a new buffer holding the text of a `isize` value.
    pub fn fmt_isize(val: isize) -> (r: Self)
        requires
            21 <= N,
        ensures
            r.wf(),
            r.text_bytes() == signed_text(val as int),
    {
        Self::fmt(val)
    }

    /// Specialized `format` for a `i128` value.
    pub fn format_i128(&mut self, val: i128) -> (r: &str)
        requires
            old(self).wf(),
            40 <= N,
        ensures
            final(self).wf(),
            final(self).cursor() == old(self).cursor(),
            final(self).storage() == old(self).storage().take(N - signed_text(val as int).len()) + signed_text(val as int),
            r@ == ascii_chars(signed_text(val as int)),
            r.spec_bytes() == signed_text(val as int),
    {
        self.format(val)
    }

    /// Creates a new buffer holding the text of a `i128` value.
    pub fn fmt_i128(val: i128) -> (r: Self)
        requires
            40 <= N,
        ensures
            r.wf(),
            r.text_bytes() == signed_text(val as int),
    {
        Self::fmt(val)
    }
}

/// Write/format agreement: `write` remembers exactly the text of the value,
/// and `format` returns exactly the text of the value, so reading a buffer
/// back after a write yields the same characters that `format` returned for
/// the same value on any buffer.
pub proof fn lemma_write_format_equivalence<const N: usize, T: ToStr>(
    written: Buffer<N>,
    val: T,
    formatted: Seq<char>,
)
    requires
        written.text_bytes() == val.text(),
        formatted == ascii_chars(val.text()),
    ensures
        ascii_chars(written.text_bytes()) == formatted,
{
}

/// Reuse hygiene: the text a buffer remembers after a write is a function of
/// the written value alone.  Two buffers whose last write was the same value
/// report the same text, whatever either held before, so no byte of an
/// earlier value can remain in the reported span.
pub proof fn lemma_reuse_hygiene<const N: usize, T: ToStr>(
    reused: Buffer<N>,
    fresh: Buffer<N>,
    val: T,
)
    requires
        reused.text_bytes() == val.text(),
        fresh.text_bytes() == val.text(),
    ensures
        reused.text_bytes() == fresh.text_bytes(),
        reused.text_bytes().len() == val.text().len(),
{
}

} // verus!
