//! A string in a buffer of fixed size, without allocation.

use crate::hash::{djb2, djb2_hash};
use vstd::prelude::*;
use vstd::slice::slice_subrange;
use vstd::string::StringSliceAdditionalSpecFns;
use vstd::utf8::valid_utf8;

verus! {

/// `core::str::Utf8Error`, the error of `core::str::from_utf8`. Nothing is
/// said of what it holds.
#[verifier::external_type_specification]
#[verifier::external_body]
pub struct ExUtf8Error(core::str::Utf8Error);

/// `core::fmt::Error`, the error of formatting: a struct without fields, so
/// that one error is like another.
#[verifier::external_type_specification]
pub struct ExFmtError(core::fmt::Error);

/// `core::str::from_utf8` succeeds on exactly the byte strings that are valid
/// UTF-8, and the string it then returns has the bytes it was given.
pub assume_specification[ core::str::from_utf8 ](v: &[u8]) -> (res: Result<
    &str,
    core::str::Utf8Error,
>)
    ensures
        res is Ok <==> valid_utf8(v@),
        res matches Ok(s) ==> s.spec_bytes() == v@,
;

/// The number of bytes before the first zero byte; the whole length where
/// there is none.
pub open spec fn text_len(bytes: Seq<u8>) -> nat
    decreases bytes.len(),
{
    if bytes.len() == 0 || bytes.first() == 0 {
        0
    } else {
        1 + text_len(bytes.drop_first())
    }
}

/// `text_len` is the first position that holds a zero or ends the bytes.
pub proof fn lemma_text_len(bytes: Seq<u8>, n: int)
    requires
        0 <= n <= bytes.len(),
        forall|j: int| 0 <= j < n ==> bytes[j] != 0,
        n == bytes.len() || bytes[n] == 0,
    ensures
        text_len(bytes) == n,
    decreases n,
{
    if n > 0 {
        lemma_text_len(bytes.drop_first(), n - 1);
    }
}

/// `n` zero bytes.
pub open spec fn zeros(n: nat) -> Seq<u8> {
    Seq::new(n, |i: int| 0u8)
}

/// `text` in a buffer of `cap` bytes: the text, then zeros to the end.
pub open spec fn formatted(text: Seq<u8>, cap: nat) -> Seq<u8> {
    overwrite(zeros(cap), 0, text)
}

/// `bytes` with `text` written over it from position `at` on.
pub open spec fn overwrite(bytes: Seq<u8>, at: int, text: Seq<u8>) -> Seq<u8> {
    Seq::new(
        bytes.len(),
        |i: int|
            if at <= i < at + text.len() {
                text[i - at]
            } else {
                bytes[i]
            },
    )
}

/// A buffer of `C` bytes that holds text, ended by the first zero byte or by
/// the end of the buffer.
#[derive(Debug)]
pub struct SString<const C: usize> {
    buffer: [u8; C],
}

impl<const C: usize> View for SString<C> {
    type V = Seq<u8>;

    /// All `C` bytes of the buffer.
    closed spec fn view(&self) -> Seq<u8> {
        self.buffer@
    }
}

impl<const C: usize> SString<C> {
    /// The text: the bytes before the first zero byte.
    pub open spec fn text(&self) -> Seq<u8> {
        self@.take(text_len(self@) as int)
    }

    /// The buffer has `C` bytes.
    pub proof fn lemma_len(&self)
        ensures
            self@.len() == C,
    {
    }

    /// A buffer of zeros: the empty text.
    pub fn new() -> (s: Self)
        ensures
            s@ == zeros(C as nat),
    {
        let s = SString { buffer: [0;C] };
        s
    }

    /// The whole buffer as a string, zero bytes included.
    pub fn as_str(&self) -> (res: Result<&str, core::fmt::Error>)
        ensures
            res is Ok <==> valid_utf8(self@),
            res matches Ok(s) ==> s.spec_bytes() == self@,
    {
        match core::str::from_utf8(&self.buffer) {
            Ok(s) => Ok(s),
            Err(_) => Err(core::fmt::Error),
        }
    }

    /// The position of the first zero byte.
    fn zero_position(&self) -> (pos: Option<usize>)
        ensures
            pos matches Some(n) ==> n < C && n == text_len(self@),
            pos is None <==> text_len(self@) == C,
    {
        let mut i: usize = 0;
        while i < C
            invariant
                i <= C,
                self@.len() == C,
                forall|j: int| 0 <= j < i ==> self@[j] != 0,
            decreases C - i,
        {
            if self.buffer[i] == 0 {
                proof {
                    lemma_text_len(self@, i as int);
                }
                return Some(i);
            }
            i = i + 1;
        }
        proof {
            lemma_text_len(self@, C as int);
        }
        None
    }

    /// Appends `s` to the text. Fails, and leaves the buffer as it is, where
    /// no zero byte is left or `s` does not fit behind the text.
    pub fn write_str(&mut self, s: &str) -> (res: Result<(), core::fmt::Error>)
        ensures
            res is Ok <==> text_len(old(self)@) < C && text_len(old(self)@) + s.spec_bytes().len()
                <= C,
            res is Ok ==> final(self)@ == overwrite(
                old(self)@,
                text_len(old(self)@) as int,
                s.spec_bytes(),
            ),
            res is Err ==> final(self)@ == old(self)@,
    {
        let current_len = match self.zero_position() {
            Some(len) => len,
            None => return Err(core::fmt::Error),
        };
        let bytes = s.as_bytes();
        if bytes.len() > C - current_len {
            return Err(core::fmt::Error);
        }
        let mut j: usize = 0;
        while j < bytes.len()
            invariant
                j <= bytes.len(),
                current_len + bytes.len() <= C,
                self@.len() == C,
                self@ == overwrite(old(self)@, current_len as int, bytes@.take(j as int)),
            decreases bytes.len() - j,
        {
            self.buffer[current_len + j] = bytes[j];
            j = j + 1;
        }
        Ok(())
    }

    /// Replaces the text by `text`. Fails, with an empty buffer, where
    /// `text` does not fit.
    pub fn format(&mut self, text: &str) -> (res: Result<(), core::fmt::Error>)
        ensures
            res is Ok <==> 0 < C && text.spec_bytes().len() <= C,
            res is Ok ==> final(self)@ == formatted(text.spec_bytes(), C as nat),
            res is Err ==> final(self)@ == zeros(C as nat),
    {
        self.buffer = [0;C];
        self.write_str(text)
    }
}

impl<const C: usize> crate::hash::Hash for SString<C> {
    /// The DJB2 hash of the text.
    open spec fn hash_spec(&self) -> usize {
        djb2(self.text())
    }

    fn hash(&self) -> (h: usize) {
        let current_len = match self.zero_position() {
            Some(len) => len,
            None => C,
        };
        let text = slice_subrange(self.buffer.as_slice(), 0, current_len);
        djb2_hash(text)
    }
}

/// A string of capacity `C` that holds `text`.
pub fn sformat<const C: usize>(text: &str) -> (s: SString<C>)
    requires
        0 < C,
        text.spec_bytes().len() <= C,
    ensures
        s@ == formatted(text.spec_bytes(), C as nat),
{
    let mut s = SString::<C>::new();
    let _ = s.format(text);
    s
}

} // verus!
