//! JSON that goes through untouched.
//!
//! [`Raw`] holds the text of one JSON value exactly as the document spelled
//! it. Nothing in it is decoded and nothing is re-encoded: a number keeps the
//! spelling it arrived with, an object keeps its key order, and a string
//! keeps its escapes.

use std::borrow::Cow;
use vstd::prelude::*;
use vstd::utf8::*;
use crate::error::{Error, ErrorCode};
use crate::hash::str_equal;
use crate::json::walk::{
    is_ws, lemma_runs_forward, skip_ws, skip_ws_from, span, span_of_bytes, value_end, value_from,
};

verus! {

/// One JSON value, kept as the text that spelled it.
///
/// Built by [`new`](Self::new) or [`from_string`](Self::from_string), the
/// span is exactly one complete value with no whitespace on either side. The
/// unchecked constructors take their text as it is.
#[derive(Debug, PartialEq, Eq)]
pub struct Raw<'de>(Cow<'de, str>);

impl<'de> View for Raw<'de> {
    type V = Seq<char>;

    /// The text of the span.
    closed spec fn view(&self) -> Seq<char> {
        self.0@
    }
}

/// The bytes of `s` between `start` and `end` are the span [`span`] finds
/// in them, and both offsets fall between characters.
proof fn lemma_span_boundaries(b: Seq<u8>, start: int, end: int)
    requires
        valid_utf8(b),
        span(b) == Ok::<(int, int), (ErrorCode, int)>((start, end)),
        start < end <= b.len(),
    ensures
        is_char_boundary(b, start),
        is_char_boundary(b, end),
        is_char_boundary(b.subrange(0, end), start),
{
    lemma_runs_forward(b, 0);
    lemma_runs_forward(b, end);
    is_char_boundary_start_end_of_seq(b);
    assert(value_end(b, start, 0) is Ok);
    assert(b[start] < 0x80);
    is_char_boundary_iff_not_is_continuation_byte(b, start);
    if end < b.len() {
        assert(is_ws(b[end]));
        is_char_boundary_iff_not_is_continuation_byte(b, end);
    }
    let head = b.subrange(0, end);
    valid_utf8_split(b, end);
    assert(head[start] == b[start]);
    is_char_boundary_iff_not_is_continuation_byte(head, start);
}

/// The span of the one value `s` spells, with the whitespace on either side
/// walked past, as [`span`] states it over the text's UTF-8 bytes. Both ends
/// fall between characters.
fn span_of(s: &str) -> (r: Result<(usize, usize), Error>)
    ensures
        match r {
            Ok((start, end)) => {
                &&& span(encode_utf8(s@)) == Ok::<(int, int), (ErrorCode, int)>(
                    (start as int, end as int),
                )
                &&& start < end <= encode_utf8(s@).len()
                &&& is_char_boundary(encode_utf8(s@), start as int)
                &&& is_char_boundary(encode_utf8(s@), end as int)
                &&& is_char_boundary(encode_utf8(s@).subrange(0, end as int), start as int)
            },
            Err(e) => span(encode_utf8(s@)) == Err::<(int, int), (ErrorCode, int)>(
                (e.code, e.position as int),
            ),
        },
{
    let r = span_of_bytes(s.as_bytes());
    proof {
        if let Ok((start, end)) = r {
            encode_utf8_valid_utf8(s@);
            lemma_span_boundaries(encode_utf8(s@), start as int, end as int);
        }
    }
    r
}

/// The span of the value that starts, after any whitespace, at byte `at` of
/// `doc`: where the value starts and where it stops. What follows the value
/// is not looked at, so this reads one value out of a longer document and
/// leaves the cursor just past it.
pub fn read_span(doc: &str, at: usize) -> (r: Result<(usize, usize), Error>)
    requires
        at <= encode_utf8(doc@).len(),
    ensures
        match r {
            Ok((start, end)) => {
                &&& start == skip_ws(encode_utf8(doc@), at as int)
                &&& value_end(encode_utf8(doc@), start as int, 0) == Ok::<int, (ErrorCode, int)>(
                    end as int,
                )
                &&& at <= start < end <= encode_utf8(doc@).len()
            },
            Err(e) => value_end(encode_utf8(doc@), skip_ws(encode_utf8(doc@), at as int), 0) == Err::<
                int,
                (ErrorCode, int),
            >((e.code, e.position as int)),
        },
{
    let b = doc.as_bytes();
    let start = skip_ws_from(b, at);
    match value_from(b, start, 0) {
        Ok(end) => Ok((start, end)),
        Err(e) => Err(e),
    }
}

/// std's `String::truncate`: keeps the first `new_len` bytes of `s`. Its
/// documentation has it panic where `new_len` does not fall between
/// characters, which `requires` rules out.
#[verifier::external_body]
fn truncate_string(s: &mut String, new_len: usize)
    requires
        new_len <= encode_utf8(old(s)@).len(),
        is_char_boundary(encode_utf8(old(s)@), new_len as int),
    ensures
        encode_utf8(final(s)@) == encode_utf8(old(s)@).subrange(0, new_len as int),
{
    s.truncate(new_len);
}

/// std's `String::drain` over `..start`, with the drained bytes dropped:
/// removes the first `start` bytes of `s`. Its documentation has it panic
/// where `start` does not fall between characters, which `requires` rules
/// out.
#[verifier::external_body]
fn drain_string_front(s: &mut String, start: usize)
    requires
        start <= encode_utf8(old(s)@).len(),
        is_char_boundary(encode_utf8(old(s)@), start as int),
    ensures
        encode_utf8(final(s)@) == encode_utf8(old(s)@).subrange(
            start as int,
            encode_utf8(old(s)@).len() as int,
        ),
{
    s.drain(..start);
}

impl<'de> Raw<'de> {
    /// Whether the span borrows the text it came from, rather than owning a
    /// copy of it.
    pub closed spec fn is_borrowed(&self) -> bool {
        self.0 matches Cow::Borrowed(_)
    }

    /// Take the one JSON value `s` spells, checking that it really is one.
    ///
    /// The value has to be complete and well formed, with no control
    /// character inside a string and no escape the string reader would not
    /// decode, and it has to be the only thing in `s`: trailing content is
    /// refused. Whitespace on either side is dropped, so `" 1 "` and `"1"`
    /// are the same `Raw`. A number is stepped over by its alphabet, so `01`
    /// is accepted and kept as written.
    pub fn new(s: &'de str) -> (r: Result<Raw<'de>, Error>)
        ensures
            match span(encode_utf8(s@)) {
                Ok((start, end)) => r matches Ok(raw) && encode_utf8(raw@) == encode_utf8(
                    s@,
                ).subrange(start, end) && raw.is_borrowed(),
                Err((code, at)) => r == Err::<Raw<'de>, Error>(Error { code, position: at as usize }),
            },
    {
        match span_of(s) {
            Ok((start, end)) => {
                let (head, _) = s.split_at(end);
                let (_, value) = head.split_at(start);
                proof {
                    assert(encode_utf8(value@) =~= encode_utf8(s@).subrange(start as int, end as int));
                }
                Ok(Raw(Cow::Borrowed(value)))
            },
            Err(e) => Err(e),
        }
    }

    /// Take `s` as one JSON value without looking at it. Whatever `s` holds
    /// is the span, whitespace and all; its validity as JSON is the
    /// caller's.
    pub fn new_unchecked(s: &'de str) -> (r: Raw<'de>)
        ensures
            r@ == s@,
            r.is_borrowed(),
    {
        Raw(Cow::Borrowed(s))
    }

    /// The value's text, as it will be written: the span itself, quotes and
    /// escapes included.
    pub fn as_str(&self) -> (r: &str)
        ensures
            r@ == self@,
    {
        match &self.0 {
            Cow::Borrowed(s) => s,
            Cow::Owned(s) => s.as_str(),
        }
    }

    /// Cut the borrow, copying the span if it is still one. A span that is
    /// already owned moves without copying.
    pub fn into_owned(self) -> (r: Raw<'static>)
        ensures
            r@ == self@,
            !r.is_borrowed(),
    {
        match self.0 {
            Cow::Borrowed(s) => Raw(Cow::Owned(s.to_owned())),
            Cow::Owned(s) => Raw(Cow::Owned(s)),
        }
    }

    /// Whether the span is the literal `null`, exactly: a span with
    /// whitespace around the `null` is not.
    pub fn is_null(&self) -> (r: bool)
        ensures
            r == (self@ == "null"@),
    {
        str_equal(self.as_str(), "null")
    }

    /// The span, copied into a `String`.
    pub fn to_string(&self) -> (r: String)
        ensures
            r@ == self@,
    {
        self.as_str().to_owned()
    }
}

impl Raw<'static> {
    /// Take the one JSON value `s` spells, checking that it really is one,
    /// without copying it: the check and the trimming are exactly
    /// [`new`](Raw::new)'s, and the span is cut out of `s` in place.
    pub fn from_string(s: String) -> (r: Result<Raw<'static>, Error>)
        ensures
            match span(encode_utf8(s@)) {
                Ok((start, end)) => r matches Ok(raw) && encode_utf8(raw@) == encode_utf8(
                    s@,
                ).subrange(start, end) && !raw.is_borrowed(),
                Err((code, at)) => r == Err::<Raw<'static>, Error>(
                    Error { code, position: at as usize },
                ),
            },
    {
        let (start, end) = match span_of(s.as_str()) {
            Ok(found) => found,
            Err(e) => {
                return Err(e);
            },
        };
        let ghost bytes = encode_utf8(s@);
        let mut s = s;
        truncate_string(&mut s, end);
        drain_string_front(&mut s, start);
        proof {
            assert(encode_utf8(s@) =~= bytes.subrange(start as int, end as int));
        }
        Ok(Raw(Cow::Owned(s)))
    }

    /// Take `s` as one JSON value without looking at it, and without copying
    /// it. Like [`new_unchecked`](Raw::new_unchecked), it does not trim.
    pub fn from_string_unchecked(s: String) -> (r: Raw<'static>)
        ensures
            r@ == s@,
            !r.is_borrowed(),
    {
        Raw(Cow::Owned(s))
    }
}

impl<'de> Clone for Raw<'de> {
    /// The same span: a borrowed one borrows the same text, an owned one is
    /// copied.
    fn clone(&self) -> (r: Self)
        ensures
            r@ == self@,
            r.is_borrowed() == self.is_borrowed(),
    {
        match &self.0 {
            Cow::Borrowed(s) => Raw(Cow::Borrowed(s)),
            Cow::Owned(s) => Raw(Cow::Owned(s.clone())),
        }
    }
}

impl Default for Raw<'_> {
    /// The literal `null`, borrowed: one complete value, and the one that
    /// means "no value here".
    fn default() -> (r: Self)
        ensures
            r@ == "null"@,
            r.is_borrowed(),
    {
        Raw(Cow::Borrowed("null"))
    }
}

} // verus!
