//! Stepping over one JSON value without decoding it.
//!
//! The walk checks that the bytes spell a complete, well-formed value and
//! reports where that value ends, or why and where it is not one. Strings are
//! held to the grammar, escapes included; a number is stepped over by its
//! alphabet rather than held to the number grammar, so `01` and `1.2.3` pass.
//!
//! Each step is stated first as a spec function over the bytes and the
//! offset it starts at, giving the offset just past what it stepped over or
//! the error and the offset it stopped at; the executable walk below is proved
//! to give exactly that.

use vstd::prelude::*;
use crate::error::{Error, ErrorCode};

verus! {

/// How deeply arrays and objects may nest inside one value.
pub const MAX_DEPTH: usize = 256;

/// `"`
pub const QUOTE: u8 = 0x22;

/// `\`
pub const BACKSLASH: u8 = 0x5C;

/// `{`
pub const OPEN_BRACE: u8 = 0x7B;

/// `}`
pub const CLOSE_BRACE: u8 = 0x7D;

/// `[`
pub const OPEN_BRACKET: u8 = 0x5B;

/// `]`
pub const CLOSE_BRACKET: u8 = 0x5D;

/// `:`
pub const COLON: u8 = 0x3A;

/// `,`
pub const COMMA: u8 = 0x2C;

/// `-`
pub const MINUS: u8 = 0x2D;

/// Where a step stopped: just past what it stepped over, or why it stopped
/// and at which offset.
pub type Walk = Result<int, (ErrorCode, int)>;

/// A step's executable result read as a [`Walk`].
pub open spec fn outcome(r: Result<usize, Error>) -> Walk {
    match r {
        Ok(end) => Ok(end as int),
        Err(e) => Err((e.code, e.position as int)),
    }
}

/// JSON's whitespace: space, tab, line feed and carriage return.
pub open spec fn is_ws(c: u8) -> bool {
    c == 0x20 || c == 0x09 || c == 0x0A || c == 0x0D
}

/// `0` to `9`.
pub open spec fn is_digit(c: u8) -> bool {
    0x30 <= c <= 0x39
}

/// The alphabet a number is stepped over by: digits, signs, the decimal
/// point and the exponent marks.
pub open spec fn in_number(c: u8) -> bool {
    is_digit(c) || c == 0x2B || c == MINUS || c == 0x2E || c == 0x65 || c == 0x45
}

/// A hexadecimal digit, in either case.
pub open spec fn is_hex(c: u8) -> bool {
    is_digit(c) || (0x61 <= c <= 0x66) || (0x41 <= c <= 0x46)
}

/// The value of a hexadecimal digit.
pub open spec fn hex_value(c: u8) -> int {
    if is_digit(c) {
        c - 0x30
    } else if 0x61 <= c <= 0x66 {
        c - 0x61 + 10
    } else {
        c - 0x41 + 10
    }
}

/// The characters that may follow a backslash on their own: `"`, `\`, `/`,
/// `b`, `f`, `n`, `r` and `t`.
pub open spec fn is_short_escape(c: u8) -> bool {
    c == QUOTE || c == BACKSLASH || c == 0x2F || c == 0x62 || c == 0x66 || c == 0x6E || c
        == 0x72 || c == 0x74
}

/// The first offset from `i` on that does not hold whitespace.
pub open spec fn skip_ws(b: Seq<u8>, i: int) -> int
    decreases b.len() - i,
{
    if 0 <= i < b.len() && is_ws(b[i]) {
        skip_ws(b, i + 1)
    } else {
        i
    }
}

/// The first offset from `i` on that holds no byte of a number's alphabet.
pub open spec fn number_end(b: Seq<u8>, i: int) -> int
    decreases b.len() - i,
{
    if 0 <= i < b.len() && in_number(b[i]) {
        number_end(b, i + 1)
    } else {
        i
    }
}

/// Skipping whitespace, or a number, moves forward and stays in the bytes.
pub proof fn lemma_runs_forward(b: Seq<u8>, i: int)
    requires
        0 <= i <= b.len(),
    ensures
        i <= skip_ws(b, i) <= b.len(),
        i <= number_end(b, i) <= b.len(),
        skip_ws(b, i) < b.len() ==> !is_ws(b[skip_ws(b, i)]),
        forall|k: int| i <= k < skip_ws(b, i) ==> is_ws(#[trigger] b[k]),
    decreases b.len() - i,
{
    if i < b.len() {
        lemma_runs_forward(b, i + 1);
    }
}

/// The code unit spelled by the hex digits from `k + d` to `k + 4`, on top
/// of `acc` for the digits before them; `esc` is the offset of the escape's
/// backslash, which a digit that is not one is reported at.
pub open spec fn unit_digits(b: Seq<u8>, k: int, esc: int, d: int, acc: int) -> Result<
    int,
    (ErrorCode, int),
>
    decreases 4 - d,
{
    if d >= 4 {
        Ok(acc)
    } else if k + d >= b.len() {
        Err((ErrorCode::UnexpectedEnd, b.len() as int))
    } else if !is_hex(b[k + d]) {
        Err((ErrorCode::InvalidEscape, esc))
    } else {
        unit_digits(b, k, esc, d + 1, acc * 16 + hex_value(b[k + d]))
    }
}

/// The code unit spelled by the four hex digits at `k`.
pub open spec fn code_unit(b: Seq<u8>, k: int, esc: int) -> Result<int, (ErrorCode, int)> {
    unit_digits(b, k, esc, 0, 0)
}

/// The low half of a surrogate pair.
pub open spec fn is_low_surrogate(u: int) -> bool {
    0xDC00 <= u <= 0xDFFF
}

/// The high half of a surrogate pair.
pub open spec fn is_high_surrogate(u: int) -> bool {
    0xD800 <= u <= 0xDBFF
}

/// Step over the escape whose backslash is at `i`.
///
/// A short escape is two bytes and a `\u` escape six. A `\u` naming the high
/// half of a surrogate pair has to be followed at once by a `\u` naming the
/// low half, and the two are stepped over together; a low half on its own, or
/// a high half without its partner, is refused at the first backslash.
pub open spec fn escape_end(b: Seq<u8>, i: int) -> Walk {
    if i + 1 >= b.len() {
        Err((ErrorCode::UnexpectedEnd, b.len() as int))
    } else if is_short_escape(b[i + 1]) {
        Ok(i + 2)
    } else if b[i + 1] != 0x75 {
        Err((ErrorCode::InvalidEscape, i))
    } else {
        match code_unit(b, i + 2, i) {
            Err(e) => Err(e),
            Ok(u) => if is_low_surrogate(u) {
                Err((ErrorCode::InvalidSurrogate, i))
            } else if !is_high_surrogate(u) {
                Ok(i + 6)
            } else {
                let j = i + 6;
                if j >= b.len() {
                    Err((ErrorCode::UnexpectedEnd, b.len() as int))
                } else if b[j] != BACKSLASH {
                    Err((ErrorCode::InvalidSurrogate, i))
                } else if j + 1 >= b.len() {
                    Err((ErrorCode::UnexpectedEnd, b.len() as int))
                } else if b[j + 1] != 0x75 {
                    Err((ErrorCode::InvalidSurrogate, i))
                } else {
                    match code_unit(b, j + 2, j) {
                        Err(e) => Err(e),
                        Ok(low) => if is_low_surrogate(low) {
                            Ok(j + 6)
                        } else {
                            Err((ErrorCode::InvalidSurrogate, i))
                        },
                    }
                }
            },
        }
    }
}

/// Step over the rest of a string from `i`, which is just past its opening
/// quote or an escape: up to and past the closing quote. A control byte
/// (below `0x20`) inside the string is refused where it stands.
pub open spec fn string_end(b: Seq<u8>, i: int) -> Walk
    decreases b.len() - i,
{
    if i < 0 || i >= b.len() {
        Err((ErrorCode::UnexpectedEnd, b.len() as int))
    } else if b[i] == QUOTE {
        Ok(i + 1)
    } else if b[i] == BACKSLASH {
        match escape_end(b, i) {
            Err(e) => Err(e),
            Ok(j) => {
                proof {
                    lemma_escape_forward(b, i);
                }
                string_end(b, j)
            },
        }
    } else if b[i] < 0x20 {
        Err((ErrorCode::UnexpectedCharacter, i))
    } else {
        string_end(b, i + 1)
    }
}

/// Step over the literal `word` at `i`, from its `k`th byte on.
pub open spec fn literal_end(b: Seq<u8>, i: int, word: Seq<u8>, k: int) -> Walk
    decreases word.len() - k,
{
    if k >= word.len() {
        Ok(i + word.len())
    } else if i + k >= b.len() {
        Err((ErrorCode::UnexpectedEnd, b.len() as int))
    } else if b[i + k] != word[k] {
        Err((ErrorCode::UnexpectedCharacter, i + k))
    } else {
        literal_end(b, i, word, k + 1)
    }
}

/// `true`
pub open spec fn true_word() -> Seq<u8> {
    seq![0x74u8, 0x72u8, 0x75u8, 0x65u8]
}

/// `false`
pub open spec fn false_word() -> Seq<u8> {
    seq![0x66u8, 0x61u8, 0x6Cu8, 0x73u8, 0x65u8]
}

/// `null`
pub open spec fn null_word() -> Seq<u8> {
    seq![0x6Eu8, 0x75u8, 0x6Cu8, 0x6Cu8]
}

/// Four hex digits that spell a code unit are there in the bytes.
pub proof fn lemma_code_unit(b: Seq<u8>, k: int, esc: int)
    requires
        0 <= k,
    ensures
        code_unit(b, k, esc) matches Ok(u) ==> k + 4 <= b.len(),
{
    reveal_with_fuel(unit_digits, 5);
}

/// Stepping over an escape moves at least two bytes forward and stays in
/// the bytes.
pub proof fn lemma_escape_forward(b: Seq<u8>, i: int)
    requires
        0 <= i,
    ensures
        escape_end(b, i) matches Ok(e) ==> i + 2 <= e <= b.len(),
{
    lemma_code_unit(b, i + 2, i);
    lemma_code_unit(b, i + 8, i + 6);
}

/// Stepping over the rest of a string moves forward and stays in the bytes.
pub proof fn lemma_string_forward(b: Seq<u8>, i: int)
    requires
        0 <= i,
    ensures
        string_end(b, i) matches Ok(e) ==> i < e <= b.len(),
    decreases b.len() - i,
{
    if i < b.len() && b[i] != QUOTE {
        if b[i] == BACKSLASH {
            lemma_escape_forward(b, i);
            if let Ok(j) = escape_end(b, i) {
                lemma_string_forward(b, j);
            }
        } else if b[i] >= 0x20 {
            lemma_string_forward(b, i + 1);
        }
    }
}

/// Stepping over a literal moves past all of it and stays in the bytes.
pub proof fn lemma_literal_forward(b: Seq<u8>, i: int, word: Seq<u8>, k: int)
    requires
        0 <= i,
        0 <= k <= word.len(),
        i + k <= b.len(),
    ensures
        literal_end(b, i, word, k) matches Ok(e) ==> e == i + word.len() && e <= b.len(),
    decreases word.len() - k,
{
    if k < word.len() && i + k < b.len() {
        lemma_literal_forward(b, i, word, k + 1);
    }
}

/// Step over the value at `i`, which sits inside `depth` arrays and
/// objects. Whitespace in front of it is not this step's to skip.
pub open spec fn value_end(b: Seq<u8>, i: int, depth: int) -> Walk
    decreases b.len() - i, 0int,
{
    if i < 0 || i >= b.len() {
        Err((ErrorCode::UnexpectedEnd, b.len() as int))
    } else if b[i] == OPEN_BRACE || b[i] == OPEN_BRACKET {
        if depth >= MAX_DEPTH {
            Err((ErrorCode::DepthExceeded, i))
        } else {
            proof {
                lemma_runs_forward(b, i + 1);
            }
            let j = skip_ws(b, i + 1);
            if b[i] == OPEN_BRACE {
                object_rest(b, j, depth + 1)
            } else {
                array_rest(b, j, depth + 1)
            }
        }
    } else if b[i] == QUOTE {
        string_end(b, i + 1)
    } else if b[i] == 0x74 {
        literal_end(b, i, true_word(), 0)
    } else if b[i] == 0x66 {
        literal_end(b, i, false_word(), 0)
    } else if b[i] == 0x6E {
        literal_end(b, i, null_word(), 0)
    } else if b[i] == MINUS || is_digit(b[i]) {
        Ok(number_end(b, i + 1))
    } else {
        Err((ErrorCode::UnexpectedCharacter, i))
    }
}

/// Step over what follows an object's opening brace, from `i`, the first
/// byte past the whitespace after it: either the closing brace, or the
/// members and then the closing brace.
pub open spec fn object_rest(b: Seq<u8>, i: int, depth: int) -> Walk
    decreases b.len() - i, 2int,
{
    if 0 <= i < b.len() && b[i] == CLOSE_BRACE {
        Ok(i + 1)
    } else {
        members_end(b, i, depth)
    }
}

/// Step over an object's members from the one whose key starts at `i`, and
/// past the closing brace after the last of them.
///
/// The guard on the value's end never refuses anything: a value that was
/// stepped over ends past where it began. It is there so that the walk is
/// seen to move forward.
pub open spec fn members_end(b: Seq<u8>, i: int, depth: int) -> Walk
    decreases b.len() - i, 1int,
{
    if i < 0 || i >= b.len() {
        Err((ErrorCode::UnexpectedEnd, b.len() as int))
    } else if b[i] != QUOTE {
        Err((ErrorCode::UnexpectedCharacter, i))
    } else {
        match string_end(b, i + 1) {
            Err(e) => Err(e),
            Ok(k) => {
                proof {
                    lemma_string_forward(b, i + 1);
                    lemma_runs_forward(b, k);
                }
                let c = skip_ws(b, k);
                if c >= b.len() {
                    Err((ErrorCode::UnexpectedEnd, b.len() as int))
                } else if b[c] != COLON {
                    Err((ErrorCode::UnexpectedCharacter, c))
                } else {
                    proof {
                        lemma_runs_forward(b, c + 1);
                    }
                    let v = skip_ws(b, c + 1);
                    match value_end(b, v, depth) {
                        Err(e) => Err(e),
                        Ok(e) => if e <= v || e > b.len() {
                            Err((ErrorCode::UnexpectedEnd, b.len() as int))
                        } else {
                            proof {
                                lemma_runs_forward(b, e);
                            }
                            let m = skip_ws(b, e);
                            if m >= b.len() {
                                Err((ErrorCode::UnexpectedEnd, b.len() as int))
                            } else if b[m] == COMMA {
                                proof {
                                    lemma_runs_forward(b, m + 1);
                                }
                                members_end(b, skip_ws(b, m + 1), depth)
                            } else if b[m] == CLOSE_BRACE {
                                Ok(m + 1)
                            } else {
                                Err((ErrorCode::UnexpectedCharacter, m))
                            }
                        },
                    }
                }
            },
        }
    }
}

/// Step over what follows an array's opening bracket, from `i`, the first
/// byte past the whitespace after it: either the closing bracket, or the
/// elements and then the closing bracket.
pub open spec fn array_rest(b: Seq<u8>, i: int, depth: int) -> Walk
    decreases b.len() - i, 2int,
{
    if 0 <= i < b.len() && b[i] == CLOSE_BRACKET {
        Ok(i + 1)
    } else {
        elements_end(b, i, depth)
    }
}

/// Step over an array's elements from the one that starts at `i`, and past
/// the closing bracket after the last of them. The guard on the element's
/// end is there for the reason [`members_end`] gives.
pub open spec fn elements_end(b: Seq<u8>, i: int, depth: int) -> Walk
    decreases b.len() - i, 1int,
{
    if i < 0 || i >= b.len() {
        Err((ErrorCode::UnexpectedEnd, b.len() as int))
    } else {
        match value_end(b, i, depth) {
            Err(e) => Err(e),
            Ok(e) => if e <= i || e > b.len() {
                Err((ErrorCode::UnexpectedEnd, b.len() as int))
            } else {
                proof {
                    lemma_runs_forward(b, e);
                }
                let m = skip_ws(b, e);
                if m >= b.len() {
                    Err((ErrorCode::UnexpectedEnd, b.len() as int))
                } else if b[m] == COMMA {
                    proof {
                        lemma_runs_forward(b, m + 1);
                    }
                    elements_end(b, skip_ws(b, m + 1), depth)
                } else if b[m] == CLOSE_BRACKET {
                    Ok(m + 1)
                } else {
                    Err((ErrorCode::UnexpectedCharacter, m))
                }
            },
        }
    }
}

/// The span of the one value `b` spells, with the whitespace on either side
/// of it walked past: where the value starts and where it ends. Refused when
/// the value is not complete and well formed, or when anything but
/// whitespace follows it.
pub open spec fn span(b: Seq<u8>) -> Result<(int, int), (ErrorCode, int)> {
    let start = skip_ws(b, 0);
    match value_end(b, start, 0) {
        Err(e) => Err(e),
        Ok(end) => {
            let rest = skip_ws(b, end);
            if rest < b.len() {
                Err((ErrorCode::TrailingContent, rest))
            } else {
                Ok((start, end))
            }
        },
    }
}

/// Whether `c` is whitespace.
fn ws_byte(c: u8) -> (r: bool)
    ensures
        r == is_ws(c),
{
    c == 0x20 || c == 0x09 || c == 0x0A || c == 0x0D
}

/// Whether `c` belongs to a number's alphabet.
fn number_byte(c: u8) -> (r: bool)
    ensures
        r == in_number(c),
{
    (0x30 <= c && c <= 0x39) || c == 0x2B || c == MINUS || c == 0x2E || c == 0x65 || c == 0x45
}

/// The value of `c` as a hexadecimal digit, if it is one.
fn hex_digit(c: u8) -> (r: Option<u32>)
    ensures
        r is Some <==> is_hex(c),
        r matches Some(v) ==> v == hex_value(c) && v < 16,
{
    if 0x30 <= c && c <= 0x39 {
        Some((c - 0x30) as u32)
    } else if 0x61 <= c && c <= 0x66 {
        Some((c - 0x61 + 10) as u32)
    } else if 0x41 <= c && c <= 0x46 {
        Some((c - 0x41 + 10) as u32)
    } else {
        None
    }
}

/// The first offset from `i` on that does not hold whitespace.
pub fn skip_ws_from(b: &[u8], i: usize) -> (r: usize)
    requires
        i <= b@.len(),
    ensures
        r == skip_ws(b@, i as int),
        i <= r <= b@.len(),
{
    proof {
        lemma_runs_forward(b@, i as int);
    }
    let mut j = i;
    while j < b.len() && ws_byte(b[j])
        invariant
            i <= j <= b@.len(),
            skip_ws(b@, j as int) == skip_ws(b@, i as int),
        decreases b@.len() - j,
    {
        j = j + 1;
    }
    j
}

/// The first offset from `i` on that holds no byte of a number.
fn number_from(b: &[u8], i: usize) -> (r: usize)
    requires
        i <= b@.len(),
    ensures
        r == number_end(b@, i as int),
        i <= r <= b@.len(),
{
    let mut j = i;
    while j < b.len() && number_byte(b[j])
        invariant
            i <= j <= b@.len(),
            number_end(b@, j as int) == number_end(b@, i as int),
        decreases b@.len() - j,
    {
        j = j + 1;
    }
    j
}

/// The code unit spelled by the four hex digits at `k`, for the escape
/// whose backslash is at `esc`.
fn code_unit_at(b: &[u8], k: usize, esc: usize) -> (r: Result<u32, Error>)
    requires
        k <= b@.len(),
    ensures
        match r {
            Ok(u) => code_unit(b@, k as int, esc as int) == Ok::<int, (ErrorCode, int)>(u as int),
            Err(e) => code_unit(b@, k as int, esc as int) == Err::<int, (ErrorCode, int)>(
                (e.code, e.position as int),
            ),
        },
{
    let mut acc: u32 = 0;
    let mut d: usize = 0;
    while d < 4
        invariant
            k <= b@.len(),
            d <= 4,
            code_unit(b@, k as int, esc as int) == unit_digits(
                b@,
                k as int,
                esc as int,
                d as int,
                acc as int,
            ),
            d == 0 ==> acc == 0,
            d == 1 ==> acc < 16,
            d == 2 ==> acc < 256,
            d == 3 ==> acc < 4096,
            acc < 65536,
        decreases 4 - d,
    {
        if d >= b.len() - k {
            return Err(Error::new(ErrorCode::UnexpectedEnd, b.len()));
        }
        match hex_digit(b[k + d]) {
            Some(v) => {
                acc = acc * 16 + v;
            },
            None => {
                return Err(Error::new(ErrorCode::InvalidEscape, esc));
            },
        }
        d = d + 1;
    }
    Ok(acc)
}

/// Step over the escape whose backslash is at `i`.
fn escape_from(b: &[u8], i: usize) -> (r: Result<usize, Error>)
    requires
        i < b@.len(),
    ensures
        outcome(r) == escape_end(b@, i as int),
        r matches Ok(e) ==> i + 2 <= e <= b@.len(),
{
    proof {
        lemma_escape_forward(b@, i as int);
    }
    let len = b.len();
    if i + 1 >= len {
        return Err(Error::new(ErrorCode::UnexpectedEnd, len));
    }
    let c = b[i + 1];
    if c == QUOTE || c == BACKSLASH || c == 0x2F || c == 0x62 || c == 0x66 || c == 0x6E || c
        == 0x72 || c == 0x74 {
        return Ok(i + 2);
    }
    if c != 0x75 {
        return Err(Error::new(ErrorCode::InvalidEscape, i));
    }
    let u = match code_unit_at(b, i + 2, i) {
        Ok(u) => u,
        Err(e) => {
            return Err(e);
        },
    };
    proof {
        lemma_code_unit(b@, i + 2, i as int);
    }
    if 0xDC00 <= u && u <= 0xDFFF {
        return Err(Error::new(ErrorCode::InvalidSurrogate, i));
    }
    if !(0xD800 <= u && u <= 0xDBFF) {
        return Ok(i + 6);
    }
    let j = i + 6;
    if j >= len {
        return Err(Error::new(ErrorCode::UnexpectedEnd, len));
    }
    if b[j] != BACKSLASH {
        return Err(Error::new(ErrorCode::InvalidSurrogate, i));
    }
    if j + 1 >= len {
        return Err(Error::new(ErrorCode::UnexpectedEnd, len));
    }
    if b[j + 1] != 0x75 {
        return Err(Error::new(ErrorCode::InvalidSurrogate, i));
    }
    match code_unit_at(b, j + 2, j) {
        Ok(low) => {
            if 0xDC00 <= low && low <= 0xDFFF {
                Ok(j + 6)
            } else {
                Err(Error::new(ErrorCode::InvalidSurrogate, i))
            }
        },
        Err(e) => Err(e),
    }
}

/// Step over the rest of a string from `i`, just past its opening quote.
fn string_from(b: &[u8], i: usize) -> (r: Result<usize, Error>)
    requires
        i <= b@.len(),
    ensures
        outcome(r) == string_end(b@, i as int),
        r matches Ok(e) ==> i < e <= b@.len(),
{
    let len = b.len();
    let mut j = i;
    loop
        invariant
            i <= j <= len,
            len == b@.len(),
            string_end(b@, j as int) == string_end(b@, i as int),
        decreases len - j,
    {
        if j >= len {
            return Err(Error::new(ErrorCode::UnexpectedEnd, len));
        }
        let c = b[j];
        if c == QUOTE {
            return Ok(j + 1);
        }
        if c == BACKSLASH {
            match escape_from(b, j) {
                Ok(k) => {
                    j = k;
                },
                Err(e) => {
                    return Err(e);
                },
            }
        } else if c < 0x20 {
            return Err(Error::new(ErrorCode::UnexpectedCharacter, j));
        } else {
            j = j + 1;
        }
    }
}

/// Step over the literal `word` at `i`.
fn literal_from(b: &[u8], i: usize, word: &[u8]) -> (r: Result<usize, Error>)
    requires
        i <= b@.len(),
        word@.len() > 0,
    ensures
        outcome(r) == literal_end(b@, i as int, word@, 0),
        r matches Ok(e) ==> i < e <= b@.len(),
{
    proof {
        lemma_literal_forward(b@, i as int, word@, 0);
    }
    let len = b.len();
    let mut k: usize = 0;
    while k < word.len()
        invariant
            i <= len,
            len == b@.len(),
            k <= word@.len(),
            i + k <= len,
            literal_end(b@, i as int, word@, k as int) == literal_end(b@, i as int, word@, 0),
        decreases word@.len() - k,
    {
        if k >= len - i {
            return Err(Error::new(ErrorCode::UnexpectedEnd, len));
        }
        if b[i + k] != word[k] {
            return Err(Error::new(ErrorCode::UnexpectedCharacter, i + k));
        }
        k = k + 1;
    }
    Ok(i + k)
}

/// Step over the value at `i`, which sits inside `depth` arrays and
/// objects.
pub(crate) fn value_from(b: &[u8], i: usize, depth: usize) -> (r: Result<usize, Error>)
    requires
        i <= b@.len(),
        depth <= MAX_DEPTH,
    ensures
        outcome(r) == value_end(b@, i as int, depth as int),
        r matches Ok(e) ==> i < e <= b@.len(),
    decreases b@.len() - i, 0int,
{
    let len = b.len();
    if i >= len {
        return Err(Error::new(ErrorCode::UnexpectedEnd, len));
    }
    let c = b[i];
    if c == OPEN_BRACE || c == OPEN_BRACKET {
        if depth >= MAX_DEPTH {
            return Err(Error::new(ErrorCode::DepthExceeded, i));
        }
        let j = skip_ws_from(b, i + 1);
        if c == OPEN_BRACE {
            object_from(b, j, depth + 1)
        } else {
            array_from(b, j, depth + 1)
        }
    } else if c == QUOTE {
        string_from(b, i + 1)
    } else if c == 0x74 {
        let word: [u8; 4] = [0x74, 0x72, 0x75, 0x65];
        assert(word@ =~= true_word());
        literal_from(b, i, word.as_slice())
    } else if c == 0x66 {
        let word: [u8; 5] = [0x66, 0x61, 0x6C, 0x73, 0x65];
        assert(word@ =~= false_word());
        literal_from(b, i, word.as_slice())
    } else if c == 0x6E {
        let word: [u8; 4] = [0x6E, 0x75, 0x6C, 0x6C];
        assert(word@ =~= null_word());
        literal_from(b, i, word.as_slice())
    } else if c == MINUS || (0x30 <= c && c <= 0x39) {
        Ok(number_from(b, i + 1))
    } else {
        Err(Error::new(ErrorCode::UnexpectedCharacter, i))
    }
}

/// Step over what follows an object's opening brace, from `i`.
fn object_from(b: &[u8], i: usize, depth: usize) -> (r: Result<usize, Error>)
    requires
        i <= b@.len(),
        depth <= MAX_DEPTH,
    ensures
        outcome(r) == object_rest(b@, i as int, depth as int),
        r matches Ok(e) ==> i < e <= b@.len(),
    decreases b@.len() - i, 2int,
{
    let len = b.len();
    if i < len && b[i] == CLOSE_BRACE {
        return Ok(i + 1);
    }
    let mut at = i;
    loop
        invariant
            i <= at <= len,
            len == b@.len(),
            depth <= MAX_DEPTH,
            members_end(b@, at as int, depth as int) == object_rest(b@, i as int, depth as int),
        decreases len - at,
    {
        if at >= len {
            return Err(Error::new(ErrorCode::UnexpectedEnd, len));
        }
        if b[at] != QUOTE {
            return Err(Error::new(ErrorCode::UnexpectedCharacter, at));
        }
        let k = match string_from(b, at + 1) {
            Ok(k) => k,
            Err(e) => {
                return Err(e);
            },
        };
        let c = skip_ws_from(b, k);
        if c >= len {
            return Err(Error::new(ErrorCode::UnexpectedEnd, len));
        }
        if b[c] != COLON {
            return Err(Error::new(ErrorCode::UnexpectedCharacter, c));
        }
        let v = skip_ws_from(b, c + 1);
        let e = match value_from(b, v, depth) {
            Ok(e) => e,
            Err(err) => {
                return Err(err);
            },
        };
        let m = skip_ws_from(b, e);
        if m >= len {
            return Err(Error::new(ErrorCode::UnexpectedEnd, len));
        }
        if b[m] == COMMA {
            at = skip_ws_from(b, m + 1);
        } else if b[m] == CLOSE_BRACE {
            return Ok(m + 1);
        } else {
            return Err(Error::new(ErrorCode::UnexpectedCharacter, m));
        }
    }
}

/// Step over what follows an array's opening bracket, from `i`.
fn array_from(b: &[u8], i: usize, depth: usize) -> (r: Result<usize, Error>)
    requires
        i <= b@.len(),
        depth <= MAX_DEPTH,
    ensures
        outcome(r) == array_rest(b@, i as int, depth as int),
        r matches Ok(e) ==> i < e <= b@.len(),
    decreases b@.len() - i, 2int,
{
    let len = b.len();
    if i < len && b[i] == CLOSE_BRACKET {
        return Ok(i + 1);
    }
    let mut at = i;
    loop
        invariant
            i <= at <= len,
            len == b@.len(),
            depth <= MAX_DEPTH,
            elements_end(b@, at as int, depth as int) == array_rest(b@, i as int, depth as int),
        decreases len - at,
    {
        if at >= len {
            return Err(Error::new(ErrorCode::UnexpectedEnd, len));
        }
        let e = match value_from(b, at, depth) {
            Ok(e) => e,
            Err(err) => {
                return Err(err);
            },
        };
        let m = skip_ws_from(b, e);
        if m >= len {
            return Err(Error::new(ErrorCode::UnexpectedEnd, len));
        }
        if b[m] == COMMA {
            at = skip_ws_from(b, m + 1);
        } else if b[m] == CLOSE_BRACKET {
            return Ok(m + 1);
        } else {
            return Err(Error::new(ErrorCode::UnexpectedCharacter, m));
        }
    }
}

/// The span of the one value `b` spells, with the whitespace on either side
/// of it walked past, as [`span`] states it.
pub fn span_of_bytes(b: &[u8]) -> (r: Result<(usize, usize), Error>)
    ensures
        match r {
            Ok((start, end)) => span(b@) == Ok::<(int, int), (ErrorCode, int)>(
                (start as int, end as int),
            ) && start < end <= b@.len(),
            Err(e) => span(b@) == Err::<(int, int), (ErrorCode, int)>((e.code, e.position as int)),
        },
{
    let start = skip_ws_from(b, 0);
    let end = match value_from(b, start, 0) {
        Ok(end) => end,
        Err(e) => {
            return Err(e);
        },
    };
    let rest = skip_ws_from(b, end);
    if rest < b.len() {
        return Err(Error::new(ErrorCode::TrailingContent, rest));
    }
    Ok((start, end))
}

} // verus!
