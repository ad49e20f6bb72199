//! A value is where it is: stepping over it reads only its own bytes.
//!
//! Whatever lies on either side of a value, the walk over it reaches the
//! same end, shifted by where the value sits. That is what lets a checked
//! span stand on its own, and what makes the whitespace around a value no
//! part of it.

use vstd::prelude::*;
use crate::error::ErrorCode;
use crate::json::walk::{
    array_rest, code_unit, elements_end, escape_end, false_word, in_number, is_ws,
    lemma_code_unit, lemma_escape_forward, lemma_literal_forward, lemma_runs_forward,
    lemma_string_forward, literal_end, members_end, null_word, number_end, object_rest, skip_ws,
    span, string_end, true_word, unit_digits, value_end, Walk, BACKSLASH, CLOSE_BRACE, CLOSE_BRACKET,
    COLON, COMMA, OPEN_BRACE, OPEN_BRACKET, QUOTE, MAX_DEPTH,
};

verus! {

/// `w` is the bytes of `b` that start at offset `off`.
pub open spec fn window(b: Seq<u8>, w: Seq<u8>, off: int) -> bool {
    &&& 0 <= off
    &&& off + w.len() <= b.len()
    &&& forall|k: int| 0 <= k < w.len() ==> #[trigger] w[k] == b[off + k]
}

// ---------------------------------------------------------------------------
// A value that was stepped over ends past where it began
// ---------------------------------------------------------------------------

/// A value, once stepped over, ends past its first byte and within the
/// bytes.
pub proof fn lemma_value_forward(b: Seq<u8>, i: int, d: int)
    ensures
        value_end(b, i, d) matches Ok(e) ==> i < e <= b.len(),
    decreases b.len() - i, 0int,
{
    if 0 <= i < b.len() {
        let c = b[i];
        if c == OPEN_BRACE || c == OPEN_BRACKET {
            if d < MAX_DEPTH {
                lemma_runs_forward(b, i + 1);
                let j = skip_ws(b, i + 1);
                if c == OPEN_BRACE {
                    lemma_object_forward(b, j, d + 1);
                } else {
                    lemma_array_forward(b, j, d + 1);
                }
            }
        } else if c == QUOTE {
            lemma_string_forward(b, i + 1);
        } else if c == 0x74 {
            lemma_literal_forward(b, i, true_word(), 0);
        } else if c == 0x66 {
            lemma_literal_forward(b, i, false_word(), 0);
        } else if c == 0x6E {
            lemma_literal_forward(b, i, null_word(), 0);
        } else {
            lemma_runs_forward(b, i + 1);
        }
    }
}

/// The rest of an object ends past where it began and within the bytes.
pub proof fn lemma_object_forward(b: Seq<u8>, i: int, d: int)
    ensures
        object_rest(b, i, d) matches Ok(e) ==> i < e <= b.len(),
    decreases b.len() - i, 2int,
{
    if !(0 <= i < b.len() && b[i] == CLOSE_BRACE) {
        lemma_members_forward(b, i, d);
    }
}

/// An object's members end past where they began and within the bytes.
pub proof fn lemma_members_forward(b: Seq<u8>, i: int, d: int)
    ensures
        members_end(b, i, d) matches Ok(e) ==> i < e <= b.len(),
    decreases b.len() - i, 1int,
{
    if 0 <= i < b.len() && b[i] == QUOTE {
        lemma_string_forward(b, i + 1);
        if let Ok(k) = string_end(b, i + 1) {
            lemma_runs_forward(b, k);
            let c = skip_ws(b, k);
            if c < b.len() && b[c] == COLON {
                lemma_runs_forward(b, c + 1);
                let v = skip_ws(b, c + 1);
                if let Ok(e) = value_end(b, v, d) {
                    if !(e <= v || e > b.len()) {
                        lemma_runs_forward(b, e);
                        let m = skip_ws(b, e);
                        if m < b.len() && b[m] == COMMA {
                            lemma_runs_forward(b, m + 1);
                            lemma_members_forward(b, skip_ws(b, m + 1), d);
                        }
                    }
                }
            }
        }
    }
}

/// The rest of an array ends past where it began and within the bytes.
pub proof fn lemma_array_forward(b: Seq<u8>, i: int, d: int)
    ensures
        array_rest(b, i, d) matches Ok(e) ==> i < e <= b.len(),
    decreases b.len() - i, 2int,
{
    if !(0 <= i < b.len() && b[i] == CLOSE_BRACKET) {
        lemma_elements_forward(b, i, d);
    }
}

/// An array's elements end past where they began and within the bytes.
pub proof fn lemma_elements_forward(b: Seq<u8>, i: int, d: int)
    ensures
        elements_end(b, i, d) matches Ok(e) ==> i < e <= b.len(),
    decreases b.len() - i, 1int,
{
    if 0 <= i < b.len() {
        if let Ok(e) = value_end(b, i, d) {
            if !(e <= i || e > b.len()) {
                lemma_runs_forward(b, e);
                let m = skip_ws(b, e);
                if m < b.len() && b[m] == COMMA {
                    lemma_runs_forward(b, m + 1);
                    lemma_elements_forward(b, skip_ws(b, m + 1), d);
                }
            }
        }
    }
}

// ---------------------------------------------------------------------------
// Narrowing: the bytes around a value are not read
// ---------------------------------------------------------------------------

/// Skipping whitespace inside a window ends where it ends in the whole.
proof fn lemma_ws_narrow(b: Seq<u8>, w: Seq<u8>, off: int, i: int)
    requires
        window(b, w, off),
        off <= i <= off + w.len(),
        skip_ws(b, i) <= off + w.len(),
    ensures
        skip_ws(w, i - off) == skip_ws(b, i) - off,
    decreases b.len() - i,
{
    lemma_runs_forward(b, i);
    if i < b.len() && is_ws(b[i]) {
        lemma_runs_forward(b, i + 1);
        assert(w[i - off] == b[off + (i - off)]);
        lemma_ws_narrow(b, w, off, i + 1);
    } else if i - off < w.len() {
        assert(w[i - off] == b[off + (i - off)]);
    }
}

/// Stepping over a number inside a window ends where it ends in the whole.
proof fn lemma_number_narrow(b: Seq<u8>, w: Seq<u8>, off: int, i: int)
    requires
        window(b, w, off),
        off <= i <= off + w.len(),
        number_end(b, i) <= off + w.len(),
    ensures
        number_end(w, i - off) == number_end(b, i) - off,
    decreases b.len() - i,
{
    lemma_runs_forward(b, i);
    if i < b.len() && in_number(b[i]) {
        lemma_runs_forward(b, i + 1);
        assert(w[i - off] == b[off + (i - off)]);
        lemma_number_narrow(b, w, off, i + 1);
    } else if i - off < w.len() {
        assert(w[i - off] == b[off + (i - off)]);
    }
}

/// Four hex digits inside a window spell the code unit they spell in the
/// whole.
proof fn lemma_code_unit_narrow(b: Seq<u8>, w: Seq<u8>, off: int, k: int, esc: int, esc_w: int)
    requires
        window(b, w, off),
        off <= k,
        k + 4 <= off + w.len(),
        code_unit(b, k, esc) is Ok,
    ensures
        code_unit(w, k - off, esc_w) == code_unit(b, k, esc),
{
    reveal_with_fuel(unit_digits, 5);
    assert(w[k - off] == b[off + (k - off)]);
    assert(w[k - off + 1] == b[off + (k - off + 1)]);
    assert(w[k - off + 2] == b[off + (k - off + 2)]);
    assert(w[k - off + 3] == b[off + (k - off + 3)]);
}

/// An escape inside a window ends where it ends in the whole.
proof fn lemma_escape_narrow(b: Seq<u8>, w: Seq<u8>, off: int, i: int)
    requires
        window(b, w, off),
        off <= i,
        escape_end(b, i) matches Ok(e) && e <= off + w.len(),
    ensures
        escape_end(w, i - off) == Ok::<int, (ErrorCode, int)>(escape_end(b, i)->Ok_0 - off),
{
    lemma_escape_forward(b, i);
    lemma_code_unit(b, i + 2, i);
    let x = i - off;
    assert(w[x + 1] == b[off + (x + 1)]);
    if b[i + 1] == 0x75 {
        lemma_code_unit_narrow(b, w, off, i + 2, i, x);
        if let Ok(u) = code_unit(b, i + 2, i) {
            if 0xD800 <= u <= 0xDBFF {
                lemma_code_unit(b, i + 8, i + 6);
                assert(w[x + 6] == b[off + (x + 6)]);
                assert(w[x + 7] == b[off + (x + 7)]);
                lemma_code_unit_narrow(b, w, off, i + 8, i + 6, x + 6);
            }
        }
    }
}

/// The rest of a string inside a window ends where it ends in the whole.
proof fn lemma_string_narrow(b: Seq<u8>, w: Seq<u8>, off: int, i: int)
    requires
        window(b, w, off),
        off <= i,
        string_end(b, i) matches Ok(e) && e <= off + w.len(),
    ensures
        string_end(w, i - off) == Ok::<int, (ErrorCode, int)>(string_end(b, i)->Ok_0 - off),
    decreases b.len() - i,
{
    lemma_string_forward(b, i);
    assert(w[i - off] == b[off + (i - off)]);
    if b[i] == BACKSLASH {
        lemma_escape_forward(b, i);
        let j = escape_end(b, i)->Ok_0;
        lemma_string_forward(b, j);
        lemma_escape_narrow(b, w, off, i);
        lemma_string_narrow(b, w, off, j);
    } else if b[i] != QUOTE {
        lemma_string_forward(b, i + 1);
        lemma_string_narrow(b, w, off, i + 1);
    }
}

/// A literal inside a window ends where it ends in the whole.
proof fn lemma_literal_narrow(b: Seq<u8>, w: Seq<u8>, off: int, i: int, word: Seq<u8>, k: int)
    requires
        window(b, w, off),
        off <= i,
        0 <= k <= word.len(),
        i + k <= b.len(),
        literal_end(b, i, word, k) matches Ok(e) && e <= off + w.len(),
    ensures
        literal_end(w, i - off, word, k) == Ok::<int, (ErrorCode, int)>(
            literal_end(b, i, word, k)->Ok_0 - off,
        ),
    decreases word.len() - k,
{
    lemma_literal_forward(b, i, word, k);
    if k < word.len() {
        assert(w[i - off + k] == b[off + (i - off + k)]);
        lemma_literal_narrow(b, w, off, i, word, k + 1);
    }
}

/// A value inside a window ends where it ends in the whole.
pub proof fn lemma_value_narrow(b: Seq<u8>, w: Seq<u8>, off: int, i: int, d: int)
    requires
        window(b, w, off),
        off <= i,
        value_end(b, i, d) matches Ok(e) && e <= off + w.len(),
    ensures
        value_end(w, i - off, d) == Ok::<int, (ErrorCode, int)>(value_end(b, i, d)->Ok_0 - off),
    decreases b.len() - i, 0int,
{
    lemma_value_forward(b, i, d);
    let c = b[i];
    assert(w[i - off] == b[off + (i - off)]);
    if c == OPEN_BRACE || c == OPEN_BRACKET {
        lemma_runs_forward(b, i + 1);
        let j = skip_ws(b, i + 1);
        if c == OPEN_BRACE {
            lemma_object_forward(b, j, d + 1);
        } else {
            lemma_array_forward(b, j, d + 1);
        }
        lemma_ws_narrow(b, w, off, i + 1);
        if c == OPEN_BRACE {
            lemma_object_narrow(b, w, off, j, d + 1);
        } else {
            lemma_array_narrow(b, w, off, j, d + 1);
        }
    } else if c == QUOTE {
        lemma_string_narrow(b, w, off, i + 1);
    } else if c == 0x74 {
        lemma_literal_narrow(b, w, off, i, true_word(), 0);
    } else if c == 0x66 {
        lemma_literal_narrow(b, w, off, i, false_word(), 0);
    } else if c == 0x6E {
        lemma_literal_narrow(b, w, off, i, null_word(), 0);
    } else {
        lemma_runs_forward(b, i + 1);
        lemma_number_narrow(b, w, off, i + 1);
    }
}

/// The rest of an object inside a window ends where it ends in the whole.
proof fn lemma_object_narrow(b: Seq<u8>, w: Seq<u8>, off: int, i: int, d: int)
    requires
        window(b, w, off),
        off <= i,
        object_rest(b, i, d) matches Ok(e) && e <= off + w.len(),
    ensures
        object_rest(w, i - off, d) == Ok::<int, (ErrorCode, int)>(object_rest(b, i, d)->Ok_0 - off),
    decreases b.len() - i, 2int,
{
    lemma_object_forward(b, i, d);
    assert(w[i - off] == b[off + (i - off)]);
    if !(b[i] == CLOSE_BRACE) {
        lemma_members_narrow(b, w, off, i, d);
    }
}

/// An object's members inside a window end where they end in the whole.
proof fn lemma_members_narrow(b: Seq<u8>, w: Seq<u8>, off: int, i: int, d: int)
    requires
        window(b, w, off),
        off <= i,
        members_end(b, i, d) matches Ok(e) && e <= off + w.len(),
    ensures
        members_end(w, i - off, d) == Ok::<int, (ErrorCode, int)>(members_end(b, i, d)->Ok_0 - off),
    decreases b.len() - i, 1int,
{
    let end = members_end(b, i, d)->Ok_0;
    lemma_members_forward(b, i, d);
    assert(w[i - off] == b[off + (i - off)]);
    lemma_string_forward(b, i + 1);
    let k = string_end(b, i + 1)->Ok_0;
    lemma_runs_forward(b, k);
    let c = skip_ws(b, k);
    lemma_runs_forward(b, c + 1);
    let v = skip_ws(b, c + 1);
    let e = value_end(b, v, d)->Ok_0;
    lemma_runs_forward(b, e);
    let m = skip_ws(b, e);
    if b[m] == COMMA {
        lemma_runs_forward(b, m + 1);
        lemma_members_forward(b, skip_ws(b, m + 1), d);
    }
    lemma_string_narrow(b, w, off, i + 1);
    lemma_ws_narrow(b, w, off, k);
    assert(w[c - off] == b[off + (c - off)]);
    lemma_ws_narrow(b, w, off, c + 1);
    lemma_value_narrow(b, w, off, v, d);
    lemma_ws_narrow(b, w, off, e);
    assert(w[m - off] == b[off + (m - off)]);
    if b[m] == COMMA {
        lemma_ws_narrow(b, w, off, m + 1);
        lemma_members_narrow(b, w, off, skip_ws(b, m + 1), d);
    }
}

/// The rest of an array inside a window ends where it ends in the whole.
proof fn lemma_array_narrow(b: Seq<u8>, w: Seq<u8>, off: int, i: int, d: int)
    requires
        window(b, w, off),
        off <= i,
        array_rest(b, i, d) matches Ok(e) && e <= off + w.len(),
    ensures
        array_rest(w, i - off, d) == Ok::<int, (ErrorCode, int)>(array_rest(b, i, d)->Ok_0 - off),
    decreases b.len() - i, 2int,
{
    lemma_array_forward(b, i, d);
    assert(w[i - off] == b[off + (i - off)]);
    if !(b[i] == CLOSE_BRACKET) {
        lemma_elements_narrow(b, w, off, i, d);
    }
}

/// An array's elements inside a window end where they end in the whole.
proof fn lemma_elements_narrow(b: Seq<u8>, w: Seq<u8>, off: int, i: int, d: int)
    requires
        window(b, w, off),
        off <= i,
        elements_end(b, i, d) matches Ok(e) && e <= off + w.len(),
    ensures
        elements_end(w, i - off, d) == Ok::<int, (ErrorCode, int)>(
            elements_end(b, i, d)->Ok_0 - off,
        ),
    decreases b.len() - i, 1int,
{
    lemma_elements_forward(b, i, d);
    let e = value_end(b, i, d)->Ok_0;
    lemma_runs_forward(b, e);
    let m = skip_ws(b, e);
    if b[m] == COMMA {
        lemma_runs_forward(b, m + 1);
        lemma_elements_forward(b, skip_ws(b, m + 1), d);
    }
    lemma_value_narrow(b, w, off, i, d);
    lemma_ws_narrow(b, w, off, e);
    assert(w[m - off] == b[off + (m - off)]);
    if b[m] == COMMA {
        lemma_ws_narrow(b, w, off, m + 1);
        lemma_elements_narrow(b, w, off, skip_ws(b, m + 1), d);
    }
}

// ---------------------------------------------------------------------------
// Widening: a value keeps its end with anything around it
// ---------------------------------------------------------------------------

/// What follows the window in the whole cannot carry a number on past it.
pub open spec fn closed_after(b: Seq<u8>, w: Seq<u8>, off: int) -> bool {
    off + w.len() == b.len() || !in_number(b[off + w.len()])
}

/// Skipping whitespace that stops inside the window stops at the same byte
/// in the whole.
proof fn lemma_ws_widen(b: Seq<u8>, w: Seq<u8>, off: int, j: int)
    requires
        window(b, w, off),
        0 <= j <= w.len(),
        skip_ws(w, j) < w.len(),
    ensures
        skip_ws(b, j + off) == skip_ws(w, j) + off,
    decreases w.len() - j,
{
    lemma_runs_forward(w, j);
    assert(w[j] == b[off + j]);
    if is_ws(w[j]) {
        lemma_ws_widen(b, w, off, j + 1);
    }
}

/// Stepping over a number in the window stops at the same byte in the
/// whole, when nothing after the window carries it on.
proof fn lemma_number_widen(b: Seq<u8>, w: Seq<u8>, off: int, j: int)
    requires
        window(b, w, off),
        closed_after(b, w, off),
        0 <= j <= w.len(),
    ensures
        number_end(b, j + off) == number_end(w, j) + off,
    decreases w.len() - j,
{
    if j < w.len() {
        assert(w[j] == b[off + j]);
        if in_number(w[j]) {
            lemma_number_widen(b, w, off, j + 1);
        }
    }
}

/// Four hex digits in the window spell the same code unit in the whole.
proof fn lemma_code_unit_widen(b: Seq<u8>, w: Seq<u8>, off: int, k: int, esc: int, esc_b: int)
    requires
        window(b, w, off),
        0 <= k,
        code_unit(w, k, esc) is Ok,
    ensures
        code_unit(b, k + off, esc_b) == code_unit(w, k, esc),
{
    reveal_with_fuel(unit_digits, 5);
    lemma_code_unit(w, k, esc);
    assert(w[k] == b[off + k]);
    assert(w[k + 1] == b[off + (k + 1)]);
    assert(w[k + 2] == b[off + (k + 2)]);
    assert(w[k + 3] == b[off + (k + 3)]);
}

/// An escape in the window ends at the same byte in the whole.
proof fn lemma_escape_widen(b: Seq<u8>, w: Seq<u8>, off: int, j: int)
    requires
        window(b, w, off),
        0 <= j,
        escape_end(w, j) is Ok,
    ensures
        escape_end(b, j + off) == Ok::<int, (ErrorCode, int)>(escape_end(w, j)->Ok_0 + off),
{
    lemma_escape_forward(w, j);
    lemma_code_unit(w, j + 2, j);
    assert(w[j + 1] == b[off + (j + 1)]);
    if w[j + 1] == 0x75 {
        lemma_code_unit_widen(b, w, off, j + 2, j, j + off);
        if let Ok(u) = code_unit(w, j + 2, j) {
            if 0xD800 <= u <= 0xDBFF {
                lemma_code_unit(w, j + 8, j + 6);
                assert(w[j + 6] == b[off + (j + 6)]);
                assert(w[j + 7] == b[off + (j + 7)]);
                lemma_code_unit_widen(b, w, off, j + 8, j + 6, j + 6 + off);
            }
        }
    }
}

/// The rest of a string in the window ends at the same byte in the whole.
proof fn lemma_string_widen(b: Seq<u8>, w: Seq<u8>, off: int, j: int)
    requires
        window(b, w, off),
        0 <= j,
        string_end(w, j) is Ok,
    ensures
        string_end(b, j + off) == Ok::<int, (ErrorCode, int)>(string_end(w, j)->Ok_0 + off),
    decreases w.len() - j,
{
    lemma_string_forward(w, j);
    assert(w[j] == b[off + j]);
    if w[j] == BACKSLASH {
        lemma_escape_forward(w, j);
        let k = escape_end(w, j)->Ok_0;
        lemma_escape_widen(b, w, off, j);
        lemma_string_widen(b, w, off, k);
    } else if w[j] != QUOTE {
        lemma_string_widen(b, w, off, j + 1);
    }
}

/// A literal in the window ends at the same byte in the whole.
proof fn lemma_literal_widen(b: Seq<u8>, w: Seq<u8>, off: int, j: int, word: Seq<u8>, k: int)
    requires
        window(b, w, off),
        0 <= j,
        0 <= k <= word.len(),
        j + k <= w.len(),
        literal_end(w, j, word, k) is Ok,
    ensures
        literal_end(b, j + off, word, k) == Ok::<int, (ErrorCode, int)>(
            literal_end(w, j, word, k)->Ok_0 + off,
        ),
    decreases word.len() - k,
{
    lemma_literal_forward(w, j, word, k);
    if k < word.len() {
        assert(w[j + k] == b[off + (j + k)]);
        lemma_literal_widen(b, w, off, j, word, k + 1);
    }
}

/// A value in the window ends at the same byte in the whole, when nothing
/// after the window carries a number on.
pub proof fn lemma_value_widen(b: Seq<u8>, w: Seq<u8>, off: int, j: int, d: int)
    requires
        window(b, w, off),
        closed_after(b, w, off),
        0 <= j,
        value_end(w, j, d) is Ok,
    ensures
        value_end(b, j + off, d) == Ok::<int, (ErrorCode, int)>(value_end(w, j, d)->Ok_0 + off),
    decreases w.len() - j, 0int,
{
    lemma_value_forward(w, j, d);
    let c = w[j];
    assert(w[j] == b[off + j]);
    if c == OPEN_BRACE || c == OPEN_BRACKET {
        lemma_runs_forward(w, j + 1);
        let k = skip_ws(w, j + 1);
        if c == OPEN_BRACE {
            lemma_object_forward(w, k, d + 1);
            assert(k < w.len()) by {
                if k >= w.len() {
                    assert(!(0 <= k < w.len() && w[k] == CLOSE_BRACE));
                }
            }
        } else {
            lemma_array_forward(w, k, d + 1);
            assert(k < w.len()) by {
                if k >= w.len() {
                    assert(!(0 <= k < w.len() && w[k] == CLOSE_BRACKET));
                }
            }
        }
        lemma_ws_widen(b, w, off, j + 1);
        if c == OPEN_BRACE {
            lemma_object_widen(b, w, off, k, d + 1);
        } else {
            lemma_array_widen(b, w, off, k, d + 1);
        }
    } else if c == QUOTE {
        lemma_string_widen(b, w, off, j + 1);
    } else if c == 0x74 {
        lemma_literal_widen(b, w, off, j, true_word(), 0);
    } else if c == 0x66 {
        lemma_literal_widen(b, w, off, j, false_word(), 0);
    } else if c == 0x6E {
        lemma_literal_widen(b, w, off, j, null_word(), 0);
    } else {
        lemma_number_widen(b, w, off, j + 1);
    }
}

/// The rest of an object in the window ends at the same byte in the whole.
proof fn lemma_object_widen(b: Seq<u8>, w: Seq<u8>, off: int, j: int, d: int)
    requires
        window(b, w, off),
        closed_after(b, w, off),
        0 <= j < w.len(),
        object_rest(w, j, d) is Ok,
    ensures
        object_rest(b, j + off, d) == Ok::<int, (ErrorCode, int)>(object_rest(w, j, d)->Ok_0 + off),
    decreases w.len() - j, 2int,
{
    assert(w[j] == b[off + j]);
    if w[j] != CLOSE_BRACE {
        lemma_members_widen(b, w, off, j, d);
    }
}

/// An object's members in the window end at the same byte in the whole.
proof fn lemma_members_widen(b: Seq<u8>, w: Seq<u8>, off: int, j: int, d: int)
    requires
        window(b, w, off),
        closed_after(b, w, off),
        0 <= j < w.len(),
        members_end(w, j, d) is Ok,
    ensures
        members_end(b, j + off, d) == Ok::<int, (ErrorCode, int)>(members_end(w, j, d)->Ok_0 + off),
    decreases w.len() - j, 1int,
{
    assert(w[j] == b[off + j]);
    lemma_string_forward(w, j + 1);
    let k = string_end(w, j + 1)->Ok_0;
    lemma_runs_forward(w, k);
    let c = skip_ws(w, k);
    lemma_runs_forward(w, c + 1);
    let v = skip_ws(w, c + 1);
    lemma_value_forward(w, v, d);
    let e = value_end(w, v, d)->Ok_0;
    lemma_runs_forward(w, e);
    let m = skip_ws(w, e);
    lemma_string_widen(b, w, off, j + 1);
    lemma_ws_widen(b, w, off, k);
    assert(w[c] == b[off + c]);
    lemma_ws_widen(b, w, off, c + 1);
    lemma_value_widen(b, w, off, v, d);
    lemma_ws_widen(b, w, off, e);
    assert(w[m] == b[off + m]);
    if w[m] == COMMA {
        lemma_runs_forward(w, m + 1);
        let x = skip_ws(w, m + 1);
        lemma_members_forward(w, x, d);
        lemma_ws_widen(b, w, off, m + 1);
        lemma_members_widen(b, w, off, x, d);
    }
}

/// The rest of an array in the window ends at the same byte in the whole.
proof fn lemma_array_widen(b: Seq<u8>, w: Seq<u8>, off: int, j: int, d: int)
    requires
        window(b, w, off),
        closed_after(b, w, off),
        0 <= j < w.len(),
        array_rest(w, j, d) is Ok,
    ensures
        array_rest(b, j + off, d) == Ok::<int, (ErrorCode, int)>(array_rest(w, j, d)->Ok_0 + off),
    decreases w.len() - j, 2int,
{
    assert(w[j] == b[off + j]);
    if w[j] != CLOSE_BRACKET {
        lemma_elements_widen(b, w, off, j, d);
    }
}

/// An array's elements in the window end at the same byte in the whole.
proof fn lemma_elements_widen(b: Seq<u8>, w: Seq<u8>, off: int, j: int, d: int)
    requires
        window(b, w, off),
        closed_after(b, w, off),
        0 <= j < w.len(),
        elements_end(w, j, d) is Ok,
    ensures
        elements_end(b, j + off, d) == Ok::<int, (ErrorCode, int)>(
            elements_end(w, j, d)->Ok_0 + off,
        ),
    decreases w.len() - j, 1int,
{
    lemma_value_forward(w, j, d);
    let e = value_end(w, j, d)->Ok_0;
    lemma_runs_forward(w, e);
    let m = skip_ws(w, e);
    lemma_value_widen(b, w, off, j, d);
    lemma_ws_widen(b, w, off, e);
    assert(w[m] == b[off + m]);
    if w[m] == COMMA {
        lemma_runs_forward(w, m + 1);
        let x = skip_ws(w, m + 1);
        lemma_elements_forward(w, x, d);
        lemma_ws_widen(b, w, off, m + 1);
        lemma_elements_widen(b, w, off, x, d);
    }
}

// ---------------------------------------------------------------------------
// The span laws
// ---------------------------------------------------------------------------

/// Skipping whitespace across a run of it lands where skipping from its end
/// does.
proof fn lemma_skip_run(b: Seq<u8>, i: int, j: int)
    requires
        0 <= i <= j <= b.len(),
        forall|k: int| i <= k < j ==> is_ws(#[trigger] b[k]),
    ensures
        skip_ws(b, i) == skip_ws(b, j),
    decreases j - i,
{
    if i < j {
        lemma_skip_run(b, i + 1, j);
    }
}

/// A checked span is one value standing alone: walking the span's own
/// bytes finds the whole of them to be that value, with nothing around it.
/// So the text of a `Raw` that `Raw::new` built passes `Raw::new` again,
/// unchanged.
pub proof fn law_span_stands_alone(b: Seq<u8>)
    requires
        span(b) is Ok,
    ensures
        span(b.subrange(span(b)->Ok_0.0, span(b)->Ok_0.1)) == Ok::<(int, int), (ErrorCode, int)>(
            (0, span(b)->Ok_0.1 - span(b)->Ok_0.0),
        ),
{
    let (s, e) = span(b)->Ok_0;
    let w = b.subrange(s, e);
    lemma_runs_forward(b, 0);
    lemma_value_forward(b, s, 0);
    assert(window(b, w, s));
    lemma_value_narrow(b, w, s, s, 0);
    assert(w[0] == b[s + 0]);
    assert(!is_ws(w[0]));
    assert(skip_ws(w, 0) == 0);
    assert(skip_ws(w, e - s) == e - s);
}

/// Whitespace around a value is no part of it: with any run of whitespace
/// in front of the text and any after it, the span is the same value, moved
/// along by the whitespace in front. So `" 1 "` and `"1"` make the same
/// `Raw`.
pub proof fn law_whitespace_around_is_dropped(front: Seq<u8>, text: Seq<u8>, back: Seq<u8>)
    requires
        forall|k: int| 0 <= k < front.len() ==> is_ws(#[trigger] front[k]),
        forall|k: int| 0 <= k < back.len() ==> is_ws(#[trigger] back[k]),
        span(text) is Ok,
    ensures
        span(front + text + back) == Ok::<(int, int), (ErrorCode, int)>(
            (front.len() + span(text)->Ok_0.0, front.len() + span(text)->Ok_0.1),
        ),
{
    let (s, e) = span(text)->Ok_0;
    let b = front + text + back;
    let off = front.len() as int;
    let n = text.len() as int;
    assert forall|k: int| 0 <= k < n implies #[trigger] text[k] == b[off + k] by {
    }
    assert(window(b, text, off));
    if back.len() > 0 {
        assert(b[off + n] == back[0]);
    }
    assert(closed_after(b, text, off));
    lemma_runs_forward(text, 0);
    lemma_value_forward(text, s, 0);
    lemma_runs_forward(text, e);
    assert forall|k: int| 0 <= k < off implies is_ws(#[trigger] b[k]) by {
        assert(b[k] == front[k]);
    }
    lemma_skip_run(b, 0, off);
    lemma_ws_widen(b, text, off, 0);
    lemma_value_widen(b, text, off, s, 0);
    assert forall|k: int| off + e <= k < b.len() implies is_ws(#[trigger] b[k]) by {
        if k < off + n {
            assert(b[k] == text[k - off]);
        } else {
            assert(b[k] == back[k - off - n]);
        }
    }
    lemma_skip_run(b, off + e, b.len() as int);
    lemma_runs_forward(b, b.len() as int);
}

// ---------------------------------------------------------------------------
// Whitespace between tokens
// ---------------------------------------------------------------------------

/// All of `ws` is JSON whitespace.
pub open spec fn all_ws(ws: Seq<u8>) -> bool {
    forall|k: int| 0 <= k < ws.len() ==> is_ws(#[trigger] ws[k])
}

/// `s` sits at the end of `b`, from `off` on.
proof fn lemma_tail_window(b: Seq<u8>, s: Seq<u8>, off: int)
    requires
        0 <= off,
        off + s.len() == b.len(),
        forall|k: int| 0 <= k < s.len() ==> #[trigger] b[off + k] == s[k],
    ensures
        window(b, s, off),
        closed_after(b, s, off),
{
}

/// What follows an opening or a comma, as the walk takes it: the rest of an
/// object, the rest of an array, an object's members or an array's elements.
pub open spec fn walk_on(kind: int, b: Seq<u8>, i: int, d: int) -> Walk {
    if kind == 0 {
        object_rest(b, i, d)
    } else if kind == 1 {
        array_rest(b, i, d)
    } else if kind == 2 {
        members_end(b, i, d)
    } else {
        elements_end(b, i, d)
    }
}

/// The same bytes `s`, ending two texts, are walked alike from the first
/// non-whitespace byte of each: whatever stands in front of them.
proof fn lemma_tail_walk(kind: int, b2: Seq<u8>, off2: int, b: Seq<u8>, off: int, s: Seq<u8>, d: int)
    requires
        0 <= off2,
        0 <= off,
        off2 + s.len() == b2.len(),
        off + s.len() == b.len(),
        forall|k: int| 0 <= k < s.len() ==> #[trigger] b2[off2 + k] == s[k],
        forall|k: int| 0 <= k < s.len() ==> #[trigger] b[off + k] == s[k],
        walk_on(kind, b2, skip_ws(b2, off2), d) is Ok,
    ensures
        walk_on(kind, b, skip_ws(b, off), d) == Ok::<int, (ErrorCode, int)>(
            walk_on(kind, b2, skip_ws(b2, off2), d)->Ok_0 - off2 + off,
        ),
{
    lemma_tail_window(b2, s, off2);
    lemma_tail_window(b, s, off);
    lemma_runs_forward(b2, off2);
    let j2 = skip_ws(b2, off2);
    lemma_ws_narrow(b2, s, off2, off2);
    let j = j2 - off2;
    if kind == 0 {
        lemma_object_forward(b2, j2, d);
        lemma_object_narrow(b2, s, off2, j2, d);
        assert(j < s.len()) by {
            if j >= s.len() {
                assert(!(0 <= j < s.len() && s[j] == CLOSE_BRACE));
            }
        }
        lemma_ws_widen(b, s, off, 0);
        lemma_object_widen(b, s, off, j, d);
    } else if kind == 1 {
        lemma_array_forward(b2, j2, d);
        lemma_array_narrow(b2, s, off2, j2, d);
        assert(j < s.len()) by {
            if j >= s.len() {
                assert(!(0 <= j < s.len() && s[j] == CLOSE_BRACKET));
            }
        }
        lemma_ws_widen(b, s, off, 0);
        lemma_array_widen(b, s, off, j, d);
    } else if kind == 2 {
        lemma_members_forward(b2, j2, d);
        lemma_members_narrow(b2, s, off2, j2, d);
        lemma_ws_widen(b, s, off, 0);
        lemma_members_widen(b, s, off, j, d);
    } else {
        lemma_elements_forward(b2, j2, d);
        lemma_elements_narrow(b2, s, off2, j2, d);
        lemma_ws_widen(b, s, off, 0);
        lemma_elements_widen(b, s, off, j, d);
    }
}

/// Stepping over an object or an array opens it, skips the whitespace after
/// the opening and walks on from there.
proof fn lemma_opening(b: Seq<u8>, d: int)
    requires
        b.len() > 0,
        b[0] == OPEN_BRACE || b[0] == OPEN_BRACKET,
        value_end(b, 0, d) is Ok,
    ensures
        value_end(b, 0, d) == walk_on(if b[0] == OPEN_BRACE { 0 } else { 1 }, b, skip_ws(b, 1), d + 1),
        d < MAX_DEPTH,
{
    lemma_runs_forward(b, 1);
}

/// Whitespace after an object's opening brace or an array's opening
/// bracket is no part of the value: with any run of whitespace put right
/// after it, a value that was well formed still is, and ends that much
/// later.
pub proof fn law_whitespace_after_an_opening_is_skipped(open: u8, ws: Seq<u8>, s: Seq<u8>, d: int)
    requires
        open == OPEN_BRACE || open == OPEN_BRACKET,
        all_ws(ws),
        value_end(seq![open] + s, 0, d) is Ok,
    ensures
        value_end(seq![open] + ws + s, 0, d) == Ok::<int, (ErrorCode, int)>(
            value_end(seq![open] + s, 0, d)->Ok_0 + ws.len(),
        ),
{
    let b2 = seq![open] + s;
    let b = seq![open] + ws + s;
    let n = ws.len() as int;
    let kind: int = if open == OPEN_BRACE { 0 } else { 1 };
    assert(b2[0] == open);
    assert(b[0] == open);
    lemma_opening(b2, d);
    assert forall|k: int| 0 <= k < s.len() implies #[trigger] b2[1 + k] == s[k] by {}
    assert forall|k: int| 0 <= k < s.len() implies #[trigger] b[1 + n + k] == s[k] by {}
    assert forall|k: int| 1 <= k < 1 + n implies is_ws(#[trigger] b[k]) by {
        assert(b[k] == ws[k - 1]);
    }
    lemma_skip_run(b, 1, 1 + n);
    lemma_tail_walk(kind, b2, 1, b, 1 + n, s, d + 1);
    assert(value_end(b, 0, d) == walk_on(kind, b, skip_ws(b, 1), d + 1)) by {
        lemma_runs_forward(b, 1);
    }
}

/// An object that opens with the member `key: value`: the brace, the key,
/// whitespace, the colon, whitespace, the value, whitespace, and then
/// `after`: the comma and what follows it, or the closing brace.
pub open spec fn member_text(
    key: Seq<u8>,
    ws_a: Seq<u8>,
    ws_b: Seq<u8>,
    value: Seq<u8>,
    ws_c: Seq<u8>,
    after: Seq<u8>,
) -> Seq<u8> {
    seq![OPEN_BRACE] + key + ws_a + seq![COLON] + ws_b + value + ws_c + after
}

/// `key` is exactly one JSON string.
pub open spec fn one_string(key: Seq<u8>) -> bool {
    key.len() > 0 && key[0] == QUOTE && string_end(key, 1) == Ok::<int, (ErrorCode, int)>(key.len() as int)
}

/// `value` is exactly one JSON value, at depth `d`.
pub open spec fn one_value(value: Seq<u8>, d: int) -> bool {
    value_end(value, 0, d) == Ok::<int, (ErrorCode, int)>(value.len() as int)
}

/// Whitespace is no part of a number, so a number stops at it.
proof fn lemma_ws_ends_numbers(ws: Seq<u8>)
    requires
        all_ws(ws),
    ensures
        forall|k: int| 0 <= k < ws.len() ==> !in_number(#[trigger] ws[k]),
{
}

/// Walking an object whose first member is a key that is exactly one string
/// and a value that is exactly one value, with whitespace around the colon
/// and after the value, comes to the byte after the value's whitespace: on
/// past a comma to the members that follow, or out at a closing brace.
#[verifier::spinoff_prover]
#[verifier::rlimit(50)]
proof fn lemma_first_member(
    key: Seq<u8>,
    ws_a: Seq<u8>,
    ws_b: Seq<u8>,
    value: Seq<u8>,
    ws_c: Seq<u8>,
    after: Seq<u8>,
    d: int,
)
    requires
        one_string(key),
        one_value(value, d + 1),
        all_ws(ws_a),
        all_ws(ws_b),
        all_ws(ws_c),
        after.len() > 0,
        after[0] == COMMA || after[0] == CLOSE_BRACE,
        d < MAX_DEPTH,
    ensures
        ({
            let o = member_text(key, ws_a, ws_b, value, ws_c, after);
            let m = key.len() + ws_a.len() + ws_b.len() + value.len() + ws_c.len() + 2int;
            &&& o[m] == after[0]
            &&& m + 1 <= o.len()
            &&& after[0] == COMMA ==> value_end(o, 0, d) == members_end(o, skip_ws(o, m + 1), d + 1)
            &&& after[0] == CLOSE_BRACE ==> value_end(o, 0, d) == Ok::<int, (ErrorCode, int)>(m + 1)
        }),
{
    let o = member_text(key, ws_a, ws_b, value, ws_c, after);
    let kl = key.len() as int;
    let na = ws_a.len() as int;
    let nb = ws_b.len() as int;
    let vl = value.len() as int;
    let nc = ws_c.len() as int;
    let colon = 1 + kl + na;
    let v = colon + 1 + nb;
    let m = v + vl + nc;
    assert(o[0] == OPEN_BRACE);
    assert(o[1] == key[0]);
    assert(skip_ws(o, 1) == 1);
    // the key
    assert forall|k: int| 0 <= k < key.len() implies #[trigger] key[k] == o[1 + k] by {}
    assert(window(o, key, 1));
    lemma_string_widen(o, key, 1, 1);
    // the colon, after whitespace
    assert forall|k: int| 1 + kl <= k < colon implies is_ws(#[trigger] o[k]) by {
        assert(o[k] == ws_a[k - 1 - kl]);
    }
    lemma_skip_run(o, 1 + kl, colon);
    assert(o[colon] == COLON);
    assert(skip_ws(o, colon) == colon);
    // the value, after whitespace
    assert forall|k: int| colon + 1 <= k < v implies is_ws(#[trigger] o[k]) by {
        assert(o[k] == ws_b[k - colon - 1]);
    }
    lemma_skip_run(o, colon + 1, v);
    lemma_value_forward(value, 0, d + 1);
    assert(!is_ws(value[0]));
    assert(o[v] == value[0]);
    assert(skip_ws(o, v) == v);
    assert forall|k: int| 0 <= k < value.len() implies #[trigger] value[k] == o[v + k] by {}
    assert(window(o, value, v));
    lemma_ws_ends_numbers(ws_c);
    if nc > 0 {
        assert(o[v + vl] == ws_c[0]);
    } else {
        assert(o[v + vl] == after[0]);
    }
    assert(closed_after(o, value, v));
    lemma_value_widen(o, value, v, 0, d + 1);
    // the byte after the value's whitespace
    assert forall|k: int| v + vl <= k < m implies is_ws(#[trigger] o[k]) by {
        assert(o[k] == ws_c[k - v - vl]);
    }
    lemma_skip_run(o, v + vl, m);
    assert(o[m] == after[0]);
    assert(skip_ws(o, m) == m);
    assert(object_rest(o, 1, d + 1) == members_end(o, 1, d + 1));
}

/// Whitespace on either side of a member's colon, after its value and after
/// the comma that ends it is no part of the object: with any runs of
/// whitespace put there, an object that was well formed still is, and ends
/// later by all of them.
#[verifier::spinoff_prover]
#[verifier::rlimit(50)]
pub proof fn law_whitespace_around_a_member_is_skipped(
    key: Seq<u8>,
    ws_a: Seq<u8>,
    ws_b: Seq<u8>,
    value: Seq<u8>,
    ws_c: Seq<u8>,
    ws_d: Seq<u8>,
    rest: Seq<u8>,
    d: int,
)
    requires
        one_string(key),
        one_value(value, d + 1),
        all_ws(ws_a),
        all_ws(ws_b),
        all_ws(ws_c),
        all_ws(ws_d),
        value_end(
            member_text(key, Seq::empty(), Seq::empty(), value, Seq::empty(), seq![COMMA] + rest),
            0,
            d,
        ) is Ok,
    ensures
        value_end(member_text(key, ws_a, ws_b, value, ws_c, seq![COMMA] + ws_d + rest), 0, d)
            == Ok::<int, (ErrorCode, int)>(
            value_end(
                member_text(key, Seq::empty(), Seq::empty(), value, Seq::empty(), seq![COMMA] + rest),
                0,
                d,
            )->Ok_0 + ws_a.len() + ws_b.len() + ws_c.len() + ws_d.len(),
        ),
{
    let e: Seq<u8> = Seq::empty();
    let o2 = member_text(key, e, e, value, e, seq![COMMA] + rest);
    let o = member_text(key, ws_a, ws_b, value, ws_c, seq![COMMA] + ws_d + rest);
    let shift = ws_a.len() + ws_b.len() + ws_c.len();
    let n = ws_d.len() as int;
    let m2 = key.len() + value.len() + 2int;
    let m = m2 + shift;
    assert(o2[0] == OPEN_BRACE);
    assert(d < MAX_DEPTH);
    assert((seq![COMMA] + rest)[0] == COMMA);
    assert((seq![COMMA] + ws_d + rest)[0] == COMMA);
    lemma_first_member(key, e, e, value, e, seq![COMMA] + rest, d);
    lemma_first_member(key, ws_a, ws_b, value, ws_c, seq![COMMA] + ws_d + rest, d);
    assert forall|k: int| 0 <= k < rest.len() implies #[trigger] o2[m2 + 1 + k] == rest[k] by {}
    assert forall|k: int| 0 <= k < rest.len() implies #[trigger] o[m + 1 + n + k] == rest[k] by {}
    assert forall|k: int| m + 1 <= k < m + 1 + n implies is_ws(#[trigger] o[k]) by {
        assert(o[k] == ws_d[k - m - 1]);
    }
    lemma_skip_run(o, m + 1, m + 1 + n);
    lemma_tail_walk(2, o2, m2 + 1, o, m + 1 + n, rest, d + 1);
}

/// An object of one member is one value, whatever whitespace stands on
/// either side of its colon and before its closing brace.
pub proof fn law_a_lone_member_makes_an_object(
    key: Seq<u8>,
    ws_a: Seq<u8>,
    ws_b: Seq<u8>,
    value: Seq<u8>,
    ws_c: Seq<u8>,
    d: int,
)
    requires
        one_string(key),
        one_value(value, d + 1),
        all_ws(ws_a),
        all_ws(ws_b),
        all_ws(ws_c),
        d < MAX_DEPTH,
    ensures
        one_value(member_text(key, ws_a, ws_b, value, ws_c, seq![CLOSE_BRACE]), d),
{
    lemma_first_member(key, ws_a, ws_b, value, ws_c, seq![CLOSE_BRACE], d);
}

/// An array that opens with the element `value`: the bracket, the value,
/// whitespace, and then `after`: the comma and what follows it, or the
/// closing bracket.
pub open spec fn element_text(value: Seq<u8>, ws_c: Seq<u8>, after: Seq<u8>) -> Seq<u8> {
    seq![OPEN_BRACKET] + value + ws_c + after
}

/// Walking an array whose first element is a value that is exactly one
/// value, with whitespace after it, comes to the byte after that whitespace:
/// on past a comma to the elements that follow, or out at a closing bracket.
#[verifier::spinoff_prover]
#[verifier::rlimit(50)]
proof fn lemma_first_element(value: Seq<u8>, ws_c: Seq<u8>, after: Seq<u8>, d: int)
    requires
        one_value(value, d + 1),
        all_ws(ws_c),
        after.len() > 0,
        after[0] == COMMA || after[0] == CLOSE_BRACKET,
        d < MAX_DEPTH,
    ensures
        ({
            let a = element_text(value, ws_c, after);
            let m = value.len() + ws_c.len() + 1int;
            &&& a[m] == after[0]
            &&& m + 1 <= a.len()
            &&& after[0] == COMMA ==> value_end(a, 0, d) == elements_end(a, skip_ws(a, m + 1), d + 1)
            &&& after[0] == CLOSE_BRACKET ==> value_end(a, 0, d) == Ok::<int, (ErrorCode, int)>(m + 1)
        }),
{
    let a = element_text(value, ws_c, after);
    let vl = value.len() as int;
    let nc = ws_c.len() as int;
    let m = 1 + vl + nc;
    assert(a[0] == OPEN_BRACKET);
    lemma_value_forward(value, 0, d + 1);
    assert(!is_ws(value[0]));
    assert(a[1] == value[0]);
    assert(skip_ws(a, 1) == 1);
    assert(a[1] != CLOSE_BRACKET);
    assert forall|k: int| 0 <= k < value.len() implies #[trigger] value[k] == a[1 + k] by {}
    assert(window(a, value, 1));
    lemma_ws_ends_numbers(ws_c);
    if nc > 0 {
        assert(a[1 + vl] == ws_c[0]);
    } else {
        assert(a[1 + vl] == after[0]);
    }
    assert(closed_after(a, value, 1));
    lemma_value_widen(a, value, 1, 0, d + 1);
    assert forall|k: int| 1 + vl <= k < m implies is_ws(#[trigger] a[k]) by {
        assert(a[k] == ws_c[k - 1 - vl]);
    }
    lemma_skip_run(a, 1 + vl, m);
    assert(a[m] == after[0]);
    assert(skip_ws(a, m) == m);
    assert(array_rest(a, 1, d + 1) == elements_end(a, 1, d + 1));
}

/// Whitespace after an element and after the comma that ends it is no part
/// of the array: with any runs of whitespace put there, an array that was
/// well formed still is, and ends later by both of them.
#[verifier::spinoff_prover]
#[verifier::rlimit(50)]
pub proof fn law_whitespace_around_an_elements_comma_is_skipped(
    value: Seq<u8>,
    ws_c: Seq<u8>,
    ws_d: Seq<u8>,
    rest: Seq<u8>,
    d: int,
)
    requires
        one_value(value, d + 1),
        all_ws(ws_c),
        all_ws(ws_d),
        value_end(element_text(value, Seq::empty(), seq![COMMA] + rest), 0, d) is Ok,
    ensures
        value_end(element_text(value, ws_c, seq![COMMA] + ws_d + rest), 0, d) == Ok::<
            int,
            (ErrorCode, int),
        >(
            value_end(element_text(value, Seq::empty(), seq![COMMA] + rest), 0, d)->Ok_0 + ws_c.len()
                + ws_d.len(),
        ),
{
    let e: Seq<u8> = Seq::empty();
    let a2 = element_text(value, e, seq![COMMA] + rest);
    let a = element_text(value, ws_c, seq![COMMA] + ws_d + rest);
    let n = ws_d.len() as int;
    let m2 = value.len() + 1int;
    let m = m2 + ws_c.len();
    assert(a2[0] == OPEN_BRACKET);
    assert(d < MAX_DEPTH);
    assert((seq![COMMA] + rest)[0] == COMMA);
    assert((seq![COMMA] + ws_d + rest)[0] == COMMA);
    lemma_first_element(value, e, seq![COMMA] + rest, d);
    lemma_first_element(value, ws_c, seq![COMMA] + ws_d + rest, d);
    assert forall|k: int| 0 <= k < rest.len() implies #[trigger] a2[m2 + 1 + k] == rest[k] by {}
    assert forall|k: int| 0 <= k < rest.len() implies #[trigger] a[m + 1 + n + k] == rest[k] by {}
    assert forall|k: int| m + 1 <= k < m + 1 + n implies is_ws(#[trigger] a[k]) by {
        assert(a[k] == ws_d[k - m - 1]);
    }
    lemma_skip_run(a, m + 1, m + 1 + n);
    lemma_tail_walk(3, a2, m2 + 1, a, m + 1 + n, rest, d + 1);
}

/// An array of one element is one value, whatever whitespace stands before
/// its closing bracket.
pub proof fn law_a_lone_element_makes_an_array(value: Seq<u8>, ws_c: Seq<u8>, d: int)
    requires
        one_value(value, d + 1),
        all_ws(ws_c),
        d < MAX_DEPTH,
    ensures
        one_value(element_text(value, ws_c, seq![CLOSE_BRACKET]), d),
{
    lemma_first_element(value, ws_c, seq![CLOSE_BRACKET], d);
}

} // verus!
