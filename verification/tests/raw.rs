//! `Raw`: one JSON value carried as the text that spelled it, and the walk
//! that checks a span is one.

use lib::json::walk::{span_of_bytes, skip_ws_from, MAX_DEPTH};
use lib::json::Raw;
use lib::{Error, ErrorCode};

fn refused(s: &str) -> Error {
    Raw::new(s).unwrap_err()
}

#[test]
fn new_takes_one_value_of_every_kind() {
    for s in [
        "null",
        "true",
        "false",
        "0",
        "-1.5e3",
        r#""s""#,
        r#""\u0041""#,
        "[]",
        "{}",
        r#"[1,"two",null]"#,
        r#"{"a":[1,{"b":null}]}"#,
    ] {
        assert_eq!(Raw::new(s).unwrap().as_str(), s, "at {s}");
    }
}

#[test]
fn new_refuses_what_is_not_one_complete_value() {
    assert_eq!(Raw::new(r#"{"a":}"#).unwrap_err().code, ErrorCode::UnexpectedCharacter);
    // Trailing content is refused rather than stored with the value.
    assert_eq!(Raw::new("1 2").unwrap_err().code, ErrorCode::TrailingContent);
    assert_eq!(Raw::new(r#"{"a":1} junk"#).unwrap_err().code, ErrorCode::TrailingContent);
    for s in ["", "   ", "\n\t ", "[1,", r#"{"a""#, "tru"] {
        assert!(Raw::new(s).is_err(), "took {s:?}");
    }
}

#[test]
fn new_trims_around_the_value_and_nothing_inside_it() {
    assert_eq!(Raw::new(" \n\t1 \n").unwrap().as_str(), "1");
    assert_eq!(Raw::new("  { \"a\" : [1, 2] }  ").unwrap().as_str(), "{ \"a\" : [1, 2] }");
    assert_eq!(Raw::new(" 1 ").unwrap(), Raw::new("1").unwrap());
}

#[test]
fn new_steps_over_a_number_by_its_alphabet() {
    assert_eq!(Raw::new("01").unwrap().as_str(), "01");
    assert_eq!(Raw::new("1.2.3").unwrap().as_str(), "1.2.3");
    assert_eq!(Raw::new("12345678901234567890123").unwrap().as_str(), "12345678901234567890123");
}

#[test]
fn new_unchecked_takes_the_span_as_given() {
    assert_eq!(Raw::new_unchecked(" 1 ").as_str(), " 1 ");
    assert_eq!(Raw::new_unchecked("").as_str(), "");
    assert_eq!(Raw::new_unchecked("1 2").as_str(), "1 2");
}

#[test]
fn the_refusals_in_the_documentation() {
    assert!(Raw::new(r#"{"a":[1,2]}"#).is_ok());
    assert_eq!(refused(r#"{"a":}"#).code, ErrorCode::UnexpectedCharacter);
    assert_eq!(refused("1 2").code, ErrorCode::TrailingContent);
    assert_eq!(refused(r#""\q""#).code, ErrorCode::InvalidEscape);
    assert_eq!(refused(r#""\ud800""#).code, ErrorCode::InvalidSurrogate);
}

#[test]
fn each_refusal_names_the_offset_it_stopped_at() {
    // The byte that cannot stand where it stands.
    assert_eq!(refused(r#"{"a":}"#), Error { code: ErrorCode::UnexpectedCharacter, position: 5 });
    assert_eq!(refused("[1 2]"), Error { code: ErrorCode::UnexpectedCharacter, position: 3 });
    assert_eq!(refused("[1,]"), Error { code: ErrorCode::UnexpectedCharacter, position: 3 });
    assert_eq!(refused("{1:2}"), Error { code: ErrorCode::UnexpectedCharacter, position: 1 });
    assert_eq!(refused(r#"{"a" 1}"#), Error { code: ErrorCode::UnexpectedCharacter, position: 5 });
    assert_eq!(refused("+1"), Error { code: ErrorCode::UnexpectedCharacter, position: 0 });
    assert_eq!(refused("trux"), Error { code: ErrorCode::UnexpectedCharacter, position: 3 });
    assert_eq!(refused("nul!"), Error { code: ErrorCode::UnexpectedCharacter, position: 3 });
    // The end of the text, wherever the value was cut off.
    assert_eq!(refused(""), Error { code: ErrorCode::UnexpectedEnd, position: 0 });
    assert_eq!(refused("   "), Error { code: ErrorCode::UnexpectedEnd, position: 3 });
    assert_eq!(refused("[1,"), Error { code: ErrorCode::UnexpectedEnd, position: 3 });
    assert_eq!(refused(r#"{"a""#), Error { code: ErrorCode::UnexpectedEnd, position: 4 });
    assert_eq!(refused("tru"), Error { code: ErrorCode::UnexpectedEnd, position: 3 });
    assert_eq!(refused(r#""abc"#), Error { code: ErrorCode::UnexpectedEnd, position: 4 });
    assert_eq!(refused(r#""\u00"#), Error { code: ErrorCode::UnexpectedEnd, position: 5 });
    // The first byte past the value's trailing whitespace.
    assert_eq!(refused("1 2"), Error { code: ErrorCode::TrailingContent, position: 2 });
    assert_eq!(refused("{} []"), Error { code: ErrorCode::TrailingContent, position: 3 });
    assert_eq!(refused("nullx"), Error { code: ErrorCode::TrailingContent, position: 4 });
    // An escape is refused at its backslash.
    assert_eq!(refused(r#"["ok","\q"]"#), Error { code: ErrorCode::InvalidEscape, position: 7 });
    assert_eq!(refused(r#""\u00g0""#), Error { code: ErrorCode::InvalidEscape, position: 1 });
    assert_eq!(refused(r#""\u12""#), Error { code: ErrorCode::InvalidEscape, position: 1 });
    // A lone half of a surrogate pair is refused at its first backslash.
    assert_eq!(refused(r#""\udc00""#), Error { code: ErrorCode::InvalidSurrogate, position: 1 });
    assert_eq!(refused(r#""a\ud800x""#), Error { code: ErrorCode::InvalidSurrogate, position: 2 });
    assert_eq!(refused(r#""\ud800\n""#), Error { code: ErrorCode::InvalidSurrogate, position: 1 });
    assert_eq!(
        refused(r#""\ud800\u0041""#),
        Error { code: ErrorCode::InvalidSurrogate, position: 1 }
    );
    // The second half's own digits are the second escape's to answer for.
    assert_eq!(refused(r#""\ud800\u00""#), Error { code: ErrorCode::InvalidEscape, position: 7 });
}

#[test]
fn strings_are_held_to_the_grammar() {
    // Every short escape, and a surrogate pair whole.
    for s in [r#""\"\\\/\b\f\n\r\t""#, r#""\ud83d\ude00""#, r#""\uABCD\uabcd""#, "\"é ☃\""] {
        assert_eq!(Raw::new(s).unwrap().as_str(), s, "at {s}");
    }
    // A control byte inside a string is refused where it stands.
    assert_eq!(refused("\"a\tb\""), Error { code: ErrorCode::UnexpectedCharacter, position: 2 });
    assert_eq!(refused("\"\n\""), Error { code: ErrorCode::UnexpectedCharacter, position: 1 });
    // Keys are strings like any other.
    assert_eq!(
        refused("{\"a\u{1}\":1}"),
        Error { code: ErrorCode::UnexpectedCharacter, position: 3 }
    );
}

#[test]
fn nesting_is_followed_to_the_limit_and_no_further() {
    let deep = format!("{}{}", "[".repeat(MAX_DEPTH), "]".repeat(MAX_DEPTH));
    assert_eq!(Raw::new(&deep).unwrap().as_str(), deep);

    let deeper = format!("{}{}", "[".repeat(MAX_DEPTH + 1), "]".repeat(MAX_DEPTH + 1));
    assert_eq!(
        refused(&deeper),
        Error { code: ErrorCode::DepthExceeded, position: MAX_DEPTH }
    );

    let objects = format!("{}1{}", "{\"k\":".repeat(MAX_DEPTH + 1), "}".repeat(MAX_DEPTH + 1));
    assert_eq!(refused(&objects).code, ErrorCode::DepthExceeded);

    let nested = format!("{}{}{}", "[".repeat(100), "1.50", "]".repeat(100));
    assert_eq!(Raw::new(&nested).unwrap().as_str(), nested);
}

#[test]
fn the_span_walk_reports_offsets_into_the_bytes() {
    assert_eq!(span_of_bytes(b"  [1, 2]\n"), Ok((2, 8)));
    assert_eq!(span_of_bytes(b"\"x\""), Ok((0, 3)));
    assert_eq!(span_of_bytes(b"{} x").unwrap_err().code, ErrorCode::TrailingContent);
    assert_eq!(skip_ws_from(b" \t\r\n x", 0), 5);
    assert_eq!(skip_ws_from(b"x  ", 1), 3);
}

#[test]
fn into_owned_keeps_the_text() {
    let owned = {
        let text = String::from(r#"[1,2,3]"#);
        Raw::new(&text).unwrap().into_owned()
    };
    assert_eq!(owned.as_str(), "[1,2,3]");
    // An owned span moves through unchanged.
    let again = owned.into_owned();
    assert_eq!(again.as_str(), "[1,2,3]");
}

#[test]
fn from_string_checks_and_trims_like_new() {
    let text = format!(r#"{{"id":{}}}"#, 7);
    let raw = Raw::from_string(text).unwrap();
    assert_eq!(raw.as_str(), r#"{"id":7}"#);

    assert_eq!(Raw::from_string(" \n[1, 2] ".to_string()).unwrap().as_str(), "[1, 2]");
    assert_eq!(Raw::from_string("  \"é\"  ".to_string()).unwrap().as_str(), "\"é\"");
    for s in ["", "1 2", r#"{"a":}"#, r#""\q""#, "[[1]"] {
        assert_eq!(Raw::from_string(s.to_string()).unwrap_err(), Raw::new(s).unwrap_err(), "at {s}");
    }
}

#[test]
fn from_string_unchecked_does_not_trim() {
    assert_eq!(Raw::from_string_unchecked(" 1 ".to_string()).as_str(), " 1 ");
    assert_eq!(Raw::from_string_unchecked(String::new()).as_str(), "");
}

#[test]
fn a_defaulted_raw_is_the_literal_null() {
    assert_eq!(Raw::default().as_str(), "null");
    assert_eq!(Raw::default().to_string(), "null");
    assert!(!Raw::default().as_str().is_empty());
}

#[test]
fn the_text_comes_back_as_it_was_spelled() {
    let raw = Raw::new(r#""a\nb""#).unwrap();
    assert_eq!(raw.to_string(), r#""a\nb""#);
    let kept = Raw::new(r#"{"b":1.50,"a":[1,2],"s":"\u0041"}"#).unwrap();
    assert_eq!(kept.to_string(), r#"{"b":1.50,"a":[1,2],"s":"\u0041"}"#);
}

#[test]
fn a_forwarded_null_is_a_forwarded_absence() {
    assert!(Raw::new("null").unwrap().is_null());
    assert!(Raw::default().is_null());
}

#[test]
fn a_value_that_is_merely_empty_is_not_absent() {
    for span in ["0", "false", r#""""#, "[]", "{}", "0.0"] {
        assert!(!Raw::new(span).unwrap().is_null(), "{span} answered absent");
    }
    assert!(!Raw::new(r#"{"a":null}"#).unwrap().is_null());
}

#[test]
fn only_a_span_that_is_exactly_null_is_absent() {
    assert!(!Raw::new_unchecked(" null ").is_null());
    assert!(Raw::new(" null ").unwrap().is_null());
}

#[test]
fn a_clone_holds_the_same_span() {
    let borrowed = Raw::new("[1, 2]").unwrap();
    assert_eq!(borrowed.clone(), borrowed);
    let owned = Raw::from_string("{\"a\":1}".to_string()).unwrap();
    assert_eq!(owned.clone().as_str(), "{\"a\":1}");
}

#[test]
fn a_checked_span_passes_the_check_again_unchanged() {
    for s in ["  [1, 2]\n", "\t{\"a\" : {\"b\" : [true, false, null]}} ", "\"\\ud83d\\ude00\"", " -0.5e+3 "] {
        let raw = Raw::new(s).unwrap();
        let again = Raw::new(raw.as_str()).unwrap();
        assert_eq!(again, raw, "at {s:?}");
        assert_eq!(again.as_str(), s.trim(), "at {s:?}");
    }
}

#[test]
fn whitespace_around_a_value_moves_the_span_and_nothing_else() {
    let text = b"{\"k\":[1,2]}";
    let (start, end) = span_of_bytes(text).unwrap();
    for (front, back) in [("", ""), (" ", ""), ("", "\n"), ("\r\n\t ", "  \t")] {
        let padded = [front.as_bytes(), &text[..], back.as_bytes()].concat();
        assert_eq!(span_of_bytes(&padded), Ok((front.len() + start, front.len() + end)));
    }
}

#[test]
fn read_span_reads_one_value_and_stops_after_it() {
    let doc = r#"{"a": true} tail"#;
    assert_eq!(lib::json::read_span(doc, 0).unwrap(), (0, 11));
    assert_eq!(lib::json::read_span(doc, 5).unwrap(), (6, 10));
    assert_eq!(lib::json::read_span("  [1, 2] , 3", 0).unwrap(), (2, 8));
}

#[test]
fn read_span_reports_where_the_value_broke() {
    let e = lib::json::read_span("  [1,", 0).unwrap_err();
    assert_eq!(e.code, ErrorCode::UnexpectedEnd);
    assert_eq!(e.position, 5);
    let e = lib::json::read_span("x: ]", 2).unwrap_err();
    assert_eq!(e.code, ErrorCode::UnexpectedCharacter);
    assert_eq!(e.position, 3);
}
