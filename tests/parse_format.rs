use format_template::{parse_format_string, Format, FormatToken, ParseError, ParseErrorKind};

fn lit(s: &str) -> FormatToken {
    FormatToken::Literal(s.to_owned())
}

fn tokens(input: &str) -> Vec<FormatToken> {
    match parse_format_string(input) {
        Ok(Format(v)) => v,
        Err(e) => panic!("unexpected error: {}", e.message()),
    }
}

fn failure(input: &str) -> ParseError {
    match parse_format_string(input) {
        Ok(f) => panic!("unexpected success: {:?}", f),
        Err(e) => e,
    }
}

/// Writes tokens back in template form: escapes as `%c`, literals with each
/// `%` doubled.
fn render(v: &[FormatToken]) -> String {
    let mut out = String::new();
    for t in v {
        match t {
            FormatToken::WindowId => out.push_str("%i"),
            FormatToken::Geometry => out.push_str("%g"),
            FormatToken::Width => out.push_str("%w"),
            FormatToken::Height => out.push_str("%h"),
            FormatToken::X => out.push_str("%x"),
            FormatToken::Y => out.push_str("%y"),
            FormatToken::Literal(s) => out.push_str(&s.replace('%', "%%")),
        }
    }
    out
}

#[test]
fn plain_text_is_one_literal() {
    assert_eq!(tokens("abc"), vec![lit("abc")]);
}

#[test]
fn single_escapes() {
    assert_eq!(tokens("%i"), vec![FormatToken::WindowId]);
    assert_eq!(tokens("%g"), vec![FormatToken::Geometry]);
    assert_eq!(tokens("%w"), vec![FormatToken::Width]);
    assert_eq!(tokens("%h"), vec![FormatToken::Height]);
    assert_eq!(tokens("%x"), vec![FormatToken::X]);
    assert_eq!(tokens("%y"), vec![FormatToken::Y]);
    assert_eq!(tokens("%%"), vec![lit("%")]);
}

#[test]
fn mixed_template() {
    assert_eq!(
        tokens("id=%i size=%wx%h"),
        vec![
            lit("id="),
            FormatToken::WindowId,
            lit(" size="),
            FormatToken::Width,
            lit("x"),
            FormatToken::Height,
        ]
    );
}

#[test]
fn empty_input_gives_no_tokens() {
    assert_eq!(parse_format_string(""), Ok(Format(vec![])));
}

#[test]
fn trailing_marker_is_truncated_escape() {
    let e = failure("abc%");
    assert_eq!(e.kind, ParseErrorKind::TruncatedEscape);
    assert_eq!(e.fragment, "%");
}

#[test]
fn lone_marker_is_truncated_escape() {
    let e = failure("%");
    assert_eq!(e.kind, ParseErrorKind::TruncatedEscape);
    assert_eq!(e.fragment, "%");
}

#[test]
fn unknown_escape_is_reported_with_fragment() {
    let e = failure("%q");
    assert_eq!(e.kind, ParseErrorKind::UnrecognizedEscape);
    assert_eq!(e.fragment, "%q");
    assert_eq!(e.message(), "unrecognized format sequence near \"%q\"");
}

#[test]
fn unknown_escape_reports_rest_of_input() {
    let e = failure("ab%qcd%i");
    assert_eq!(e.kind, ParseErrorKind::UnrecognizedEscape);
    assert_eq!(e.fragment, "%qcd%i");
}

#[test]
fn escapes_are_case_sensitive() {
    let e = failure("%I");
    assert_eq!(e.kind, ParseErrorKind::UnrecognizedEscape);
    assert_eq!(e.fragment, "%I");
}

#[test]
fn first_bad_escape_wins() {
    let e = failure("%i%z%");
    assert_eq!(e.kind, ParseErrorKind::UnrecognizedEscape);
    assert_eq!(e.fragment, "%z%");
}

#[test]
fn odd_run_of_markers_is_truncated() {
    let e = failure("x%%%");
    assert_eq!(e.kind, ParseErrorKind::TruncatedEscape);
    assert_eq!(e.fragment, "%");
    assert_eq!(e.message(), "incomplete format sequence near \"%\"");
}

#[test]
fn escaped_marker_splits_literals() {
    assert_eq!(tokens("a%%b"), vec![lit("a"), lit("%"), lit("b")]);
    assert_eq!(tokens("%%%%"), vec![lit("%"), lit("%")]);
}

#[test]
fn literal_keeps_non_ascii_text() {
    assert_eq!(
        tokens("fenêtre %i → %g"),
        vec![lit("fenêtre "), FormatToken::WindowId, lit(" → "), FormatToken::Geometry]
    );
    let e = failure("é%ü");
    assert_eq!(e.fragment, "%ü");
}

#[test]
fn adjacent_escapes() {
    assert_eq!(
        tokens("%x%y%w%h"),
        vec![FormatToken::X, FormatToken::Y, FormatToken::Width, FormatToken::Height]
    );
}

#[test]
fn round_trip_reproduces_template() {
    for t in ["", "abc", "%i", "%%", "a%%b", "id=%i size=%wx%h", "%g at %x,%y (100%%)", "é%i→"] {
        assert_eq!(render(&tokens(t)), t);
    }
}

#[test]
fn trailing_content_message() {
    let e = ParseError { kind: ParseErrorKind::TrailingContent, fragment: "rest".to_owned() };
    assert_eq!(e.message(), "format string parse error near \"rest\"");
}
