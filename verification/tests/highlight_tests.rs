use syntax_highlighter::highlight::theme::{color_for, reset};
use syntax_highlighter::highlight::{render, HighlightError, Highlighter};
use syntax_highlighter::pegvm::{Capture, CaptureKind};

const JSON_GRAMMAR: &str = "root = value
ignore = [ \\t\\n\\r]*
value = object / array / string / number / @keyword{'true' / 'false' / 'null'}
object = '{' (pair (',' pair)*)? '}'
pair = string ':' value
array = '[' (value (',' value)*)? ']'
string = @string{'\"' (!'\"' .)* '\"'}
number = @number{'-'? [0-9]+ ('.' [0-9]+)?}
";

/// Remove every ANSI escape: from `ESC` to the next `m`.
fn strip_ansi(s: &str) -> String {
    let mut out = String::new();
    let mut in_escape = false;
    for c in s.chars() {
        if in_escape {
            if c == 'm' {
                in_escape = false;
            }
        } else if c == '\x1b' {
            in_escape = true;
        } else {
            out.push(c);
        }
    }
    out
}

#[test]
fn colors_of_known_kinds() {
    assert_eq!(color_for("keyword"), "\x1b[1;34m");
    assert_eq!(color_for("string"), "\x1b[32m");
    assert_eq!(color_for("number"), "\x1b[33m");
    assert_eq!(color_for("comment"), "\x1b[2;37m");
    assert_eq!(color_for("operator"), "\x1b[36m");
    assert_eq!(color_for("punctuation"), "\x1b[37m");
    assert_eq!(color_for("type"), "\x1b[33m");
    assert_eq!(color_for("function"), "\x1b[1;33m");
    assert_eq!(color_for("constant"), "\x1b[35m");
    assert_eq!(color_for("property"), "\x1b[36m");
    assert_eq!(color_for("variable"), "\x1b[37m");
    assert_eq!(color_for("recovery"), "");
    assert_eq!(color_for(""), "");
    assert_eq!(reset(), "\x1b[0m");
}

#[test]
fn highlight_colors_each_capture() {
    let mut h = Highlighter::new(JSON_GRAMMAR).unwrap();
    h.set_input(r#"{"a": 1}"#.to_string());
    assert_eq!(h.highlight(), "{\x1b[32m\"a\"\x1b[0m: \x1b[33m1\x1b[0m}");
}

#[test]
fn strip_ansi_of_highlight_is_input() {
    let mut h = Highlighter::new(JSON_GRAMMAR).unwrap();
    for input in [r#"{"a": [true, null, -1.5]}"#, r#"{"a": tru"#, "", "garbage", "[\"é\", 1]"] {
        h.set_input(input.to_string());
        assert_eq!(strip_ansi(&h.highlight()), input);
    }
}

#[test]
fn edits_keep_input_and_match_fresh_highlight() {
    let mut h = Highlighter::new(JSON_GRAMMAR).unwrap();
    h.set_input(r#"{"a":1}"#.into());
    h.edit(5, 6, "42");
    h.append(", \"b\": true}");
    h.edit(0, 0, " ");
    let text = h.input().to_string();
    assert_eq!(text, " {\"a\":42}, \"b\": true}");
    let mut fresh = Highlighter::new(JSON_GRAMMAR).unwrap();
    fresh.set_input(text.clone());
    assert_eq!(h.highlight(), fresh.highlight());
    assert_eq!(h.captures(), fresh.captures());
    assert_eq!(strip_ansi(&h.highlight()), text);
}

#[test]
fn partial_match_renders_prefix_styled_and_tail_plain() {
    let mut h = Highlighter::new(JSON_GRAMMAR).unwrap();
    h.set_input("[1, ?".into());
    let (matched, _) = h.captures();
    assert!(matched <= 5);
    assert_eq!(strip_ansi(&h.highlight()), "[1, ?");
}

#[test]
fn render_without_captures_is_the_input() {
    assert_eq!(render("plain text", &[], &[]), "plain text");
}

#[test]
fn new_reports_parse_errors() {
    assert!(matches!(Highlighter::new("root = ("), Err(HighlightError::Parse(_))));
    assert!(matches!(Highlighter::new("root = nowhere"), Err(HighlightError::Compile(_))));
}

#[test]
fn cold_parse_has_no_hits() {
    let mut h = Highlighter::new(JSON_GRAMMAR).unwrap();
    h.set_input(r#"{"a": 1, "b": 2}"#.into());
    assert_eq!(h.last_stats().hits, 0);
    assert!(!h.capture_kinds().is_empty());
}

#[test]
fn render_colors_each_byte_by_its_last_covering_capture() {
    let kinds = vec!["string".to_string(), "number".to_string()];
    // "x" plain, then a string capture over "ab1c" with a number inside over "1".
    let caps = vec![
        Capture { kind: CaptureKind(0), start: 1, end: 5 },
        Capture { kind: CaptureKind(1), start: 3, end: 4 },
    ];
    let out = render("xab1cy", &caps, &kinds);
    let expected = format!(
        "x{}ab{}{}1{}{}c{}y",
        color_for("string"),
        reset(),
        color_for("number"),
        reset(),
        color_for("string"),
        reset()
    );
    assert_eq!(out, expected);
}

#[test]
fn render_keeps_one_color_across_touching_captures_of_a_kind() {
    let kinds = vec!["number".to_string()];
    let caps = vec![
        Capture { kind: CaptureKind(0), start: 0, end: 1 },
        Capture { kind: CaptureKind(0), start: 1, end: 2 },
    ];
    assert_eq!(render("12", &caps, &kinds), format!("{}12{}", color_for("number"), reset()));
}

#[test]
fn render_leaves_input_plain_when_captures_do_not_fit() {
    let kinds = vec!["number".to_string()];
    let caps = vec![Capture { kind: CaptureKind(0), start: 0, end: 9 }];
    assert_eq!(render("12", &caps, &kinds), "12");
    let unknown_kind = vec![Capture { kind: CaptureKind(5), start: 0, end: 1 }];
    assert_eq!(render("12", &unknown_kind, &kinds), "12");
}
