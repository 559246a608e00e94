use syntax_highlighter::parser::Parser;
use syntax_highlighter::pegc;

const JSON_GRAMMAR: &str = "root = value
ignore = [ \\t\\n\\r]*
value = object / array / string / number / @keyword{'true' / 'false' / 'null'}
object = '{' (pair (',' pair)*)? '}'
pair = string ':' value
array = '[' (value (',' value)*)? ']'
string = @string{'\"' (!'\"' .)* '\"'}
number = @number{'-'? [0-9]+ ('.' [0-9]+)?}
";

const TOML_GRAMMAR: &str = "root = line*
ignore = [ \\t]*
line = (table / keyval)? '\\n'
table = '[' key ']'
keyval = key '=' value
key = @property{[A-Za-z0-9_-]+}
value = string / number
string = @string{'\"' (!'\"' .)* '\"'}
number = @number{[0-9]+}
";

/// A second parser built from scratch must agree with the incremental
/// one on captures and `matched`.
fn assert_equivalent(inc: &Parser, grammar: &str, tag: &str) {
    let mut fresh = Parser::new(grammar).expect("grammar compiles");
    fresh.set_input(inc.input().to_vec());
    assert_eq!(inc.captures(), fresh.captures(), "captures diverged at {tag}");
}

#[test]
fn set_input_cold_parse_produces_captures() {
    let mut p = Parser::new(JSON_GRAMMAR).unwrap();
    p.set_input(br#"{"a": 1}"#.to_vec());
    let (matched, caps) = p.captures();
    assert_eq!(matched, 8);
    assert!(!caps.is_empty());
}

#[test]
fn edit_then_append_match_fresh_parse() {
    let mut inc = Parser::new(JSON_GRAMMAR).unwrap();
    inc.set_input(br#"{"a": 1}"#.to_vec());
    assert_equivalent(&inc, JSON_GRAMMAR, "initial");

    // Replace the `1` with `42`.
    inc.edit(6, 7, b"42");
    assert_equivalent(&inc, JSON_GRAMMAR, "after replace");

    // Streaming append; trailing whitespace is valid JSON.
    inc.append(b" ");
    assert_equivalent(&inc, JSON_GRAMMAR, "after append");
}

#[test]
fn toml_section_rename_then_delete_preserves_max_sp_after_partial_parse() {
    let mut inc = Parser::new(TOML_GRAMMAR).unwrap();
    inc.set_input(b"[package]\nname = \"demo\"\nversion = \"0.1.0\"\n".to_vec());

    let pos = inc.input().iter().position(|&b| b == b'[').unwrap();
    inc.edit(pos, pos + 1, b"!");
    assert_equivalent(&inc, TOML_GRAMMAR, "after break");

    inc.edit(pos, pos + 1, b"");
    assert_equivalent(&inc, TOML_GRAMMAR, "after second edit");
}

#[test]
fn is_complete_distinguishes_full_parse_from_truncation() {
    let mut p = Parser::new(JSON_GRAMMAR).unwrap();
    p.set_input(br#"{"a": 1}"#.to_vec());
    assert_eq!(p.captures().0, 8);
    assert!(p.is_complete(), "full parse must report complete");

    // Truncate mid-object: the closing brace is missing.
    p.set_input(br#"{"a": 1"#.to_vec());
    assert!(!p.is_complete(), "truncated input must report partial parse");
}

#[test]
fn last_stats_cold_parse_records_only_misses() {
    let mut p = Parser::new(JSON_GRAMMAR).unwrap();
    p.set_input(br#"{"a": 1, "b": 2}"#.to_vec());
    let cold = p.last_stats();
    assert_eq!(cold.hits, 0, "cold parse starts from an empty cache");
    assert!(cold.misses > 0, "expected at least one lookup, got {cold:?}");
}

#[test]
fn from_program_matches_new_on_same_grammar() {
    let program = pegc::compile(JSON_GRAMMAR).unwrap();
    let mut from_prog = Parser::from_program(program);
    let mut from_src = Parser::new(JSON_GRAMMAR).unwrap();

    let input = br#"{"a": 1, "b": [true, null]}"#.to_vec();
    from_prog.set_input(input.clone());
    from_src.set_input(input);

    assert_eq!(from_prog.captures(), from_src.captures());
    assert_eq!(from_prog.is_complete(), from_src.is_complete());
    assert_eq!(from_prog.capture_kinds(), from_src.capture_kinds());
}

#[test]
fn edit_splices_replacement_into_input() {
    let mut p = Parser::new(JSON_GRAMMAR).unwrap();
    p.set_input(b"[1, 2, 3]".to_vec());
    p.edit(4, 5, b"20");
    assert_eq!(p.input(), b"[1, 20, 3]");
    p.append(b" ");
    assert_eq!(p.input(), b"[1, 20, 3] ");
    assert!(p.is_complete());
}

#[test]
fn new_reports_grammar_errors() {
    assert!(Parser::new("root = 'unterminated").is_err());
    assert!(Parser::new("root = missing").is_err());
}

#[test]
fn recovery_tracking_is_off_by_default() {
    let mut p = Parser::new(JSON_GRAMMAR).unwrap();
    p.set_input(b"{\"a\": }".to_vec());
    assert!(p.recovery_diagnostics().is_empty());
    assert!(!p.is_complete());
}

#[test]
fn unknown_start_rule_is_reported() {
    let g = syntax_highlighter::pegc::Grammar::new(
        vec![("a".to_string(), syntax_highlighter::pegc::Pattern::literal_bytes(b"x".to_vec()))],
        "nope",
    );
    match g.compile() {
        Err(syntax_highlighter::pegc::CompileError::UnknownStartRule(s)) => assert_eq!(s, "nope"),
        other => panic!("expected UnknownStartRule, got {:?}", other.map(|_| ())),
    }
}
