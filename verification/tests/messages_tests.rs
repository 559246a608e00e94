use syntax_highlighter::pegb::Error;
use syntax_highlighter::pegc::analysis::{LintFinding, LintKind};
use syntax_highlighter::pegc::{compile, CompileError, ParseError};
use syntax_highlighter::pegvm::CharSetError;

#[test]
fn decode_errors_read_as_sentences() {
    assert_eq!(
        Error::TruncatedInput { needed: 4, position: 17 }.describe(),
        "truncated input: needed 4 bytes at position 17"
    );
    assert_eq!(Error::InvalidOpcode { tag: 0xab, position: 3 }.describe(), "invalid opcode tag 0xab at position 3");
    assert_eq!(Error::InvalidOpcode { tag: 7, position: 0 }.describe(), "invalid opcode tag 0x07 at position 0");
    assert_eq!(Error::TrailingBytes { remaining: 2 }.describe(), "2 trailing byte(s) after end of program");
    assert_eq!(
        Error::ProgramTooLarge { count: 99999999 }.describe(),
        "declared instruction count 99999999 exceeds the 16777216 sanity cap"
    );
}

#[test]
fn inverted_range_names_both_ends() {
    assert_eq!(
        CharSetError::InvertedRange('z', 'a').describe(),
        "inverted code-point range U+007A-U+0061 (lo > hi)"
    );
    assert_eq!(
        CharSetError::InvertedRange('\u{1F600}', 'a').describe(),
        "inverted code-point range U+1F600-U+0061 (lo > hi)"
    );
}

#[test]
fn parse_error_carries_line_and_column() {
    let e = ParseError { message: "expected '<-' or '='".to_string(), line: 3, col: 14 };
    assert_eq!(e.describe(), "grammar parse error at 3:14: expected '<-' or '='");
}

#[test]
fn compile_errors_read_as_sentences() {
    assert_eq!(CompileError::UndefinedRule("x".to_string()).describe(), "undefined rule: x");
    assert_eq!(
        CompileError::CannotInferBoundary { rule: "r".to_string(), label: "l".to_string() }.describe(),
        "cannot infer boundary for `^^l` in rule `r`: no following context. Either delete the unreachable catch or specify an explicit boundary `^^l B`."
    );
    let f = LintFinding { kind: LintKind::PartialMatchLeniency, rule: "num".to_string(), caller: "expr".to_string() };
    assert_eq!(
        CompileError::PartialMatchLeniency(vec![f]).describe(),
        "partial-match leniency detected:\n  - rule `num` is called unanchored by `expr`; its trailing optional can succeed on a prefix, leaving bytes the caller does not validate\n"
    );
    assert_eq!(
        CompileError::ReservedPreferredConflict(vec!["else".to_string(), "if".to_string()]).describe(),
        "keywords both reserved and preferred: else, if"
    );
}

#[test]
fn grammar_errors_describe_their_cause() {
    match compile("root = missing") {
        Err(e) => assert_eq!(e.describe(), "undefined rule: missing"),
        Ok(_) => panic!("expected an error"),
    }
}
