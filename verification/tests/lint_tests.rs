use syntax_highlighter::pegc::analysis::LintKind;
use syntax_highlighter::pegc::compiler::CompileError;
use syntax_highlighter::pegc::lint::lint_partial_match;
use syntax_highlighter::pegc::{compile, parse, Error};

const LENIENT_IN_CATCH: &str = "root = stmt*\nstmt = x ^bad '!'\nx = 'a' 'b'?\n";

#[test]
fn lenient_call_absorbed_by_a_catch_is_flagged() {
    let g = parse(LENIENT_IN_CATCH).unwrap();
    let findings = lint_partial_match(&g);
    assert_eq!(findings.len(), 1);
    assert_eq!(findings[0].kind, LintKind::PartialMatchLeniency);
    assert_eq!(findings[0].rule, "x");
    assert_eq!(findings[0].caller, "stmt");
}

#[test]
fn anchored_call_is_not_flagged() {
    let g = parse("root = stmt*\nstmt = (x &';') ^bad ';'\nx = 'a' 'b'?\n").unwrap();
    assert!(lint_partial_match(&g).is_empty());
}

#[test]
fn caller_inside_a_catch_elsewhere_is_flagged() {
    let g = parse("root = stmt ^bad ';'\nstmt = x\nx = 'a' 'b'?\n").unwrap();
    let findings = lint_partial_match(&g);
    assert_eq!(findings.len(), 1);
    assert_eq!((findings[0].rule.as_str(), findings[0].caller.as_str()), ("x", "stmt"));
}

#[test]
fn rules_without_trailing_optionals_are_never_flagged() {
    let g = parse("root = stmt ^bad ';'\nstmt = x\nx = 'a' 'b'\n").unwrap();
    assert!(lint_partial_match(&g).is_empty());
}

#[test]
fn compile_rejects_partial_match_leniency() {
    match compile(LENIENT_IN_CATCH) {
        Err(Error::Compile(CompileError::PartialMatchLeniency(findings))) => assert_eq!(findings.len(), 1),
        _ => panic!("expected the lint to reject the grammar"),
    }
}

#[test]
fn json_like_grammar_is_clean() {
    let g = parse(
        "root = value
ignore = [ \\t\\n\\r]*
value = object / array / string / number / @keyword{'true' / 'false' / 'null'}
object = '{' (pair (',' pair)*)? '}'
pair = string ':' value
array = '[' (value (',' value)*)? ']'
string = @string{'\"' (!'\"' .)* '\"'}
number = @number{'-'? [0-9]+ ('.' [0-9]+)?}
",
    )
    .unwrap();
    assert!(lint_partial_match(&g).is_empty());
}
