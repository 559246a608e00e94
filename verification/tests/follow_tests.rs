use syntax_highlighter::parser::Parser;
use syntax_highlighter::pegc::compiler::CompileError;
use syntax_highlighter::pegc::follow::{
    compute_first, compute_follow, follow_set_to_boundary_pattern, resolve_inferred_boundaries, FollowElement,
    FollowSet,
};
use syntax_highlighter::pegc::{parse, Pattern};
use syntax_highlighter::pegvm::CharSet;

fn rules_of(src: &str) -> Vec<(String, Pattern)> {
    parse(src).expect("grammar parses").rules
}

fn index_of(rules: &[(String, Pattern)], name: &str) -> usize {
    rules.iter().position(|(n, _)| n == name).expect("rule exists")
}

fn lit(s: &str) -> FollowElement {
    FollowElement::Literal(s.as_bytes().to_vec())
}

#[test]
fn first_stops_at_the_first_non_nullable_item() {
    let rules = rules_of("root = 'a'? 'b' 'c'\n");
    let first = compute_first(&rules);
    let f = &first[index_of(&rules, "root")];
    assert!(f.contains(&lit("a")));
    assert!(f.contains(&lit("b")));
    assert!(!f.contains(&lit("c")));
    assert_eq!(f.len(), 2);
}

#[test]
fn first_keeps_rule_calls_opaque_and_wraps_captures() {
    let rules = rules_of("root = x / @k{'z'}\nx = 'y'\n");
    let first = compute_first(&rules);
    let f = &first[index_of(&rules, "root")];
    assert!(f.contains(&FollowElement::Rule("x".to_string())));
    assert!(f.contains(&FollowElement::Capture { kind: "k".to_string(), inner: Box::new(lit("z")) }));
    assert!(!f.contains(&lit("y")));
}

#[test]
fn follow_of_a_call_is_what_comes_after_it() {
    let rules = rules_of("root = x ';' x '!'\nx = 'b'\n");
    let follow = compute_follow(&rules);
    let fx = &follow[index_of(&rules, "x")];
    assert!(fx.contains(&lit(";")));
    assert!(fx.contains(&lit("!")));
    assert_eq!(fx.len(), 2);
    let froot = &follow[index_of(&rules, "root")];
    assert!(froot.contains(&FollowElement::Eof));
    assert_eq!(froot.len(), 1);
}

#[test]
fn follow_flows_through_nullable_tails_and_repetitions() {
    let rules = rules_of("root = y*\ny = x 'c'?\nx = 'b'\n");
    let follow = compute_follow(&rules);
    let fx = &follow[index_of(&rules, "x")];
    // `'c'?` may be skipped, so FOLLOW(y) flows into FOLLOW(x): the
    // repetition's own FIRST (a call of `y`) and end of input.
    assert!(fx.contains(&lit("c")));
    assert!(fx.contains(&FollowElement::Rule("y".to_string())));
    assert!(fx.contains(&FollowElement::Eof));
    assert_eq!(fx.len(), 3);
}

#[test]
fn follow_reaches_a_fixed_point_on_recursion() {
    let rules = rules_of("root = a\na = 'x' a / b\nb = 'y'\n");
    let follow = compute_follow(&rules);
    assert!(follow[index_of(&rules, "a")].contains(&FollowElement::Eof));
    assert!(follow[index_of(&rules, "b")].contains(&FollowElement::Eof));
}

#[test]
fn boundary_puts_the_class_union_first() {
    let mut fs = FollowSet::new();
    fs.insert(lit(";"));
    fs.insert(FollowElement::CharClass(CharSet::from_chars(&['a'])));
    fs.insert(FollowElement::Eof);
    fs.insert(FollowElement::CharClass(CharSet::from_chars(&['b'])));
    let p = follow_set_to_boundary_pattern(&fs);
    match p {
        Pattern::OrderedChoice(alts) => {
            assert_eq!(alts.len(), 3);
            match &alts[0] {
                Pattern::CharClass(cs) => {
                    assert!(cs.contains_char('a') && cs.contains_char('b') && !cs.contains_char('c'));
                }
                _ => panic!("class union must come first"),
            }
            assert!(matches!(&alts[1], Pattern::Literal(b) if b == b";"));
            assert!(matches!(&alts[2], Pattern::NotPredicate(inner) if matches!(**inner, Pattern::AnyChar)));
        }
        _ => panic!("several alternatives make a choice"),
    }
}

#[test]
fn single_element_boundary_stands_alone() {
    let mut fs = FollowSet::new();
    fs.insert(FollowElement::Rule("end".to_string()));
    assert!(matches!(follow_set_to_boundary_pattern(&fs), Pattern::NonTerminal(n) if n == "end"));
}

#[test]
fn inferred_boundary_catch_recovers_up_to_follow() {
    let src = "root = (item ';')*\nitem = 'x' ^^bad\n";
    let rules = rules_of(src);
    let resolved = resolve_inferred_boundaries(&rules).expect("boundary inferable");
    let item = &resolved[index_of(&resolved, "item")].1;
    assert!(matches!(item, Pattern::Catch { label, .. } if label == "bad"));

    let mut p = Parser::new(src).expect("grammar compiles");
    p.set_input(b"x;x;".to_vec());
    assert!(p.is_complete());
    p.set_input(b"xy;x;".to_vec());
    assert!(p.is_complete(), "the catch skips to the `;` that follows `item`");
    let recovery = p.capture_kinds().iter().position(|k| k == "recovery").expect("recovery kind");
    assert!(p.captures().1.iter().any(|c| c.kind.0 as usize == recovery));
}

#[test]
fn placeholder_followed_by_nothing_cannot_be_resolved() {
    let src = "root = &('x' ^^bad) 'x'\n";
    match resolve_inferred_boundaries(&rules_of(src)) {
        Err(CompileError::CannotInferBoundary { rule, label }) => {
            assert_eq!(rule, "root");
            assert_eq!(label, "bad");
        }
        other => panic!("expected CannotInferBoundary, got {:?}", other.map(|_| ())),
    }
    assert!(matches!(Parser::new(src), Err(_)));
}
