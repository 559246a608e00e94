use syntax_highlighter::pegc::reserved::synthesize_reserved_preferred;
use syntax_highlighter::pegc::{parse, tally_non_terminal_refs, CompileError, Grammar, Pattern};

fn body<'a>(g: &'a Grammar, name: &str) -> &'a Pattern {
    &g.rules.iter().find(|(n, _)| n == name).expect("rule").1
}

fn literal_alts(p: &Pattern) -> Vec<Vec<u8>> {
    match p {
        Pattern::OrderedChoice(alts) => alts
            .iter()
            .map(|a| match a {
                Pattern::Literal(b) => b.clone(),
                other => panic!("expected a literal, got {other:?}"),
            })
            .collect(),
        Pattern::Literal(b) => vec![b.clone()],
        other => panic!("expected a choice, got {other:?}"),
    }
}

#[test]
fn tally_counts_every_call() {
    let g = parse("root = b c b / 'x' d\nb = 'b'\nc = 'c'\nd = b").expect("parse");
    let mut out: Vec<(String, usize)> = Vec::new();
    tally_non_terminal_refs(body(&g, "root"), &mut out);
    assert_eq!(out, vec![("b".to_string(), 2), ("c".to_string(), 1), ("d".to_string(), 1)]);
}

#[test]
fn tally_adds_to_existing_counts() {
    let g = parse("root = b b\nb = 'b'").expect("parse");
    let mut out: Vec<(String, usize)> = vec![("b".to_string(), 3), ("z".to_string(), 1)];
    tally_non_terminal_refs(body(&g, "root"), &mut out);
    assert_eq!(out, vec![("b".to_string(), 5), ("z".to_string(), 1)]);
}

#[test]
fn tally_of_pattern_without_calls_is_unchanged() {
    let mut out: Vec<(String, usize)> = Vec::new();
    tally_non_terminal_refs(&Pattern::literal_bytes(b"x".to_vec()), &mut out);
    assert!(out.is_empty());
}

#[test]
fn reserved_words_become_a_longest_first_rule() {
    let mut g = parse("root = kw / ident\nkw: reserved = 'if' / 'else' / 'while' / 'do'\nident = [a-z]+").expect("parse");
    synthesize_reserved_preferred(&mut g).expect("no conflict");
    let words = literal_alts(body(&g, "reserved"));
    assert_eq!(words, vec![b"while".to_vec(), b"else".to_vec(), b"do".to_vec(), b"if".to_vec()]);
    assert!(g.percent_rules.iter().any(|n| n == "reserved"));
    assert!(g.atomic_rules.iter().any(|n| n == "reserved"));
    assert!(!g.rules.iter().any(|(n, _)| n == "preferred"));
}

#[test]
fn keyword_entries_resolve_through_calls() {
    let mut g = parse("root = b\nb: reserved = @constant{ body }\nbody = 'true' / 'false'").expect("parse");
    synthesize_reserved_preferred(&mut g).expect("no conflict");
    assert_eq!(literal_alts(body(&g, "reserved")), vec![b"false".to_vec(), b"true".to_vec()]);
}

#[test]
fn rules_of_other_shapes_contribute_nothing() {
    let mut g = parse("root = n\nn: reserved = [0-9]+").expect("parse");
    let rules_before = g.rules.len();
    synthesize_reserved_preferred(&mut g).expect("no conflict");
    assert_eq!(g.rules.len(), rules_before);
    assert!(!g.percent_rules.iter().any(|n| n == "reserved"));
}

#[test]
fn preferred_words_get_their_own_rule() {
    let mut g = parse("root = a / b\na: reserved = 'if'\nb: preferred = 'self' / 'it'").expect("parse");
    synthesize_reserved_preferred(&mut g).expect("no conflict");
    assert_eq!(literal_alts(body(&g, "reserved")), vec![b"if".to_vec()]);
    assert_eq!(literal_alts(body(&g, "preferred")), vec![b"self".to_vec(), b"it".to_vec()]);
}

#[test]
fn word_in_both_sets_is_a_conflict() {
    let mut g = parse("root = a / b\na: reserved = 'if' / 'x' / 'else'\nb: preferred = 'if' / 'y' / 'else'").expect("parse");
    let rules_before = g.rules.len();
    match synthesize_reserved_preferred(&mut g) {
        Err(CompileError::ReservedPreferredConflict(words)) => {
            assert_eq!(words, vec!["else".to_string(), "if".to_string()]);
        }
        other => panic!("expected a conflict, got {other:?}"),
    }
    assert_eq!(g.rules.len(), rules_before);
}

#[test]
fn case_folded_letters_stay_char_classes() {
    let mut g = parse("root = a\na: reserved = [iI] [fF] / 'do'").expect("parse");
    synthesize_reserved_preferred(&mut g).expect("no conflict");
    match body(&g, "reserved") {
        Pattern::OrderedChoice(alts) => {
            assert_eq!(alts.len(), 2);
            assert!(matches!(&alts[0], Pattern::Sequence(items) if items.len() == 2));
            assert!(matches!(&alts[1], Pattern::Literal(b) if b == b"do"));
        }
        other => panic!("expected a choice, got {other:?}"),
    }
}
