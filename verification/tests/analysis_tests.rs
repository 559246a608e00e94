use std::collections::HashMap;

use syntax_highlighter::pegc::analysis::compute_ignore_rules;
use syntax_highlighter::pegc::keywords::append_boundary_check;
use syntax_highlighter::pegc::{parse, Grammar, Pattern};
use syntax_highlighter::pegvm::CharSet;

fn ignore_bits(src: &str) -> HashMap<String, bool> {
    let g = parse(src).expect("parse");
    let bits = compute_ignore_rules(&g.rules);
    g.rules.iter().map(|(name, _)| name.clone()).zip(bits).collect()
}

#[test]
fn no_ignore_rule_leaves_all_bits_false() {
    let bits = ignore_bits("root = 'x'");
    assert!(bits.values().all(|&b| !b));
}

#[test]
fn ignore_rule_marks_itself_not_root() {
    let bits = ignore_bits("root = ignore 'x'\nignore = ' '*");
    assert!(bits["ignore"]);
    assert!(!bits["root"]);
}

#[test]
fn ignore_cascade_reaches_transitive_callees() {
    let bits = ignore_bits(
        "root = ignore 'x'\n\
         ignore = ws\n\
         ws = (comment / ' ')*\n\
         comment = '#' (!'\\n' .)*",
    );
    assert!(bits["ignore"] && bits["ws"] && bits["comment"]);
    assert!(!bits["root"]);
}

#[test]
fn ignore_cascade_skips_catch_bearing_rules() {
    let bits = ignore_bits(
        "root = ignore 'x'\n\
         ignore = (victim / ' ')*\n\
         victim = 'a' ^bad 'b'",
    );
    assert!(bits["ignore"]);
    assert!(!bits["victim"], "catch-bearing rule must not cascade");
}

#[test]
fn ignore_cascade_terminates_on_recursion() {
    let bits = ignore_bits(
        "root = ignore 'x'\n\
         ignore = ws\n\
         ws = (ws / ' ')*",
    );
    assert!(bits["ignore"] && bits["ws"]);
}

fn count_boundary(pat: &Pattern) -> usize {
    match pat {
        Pattern::NonTerminal(name) if name.as_str() == "boundary" => 1,
        Pattern::Sequence(items) => items.iter().map(count_boundary).sum(),
        Pattern::OrderedChoice(alts) => alts.iter().map(count_boundary).sum(),
        Pattern::Repeat(inner)
        | Pattern::RepeatOne(inner)
        | Pattern::Optional(inner)
        | Pattern::NotPredicate(inner)
        | Pattern::AndPredicate(inner)
        | Pattern::Capture(_, inner)
        | Pattern::Lenient(inner) => count_boundary(inner),
        Pattern::Catch { inner, recovery, .. } => count_boundary(inner) + count_boundary(recovery),
        Pattern::InferBoundaryCatch { inner, .. } => count_boundary(inner),
        _ => 0,
    }
}

/// Mark a single rule `t` as a `reserved` rule, run `append_boundary_check`,
/// and return the rewritten body.
fn append_to(body: Pattern) -> Pattern {
    let mut g = Grammar::new(vec![("t".to_string(), body)], "t");
    g.percent_rules.push("t".to_string());
    append_boundary_check(&mut g);
    g.rules.remove(0).1
}

#[test]
fn capture_less_charclass_choice_gets_one_trailing_boundary() {
    let body = Pattern::choice(vec![
        Pattern::char_class(CharSet::from_chars(&['a', 'b'])),
        Pattern::char_class(CharSet::from_chars(&['c', 'd'])),
    ]);
    assert_eq!(count_boundary(&append_to(body)), 1);
}

#[test]
fn capture_less_literal_choice_factors_into_trie() {
    let body = Pattern::choice(vec![Pattern::literal("do"), Pattern::literal("double")]);
    let trie = append_to(body);
    assert_eq!(count_boundary(&trie), 2);
    // Source order must not matter: the scrambled set factors to the
    // identical trie.
    let scrambled = append_to(Pattern::choice(vec![Pattern::literal("double"), Pattern::literal("do")]));
    assert_eq!(format!("{:?}", trie), format!("{:?}", scrambled));
}

#[test]
fn capture_choice_distributes_boundary_per_branch() {
    let body = Pattern::choice(vec![
        Pattern::capture("k", Pattern::literal("a")),
        Pattern::capture("k", Pattern::literal("b")),
    ]);
    assert_eq!(count_boundary(&append_to(body)), 2);
}

#[test]
fn trie_prefers_the_longest_keyword() {
    let body = Pattern::choice(vec![Pattern::literal("long"), Pattern::literal("long long"), Pattern::literal("int")]);
    let trie = append_to(body);
    assert_eq!(count_boundary(&trie), 3);
    // `int` and `long` branch on their first byte; `long` then tries the
    // longer ` long` before accepting.
    match &trie {
        Pattern::OrderedChoice(branches) => {
            assert_eq!(branches.len(), 2);
            assert!(matches!(&branches[0], Pattern::Sequence(items) if matches!(&items[0], Pattern::Literal(b) if b == b"int")));
            match &branches[1] {
                Pattern::Sequence(items) => {
                    assert!(matches!(&items[0], Pattern::Literal(b) if b == b"long"));
                    match &items[1] {
                        Pattern::OrderedChoice(sub) => {
                            assert_eq!(sub.len(), 2);
                            assert!(matches!(&sub[1], Pattern::NonTerminal(n) if n == "boundary"));
                        }
                        _ => panic!("`long` and `long long` share a node"),
                    }
                }
                _ => panic!("branch is a literal then a sub-trie"),
            }
        }
        _ => panic!("two first bytes make a choice"),
    }
}

#[test]
fn sequence_gets_boundary_in_its_last_item() {
    let body = Pattern::seq(vec![Pattern::literal("a"), Pattern::capture("k", Pattern::literal("b"))]);
    match append_to(body) {
        Pattern::Sequence(items) => {
            assert_eq!(items.len(), 2);
            assert!(matches!(&items[1], Pattern::Capture(_, inner) if count_boundary(inner) == 1));
        }
        _ => panic!("a sequence stays a sequence"),
    }
}

#[test]
fn unmarked_rules_are_left_alone() {
    let mut g = Grammar::new(vec![("t".to_string(), Pattern::literal("x"))], "t");
    append_boundary_check(&mut g);
    assert_eq!(count_boundary(&g.rules[0].1), 0);
}
