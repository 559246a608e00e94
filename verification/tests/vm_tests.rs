use syntax_highlighter::pegc::{Grammar, Pattern};
use syntax_highlighter::pegvm::vm::VM;
use syntax_highlighter::pegvm::incremental::MemoEntry;
use syntax_highlighter::pegvm::{MemoCache, MemoId};

fn rule(rules: &mut Vec<(String, Pattern)>, name: &str, pat: Pattern) {
    rules.push((name.to_string(), pat));
}

#[test]
fn and_predicate_success_records_examined_past_end_sp() {
    let mut rules = Vec::new();
    rule(
        &mut rules,
        "start",
        Pattern::seq(vec![
            Pattern::literal("x"),
            Pattern::AndPredicate(Box::new(Pattern::literal("y"))),
        ]),
    );
    let prog = Grammar::new(rules, "start").compile().unwrap();
    let (result, _stats, memo) = VM::new(&prog, b"xy").with_memo_threshold(0).run_with_cache();
    assert!(result.complete);
    assert_eq!(result.matched, 1, "only 'x' is consumed");
    let entry = memo.get(MemoId(0), 0).expect("start's memo entry missing");
    assert_eq!(entry.end_sp, Some(1));
    assert_eq!(entry.examined_max, 2, "&\"y\" read past end_sp; examined_max must reflect it");
}

#[test]
fn and_predicate_failure_records_examined_up_to_failed_read() {
    let mut rules = Vec::new();
    rule(
        &mut rules,
        "start",
        Pattern::seq(vec![
            Pattern::literal("x"),
            Pattern::AndPredicate(Box::new(Pattern::literal("z"))),
        ]),
    );
    let prog = Grammar::new(rules, "start").compile().unwrap();
    let (result, _stats, memo) = VM::new(&prog, b"xy").with_memo_threshold(0).run_with_cache();
    assert!(!result.complete, "overall parse must fail");
    let entry = memo.get(MemoId(0), 0).expect("start's failure entry missing");
    assert_eq!(entry.end_sp, None);
    assert_eq!(entry.examined_max, 2, "failed read of 'z' at position 1 examined position 1+1");
}

#[test]
fn nested_rule_examined_max_propagates_to_caller() {
    let mut rules = Vec::new();
    rule(
        &mut rules,
        "outer",
        Pattern::seq(vec![Pattern::NonTerminal("inner".into()), Pattern::literal("y")]),
    );
    rule(&mut rules, "inner", Pattern::literal("x"));
    let prog = Grammar::new(rules, "outer").compile().unwrap();
    let (result, _stats, memo) = VM::new(&prog, b"xy").with_memo_threshold(0).run_with_cache();
    assert!(result.complete);
    assert_eq!(result.matched, 2);
    let outer = memo.get(MemoId(0), 0).expect("outer entry missing");
    assert_eq!(outer.end_sp, Some(2));
    assert_eq!(outer.examined_max, 2);
    let inner = memo.get(MemoId(1), 0).expect("inner entry missing");
    assert_eq!(inner.end_sp, Some(1));
    assert_eq!(inner.examined_max, 1);
}

#[test]
fn memo_hit_propagates_examined_max_to_caller() {
    let mut rules = Vec::new();
    rule(
        &mut rules,
        "start",
        Pattern::choice(vec![
            Pattern::seq(vec![Pattern::NonTerminal("X".into()), Pattern::literal("aa")]),
            Pattern::seq(vec![Pattern::NonTerminal("X".into()), Pattern::literal("bb")]),
        ]),
    );
    rule(&mut rules, "X", Pattern::literal("a"));
    let prog = Grammar::new(rules, "start").compile().unwrap();
    let (result, stats, memo) = VM::new(&prog, b"abb").with_memo_threshold(0).run_with_cache();
    assert!(result.complete);
    assert_eq!(result.matched, 3);
    assert!(stats.hits >= 1, "second alternative must hit X's cache");
    let start = memo.get(MemoId(0), 0).expect("start entry missing");
    assert_eq!(start.end_sp, Some(3));
    assert_eq!(start.examined_max, 3, "start's execution examined up to position 3");
}

#[test]
fn recover_repeat_propagates_examined_max_through_loop_iterations() {
    // start <- ("ab")*^ : a repetition of a catch whose recovery skips one character.
    let mut rules = Vec::new();
    rule(
        &mut rules,
        "start",
        Pattern::Repeat(Box::new(Pattern::catch(
            Pattern::literal("ab"),
            "recovery",
            Pattern::capture("recovery", Pattern::any_char()),
        ))),
    );
    let prog = Grammar::new(rules, "start").compile().unwrap();
    let (result, _stats, memo) = VM::new(&prog, b"abxab").with_memo_threshold(0).run_with_cache();
    assert!(result.complete);
    assert_eq!(result.matched, 5);
    let entry = memo.get(MemoId(0), 0).expect("start entry missing");
    assert_eq!(entry.end_sp, Some(5));
    assert!(
        entry.examined_max >= 5,
        "recovery-loop reads must propagate to enclosing rule's watermark; got {}",
        entry.examined_max
    );
}

#[test]
fn recover_repeat_from_grammar_source_matches_hand_built() {
    let prog = syntax_highlighter::pegc::compile("start <- ('ab')*^").unwrap();
    let result = VM::new(&prog, b"abxab").run();
    assert!(result.complete);
    assert_eq!(result.matched, 5);
    assert_eq!(result.captures.len(), 1);
    assert_eq!((result.captures[0].start, result.captures[0].end), (2, 3));
}

#[test]
fn left_recursive_rule_grows_its_seed() {
    let prog = syntax_highlighter::pegc::compile("e <- e '+' n / n\nn <- [0-9]").unwrap();
    let result = VM::new(&prog, b"1+2+3").run();
    assert!(result.complete);
    assert_eq!(result.matched, 5);
}

#[test]
fn root_rule_must_reach_end_of_input() {
    let prog = syntax_highlighter::pegc::compile("root = 'ab'").unwrap();
    assert!(VM::new(&prog, b"ab").run().complete);
    assert!(!VM::new(&prog, b"abc").run().complete);
}

#[test]
fn seeded_memo_keys_survive_a_run() {
    let mut rules = Vec::new();
    rule(&mut rules, "start", Pattern::literal("ab"));
    let prog = Grammar::new(rules, "start").compile().unwrap();
    let mut seed = MemoCache::new();
    seed.insert(MemoId(5), 1, MemoEntry { end_sp: None, examined_max: 1, captures: Vec::new() });
    let (result, stats, memo) = VM::new_with_cache(&prog, b"ab", seed).with_memo_threshold(0).run_with_cache();
    assert!(result.complete);
    assert_eq!(result.matched, 2);
    let kept = memo.get(MemoId(5), 1).expect("seeded key lost");
    assert_eq!(kept.end_sp, None);
    assert_eq!(kept.examined_max, 1);
    assert!(memo.get(MemoId(0), 0).is_some());
    assert_eq!(stats.entries, memo.len());
}
