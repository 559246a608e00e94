use syntax_highlighter::pegvm::vm::RecoveryDiagnostic;
use syntax_highlighter::pegvm::{Capture, CaptureKind, LabelId, MemoId};
use syntax_highlighter::pegc::follow::{FollowElement, FollowSet};
use syntax_highlighter::pegc::order::name_order;
use syntax_highlighter::pegc::compile;
use syntax_highlighter::pegvm::CharSet;
use syntax_highlighter::report::{
    capture_depths, capture_rows, cluster_lines, follow_record, format_farthest_reach, json_string, position_of,
    recovery_clusters, recovery_span_aggregates, stats_json, truncate_with_ellipsis, Cluster,
};

fn cap(kind: u16, start: usize, end: usize) -> Capture {
    Capture { kind: CaptureKind(kind), start, end }
}

fn diag(label: u16, position: usize, stack: &[u32]) -> RecoveryDiagnostic {
    RecoveryDiagnostic { label: LabelId(label), position, rule_stack: stack.iter().map(|&m| MemoId(m)).collect() }
}

#[test]
fn json_string_plain_text_is_quoted() {
    assert_eq!(json_string("abc"), "\"abc\"");
    assert_eq!(json_string(""), "\"\"");
}

#[test]
fn json_string_escapes_quotes_and_backslashes() {
    assert_eq!(json_string("a\"b\\c"), "\"a\\\"b\\\\c\"");
}

#[test]
fn json_string_escapes_named_controls() {
    assert_eq!(json_string("\n\r\t\x08\x0c"), "\"\\n\\r\\t\\b\\f\"");
}

#[test]
fn json_string_escapes_esc_and_del_as_unicode() {
    assert_eq!(json_string("\x1b[31m"), "\"\\u001b[31m\"");
    assert_eq!(json_string("\x7f\x01"), "\"\\u007f\\u0001\"");
}

#[test]
fn json_string_keeps_non_ascii() {
    assert_eq!(json_string("é…"), "\"é…\"");
}

#[test]
fn farthest_reach_lists_named_rules_in_order() {
    let names = vec!["value".to_string(), "object".to_string(), "member".to_string()];
    let d = diag(0, 17, &[1, 2, 0]);
    assert_eq!(format_farthest_reach(&d, &names), "{\"pos\":17,\"rule_stack\":[\"object\",\"member\",\"value\"]}");
}

#[test]
fn farthest_reach_skips_unknown_rule_ids() {
    let names = vec!["a\"b".to_string()];
    let d = diag(3, 0, &[7, 0, 9]);
    assert_eq!(format_farthest_reach(&d, &names), "{\"pos\":0,\"rule_stack\":[\"a\\\"b\"]}");
    let empty = diag(3, 1234, &[5]);
    assert_eq!(format_farthest_reach(&empty, &names), "{\"pos\":1234,\"rule_stack\":[]}");
}

#[test]
fn truncate_keeps_text_that_fits() {
    assert_eq!(truncate_with_ellipsis("hello", 5), "hello");
    assert_eq!(truncate_with_ellipsis("", 0), "");
}

#[test]
fn truncate_cuts_and_appends_ellipsis() {
    assert_eq!(truncate_with_ellipsis("hello world", 5), "hello…");
    assert_eq!(truncate_with_ellipsis("abc", 0), "…");
}

#[test]
fn truncate_backs_up_to_a_char_boundary() {
    // "é" is two bytes: cutting at byte 2 would split it.
    assert_eq!(truncate_with_ellipsis("aé", 2), "a…");
    assert_eq!(truncate_with_ellipsis("aéb", 3), "aé…");
}

#[test]
fn depths_follow_nesting() {
    let caps = vec![cap(0, 0, 10), cap(1, 0, 4), cap(2, 1, 3), cap(1, 4, 10), cap(0, 12, 15)];
    assert_eq!(capture_depths(&caps), vec![0, 1, 2, 1, 0]);
}

#[test]
fn depths_of_no_captures() {
    assert_eq!(capture_depths(&[]), Vec::<usize>::new());
}

#[test]
fn aggregates_pick_farthest_diagnostic_of_each_span() {
    // Kind 9 marks recovery captures. Those at 3..5 and 5..8 touch and
    // form one span; the others stand alone. Diagnostics align with the
    // recovery captures in order, so the last one has none.
    let caps = vec![cap(9, 0, 2), cap(1, 2, 3), cap(9, 3, 5), cap(9, 5, 8), cap(9, 10, 12)];
    let diags = vec![diag(1, 4, &[0]), diag(2, 7, &[1]), diag(3, 11, &[2])];
    let out = recovery_span_aggregates(&caps, &diags, Some(9));
    assert_eq!(out.len(), 5);
    assert_eq!(out[0].as_ref().map(|d| d.position), Some(4));
    assert!(out[1].is_none());
    assert_eq!(out[2].as_ref().map(|d| (d.label, d.position)), Some((LabelId(3), 11)));
    assert_eq!(out[3].as_ref().map(|d| (d.label, d.position)), Some((LabelId(3), 11)));
    assert_eq!(out[3].as_ref().map(|d| d.rule_stack.clone()), Some(vec![MemoId(2)]));
    assert!(out[4].is_none());
}

#[test]
fn aggregates_keep_earlier_diagnostic_on_ties() {
    let caps = vec![cap(9, 0, 2), cap(9, 2, 4)];
    let diags = vec![diag(1, 5, &[]), diag(2, 5, &[])];
    let out = recovery_span_aggregates(&caps, &diags, Some(9));
    assert_eq!(out[0].as_ref().map(|d| d.label), Some(LabelId(1)));
    assert_eq!(out[1].as_ref().map(|d| d.label), Some(LabelId(1)));
}

#[test]
fn aggregates_without_recovery_kind_are_empty() {
    let caps = vec![cap(9, 0, 2)];
    let diags = vec![diag(1, 5, &[])];
    let out = recovery_span_aggregates(&caps, &diags, None);
    assert_eq!(out.len(), 1);
    assert!(out[0].is_none());
}

#[test]
fn aggregates_with_missing_diagnostics() {
    let caps = vec![cap(9, 0, 2), cap(9, 4, 6)];
    let diags = vec![diag(1, 5, &[])];
    let out = recovery_span_aggregates(&caps, &diags, Some(9));
    assert_eq!(out[0].as_ref().map(|d| d.position), Some(5));
    assert!(out[1].is_none());
}

#[test]
fn stats_line_counts_the_program() {
    let prog = compile("root = @word{ [a-z]+ } ' '*").expect("compile");
    let line = stats_json("g.peg", &prog);
    let expected = format!(
        "{{\"path\":\"g.peg\",\"instructions\":{},\"rules\":{},\"capture_kinds_count\":{},\"capture_kinds\":[{}]}}",
        prog.code.len(),
        prog.rule_count,
        prog.capture_kinds.len(),
        prog.capture_kinds.iter().map(|k| json_string(k)).collect::<Vec<_>>().join(",")
    );
    assert_eq!(line, expected);
    assert!(line.contains("\"word\""));
}

#[test]
fn position_of_finds_the_first_match() {
    let v = vec!["a".to_string(), "recovery".to_string(), "recovery".to_string()];
    assert_eq!(position_of(&v, "recovery"), Some(1));
    assert_eq!(position_of(&v, "b"), None);
}

#[test]
fn capture_rows_report_span_kind_depth_and_text() {
    let input = "ab cd";
    let caps = vec![cap(0, 0, 5), cap(1, 0, 2), cap(7, 3, 5)];
    let kinds = vec!["line".to_string(), "word".to_string()];
    let rows = capture_rows(input, &caps, &kinds, &[], &[], None);
    assert_eq!(
        rows,
        vec![
            "{\"start\":0,\"end\":5,\"kind\":\"line\",\"depth\":0,\"literal\":\"ab cd\"}".to_string(),
            "{\"start\":0,\"end\":2,\"kind\":\"word\",\"depth\":1,\"literal\":\"ab\"}".to_string(),
            "{\"start\":3,\"end\":5,\"kind\":\"<unknown>\",\"depth\":1,\"literal\":\"cd\"}".to_string(),
        ]
    );
}

#[test]
fn capture_rows_truncate_and_carry_farthest_reach() {
    let input = "é=xyz";
    let caps = vec![cap(0, 0, 3), cap(1, 3, 6)];
    let kinds = vec!["recovery".to_string(), "value".to_string()];
    let names = vec!["root".to_string(), "pair".to_string()];
    let diags = vec![diag(0, 2, &[0, 1])];
    let rows = capture_rows(input, &caps, &kinds, &names, &diags, Some(1));
    assert_eq!(
        rows[0],
        "{\"start\":0,\"end\":3,\"kind\":\"recovery\",\"depth\":0,\"literal\":\"…\",\"farthest_reach\":{\"pos\":2,\"rule_stack\":[\"root\",\"pair\"]}}"
    );
    assert_eq!(rows[1], "{\"start\":3,\"end\":6,\"kind\":\"value\",\"depth\":0,\"literal\":\"x…\"}");
}

#[test]
fn clusters_count_and_order_recoveries() {
    let names = vec!["root".to_string(), "stmt".to_string(), "expr".to_string()];
    let labels = vec!["recovery".to_string(), "semi".to_string()];
    let aggs = vec![
        Some(diag(0, 3, &[0, 1])),
        None,
        Some(diag(1, 9, &[0, 2])),
        Some(diag(0, 4, &[0, 1])),
        Some(diag(0, 5, &[0, 2])),
    ];
    let cs = recovery_clusters(&aggs, &names, &labels);
    let got: Vec<(Vec<String>, String, usize)> = cs.iter().map(|c| (c.stack.clone(), c.label.clone(), c.count)).collect();
    assert_eq!(
        got,
        vec![
            (vec!["root".to_string(), "stmt".to_string()], "recovery".to_string(), 2),
            (vec!["root".to_string(), "expr".to_string()], "recovery".to_string(), 1),
            (vec!["root".to_string(), "expr".to_string()], "semi".to_string(), 1),
        ]
    );
    let lines = cluster_lines(&cs);
    assert_eq!(lines[0], "2 recoveries — farthest reach ends at stmt (label: recovery)");
    assert_eq!(lines[2], "1 recoveries — farthest reach ends at expr (label: semi)");
}

#[test]
fn no_clusters_reads_no_recoveries() {
    let cs = recovery_clusters(&[None], &[], &[]);
    assert!(cs.is_empty());
    assert_eq!(cluster_lines(&cs), vec!["no recoveries".to_string()]);
    let empty_stack = vec![Cluster { stack: vec![], label: String::new(), count: 3 }];
    assert_eq!(cluster_lines(&empty_stack), vec!["3 recoveries — farthest reach ends at <empty> (label: )".to_string()]);
}

#[test]
fn follow_record_lists_elements_as_json() {
    let mut set = FollowSet::new();
    set.insert(FollowElement::Literal(b"a\"b".to_vec()));
    set.insert(FollowElement::Rule("expr".to_string()));
    set.insert(FollowElement::Capture { kind: "op".to_string(), inner: Box::new(FollowElement::Eof) });
    set.insert(FollowElement::Literal(vec![0xff]));
    assert_eq!(
        follow_record("stmt", &set),
        "{\"rule\":\"stmt\",\"follow\":[{\"type\":\"literal\",\"value\":\"a\\\"b\"},{\"type\":\"rule\",\"name\":\"expr\"},{\"type\":\"capture\",\"kind\":\"op\",\"inner\":{\"type\":\"eof\"}},{\"type\":\"literal\",\"value\":\"\u{fffd}\"}]}"
    );
    assert_eq!(follow_record("r", &FollowSet::new()), "{\"rule\":\"r\",\"follow\":[]}");
}

#[test]
fn char_class_bitmap_marks_members_below_256() {
    let mut set = FollowSet::new();
    set.insert(FollowElement::CharClass(CharSet::from_ranges(&[('0', '1'), ('A', 'A')]).expect("ranges")));
    let rec = follow_record("d", &set);
    // '0' and '1' are 0x30 and 0x31: byte 6, bits 0 and 1; 'A' is 0x41: byte 8, bit 1.
    let mut bitmap = String::new();
    for k in 0..32 {
        let byte: u8 = match k {
            6 => 0x03,
            8 => 0x02,
            _ => 0,
        };
        bitmap.push_str(&format!("{:02x}", byte));
    }
    assert_eq!(rec, format!("{{\"rule\":\"d\",\"follow\":[{{\"type\":\"char_class\",\"bitmap\":\"{}\"}}]}}", bitmap));
}

#[test]
fn name_order_sorts_positions_by_name() {
    let names = vec!["value".to_string(), "array".to_string(), "root".to_string(), "member".to_string()];
    assert_eq!(name_order(&names), vec![1, 3, 2, 0]);
    assert_eq!(name_order(&vec![]), Vec::<usize>::new());
}
