use syntax_highlighter::pegb::{
    decode, encode, read_varint_u32, write_varint_u32, Error, MAX_INSTRUCTION_COUNT, TAG_RULE_ENTER,
};
use syntax_highlighter::pegc;
use syntax_highlighter::pegvm::{
    CaptureKind, CharSet, Instruction, Label, LabelId, MemoId, Program, RuleKind, SetId,
};

const JSON_GRAMMAR: &str = "root = value
ignore = [ \\t\\n\\r]*
value = object / array / string / number / @keyword{'true' / 'false' / 'null'}
object = '{' (pair (',' pair)*)? '}'
pair = string ':' value
array = '[' (value (',' value)*)? ']'
string = @string{'\"' (!'\"' .)* '\"'}
number = @number{'-'? [0-9]+ ('.' [0-9]+)?}
";

#[test]
fn varint_roundtrip_at_boundary_values() {
    for v in [
        0u32, 1, 127, 128, 16383, 16384, 2_097_151, 2_097_152, 268_435_455, 268_435_456, u32::MAX,
    ] {
        let mut buf = Vec::new();
        write_varint_u32(&mut buf, v);
        let (read, pos) = read_varint_u32(&buf, 0).expect("varint round-trips");
        assert_eq!(read, v, "varint round-trip mismatch at v={}", v);
        assert_eq!(pos, buf.len(), "varint reader stops at end-of-encoding");
    }
}

#[test]
fn varint_widths_are_minimal() {
    for (v, expected_len) in [(0u32, 1), (127, 1), (128, 2), (16383, 2), (16384, 3), (u32::MAX, 5)] {
        let mut buf = Vec::new();
        write_varint_u32(&mut buf, v);
        assert_eq!(buf.len(), expected_len, "v={} encoded to {} bytes, expected {}", v, buf.len(), expected_len);
    }
}

#[test]
fn varint_rejects_six_byte_encoding() {
    let buf = [0x80u8, 0x80, 0x80, 0x80, 0x80, 0x01];
    let err = read_varint_u32(&buf, 0).unwrap_err();
    assert!(matches!(err, Error::MalformedVarint { position: 0 }));
}

#[test]
fn varint_rejects_fifth_byte_overflow_bits() {
    let buf = [0x80u8, 0x80, 0x80, 0x80, 0x10];
    let err = read_varint_u32(&buf, 0).unwrap_err();
    assert!(matches!(err, Error::MalformedVarint { position: 0 }));
}

fn assert_roundtrip(p: &Program) {
    let bytes = encode(p);
    let p2 = decode(&bytes).expect("decode succeeds on freshly-encoded bytes");
    assert_eq!(p.code, p2.code, "code mismatch after round-trip");
    assert_eq!(p.capture_kinds, p2.capture_kinds, "capture_kinds mismatch after round-trip");
    assert_eq!(p.rule_names, p2.rule_names, "rule_names mismatch after round-trip");
    assert_eq!(p.label_kinds, p2.label_kinds, "label_kinds mismatch after round-trip");
    assert_eq!(p.rule_is_ignore, p2.rule_is_ignore, "rule_is_ignore mismatch after round-trip");
    assert_eq!(p.char_sets, p2.char_sets, "char_sets mismatch after round-trip");
    assert_eq!(p.rule_count, p2.rule_count, "rule_count mismatch after round-trip");
    assert_eq!(bytes, encode(p), "encoding is deterministic");
}

#[test]
fn smallest_program_round_trips() {
    let p = pegc::compile("start <- \"x\"").unwrap();
    assert_roundtrip(&p);
}

#[test]
fn every_opcode_round_trips() {
    let p = Program {
        code: vec![
            Instruction::Byte(b'a'),
            Instruction::CharSet(SetId(0)),
            Instruction::Any,
            Instruction::Jump(Label(13)),
            Instruction::Choice(Label(17)),
            Instruction::Commit(Label(19)),
            Instruction::PartialCommit(Label(23)),
            Instruction::BackCommit(Label(29)),
            Instruction::FailTwice,
            Instruction::Fail,
            Instruction::Call(Label(31)),
            Instruction::Return,
            Instruction::RuleEnter(MemoId(0), RuleKind::Memo, Label(37)),
            Instruction::RuleEnter(MemoId(1), RuleKind::Lr, Label(41)),
            Instruction::MemoClose(MemoId(0)),
            Instruction::LRTail(MemoId(1), Label(43)),
            Instruction::CaptureBegin(CaptureKind(0)),
            Instruction::CaptureEnd,
            Instruction::RecoverScopeBegin(LabelId(0)),
            Instruction::RecoverToScopedMax,
            Instruction::RecoverScopeEnd,
            Instruction::End,
        ],
        capture_kinds: vec!["alpha".to_string()],
        rule_count: 2,
        rule_names: vec!["start".to_string(), "other".to_string()],
        label_kinds: vec!["lbl".to_string()],
        rule_is_ignore: vec![false, true],
        char_sets: vec![CharSet::from_chars(&['a', 'b', 'c', '世'])],
    };
    assert_roundtrip(&p);
}

fn json_program_bytes() -> Vec<u8> {
    let p = pegc::compile(JSON_GRAMMAR).unwrap();
    encode(&p)
}

#[test]
fn truncated_at_capture_count_errors() {
    let err = decode(&[]).unwrap_err();
    assert!(matches!(err, Error::TruncatedInput { .. }));
    let err = decode(&[0x01]).unwrap_err();
    assert!(matches!(err, Error::TruncatedInput { .. }));
}

#[test]
fn truncated_in_capture_name_errors() {
    let buf = [0x01u8, 0x00, b'a', b'b', b'c'];
    let err = decode(&buf).unwrap_err();
    assert!(matches!(err, Error::TruncatedInput { .. }));
}

#[test]
fn truncated_in_instruction_payload_errors() {
    let mut bytes = json_program_bytes();
    bytes.pop();
    let err = decode(&bytes).unwrap_err();
    assert!(matches!(err, Error::TruncatedInput { .. } | Error::MalformedVarint { .. }));
}

#[test]
fn invalid_opcode_errors() {
    let buf = [
        0x00u8, 0x00, // capture count = 0
        0x00, 0x00, // rule count = 0
        0x01, 0x00, 0x00, 0x00, // instruction count = 1
        0x77, // unknown opcode
    ];
    let err = decode(&buf).unwrap_err();
    assert!(matches!(err, Error::InvalidOpcode { tag: 0x77, .. }));
}

#[test]
fn invalid_rule_kind_errors() {
    let buf = [
        0x00u8, 0x00, // capture count = 0
        0x00, 0x00, // rule count = 0
        0x01, 0x00, 0x00, 0x00, // instruction count = 1
        TAG_RULE_ENTER,
        0x00, // varint memo_id = 0
        0x02, // bogus rule kind
        0x00, // varint label = 0
    ];
    let err = decode(&buf).unwrap_err();
    assert!(matches!(err, Error::InvalidRuleKind { tag: 2, .. }));
}

#[test]
fn invalid_capture_name_utf8_errors() {
    let buf = [0x01u8, 0x00, 0xFF, 0x00];
    let err = decode(&buf).unwrap_err();
    assert!(matches!(err, Error::InvalidCaptureName(_)));
}

#[test]
fn invalid_rule_name_utf8_errors() {
    let buf = [0x00u8, 0x00, 0x01, 0x00, 0xFF, 0x00];
    let err = decode(&buf).unwrap_err();
    assert!(matches!(err, Error::InvalidRuleName(_)));
}

#[test]
fn trailing_bytes_errors() {
    let mut bytes = json_program_bytes();
    bytes.push(0x42);
    let err = decode(&bytes).unwrap_err();
    assert!(matches!(err, Error::TrailingBytes { remaining: 1 }));
}

#[test]
fn instruction_count_above_cap_errors() {
    let count = MAX_INSTRUCTION_COUNT + 1;
    let mut buf = vec![0x00u8, 0x00, 0x00, 0x00]; // empty capture table + empty rule table
    buf.extend_from_slice(&count.to_le_bytes());
    let err = decode(&buf).unwrap_err();
    assert!(
        matches!(err, Error::ProgramTooLarge { count: c } if c == count),
        "expected ProgramTooLarge, got {err:?}"
    );
}

#[test]
fn empty_program_round_trips() {
    let p = Program {
        code: vec![],
        capture_kinds: vec![],
        rule_count: 0,
        rule_names: vec![],
        label_kinds: vec![],
        rule_is_ignore: vec![],
        char_sets: vec![],
    };
    assert_roundtrip(&p);
}

#[test]
fn decode_recomputes_rule_count_from_code_stream() {
    let p = Program {
        code: vec![
            Instruction::RuleEnter(MemoId(0), RuleKind::Memo, Label(2)),
            Instruction::MemoClose(MemoId(0)),
            Instruction::Return,
        ],
        capture_kinds: vec![],
        rule_count: 99,
        rule_names: vec![],
        label_kinds: vec![],
        rule_is_ignore: vec![],
        char_sets: vec![],
    };
    let bytes = encode(&p);
    let decoded = decode(&bytes).expect("decode succeeds");
    assert_eq!(decoded.code, p.code, "code preserved");
    assert_eq!(decoded.rule_count, 1, "rule_count recomputed from code");
}

#[test]
fn json_program_round_trips() {
    let p = pegc::compile(JSON_GRAMMAR).unwrap();
    assert_roundtrip(&p);
}

/// Empty capture and rule tables, then a count word of 0 whose top bit
/// announces the extra tables.
fn marked_header() -> Vec<u8> {
    vec![0x00u8, 0x00, 0x00, 0x00, 0x00, 0x00, 0x00, 0x80]
}

#[test]
fn empty_program_encodes_to_eight_zero_bytes() {
    let p = Program {
        code: vec![],
        capture_kinds: vec![],
        rule_count: 0,
        rule_names: vec![],
        label_kinds: vec![],
        rule_is_ignore: vec![],
        char_sets: vec![],
    };
    assert_eq!(encode(&p), vec![0u8; 8]);
    let q = decode(&[0u8; 8]).unwrap();
    assert!(q.code.is_empty() && q.capture_kinds.is_empty() && q.rule_names.is_empty());
}

#[test]
fn trailing_byte_after_base_layout_errors() {
    let err = decode(&[0u8; 9]).unwrap_err();
    assert!(matches!(err, Error::TrailingBytes { remaining: 1 }));
}

#[test]
fn extra_tables_follow_the_marked_count() {
    let p = Program {
        code: vec![Instruction::End],
        capture_kinds: vec![],
        rule_count: 0,
        rule_names: vec![],
        label_kinds: vec!["l".to_string()],
        rule_is_ignore: vec![],
        char_sets: vec![],
    };
    let bytes = encode(&p);
    assert_eq!(bytes, vec![0, 0, 0, 0, 0x01, 0, 0, 0x80, 0xFF, 0x01, 0x00, b'l', 0x00, 0x00, 0x00, 0x00, 0x00]);
    assert_roundtrip(&p);
}

#[test]
fn invalid_flag_errors() {
    let mut buf = marked_header();
    buf.extend_from_slice(&[0x00, 0x00, 0x01, 0x00, 0x07]);
    let err = decode(&buf).unwrap_err();
    assert!(matches!(err, Error::InvalidFlag { tag: 7, position: 12 }));
}

#[test]
fn inverted_char_set_errors() {
    // One set of one range 'b'..'a'.
    let mut buf = marked_header();
    buf.extend_from_slice(&[0x00, 0x00, 0x00, 0x00, 0x01, 0x00, 0x01, b'b', b'a']);
    let err = decode(&buf).unwrap_err();
    assert!(matches!(err, Error::InvalidCharSet { position: 14 }));
}

#[test]
fn invalid_label_name_utf8_errors() {
    let mut buf = marked_header();
    buf.extend_from_slice(&[0x01, 0x00, 0xFF, 0x00]);
    let err = decode(&buf).unwrap_err();
    assert!(matches!(err, Error::InvalidLabelName(_)), "got {err:?}");
    let expected = format!("invalid label name UTF-8: {}", std::str::from_utf8(&[0xFFu8]).unwrap_err());
    assert_eq!(err.describe(), expected);
}
