//! Binary serialization of a [`Program`].
//!
//! Little-endian, byte-packed. Layout:
//!
//! ```text
//! capture-name table:  u16 n, then n NUL-terminated UTF-8 names
//! rule-name table:     u16 n, then n NUL-terminated UTF-8 names
//! instruction stream:  u32 w, then per instruction a u8 tag and its payload
//! ```
//!
//! The low 31 bits of `w` are the instruction count. A program with
//! recovery labels, ignore flags or character sets sets the top bit of `w`
//! and appends, after the instructions:
//!
//! ```text
//! label-name table:    u16 n, then n NUL-terminated UTF-8 names
//! ignore flags:        u16 n, then n bytes, each 0 or 1
//! char-set table:      u16 n, then per set: varint m, m pairs of varint code points
//! ```
//!
//! A program without them is written in the base layout alone: the empty
//! program is eight zero bytes. `Label` and `MemoId` travel as LEB128
//! varints (1 to 5 bytes for a `u32`); `CaptureKind`, `SetId` and
//! `LabelId` as `u16`. The format has no header or version: bytes are
//! tied to the build that wrote them.
use std::str::Utf8Error;

use vstd::prelude::*;

use vstd::utf8::*;

use crate::pegvm::charset::{all_ordered, char_value, ranges_have, scalar_to_char};
use crate::pegvm::{CaptureKind, CharSet, Instruction, Label, LabelId, MemoId, Program, RuleKind, SetId};

verus! {

/// `std::str::Utf8Error`, the reason `std::str::from_utf8` refused bytes.
#[verifier::external_type_specification]
#[verifier::external_body]
pub struct ExUtf8Error(Utf8Error);

/// Failure modes of [`decode`].
#[derive(Debug, Clone, Copy, PartialEq, Eq)]
pub enum Error {
    /// The input ended inside a read of `needed` bytes starting at `position`.
    TruncatedInput { needed: usize, position: usize },
    /// Unknown opcode tag.
    InvalidOpcode { tag: u8, position: usize },
    /// A `RuleEnter` kind byte other than 0 (`Memo`) or 1 (`Lr`).
    InvalidRuleKind { tag: u8, position: usize },
    /// A varint longer than 5 bytes, or whose 5th byte overflows a `u32`.
    MalformedVarint { position: usize },
    /// A capture name that is not UTF-8.
    InvalidCaptureName(Utf8Error),
    /// A rule name that is not UTF-8.
    InvalidRuleName(Utf8Error),
    /// A recovery-label name that is not UTF-8.
    InvalidLabelName(Utf8Error),
    /// A character set with a code point that is no scalar value, or an
    /// inverted range.
    InvalidCharSet { position: usize },
    /// An ignore flag byte other than 0 or 1.
    InvalidFlag { tag: u8, position: usize },
    /// Bytes remain after the program.
    TrailingBytes { remaining: usize },
    /// The declared instruction count exceeds [`MAX_INSTRUCTION_COUNT`].
    ProgramTooLarge { count: u32 },
}

/// Cap on the instruction count read from the wire, so that a few bytes
/// cannot ask for a huge allocation.
pub const MAX_INSTRUCTION_COUNT: u32 = 16_777_216;

pub const TAG_BYTE: u8 = 0x01;
pub const TAG_CHAR_SET: u8 = 0x02;
pub const TAG_ANY: u8 = 0x03;
pub const TAG_JUMP: u8 = 0x10;
pub const TAG_CHOICE: u8 = 0x11;
pub const TAG_COMMIT: u8 = 0x12;
pub const TAG_PARTIAL_COMMIT: u8 = 0x13;
pub const TAG_BACK_COMMIT: u8 = 0x14;
pub const TAG_FAIL_TWICE: u8 = 0x15;
pub const TAG_FAIL: u8 = 0x16;
pub const TAG_CALL: u8 = 0x20;
pub const TAG_RETURN: u8 = 0x21;
pub const TAG_RULE_ENTER: u8 = 0x22;
pub const TAG_MEMO_CLOSE: u8 = 0x23;
pub const TAG_LR_TAIL: u8 = 0x24;
pub const TAG_CAPTURE_BEGIN: u8 = 0x30;
pub const TAG_CAPTURE_END: u8 = 0x31;
pub const TAG_RECOVER_SCOPE_BEGIN: u8 = 0x40;
pub const TAG_RECOVER_TO_SCOPED_MAX: u8 = 0x41;
pub const TAG_RECOVER_SCOPE_END: u8 = 0x42;
pub const TAG_END: u8 = 0xFF;

// ---------------------------------------------------------------------
// The format, as functions from values to bytes
// ---------------------------------------------------------------------

pub open spec fn u16_le(v: u16) -> Seq<u8> {
    seq![(v % 256) as u8, (v / 256) as u8]
}

pub open spec fn u32_le(v: u32) -> Seq<u8> {
    seq![(v % 256) as u8, ((v / 256) % 256) as u8, ((v / 65536) % 256) as u8, (v / 16777216) as u8]
}

/// LEB128: seven bits per byte, low first; the high bit marks "more".
pub open spec fn enc_varint(v: u32) -> Seq<u8>
    decreases v,
{
    if v < 128 {
        seq![v as u8]
    } else {
        seq![(v % 128 + 128) as u8] + enc_varint((v / 128) as u32)
    }
}

/// The concatenation of `f` over the elements, in order.
pub open spec fn concat_map<A>(s: Seq<A>, f: spec_fn(A) -> Seq<u8>) -> Seq<u8>
    decreases s.len(),
{
    if s.len() == 0 {
        Seq::empty()
    } else {
        concat_map(s.drop_last(), f) + f(s.last())
    }
}

pub open spec fn enc_name(n: Seq<char>) -> Seq<u8> {
    encode_utf8(n).push(0u8)
}

pub open spec fn name_fn() -> spec_fn(Seq<char>) -> Seq<u8> {
    |n: Seq<char>| enc_name(n)
}

pub open spec fn flag_fn() -> spec_fn(bool) -> Seq<u8> {
    |b: bool| enc_flag(b)
}

pub open spec fn range_fn() -> spec_fn((char, char)) -> Seq<u8> {
    |r: (char, char)| enc_range(r)
}

pub open spec fn set_fn() -> spec_fn(Seq<(char, char)>) -> Seq<u8> {
    |rs: Seq<(char, char)>| enc_set(rs)
}

pub open spec fn instr_fn() -> spec_fn(Instruction) -> Seq<u8> {
    |i: Instruction| enc_instr(i)
}

pub open spec fn enc_names(ns: Seq<Seq<char>>) -> Seq<u8> {
    u16_le(ns.len() as u16) + concat_map(ns, name_fn())
}

pub open spec fn enc_flag(b: bool) -> Seq<u8> {
    seq![if b {
        1u8
    } else {
        0u8
    }]
}

pub open spec fn enc_flags(fs: Seq<bool>) -> Seq<u8> {
    u16_le(fs.len() as u16) + concat_map(fs, flag_fn())
}

pub open spec fn enc_range(r: (char, char)) -> Seq<u8> {
    enc_varint(r.0 as u32) + enc_varint(r.1 as u32)
}

pub open spec fn enc_set(rs: Seq<(char, char)>) -> Seq<u8> {
    enc_varint(rs.len() as u32) + concat_map(rs, range_fn())
}

pub open spec fn enc_sets(ss: Seq<Seq<(char, char)>>) -> Seq<u8> {
    u16_le(ss.len() as u16) + concat_map(ss, set_fn())
}

pub open spec fn enc_instr(i: Instruction) -> Seq<u8> {
    match i {
        Instruction::Byte(b) => seq![TAG_BYTE, b],
        Instruction::CharSet(id) => seq![TAG_CHAR_SET] + u16_le(id.0),
        Instruction::Any => seq![TAG_ANY],
        Instruction::Jump(l) => seq![TAG_JUMP] + enc_varint(l.0),
        Instruction::Choice(l) => seq![TAG_CHOICE] + enc_varint(l.0),
        Instruction::Commit(l) => seq![TAG_COMMIT] + enc_varint(l.0),
        Instruction::PartialCommit(l) => seq![TAG_PARTIAL_COMMIT] + enc_varint(l.0),
        Instruction::BackCommit(l) => seq![TAG_BACK_COMMIT] + enc_varint(l.0),
        Instruction::FailTwice => seq![TAG_FAIL_TWICE],
        Instruction::Fail => seq![TAG_FAIL],
        Instruction::Call(l) => seq![TAG_CALL] + enc_varint(l.0),
        Instruction::Return => seq![TAG_RETURN],
        Instruction::RuleEnter(m, k, l) => seq![TAG_RULE_ENTER] + enc_varint(m.0) + seq![
            match k {
                RuleKind::Memo => 0u8,
                RuleKind::Lr => 1u8,
            },
        ] + enc_varint(l.0),
        Instruction::MemoClose(m) => seq![TAG_MEMO_CLOSE] + enc_varint(m.0),
        Instruction::LRTail(m, l) => seq![TAG_LR_TAIL] + enc_varint(m.0) + enc_varint(l.0),
        Instruction::CaptureBegin(k) => seq![TAG_CAPTURE_BEGIN] + u16_le(k.0),
        Instruction::CaptureEnd => seq![TAG_CAPTURE_END],
        Instruction::RecoverScopeBegin(l) => seq![TAG_RECOVER_SCOPE_BEGIN] + u16_le(l.0),
        Instruction::RecoverToScopedMax => seq![TAG_RECOVER_TO_SCOPED_MAX],
        Instruction::RecoverScopeEnd => seq![TAG_RECOVER_SCOPE_END],
        Instruction::End => seq![TAG_END],
    }
}

/// A tag that names an instruction.
pub open spec fn known_tag(t: u8) -> bool {
    t == TAG_BYTE || t == TAG_CHAR_SET || t == TAG_ANY || t == TAG_JUMP || t == TAG_CHOICE || t == TAG_COMMIT
        || t == TAG_PARTIAL_COMMIT || t == TAG_BACK_COMMIT || t == TAG_FAIL_TWICE || t == TAG_FAIL || t
        == TAG_CALL || t == TAG_RETURN || t == TAG_RULE_ENTER || t == TAG_MEMO_CLOSE || t == TAG_LR_TAIL || t
        == TAG_CAPTURE_BEGIN || t == TAG_CAPTURE_END || t == TAG_RECOVER_SCOPE_BEGIN || t
        == TAG_RECOVER_TO_SCOPED_MAX || t == TAG_RECOVER_SCOPE_END || t == TAG_END
}

/// At `pos` stands a count word announcing `k` instructions (and the
/// extra tables when `m`), followed by the encodings of `c`.
pub open spec fn stream_at(b: Seq<u8>, pos: int, c: Seq<Instruction>, m: bool, k: u32) -> bool {
    &&& prefix_at(b, pos, u32_le((k + extras_mark(m)) as u32))
    &&& prefix_at(b, pos + 4, concat_map(c, instr_fn()))
}

/// Right after the encodings of `c`, which start 4 bytes past `pos`,
/// stands a byte that is no instruction tag.
pub open spec fn bad_tag_after(b: Seq<u8>, pos: int, c: Seq<Instruction>) -> bool {
    let at = pos + 4 + concat_map(c, instr_fn()).len();
    at < b.len() && !known_tag(b[at])
}

/// `b` holds two name tables, a count word announcing more than `c`'s
/// instructions, the encodings of `c`, and then a byte that is no tag.
pub open spec fn bad_opcode_at(
    b: Seq<u8>,
    caps: Seq<Seq<char>>,
    rules: Seq<Seq<char>>,
    c: Seq<Instruction>,
    m: bool,
    k: u32,
) -> bool {
    let at = (enc_names(caps).len() + enc_names(rules).len()) as int;
    &&& table_ok(caps)
    &&& table_ok(rules)
    &&& prefix_at(b, 0, enc_names(caps))
    &&& prefix_at(b, enc_names(caps).len() as int, enc_names(rules))
    &&& stream_at(b, at, c, m, k)
    &&& c.len() < k <= MAX_INSTRUCTION_COUNT
    &&& bad_tag_after(b, at, c)
}

/// The count word's top bit: the extra tables follow the instructions.
pub open spec fn extras_mark(marked: bool) -> int {
    if marked {
        0x8000_0000
    } else {
        0
    }
}

pub open spec fn enc_code(code: Seq<Instruction>, marked: bool) -> Seq<u8> {
    u32_le((code.len() + extras_mark(marked)) as u32) + concat_map(code, instr_fn())
}

/// The program carries a table that the base layout has no room for.
pub open spec fn has_extras(p: Program) -> bool {
    p.label_kinds@.len() > 0 || p.rule_is_ignore@.len() > 0 || p.char_sets@.len() > 0
}

/// The extra tables: labels, ignore flags and character sets.
pub open spec fn extras_bytes(p: Program) -> Seq<u8> {
    enc_names(string_views(p.label_kinds@)) + enc_flags(p.rule_is_ignore@) + enc_sets(set_ranges(p.char_sets@))
}

pub open spec fn string_views(v: Seq<String>) -> Seq<Seq<char>> {
    v.map_values(|s: String| s@)
}

pub open spec fn set_ranges(v: Seq<CharSet>) -> Seq<Seq<(char, char)>> {
    v.map_values(|c: CharSet| c.range_seq())
}

/// The bytes of a program.
pub open spec fn program_bytes(p: Program) -> Seq<u8> {
    enc_names(string_views(p.capture_kinds@)) + enc_names(string_views(p.rule_names@)) + enc_code(
        p.code@,
        has_extras(p),
    ) + if has_extras(p) {
        extras_bytes(p)
    } else {
        Seq::empty()
    }
}

/// One more than the largest `MemoId` the code mentions; 0 when none.
pub open spec fn derived_rule_count(code: Seq<Instruction>) -> nat
    decreases code.len(),
{
    if code.len() == 0 {
        0
    } else {
        let rest = derived_rule_count(code.drop_last());
        let here: nat = match code.last() {
            Instruction::RuleEnter(m, _, _) => (m.0 + 1) as nat,
            Instruction::MemoClose(m) => (m.0 + 1) as nat,
            Instruction::LRTail(m, _) => (m.0 + 1) as nat,
            _ => 0,
        };
        if here > rest {
            here
        } else {
            rest
        }
    }
}

/// No name holds a NUL byte.
pub open spec fn names_nul_free(ns: Seq<Seq<char>>) -> bool {
    forall|i: int, j: int|
        0 <= i < ns.len() && 0 <= j < encode_utf8(ns[i]).len() ==> #[trigger] encode_utf8(ns[i])[j] != 0
}

/// What the encoder can write: every table fits its count field and no
/// name holds a NUL.
pub open spec fn encodable(p: Program) -> bool {
    &&& p.capture_kinds@.len() <= 0xFFFF
    &&& p.rule_names@.len() <= 0xFFFF
    &&& p.label_kinds@.len() <= 0xFFFF
    &&& p.rule_is_ignore@.len() <= 0xFFFF
    &&& p.char_sets@.len() <= 0xFFFF
    &&& forall|i: int| 0 <= i < p.char_sets@.len() ==> (#[trigger] p.char_sets@[i]).range_seq().len() <= 0xFFFF_FFFF
    &&& forall|i: int| 0 <= i < p.char_sets@.len() ==> all_ordered(#[trigger] p.char_sets@[i].range_seq())
    &&& p.code@.len() < 0x8000_0000
    &&& names_nul_free(string_views(p.capture_kinds@))
    &&& names_nul_free(string_views(p.rule_names@))
    &&& names_nul_free(string_views(p.label_kinds@))
}

/// `s` stands in `b` at `pos`.
pub open spec fn prefix_at(b: Seq<u8>, pos: int, s: Seq<u8>) -> bool {
    0 <= pos && pos + s.len() <= b.len() && b.subrange(pos, pos + s.len()) == s
}

// ---------------------------------------------------------------------
// Lemmas on the format
// ---------------------------------------------------------------------

proof fn lemma_concat_map_take<A>(s: Seq<A>, f: spec_fn(A) -> Seq<u8>, k: int)
    requires
        0 <= k < s.len(),
    ensures
        concat_map(s.take(k + 1), f) == concat_map(s.take(k), f) + f(s[k]),
{
    assert(s.take(k + 1).drop_last() =~= s.take(k));
}

proof fn lemma_concat_map_prefix<A>(s: Seq<A>, f: spec_fn(A) -> Seq<u8>, k: int)
    requires
        0 <= k <= s.len(),
    ensures
        concat_map(s.take(k), f).len() <= concat_map(s, f).len(),
        concat_map(s, f).subrange(0, concat_map(s.take(k), f).len() as int) == concat_map(s.take(k), f),
    decreases s.len(),
{
    if k == s.len() {
        assert(s.take(k) =~= s);
    } else {
        lemma_concat_map_prefix(s.drop_last(), f, k);
        assert(s.drop_last().take(k) =~= s.take(k));
        let a = concat_map(s.drop_last(), f);
        let t = concat_map(s.take(k), f);
        assert((a + f(s.last())).subrange(0, t.len() as int) =~= a.subrange(0, t.len() as int));
    }
}

proof fn lemma_prefix_split(b: Seq<u8>, pos: int, s1: Seq<u8>, s2: Seq<u8>)
    requires
        prefix_at(b, pos, s1 + s2),
    ensures
        prefix_at(b, pos, s1),
        prefix_at(b, pos + s1.len(), s2),
{
    let whole = b.subrange(pos, pos + s1.len() + s2.len());
    assert(whole == s1 + s2);
    assert forall|k: int| 0 <= k < s1.len() implies b.subrange(pos, pos + s1.len())[k] == s1[k] by {
        assert(whole[k] == (s1 + s2)[k]);
    }
    assert(b.subrange(pos, pos + s1.len()) =~= s1);
    assert forall|k: int| 0 <= k < s2.len() implies b.subrange(pos + s1.len(), pos + s1.len() + s2.len())[k]
        == s2[k] by {
        assert(whole[s1.len() + k] == (s1 + s2)[s1.len() + k]);
    }
    assert(b.subrange(pos + s1.len(), pos + s1.len() + s2.len()) =~= s2);
}

proof fn lemma_prefix_shorter(b: Seq<u8>, pos: int, s: Seq<u8>, t: Seq<u8>)
    requires
        prefix_at(b, pos, s),
        t.len() <= s.len(),
        s.subrange(0, t.len() as int) == t,
    ensures
        prefix_at(b, pos, t),
{
    let whole = b.subrange(pos, pos + s.len());
    assert forall|k: int| 0 <= k < t.len() implies b.subrange(pos, pos + t.len())[k] == t[k] by {
        assert(whole[k] == s[k]);
        assert(s.subrange(0, t.len() as int)[k] == s[k]);
    }
    assert(b.subrange(pos, pos + t.len()) =~= t);
}

/// The `k`-th element's bytes follow those of the first `k`.
proof fn lemma_prefix_elem<A>(b: Seq<u8>, pos: int, s: Seq<A>, f: spec_fn(A) -> Seq<u8>, k: int)
    requires
        prefix_at(b, pos, concat_map(s, f)),
        0 <= k < s.len(),
    ensures
        prefix_at(b, pos + concat_map(s.take(k), f).len(), f(s[k])),
        concat_map(s.take(k + 1), f).len() == concat_map(s.take(k), f).len() + f(s[k]).len(),
{
    lemma_concat_map_take(s, f, k);
    lemma_concat_map_prefix(s, f, k + 1);
    lemma_prefix_shorter(b, pos, concat_map(s, f), concat_map(s.take(k + 1), f));
    lemma_prefix_split(b, pos, concat_map(s.take(k), f), f(s[k]));
}

proof fn lemma_varint_len(v: u32)
    ensures
        1 <= enc_varint(v).len() <= 5,
        v < 128 <==> enc_varint(v).len() == 1,
        enc_varint(v).len() >= 2 ==> v >= 128,
        enc_varint(v).len() >= 3 ==> v >= 16384,
        enc_varint(v).len() >= 4 ==> v >= 2097152,
        enc_varint(v).len() == 5 ==> v >= 268435456,
    decreases v,
{
    if v >= 128 {
        lemma_varint_len((v / 128) as u32);
    }
}

// ---------------------------------------------------------------------
// Encoder
// ---------------------------------------------------------------------

fn push_u16(out: &mut Vec<u8>, v: u16)
    ensures
        final(out)@ == old(out)@ + u16_le(v),
{
    out.push((v % 256) as u8);
    out.push((v / 256) as u8);
    assert(final(out)@ =~= old(out)@ + u16_le(v));
}

fn push_u32(out: &mut Vec<u8>, v: u32)
    ensures
        final(out)@ == old(out)@ + u32_le(v),
{
    out.push((v % 256) as u8);
    out.push(((v / 256) % 256) as u8);
    out.push(((v / 65536) % 256) as u8);
    out.push((v / 16777216) as u8);
    assert(final(out)@ =~= old(out)@ + u32_le(v));
}

/// Append the LEB128 bytes of `v`.
pub fn write_varint_u32(out: &mut Vec<u8>, v: u32)
    ensures
        final(out)@ == old(out)@ + enc_varint(v),
{
    let mut w = v;
    while w >= 128
        invariant
            old(out)@ + enc_varint(v) == out@ + enc_varint(w),
        decreases w,
    {
        let ghost before = out@;
        out.push((w % 128 + 128) as u8);
        assert(enc_varint(w) == seq![(w % 128 + 128) as u8] + enc_varint((w / 128) as u32));
        assert(before + enc_varint(w) =~= out@ + enc_varint((w / 128) as u32));
        w = w / 128;
    }
    let ghost before = out@;
    out.push(w as u8);
    assert(out@ =~= before + enc_varint(w));
}

fn write_name_table(out: &mut Vec<u8>, names: &Vec<String>)
    requires
        names@.len() <= 0xFFFF,
    ensures
        final(out)@ == old(out)@ + enc_names(string_views(names@)),
{
    let ghost ns = string_views(names@);
    let ghost f = name_fn();
    push_u16(out, names.len() as u16);
    let ghost base = out@;
    let mut i: usize = 0;
    while i < names.len()
        invariant
            ns == string_views(names@),
            f == name_fn(),
            i <= names@.len(),
            out@ == base + concat_map(ns.take(i as int), f),
        decreases names.len() - i,
    {
        proof {
            lemma_concat_map_take(ns, f, i as int);
        }
        let ghost before = out@;
        let bytes = names[i].as_str().as_bytes();
        let mut j: usize = 0;
        while j < bytes.len()
            invariant
                j <= bytes@.len(),
                out@ == before + bytes@.take(j as int),
            decreases bytes.len() - j,
        {
            out.push(bytes[j]);
            assert(out@ =~= before + bytes@.take(j + 1));
            j += 1;
        }
        out.push(0u8);
        assert(bytes@ == encode_utf8(ns[i as int]));
        assert(bytes@.take(bytes@.len() as int) =~= bytes@);
        assert(out@ =~= base + concat_map(ns.take(i + 1), f));
        i += 1;
    }
    assert(ns.take(ns.len() as int) =~= ns);
}

fn write_flags(out: &mut Vec<u8>, flags: &Vec<bool>)
    requires
        flags@.len() <= 0xFFFF,
    ensures
        final(out)@ == old(out)@ + enc_flags(flags@),
{
    let ghost f = flag_fn();
    push_u16(out, flags.len() as u16);
    let ghost base = out@;
    let mut i: usize = 0;
    while i < flags.len()
        invariant
            f == flag_fn(),
            i <= flags@.len(),
            out@ == base + concat_map(flags@.take(i as int), f),
        decreases flags.len() - i,
    {
        proof {
            lemma_concat_map_take(flags@, f, i as int);
        }
        out.push(if flags[i] {
            1u8
        } else {
            0u8
        });
        assert(out@ =~= base + concat_map(flags@.take(i + 1), f));
        i += 1;
    }
    assert(flags@.take(flags@.len() as int) =~= flags@);
}

fn write_sets(out: &mut Vec<u8>, sets: &Vec<CharSet>)
    requires
        sets@.len() <= 0xFFFF,
        forall|i: int| 0 <= i < sets@.len() ==> (#[trigger] sets@[i]).range_seq().len() <= 0xFFFF_FFFF,
    ensures
        final(out)@ == old(out)@ + enc_sets(set_ranges(sets@)),
{
    let ghost ss = set_ranges(sets@);
    let ghost f = set_fn();
    let ghost g = range_fn();
    push_u16(out, sets.len() as u16);
    let ghost base = out@;
    let mut i: usize = 0;
    while i < sets.len()
        invariant
            ss == set_ranges(sets@),
            f == set_fn(),
            g == range_fn(),
            forall|i: int| 0 <= i < sets@.len() ==> (#[trigger] sets@[i]).range_seq().len() <= 0xFFFF_FFFF,
            i <= sets@.len(),
            out@ == base + concat_map(ss.take(i as int), f),
        decreases sets.len() - i,
    {
        proof {
            lemma_concat_map_take(ss, f, i as int);
        }
        let ghost before = out@;
        let rs = sets[i].ranges();
        write_varint_u32(out, rs.len() as u32);
        let ghost mid = out@;
        let mut j: usize = 0;
        while j < rs.len()
            invariant
                g == range_fn(),
                j <= rs@.len(),
                out@ == mid + concat_map(rs@.take(j as int), g),
            decreases rs.len() - j,
        {
            proof {
                lemma_concat_map_take(rs@, g, j as int);
            }
            let (lo, hi) = rs[j];
            write_varint_u32(out, char_value(lo));
            write_varint_u32(out, char_value(hi));
            assert(out@ =~= mid + concat_map(rs@.take(j + 1), g));
            j += 1;
        }
        assert(rs@.take(rs@.len() as int) =~= rs@);
        assert(out@ =~= base + concat_map(ss.take(i + 1), f));
        i += 1;
    }
    assert(ss.take(ss.len() as int) =~= ss);
}

fn write_instruction(out: &mut Vec<u8>, ins: Instruction)
    ensures
        final(out)@ == old(out)@ + enc_instr(ins),
{
    match ins {
        Instruction::Byte(b) => {
            out.push(TAG_BYTE);
            out.push(b);
        },
        Instruction::CharSet(id) => {
            out.push(TAG_CHAR_SET);
            push_u16(out, id.0);
        },
        Instruction::Any => out.push(TAG_ANY),
        Instruction::Jump(l) => {
            out.push(TAG_JUMP);
            write_varint_u32(out, l.0);
        },
        Instruction::Choice(l) => {
            out.push(TAG_CHOICE);
            write_varint_u32(out, l.0);
        },
        Instruction::Commit(l) => {
            out.push(TAG_COMMIT);
            write_varint_u32(out, l.0);
        },
        Instruction::PartialCommit(l) => {
            out.push(TAG_PARTIAL_COMMIT);
            write_varint_u32(out, l.0);
        },
        Instruction::BackCommit(l) => {
            out.push(TAG_BACK_COMMIT);
            write_varint_u32(out, l.0);
        },
        Instruction::FailTwice => out.push(TAG_FAIL_TWICE),
        Instruction::Fail => out.push(TAG_FAIL),
        Instruction::Call(l) => {
            out.push(TAG_CALL);
            write_varint_u32(out, l.0);
        },
        Instruction::Return => out.push(TAG_RETURN),
        Instruction::RuleEnter(m, k, l) => {
            out.push(TAG_RULE_ENTER);
            write_varint_u32(out, m.0);
            out.push(
                match k {
                    RuleKind::Memo => 0u8,
                    RuleKind::Lr => 1u8,
                },
            );
            write_varint_u32(out, l.0);
        },
        Instruction::MemoClose(m) => {
            out.push(TAG_MEMO_CLOSE);
            write_varint_u32(out, m.0);
        },
        Instruction::LRTail(m, l) => {
            out.push(TAG_LR_TAIL);
            write_varint_u32(out, m.0);
            write_varint_u32(out, l.0);
        },
        Instruction::CaptureBegin(k) => {
            out.push(TAG_CAPTURE_BEGIN);
            push_u16(out, k.0);
        },
        Instruction::CaptureEnd => out.push(TAG_CAPTURE_END),
        Instruction::RecoverScopeBegin(l) => {
            out.push(TAG_RECOVER_SCOPE_BEGIN);
            push_u16(out, l.0);
        },
        Instruction::RecoverToScopedMax => out.push(TAG_RECOVER_TO_SCOPED_MAX),
        Instruction::RecoverScopeEnd => out.push(TAG_RECOVER_SCOPE_END),
        Instruction::End => out.push(TAG_END),
    }
    assert(final(out)@ =~= old(out)@ + enc_instr(ins));
}

fn write_instructions(out: &mut Vec<u8>, code: &Vec<Instruction>, marked: bool)
    requires
        code@.len() < 0x8000_0000,
    ensures
        final(out)@ == old(out)@ + enc_code(code@, marked),
{
    let ghost f = instr_fn();
    let word: u32 = if marked {
        code.len() as u32 + 0x8000_0000
    } else {
        code.len() as u32
    };
    push_u32(out, word);
    let ghost base = out@;
    let mut i: usize = 0;
    while i < code.len()
        invariant
            f == instr_fn(),
            i <= code@.len(),
            out@ == base + concat_map(code@.take(i as int), f),
        decreases code.len() - i,
    {
        proof {
            lemma_concat_map_take(code@, f, i as int);
        }
        write_instruction(out, code[i]);
        assert(out@ =~= base + concat_map(code@.take(i + 1), f));
        i += 1;
    }
    assert(code@.take(code@.len() as int) =~= code@);
}

/// Serialize a program.
pub fn encode(program: &Program) -> (out: Vec<u8>)
    requires
        encodable(*program),
    ensures
        out@ == program_bytes(*program),
{
    let mut out: Vec<u8> = Vec::new();
    write_name_table(&mut out, &program.capture_kinds);
    write_name_table(&mut out, &program.rule_names);
    let extras = program.label_kinds.len() > 0 || program.rule_is_ignore.len() > 0 || program.char_sets.len() > 0;
    write_instructions(&mut out, &program.code, extras);
    if extras {
        write_name_table(&mut out, &program.label_kinds);
        write_flags(&mut out, &program.rule_is_ignore);
        write_sets(&mut out, &program.char_sets);
    }
    assert(out@ =~= program_bytes(*program));
    out
}

// ---------------------------------------------------------------------
// Decoder
// ---------------------------------------------------------------------

/// `std::str::from_utf8`, then `to_string`: the string whose UTF-8 bytes
/// are `bytes` when they are valid UTF-8, else std's error. Of the error
/// nothing is stated.
#[verifier::external_body]
pub(crate) fn string_from_utf8(bytes: &[u8]) -> (r: Result<String, Utf8Error>)
    ensures
        r is Ok <==> valid_utf8(bytes@),
        r matches Ok(s) ==> s@ == decode_utf8(bytes@),
{
    match std::str::from_utf8(bytes) {
        Ok(s) => Ok(s.to_string()),
        Err(e) => Err(e),
    }
}

/// How the varint at `start` reads, from its `k`-th byte on, with `acc`
/// holding the value of the bytes before and `mult` the weight of the next.
pub open spec fn varint_spec(b: Seq<u8>, start: int, k: int, acc: int, mult: int) -> Result<(u32, usize), Error>
    decreases 5 - k,
{
    if k >= 5 {
        Err(Error::MalformedVarint { position: start as usize })
    } else if start + k >= b.len() {
        Err(Error::TruncatedInput { needed: 1, position: (start + k) as usize })
    } else {
        let byte = b[start + k];
        if k == 4 && byte % 128 > 15 {
            Err(Error::MalformedVarint { position: start as usize })
        } else {
            let acc2 = acc + (byte % 128) * mult;
            if byte < 128 {
                Ok((acc2 as u32, (start + k + 1) as usize))
            } else {
                varint_spec(b, start, k + 1, acc2, mult * 128)
            }
        }
    }
}

pub open spec fn weight(k: int) -> int {
    if k == 0 {
        1
    } else if k == 1 {
        128
    } else if k == 2 {
        16384
    } else if k == 3 {
        2097152
    } else {
        268435456
    }
}

/// A varint written by the encoder reads back as its value.
proof fn lemma_varint_roundtrip(b: Seq<u8>, start: int, k: int, acc: int, w: u32)
    requires
        0 <= k <= 4,
        0 <= acc < weight(k),
        acc + w * weight(k) <= 0xFFFF_FFFF,
        prefix_at(b, start + k, enc_varint(w)),
        b.len() <= usize::MAX,
    ensures
        varint_spec(b, start, k, acc, weight(k)) == Ok::<(u32, usize), Error>(
            ((acc + w * weight(k)) as u32, (start + k + enc_varint(w).len()) as usize),
        ),
    decreases w,
{
    assert(b[start + k] == enc_varint(w)[0]) by {
        assert(b.subrange(start + k, start + k + enc_varint(w).len())[0] == b[start + k]);
    }
    if w < 128 {
        assert(enc_varint(w) == seq![w as u8]);
        if k == 4 {
            assert(w * 268435456 <= 0xFFFF_FFFF);
            assert(w <= 15);
        }
    } else {
        let rest = (w / 128) as u32;
        assert(enc_varint(w) == seq![(w % 128 + 128) as u8] + enc_varint(rest));
        lemma_prefix_split(b, start + k, seq![(w % 128 + 128) as u8], enc_varint(rest));
        if k == 4 {
            assert(w * 268435456 <= 0xFFFF_FFFF);
            assert(false);
        }
        let acc2 = acc + (w % 128) * weight(k);
        assert(weight(k) * 128 == weight(k + 1));
        assert(acc2 + rest * weight(k + 1) == acc + w * weight(k)) by (nonlinear_arith)
            requires
                acc2 == acc + (w % 128) * weight(k),
                weight(k) * 128 == weight(k + 1),
                rest == w / 128,
                w >= 0,
        ;
        assert(acc2 < weight(k + 1)) by (nonlinear_arith)
            requires
                acc2 == acc + (w % 128) * weight(k),
                acc < weight(k),
                weight(k) * 128 == weight(k + 1),
                weight(k) > 0,
                w % 128 <= 127,
        ;
        assert(rest * weight(k + 1) >= 0) by (nonlinear_arith)
            requires
                rest >= 0,
                weight(k + 1) > 0,
        ;
        lemma_varint_roundtrip(b, start, k + 1, acc2, rest);
    }
}

/// Read the LEB128 varint at `pos`: its value and the position after it.
pub fn read_varint_u32(bytes: &[u8], pos: usize) -> (r: Result<(u32, usize), Error>)
    requires
        pos <= bytes@.len(),
    ensures
        r == varint_spec(bytes@, pos as int, 0, 0, 1),
        forall|v: u32|
            #[trigger] prefix_at(bytes@, pos as int, enc_varint(v)) ==> r == Ok::<(u32, usize), Error>(
                (v, (pos + enc_varint(v).len()) as usize),
            ),
{
    proof {
        assert forall|v: u32| #[trigger] prefix_at(bytes@, pos as int, enc_varint(v)) implies varint_spec(
            bytes@,
            pos as int,
            0,
            0,
            1,
        ) == Ok::<(u32, usize), Error>((v, (pos + enc_varint(v).len()) as usize)) by {
            assert(bytes@.len() == bytes.len());
            lemma_varint_roundtrip(bytes@, pos as int, 0, 0, v);
        }
    }
    let mut acc: u64 = 0;
    let mut mult: u64 = 1;
    let mut k: usize = 0;
    while k < 5
        invariant
            k <= 5,
            pos + k <= bytes@.len(),
            bytes@.len() == bytes.len(),
            forall|v: u32|
                #[trigger] prefix_at(bytes@, pos as int, enc_varint(v)) ==> varint_spec(bytes@, pos as int, 0, 0, 1)
                    == Ok::<(u32, usize), Error>((v, (pos + enc_varint(v).len()) as usize)),
            k < 5 ==> mult == weight(k as int),
            acc < mult,
            mult <= 268435456 * 128,
            varint_spec(bytes@, pos as int, 0, 0, 1) == varint_spec(bytes@, pos as int, k as int, acc as int, mult as int),
        decreases 5 - k,
    {
        if pos + k >= bytes.len() {
            return Err(Error::TruncatedInput { needed: 1, position: pos + k });
        }
        let b = bytes[pos + k];
        if k == 4 && b % 128 > 15 {
            return Err(Error::MalformedVarint { position: pos });
        }
        let chunk = (b % 128) as u64;
        assert(chunk * mult < 128 * mult) by (nonlinear_arith)
            requires
                chunk < 128,
                mult > 0,
        ;
        assert(k == 4 ==> chunk * mult <= 15 * 268435456) by (nonlinear_arith)
            requires
                k == 4 ==> chunk <= 15,
                k == 4 ==> mult == 268435456,
        ;
        acc = acc + chunk * mult;
        if b < 128 {
            assert(k == 4 ==> acc <= 0xFFFF_FFFF);
            assert(k < 4 ==> acc < 268435456);
            return Ok((acc as u32, pos + k + 1));
        }
        mult = mult * 128;
        k += 1;
    }
    Err(Error::MalformedVarint { position: pos })
}

fn read_u16(bytes: &[u8], pos: usize) -> (r: Result<(u16, usize), Error>)
    ensures
        pos + 2 <= bytes@.len() ==> r == Ok::<(u16, usize), Error>(
            ((bytes@[pos as int] + 256 * bytes@[pos + 1]) as u16, (pos + 2) as usize),
        ),
        pos + 2 > bytes@.len() ==> r == Err::<(u16, usize), Error>(truncated(2, pos)),
        r matches Ok((_, np)) ==> np == pos + 2 && np <= bytes@.len(),
        forall|v: u16| #[trigger] prefix_at(bytes@, pos as int, u16_le(v)) ==> r == Ok::<(u16, usize), Error>((v, (pos + 2) as usize)),
{
    proof {
        assert forall|v: u16| #[trigger] prefix_at(bytes@, pos as int, u16_le(v)) implies bytes@[pos as int] + 256
            * bytes@[pos + 1] == v by {
            assert(bytes@[pos as int] == bytes@.subrange(pos as int, pos + 2)[0]);
            assert(bytes@[pos + 1] == bytes@.subrange(pos as int, pos + 2)[1]);
        }
    }
    if pos >= bytes.len() || bytes.len() - pos < 2 {
        return Err(Error::TruncatedInput { needed: 2, position: pos });
    }
    let v = bytes[pos] as u16 + 256 * (bytes[pos + 1] as u16);
    Ok((v, pos + 2))
}

fn read_u32(bytes: &[u8], pos: usize) -> (r: Result<(u32, usize), Error>)
    ensures
        pos + 4 > bytes@.len() ==> r == Err::<(u32, usize), Error>(truncated(4, pos)),
        r matches Ok((_, np)) ==> np == pos + 4 && np <= bytes@.len(),
        forall|v: u32| #[trigger] prefix_at(bytes@, pos as int, u32_le(v)) ==> r == Ok::<(u32, usize), Error>((v, (pos + 4) as usize)),
{
    if pos >= bytes.len() || bytes.len() - pos < 4 {
        return Err(Error::TruncatedInput { needed: 4, position: pos });
    }
    let b0 = bytes[pos] as u32;
    let b1 = bytes[pos + 1] as u32;
    let b2 = bytes[pos + 2] as u32;
    let b3 = bytes[pos + 3] as u32;
    let v = b0 + 256 * b1 + 65536 * b2 + 16777216 * b3;
    proof {
        assert forall|w: u32| #[trigger] prefix_at(bytes@, pos as int, u32_le(w)) implies v == w by {
            let sub = bytes@.subrange(pos as int, pos + 4);
            assert(b0 == sub[0] && b1 == sub[1] && b2 == sub[2] && b3 == sub[3]);
        }
    }
    Ok((v, pos + 4))
}

proof fn lemma_no_zero_in(s: Seq<u8>, b: Seq<u8>, pos: int, k: int)
    requires
        prefix_at(b, pos, s),
        0 <= k < s.len(),
    ensures
        b[pos + k] == s[k],
{
    assert(b.subrange(pos, pos + s.len())[k] == b[pos + k]);
}

/// The name's bytes hold no NUL.
pub open spec fn nul_free(n: Seq<char>) -> bool {
    forall|j: int| 0 <= j < encode_utf8(n).len() ==> encode_utf8(n)[j] != 0
}

/// `e` is the error for a name of table `which` (0 capture, 1 rule, else
/// label) that is not UTF-8.
pub open spec fn name_error(which: u8, e: Error) -> bool {
    if which == 0 {
        e is InvalidCaptureName
    } else if which == 1 {
        e is InvalidRuleName
    } else {
        e is InvalidLabelName
    }
}

pub open spec fn truncated(needed: usize, pos: usize) -> Error {
    Error::TruncatedInput { needed: needed, position: pos }
}

/// `r` read the name `n` and stopped at `np`.
pub open spec fn name_read(r: Result<(String, usize), Error>, n: Seq<char>, np: int) -> bool {
    r matches Ok((s, q)) && s@ == n && q == np
}

/// Read a NUL-terminated UTF-8 name at `pos`.
fn read_name(bytes: &[u8], pos: usize, which: u8) -> (r: Result<(String, usize), Error>)
    requires
        pos <= bytes@.len(),
    ensures
        r matches Ok((_, np)) ==> pos < np <= bytes@.len(),
        r matches Err(e) ==> (e == truncated(1, pos) || name_error(which, e)),
        forall|n: Seq<char>|
            #[trigger] prefix_at(bytes@, pos as int, enc_name(n)) && nul_free(n) ==> name_read(
                r,
                n,
                pos + enc_name(n).len(),
            ),
{
    let mut j: usize = pos;
    while j < bytes.len() && bytes[j] != 0
        invariant
            pos <= j <= bytes@.len(),
            forall|k: int| pos <= k < j ==> bytes@[k] != 0,
        decreases bytes.len() - j,
    {
        j += 1;
    }
    proof {
        assert forall|n: Seq<char>|
            #[trigger] prefix_at(bytes@, pos as int, enc_name(n)) && nul_free(n) implies j == pos + encode_utf8(
            n,
        ).len() by {
            let e = encode_utf8(n);
            let m = pos + e.len();
            lemma_no_zero_in(enc_name(n), bytes@, pos as int, e.len() as int);
            assert(bytes@[m] == 0);
            if j < m {
                lemma_no_zero_in(enc_name(n), bytes@, pos as int, j - pos);
                assert(enc_name(n)[j - pos] == e[j - pos]);
            }
        }
    }
    if j >= bytes.len() {
        return Err(Error::TruncatedInput { needed: 1, position: pos });
    }
    let mut piece: Vec<u8> = Vec::new();
    let mut k: usize = pos;
    while k < j
        invariant
            pos <= k <= j < bytes@.len(),
            piece@ == bytes@.subrange(pos as int, k as int),
        decreases j - k,
    {
        piece.push(bytes[k]);
        k += 1;
        assert(piece@ =~= bytes@.subrange(pos as int, k as int));
    }
    proof {
        assert forall|n: Seq<char>|
            #[trigger] prefix_at(bytes@, pos as int, enc_name(n)) && nul_free(n) implies piece@ == encode_utf8(n) by {
            let e = encode_utf8(n);
            assert(j == pos + e.len());
            assert(enc_name(n) =~= e + seq![0u8]);
            lemma_prefix_split(bytes@, pos as int, e, seq![0u8]);
        }
    }
    match string_from_utf8(piece.as_slice()) {
        Ok(s) => {
            proof {
                assert forall|n: Seq<char>|
                    #[trigger] prefix_at(bytes@, pos as int, enc_name(n)) && nul_free(n) implies s@ == n by {
                    vstd::utf8::encode_utf8_decode_utf8(n);
                }
            }
            Ok((s, j + 1))
        },
        Err(u) => {
            proof {
                assert forall|n: Seq<char>|
                    #[trigger] prefix_at(bytes@, pos as int, enc_name(n)) && nul_free(n) implies false by {
                    vstd::utf8::encode_utf8_valid_utf8(n);
                }
            }
            if which == 0 {
                Err(Error::InvalidCaptureName(u))
            } else if which == 1 {
                Err(Error::InvalidRuleName(u))
            } else {
                Err(Error::InvalidLabelName(u))
            }
        },
    }
}

/// `r` read the names `ns` and stopped at `np`.
pub open spec fn names_read(r: Result<(Vec<String>, usize), Error>, ns: Seq<Seq<char>>, np: int) -> bool {
    r matches Ok((v, q)) && string_views(v@) == ns && q == np
}

/// `ns` can be a name table of the encoder.
pub open spec fn table_ok(ns: Seq<Seq<char>>) -> bool {
    ns.len() <= 0xFFFF && names_nul_free(ns)
}

proof fn lemma_table_split(b: Seq<u8>, pos: int, ns: Seq<Seq<char>>)
    requires
        prefix_at(b, pos, enc_names(ns)),
    ensures
        prefix_at(b, pos, u16_le(ns.len() as u16)),
        prefix_at(b, pos + 2, concat_map(ns, name_fn())),
        enc_names(ns).len() == 2 + concat_map(ns, name_fn()).len(),
{
    lemma_prefix_split(b, pos, u16_le(ns.len() as u16), concat_map(ns, name_fn()));
}

/// Read a name table at `pos`.
fn read_names(bytes: &[u8], pos: usize, which: u8) -> (r: Result<(Vec<String>, usize), Error>)
    requires
        pos <= bytes@.len(),
    ensures
        r matches Ok((_, np)) ==> pos < np <= bytes@.len(),
        forall|ns: Seq<Seq<char>>|
            #[trigger] prefix_at(bytes@, pos as int, enc_names(ns)) && table_ok(ns) ==> names_read(
                r,
                ns,
                pos + enc_names(ns).len(),
            ),
{
    let ghost f = name_fn();
    let (n, start) = match read_u16(bytes, pos) {
        Ok(x) => x,
        Err(e) => {
            proof {
                assert forall|ns: Seq<Seq<char>>|
                    #[trigger] prefix_at(bytes@, pos as int, enc_names(ns)) && table_ok(ns) implies false by {
                    lemma_table_split(bytes@, pos as int, ns);
                }
            }
            return Err(e);
        },
    };
    proof {
        assert forall|ns: Seq<Seq<char>>|
            #[trigger] prefix_at(bytes@, pos as int, enc_names(ns)) && table_ok(ns) implies n == ns.len() by {
            lemma_table_split(bytes@, pos as int, ns);
        }
    }
    let mut out: Vec<String> = Vec::new();
    let mut cur = start;
    let mut i: u16 = 0;
    while i < n
        invariant
            f == name_fn(),
            start == pos + 2,
            i <= n,
            out@.len() == i,
            start <= cur <= bytes@.len(),
            forall|ns: Seq<Seq<char>>|
                #[trigger] prefix_at(bytes@, pos as int, enc_names(ns)) && table_ok(ns) ==> n == ns.len()
                    && string_views(out@) == ns.take(i as int) && cur == start + concat_map(ns.take(i as int), f).len(),
        decreases n - i,
    {
        let ghost out0 = out@;
        let ghost cur0 = cur;
        match read_name(bytes, cur, which) {
            Ok((s, next)) => {
                proof {
                    assert forall|ns: Seq<Seq<char>>|
                        #[trigger] prefix_at(bytes@, pos as int, enc_names(ns)) && table_ok(ns) implies s@ == ns[i as int]
                        && next == cur0 + enc_name(ns[i as int]).len() by {
                        lemma_table_split(bytes@, pos as int, ns);
                        lemma_prefix_elem(bytes@, pos + 2, ns, f, i as int);
                        assert(nul_free(ns[i as int]));
                    }
                }
                out.push(s);
                cur = next;
                proof {
                    assert forall|ns: Seq<Seq<char>>|
                        #[trigger] prefix_at(bytes@, pos as int, enc_names(ns)) && table_ok(ns) implies string_views(out@)
                        == ns.take(i + 1) && cur == start + concat_map(ns.take(i + 1), f).len() by {
                        lemma_table_split(bytes@, pos as int, ns);
                        lemma_prefix_elem(bytes@, pos + 2, ns, f, i as int);
                        assert(string_views(out@) =~= ns.take(i + 1)) by {
                            assert(string_views(out0) == ns.take(i as int));
                            assert forall|k: int| 0 <= k < i + 1 implies string_views(out@)[k] == ns.take(i + 1)[k] by {
                                if k < i {
                                    assert(string_views(out0)[k] == ns.take(i as int)[k]);
                                }
                            }
                        }
                    }
                }
            },
            Err(e) => {
                proof {
                    assert forall|ns: Seq<Seq<char>>|
                        #[trigger] prefix_at(bytes@, pos as int, enc_names(ns)) && table_ok(ns) implies false by {
                        lemma_table_split(bytes@, pos as int, ns);
                        lemma_prefix_elem(bytes@, pos + 2, ns, f, i as int);
                        assert(nul_free(ns[i as int]));
                    }
                }
                return Err(e);
            },
        }
        i += 1;
    }
    proof {
        assert forall|ns: Seq<Seq<char>>|
            #[trigger] prefix_at(bytes@, pos as int, enc_names(ns)) && table_ok(ns) implies string_views(out@) == ns
            && cur == pos + enc_names(ns).len() by {
            lemma_table_split(bytes@, pos as int, ns);
            assert(ns.take(ns.len() as int) =~= ns);
        }
    }
    Ok((out, cur))
}

/// `r` read the flags `fs` and stopped at `np`.
pub open spec fn flags_read(r: Result<(Vec<bool>, usize), Error>, fs: Seq<bool>, np: int) -> bool {
    r matches Ok((v, q)) && v@ == fs && q == np
}

proof fn lemma_flags_split(b: Seq<u8>, pos: int, fs: Seq<bool>)
    requires
        prefix_at(b, pos, enc_flags(fs)),
    ensures
        prefix_at(b, pos, u16_le(fs.len() as u16)),
        prefix_at(b, pos + 2, concat_map(fs, flag_fn())),
        enc_flags(fs).len() == 2 + concat_map(fs, flag_fn()).len(),
{
    lemma_prefix_split(b, pos, u16_le(fs.len() as u16), concat_map(fs, flag_fn()));
}

/// Read the ignore flags at `pos`.
fn read_flags(bytes: &[u8], pos: usize) -> (r: Result<(Vec<bool>, usize), Error>)
    requires
        pos <= bytes@.len(),
    ensures
        r matches Ok((_, np)) ==> pos < np <= bytes@.len(),
        forall|fs: Seq<bool>|
            #[trigger] prefix_at(bytes@, pos as int, enc_flags(fs)) && fs.len() <= 0xFFFF ==> flags_read(
                r,
                fs,
                pos + enc_flags(fs).len(),
            ),
{
    let ghost f = flag_fn();
    let (n, start) = match read_u16(bytes, pos) {
        Ok(x) => x,
        Err(e) => {
            proof {
                assert forall|fs: Seq<bool>|
                    #[trigger] prefix_at(bytes@, pos as int, enc_flags(fs)) && fs.len() <= 0xFFFF implies false by {
                    lemma_flags_split(bytes@, pos as int, fs);
                }
            }
            return Err(e);
        },
    };
    proof {
        assert forall|fs: Seq<bool>|
            #[trigger] prefix_at(bytes@, pos as int, enc_flags(fs)) && fs.len() <= 0xFFFF implies n == fs.len() by {
            lemma_flags_split(bytes@, pos as int, fs);
        }
    }
    let mut out: Vec<bool> = Vec::new();
    let mut cur = start;
    let mut i: u16 = 0;
    while i < n
        invariant
            f == flag_fn(),
            start == pos + 2,
            i <= n,
            out@.len() == i,
            cur == start + i,
            cur <= bytes@.len(),
            forall|fs: Seq<bool>|
                #[trigger] prefix_at(bytes@, pos as int, enc_flags(fs)) && fs.len() <= 0xFFFF ==> n == fs.len()
                    && out@ == fs.take(i as int) && cur == start + concat_map(fs.take(i as int), f).len(),
        decreases n - i,
    {
        if cur >= bytes.len() {
            proof {
                assert forall|fs: Seq<bool>|
                    #[trigger] prefix_at(bytes@, pos as int, enc_flags(fs)) && fs.len() <= 0xFFFF implies false by {
                    lemma_flags_split(bytes@, pos as int, fs);
                    lemma_prefix_elem(bytes@, pos + 2, fs, f, i as int);
                }
            }
            return Err(Error::TruncatedInput { needed: 1, position: cur });
        }
        let b = bytes[cur];
        if b > 1 {
            proof {
                assert forall|fs: Seq<bool>|
                    #[trigger] prefix_at(bytes@, pos as int, enc_flags(fs)) && fs.len() <= 0xFFFF implies false by {
                    lemma_flags_split(bytes@, pos as int, fs);
                    lemma_prefix_elem(bytes@, pos + 2, fs, f, i as int);
                    lemma_no_zero_in(enc_flag(fs[i as int]), bytes@, cur as int, 0);
                }
            }
            return Err(Error::InvalidFlag { tag: b, position: cur });
        }
        let ghost out0 = out@;
        out.push(b == 1);
        proof {
            assert forall|fs: Seq<bool>|
                #[trigger] prefix_at(bytes@, pos as int, enc_flags(fs)) && fs.len() <= 0xFFFF implies out@ == fs.take(
                i + 1,
            ) && cur + 1 == start + concat_map(fs.take(i + 1), f).len() by {
                lemma_flags_split(bytes@, pos as int, fs);
                lemma_prefix_elem(bytes@, pos + 2, fs, f, i as int);
                lemma_no_zero_in(enc_flag(fs[i as int]), bytes@, cur as int, 0);
                assert(out@ =~= fs.take(i + 1)) by {
                    assert forall|k: int| 0 <= k < i + 1 implies out@[k] == fs.take(i + 1)[k] by {
                        if k < i {
                            assert(out0[k] == fs.take(i as int)[k]);
                        }
                    }
                }
            }
        }
        cur = cur + 1;
        i += 1;
    }
    proof {
        assert forall|fs: Seq<bool>|
            #[trigger] prefix_at(bytes@, pos as int, enc_flags(fs)) && fs.len() <= 0xFFFF implies out@ == fs && cur
            == pos + enc_flags(fs).len() by {
            lemma_flags_split(bytes@, pos as int, fs);
            assert(fs.take(fs.len() as int) =~= fs);
        }
    }
    Ok((out, cur))
}

/// `r` read sets covering the ranges `ss` and stopped at `np`.
pub open spec fn sets_read(r: Result<(Vec<CharSet>, usize), Error>, ss: Seq<Seq<(char, char)>>, np: int) -> bool {
    r matches Ok((v, q)) && v@.len() == ss.len() && (forall|i: int|
        0 <= i < ss.len() ==> #[trigger] v@[i]@ == vstd::set::Set::new(|c: char| ranges_have(ss[i], c)))
        && q == np
}

/// `ss` can be a set table of the encoder.
pub open spec fn sets_ok(ss: Seq<Seq<(char, char)>>) -> bool {
    &&& ss.len() <= 0xFFFF
    &&& forall|i: int| 0 <= i < ss.len() ==> (#[trigger] ss[i]).len() <= 0xFFFF_FFFF && all_ordered(ss[i])
}

/// `r` read a set covering the ranges `rs` and stopped at `np`.
pub open spec fn set_read(r: Result<(CharSet, usize), Error>, rs: Seq<(char, char)>, np: int) -> bool {
    r matches Ok((v, q)) && v@ == vstd::set::Set::new(|c: char| ranges_have(rs, c)) && q == np
}

proof fn lemma_set_split(b: Seq<u8>, pos: int, rs: Seq<(char, char)>)
    requires
        prefix_at(b, pos, enc_set(rs)),
    ensures
        prefix_at(b, pos, enc_varint(rs.len() as u32)),
        prefix_at(b, pos + enc_varint(rs.len() as u32).len(), concat_map(rs, range_fn())),
        enc_set(rs).len() == enc_varint(rs.len() as u32).len() + concat_map(rs, range_fn()).len(),
{
    lemma_prefix_split(b, pos, enc_varint(rs.len() as u32), concat_map(rs, range_fn()));
}

/// `r` read the scalar value `v` and stopped at `np`.
pub open spec fn scalar_read(r: Result<(char, usize), Error>, v: u32, np: int) -> bool {
    r matches Ok((c, q)) && c as int == v as int && q == np
}

/// Read one scalar value written as a varint.
fn read_scalar(bytes: &[u8], pos: usize, set_start: usize) -> (r: Result<(char, usize), Error>)
    requires
        pos <= bytes@.len(),
    ensures
        r matches Ok((_, np)) ==> pos < np <= bytes@.len(),
        forall|v: u32|
            #[trigger] prefix_at(bytes@, pos as int, enc_varint(v)) && is_scalar(v) ==> scalar_read(
                r,
                v,
                pos + enc_varint(v).len(),
            ),
{
    let (v, next) = match read_varint_u32(bytes, pos) {
        Ok(x) => x,
        Err(e) => {
            return Err(e);
        },
    };
    proof {
        assert(bytes@.len() == bytes.len());
        lemma_varint_ok_pos(bytes@, pos as int);
    }
    match scalar_to_char(v) {
        Some(c) => {
            Ok((c, next))
        },
        None => {
            Err(Error::InvalidCharSet { position: set_start })
        },
    }
}

proof fn lemma_varint_ok_pos_k(b: Seq<u8>, start: int, k: int, acc: int, mult: int)
    requires
        b.len() <= usize::MAX,
        0 <= k <= 5,
        0 <= start,
        start + k <= b.len(),
    ensures
        varint_spec(b, start, k, acc, mult) matches Ok((_, np)) ==> start < np <= b.len(),
    decreases 5 - k,
{
    if k < 5 && start + k < b.len() {
        let byte = b[start + k];
        if !(k == 4 && byte % 128 > 15) && byte >= 128 {
            lemma_varint_ok_pos_k(b, start, k + 1, acc + (byte % 128) * mult, mult * 128);
        }
    }
}

/// A varint read ends after its start and within the input.
proof fn lemma_varint_ok_pos(b: Seq<u8>, start: int)
    requires
        b.len() <= usize::MAX,
        0 <= start <= b.len(),
    ensures
        varint_spec(b, start, 0, 0, 1) matches Ok((_, np)) ==> start < np <= b.len(),
{
    lemma_varint_ok_pos_k(b, start, 0, 0, 1);
}

/// Read one character set at `pos`.
fn read_set(bytes: &[u8], pos: usize) -> (r: Result<(CharSet, usize), Error>)
    requires
        pos <= bytes@.len(),
    ensures
        r matches Ok((_, np)) ==> pos < np <= bytes@.len(),
        forall|rs: Seq<(char, char)>|
            #[trigger] prefix_at(bytes@, pos as int, enc_set(rs)) && rs.len() <= 0xFFFF_FFFF && all_ordered(rs)
                ==> set_read(r, rs, pos + enc_set(rs).len()),
{
    let ghost g = range_fn();
    let (m, start) = match read_varint_u32(bytes, pos) {
        Ok(x) => x,
        Err(e) => {
            proof {
                assert forall|rs: Seq<(char, char)>|
                    #[trigger] prefix_at(bytes@, pos as int, enc_set(rs)) && rs.len() <= 0xFFFF_FFFF && all_ordered(rs)
                    implies false by {
                    lemma_set_split(bytes@, pos as int, rs);
                }
            }
            return Err(e);
        },
    };
    proof {
        assert(bytes@.len() == bytes.len());
        lemma_varint_ok_pos(bytes@, pos as int);
        assert forall|rs: Seq<(char, char)>|
            #[trigger] prefix_at(bytes@, pos as int, enc_set(rs)) && rs.len() <= 0xFFFF_FFFF && all_ordered(rs)
            implies m == rs.len() && start == pos + enc_varint(rs.len() as u32).len() by {
            lemma_set_split(bytes@, pos as int, rs);
        }
    }
    let mut ranges: Vec<(char, char)> = Vec::new();
    let mut cur = start;
    let mut i: u32 = 0;
    while i < m
        invariant
            g == range_fn(),
            pos < start <= cur <= bytes@.len(),
            i <= m,
            ranges@.len() == i,
            forall|rs: Seq<(char, char)>|
                #[trigger] prefix_at(bytes@, pos as int, enc_set(rs)) && rs.len() <= 0xFFFF_FFFF && all_ordered(rs)
                    ==> m == rs.len() && start == pos + enc_varint(rs.len() as u32).len() && ranges@ == rs.take(
                    i as int,
                ) && cur == start + concat_map(rs.take(i as int), g).len(),
        decreases m - i,
    {
        let ghost r0 = ranges@;
        let res1 = read_scalar(bytes, cur, pos);
        let (lo, c1) = match res1 {
            Ok(x) => x,
            Err(e) => {
                proof {
                    assert forall|rs: Seq<(char, char)>|
                        #[trigger] prefix_at(bytes@, pos as int, enc_set(rs)) && rs.len() <= 0xFFFF_FFFF && all_ordered(
                            rs,
                        ) implies false by {
                        lemma_set_split(bytes@, pos as int, rs);
                        assert(prefix_at(bytes@, start as int, concat_map(rs, g)));
                        assert(i < rs.len());
                        lemma_prefix_elem(bytes@, start as int, rs, g, i as int);
                        assert(cur == start + concat_map(rs.take(i as int), g).len());
                        assert(g(rs[i as int]) == enc_range(rs[i as int]));
                        assert(prefix_at(bytes@, cur as int, enc_range(rs[i as int])));
                        lemma_prefix_split(
                            bytes@,
                            cur as int,
                            enc_varint(rs[i as int].0 as u32),
                            enc_varint(rs[i as int].1 as u32),
                        );
                        assert(prefix_at(bytes@, cur as int, enc_varint(rs[i as int].0 as u32)));
                        vstd::utf8::char_is_scalar(rs[i as int].0);
                    }
                }
                return Err(e);
            },
        };
        let res2 = read_scalar(bytes, c1, pos);
        let (hi, c2) = match res2 {
            Ok(x) => x,
            Err(e) => {
                proof {
                    assert forall|rs: Seq<(char, char)>|
                        #[trigger] prefix_at(bytes@, pos as int, enc_set(rs)) && rs.len() <= 0xFFFF_FFFF && all_ordered(
                            rs,
                        ) implies false by {
                        lemma_set_split(bytes@, pos as int, rs);
                        lemma_prefix_elem(bytes@, start as int, rs, g, i as int);
                        assert(cur == start + concat_map(rs.take(i as int), g).len());
                        assert(g(rs[i as int]) == enc_range(rs[i as int]));
                        lemma_prefix_split(
                            bytes@,
                            cur as int,
                            enc_varint(rs[i as int].0 as u32),
                            enc_varint(rs[i as int].1 as u32),
                        );
                        vstd::utf8::char_is_scalar(rs[i as int].0);
                        vstd::utf8::char_is_scalar(rs[i as int].1);
                        assert(scalar_read(res1, rs[i as int].0 as u32, cur + enc_varint(rs[i as int].0 as u32).len()));
                    }
                }
                return Err(e);
            },
        };
        ranges.push((lo, hi));
        proof {
            assert forall|rs: Seq<(char, char)>|
                #[trigger] prefix_at(bytes@, pos as int, enc_set(rs)) && rs.len() <= 0xFFFF_FFFF && all_ordered(rs)
                implies ranges@ == rs.take(i + 1) && c2 == start + concat_map(rs.take(i + 1), g).len() by {
                lemma_set_split(bytes@, pos as int, rs);
                lemma_prefix_elem(bytes@, start as int, rs, g, i as int);
                assert(cur == start + concat_map(rs.take(i as int), g).len());
                assert(g(rs[i as int]) == enc_range(rs[i as int]));
                lemma_prefix_split(
                    bytes@,
                    cur as int,
                    enc_varint(rs[i as int].0 as u32),
                    enc_varint(rs[i as int].1 as u32),
                );
                vstd::utf8::char_is_scalar(rs[i as int].0);
                vstd::utf8::char_is_scalar(rs[i as int].1);
                assert(scalar_read(res1, rs[i as int].0 as u32, cur + enc_varint(rs[i as int].0 as u32).len()));
                assert(scalar_read(res2, rs[i as int].1 as u32, c1 + enc_varint(rs[i as int].1 as u32).len()));
                vstd::utf8::char_u32_cast(lo, lo as u32);
                vstd::utf8::char_u32_cast(hi, hi as u32);
                vstd::utf8::char_u32_cast(rs[i as int].0, rs[i as int].0 as u32);
                vstd::utf8::char_u32_cast(rs[i as int].1, rs[i as int].1 as u32);
                assert((lo, hi) == rs[i as int]);
                assert(ranges@ =~= rs.take(i + 1)) by {
                    assert forall|k: int| 0 <= k < i + 1 implies ranges@[k] == rs.take(i + 1)[k] by {
                        if k < i {
                            assert(r0[k] == rs.take(i as int)[k]);
                        }
                    }
                }
            }
        }
        cur = c2;
        i += 1;
    }
    match CharSet::from_ranges(ranges.as_slice()) {
        Ok(set) => {
            proof {
                assert forall|rs: Seq<(char, char)>|
                    #[trigger] prefix_at(bytes@, pos as int, enc_set(rs)) && rs.len() <= 0xFFFF_FFFF && all_ordered(rs)
                    implies set@ == vstd::set::Set::new(|c: char| ranges_have(rs, c)) && cur == pos + enc_set(
                    rs,
                ).len() by {
                    lemma_set_split(bytes@, pos as int, rs);
                    assert(rs.take(rs.len() as int) =~= rs);
                    assert(set@ =~= vstd::set::Set::new(|c: char| ranges_have(rs, c)));
                }
            }
            Ok((set, cur))
        },
        Err(_) => {
            proof {
                assert forall|rs: Seq<(char, char)>|
                    #[trigger] prefix_at(bytes@, pos as int, enc_set(rs)) && rs.len() <= 0xFFFF_FFFF && all_ordered(rs)
                    implies false by {
                    assert(rs.take(rs.len() as int) =~= rs);
                }
            }
            Err(Error::InvalidCharSet { position: pos })
        },
    }
}

proof fn lemma_sets_split(b: Seq<u8>, pos: int, ss: Seq<Seq<(char, char)>>)
    requires
        prefix_at(b, pos, enc_sets(ss)),
    ensures
        prefix_at(b, pos, u16_le(ss.len() as u16)),
        prefix_at(b, pos + 2, concat_map(ss, set_fn())),
        enc_sets(ss).len() == 2 + concat_map(ss, set_fn()).len(),
{
    lemma_prefix_split(b, pos, u16_le(ss.len() as u16), concat_map(ss, set_fn()));
}

/// Read the character-set table at `pos`.
fn read_sets(bytes: &[u8], pos: usize) -> (r: Result<(Vec<CharSet>, usize), Error>)
    requires
        pos <= bytes@.len(),
    ensures
        r matches Ok((_, np)) ==> pos < np <= bytes@.len(),
        forall|ss: Seq<Seq<(char, char)>>|
            #[trigger] prefix_at(bytes@, pos as int, enc_sets(ss)) && sets_ok(ss) ==> sets_read(
                r,
                ss,
                pos + enc_sets(ss).len(),
            ),
{
    let ghost f = set_fn();
    let (n, start) = match read_u16(bytes, pos) {
        Ok(x) => x,
        Err(e) => {
            proof {
                assert forall|ss: Seq<Seq<(char, char)>>|
                    #[trigger] prefix_at(bytes@, pos as int, enc_sets(ss)) && sets_ok(ss) implies false by {
                    lemma_sets_split(bytes@, pos as int, ss);
                }
            }
            return Err(e);
        },
    };
    proof {
        assert forall|ss: Seq<Seq<(char, char)>>|
            #[trigger] prefix_at(bytes@, pos as int, enc_sets(ss)) && sets_ok(ss) implies n == ss.len() by {
            lemma_sets_split(bytes@, pos as int, ss);
        }
    }
    let mut out: Vec<CharSet> = Vec::new();
    let mut cur = start;
    let mut i: u16 = 0;
    while i < n
        invariant
            f == set_fn(),
            start == pos + 2,
            i <= n,
            out@.len() == i,
            start <= cur <= bytes@.len(),
            forall|ss: Seq<Seq<(char, char)>>|
                #[trigger] prefix_at(bytes@, pos as int, enc_sets(ss)) && sets_ok(ss) ==> n == ss.len() && (forall|
                    k: int,
                | 0 <= k < i ==> #[trigger] out@[k]@ == vstd::set::Set::new(|c: char| ranges_have(ss[k], c)))
                    && cur == start + concat_map(ss.take(i as int), f).len(),
        decreases n - i,
    {
        let ghost out0 = out@;
        let res = read_set(bytes, cur);
        match res {
            Ok((set, next)) => {
                proof {
                    assert forall|ss: Seq<Seq<(char, char)>>|
                        #[trigger] prefix_at(bytes@, pos as int, enc_sets(ss)) && sets_ok(ss) implies set_read(
                        res,
                        ss[i as int],
                        cur + enc_set(ss[i as int]).len(),
                    ) by {
                        lemma_sets_split(bytes@, pos as int, ss);
                        lemma_prefix_elem(bytes@, pos + 2, ss, f, i as int);
                        assert(f(ss[i as int]) == enc_set(ss[i as int]));
                    }
                }
                out.push(set);
                cur = next;
                proof {
                    assert forall|ss: Seq<Seq<(char, char)>>|
                        #[trigger] prefix_at(bytes@, pos as int, enc_sets(ss)) && sets_ok(ss) implies (forall|k: int|
                        0 <= k < i + 1 ==> #[trigger] out@[k]@ == vstd::set::Set::new(|c: char| ranges_have(ss[k], c)))
                        && cur == start + concat_map(ss.take(i + 1), f).len() by {
                        lemma_sets_split(bytes@, pos as int, ss);
                        lemma_prefix_elem(bytes@, pos + 2, ss, f, i as int);
                        assert(f(ss[i as int]) == enc_set(ss[i as int]));
                                                assert forall|k: int| 0 <= k < i + 1 implies #[trigger] out@[k]@ == vstd::set::Set::new(
                            |c: char| ranges_have(ss[k], c),
                        ) by {
                            if k < i {
                                assert(out@[k] == out0[k]);
                            }
                        }
                    }
                }
            },
            Err(e) => {
                proof {
                    assert forall|ss: Seq<Seq<(char, char)>>|
                        #[trigger] prefix_at(bytes@, pos as int, enc_sets(ss)) && sets_ok(ss) implies false by {
                        lemma_sets_split(bytes@, pos as int, ss);
                        lemma_prefix_elem(bytes@, pos + 2, ss, f, i as int);
                        assert(f(ss[i as int]) == enc_set(ss[i as int]));
                    }
                }
                return Err(e);
            },
        }
        i += 1;
    }
    proof {
        assert forall|ss: Seq<Seq<(char, char)>>|
            #[trigger] prefix_at(bytes@, pos as int, enc_sets(ss)) && sets_ok(ss) implies sets_read(
            Ok::<(Vec<CharSet>, usize), Error>((out, cur)),
            ss,
            pos + enc_sets(ss).len(),
        ) by {
            lemma_sets_split(bytes@, pos as int, ss);
            assert(ss.take(ss.len() as int) =~= ss);
        }
    }
    Ok((out, cur))
}

pub open spec fn kind_byte(k: RuleKind) -> u8 {
    match k {
        RuleKind::Memo => 0u8,
        RuleKind::Lr => 1u8,
    }
}

/// Where an instruction's payload fields stand after its tag.
pub open spec fn payload_at(b: Seq<u8>, p: int, e: Instruction) -> bool {
    match e {
        Instruction::Byte(x) => p < b.len() && b[p] == x,
        Instruction::CharSet(id) => prefix_at(b, p, u16_le(id.0)),
        Instruction::Jump(l) => prefix_at(b, p, enc_varint(l.0)),
        Instruction::Choice(l) => prefix_at(b, p, enc_varint(l.0)),
        Instruction::Commit(l) => prefix_at(b, p, enc_varint(l.0)),
        Instruction::PartialCommit(l) => prefix_at(b, p, enc_varint(l.0)),
        Instruction::BackCommit(l) => prefix_at(b, p, enc_varint(l.0)),
        Instruction::Call(l) => prefix_at(b, p, enc_varint(l.0)),
        Instruction::MemoClose(m) => prefix_at(b, p, enc_varint(m.0)),
        Instruction::RuleEnter(m, k, l) => {
            let q = p + enc_varint(m.0).len();
            &&& prefix_at(b, p, enc_varint(m.0))
            &&& q < b.len() && b[q] == kind_byte(k)
            &&& prefix_at(b, q + 1, enc_varint(l.0))
        },
        Instruction::LRTail(m, l) => {
            &&& prefix_at(b, p, enc_varint(m.0))
            &&& prefix_at(b, p + enc_varint(m.0).len(), enc_varint(l.0))
        },
        Instruction::CaptureBegin(k) => prefix_at(b, p, u16_le(k.0)),
        Instruction::RecoverScopeBegin(l) => prefix_at(b, p, u16_le(l.0)),
        _ => true,
    }
}

proof fn lemma_instr_parts(b: Seq<u8>, pos: int, e: Instruction)
    requires
        prefix_at(b, pos, enc_instr(e)),
    ensures
        pos < b.len(),
        b[pos] == enc_instr(e)[0],
        payload_at(b, pos + 1, e),
        prefix_at(b, pos + 1, enc_instr(e).drop_first()),
{
    let full = enc_instr(e);
    assert(full =~= seq![full[0]] + full.drop_first());
    lemma_prefix_split(b, pos, seq![full[0]], full.drop_first());
    lemma_no_zero_in(full, b, pos, 0);
    let rest = full.drop_first();
    match e {
        Instruction::Byte(x) => {
            lemma_no_zero_in(full, b, pos, 1);
        },
        Instruction::CharSet(id) => {
            assert(rest =~= u16_le(id.0));
        },
        Instruction::Jump(l) => {
            assert(rest =~= enc_varint(l.0));
        },
        Instruction::Choice(l) => {
            assert(rest =~= enc_varint(l.0));
        },
        Instruction::Commit(l) => {
            assert(rest =~= enc_varint(l.0));
        },
        Instruction::PartialCommit(l) => {
            assert(rest =~= enc_varint(l.0));
        },
        Instruction::BackCommit(l) => {
            assert(rest =~= enc_varint(l.0));
        },
        Instruction::Call(l) => {
            assert(rest =~= enc_varint(l.0));
        },
        Instruction::MemoClose(m) => {
            assert(rest =~= enc_varint(m.0));
        },
        Instruction::RuleEnter(m, k, l) => {
            assert(rest =~= enc_varint(m.0) + (seq![kind_byte(k)] + enc_varint(l.0)));
            lemma_prefix_split(b, pos + 1, enc_varint(m.0), seq![kind_byte(k)] + enc_varint(l.0));
            let q = pos + 1 + enc_varint(m.0).len();
            lemma_prefix_split(b, q, seq![kind_byte(k)], enc_varint(l.0));
            lemma_no_zero_in(seq![kind_byte(k)], b, q, 0);
        },
        Instruction::LRTail(m, l) => {
            assert(rest =~= enc_varint(m.0) + enc_varint(l.0));
            lemma_prefix_split(b, pos + 1, enc_varint(m.0), enc_varint(l.0));
        },
        Instruction::CaptureBegin(k) => {
            assert(rest =~= u16_le(k.0));
        },
        Instruction::RecoverScopeBegin(l) => {
            assert(rest =~= u16_le(l.0));
        },
        _ => {},
    }
}

/// `r` read the instruction `e` and stopped at `np`.
pub open spec fn instr_read(r: Result<(Instruction, usize), Error>, e: Instruction, np: int) -> bool {
    r matches Ok((x, q)) && x == e && q == np
}

/// Read a varint payload and wrap it as a jump target.
fn read_label(bytes: &[u8], pos: usize) -> (r: Result<(Label, usize), Error>)
    requires
        pos <= bytes@.len(),
    ensures
        r matches Ok((_, np)) ==> pos < np <= bytes@.len(),
        forall|v: u32| #[trigger] prefix_at(bytes@, pos as int, enc_varint(v)) ==> (r matches Ok((l, np)) && l.0 == v
            && np == pos + enc_varint(v).len()),
{
    proof {
        assert(bytes@.len() == bytes.len());
        lemma_varint_ok_pos(bytes@, pos as int);
    }
    match read_varint_u32(bytes, pos) {
        Ok((v, np)) => Ok((Label(v), np)),
        Err(e) => Err(e),
    }
}

/// Read one instruction at `pos`.
fn read_instruction(bytes: &[u8], pos: usize) -> (r: Result<(Instruction, usize), Error>)
    requires
        pos <= bytes@.len(),
    ensures
        r matches Ok((_, np)) ==> pos < np <= bytes@.len(),
        pos < bytes@.len() && !known_tag(bytes@[pos as int]) ==> r == Err::<(Instruction, usize), Error>(
            Error::InvalidOpcode { tag: bytes@[pos as int], position: pos },
        ),
        forall|e: Instruction| #[trigger] prefix_at(bytes@, pos as int, enc_instr(e)) ==> instr_read(
            r,
            e,
            pos + enc_instr(e).len(),
        ),
{
    if pos >= bytes.len() {
        proof {
            assert forall|e: Instruction| #[trigger] prefix_at(bytes@, pos as int, enc_instr(e)) implies false by {
                lemma_instr_parts(bytes@, pos as int, e);
            }
        }
        return Err(Error::TruncatedInput { needed: 1, position: pos });
    }
    let tag = bytes[pos];
    let p1 = pos + 1;
    let res: Result<(Instruction, usize), Error> = if tag == TAG_BYTE {
        if p1 >= bytes.len() {
            Err(Error::TruncatedInput { needed: 1, position: p1 })
        } else {
            Ok((Instruction::Byte(bytes[p1]), p1 + 1))
        }
    } else if tag == TAG_CHAR_SET {
        match read_u16(bytes, p1) {
            Ok((v, np)) => Ok((Instruction::CharSet(SetId(v)), np)),
            Err(e) => Err(e),
        }
    } else if tag == TAG_ANY {
        Ok((Instruction::Any, p1))
    } else if tag == TAG_JUMP {
        match read_label(bytes, p1) {
            Ok((l, np)) => Ok((Instruction::Jump(l), np)),
            Err(e) => Err(e),
        }
    } else if tag == TAG_CHOICE {
        match read_label(bytes, p1) {
            Ok((l, np)) => Ok((Instruction::Choice(l), np)),
            Err(e) => Err(e),
        }
    } else if tag == TAG_COMMIT {
        match read_label(bytes, p1) {
            Ok((l, np)) => Ok((Instruction::Commit(l), np)),
            Err(e) => Err(e),
        }
    } else if tag == TAG_PARTIAL_COMMIT {
        match read_label(bytes, p1) {
            Ok((l, np)) => Ok((Instruction::PartialCommit(l), np)),
            Err(e) => Err(e),
        }
    } else if tag == TAG_BACK_COMMIT {
        match read_label(bytes, p1) {
            Ok((l, np)) => Ok((Instruction::BackCommit(l), np)),
            Err(e) => Err(e),
        }
    } else if tag == TAG_FAIL_TWICE {
        Ok((Instruction::FailTwice, p1))
    } else if tag == TAG_FAIL {
        Ok((Instruction::Fail, p1))
    } else if tag == TAG_CALL {
        match read_label(bytes, p1) {
            Ok((l, np)) => Ok((Instruction::Call(l), np)),
            Err(e) => Err(e),
        }
    } else if tag == TAG_RETURN {
        Ok((Instruction::Return, p1))
    } else if tag == TAG_RULE_ENTER {
        read_rule_enter(bytes, p1)
    } else if tag == TAG_MEMO_CLOSE {
        match read_label(bytes, p1) {
            Ok((l, np)) => Ok((Instruction::MemoClose(MemoId(l.0)), np)),
            Err(e) => Err(e),
        }
    } else if tag == TAG_LR_TAIL {
        match read_label(bytes, p1) {
            Ok((m, np)) => match read_label(bytes, np) {
                Ok((l, np2)) => Ok((Instruction::LRTail(MemoId(m.0), l), np2)),
                Err(e) => Err(e),
            },
            Err(e) => Err(e),
        }
    } else if tag == TAG_CAPTURE_BEGIN {
        match read_u16(bytes, p1) {
            Ok((v, np)) => Ok((Instruction::CaptureBegin(CaptureKind(v)), np)),
            Err(e) => Err(e),
        }
    } else if tag == TAG_CAPTURE_END {
        Ok((Instruction::CaptureEnd, p1))
    } else if tag == TAG_RECOVER_SCOPE_BEGIN {
        match read_u16(bytes, p1) {
            Ok((v, np)) => Ok((Instruction::RecoverScopeBegin(LabelId(v)), np)),
            Err(e) => Err(e),
        }
    } else if tag == TAG_RECOVER_TO_SCOPED_MAX {
        Ok((Instruction::RecoverToScopedMax, p1))
    } else if tag == TAG_RECOVER_SCOPE_END {
        Ok((Instruction::RecoverScopeEnd, p1))
    } else if tag == TAG_END {
        Ok((Instruction::End, p1))
    } else {
        Err(Error::InvalidOpcode { tag: tag, position: pos })
    };
    proof {
        assert forall|e: Instruction| #[trigger] prefix_at(bytes@, pos as int, enc_instr(e)) implies instr_read(
            res,
            e,
            pos + enc_instr(e).len(),
        ) by {
            lemma_instr_parts(bytes@, pos as int, e);
            match e {
                Instruction::LRTail(m, l) => {
                    assert(enc_instr(e).len() == 1 + enc_varint(m.0).len() + enc_varint(l.0).len());
                },
                Instruction::RuleEnter(m, k, l) => {
                    assert(enc_instr(e).drop_first() =~= enc_varint(m.0) + seq![kind_byte(k)] + enc_varint(l.0));
                    assert(enc_instr(e).len() == 2 + enc_varint(m.0).len() + enc_varint(l.0).len());
                },
                _ => {},
            }
        }
    }
    res
}

/// The `RuleEnter` payload: memo id, kind byte, target.
fn read_rule_enter(bytes: &[u8], pos: usize) -> (r: Result<(Instruction, usize), Error>)
    requires
        pos <= bytes@.len(),
    ensures
        r matches Ok((_, np)) ==> pos < np <= bytes@.len(),
        forall|m: u32, k: RuleKind, l: u32|
            #[trigger] prefix_at(bytes@, pos as int, enc_varint(m) + seq![kind_byte(k)] + enc_varint(l)) ==> instr_read(
                r,
                Instruction::RuleEnter(MemoId(m), k, Label(l)),
                pos + enc_varint(m).len() + 1 + enc_varint(l).len(),
            ),
{
    let (m, q) = match read_label(bytes, pos) {
        Ok(x) => x,
        Err(e) => {
            proof {
                assert forall|m: u32, k: RuleKind, l: u32|
                    #[trigger] prefix_at(bytes@, pos as int, enc_varint(m) + seq![kind_byte(k)] + enc_varint(l)) implies false by {
                    assert(enc_varint(m) + seq![kind_byte(k)] + enc_varint(l) =~= enc_varint(m) + (seq![kind_byte(k)] + enc_varint(l)));
                    lemma_prefix_split(bytes@, pos as int, enc_varint(m), seq![kind_byte(k)] + enc_varint(l));
                }
            }
            return Err(e);
        },
    };
    if q >= bytes.len() {
        proof {
            assert forall|mm: u32, k: RuleKind, l: u32|
                #[trigger] prefix_at(bytes@, pos as int, enc_varint(mm) + seq![kind_byte(k)] + enc_varint(l)) implies false by {
                assert(enc_varint(mm) + seq![kind_byte(k)] + enc_varint(l) =~= enc_varint(mm) + (seq![kind_byte(k)] + enc_varint(l)));
                lemma_prefix_split(bytes@, pos as int, enc_varint(mm), seq![kind_byte(k)] + enc_varint(l));
                lemma_prefix_split(bytes@, pos + enc_varint(mm).len(), seq![kind_byte(k)], enc_varint(l));
            }
        }
        return Err(Error::TruncatedInput { needed: 1, position: q });
    }
    let kb = bytes[q];
    let kind = if kb == 0 {
        RuleKind::Memo
    } else if kb == 1 {
        RuleKind::Lr
    } else {
        proof {
            assert forall|mm: u32, k: RuleKind, l: u32|
                #[trigger] prefix_at(bytes@, pos as int, enc_varint(mm) + seq![kind_byte(k)] + enc_varint(l)) implies false by {
                assert(enc_varint(mm) + seq![kind_byte(k)] + enc_varint(l) =~= enc_varint(mm) + (seq![kind_byte(k)] + enc_varint(l)));
                lemma_prefix_split(bytes@, pos as int, enc_varint(mm), seq![kind_byte(k)] + enc_varint(l));
                lemma_prefix_split(bytes@, pos + enc_varint(mm).len(), seq![kind_byte(k)], enc_varint(l));
                lemma_no_zero_in(seq![kind_byte(k)], bytes@, pos + enc_varint(mm).len(), 0);
            }
        }
        return Err(Error::InvalidRuleKind { tag: kb, position: q });
    };
    let res = match read_label(bytes, q + 1) {
        Ok((l, np)) => Ok((Instruction::RuleEnter(MemoId(m.0), kind, l), np)),
        Err(e) => Err(e),
    };
    proof {
        assert forall|mm: u32, k: RuleKind, l: u32|
            #[trigger] prefix_at(bytes@, pos as int, enc_varint(mm) + seq![kind_byte(k)] + enc_varint(l)) implies instr_read(
            res,
            Instruction::RuleEnter(MemoId(mm), k, Label(l)),
            pos + enc_varint(mm).len() + 1 + enc_varint(l).len(),
        ) by {
            assert(enc_varint(mm) + seq![kind_byte(k)] + enc_varint(l) =~= enc_varint(mm) + (seq![kind_byte(k)] + enc_varint(l)));
            lemma_prefix_split(bytes@, pos as int, enc_varint(mm), seq![kind_byte(k)] + enc_varint(l));
            lemma_prefix_split(bytes@, pos + enc_varint(mm).len(), seq![kind_byte(k)], enc_varint(l));
            lemma_no_zero_in(seq![kind_byte(k)], bytes@, pos + enc_varint(mm).len(), 0);
        }
    }
    res
}

proof fn lemma_code_split(b: Seq<u8>, pos: int, code: Seq<Instruction>, m: bool)
    requires
        prefix_at(b, pos, enc_code(code, m)),
    ensures
        prefix_at(b, pos, u32_le((code.len() + extras_mark(m)) as u32)),
        prefix_at(b, pos + 4, concat_map(code, instr_fn())),
        enc_code(code, m).len() == 4 + concat_map(code, instr_fn()).len(),
{
    lemma_prefix_split(b, pos, u32_le((code.len() + extras_mark(m)) as u32), concat_map(code, instr_fn()));
}

/// `r` read the code `c` and stopped at `np`.
pub open spec fn code_read(r: Result<(Vec<Instruction>, usize, bool), Error>, c: Seq<Instruction>, m: bool, np: int) -> bool {
    r matches Ok((v, q, f)) && v@ == c && q == np && f == m
}

/// Read the instruction stream at `pos`: the code, the position after it,
/// and whether the count word announces the extra tables.
fn read_instructions(bytes: &[u8], pos: usize) -> (r: Result<(Vec<Instruction>, usize, bool), Error>)
    requires
        pos <= bytes@.len(),
    ensures
        r matches Ok((v, np, _)) ==> pos < np <= bytes@.len() && v@.len() <= MAX_INSTRUCTION_COUNT,
        forall|c: Seq<Instruction>, m: bool|
            #[trigger] prefix_at(bytes@, pos as int, enc_code(c, m)) && c.len() <= MAX_INSTRUCTION_COUNT ==> code_read(
                r,
                c,
                m,
                pos + enc_code(c, m).len(),
            ),
        forall|c: Seq<Instruction>, m: bool, k: u32|
            #[trigger] stream_at(bytes@, pos as int, c, m, k) && c.len() < k <= MAX_INSTRUCTION_COUNT
                && bad_tag_after(bytes@, pos as int, c) ==> r == Err::<(Vec<Instruction>, usize, bool), Error>(
                Error::InvalidOpcode {
                    tag: bytes@[pos + 4 + concat_map(c, instr_fn()).len()],
                    position: (pos + 4 + concat_map(c, instr_fn()).len()) as usize,
                },
            ),
{
    let ghost f = instr_fn();
    let (word, start) = match read_u32(bytes, pos) {
        Ok(x) => x,
        Err(e) => {
            proof {
                assert forall|c: Seq<Instruction>, m: bool|
                    #[trigger] prefix_at(bytes@, pos as int, enc_code(c, m)) && c.len() <= MAX_INSTRUCTION_COUNT implies false by {
                    lemma_code_split(bytes@, pos as int, c, m);
                }
                assert forall|c: Seq<Instruction>, m: bool, k0: u32|
                    #[trigger] stream_at(bytes@, pos as int, c, m, k0) implies false by {
                }
            }
            return Err(e);
        },
    };
    let marked = word >= 0x8000_0000;
    let k: u32 = if marked {
        word - 0x8000_0000
    } else {
        word
    };
    proof {
        assert forall|c: Seq<Instruction>, m: bool|
            #[trigger] prefix_at(bytes@, pos as int, enc_code(c, m)) && c.len() <= MAX_INSTRUCTION_COUNT implies k
            == c.len() && marked == m by {
            lemma_code_split(bytes@, pos as int, c, m);
        }
    }
    proof {
        assert forall|c: Seq<Instruction>, m: bool, k0: u32|
            #[trigger] stream_at(bytes@, pos as int, c, m, k0) && k0 <= MAX_INSTRUCTION_COUNT implies k == k0
            && marked == m by {
        }
    }
    if k > MAX_INSTRUCTION_COUNT {
        return Err(Error::ProgramTooLarge { count: k });
    }
    let mut out: Vec<Instruction> = Vec::new();
    let mut cur = start;
    let mut i: u32 = 0;
    while i < k
        invariant
            f == instr_fn(),
            start == pos + 4,
            i <= k <= MAX_INSTRUCTION_COUNT,
            out@.len() == i,
            start <= cur <= bytes@.len(),
            forall|c: Seq<Instruction>, m: bool|
                #[trigger] prefix_at(bytes@, pos as int, enc_code(c, m)) && c.len() <= MAX_INSTRUCTION_COUNT ==> k
                    == c.len() && marked == m && out@ == c.take(i as int) && cur == start + concat_map(
                    c.take(i as int),
                    f,
                ).len(),
            forall|c: Seq<Instruction>, m: bool, k0: u32|
                #[trigger] stream_at(bytes@, pos as int, c, m, k0) && c.len() < k0 <= MAX_INSTRUCTION_COUNT
                    && bad_tag_after(bytes@, pos as int, c) ==> k == k0 && marked == m && i <= c.len() && out@
                    == c.take(i as int) && cur == start + concat_map(c.take(i as int), f).len(),
        decreases k - i,
    {
        let ghost out0 = out@;
        let res = read_instruction(bytes, cur);
        match res {
            Ok((ins, next)) => {
                out.push(ins);
                proof {
                    assert forall|c: Seq<Instruction>, m: bool|
                        #[trigger] prefix_at(bytes@, pos as int, enc_code(c, m)) && c.len() <= MAX_INSTRUCTION_COUNT implies out@
                        == c.take(i + 1) && next == start + concat_map(c.take(i + 1), f).len() by {
                        lemma_code_split(bytes@, pos as int, c, m);
                        lemma_prefix_elem(bytes@, pos + 4, c, f, i as int);
                        assert(f(c[i as int]) == enc_instr(c[i as int]));
                        assert(instr_read(res, c[i as int], cur + enc_instr(c[i as int]).len()));
                        assert(out@ =~= c.take(i + 1)) by {
                            assert forall|q: int| 0 <= q < i + 1 implies out@[q] == c.take(i + 1)[q] by {
                                if q < i {
                                    assert(out0[q] == c.take(i as int)[q]);
                                }
                            }
                        }
                    }
                    assert forall|c: Seq<Instruction>, m: bool, k0: u32|
                        #[trigger] stream_at(bytes@, pos as int, c, m, k0) && c.len() < k0 <= MAX_INSTRUCTION_COUNT
                            && bad_tag_after(bytes@, pos as int, c) implies i + 1 <= c.len() && out@ == c.take(i + 1)
                        && next == start + concat_map(c.take(i + 1), f).len() by {
                        if i == c.len() {
                            assert(c.take(i as int) =~= c);
                            assert(!known_tag(bytes@[cur as int]));
                        } else {
                            lemma_prefix_elem(bytes@, pos + 4, c, f, i as int);
                            assert(f(c[i as int]) == enc_instr(c[i as int]));
                            assert(instr_read(res, c[i as int], cur + enc_instr(c[i as int]).len()));
                            assert(out@ =~= c.take(i + 1)) by {
                                assert forall|q: int| 0 <= q < i + 1 implies out@[q] == c.take(i + 1)[q] by {
                                    if q < i {
                                        assert(out0[q] == c.take(i as int)[q]);
                                    }
                                }
                            }
                        }
                    }
                }
                cur = next;
            },
            Err(e) => {
                proof {
                    assert forall|c: Seq<Instruction>, m: bool|
                        #[trigger] prefix_at(bytes@, pos as int, enc_code(c, m)) && c.len() <= MAX_INSTRUCTION_COUNT implies false by {
                        lemma_code_split(bytes@, pos as int, c, m);
                        lemma_prefix_elem(bytes@, pos + 4, c, f, i as int);
                        assert(f(c[i as int]) == enc_instr(c[i as int]));
                    }
                    assert forall|c: Seq<Instruction>, m: bool, k0: u32|
                        #[trigger] stream_at(bytes@, pos as int, c, m, k0) && c.len() < k0 <= MAX_INSTRUCTION_COUNT
                            && bad_tag_after(bytes@, pos as int, c) implies res == Err::<(Instruction, usize), Error>(
                        Error::InvalidOpcode {
                            tag: bytes@[pos + 4 + concat_map(c, instr_fn()).len()],
                            position: (pos + 4 + concat_map(c, instr_fn()).len()) as usize,
                        },
                    ) by {
                        if i < c.len() {
                            lemma_prefix_elem(bytes@, pos + 4, c, f, i as int);
                            assert(f(c[i as int]) == enc_instr(c[i as int]));
                        } else {
                            assert(c.take(i as int) =~= c);
                        }
                    }
                }
                return Err(e);
            },
        }
        i += 1;
    }
    proof {
        assert forall|c: Seq<Instruction>, m: bool|
            #[trigger] prefix_at(bytes@, pos as int, enc_code(c, m)) && c.len() <= MAX_INSTRUCTION_COUNT implies code_read(
            Ok::<(Vec<Instruction>, usize, bool), Error>((out, cur, marked)),
            c,
            m,
            pos + enc_code(c, m).len(),
        ) by {
            lemma_code_split(bytes@, pos as int, c, m);
            assert(c.take(c.len() as int) =~= c);
        }
        assert forall|c: Seq<Instruction>, m: bool, k0: u32|
            #[trigger] stream_at(bytes@, pos as int, c, m, k0) && c.len() < k0 <= MAX_INSTRUCTION_COUNT
                && bad_tag_after(bytes@, pos as int, c) implies false by {
        }
    }
    Ok((out, cur, marked))
}

/// One more than the largest `MemoId` the code mentions; 0 when none.
pub fn derive_rule_count(code: &Vec<Instruction>) -> (n: usize)
    ensures
        derived_rule_count(code@) <= usize::MAX ==> n == derived_rule_count(code@),
        derived_rule_count(code@) > usize::MAX ==> n == usize::MAX,
{
    let mut best: u64 = 0;
    let mut i: usize = 0;
    while i < code.len()
        invariant
            i <= code@.len(),
            best == derived_rule_count(code@.take(i as int)),
            best <= 0x1_0000_0000,
        decreases code.len() - i,
    {
        let here: u64 = match code[i] {
            Instruction::RuleEnter(m, _, _) => m.0 as u64 + 1,
            Instruction::MemoClose(m) => m.0 as u64 + 1,
            Instruction::LRTail(m, _) => m.0 as u64 + 1,
            _ => 0,
        };
        assert(code@.take(i + 1).drop_last() =~= code@.take(i as int));
        if here > best {
            best = here;
        }
        i += 1;
    }
    assert(code@.take(code@.len() as int) =~= code@);
    if best > usize::MAX as u64 {
        usize::MAX
    } else {
        best as usize
    }
}


/// `q` carries what the format carries of `p`: every table and the code,
/// character sets by their members, and the rule count the code implies.
pub open spec fn same_program(q: Program, p: Program) -> bool {
    &&& q.code@ == p.code@
    &&& string_views(q.capture_kinds@) == string_views(p.capture_kinds@)
    &&& string_views(q.rule_names@) == string_views(p.rule_names@)
    &&& string_views(q.label_kinds@) == string_views(p.label_kinds@)
    &&& q.rule_is_ignore@ == p.rule_is_ignore@
    &&& q.char_sets@.len() == p.char_sets@.len()
    &&& forall|i: int| 0 <= i < p.char_sets@.len() ==> #[trigger] q.char_sets@[i]@ == p.char_sets@[i]@
    &&& derived_rule_count(p.code@) <= usize::MAX ==> q.rule_count == derived_rule_count(p.code@)
}

/// Where each part of an encoded program stands in `b`.
proof fn lemma_program_split(b: Seq<u8>, p: Program)
    requires
        prefix_at(b, 0, program_bytes(p)),
        encodable(p),
    ensures
        ({
            let a1 = enc_names(string_views(p.capture_kinds@));
            let a2 = enc_names(string_views(p.rule_names@));
            let a3 = enc_code(p.code@, has_extras(p));
            let a4 = enc_names(string_views(p.label_kinds@));
            let a5 = enc_flags(p.rule_is_ignore@);
            let a6 = enc_sets(set_ranges(p.char_sets@));
            &&& prefix_at(b, 0, a1)
            &&& prefix_at(b, a1.len() as int, a2)
            &&& prefix_at(b, (a1.len() + a2.len()) as int, a3)
            &&& has_extras(p) ==> prefix_at(b, (a1.len() + a2.len() + a3.len()) as int, a4)
            &&& has_extras(p) ==> prefix_at(b, (a1.len() + a2.len() + a3.len() + a4.len()) as int, a5)
            &&& has_extras(p) ==> prefix_at(b, (a1.len() + a2.len() + a3.len() + a4.len() + a5.len()) as int, a6)
            &&& program_bytes(p).len() == a1.len() + a2.len() + a3.len() + if has_extras(p) {
                a4.len() + a5.len() + a6.len()
            } else {
                0
            }
            &&& table_ok(string_views(p.capture_kinds@))
            &&& table_ok(string_views(p.rule_names@))
            &&& table_ok(string_views(p.label_kinds@))
            &&& sets_ok(set_ranges(p.char_sets@))
        }),
{
    let a1 = enc_names(string_views(p.capture_kinds@));
    let a2 = enc_names(string_views(p.rule_names@));
    let a3 = enc_code(p.code@, has_extras(p));
    let a4 = enc_names(string_views(p.label_kinds@));
    let a5 = enc_flags(p.rule_is_ignore@);
    let a6 = enc_sets(set_ranges(p.char_sets@));
    let pb = program_bytes(p);
    assert(table_ok(string_views(p.capture_kinds@)));
    assert(table_ok(string_views(p.rule_names@)));
    assert(table_ok(string_views(p.label_kinds@)));
    assert(sets_ok(set_ranges(p.char_sets@)));
    if has_extras(p) {
        assert(pb =~= a1 + (a2 + (a3 + (a4 + (a5 + a6)))));
        lemma_prefix_split(b, 0, a1, a2 + (a3 + (a4 + (a5 + a6))));
        lemma_prefix_split(b, a1.len() as int, a2, a3 + (a4 + (a5 + a6)));
        lemma_prefix_split(b, (a1.len() + a2.len()) as int, a3, a4 + (a5 + a6));
        lemma_prefix_split(b, (a1.len() + a2.len() + a3.len()) as int, a4, a5 + a6);
        lemma_prefix_split(b, (a1.len() + a2.len() + a3.len() + a4.len()) as int, a5, a6);
    } else {
        assert(pb =~= a1 + (a2 + a3));
        lemma_prefix_split(b, 0, a1, a2 + a3);
        lemma_prefix_split(b, a1.len() as int, a2, a3);
    }
}

/// Deserialize a program. Decoding what [`encode`] wrote gives the
/// program back; bytes after an encoded program are refused as trailing;
/// the rule count is recomputed from the code.
pub fn decode(bytes: &[u8]) -> (r: Result<Program, Error>)
    ensures
        forall|p: Program|
            #[trigger] prefix_at(bytes@, 0, program_bytes(p)) && encodable(p) && p.code@.len()
                <= MAX_INSTRUCTION_COUNT ==> if bytes@.len() == program_bytes(p).len() {
                r matches Ok(q) && same_program(q, p)
            } else {
                r == Err::<Program, Error>(
                    Error::TrailingBytes { remaining: (bytes@.len() - program_bytes(p).len()) as usize },
                )
            },
        forall|caps: Seq<Seq<char>>, rules: Seq<Seq<char>>, c: Seq<Instruction>, m: bool, k: u32|
            #[trigger] bad_opcode_at(bytes@, caps, rules, c, m, k) ==> r == Err::<Program, Error>(
                Error::InvalidOpcode {
                    tag: bytes@[(enc_names(caps).len() + enc_names(rules).len() + 4 + concat_map(
                        c,
                        instr_fn(),
                    ).len()) as int],
                    position: (enc_names(caps).len() + enc_names(rules).len() + 4 + concat_map(
                        c,
                        instr_fn(),
                    ).len()) as usize,
                },
            ),
        r matches Ok(q) ==> q.code@.len() <= MAX_INSTRUCTION_COUNT && (derived_rule_count(q.code@) <= usize::MAX
            ==> q.rule_count == derived_rule_count(q.code@)),
{
    let res1 = read_names(bytes, 0, 0);
    let (capture_kinds, p1) = match res1 {
        Ok(x) => x,
        Err(e) => {
            proof {
                assert forall|p: Program|
                    #[trigger] prefix_at(bytes@, 0, program_bytes(p)) && encodable(p) && p.code@.len()
                        <= MAX_INSTRUCTION_COUNT implies false by {
                    lemma_program_split(bytes@, p);
                }
                assert forall|caps: Seq<Seq<char>>, rules: Seq<Seq<char>>, c: Seq<Instruction>, m: bool, k: u32|
                    #[trigger] bad_opcode_at(bytes@, caps, rules, c, m, k) implies false by {
                }
            }
            return Err(e);
        },
    };
    let res2 = read_names(bytes, p1, 1);
    let (rule_names, p2) = match res2 {
        Ok(x) => x,
        Err(e) => {
            proof {
                assert forall|p: Program|
                    #[trigger] prefix_at(bytes@, 0, program_bytes(p)) && encodable(p) && p.code@.len()
                        <= MAX_INSTRUCTION_COUNT implies false by {
                    lemma_program_split(bytes@, p);
                }
                assert forall|caps: Seq<Seq<char>>, rules: Seq<Seq<char>>, c: Seq<Instruction>, m: bool, k: u32|
                    #[trigger] bad_opcode_at(bytes@, caps, rules, c, m, k) implies false by {
                }
            }
            return Err(e);
        },
    };
    proof {
        assert forall|caps: Seq<Seq<char>>, rules: Seq<Seq<char>>, c: Seq<Instruction>, m: bool, k: u32|
            #[trigger] bad_opcode_at(bytes@, caps, rules, c, m, k) implies p2 == enc_names(caps).len()
            + enc_names(rules).len() && stream_at(bytes@, p2 as int, c, m, k) by {
        }
    }
    let res3 = read_instructions(bytes, p2);
    proof {
        assert forall|caps: Seq<Seq<char>>, rules: Seq<Seq<char>>, c: Seq<Instruction>, m: bool, k: u32|
            #[trigger] bad_opcode_at(bytes@, caps, rules, c, m, k) implies res3 == Err::<
            (Vec<Instruction>, usize, bool),
            Error,
        >(
            Error::InvalidOpcode {
                tag: bytes@[p2 + 4 + concat_map(c, instr_fn()).len()],
                position: (p2 + 4 + concat_map(c, instr_fn()).len()) as usize,
            },
        ) by {
            assert(bad_tag_after(bytes@, p2 as int, c));
        }
    }
    let (code, p3, marked) = match res3 {
        Ok(x) => x,
        Err(e) => {
            proof {
                assert forall|p: Program|
                    #[trigger] prefix_at(bytes@, 0, program_bytes(p)) && encodable(p) && p.code@.len()
                        <= MAX_INSTRUCTION_COUNT implies false by {
                    lemma_program_split(bytes@, p);
                }
            }
            return Err(e);
        },
    };
    let mut label_kinds: Vec<String> = Vec::new();
    let mut rule_is_ignore: Vec<bool> = Vec::new();
    let mut char_sets: Vec<CharSet> = Vec::new();
    let mut p6 = p3;
    if marked {
        let res4 = read_names(bytes, p3, 2);
        let (lk, p4) = match res4 {
            Ok(x) => x,
            Err(e) => {
                proof {
                    assert forall|p: Program|
                        #[trigger] prefix_at(bytes@, 0, program_bytes(p)) && encodable(p) && p.code@.len()
                            <= MAX_INSTRUCTION_COUNT implies false by {
                        lemma_program_split(bytes@, p);
                    }
                }
                return Err(e);
            },
        };
        let res5 = read_flags(bytes, p4);
        let (fl, p5) = match res5 {
            Ok(x) => x,
            Err(e) => {
                proof {
                    assert forall|p: Program|
                        #[trigger] prefix_at(bytes@, 0, program_bytes(p)) && encodable(p) && p.code@.len()
                            <= MAX_INSTRUCTION_COUNT implies false by {
                        lemma_program_split(bytes@, p);
                    }
                }
                return Err(e);
            },
        };
        let res6 = read_sets(bytes, p5);
        let (cs, q6) = match res6 {
            Ok(x) => x,
            Err(e) => {
                proof {
                    assert forall|p: Program|
                        #[trigger] prefix_at(bytes@, 0, program_bytes(p)) && encodable(p) && p.code@.len()
                            <= MAX_INSTRUCTION_COUNT implies false by {
                        lemma_program_split(bytes@, p);
                    }
                }
                return Err(e);
            },
        };
        label_kinds = lk;
        rule_is_ignore = fl;
        char_sets = cs;
        p6 = q6;
    }
    proof {
        assert forall|p: Program|
            #[trigger] prefix_at(bytes@, 0, program_bytes(p)) && encodable(p) && p.code@.len()
                <= MAX_INSTRUCTION_COUNT implies p6 == program_bytes(p).len() by {
            lemma_program_split(bytes@, p);
        }
    }
    if p6 != bytes.len() {
        return Err(Error::TrailingBytes { remaining: bytes.len() - p6 });
    }
    let rule_count = derive_rule_count(&code);
    let q = Program { code, capture_kinds, rule_count, rule_names, label_kinds, rule_is_ignore, char_sets };
    proof {
        assert forall|p: Program|
            #[trigger] prefix_at(bytes@, 0, program_bytes(p)) && encodable(p) && p.code@.len()
                <= MAX_INSTRUCTION_COUNT implies same_program(q, p) by {
            lemma_program_split(bytes@, p);
            if !has_extras(p) {
                assert(string_views(q.label_kinds@) =~= string_views(p.label_kinds@));
                assert(q.rule_is_ignore@ =~= p.rule_is_ignore@);
            }
            assert forall|i: int| 0 <= i < p.char_sets@.len() implies #[trigger] q.char_sets@[i]@ == p.char_sets@[i]@ by {
                assert(set_ranges(p.char_sets@)[i] == p.char_sets@[i].range_seq());
                assert(q.char_sets@[i]@ =~= p.char_sets@[i]@);
            }
        }
    }
    Ok(q)
}

} // verus!
