//! ANSI-colored syntax highlighting on top of [`crate::pegvm`].
//!
//! [`Highlighter`] compiles a grammar once, owns the current input, and
//! carries a [`MemoCache`] across edits, so a re-highlight after a small
//! change reuses the memo entries the edit did not touch.
//!
//! Rendering colors each byte by the innermost capture still open over
//! it and inserts color codes only where the color changes. The
//! renderer never reorders, drops or substitutes input bytes: stripping
//! the escape codes from [`Highlighter::highlight`] gives back the input,
//! also where the parse matched only a prefix of it.
pub mod theme;

use vstd::prelude::*;

use vstd::string::*;

use crate::pegb::string_from_utf8;
use crate::pegc::{self, CompileError, ParseError};
use crate::parser::seeded_after_edit;
use crate::pegvm::incremental::RecordView;
use crate::pegvm::vm::run_outcome;
use crate::pegvm::{Capture, Edit, MatchResult, MemoCache, MemoStats, Program, VM};
use crate::walk::{captures_fit, kind_at, starts_sorted, tiles, walk, Segment};
use theme::{color_bytes, color_for, reset, reset_bytes, same_bytes};

verus! {

/// What stripping ANSI escapes leaves of `s`, read from a state that is
/// inside an escape or not. An escape runs from `ESC` to the next `m`.
#[verifier::opaque]
pub open spec fn strip_from(s: Seq<u8>, in_escape: bool) -> Seq<u8>
    decreases s.len(),
{
    if s.len() == 0 {
        Seq::empty()
    } else if in_escape {
        strip_from(s.drop_first(), s[0] != 0x6du8)
    } else if s[0] == 0x1bu8 {
        strip_from(s.drop_first(), true)
    } else {
        seq![s[0]] + strip_from(s.drop_first(), false)
    }
}

/// `s` with its ANSI escape sequences removed.
pub open spec fn strip_ansi(s: Seq<u8>) -> Seq<u8> {
    strip_from(s, false)
}

/// `s` holds no `ESC` byte.
pub open spec fn escape_free(s: Seq<u8>) -> bool {
    forall|k: int| 0 <= k < s.len() ==> s[k] != 0x1bu8
}

/// `e` is one escape: `ESC`, then bytes other than `m`, then `m`.
pub open spec fn is_escape(e: Seq<u8>) -> bool {
    &&& e.len() >= 2
    &&& e[0] == 0x1bu8
    &&& e.last() == 0x6du8
    &&& forall|k: int| 0 < k < e.len() - 1 ==> e[k] != 0x6du8
}

/// The escape a segment is drawn in: that of its kind, none for plain bytes.
pub open spec fn segment_color(seg: Segment) -> Seq<u8> {
    match seg.kind {
        Some(k) => color_bytes(k@),
        None => Seq::empty(),
    }
}

/// What a move from color `current` to color `c` emits: nothing if they
/// agree, else a reset when a color was on, then the new color.
pub open spec fn switch_bytes(c: Seq<u8>, current: Seq<u8>) -> Seq<u8> {
    if c == current {
        Seq::empty()
    } else if current.len() > 0 {
        reset_bytes() + c
    } else {
        c
    }
}

/// The rendering of segments `i..` of `bytes` when `current` is the color
/// in force: each segment's color switch, then its bytes; a color still
/// on at the end is reset.
#[verifier::opaque]
pub open spec fn rendered(bytes: Seq<u8>, segs: Seq<Segment>, i: int, current: Seq<u8>) -> Seq<u8>
    decreases segs.len() - i,
{
    if i < 0 || i >= segs.len() {
        if current.len() > 0 {
            reset_bytes()
        } else {
            Seq::empty()
        }
    } else {
        let c = segment_color(segs[i]);
        switch_bytes(c, current) + bytes.subrange(segs[i].start as int, segs[i].end as int)
            + rendered(bytes, segs, i + 1, c)
    }
}

/// Bytes free of `ESC` pass through stripping unchanged.
proof fn lemma_strip_text(t: Seq<u8>, rest: Seq<u8>)
    requires
        escape_free(t),
    ensures
        strip_from(t + rest, false) == t + strip_from(rest, false),
    decreases t.len(),
{
    reveal(strip_from);
    if t.len() == 0 {
        assert(t + rest =~= rest);
        assert(t + strip_from(rest, false) =~= strip_from(rest, false));
    } else {
        let tail = t.drop_first();
        assert((t + rest).drop_first() =~= tail + rest);
        lemma_strip_text(tail, rest);
        assert(t + strip_from(rest, false) =~= seq![t[0]] + (tail + strip_from(rest, false)));
    }
}

/// Inside an escape, everything up to and including the closing `m` goes.
proof fn lemma_strip_escape_tail(u: Seq<u8>, rest: Seq<u8>)
    requires
        u.len() >= 1,
        u.last() == 0x6du8,
        forall|k: int| 0 <= k < u.len() - 1 ==> u[k] != 0x6du8,
    ensures
        strip_from(u + rest, true) == strip_from(rest, false),
    decreases u.len(),
{
    reveal(strip_from);
    assert((u + rest).drop_first() =~= u.drop_first() + rest);
    if u.len() == 1 {
        assert(u.drop_first() + rest =~= rest);
    } else {
        lemma_strip_escape_tail(u.drop_first(), rest);
    }
}

/// An escape vanishes under stripping.
proof fn lemma_strip_escape(e: Seq<u8>, rest: Seq<u8>)
    requires
        is_escape(e),
    ensures
        strip_from(e + rest, false) == strip_from(rest, false),
{
    reveal(strip_from);
    assert((e + rest).drop_first() =~= e.drop_first() + rest);
    lemma_strip_escape_tail(e.drop_first(), rest);
}

/// Every color is an escape or empty, and so is the reset.
proof fn lemma_colors_are_escapes(kind: Seq<char>)
    ensures
        color_bytes(kind).len() == 0 || is_escape(color_bytes(kind)),
        is_escape(reset_bytes()),
{
    reveal(color_bytes);
    let c = color_bytes(kind);
    if c.len() > 0 {
        assert(is_escape(c));
    }
    assert(is_escape(reset_bytes()));
}

/// A color switch followed by `rest` strips to what `rest` strips to.
proof fn lemma_strip_switch(c: Seq<u8>, current: Seq<u8>, rest: Seq<u8>)
    requires
        c.len() == 0 || is_escape(c),
    ensures
        strip_from(switch_bytes(c, current) + rest, false) == strip_from(rest, false),
{
    lemma_colors_are_escapes(Seq::empty());
    let sw = switch_bytes(c, current);
    if c.len() == 0 && current.len() == 0 {
        assert(c =~= current);
    }
    if c == current {
        assert(sw + rest =~= rest);
    } else if current.len() > 0 {
        assert(sw + rest =~= reset_bytes() + (c + rest));
        lemma_strip_escape(reset_bytes(), c + rest);
        if c.len() > 0 {
            lemma_strip_escape(c, rest);
        } else {
            assert(c + rest =~= rest);
        }
    } else {
        lemma_strip_escape(c, rest);
    }
}

/// [`tiles`], kept folded so that its quantifiers stay out of larger proofs.
#[verifier::opaque]
spec fn tiled(segs: Seq<Segment>, len: nat) -> bool {
    tiles(segs, len)
}

/// What tiling says of segment `i`: it is non-empty, inside the bytes,
/// and followed by the next segment or the end.
proof fn lemma_tiled_at(segs: Seq<Segment>, len: nat, i: int)
    requires
        tiled(segs, len),
        0 <= i < segs.len(),
    ensures
        segs[i].start < segs[i].end <= len,
        i + 1 < segs.len() ==> segs[i + 1].start == segs[i].end,
        i + 1 == segs.len() ==> segs[i].end == len,
        i == 0 ==> segs[i].start == 0,
{
    reveal(tiled);
    lemma_segment_in_bounds(segs, len, i);
}

/// Stripping the rendering of segments `i..` gives back the bytes they cover.
proof fn lemma_strip_rendered(bytes: Seq<u8>, segs: Seq<Segment>, i: int, current: Seq<u8>)
    requires
        tiled(segs, bytes.len()),
        escape_free(bytes),
        0 <= i <= segs.len(),
    ensures
        strip_ansi(rendered(bytes, segs, i, current)) == (if i < segs.len() {
            bytes.subrange(segs[i].start as int, bytes.len() as int)
        } else {
            Seq::<u8>::empty()
        }),
    decreases segs.len() - i,
{
    lemma_colors_are_escapes(Seq::empty());
    if i == segs.len() {
        reveal(rendered);
        reveal(strip_from);
        if current.len() > 0 {
            lemma_strip_escape(reset_bytes(), Seq::empty());
            assert(reset_bytes() + Seq::<u8>::empty() =~= reset_bytes());
        }
    } else {
        let seg = segs[i];
        let c = segment_color(seg);
        match seg.kind {
            Some(k) => lemma_colors_are_escapes(k@),
            None => {},
        }
        lemma_tiled_at(segs, bytes.len(), i);
        let text = bytes.subrange(seg.start as int, seg.end as int);
        let rest = rendered(bytes, segs, i + 1, c);
        let sw = switch_bytes(c, current);
        assert(rendered(bytes, segs, i, current) == sw + text + rest) by {
            reveal(rendered);
        }
        assert(sw + text + rest =~= sw + (text + rest));
        lemma_strip_switch(c, current, text + rest);
        assert(escape_free(text));
        lemma_strip_text(text, rest);
        lemma_strip_rendered(bytes, segs, i + 1, c);
        assert(text + strip_ansi(rest) =~= bytes.subrange(seg.start as int, bytes.len() as int));
    }
}

/// The color a segment is drawn in.
fn color_of_segment(seg: &Segment) -> (c: &'static str)
    ensures
        c.spec_bytes() == segment_color(*seg),
{
    match &seg.kind {
        Some(k) => color_for(k.as_str()),
        None => {
            let s = "";
            proof {
                reveal_strlit("");
                assert(s.spec_bytes() =~= Seq::<u8>::empty());
            }
            s
        },
    }
}

/// Emit the switch from color `current` to color `c`; `c` is then in force.
fn push_switch(out: &mut Vec<u8>, c: &'static str, current: &'static str) -> (now: &'static str)
    ensures
        final(out)@ == old(out)@ + switch_bytes(c.spec_bytes(), current.spec_bytes()),
        now.spec_bytes() == c.spec_bytes(),
{
    if same_bytes(c.as_bytes(), current.as_bytes()) {
        assert(old(out)@ + Seq::<u8>::empty() =~= old(out)@);
        current
    } else {
        if current.as_bytes().len() > 0 {
            push_str_bytes(out, reset());
        }
        push_str_bytes(out, c);
        assert(out@ =~= old(out)@ + switch_bytes(c.spec_bytes(), current.spec_bytes()));
        c
    }
}

/// Append `bytes[from..to]` to `out`.
fn push_range(out: &mut Vec<u8>, bytes: &[u8], from: usize, to: usize)
    requires
        from <= to <= bytes@.len(),
    ensures
        final(out)@ == old(out)@ + bytes@.subrange(from as int, to as int),
{
    let mut k = from;
    while k < to
        invariant
            from <= k <= to,
            to <= bytes@.len(),
            out@ == old(out)@ + bytes@.subrange(from as int, k as int),
        decreases to - k,
    {
        out.push(bytes[k]);
        k += 1;
        assert(bytes@.subrange(from as int, k as int) =~= bytes@.subrange(from as int, k - 1).push(
            bytes@[k - 1],
        ));
    }
}

/// Append the bytes of `s` to `out`.
fn push_str_bytes(out: &mut Vec<u8>, s: &str)
    ensures
        final(out)@ == old(out)@ + s.spec_bytes(),
{
    let b = s.as_bytes();
    push_range(out, b, 0, b.len());
    assert(b@.subrange(0, b@.len() as int) =~= b@);
}

/// Render the segments of `bytes`, inserting a color code wherever the
/// color changes.
pub fn render_segments(bytes: &[u8], segs: &Vec<Segment>) -> (out: Vec<u8>)
    requires
        tiles(segs@, bytes@.len()),
    ensures
        out@ == rendered(bytes@, segs@, 0, Seq::empty()),
{
    let mut out: Vec<u8> = Vec::new();
    let mut current: &'static str = "";
    proof {
        reveal_strlit("");
        assert(current.spec_bytes() =~= Seq::<u8>::empty());
    }
    assert(tiled(segs@, bytes@.len())) by {
        reveal(tiled);
    }
    let mut i: usize = 0;
    while i < segs.len()
        invariant
            tiled(segs@, bytes@.len()),
            i <= segs@.len(),
            out@ + rendered(bytes@, segs@, i as int, current.spec_bytes()) == rendered(
                bytes@,
                segs@,
                0,
                Seq::empty(),
            ),
        decreases segs.len() - i,
    {
        let ghost before = out@;
        let ghost cur = current.spec_bytes();
        let seg = &segs[i];
        let c = color_of_segment(seg);
        current = push_switch(&mut out, c, current);
        proof {
            lemma_tiled_at(segs@, bytes@.len(), i as int);
        }
        push_range(&mut out, bytes, seg.start, seg.end);
        proof {
            let sw = switch_bytes(segment_color(*seg), cur);
            let text = bytes@.subrange(seg.start as int, seg.end as int);
            let rest = rendered(bytes@, segs@, i + 1, current.spec_bytes());
            assert(rendered(bytes@, segs@, i as int, cur) == sw + text + rest) by {
                reveal(rendered);
            }
            assert(out@ + rest =~= before + (sw + text + rest));
        }
        i += 1;
    }
    let ghost pre = out@;
    if current.as_bytes().len() > 0 {
        push_str_bytes(&mut out, reset());
    }
    assert(out@ =~= pre + rendered(bytes@, segs@, segs@.len() as int, current.spec_bytes())) by {
        reveal(rendered);
    }
    out
}

/// Segments lie inside the bytes they tile.
proof fn lemma_segment_in_bounds(segs: Seq<Segment>, len: nat, i: int)
    requires
        tiles(segs, len),
        0 <= i < segs.len(),
    ensures
        segs[i].end <= len,
    decreases segs.len() - i,
{
    if i + 1 < segs.len() {
        lemma_segment_in_bounds(segs, len, i + 1);
        assert(segs[i + 1].start == segs[i].end);
    }
}

/// Every capture names a known kind and ends inside the input.
fn captures_in_bounds(captures: &[Capture], kinds_len: usize, len: usize) -> (r: bool)
    ensures
        r == captures_fit(captures@, kinds_len as nat, len as nat),
{
    let mut i: usize = 0;
    while i < captures.len()
        invariant
            i <= captures@.len(),
            forall|k: int|
                0 <= k < i ==> (#[trigger] captures@[k]).kind.0 < kinds_len && captures@[k].start
                    <= captures@[k].end <= len,
        decreases captures.len() - i,
    {
        let c = captures[i];
        if !((c.kind.0 as usize) < kinds_len && c.start <= c.end && c.end <= len) {
            return false;
        }
        i += 1;
    }
    true
}


/// The color of byte `p`: that of its capture kind, none for a byte no
/// capture covers.
pub open spec fn color_at(caps: Seq<Capture>, kinds: Seq<String>, p: int) -> Seq<u8> {
    match kind_at(caps, kinds, p) {
        Some(k) => color_bytes(k@),
        None => Seq::empty(),
    }
}

/// The bytes from `p` on, each preceded by a color switch where its color
/// differs from the one in force (`current`); a color still on at the end
/// is reset.
#[verifier::opaque]
pub open spec fn painted(bytes: Seq<u8>, caps: Seq<Capture>, kinds: Seq<String>, p: int, current: Seq<u8>) -> Seq<u8>
    decreases bytes.len() - p,
{
    if p < 0 || p >= bytes.len() {
        if current.len() > 0 {
            reset_bytes()
        } else {
            Seq::empty()
        }
    } else {
        let c = color_at(caps, kinds, p);
        switch_bytes(c, current) + seq![bytes[p]] + painted(bytes, caps, kinds, p + 1, c)
    }
}

/// Inside a run of bytes of color `c`, painting with `c` in force only
/// copies the bytes.
proof fn lemma_painted_run(bytes: Seq<u8>, caps: Seq<Capture>, kinds: Seq<String>, q: int, end: int, c: Seq<u8>)
    requires
        0 <= q <= end <= bytes.len(),
        forall|p: int| q <= p < end ==> #[trigger] color_at(caps, kinds, p) == c,
    ensures
        painted(bytes, caps, kinds, q, c) == bytes.subrange(q, end) + painted(bytes, caps, kinds, end, c),
    decreases end - q,
{
    if q < end {
        lemma_painted_run(bytes, caps, kinds, q + 1, end, c);
        reveal(painted);
        assert(color_at(caps, kinds, q) == c);
        assert(bytes.subrange(q, end) =~= seq![bytes[q]] + bytes.subrange(q + 1, end));
        assert(painted(bytes, caps, kinds, q, c) =~= bytes.subrange(q, end) + painted(bytes, caps, kinds, end, c));
    } else {
        assert(bytes.subrange(q, end) =~= Seq::<u8>::empty());
        assert(painted(bytes, caps, kinds, q, c) =~= bytes.subrange(q, end) + painted(bytes, caps, kinds, end, c));
    }
}

/// Rendering exact segments from segment `i` on is painting from its
/// first byte.
proof fn lemma_rendered_painted(bytes: Seq<u8>, segs: Seq<Segment>, caps: Seq<Capture>, kinds: Seq<String>, i: int, current: Seq<u8>)
    requires
        tiled(segs, bytes.len()),
        crate::walk::kinds_exact(segs, caps, kinds),
        0 <= i <= segs.len(),
    ensures
        rendered(bytes, segs, i, current) == painted(
            bytes,
            caps,
            kinds,
            if i < segs.len() {
                segs[i].start as int
            } else {
                bytes.len() as int
            },
            current,
        ),
    decreases segs.len() - i,
{
    if i < segs.len() {
        lemma_tiled_at(segs, bytes.len(), i);
        let seg = segs[i];
        let c = segment_color(seg);
        assert(crate::walk::segment_exact(segs, i, caps, kinds));
        assert forall|p: int| seg.start <= p < seg.end implies #[trigger] color_at(caps, kinds, p) == c by {
            assert(seg.kind == kind_at(caps, kinds, p));
        }
        lemma_rendered_painted(bytes, segs, caps, kinds, i + 1, c);
        lemma_painted_run(bytes, caps, kinds, seg.start + 1, seg.end as int, c);
        reveal(rendered);
        reveal(painted);
        assert(color_at(caps, kinds, seg.start as int) == c);
        let next = if i + 1 < segs.len() {
            segs[i + 1].start as int
        } else {
            bytes.len() as int
        };
        assert(next == seg.end);
        assert(bytes.subrange(seg.start as int, seg.end as int) =~= seq![bytes[seg.start as int]] + bytes.subrange(
            seg.start + 1,
            seg.end as int,
        ));
        assert(rendered(bytes, segs, i, current) =~= painted(bytes, caps, kinds, seg.start as int, current));
    } else {
        reveal(rendered);
        reveal(painted);
    }
}

/// Render `input` with the colors of `captures`; captures that do not fit
/// the input, or color codes that would split a character, leave the
/// input plain. Stripping the escapes always gives back `input`.
pub fn render(input: &str, captures: &[Capture], capture_kinds: &[String]) -> (out: String)
    ensures
        escape_free(input.spec_bytes()) ==> strip_ansi(vstd::utf8::encode_utf8(out@)) == input.spec_bytes(),
        !captures_fit(captures@, capture_kinds@.len(), input.spec_bytes().len()) ==> out@ == input@,
        captures_fit(captures@, capture_kinds@.len(), input.spec_bytes().len()) && starts_sorted(captures@) ==> {
            let p = painted(input.spec_bytes(), captures@, capture_kinds@, 0, Seq::empty());
            &&& vstd::utf8::valid_utf8(p) ==> vstd::utf8::encode_utf8(out@) == p
            &&& !vstd::utf8::valid_utf8(p) ==> out@ == input@
        },
{
    let bytes = input.as_bytes();
    proof {
        if escape_free(bytes@) {
            lemma_strip_text(bytes@, Seq::empty());
            assert(bytes@ + Seq::<u8>::empty() =~= bytes@);
            assert(bytes@ + strip_from(Seq::<u8>::empty(), false) =~= bytes@) by {
                reveal(strip_from);
            }
        }
    }
    if !captures_in_bounds(captures, capture_kinds.len(), bytes.len()) {
        return input.to_owned();
    }
    let segs = walk(input, captures, capture_kinds);
    let out = render_segments(bytes, &segs);
    proof {
        if starts_sorted(captures@) {
            assert(tiled(segs@, bytes@.len())) by {
                reveal(tiled);
            }
            lemma_rendered_painted(bytes@, segs@, captures@, capture_kinds@, 0, Seq::empty());
            if segs@.len() > 0 {
                lemma_tiled_at(segs@, bytes@.len(), 0);
            }
            assert(out@ == painted(bytes@, captures@, capture_kinds@, 0, Seq::empty()));
        }
    }
    proof {
        if escape_free(bytes@) {
            assert(tiled(segs@, bytes@.len())) by {
                reveal(tiled);
            }
            lemma_strip_rendered(bytes@, segs@, 0, Seq::empty());
            if segs@.len() > 0 {
                assert(bytes@.subrange(0, bytes@.len() as int) =~= bytes@);
            }
        }
    }
    match string_from_utf8(&out) {
        Ok(s) => {
            proof {
                vstd::utf8::decode_utf8_encode_utf8(out@);
            }
            s
        },
        Err(_) => input.to_owned(),
    }
}

/// Failure of [`Highlighter::new`].
#[derive(Debug)]
pub enum HighlightError {
    Parse(ParseError),
    Compile(CompileError),
}

/// Stateful, always-incremental highlighter: the compiled program, the
/// current input, the memo cache carried across edits, and the captures
/// of the latest parse. Every mutating method re-parses; the read
/// methods never do.
pub struct Highlighter {
    program: Program,
    input: String,
    cache: MemoCache,
    matched: usize,
    captures: Vec<Capture>,
    last_stats: MemoStats,
}

/// `bytes` with `bytes[start..old_end]` replaced by `replacement`.
pub open spec fn spliced(bytes: Seq<u8>, start: int, old_end: int, replacement: Seq<u8>) -> Seq<u8> {
    bytes.subrange(0, start) + replacement + bytes.subrange(old_end, bytes.len() as int)
}

/// The string whose UTF-8 bytes are `bytes`.
fn string_of(bytes: &Vec<u8>) -> (s: String)
    requires
        vstd::utf8::valid_utf8(bytes@),
    ensures
        vstd::utf8::encode_utf8(s@) == bytes@,
{
    let r = string_from_utf8(bytes.as_slice());
    proof {
        vstd::utf8::decode_utf8_encode_utf8(bytes@);
    }
    r.unwrap()
}

impl Highlighter {
    /// The current input.
    pub closed spec fn text(&self) -> Seq<char> {
        self.input@
    }

    /// The UTF-8 bytes of the current input.
    pub open spec fn text_bytes(&self) -> Seq<u8> {
        vstd::utf8::encode_utf8(self.text())
    }

    /// How far the latest parse matched.
    pub closed spec fn matched_len(&self) -> usize {
        self.matched
    }

    /// The captures of the latest parse.
    pub closed spec fn capture_seq(&self) -> Seq<Capture> {
        self.captures@
    }

    /// The compiled program.
    pub closed spec fn program(&self) -> Program {
        self.program
    }

    /// The memo records carried into the next parse.
    pub closed spec fn memo_records(&self) -> Seq<RecordView> {
        self.cache.view()
    }

    /// `self` holds the outcome of one run of `program` over `text` that
    /// starts from the memo records `memo`: the match length, captures,
    /// statistics and memo records carried on are those of the run.
    pub open spec fn holds_run(&self, program: Program, text: Seq<u8>, memo: Seq<RecordView>) -> bool {
        exists|r: (MatchResult, MemoStats, MemoCache)|
            #[trigger] run_outcome(program, text, memo, false, r) && self.matched_len() == r.0.matched
                && self.capture_seq() == r.0.captures@ && self.stats() == r.1 && self.memo_records()
                == r.2.view()
    }

    /// The capture-kind names of the compiled program.
    pub closed spec fn kinds(&self) -> Seq<String> {
        self.program.capture_kinds@
    }

    /// The memo statistics of the latest parse.
    pub closed spec fn stats(&self) -> MemoStats {
        self.last_stats
    }

    /// The latest parse matched a prefix of the input, and the recorded
    /// entry count is the size of the carried cache.
    pub closed spec fn wf(&self) -> bool {
        &&& self.matched <= self.text_bytes().len()
        &&& self.last_stats.entries == self.cache@.len()
    }

    /// Compile `grammar_source`; the highlighter starts with empty input.
    pub fn new(grammar_source: &str) -> (r: Result<Self, HighlightError>)
        requires
            grammar_source.spec_bytes().len() < usize::MAX,
        ensures
            r matches Err(HighlightError::Parse(e)) ==> pegc::parser::located(
                e,
                grammar_source.spec_bytes(),
            ),
            !(r matches Err(HighlightError::Compile(CompileError::UnknownStartRule(_)))),
            r matches Ok(h) ==> {
                &&& h.wf()
                &&& h.text() == Seq::<char>::empty()
                &&& h.matched_len() == 0
                &&& h.capture_seq().len() == 0
                &&& h.stats() == (MemoStats { entries: 0, hits: 0, misses: 0 })
                &&& h.memo_records().len() == 0
            },
    {
        let program = match pegc::compile(grammar_source) {
            Ok(p) => p,
            Err(pegc::Error::Parse(e)) => return Err(HighlightError::Parse(e)),
            Err(pegc::Error::Compile(e)) => return Err(HighlightError::Compile(e)),
        };
        let input = String::new();
        proof {
            assert(vstd::utf8::encode_utf8(input@) =~= Seq::<u8>::empty());
        }
        Ok(Highlighter {
            program,
            input,
            cache: MemoCache::new(),
            matched: 0,
            captures: Vec::new(),
            last_stats: MemoStats { entries: 0, hits: 0, misses: 0 },
        })
    }

    /// Replace the whole input and parse it cold: the carried cache is
    /// dropped.
    pub fn set_input(&mut self, input: String)
        ensures
            final(self).wf(),
            final(self).text() == input@,
            final(self).kinds() == old(self).kinds(),
            final(self).program() == old(self).program(),
            final(self).holds_run(old(self).program(), final(self).text_bytes(), Seq::empty()),
    {
        self.input = input;
        self.cache = MemoCache::new();
        self.reparse();
    }

    /// Replace `input[start..old_end]` with `replacement` and re-parse
    /// incrementally: cache entries whose examined span crosses the edit
    /// are dropped, the rest are shifted to the new offsets.
    pub fn edit(&mut self, start: usize, old_end: usize, replacement: &str)
        requires
            start <= old_end <= old(self).text_bytes().len(),
            vstd::utf8::is_char_boundary(old(self).text_bytes(), start as int),
            vstd::utf8::is_char_boundary(old(self).text_bytes(), old_end as int),
            old(self).text_bytes().len() + replacement.spec_bytes().len() <= usize::MAX,
        ensures
            final(self).wf(),
            final(self).text_bytes() == spliced(
                old(self).text_bytes(),
                start as int,
                old_end as int,
                replacement.spec_bytes(),
            ),
            final(self).kinds() == old(self).kinds(),
            final(self).program() == old(self).program(),
            final(self).holds_run(
                old(self).program(),
                final(self).text_bytes(),
                seeded_after_edit(old(self).memo_records(), start, old_end, replacement.spec_bytes().len() as usize),
            ),
    {
        let b = self.input.as_str().as_bytes();
        let ghost old_bytes = b@;
        let mut v: Vec<u8> = Vec::new();
        push_range(&mut v, b, 0, start);
        push_str_bytes(&mut v, replacement);
        push_range(&mut v, b, old_end, b.len());
        proof {
            vstd::utf8::encode_utf8_valid_utf8(self.input@);
            vstd::utf8::encode_utf8_valid_utf8(replacement@);
            vstd::utf8::valid_utf8_split(old_bytes, start as int);
            vstd::utf8::valid_utf8_split(old_bytes, old_end as int);
            let pre = old_bytes.subrange(0, start as int);
            let post = old_bytes.subrange(old_end as int, old_bytes.len() as int);
            vstd::utf8::valid_utf8_concat(pre, replacement.spec_bytes());
            vstd::utf8::valid_utf8_concat(pre + replacement.spec_bytes(), post);
            assert(v@ =~= pre + replacement.spec_bytes() + post);
        }
        let edit = Edit::replacement(start, old_end, replacement.as_bytes().len());
        self.input = string_of(&v);
        self.cache.apply_edit(edit);
        self.reparse();
    }

    /// Streaming append: an edit at the end of the input.
    pub fn append(&mut self, text: &str)
        requires
            old(self).text_bytes().len() + text.spec_bytes().len() <= usize::MAX,
        ensures
            final(self).wf(),
            final(self).text_bytes() == old(self).text_bytes() + text.spec_bytes(),
            final(self).kinds() == old(self).kinds(),
            final(self).program() == old(self).program(),
            final(self).holds_run(
                old(self).program(),
                final(self).text_bytes(),
                seeded_after_edit(
                    old(self).memo_records(),
                    old(self).text_bytes().len() as usize,
                    old(self).text_bytes().len() as usize,
                    text.spec_bytes().len() as usize,
                ),
            ),
    {
        let at = self.input.as_str().as_bytes().len();
        proof {
            vstd::utf8::encode_utf8_valid_utf8(self.text());
            vstd::utf8::is_char_boundary_start_end_of_seq(self.text_bytes());
        }
        self.edit(at, at, text);
        assert(spliced(old(self).text_bytes(), at as int, at as int, text.spec_bytes())
            =~= old(self).text_bytes() + text.spec_bytes());
    }

    /// The current input.
    pub fn input(&self) -> (s: &str)
        ensures
            s@ == self.text(),
    {
        self.input.as_str()
    }

    /// The captures of the latest parse, with how far it matched. After a
    /// partial match they are the spans valid at the farthest position.
    pub fn captures(&self) -> (r: (usize, &[Capture]))
        ensures
            r.0 == self.matched_len(),
            r.1@ == self.capture_seq(),
    {
        (self.matched, self.captures.as_slice())
    }

    /// The capture-kind names of the compiled program.
    pub fn capture_kinds(&self) -> (r: &[String])
        ensures
            r@ == self.kinds(),
    {
        self.program.capture_kinds.as_slice()
    }

    /// The input with ANSI colors. Stripping the escapes gives back the
    /// input, whatever the parse matched.
    pub fn highlight(&self) -> (out: String)
        ensures
            escape_free(self.text_bytes()) ==> strip_ansi(vstd::utf8::encode_utf8(out@))
                == self.text_bytes(),
            !captures_fit(self.capture_seq(), self.kinds().len(), self.text_bytes().len()) ==> out@ == self.text(),
            captures_fit(self.capture_seq(), self.kinds().len(), self.text_bytes().len()) && starts_sorted(
                self.capture_seq(),
            ) ==> {
                let p = painted(self.text_bytes(), self.capture_seq(), self.kinds(), 0, Seq::empty());
                &&& vstd::utf8::valid_utf8(p) ==> vstd::utf8::encode_utf8(out@) == p
                &&& !vstd::utf8::valid_utf8(p) ==> out@ == self.text()
            },
    {
        render(self.input.as_str(), self.captures.as_slice(), self.program.capture_kinds.as_slice())
    }

    /// Memo statistics of the latest parse.
    pub fn last_stats(&self) -> (s: MemoStats)
        ensures
            s == self.stats(),
    {
        self.last_stats
    }

    /// Parse the current input, seeding the VM with the carried cache.
    fn reparse(&mut self)
        ensures
            final(self).wf(),
            final(self).text() == old(self).text(),
            final(self).kinds() == old(self).kinds(),
            final(self).program() == old(self).program(),
            final(self).holds_run(old(self).program(), old(self).text_bytes(), old(self).memo_records()),
    {
        let mut seeded = MemoCache::new();
        std::mem::swap(&mut seeded, &mut self.cache);
        let bytes = self.input.as_str().as_bytes();
        let vm = VM::new_with_cache(&self.program, bytes, seeded);
        let (result, stats, cache_after) = vm.run_with_cache();
        assert(run_outcome(self.program, bytes@, old(self).cache.view(), false, (result, stats, cache_after)));
        self.cache = cache_after;
        self.matched = result.matched;
        self.captures = result.captures;
        self.last_stats = stats;
    }
}

} // verus!
