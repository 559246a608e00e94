//! What the grammar tools print: JSON string literals, capture rows with
//! their nesting depth, and recovery diagnostics grouped by span.
use vstd::prelude::*;

use vstd::string::*;

use crate::pegvm::charset::string_from_chars;
use crate::pegvm::vm::RecoveryDiagnostic;
use crate::pegvm::Capture;
use crate::pegvm::Program;
use crate::pegvm::CharSet;
use crate::pegc::follow::{FollowElement, FollowSet};
use crate::pegc::analysis::{index_of, lemma_index_of};
use crate::pegc::order::{chars_less, lemma_chars_less_irrefl, lemma_chars_less_trans, name_less};

verus! {

/// The lower-case hex digit of `v`.
pub open spec fn lower_hex(v: int) -> char {
    if v < 10 {
        ((v + 48) as u8) as char
    } else {
        ((v + 87) as u8) as char
    }
}

/// A character as it stands inside a JSON string literal: quote and
/// backslash escaped, the usual control characters by name, other
/// control characters and DEL as `\u00XX`.
pub open spec fn json_char(c: char) -> Seq<char> {
    if c == '"' {
        seq!['\\', '"']
    } else if c == '\\' {
        seq!['\\', '\\']
    } else if c == '\n' {
        seq!['\\', 'n']
    } else if c == '\r' {
        seq!['\\', 'r']
    } else if c == '\t' {
        seq!['\\', 't']
    } else if c == '\x08' {
        seq!['\\', 'b']
    } else if c == '\x0c' {
        seq!['\\', 'f']
    } else if (c as u32) < 0x20 || c == '\x7f' {
        seq!['\\', 'u', '0', '0', lower_hex((c as u32) as int / 16), lower_hex((c as u32) as int % 16)]
    } else {
        seq![c]
    }
}

/// The characters of `s`, each as it stands inside a JSON string literal.
pub open spec fn json_chars(s: Seq<char>) -> Seq<char>
    decreases s.len(),
{
    if s.len() == 0 {
        Seq::empty()
    } else {
        json_chars(s.drop_last()) + json_char(s.last())
    }
}

/// `s` as a JSON string literal, quotes included.
pub open spec fn json_quoted(s: Seq<char>) -> Seq<char> {
    seq!['"'] + json_chars(s) + seq!['"']
}

pub(crate) fn hex_char(v: u32) -> (c: char)
    requires
        v < 16,
    ensures
        c == lower_hex(v as int),
{
    if v < 10 {
        ((v + 48) as u8) as char
    } else {
        ((v + 87) as u8) as char
    }
}

/// Append `c` as it stands inside a JSON string literal.
fn push_json_char(out: &mut Vec<char>, c: char)
    ensures
        final(out)@ == old(out)@ + json_char(c),
{
    let ghost before = out@;
    if c == '"' {
        out.push('\\');
        out.push('"');
    } else if c == '\\' {
        out.push('\\');
        out.push('\\');
    } else if c == '\n' {
        out.push('\\');
        out.push('n');
    } else if c == '\r' {
        out.push('\\');
        out.push('r');
    } else if c == '\t' {
        out.push('\\');
        out.push('t');
    } else if c == '\x08' {
        out.push('\\');
        out.push('b');
    } else if c == '\x0c' {
        out.push('\\');
        out.push('f');
    } else if (c as u32) < 0x20 || c == '\x7f' {
        let v = c as u32;
        out.push('\\');
        out.push('u');
        out.push('0');
        out.push('0');
        out.push(hex_char(v / 16));
        out.push(hex_char(v % 16));
    } else {
        out.push(c);
    }
    assert(out@ =~= before + json_char(c));
}

/// Append the characters of `s`.
pub(crate) fn push_text(out: &mut Vec<char>, s: &str)
    ensures
        final(out)@ == old(out)@ + s@,
{
    let n = s.unicode_len();
    let ghost start = out@;
    let mut i: usize = 0;
    while i < n
        invariant
            i <= n,
            n == s@.len(),
            out@ == start + s@.take(i as int),
        decreases n - i,
    {
        out.push(s.get_char(i));
        i += 1;
        assert(s@.take(i as int) =~= s@.take(i - 1).push(s@[i - 1]));
    }
    assert(s@.take(n as int) =~= s@);
}

/// Append `s` as a JSON string literal.
fn push_json_string(out: &mut Vec<char>, s: &str)
    ensures
        final(out)@ == old(out)@ + json_quoted(s@),
{
    let ghost start = out@;
    out.push('"');
    let n = s.unicode_len();
    let mut i: usize = 0;
    while i < n
        invariant
            i <= n,
            n == s@.len(),
            out@ == start + seq!['"'] + json_chars(s@.take(i as int)),
        decreases n - i,
    {
        push_json_char(out, s.get_char(i));
        i += 1;
        proof {
            let t = s@.take(i as int);
            assert(t.drop_last() =~= s@.take(i - 1));
            assert(t.last() == s@[i - 1]);
        }
    }
    out.push('"');
    assert(s@.take(n as int) =~= s@);
    assert(out@ =~= start + json_quoted(s@));
}

/// Encode `s` as a JSON string literal: quotes around it, control
/// characters escaped, and `ESC` too, so capture text cannot inject
/// terminal colors.
pub fn json_string(s: &str) -> (r: String)
    ensures
        r@ == json_quoted(s@),
{
    let mut out: Vec<char> = Vec::new();
    push_json_string(&mut out, s);
    assert(out@ =~= json_quoted(s@));
    string_from_chars(&out)
}

/// The decimal digits of `n`.
pub open spec fn decimal(n: nat) -> Seq<char>
    decreases n,
{
    if n < 10 {
        seq![((n + 48) as u8) as char]
    } else {
        decimal(n / 10) + seq![(((n % 10) + 48) as u8) as char]
    }
}

/// Append the decimal digits of `n`.
pub(crate) fn push_decimal(out: &mut Vec<char>, n: usize)
    ensures
        final(out)@ == old(out)@ + decimal(n as nat),
    decreases n,
{
    let ghost before = out@;
    if n >= 10 {
        push_decimal(out, n / 10);
    }
    out.push(((n % 10) as u8 + 48) as char);
    proof {
        if n < 10 {
            assert(out@ =~= before + decimal(n as nat));
        } else {
            assert(out@ =~= before + decimal(n as nat));
        }
    }
}

/// The names of the rule ids that have one, in order.
pub open spec fn stack_names(ids: Seq<crate::pegvm::MemoId>, names: Seq<String>) -> Seq<Seq<char>>
    decreases ids.len(),
{
    if ids.len() == 0 {
        Seq::empty()
    } else {
        let rest = stack_names(ids.drop_last(), names);
        let id = ids.last().0 as int;
        if id < names.len() {
            rest.push(names[id]@)
        } else {
            rest
        }
    }
}

/// The names as JSON string literals, comma separated.
pub open spec fn quoted_list(ns: Seq<Seq<char>>) -> Seq<char>
    decreases ns.len(),
{
    if ns.len() == 0 {
        Seq::empty()
    } else if ns.len() == 1 {
        json_quoted(ns[0])
    } else {
        quoted_list(ns.drop_last()) + seq![','] + json_quoted(ns.last())
    }
}

/// `{"pos":N,"rule_stack":[...]}` for a recovery diagnostic; rule ids
/// without a name are left out.
pub open spec fn farthest_text(pos: usize, ids: Seq<crate::pegvm::MemoId>, names: Seq<String>) -> Seq<char> {
    "{\"pos\":"@ + decimal(pos as nat) + ",\"rule_stack\":["@ + quoted_list(stack_names(ids, names)) + "]}"@
}

/// Format a recovery diagnostic as the JSON object of a `farthest_reach`
/// field.
pub fn format_farthest_reach(reach: &RecoveryDiagnostic, rule_names: &[String]) -> (r: String)
    ensures
        r@ == farthest_text(reach.position, reach.rule_stack@, rule_names@),
{
    let mut out: Vec<char> = Vec::new();
    push_text(&mut out, "{\"pos\":");
    push_decimal(&mut out, reach.position);
    push_text(&mut out, ",\"rule_stack\":[");
    let ghost head = out@;
    let ids = &reach.rule_stack;
    let mut first = true;
    let mut k: usize = 0;
    while k < ids.len()
        invariant
            k <= ids@.len(),
            first == (stack_names(ids@.take(k as int), rule_names@).len() == 0),
            out@ == head + quoted_list(stack_names(ids@.take(k as int), rule_names@)),
        decreases ids.len() - k,
    {
        let ghost prev = stack_names(ids@.take(k as int), rule_names@);
        proof {
            assert(ids@.take(k + 1).drop_last() =~= ids@.take(k as int));
        }
        let id = ids[k].0 as usize;
        if id < rule_names.len() {
            if !first {
                out.push(',');
            }
            first = false;
            push_json_string(&mut out, rule_names[id].as_str());
            proof {
                let now = stack_names(ids@.take(k + 1), rule_names@);
                assert(now == prev.push(rule_names@[id as int]@));
                assert(now.drop_last() =~= prev);
                if prev.len() == 0 {
                    assert(quoted_list(prev) =~= Seq::<char>::empty());
                }
            }
        }
        k += 1;
    }
    push_text(&mut out, "]}");
    proof {
        assert(ids@.take(ids@.len() as int) =~= ids@);
        assert(out@ =~= farthest_text(reach.position, reach.rule_stack@, rule_names@));
    }
    string_from_chars(&out)
}

/// Encoding distributes over concatenation.
proof fn lemma_encode_concat(a: Seq<char>, b: Seq<char>)
    ensures
        vstd::utf8::encode_utf8(a + b) == vstd::utf8::encode_utf8(a) + vstd::utf8::encode_utf8(b),
    decreases a.len(),
{
    if a.len() > 0 {
        lemma_encode_concat(a.drop_first(), b);
        assert((a + b).drop_first() =~= a.drop_first() + b);
        assert((a + b)[0] == a[0]);
        assert(vstd::utf8::encode_utf8(a + b) =~= vstd::utf8::encode_utf8(a) + vstd::utf8::encode_utf8(b));
    } else {
        assert(a + b =~= b);
        assert(vstd::utf8::encode_utf8(a) =~= Seq::<u8>::empty());
        assert(vstd::utf8::encode_utf8(a + b) =~= vstd::utf8::encode_utf8(a) + vstd::utf8::encode_utf8(b));
    }
}

/// The largest character boundary of `s` at or before `max`.
pub open spec fn boundary_at_or_before(s: Seq<u8>, max: int) -> int
    decreases max,
{
    if max <= 0 || vstd::utf8::is_char_boundary(s, max) {
        if max <= 0 {
            0
        } else {
            max
        }
    } else {
        boundary_at_or_before(s, max - 1)
    }
}

/// `s` cut at the last character boundary at or before `max` bytes, with
/// `…` appended; `s` itself when it fits.
pub fn truncate_with_ellipsis(s: &str, max: usize) -> (r: String)
    ensures
        s.spec_bytes().len() <= max ==> r@ == s@,
        s.spec_bytes().len() > max ==> vstd::utf8::encode_utf8(r@) == s.spec_bytes().subrange(
            0,
            boundary_at_or_before(s.spec_bytes(), max as int),
        ) + vstd::utf8::encode_utf8(seq!['\u{2026}']),
        s.spec_bytes().len() > max ==> r@ == vstd::utf8::decode_utf8(
            s.spec_bytes().subrange(0, boundary_at_or_before(s.spec_bytes(), max as int)),
        ) + seq!['\u{2026}'],
{
    proof {
        vstd::utf8::encode_utf8_valid_utf8(s@);
    }
    if s.as_bytes().len() <= max {
        return s.to_owned();
    }
    let mut end = max;
    while end > 0 && !s.is_char_boundary(end)
        invariant
            end <= max,
            max < s.spec_bytes().len(),
            boundary_at_or_before(s.spec_bytes(), max as int) == boundary_at_or_before(
                s.spec_bytes(),
                end as int,
            ),
        decreases end,
    {
        end -= 1;
    }
    proof {
        vstd::utf8::is_char_boundary_start_end_of_seq(s.spec_bytes());
    }
    let (head, _) = s.split_at(end);
    let mut out: Vec<char> = Vec::new();
    push_text(&mut out, head);
    out.push('\u{2026}');
    let r = string_from_chars(&out);
    proof {
        assert(r@ == head@ + seq!['\u{2026}']);
        lemma_encode_concat(head@, seq!['\u{2026}']);
        vstd::utf8::encode_utf8_decode_utf8(head@);
    }
    r
}

/// The ends of the captures still open when capture `i` is reached: each
/// capture first closes the open ones that end at or before its start,
/// then opens its own.
pub open spec fn open_ends(caps: Seq<Capture>, i: int) -> Seq<usize>
    decreases i,
{
    if i <= 0 {
        Seq::empty()
    } else {
        close_before(open_ends(caps, i - 1), caps[i - 1].start).push(caps[i - 1].end)
    }
}

/// `st` without the trailing ends at or before `start`.
pub open spec fn close_before(st: Seq<usize>, start: usize) -> Seq<usize>
    decreases st.len(),
{
    if st.len() > 0 && st.last() <= start {
        close_before(st.drop_last(), start)
    } else {
        st
    }
}

/// How many captures are still open over the start of capture `i`.
pub open spec fn capture_depth(caps: Seq<Capture>, i: int) -> nat {
    close_before(open_ends(caps, i), caps[i].start).len()
}

/// The nesting depth of each capture. Captures come start-ascending,
/// a parent before its children.
pub fn capture_depths(captures: &[Capture]) -> (depths: Vec<usize>)
    ensures
        depths@.len() == captures@.len(),
        forall|i: int| 0 <= i < captures@.len() ==> #[trigger] depths@[i] == capture_depth(captures@, i),
{
    let mut depths: Vec<usize> = Vec::new();
    let mut stack: Vec<usize> = Vec::new();
    let mut i: usize = 0;
    while i < captures.len()
        invariant
            i <= captures@.len(),
            depths@.len() == i,
            stack@ == open_ends(captures@, i as int),
            forall|k: int| 0 <= k < i ==> #[trigger] depths@[k] == capture_depth(captures@, k),
        decreases captures.len() - i,
    {
        let start = captures[i].start;
        let ghost target = close_before(open_ends(captures@, i as int), start);
        while stack.len() > 0 && stack[stack.len() - 1] <= start
            invariant
                close_before(stack@, start) == target,
            decreases stack.len(),
        {
            stack.pop();
        }
        assert(stack@ == target);
        depths.push(stack.len());
        stack.push(captures[i].end);
        i += 1;
    }
    depths
}

/// The capture is a recovery capture.
pub open spec fn is_recovery(c: Capture, kind: Option<usize>) -> bool {
    kind matches Some(k) && c.kind.0 as int == k as int
}

/// How many recovery captures come before capture `i`.
pub open spec fn recovery_rank(caps: Seq<Capture>, kind: Option<usize>, i: int) -> nat
    decreases i,
{
    if i <= 0 {
        0
    } else {
        recovery_rank(caps, kind, i - 1) + if is_recovery(caps[i - 1], kind) {
            1nat
        } else {
            0nat
        }
    }
}

proof fn lemma_rank_bound(caps: Seq<Capture>, kind: Option<usize>, i: int)
    requires
        0 <= i,
    ensures
        recovery_rank(caps, kind, i) <= i,
    decreases i,
{
    if i > 0 {
        lemma_rank_bound(caps, kind, i - 1);
    }
}

/// The diagnostic of recovery capture `i`: diagnostics align with the
/// recovery captures in order.
pub open spec fn diag_for(caps: Seq<Capture>, diags: Seq<RecoveryDiagnostic>, kind: Option<usize>, i: int) -> Option<
    RecoveryDiagnostic,
> {
    let r = recovery_rank(caps, kind, i);
    if is_recovery(caps[i], kind) && r < diags.len() {
        Some(diags[r as int])
    } else {
        None
    }
}

/// Capture `i` continues the recovery span of capture `i - 1`: both are
/// recovery captures and they touch.
pub open spec fn joined(caps: Seq<Capture>, kind: Option<usize>, i: int) -> bool {
    &&& 0 < i < caps.len()
    &&& is_recovery(caps[i - 1], kind)
    &&& is_recovery(caps[i], kind)
    &&& caps[i - 1].end == caps[i].start
}

/// Where the recovery span of capture `i` starts.
pub open spec fn span_start(caps: Seq<Capture>, kind: Option<usize>, i: int) -> int
    decreases i,
{
    if i > 0 && joined(caps, kind, i) {
        span_start(caps, kind, i - 1)
    } else {
        i
    }
}

/// Where the recovery span of capture `i` ends (exclusive).
pub open spec fn span_end(caps: Seq<Capture>, kind: Option<usize>, i: int) -> int
    decreases caps.len() - i,
{
    if 0 <= i && i + 1 < caps.len() && joined(caps, kind, i + 1) {
        span_end(caps, kind, i + 1)
    } else {
        i + 1
    }
}

/// The diagnostic with the larger position, the earlier one on ties.
pub open spec fn better(best: Option<RecoveryDiagnostic>, d: Option<RecoveryDiagnostic>) -> Option<RecoveryDiagnostic> {
    match (best, d) {
        (None, x) => x,
        (Some(b), Some(x)) => if x.position > b.position {
            Some(x)
        } else {
            Some(b)
        },
        (b, None) => b,
    }
}

/// The farthest-reaching diagnostic of captures `s..e`.
pub open spec fn best_in(
    caps: Seq<Capture>,
    diags: Seq<RecoveryDiagnostic>,
    kind: Option<usize>,
    s: int,
    e: int,
) -> Option<RecoveryDiagnostic>
    decreases e - s,
{
    if e <= s {
        None
    } else {
        better(best_in(caps, diags, kind, s, e - 1), diag_for(caps, diags, kind, e - 1))
    }
}

/// What a capture row reports as its farthest reach: for a recovery
/// capture, the farthest-reaching diagnostic of its span.
pub open spec fn span_aggregate(caps: Seq<Capture>, diags: Seq<RecoveryDiagnostic>, kind: Option<usize>, i: int) -> Option<
    RecoveryDiagnostic,
> {
    if is_recovery(caps[i], kind) {
        best_in(caps, diags, kind, span_start(caps, kind, i), span_end(caps, kind, i))
    } else {
        None
    }
}

proof fn lemma_span_start(caps: Seq<Capture>, kind: Option<usize>, s: int, j: int)
    requires
        0 <= s <= j < caps.len(),
        !joined(caps, kind, s),
        forall|m: int| s < m <= j ==> #[trigger] joined(caps, kind, m),
    ensures
        span_start(caps, kind, j) == s,
    decreases j,
{
    if j > s {
        lemma_span_start(caps, kind, s, j - 1);
    }
}

proof fn lemma_span_end(caps: Seq<Capture>, kind: Option<usize>, e: int, j: int)
    requires
        0 <= j < e <= caps.len(),
        e == caps.len() || !joined(caps, kind, e),
        forall|m: int| j < m < e ==> #[trigger] joined(caps, kind, m),
    ensures
        span_end(caps, kind, j) == e,
    decreases e - j,
{
    if j + 1 < e {
        lemma_span_end(caps, kind, e, j + 1);
    }
}

/// A copy of a diagnostic.
fn copy_diagnostic(d: &RecoveryDiagnostic) -> (r: RecoveryDiagnostic)
    ensures
        r.label == d.label,
        r.position == d.position,
        r.rule_stack@ == d.rule_stack@,
{
    let mut stack: Vec<crate::pegvm::MemoId> = Vec::new();
    let mut k: usize = 0;
    while k < d.rule_stack.len()
        invariant
            k <= d.rule_stack@.len(),
            stack@ == d.rule_stack@.take(k as int),
        decreases d.rule_stack.len() - k,
    {
        stack.push(d.rule_stack[k]);
        k += 1;
        assert(stack@ =~= d.rule_stack@.take(k as int));
    }
    assert(d.rule_stack@.take(d.rule_stack@.len() as int) =~= d.rule_stack@);
    RecoveryDiagnostic { label: d.label, position: d.position, rule_stack: stack }
}

/// The diagnostic's fields, the rule stack by its contents.
pub open spec fn diag_view(d: Option<RecoveryDiagnostic>) -> Option<(crate::pegvm::LabelId, usize, Seq<crate::pegvm::MemoId>)> {
    match d {
        Some(x) => Some((x.label, x.position, x.rule_stack@)),
        None => None,
    }
}

fn capture_is_recovery(c: &Capture, kind: Option<usize>) -> (b: bool)
    ensures
        b == is_recovery(*c, kind),
{
    match kind {
        Some(k) => c.kind.0 as usize == k,
        None => false,
    }
}

/// For each capture, the farthest-reaching diagnostic of the recovery
/// span it belongs to; `None` for captures that are not recoveries. A
/// span is a maximal run of touching recovery captures; diagnostics
/// align with the recovery captures in order.
pub fn recovery_span_aggregates(
    captures: &[Capture],
    diagnostics: &[RecoveryDiagnostic],
    recovery_kind: Option<usize>,
) -> (out: Vec<Option<RecoveryDiagnostic>>)
    ensures
        out@.len() == captures@.len(),
        forall|i: int|
            0 <= i < captures@.len() ==> diag_view(#[trigger] out@[i]) == diag_view(
                span_aggregate(captures@, diagnostics@, recovery_kind, i),
            ),
{
    let n = captures.len();
    let ghost caps = captures@;
    let ghost diags = diagnostics@;
    let mut out: Vec<Option<RecoveryDiagnostic>> = Vec::new();
    let mut rank: usize = 0;
    let mut i: usize = 0;
    while i < n
        invariant
            n == caps.len(),
            caps == captures@,
            diags == diagnostics@,
            i <= n,
            out@.len() == i,
            rank == recovery_rank(caps, recovery_kind, i as int),
            i < n ==> !joined(caps, recovery_kind, i as int),
            forall|k: int| 0 <= k < i ==> diag_view(#[trigger] out@[k]) == diag_view(
                span_aggregate(caps, diags, recovery_kind, k),
            ),
        decreases n - i,
    {
        if !capture_is_recovery(&captures[i], recovery_kind) {
            out.push(None);
            i += 1;
            proof {
                assert(!joined(caps, recovery_kind, i as int) || i == n);
            }
            continue;
        }
        // The span from `i`: touching recovery captures.
        let s = i;
        let mut e = i + 1;
        while e < n && capture_is_recovery(&captures[e], recovery_kind) && captures[e - 1].end == captures[e].start
            invariant
                n == caps.len(),
                caps == captures@,
                s < e <= n,
                is_recovery(caps[s as int], recovery_kind),
                forall|m: int| s < m < e ==> #[trigger] joined(caps, recovery_kind, m),
            decreases n - e,
        {
            proof {
                assert(is_recovery(caps[e - 1], recovery_kind)) by {
                    if e - 1 > s {
                        assert(joined(caps, recovery_kind, e - 1));
                    }
                }
                assert(joined(caps, recovery_kind, e as int));
            }
            e += 1;
        }
        proof {
            if e < n {
                assert(!joined(caps, recovery_kind, e as int));
            }
        }
        // The farthest-reaching diagnostic of the span.
        let mut best: Option<usize> = None;
        let mut r = rank;
        let mut j = s;
        while j < e
            invariant
                n == caps.len(),
                caps == captures@,
                diags == diagnostics@,
                s <= j <= e <= n,
                is_recovery(caps[s as int], recovery_kind),
                forall|m: int| s < m < e ==> #[trigger] joined(caps, recovery_kind, m),
                r == recovery_rank(caps, recovery_kind, j as int),
                best matches Some(b) ==> b < diags.len(),
                diag_view(match best { Some(b) => Some(diags[b as int]), None => None }) == diag_view(
                    best_in(caps, diags, recovery_kind, s as int, j as int),
                ),
            decreases e - j,
        {
            proof {
                assert(is_recovery(caps[j as int], recovery_kind)) by {
                    if j > s {
                        assert(joined(caps, recovery_kind, j as int));
                    }
                }
                lemma_rank_bound(caps, recovery_kind, j as int);
            }
            if r < diagnostics.len() {
                let take = match best {
                    None => true,
                    Some(b) => diagnostics[r].position > diagnostics[b].position,
                };
                if take {
                    best = Some(r);
                }
            }
            r = r + 1;
            j += 1;
        }
        rank = r;
        let mut k = s;
        while k < e
            invariant
                n == caps.len(),
                caps == captures@,
                diags == diagnostics@,
                s <= k <= e <= n,
                out@.len() == k,
                is_recovery(caps[s as int], recovery_kind),
                !joined(caps, recovery_kind, s as int),
                e == n || !joined(caps, recovery_kind, e as int),
                forall|m: int| s < m < e ==> #[trigger] joined(caps, recovery_kind, m),
                best matches Some(b) ==> b < diags.len(),
                diag_view(match best { Some(b) => Some(diags[b as int]), None => None }) == diag_view(
                    best_in(caps, diags, recovery_kind, s as int, e as int),
                ),
                forall|x: int| 0 <= x < k ==> diag_view(#[trigger] out@[x]) == diag_view(
                    span_aggregate(caps, diags, recovery_kind, x),
                ),
            decreases e - k,
        {
            let slot = match best {
                Some(b) => Some(copy_diagnostic(&diagnostics[b])),
                None => None,
            };
            proof {
                lemma_span_start(caps, recovery_kind, s as int, k as int);
                lemma_span_end(caps, recovery_kind, e as int, k as int);
                assert(is_recovery(caps[k as int], recovery_kind)) by {
                    if k > s {
                        assert(joined(caps, recovery_kind, k as int));
                    }
                }
            }
            out.push(slot);
            k += 1;
        }
        i = e;
    }
    out
}


// ---------------------------------------------------------------------
// Rows of the grammar tools
// ---------------------------------------------------------------------

/// The texts of the strings, in order.
pub open spec fn strs(v: Seq<String>) -> Seq<Seq<char>> {
    v.map_values(|x: String| x@)
}

/// Append the strings as JSON string literals, comma separated.
fn push_quoted_names(out: &mut Vec<char>, names: &[String])
    ensures
        final(out)@ == old(out)@ + quoted_list(strs(names@)),
{
    let ghost head = out@;
    let mut k: usize = 0;
    while k < names.len()
        invariant
            k <= names@.len(),
            out@ == head + quoted_list(strs(names@.take(k as int))),
        decreases names.len() - k,
    {
        let ghost prev = strs(names@.take(k as int));
        let ghost now = strs(names@.take(k + 1));
        proof {
            assert(now.drop_last() =~= prev);
            assert(now.last() == names@[k as int]@);
            if k == 0 {
                assert(quoted_list(prev) =~= Seq::<char>::empty());
            }
        }
        if k > 0 {
            out.push(',');
        }
        push_json_string(out, names[k].as_str());
        k += 1;
        proof {
            assert(out@ =~= head + quoted_list(now));
        }
    }
    assert(names@.take(names@.len() as int) == names@);
}

/// The one-line JSON object `pegc stats` prints for a compiled grammar.
pub open spec fn stats_text(path: Seq<char>, code_len: nat, rule_count: nat, kinds: Seq<String>) -> Seq<char> {
    "{\"path\":"@ + json_quoted(path) + ",\"instructions\":"@ + decimal(code_len) + ",\"rules\":"@ + decimal(
        rule_count,
    ) + ",\"capture_kinds_count\":"@ + decimal(kinds.len()) + ",\"capture_kinds\":["@ + quoted_list(strs(kinds))
        + "]}"@
}

/// The bytecode counts of a compiled grammar as one JSON object: path,
/// instruction count, rule count, and the capture kinds.
pub fn stats_json(path: &str, program: &Program) -> (r: String)
    ensures
        r@ == stats_text(path@, program.code@.len(), program.rule_count as nat, program.capture_kinds@),
{
    let mut out: Vec<char> = Vec::new();
    push_text(&mut out, "{\"path\":");
    push_json_string(&mut out, path);
    push_text(&mut out, ",\"instructions\":");
    push_decimal(&mut out, program.code.len());
    push_text(&mut out, ",\"rules\":");
    push_decimal(&mut out, program.rule_count);
    push_text(&mut out, ",\"capture_kinds_count\":");
    push_decimal(&mut out, program.capture_kinds.len());
    push_text(&mut out, ",\"capture_kinds\":[");
    push_quoted_names(&mut out, program.capture_kinds.as_slice());
    push_text(&mut out, "]}");
    assert(out@ =~= stats_text(path@, program.code@.len(), program.rule_count as nat, program.capture_kinds@));
    string_from_chars(&out)
}

/// The position of the first string equal to `name`.
pub fn position_of(v: &[String], name: &str) -> (r: Option<usize>)
    ensures
        match r {
            Some(i) => i as int == index_of(strs(v@), name@),
            None => index_of(strs(v@), name@) == -1,
        },
{
    let ghost t = strs(v@);
    proof {
        lemma_index_of(t, name@);
    }
    let nm = name.to_owned();
    let mut i: usize = 0;
    while i < v.len()
        invariant
            nm@ == name@,
            t == strs(v@),
            i <= v@.len(),
            forall|k: int| 0 <= k < i ==> t[k] != name@,
            -1 <= index_of(t, name@) < t.len(),
            index_of(t, name@) == -1 <==> forall|k: int| 0 <= k < t.len() ==> t[k] != name@,
            index_of(t, name@) >= 0 ==> t[index_of(t, name@)] == name@ && forall|k: int|
                0 <= k < index_of(t, name@) ==> t[k] != name@,
        decreases v.len() - i,
    {
        if v[i] == nm {
            assert(t[i as int] == name@);
            return Some(i);
        }
        assert(t[i as int] != name@);
        i += 1;
    }
    None
}

/// The capture kind that marks recovery captures: the first kind named
/// `recovery`, if any.
pub open spec fn recovery_kind_of(kinds: Seq<String>) -> Option<usize> {
    let i = index_of(strs(kinds), "recovery"@);
    if i >= 0 {
        Some(i as usize)
    } else {
        None
    }
}

/// A capture kind's name, `<unknown>` for a kind outside the table.
pub open spec fn kind_text(kinds: Seq<String>, k: crate::pegvm::CaptureKind) -> Seq<char> {
    if (k.0 as int) < kinds.len() {
        kinds[k.0 as int]@
    } else {
        "<unknown>"@
    }
}

/// The text a capture covers, cut to `max` bytes with an ellipsis when
/// it is longer.
pub open spec fn literal_text(bytes: Seq<u8>, c: Capture, max: Option<usize>) -> Seq<char> {
    let raw = bytes.subrange(c.start as int, c.end as int);
    match max {
        Some(n) => if raw.len() <= n {
            vstd::utf8::decode_utf8(raw)
        } else {
            vstd::utf8::decode_utf8(raw.subrange(0, boundary_at_or_before(raw, n as int))) + seq!['\u{2026}']
        },
        None => vstd::utf8::decode_utf8(raw),
    }
}

/// The `farthest_reach` field of a row, when its recovery span has a
/// diagnostic.
pub open spec fn reach_field(d: Option<RecoveryDiagnostic>, names: Seq<String>) -> Seq<char> {
    match d {
        Some(x) => ",\"farthest_reach\":"@ + farthest_text(x.position, x.rule_stack@, names),
        None => Seq::empty(),
    }
}

/// The JSON line `pegdb dump-captures` prints for capture `i`.
pub open spec fn capture_row(
    bytes: Seq<u8>,
    caps: Seq<Capture>,
    i: int,
    kinds: Seq<String>,
    names: Seq<String>,
    diags: Seq<RecoveryDiagnostic>,
    max: Option<usize>,
) -> Seq<char> {
    let c = caps[i];
    "{\"start\":"@ + decimal(c.start as nat) + ",\"end\":"@ + decimal(c.end as nat) + ",\"kind\":"@ + json_quoted(
        kind_text(kinds, c.kind),
    ) + ",\"depth\":"@ + decimal(capture_depth(caps, i)) + ",\"literal\":"@ + json_quoted(
        literal_text(bytes, c, max),
    ) + reach_field(span_aggregate(caps, diags, recovery_kind_of(kinds), i), names) + "}"@
}

/// A boundary of `bytes` past `s` is one of the part from `s` on.
proof fn lemma_boundary_shift(bytes: Seq<u8>, s: int, e: int)
    requires
        vstd::utf8::valid_utf8(bytes),
        0 <= s <= e <= bytes.len(),
        vstd::utf8::is_char_boundary(bytes, s),
        vstd::utf8::is_char_boundary(bytes, e),
    ensures
        vstd::utf8::valid_utf8(bytes.subrange(s, bytes.len() as int)),
        vstd::utf8::is_char_boundary(bytes.subrange(s, bytes.len() as int), e - s),
{
    let tail = bytes.subrange(s, bytes.len() as int);
    vstd::utf8::valid_utf8_split(bytes, s);
    if e == bytes.len() {
        vstd::utf8::is_char_boundary_start_end_of_seq(tail);
        assert(tail.len() == e - s);
    } else if e > s {
        vstd::utf8::is_char_boundary_iff_not_is_continuation_byte(bytes, e);
        vstd::utf8::is_char_boundary_iff_not_is_continuation_byte(tail, e - s);
        assert(tail[e - s] == bytes[e]);
    } else {
        vstd::utf8::is_char_boundary_start_end_of_seq(tail);
    }
}

/// The lines `pegdb dump-captures` prints, one JSON object per capture:
/// its span, kind name, nesting depth, the text it covers (cut to
/// `max_literal` bytes when given) and, on recovery rows whose span has a
/// diagnostic, the farthest reach of that span.
pub fn capture_rows(
    input: &str,
    captures: &[Capture],
    kinds: &[String],
    rule_names: &[String],
    diagnostics: &[RecoveryDiagnostic],
    max_literal: Option<usize>,
) -> (rows: Vec<String>)
    requires
        forall|i: int|
            0 <= i < captures@.len() ==> {
                &&& (#[trigger] captures@[i]).start <= captures@[i].end <= input.spec_bytes().len()
                &&& vstd::utf8::is_char_boundary(input.spec_bytes(), captures@[i].start as int)
                &&& vstd::utf8::is_char_boundary(input.spec_bytes(), captures@[i].end as int)
            },
    ensures
        rows@.len() == captures@.len(),
        forall|i: int|
            0 <= i < captures@.len() ==> #[trigger] rows@[i]@ == capture_row(
                input.spec_bytes(),
                captures@,
                i,
                kinds@,
                rule_names@,
                diagnostics@,
                max_literal,
            ),
{
    let ghost bytes = input.spec_bytes();
    proof {
        vstd::utf8::encode_utf8_valid_utf8(input@);
    }
    let word = "recovery";
    let rk = position_of(kinds, word);
    let ghost rkv = recovery_kind_of(kinds@);
    assert(rk == rkv);
    let aggs = recovery_span_aggregates(captures, diagnostics, rk);
    let depths = capture_depths(captures);
    let mut rows: Vec<String> = Vec::new();
    let mut i: usize = 0;
    while i < captures.len()
        invariant
            bytes == input.spec_bytes(),
            vstd::utf8::valid_utf8(bytes),
            rk == recovery_kind_of(kinds@),
            forall|j: int|
                0 <= j < captures@.len() ==> {
                    &&& (#[trigger] captures@[j]).start <= captures@[j].end <= bytes.len()
                    &&& vstd::utf8::is_char_boundary(bytes, captures@[j].start as int)
                    &&& vstd::utf8::is_char_boundary(bytes, captures@[j].end as int)
                },
            aggs@.len() == captures@.len(),
            forall|j: int|
                0 <= j < captures@.len() ==> diag_view(#[trigger] aggs@[j]) == diag_view(
                    span_aggregate(captures@, diagnostics@, rk, j),
                ),
            depths@.len() == captures@.len(),
            forall|j: int| 0 <= j < captures@.len() ==> #[trigger] depths@[j] == capture_depth(captures@, j),
            i <= captures@.len(),
            rows@.len() == i,
            forall|j: int|
                0 <= j < i ==> #[trigger] rows@[j]@ == capture_row(
                    bytes,
                    captures@,
                    j,
                    kinds@,
                    rule_names@,
                    diagnostics@,
                    max_literal,
                ),
        decreases captures.len() - i,
    {
        let c = captures[i];
        let mut out: Vec<char> = Vec::new();
        push_text(&mut out, "{\"start\":");
        push_decimal(&mut out, c.start);
        push_text(&mut out, ",\"end\":");
        push_decimal(&mut out, c.end);
        push_text(&mut out, ",\"kind\":");
        let k = c.kind.0 as usize;
        if k < kinds.len() {
            push_json_string(&mut out, kinds[k].as_str());
        } else {
            push_json_string(&mut out, "<unknown>");
        }
        push_text(&mut out, ",\"depth\":");
        push_decimal(&mut out, depths[i]);
        push_text(&mut out, ",\"literal\":");
        proof {
            lemma_boundary_shift(bytes, c.start as int, c.end as int);
        }
        let (_, tail) = input.split_at(c.start);
        let ghost tb = bytes.subrange(c.start as int, bytes.len() as int);
        assert(tail.spec_bytes() == tb);
        let (raw, _) = tail.split_at(c.end - c.start);
        proof {
            assert(raw.spec_bytes() =~= bytes.subrange(c.start as int, c.end as int));
            vstd::utf8::encode_utf8_decode_utf8(raw@);
        }
        match max_literal {
            Some(n) => {
                let t = truncate_with_ellipsis(raw, n);
                push_json_string(&mut out, t.as_str());
            },
            None => {
                push_json_string(&mut out, raw);
            },
        }
        let ghost before_reach = out@;
        match &aggs[i] {
            Some(d) => {
                push_text(&mut out, ",\"farthest_reach\":");
                let f = format_farthest_reach(d, rule_names);
                push_text(&mut out, f.as_str());
            },
            None => {},
        }
        proof {
            let sa = span_aggregate(captures@, diagnostics@, rk, i as int);
            assert(diag_view(aggs@[i as int]) == diag_view(sa));
            assert(out@ == before_reach + reach_field(sa, rule_names@));
        }
        push_text(&mut out, "}");
        assert(out@ =~= capture_row(bytes, captures@, i as int, kinds@, rule_names@, diagnostics@, max_literal));
        rows.push(string_from_chars(&out));
        i += 1;
    }
    rows
}


// ---------------------------------------------------------------------
// Recovery clusters
// ---------------------------------------------------------------------

/// Recoveries grouped by the rule stack and label of their farthest
/// reach.
#[derive(Debug)]
pub struct Cluster {
    /// Names of the rules in flight, outermost first.
    pub stack: Vec<String>,
    /// The recovery label's name.
    pub label: String,
    /// How many recovery rows share this stack and label.
    pub count: usize,
}

/// What a cluster is keyed by: the rule-name stack and the label name.
pub type ClusterKey = (Seq<Seq<char>>, Seq<char>);

/// The label's name, empty for a label outside the table.
pub open spec fn label_text(labels: Seq<String>, l: crate::pegvm::LabelId) -> Seq<char> {
    if (l.0 as int) < labels.len() {
        labels[l.0 as int]@
    } else {
        Seq::empty()
    }
}

/// The key of a diagnostic.
pub open spec fn reach_key(d: RecoveryDiagnostic, names: Seq<String>, labels: Seq<String>) -> ClusterKey {
    (stack_names(d.rule_stack@, names), label_text(labels, d.label))
}

/// How many of the rows have a farthest reach with key `k`.
pub open spec fn key_count(
    aggs: Seq<Option<RecoveryDiagnostic>>,
    names: Seq<String>,
    labels: Seq<String>,
    k: ClusterKey,
) -> nat
    decreases aggs.len(),
{
    if aggs.len() == 0 {
        0
    } else {
        key_count(aggs.drop_last(), names, labels, k) + match aggs.last() {
            Some(d) => if reach_key(d, names, labels) == k {
                1nat
            } else {
                0nat
            },
            None => 0nat,
        }
    }
}

/// Lexicographic order of name stacks.
pub open spec fn stack_less(a: Seq<Seq<char>>, b: Seq<Seq<char>>) -> bool
    decreases a.len(),
{
    if a.len() == 0 {
        b.len() > 0
    } else if b.len() == 0 {
        false
    } else if chars_less(a[0], b[0]) {
        true
    } else if a[0] == b[0] {
        stack_less(a.drop_first(), b.drop_first())
    } else {
        false
    }
}

/// Order of keys: by stack, then by label.
pub open spec fn key_less(a: ClusterKey, b: ClusterKey) -> bool {
    stack_less(a.0, b.0) || (a.0 == b.0 && chars_less(a.1, b.1))
}

/// The order of the report: larger clusters first, then by key.
pub open spec fn cluster_before(a: (ClusterKey, nat), b: (ClusterKey, nat)) -> bool {
    a.1 > b.1 || (a.1 == b.1 && key_less(a.0, b.0))
}

proof fn lemma_stack_less_trans(a: Seq<Seq<char>>, b: Seq<Seq<char>>, c: Seq<Seq<char>>)
    requires
        stack_less(a, b),
        stack_less(b, c),
    ensures
        stack_less(a, c),
    decreases a.len(),
{
    if a.len() > 0 && b.len() > 0 && c.len() > 0 {
        if chars_less(a[0], b[0]) && chars_less(b[0], c[0]) {
            lemma_chars_less_trans(a[0], b[0], c[0]);
        } else if a[0] == b[0] && b[0] == c[0] {
            lemma_chars_less_irrefl(a[0]);
            lemma_stack_less_trans(a.drop_first(), b.drop_first(), c.drop_first());
        } else if a[0] == b[0] {
            lemma_chars_less_irrefl(a[0]);
        } else {
            lemma_chars_less_irrefl(b[0]);
        }
    }
}

proof fn lemma_stack_less_irrefl(a: Seq<Seq<char>>)
    ensures
        !stack_less(a, a),
    decreases a.len(),
{
    if a.len() > 0 {
        lemma_chars_less_irrefl(a[0]);
        lemma_stack_less_irrefl(a.drop_first());
    }
}

proof fn lemma_cluster_before_trans(a: (ClusterKey, nat), b: (ClusterKey, nat), c: (ClusterKey, nat))
    requires
        cluster_before(a, b),
        cluster_before(b, c),
    ensures
        cluster_before(a, c),
{
    if a.1 == b.1 && b.1 == c.1 {
        if stack_less(a.0.0, b.0.0) && stack_less(b.0.0, c.0.0) {
            lemma_stack_less_trans(a.0.0, b.0.0, c.0.0);
        } else if stack_less(a.0.0, b.0.0) {
        } else if stack_less(b.0.0, c.0.0) {
        } else {
            lemma_chars_less_trans(a.0.1, b.0.1, c.0.1);
        }
    }
}

proof fn lemma_cluster_before_irrefl(a: (ClusterKey, nat))
    ensures
        !cluster_before(a, a),
{
    lemma_stack_less_irrefl(a.0.0);
    lemma_chars_less_irrefl(a.0.1);
}

/// Some position of `perm` holds `a`.
pub open spec fn covers(perm: Seq<int>, a: int) -> bool {
    exists|m: int| 0 <= m < perm.len() && #[trigger] perm[m] == a
}

/// A cluster by its key and count.
pub open spec fn cluster_view(c: Cluster) -> (ClusterKey, nat) {
    ((strs(c.stack@), c.label@), c.count as nat)
}

pub open spec fn clusters_view(v: Seq<Cluster>) -> Seq<(ClusterKey, nat)> {
    v.map_values(|c: Cluster| cluster_view(c))
}

/// The clusters of the rows: each key of a farthest reach once, with
/// how many rows have it, larger clusters first and equal counts by key.
pub open spec fn clusters_ok(
    cs: Seq<(ClusterKey, nat)>,
    aggs: Seq<Option<RecoveryDiagnostic>>,
    names: Seq<String>,
    labels: Seq<String>,
) -> bool {
    &&& forall|i: int, j: int| 0 <= i < j < cs.len() ==> (#[trigger] cs[i]).0 != (#[trigger] cs[j]).0
    &&& forall|i: int| 0 <= i < cs.len() ==> (#[trigger] cs[i]).1 == key_count(aggs, names, labels, cs[i].0) && cs[i].1 > 0
    &&& forall|k: ClusterKey| #[trigger] key_count(aggs, names, labels, k) > 0 ==> exists|i: int| 0 <= i < cs.len() && (#[trigger] cs[i]).0 == k
    &&& forall|i: int, j: int| 0 <= i < j < cs.len() ==> !cluster_before(#[trigger] cs[j], #[trigger] cs[i])
}

fn copy_strings(v: &Vec<String>) -> (r: Vec<String>)
    ensures
        strs(r@) == strs(v@),
{
    let mut r: Vec<String> = Vec::new();
    let mut i: usize = 0;
    while i < v.len()
        invariant
            i <= v@.len(),
            r@.len() == i,
            forall|k: int| 0 <= k < i ==> #[trigger] r@[k]@ == v@[k]@,
        decreases v.len() - i,
    {
        r.push(v[i].clone());
        i += 1;
    }
    assert(strs(r@) =~= strs(v@));
    r
}

/// The names of the rule ids that have one.
fn reach_stack(ids: &Vec<crate::pegvm::MemoId>, names: &[String]) -> (r: Vec<String>)
    ensures
        strs(r@) == stack_names(ids@, names@),
{
    let mut r: Vec<String> = Vec::new();
    let mut k: usize = 0;
    while k < ids.len()
        invariant
            k <= ids@.len(),
            strs(r@) == stack_names(ids@.take(k as int), names@),
        decreases ids.len() - k,
    {
        proof {
            assert(ids@.take(k + 1).drop_last() =~= ids@.take(k as int));
        }
        let id = ids[k].0 as usize;
        if id < names.len() {
            r.push(names[id].clone());
        }
        k += 1;
        assert(strs(r@) =~= stack_names(ids@.take(k as int), names@));
    }
    assert(ids@.take(ids@.len() as int) == ids@);
    r
}

fn same_strings(a: &Vec<String>, b: &Vec<String>) -> (r: bool)
    ensures
        r == (strs(a@) == strs(b@)),
{
    if a.len() != b.len() {
        assert(strs(a@).len() != strs(b@).len());
        return false;
    }
    let mut i: usize = 0;
    while i < a.len()
        invariant
            i <= a@.len(),
            a@.len() == b@.len(),
            forall|k: int| 0 <= k < i ==> #[trigger] a@[k]@ == b@[k]@,
        decreases a.len() - i,
    {
        if a[i] != b[i] {
            assert(strs(a@)[i as int] != strs(b@)[i as int]);
            return false;
        }
        i += 1;
    }
    assert(strs(a@) =~= strs(b@));
    true
}

fn stack_lt(a: &Vec<String>, b: &Vec<String>) -> (r: bool)
    ensures
        r == stack_less(strs(a@), strs(b@)),
{
    let ghost av = strs(a@);
    let ghost bv = strs(b@);
    let mut i: usize = 0;
    assert(av.skip(0) =~= av);
    assert(bv.skip(0) =~= bv);
    while i < a.len() && i < b.len()
        invariant
            av == strs(a@),
            bv == strs(b@),
            i <= a@.len(),
            i <= b@.len(),
            stack_less(av, bv) == stack_less(av.skip(i as int), bv.skip(i as int)),
        decreases a.len() - i,
    {
        assert(av.skip(i as int)[0] == a@[i as int]@);
        assert(bv.skip(i as int)[0] == b@[i as int]@);
        if name_less(&a[i], &b[i]) {
            return true;
        }
        if a[i] != b[i] {
            return false;
        }
        assert(av.skip(i as int).drop_first() =~= av.skip(i + 1));
        assert(bv.skip(i as int).drop_first() =~= bv.skip(i + 1));
        i += 1;
    }
    i == a.len() && i < b.len()
}

fn cluster_lt(a: &Cluster, b: &Cluster) -> (r: bool)
    ensures
        r == cluster_before(cluster_view(*a), cluster_view(*b)),
{
    if a.count != b.count {
        return a.count > b.count;
    }
    if stack_lt(&a.stack, &b.stack) {
        return true;
    }
    same_strings(&a.stack, &b.stack) && name_less(&a.label, &b.label)
}

/// Count one row with farthest reach `d`.
fn count_reach(cs: &mut Vec<Cluster>, d: &RecoveryDiagnostic, names: &[String], labels: &[String])
    requires
        forall|i: int, j: int| 0 <= i < j < old(cs)@.len() ==> cluster_view(#[trigger] old(cs)@[i]).0 != cluster_view(
            #[trigger] old(cs)@[j],
        ).0,
        forall|i: int| 0 <= i < old(cs)@.len() ==> (#[trigger] old(cs)@[i]).count < usize::MAX,
    ensures
        final(cs)@.len() >= old(cs)@.len(),
        forall|i: int, j: int| 0 <= i < j < final(cs)@.len() ==> cluster_view(#[trigger] final(cs)@[i]).0 != cluster_view(
            #[trigger] final(cs)@[j],
        ).0,
        forall|i: int|
            0 <= i < old(cs)@.len() ==> cluster_view(#[trigger] final(cs)@[i]).0 == cluster_view(old(cs)@[i]).0
                && final(cs)@[i].count == old(cs)@[i].count + if cluster_view(old(cs)@[i]).0 == reach_key(*d, names@, labels@) {
                1nat
            } else {
                0nat
            },
        final(cs)@.len() > old(cs)@.len() ==> final(cs)@.len() == old(cs)@.len() + 1 && cluster_view(
            final(cs)@[old(cs)@.len() as int],
        ) == (reach_key(*d, names@, labels@), 1nat),
        final(cs)@.len() == old(cs)@.len() ==> exists|i: int|
            0 <= i < old(cs)@.len() && cluster_view(#[trigger] old(cs)@[i]).0 == reach_key(*d, names@, labels@),
        final(cs)@.len() > old(cs)@.len() ==> forall|i: int|
            0 <= i < old(cs)@.len() ==> cluster_view(#[trigger] old(cs)@[i]).0 != reach_key(*d, names@, labels@),
{
    let stack = reach_stack(&d.rule_stack, names);
    let l = d.label.0 as usize;
    let label = if l < labels.len() {
        labels[l].clone()
    } else {
        String::new()
    };
    let ghost key = reach_key(*d, names@, labels@);
    assert((strs(stack@), label@) == key);
    let mut k: usize = 0;
    while k < cs.len()
        invariant
            cs@ == old(cs)@,
            forall|i: int, j: int| 0 <= i < j < cs@.len() ==> cluster_view(#[trigger] cs@[i]).0 != cluster_view(
                #[trigger] cs@[j],
            ).0,
            forall|i: int| 0 <= i < cs@.len() ==> (#[trigger] cs@[i]).count < usize::MAX,
            key == reach_key(*d, names@, labels@),
            (strs(stack@), label@) == key,
            k <= cs@.len(),
            forall|j: int| 0 <= j < k ==> cluster_view(#[trigger] cs@[j]).0 != key,
        decreases cs.len() - k,
    {
        if same_strings(&cs[k].stack, &stack) && cs[k].label == label {
            let ghost before = cs@;
            let c = Cluster { stack: copy_strings(&cs[k].stack), label: cs[k].label.clone(), count: cs[k].count + 1 };
            cs.set(k, c);
            proof {
                assert(cluster_view(cs@[k as int]).0 == cluster_view(before[k as int]).0);
                assert forall|i: int| 0 <= i < before.len() implies cluster_view(#[trigger] cs@[i]).0 == cluster_view(before[i]).0 by {
                    if i == k {
                    }
                }
                assert forall|i: int, j: int| 0 <= i < j < cs@.len() implies cluster_view(#[trigger] cs@[i]).0 != cluster_view(
                    #[trigger] cs@[j],
                ).0 by {
                    assert(cluster_view(cs@[i]).0 == cluster_view(before[i]).0);
                    assert(cluster_view(cs@[j]).0 == cluster_view(before[j]).0);
                }
                assert(cluster_view(before[k as int]).0 == key);
                assert forall|i: int| 0 <= i < before.len() implies cluster_view(#[trigger] cs@[i]).0 == cluster_view(before[i]).0
                    && cs@[i].count == before[i].count + if cluster_view(before[i]).0 == key {
                    1nat
                } else {
                    0nat
                } by {
                    if i != k {
                        if cluster_view(before[i]).0 == key {
                            assert(cluster_view(before[i]).0 == cluster_view(before[k as int]).0);
                        }
                    }
                }
                assert(before == old(cs)@);
                assert(cluster_view(old(cs)@[k as int]).0 == key);
            }
            return;
        }
        k += 1;
    }
    cs.push(Cluster { stack, label, count: 1 });
}

/// Group the rows' farthest reaches by rule-name stack and label name,
/// and list the groups larger first, equal sizes by key.
pub fn recovery_clusters(
    aggregates: &[Option<RecoveryDiagnostic>],
    rule_names: &[String],
    label_names: &[String],
) -> (r: Vec<Cluster>)
    ensures
        clusters_ok(clusters_view(r@), aggregates@, rule_names@, label_names@),
{
    let ghost names = rule_names@;
    let ghost labels = label_names@;
    let mut cs: Vec<Cluster> = Vec::new();
    let mut j: usize = 0;
    while j < aggregates.len()
        invariant
            names == rule_names@,
            labels == label_names@,
            j <= aggregates@.len(),
            forall|a: int, b: int| 0 <= a < b < cs@.len() ==> cluster_view(#[trigger] cs@[a]).0 != cluster_view(#[trigger] cs@[b]).0,
            forall|a: int| 0 <= a < cs@.len() ==> (#[trigger] cs@[a]).count as nat == key_count(aggregates@.take(j as int), names, labels, cluster_view(cs@[a]).0) && cs@[a].count > 0,
            forall|k: ClusterKey| #[trigger] key_count(aggregates@.take(j as int), names, labels, k) > 0 ==> exists|a: int| 0 <= a < cs@.len() && cluster_view(#[trigger] cs@[a]).0 == k,
            forall|a: int| 0 <= a < cs@.len() ==> (#[trigger] cs@[a]).count <= j,
        decreases aggregates.len() - j,
    {
        let ghost before = cs@;
        let ghost pre = aggregates@.take(j as int);
        let ghost now = aggregates@.take(j + 1);
        proof {
            assert(now.drop_last() == pre);
            assert(now.last() == aggregates@[j as int]);
        }
        match &aggregates[j] {
            Some(d) => {
                count_reach(&mut cs, d, rule_names, label_names);
                proof {
                    let key = reach_key(*d, names, labels);
                    assert forall|k: ClusterKey| #[trigger] key_count(now, names, labels, k) == key_count(pre, names, labels, k) + if k == key {
                        1nat
                    } else {
                        0nat
                    } by {}
                    assert forall|a: int| 0 <= a < cs@.len() implies (#[trigger] cs@[a]).count as nat == key_count(now, names, labels, cluster_view(cs@[a]).0) && cs@[a].count > 0 by {
                        if a >= before.len() {
                            assert(key_count(pre, names, labels, key) == 0) by {
                                if key_count(pre, names, labels, key) > 0 {
                                    let b = choose|b: int| 0 <= b < before.len() && cluster_view(#[trigger] before[b]).0 == key;
                                    assert(cluster_view(before[b]).0 != key);
                                }
                            }
                            assert(cluster_view(cs@[a]) == (key, 1nat));
                            assert(key_count(now, names, labels, key) == 1);
                        } else {
                            let ka = cluster_view(before[a]).0;
                            assert(cluster_view(cs@[a]).0 == ka);
                            assert(before[a].count as nat == key_count(pre, names, labels, ka));
                            assert(key_count(now, names, labels, ka) == key_count(pre, names, labels, ka) + if ka == key {
                                1nat
                            } else {
                                0nat
                            });
                        }
                    }
                    assert forall|k: ClusterKey| #[trigger] key_count(now, names, labels, k) > 0 implies exists|a: int| 0 <= a < cs@.len() && cluster_view(#[trigger] cs@[a]).0 == k by {
                        if k == key {
                            if cs@.len() > before.len() {
                                assert(cluster_view(cs@[before.len() as int]).0 == k);
                            } else {
                                let b = choose|b: int| 0 <= b < before.len() && cluster_view(#[trigger] before[b]).0 == key;
                                assert(cluster_view(cs@[b]).0 == k);
                            }
                        } else {
                            assert(key_count(pre, names, labels, k) > 0);
                            let b = choose|b: int| 0 <= b < before.len() && cluster_view(#[trigger] before[b]).0 == k;
                            assert(cluster_view(cs@[b]).0 == k);
                        }
                    }
                }
            },
            None => {
                proof {
                    assert forall|k: ClusterKey| #[trigger] key_count(now, names, labels, k) == key_count(pre, names, labels, k) by {}
                }
            },
        }
        j += 1;
    }
    assert(aggregates@.take(aggregates@.len() as int) == aggregates@);
    // Larger clusters first, equal counts by key.
    let ghost all = clusters_view(cs@);
    let mut sorted: Vec<Cluster> = Vec::new();
    let ghost mut perm: Seq<int> = Seq::empty();
    let mut i: usize = 0;
    while i < cs.len()
        invariant
            all == clusters_view(cs@),
            i <= cs@.len(),
            perm.len() == sorted@.len(),
            forall|m: int| 0 <= m < perm.len() ==> 0 <= #[trigger] perm[m] < i,
            forall|m: int, n: int| 0 <= m < n < perm.len() ==> #[trigger] perm[m] != #[trigger] perm[n],
            forall|a: int| 0 <= a < i ==> #[trigger] covers(perm, a),
            forall|m: int| 0 <= m < perm.len() ==> #[trigger] clusters_view(sorted@)[m] == all[perm[m]],
            forall|a: int, b: int| 0 <= a < b < sorted@.len() ==> !cluster_before(
                #[trigger] clusters_view(sorted@)[b],
                #[trigger] clusters_view(sorted@)[a],
            ),
        decreases cs.len() - i,
    {
        let c = Cluster { stack: copy_strings(&cs[i].stack), label: cs[i].label.clone(), count: cs[i].count };
        let ghost cv = cluster_view(c);
        assert(cv == all[i as int]);
        let ghost t = clusters_view(sorted@);
        let mut k: usize = 0;
        let mut stop = false;
        while k < sorted.len() && !stop
            invariant
                t == clusters_view(sorted@),
                cv == cluster_view(c),
                k <= sorted@.len(),
                stop ==> k < t.len() && cluster_before(cv, t[k as int]),
                forall|b: int| 0 <= b < k ==> !cluster_before(cv, #[trigger] t[b]),
            decreases sorted.len() - k, if stop { 0int } else { 1int },
        {
            if cluster_lt(&c, &sorted[k]) {
                stop = true;
            } else {
                k += 1;
            }
        }
        proof {
            assert(clusters_view(sorted@.insert(k as int, c)) =~= t.insert(k as int, cv));
        }
        let ghost old_perm = perm;
        sorted.insert(k, c);
        proof {
            perm = perm.insert(k as int, i as int);
            let nt = t.insert(k as int, cv);
            assert(clusters_view(sorted@) == nt);
            assert forall|a: int, b: int| 0 <= a < b < nt.len() implies !cluster_before(#[trigger] nt[b], #[trigger] nt[a]) by {
                if b < k {
                    assert(nt[a] == t[a] && nt[b] == t[b]);
                } else if b == k {
                    assert(nt[b] == cv && nt[a] == t[a]);
                } else if a > k {
                    assert(nt[a] == t[a - 1] && nt[b] == t[b - 1]);
                } else if a == k {
                    assert(nt[a] == cv && nt[b] == t[b - 1]);
                    if cluster_before(t[b - 1], cv) {
                        lemma_cluster_before_trans(t[b - 1], cv, t[k as int]);
                        if b - 1 == k {
                            lemma_cluster_before_irrefl(t[k as int]);
                        }
                    }
                } else {
                    assert(nt[a] == t[a] && nt[b] == t[b - 1]);
                }
            }
            assert forall|m: int| 0 <= m < perm.len() implies #[trigger] clusters_view(sorted@)[m] == all[perm[m]] by {
                if m < k {
                    assert(perm[m] == old_perm[m]);
                } else if m > k {
                    assert(perm[m] == old_perm[m - 1]);
                }
            }
            assert forall|m: int, n: int| 0 <= m < n < perm.len() implies #[trigger] perm[m] != #[trigger] perm[n] by {
                let om = if m < k { m } else { m - 1 };
                let on = if n < k { n } else { n - 1 };
                if m != k && n != k {
                    assert(perm[m] == old_perm[om] && perm[n] == old_perm[on]);
                } else if m == k {
                    assert(perm[n] == old_perm[on]);
                } else {
                    assert(perm[m] == old_perm[om]);
                }
            }
            assert forall|a: int| 0 <= a < i + 1 implies #[trigger] covers(perm, a) by {
                if a == i {
                    assert(perm[k as int] == a);
                } else {
                    assert(covers(old_perm, a));
                    let m = choose|m: int| 0 <= m < old_perm.len() && #[trigger] old_perm[m] == a;
                    if m < k {
                        assert(perm[m] == a);
                    } else {
                        assert(perm[m + 1] == a);
                    }
                }
            }
        }
        i += 1;
    }
    proof {
        let sv = clusters_view(sorted@);
        assert forall|a: int, b: int| 0 <= a < b < sv.len() implies (#[trigger] sv[a]).0 != (#[trigger] sv[b]).0 by {
            assert(sv[a] == all[perm[a]] && sv[b] == all[perm[b]]);
            assert(perm[a] != perm[b]);
            if perm[a] < perm[b] {
                assert(cluster_view(cs@[perm[a]]).0 != cluster_view(cs@[perm[b]]).0);
            } else {
                assert(cluster_view(cs@[perm[b]]).0 != cluster_view(cs@[perm[a]]).0);
            }
        }
        assert forall|a: int| 0 <= a < sv.len() implies (#[trigger] sv[a]).1 == key_count(aggregates@, names, labels, sv[a].0) && sv[a].1 > 0 by {
            assert(sv[a] == all[perm[a]]);
            assert(cs@[perm[a]].count as nat == key_count(aggregates@, names, labels, cluster_view(cs@[perm[a]]).0));
        }
        assert forall|k: ClusterKey| #[trigger] key_count(aggregates@, names, labels, k) > 0 implies exists|a: int| 0 <= a < sv.len() && (#[trigger] sv[a]).0 == k by {
            let b = choose|b: int| 0 <= b < cs@.len() && cluster_view(#[trigger] cs@[b]).0 == k;
            assert(covers(perm, b));
            let m = choose|m: int| 0 <= m < perm.len() && #[trigger] perm[m] == b;
            assert(sv[m] == all[b]);
        }
    }
    sorted
}


/// The report line of a cluster: its count, the innermost rule of its
/// stack (`<empty>` for an empty stack) and its label.
pub open spec fn cluster_text(stack: Seq<Seq<char>>, label: Seq<char>, count: nat) -> Seq<char> {
    decimal(count) + " recoveries \u{2014} farthest reach ends at "@ + (if stack.len() > 0 {
        stack.last()
    } else {
        "<empty>"@
    }) + " (label: "@ + label + ")"@
}

/// The lines `pegdb explain-recoveries` prints: one per cluster, or a
/// single `no recoveries`.
pub open spec fn cluster_lines_text(cs: Seq<(ClusterKey, nat)>) -> Seq<Seq<char>> {
    if cs.len() == 0 {
        seq!["no recoveries"@]
    } else {
        Seq::new(cs.len(), |i: int| cluster_text(cs[i].0.0, cs[i].0.1, cs[i].1))
    }
}

/// The report lines of the clusters, in order.
pub fn cluster_lines(clusters: &[Cluster]) -> (lines: Vec<String>)
    ensures
        strs(lines@) == cluster_lines_text(clusters_view(clusters@)),
{
    let ghost cv = clusters_view(clusters@);
    let mut lines: Vec<String> = Vec::new();
    if clusters.len() == 0 {
        let t = "no recoveries".to_owned();
        lines.push(t);
        assert(strs(lines@) =~= cluster_lines_text(cv));
        return lines;
    }
    let mut i: usize = 0;
    while i < clusters.len()
        invariant
            cv == clusters_view(clusters@),
            i <= clusters@.len(),
            lines@.len() == i,
            forall|k: int| 0 <= k < i ==> #[trigger] lines@[k]@ == cluster_text(cv[k].0.0, cv[k].0.1, cv[k].1),
        decreases clusters.len() - i,
    {
        let c = &clusters[i];
        let mut out: Vec<char> = Vec::new();
        push_decimal(&mut out, c.count);
        push_text(&mut out, " recoveries \u{2014} farthest reach ends at ");
        let n = c.stack.len();
        if n > 0 {
            push_text(&mut out, c.stack[n - 1].as_str());
        } else {
            push_text(&mut out, "<empty>");
        }
        push_text(&mut out, " (label: ");
        push_text(&mut out, c.label.as_str());
        push_text(&mut out, ")");
        proof {
            assert(cv[i as int] == cluster_view(clusters@[i as int]));
            if n > 0 {
                assert(strs(c.stack@).last() == c.stack@[n - 1]@);
            }
        }
        assert(out@ =~= cluster_text(cv[i as int].0.0, cv[i as int].0.1, cv[i as int].1));
        lines.push(string_from_chars(&out));
        i += 1;
    }
    assert(strs(lines@) =~= cluster_lines_text(cv));
    lines
}

// ---------------------------------------------------------------------
// FOLLOW records
// ---------------------------------------------------------------------

/// The text `String::from_utf8_lossy` makes of the bytes.
pub uninterp spec fn lossy_text(b: Seq<u8>) -> Seq<char>;

/// `String::from_utf8_lossy`: the bytes as text, each invalid sequence
/// replaced by U+FFFD. Claimed here: the result depends on the bytes
/// alone, and valid UTF-8 is decoded as it stands; which replacement
/// characters stand for invalid input is left unsaid.
#[verifier::external_body]
fn utf8_lossy(bytes: &[u8]) -> (r: String)
    ensures
        r@ == lossy_text(bytes@),
        vstd::utf8::valid_utf8(bytes@) ==> r@ == vstd::utf8::decode_utf8(bytes@),
{
    String::from_utf8_lossy(bytes).into_owned()
}

/// The set holds the character with scalar value `x`.
pub open spec fn has_code(rs: Seq<(char, char)>, x: int) -> bool {
    exists|ch: char| ch as int == x && crate::pegvm::charset::ranges_set(rs).contains(ch)
}

pub open spec fn bit(rs: Seq<(char, char)>, x: int) -> int {
    if has_code(rs, x) {
        1
    } else {
        0
    }
}

/// The four characters from `b` on as a number, `b` its lowest bit.
pub open spec fn nibble(rs: Seq<(char, char)>, b: int) -> int {
    bit(rs, b) + 2 * bit(rs, b + 1) + 4 * bit(rs, b + 2) + 8 * bit(rs, b + 3)
}

/// The set's members below 256 as 32 bitmap bytes in hex, byte `k`
/// holding characters `8k..8k+7`, the lowest in its lowest bit.
pub open spec fn bitmap_text(rs: Seq<(char, char)>) -> Seq<char> {
    Seq::new(
        64,
        |i: int|
            lower_hex(
                nibble(
                    rs,
                    8 * (i / 2) + if i % 2 == 0 {
                        4int
                    } else {
                        0int
                    },
                ),
            ),
    )
}

/// A FOLLOW element as a JSON object.
pub open spec fn follow_element_text(e: crate::pegc::follow::FollowV) -> Seq<char>
    decreases e,
{
    match e {
        crate::pegc::follow::FollowV::Literal(b) => "{\"type\":\"literal\",\"value\":"@ + json_quoted(lossy_text(b))
            + "}"@,
        crate::pegc::follow::FollowV::CharClass(rs) => "{\"type\":\"char_class\",\"bitmap\":\""@ + bitmap_text(rs)
            + "\"}"@,
        crate::pegc::follow::FollowV::Rule(n) => "{\"type\":\"rule\",\"name\":"@ + json_quoted(n) + "}"@,
        crate::pegc::follow::FollowV::Capture(k, inner) => "{\"type\":\"capture\",\"kind\":"@ + json_quoted(k)
            + ",\"inner\":"@ + follow_element_text(*inner) + "}"@,
        crate::pegc::follow::FollowV::Eof => "{\"type\":\"eof\"}"@,
    }
}

/// The elements' objects, comma separated.
pub open spec fn follow_list_text(es: Seq<crate::pegc::follow::FollowV>) -> Seq<char>
    decreases es.len(),
{
    if es.len() == 0 {
        Seq::empty()
    } else if es.len() == 1 {
        follow_element_text(es[0])
    } else {
        follow_list_text(es.drop_last()) + seq![','] + follow_element_text(es.last())
    }
}

/// The one-line JSON object of a rule's FOLLOW set.
pub open spec fn follow_record_text(rule: Seq<char>, es: Seq<crate::pegc::follow::FollowV>) -> Seq<char> {
    "{\"rule\":"@ + json_quoted(rule) + ",\"follow\":["@ + follow_list_text(es) + "]}"@
}

fn code_bit(set: &CharSet, x: u32) -> (b: u32)
    ensures
        b as int == bit(set.range_seq(), x as int),
{
    let r = set.contains(x);
    assert(set@ == crate::pegvm::charset::ranges_set(set.range_seq()));
    assert(r == has_code(set.range_seq(), x as int));
    if r {
        1
    } else {
        0
    }
}

/// Append the set's bitmap below 256 in hex.
fn push_bitmap(out: &mut Vec<char>, set: &CharSet)
    ensures
        final(out)@ == old(out)@ + bitmap_text(set.range_seq()),
{
    let ghost rs = set.range_seq();
    let ghost head = out@;
    let mut i: u32 = 0;
    while i < 64
        invariant
            rs == set.range_seq(),
            i <= 64,
            out@.len() == head.len() + i,
            forall|k: int| 0 <= k < head.len() ==> #[trigger] out@[k] == head[k],
            forall|k: int| 0 <= k < i ==> #[trigger] out@[head.len() + k] == bitmap_text(rs)[k],
        decreases 64 - i,
    {
        let base: u32 = 8 * (i / 2) + if i % 2 == 0 {
            4
        } else {
            0
        };
        let n = code_bit(set, base) + 2 * code_bit(set, base + 1) + 4 * code_bit(set, base + 2) + 8 * code_bit(set, base + 3);
        out.push(hex_char(n));
        i += 1;
    }
    assert forall|j: int| 0 <= j < out@.len() implies #[trigger] out@[j] == (head + bitmap_text(rs))[j] by {
        if j >= head.len() {
            assert(out@[head.len() + (j - head.len())] == bitmap_text(rs)[j - head.len()]);
        }
    }
    assert(out@ =~= head + bitmap_text(rs));
}

/// Append a FOLLOW element as a JSON object.
fn push_follow_element(out: &mut Vec<char>, e: &FollowElement)
    ensures
        final(out)@ == old(out)@ + follow_element_text(crate::pegc::follow::fview(*e)),
    decreases e,
{
    let ghost head = out@;
    match e {
        FollowElement::Literal(bytes) => {
            push_text(out, "{\"type\":\"literal\",\"value\":");
            let t = utf8_lossy(bytes.as_slice());
            push_json_string(out, t.as_str());
            push_text(out, "}");
        },
        FollowElement::CharClass(cs) => {
            push_text(out, "{\"type\":\"char_class\",\"bitmap\":\"");
            push_bitmap(out, cs);
            push_text(out, "\"}");
        },
        FollowElement::Rule(name) => {
            push_text(out, "{\"type\":\"rule\",\"name\":");
            push_json_string(out, name.as_str());
            push_text(out, "}");
        },
        FollowElement::Capture { kind, inner } => {
            push_text(out, "{\"type\":\"capture\",\"kind\":");
            push_json_string(out, kind.as_str());
            push_text(out, ",\"inner\":");
            push_follow_element(out, inner);
            push_text(out, "}");
        },
        FollowElement::Eof => {
            push_text(out, "{\"type\":\"eof\"}");
        },
    }
    assert(out@ =~= head + follow_element_text(crate::pegc::follow::fview(*e)));
}

/// A rule's FOLLOW set as one line of JSON: the rule's name and the
/// set's elements, in the set's order.
pub fn follow_record(rule: &str, set: &FollowSet) -> (r: String)
    ensures
        r@ == follow_record_text(rule@, set.elems()),
{
    let items = set.elements();
    let ghost es = set.elems();
    let mut out: Vec<char> = Vec::new();
    push_text(&mut out, "{\"rule\":");
    push_json_string(&mut out, rule);
    push_text(&mut out, ",\"follow\":[");
    let ghost head = out@;
    let mut k: usize = 0;
    while k < items.len()
        invariant
            es == crate::pegc::follow::fviews(items@),
            k <= items@.len(),
            out@ == head + follow_list_text(es.take(k as int)),
        decreases items.len() - k,
    {
        proof {
            let now = es.take(k + 1);
            assert(now.drop_last() =~= es.take(k as int));
            assert(now.last() == crate::pegc::follow::fview(items@[k as int]));
            if k == 0 {
                assert(follow_list_text(es.take(0)) =~= Seq::<char>::empty());
            }
        }
        if k > 0 {
            out.push(',');
        }
        push_follow_element(&mut out, &items[k]);
        k += 1;
        assert(out@ =~= head + follow_list_text(es.take(k as int)));
    }
    push_text(&mut out, "]}");
    assert(es.take(es.len() as int) == es);
    assert(out@ =~= follow_record_text(rule@, es));
    string_from_chars(&out)
}

} // verus!
