//! Capture-stream walker: tile the input bytes with kinded segments.
//!
//! [`walk`] turns a parse's captures into one [`Segment`] per run of
//! bytes between capture boundaries. The segments tile `0..input.len()`
//! exactly, no gaps and no overlaps: the property the renderer relies on.
use vstd::prelude::*;

use vstd::string::*;

use crate::pegvm::Capture;

verus! {

/// One byte range of the walker's flattened view of the input. `kind` is
/// the name of the innermost capture still open over the range, or
/// `None` for bytes no capture covers.
#[derive(Clone, Debug, PartialEq, Eq)]
pub struct Segment {
    pub start: usize,
    pub end: usize,
    pub kind: Option<String>,
}

/// The segments are non-empty, each starts where the one before ended,
/// and together they cover `0..len`.
pub open spec fn tiles(segs: Seq<Segment>, len: nat) -> bool {
    &&& forall|k: int| 0 <= k < segs.len() ==> (#[trigger] segs[k]).start < segs[k].end
    &&& forall|k: int| 0 < k < segs.len() ==> (#[trigger] segs[k]).start == segs[k - 1].end
    &&& segs.len() == 0 <==> len == 0
    &&& segs.len() > 0 ==> segs[0].start == 0 && segs.last().end == len
}

/// A kinded segment lies inside a capture of that kind.
pub open spec fn kinds_covered(segs: Seq<Segment>, caps: Seq<Capture>, kinds: Seq<String>) -> bool {
    forall|k: int|
        0 <= k < segs.len() && (#[trigger] segs[k]).kind is Some ==> exists|i: int|
            0 <= i < caps.len() && caps[i].start <= segs[k].start && segs[k].end <= caps[i].end
                && segs[k].kind == Some(kinds[caps[i].kind.0 as int])
}

/// Every capture names a known kind and ends inside the input.
pub open spec fn captures_fit(caps: Seq<Capture>, kinds_len: nat, len: nat) -> bool {
    forall|i: int|
        0 <= i < caps.len() ==> (#[trigger] caps[i]).kind.0 < kinds_len && caps[i].start <= caps[i].end
            <= len
}

/// Append a segment `from..to`; the invariants of [`walk`] carry over.
fn emit(out: &mut Vec<Segment>, from: usize, to: usize, kind: Option<String>)
    requires
        from < to,
        old(out)@.len() == 0 ==> from == 0,
        old(out)@.len() > 0 ==> old(out)@.last().end == from,
    ensures
        final(out)@ == old(out)@.push(Segment { start: from, end: to, kind }),
{
    out.push(Segment { start: from, end: to, kind });
}

/// Byte position `p` is where a capture starts or ends, or the end of the
/// input.
pub open spec fn cut_at(caps: Seq<Capture>, len: nat, p: int) -> bool {
    p == len || exists|j: int| #![trigger caps[j]] 0 <= j < caps.len() && (caps[j].start == p || caps[j].end == p)
}

/// Every segment ends at a cut.
pub open spec fn ends_at_cuts(segs: Seq<Segment>, caps: Seq<Capture>, len: nat) -> bool {
    forall|k: int| 0 <= k < segs.len() ==> cut_at(caps, len, #[trigger] segs[k].end as int)
}

/// Captures are well nested: a later capture starts after an earlier one
/// ends, or ends inside it.
#[verifier::opaque]
pub open spec fn nested(caps: Seq<Capture>) -> bool {
    forall|a: int, b: int|
        0 <= a < b < caps.len() ==> caps[b].start >= caps[a].end || caps[b].end <= caps[a].end
}

/// Some segment ends at `p`.
pub open spec fn ends_at(segs: Seq<Segment>, p: int) -> bool {
    exists|k: int| 0 <= k < segs.len() && #[trigger] segs[k].end == p
}

/// Every start and end of the first `n` captures in `1..=upto` is where
/// a segment ends.
#[verifier::opaque]
pub open spec fn cuts_kept(segs: Seq<Segment>, caps: Seq<Capture>, upto: int, n: int) -> bool {
    forall|j: int|
        0 <= j < n ==> (0 < (#[trigger] caps[j]).start <= upto ==> ends_at(segs, caps[j].start as int)) && (0
            < caps[j].end <= upto ==> ends_at(segs, caps[j].end as int))
}

/// Advancing the cursor over a stretch that no capture starts or ends
/// strictly inside keeps every cut up to the new cursor a segment end.
proof fn lemma_cuts_advance(segs: Seq<Segment>, caps: Seq<Capture>, n: int, seg: Segment)
    requires
        cuts_kept(segs, caps, seg.start as int, n),
        0 <= n <= caps.len(),
        forall|j: int|
            0 <= j < n ==> !(seg.start < (#[trigger] caps[j]).start < seg.end) && !(seg.start < caps[j].end
                < seg.end),
    ensures
        cuts_kept(segs.push(seg), caps, seg.end as int, n),
{
    reveal(cuts_kept);
    let after = segs.push(seg);
    assert(after[segs.len() as int].end == seg.end);
    assert forall|j: int| 0 <= j < n implies (0 < (#[trigger] caps[j]).start <= seg.end ==> ends_at(
        after,
        caps[j].start as int,
    )) && (0 < caps[j].end <= seg.end ==> ends_at(after, caps[j].end as int)) by {
        if 0 < caps[j].start <= seg.start {
            let k = choose|k: int| 0 <= k < segs.len() && #[trigger] segs[k].end == caps[j].start;
            assert(after[k] == segs[k]);
        }
        if 0 < caps[j].end <= seg.start {
            let k = choose|k: int| 0 <= k < segs.len() && #[trigger] segs[k].end == caps[j].end;
            assert(after[k] == segs[k]);
        }
    }
}

/// No capture among the first `n` starts or ends strictly between
/// `cursor` and `q` when every one of them is either closed by `cursor`
/// or held on the stack, whose captures start by `cursor` and end at or
/// after `q`.
proof fn lemma_no_cut_between(caps: Seq<Capture>, stack: Seq<usize>, n: int, cursor: int, q: int)
    requires
        0 <= n <= caps.len(),
        n <= usize::MAX,
        forall|j: int| 0 <= j < caps.len() ==> (#[trigger] caps[j]).start <= caps[j].end,
        forall|t: int| 0 <= t < stack.len() ==> (#[trigger] stack[t]) < n && caps[stack[t] as int].start <= cursor,
        forall|j: int| 0 <= j < n && !stack.contains(j as usize) ==> (#[trigger] caps[j]).end <= cursor,
        forall|t: int| 0 <= t < stack.len() ==> q <= caps[#[trigger] stack[t] as int].end,
    ensures
        forall|j: int|
            0 <= j < n ==> !(cursor < (#[trigger] caps[j]).start < q) && !(cursor < caps[j].end < q),
{
    assert forall|j: int| 0 <= j < n implies !(cursor < (#[trigger] caps[j]).start < q) && !(cursor < caps[j].end
        < q) by {
        if stack.contains(j as usize) {
            let t = choose|t: int| 0 <= t < stack.len() && stack[t] == j as usize;
            assert(caps[stack[t] as int].start <= cursor);
            assert(q <= caps[stack[t] as int].end);
        }
    }
}

/// Pushing capture `i`, which starts at the cursor inside every capture
/// on the stack, keeps the stack's ends nested and every cut up to the
/// cursor a segment end.
proof fn lemma_push_nest(caps: Seq<Capture>, st: Seq<usize>, i: int, cursor: int, out: Seq<Segment>)
    requires
        nested(caps),
        0 <= i < caps.len(),
        i <= usize::MAX,
        cursor == caps[i].start,
        caps[i].start <= caps[i].end,
        forall|t: int| 0 <= t < st.len() ==> (#[trigger] st[t]) < i,
        forall|a: int, b: int| 0 <= a < b < st.len() ==> caps[st[b] as int].end <= caps[st[a] as int].end,
        forall|t: int| 0 <= t < st.len() ==> cursor <= caps[#[trigger] st[t] as int].end,
        st.len() > 0 ==> caps[st[st.len() - 1] as int].end > caps[i].start,
        cuts_kept(out, caps, cursor, i),
        out.len() == 0 ==> cursor == 0,
        out.len() > 0 ==> out.last().end == cursor,
    ensures
        ({
            let st2 = st.push(i as usize);
            &&& forall|a: int, b: int| 0 <= a < b < st2.len() ==> caps[st2[b] as int].end <= caps[st2[a] as int].end
            &&& forall|t: int| 0 <= t < st2.len() ==> cursor <= caps[#[trigger] st2[t] as int].end
            &&& cuts_kept(out, caps, cursor, i + 1)
        }),
{
    reveal(cuts_kept);
    reveal(nested);
    let st2 = st.push(i as usize);
    assert forall|j: int| 0 <= j < i + 1 implies (0 < (#[trigger] caps[j]).start <= cursor ==> ends_at(
        out,
        caps[j].start as int,
    )) && (0 < caps[j].end <= cursor ==> ends_at(out, caps[j].end as int)) by {
        if j == i && 0 < cursor {
            assert(out[out.len() - 1].end == cursor);
        }
    }
    assert forall|a: int, b: int| 0 <= a < b < st2.len() implies caps[st2[b] as int].end <= caps[st2[a] as int].end by {
        if b == st2.len() - 1 {
            let top = st[st.len() - 1] as int;
            assert(top < i);
            assert(caps[i].start >= caps[top].end || caps[i].end <= caps[top].end);
            if a < b - 1 {
                assert(caps[st[b - 1] as int].end <= caps[st[a] as int].end);
            }
        } else {
            assert(st2[a] == st[a] && st2[b] == st[b]);
        }
    }
    assert forall|t: int| 0 <= t < st2.len() implies cursor <= caps[#[trigger] st2[t] as int].end by {
        if t < st2.len() - 1 {
            assert(st2[t] == st[t]);
        }
    }
}

/// On a stack whose captures' ends shrink upward, a bound on the top
/// end bounds every end.
proof fn lemma_stack_ends(caps: Seq<Capture>, st: Seq<usize>, q: int)
    requires
        st.len() > 0,
        forall|a: int, b: int| 0 <= a < b < st.len() ==> caps[st[b] as int].end <= caps[st[a] as int].end,
        q <= caps[st[st.len() - 1] as int].end,
    ensures
        forall|t: int| 0 <= t < st.len() ==> q <= caps[#[trigger] st[t] as int].end,
{
    assert forall|t: int| 0 <= t < st.len() implies q <= caps[#[trigger] st[t] as int].end by {
        if t < st.len() - 1 {
            assert(caps[st[st.len() - 1] as int].end <= caps[st[t] as int].end);
        }
    }
}

proof fn lemma_cut_push(segs: Seq<Segment>, caps: Seq<Capture>, len: nat, seg: Segment)
    requires
        ends_at_cuts(segs, caps, len),
        cut_at(caps, len, seg.end as int),
    ensures
        ends_at_cuts(segs.push(seg), caps, len),
{
    assert forall|k: int| 0 <= k < segs.push(seg).len() implies cut_at(caps, len, #[trigger] segs.push(seg)[k].end as int) by {
        if k < segs.len() {
            assert(segs.push(seg)[k] == segs[k]);
        }
    }
}

/// Capture `c` covers byte `p`.
pub open spec fn covers(c: Capture, p: int) -> bool {
    c.start <= p < c.end
}

/// The last of the first `n` captures that covers byte `p`, or -1.
pub open spec fn innermost(caps: Seq<Capture>, n: int, p: int) -> int
    decreases n,
{
    if n <= 0 {
        -1
    } else if covers(caps[n - 1], p) {
        n - 1
    } else {
        innermost(caps, n - 1, p)
    }
}

/// The kind of the last capture that covers byte `p`, `None` when none
/// does. With start-ascending, well-nested captures the last one to
/// cover a byte is the innermost.
pub open spec fn kind_at(caps: Seq<Capture>, kinds: Seq<String>, p: int) -> Option<String> {
    let i = innermost(caps, caps.len() as int, p);
    if i >= 0 {
        Some(kinds[caps[i].kind.0 as int])
    } else {
        None
    }
}

/// The captures come start-ascending.
pub open spec fn starts_sorted(caps: Seq<Capture>) -> bool {
    forall|a: int, b: int| 0 <= a < b < caps.len() ==> caps[a].start <= caps[b].start
}

/// Segment `k` has, at each of its bytes, the kind of that byte.
pub open spec fn segment_exact(segs: Seq<Segment>, k: int, caps: Seq<Capture>, kinds: Seq<String>) -> bool {
    forall|p: int| segs[k].start <= p < segs[k].end ==> segs[k].kind == #[trigger] kind_at(caps, kinds, p)
}

/// Every segment has the kind of each of its bytes.
pub open spec fn kinds_exact(segs: Seq<Segment>, caps: Seq<Capture>, kinds: Seq<String>) -> bool {
    forall|k: int| 0 <= k < segs.len() ==> #[trigger] segment_exact(segs, k, caps, kinds)
}

proof fn lemma_innermost_is(caps: Seq<Capture>, n: int, p: int, t: int)
    requires
        0 <= t < n <= caps.len(),
        covers(caps[t], p),
        forall|j: int| t < j < n ==> !covers(#[trigger] caps[j], p),
    ensures
        innermost(caps, n, p) == t,
    decreases n,
{
    if n - 1 > t {
        lemma_innermost_is(caps, n - 1, p, t);
    }
}

proof fn lemma_innermost_none(caps: Seq<Capture>, n: int, p: int)
    requires
        0 <= n <= caps.len(),
        forall|j: int| 0 <= j < n ==> !covers(#[trigger] caps[j], p),
    ensures
        innermost(caps, n, p) == -1,
    decreases n,
{
    if n > 0 {
        lemma_innermost_none(caps, n - 1, p);
    }
}

/// Pushing segment `from..to` of kind `kind` keeps the segments exact when
/// every byte of it has that kind.
proof fn lemma_exact_push(segs: Seq<Segment>, caps: Seq<Capture>, kinds: Seq<String>, seg: Segment)
    requires
        kinds_exact(segs, caps, kinds),
        forall|p: int| seg.start <= p < seg.end ==> seg.kind == #[trigger] kind_at(caps, kinds, p),
    ensures
        kinds_exact(segs.push(seg), caps, kinds),
{
    let after = segs.push(seg);
    assert forall|k: int| 0 <= k < after.len() implies #[trigger] segment_exact(after, k, caps, kinds) by {
        if k < segs.len() {
            assert(segment_exact(segs, k, caps, kinds));
            assert(after[k] == segs[k]);
        }
    }
}

/// Without its last entry, an increasing stack still holds every other
/// entry it held.
proof fn lemma_pop_keeps(stack: Seq<usize>, j: usize)
    requires
        stack.len() > 0,
        stack.contains(j),
        j != stack.last(),
    ensures
        stack.drop_last().contains(j),
{
    let s = choose|s: int| 0 <= s < stack.len() && stack[s] == j;
    assert(s < stack.len() - 1);
    assert(stack.drop_last()[s] == j);
}

/// Walk `captures` over `input` and return the segments. The captures
/// come in `CaptureBegin` order: start-ascending, parent before child;
/// each segment then has the kind of the last capture covering its bytes.
/// Segments break exactly at capture boundaries: every segment ends where
/// a capture starts or ends (or at the end of the input), and for
/// well-nested captures every such position is a segment end. Adjacent
/// segments may share a kind.
#[verifier::rlimit(100)]
pub fn walk(input: &str, captures: &[Capture], capture_kinds: &[String]) -> (segs: Vec<Segment>)
    requires
        captures_fit(captures@, capture_kinds@.len(), input.spec_bytes().len()),
    ensures
        tiles(segs@, input.spec_bytes().len()),
        kinds_covered(segs@, captures@, capture_kinds@),
        ends_at_cuts(segs@, captures@, input.spec_bytes().len()),
        starts_sorted(captures@) ==> kinds_exact(segs@, captures@, capture_kinds@),
        starts_sorted(captures@) && nested(captures@) ==> cuts_kept(
            segs@,
            captures@,
            input.spec_bytes().len() as int,
            captures@.len() as int,
        ),
{
    let ghost sorted = starts_sorted(captures@);
    let ghost nest = starts_sorted(captures@) && nested(captures@);
    let ghost caps = captures@;
    let ghost kinds = capture_kinds@;
    let len = input.as_bytes().len();
    let mut out: Vec<Segment> = Vec::new();
    let mut stack: Vec<usize> = Vec::new();
    let mut cursor: usize = 0;
    let mut i: usize = 0;
    proof {
        reveal(cuts_kept);
    }
    while i < captures.len()
        invariant
            len == input.spec_bytes().len(),
            caps == captures@,
            kinds == capture_kinds@,
            sorted == starts_sorted(caps),
            nest == (starts_sorted(caps) && nested(caps)),
            nest ==> cuts_kept(out@, caps, cursor as int, i as int),
            nest ==> forall|a: int, b: int| 0 <= a < b < stack@.len() ==> caps[stack@[b] as int].end <= caps[stack@[a] as int].end,
            nest ==> forall|t: int| 0 <= t < stack@.len() ==> cursor <= caps[#[trigger] stack@[t] as int].end,
            captures_fit(captures@, capture_kinds@.len(), len as nat),
            i <= captures@.len(),
            cursor <= len,
            out@.len() == 0 ==> cursor == 0,
            out@.len() > 0 ==> out@.last().end == cursor,
            forall|k: int| 0 <= k < out@.len() ==> (#[trigger] out@[k]).start < out@[k].end,
            forall|k: int| 0 < k < out@.len() ==> (#[trigger] out@[k]).start == out@[k - 1].end,
            out@.len() > 0 ==> out@[0].start == 0,
            kinds_covered(out@, captures@, capture_kinds@),
            ends_at_cuts(out@, captures@, len as nat),
            forall|s: int| 0 <= s < stack@.len() ==> (#[trigger] stack@[s]) < captures@.len() && captures@[stack@[s] as int].start <= cursor,
            forall|a: int, b: int| 0 <= a < b < stack@.len() ==> stack@[a] < stack@[b],
            forall|s: int| 0 <= s < stack@.len() ==> (#[trigger] stack@[s]) < i,
            forall|j: int| 0 <= j < i && !stack@.contains(j as usize) ==> (#[trigger] caps[j]).end <= cursor,
            sorted ==> forall|j: int| i <= j < caps.len() ==> cursor <= (#[trigger] caps[j]).start,
            sorted ==> kinds_exact(out@, caps, kinds),
        decreases captures.len() - i,
    {
        let c = captures[i];
        loop
            invariant
                len == input.spec_bytes().len(),
                caps == captures@,
                kinds == capture_kinds@,
                sorted == starts_sorted(caps),
                nest == (starts_sorted(caps) && nested(caps)),
                nest ==> cuts_kept(out@, caps, cursor as int, i as int),
                nest ==> forall|a: int, b: int| 0 <= a < b < stack@.len() ==> caps[stack@[b] as int].end <= caps[stack@[a] as int].end,
                nest ==> forall|t: int| 0 <= t < stack@.len() ==> cursor <= caps[#[trigger] stack@[t] as int].end,
                captures_fit(captures@, capture_kinds@.len(), len as nat),
                i < captures@.len(),
                c == captures@[i as int],
                cursor <= len,
                sorted ==> cursor <= c.start,
                out@.len() == 0 ==> cursor == 0,
                out@.len() > 0 ==> out@.last().end == cursor,
                forall|k: int| 0 <= k < out@.len() ==> (#[trigger] out@[k]).start < out@[k].end,
                forall|k: int| 0 < k < out@.len() ==> (#[trigger] out@[k]).start == out@[k - 1].end,
                out@.len() > 0 ==> out@[0].start == 0,
                kinds_covered(out@, captures@, capture_kinds@),
                ends_at_cuts(out@, captures@, len as nat),
                forall|s: int| 0 <= s < stack@.len() ==> (#[trigger] stack@[s]) < captures@.len() && captures@[stack@[s] as int].start <= cursor,
                forall|a: int, b: int| 0 <= a < b < stack@.len() ==> stack@[a] < stack@[b],
                forall|s: int| 0 <= s < stack@.len() ==> (#[trigger] stack@[s]) < i,
                forall|j: int| 0 <= j < i && !stack@.contains(j as usize) ==> (#[trigger] caps[j]).end <= cursor,
                sorted ==> forall|j: int| i <= j < caps.len() ==> c.start <= (#[trigger] caps[j]).start,
                sorted ==> kinds_exact(out@, caps, kinds),
            ensures
                len == input.spec_bytes().len(),
                cursor <= len,
                sorted ==> cursor <= c.start,
                nest ==> cuts_kept(out@, caps, cursor as int, i as int),
                nest ==> forall|a: int, b: int| 0 <= a < b < stack@.len() ==> caps[stack@[b] as int].end <= caps[stack@[a] as int].end,
                nest ==> forall|t: int| 0 <= t < stack@.len() ==> cursor <= caps[#[trigger] stack@[t] as int].end,
                out@.len() == 0 ==> cursor == 0,
                out@.len() > 0 ==> out@.last().end == cursor,
                forall|k: int| 0 <= k < out@.len() ==> (#[trigger] out@[k]).start < out@[k].end,
                forall|k: int| 0 < k < out@.len() ==> (#[trigger] out@[k]).start == out@[k - 1].end,
                out@.len() > 0 ==> out@[0].start == 0,
                kinds_covered(out@, captures@, capture_kinds@),
                ends_at_cuts(out@, captures@, len as nat),
                forall|s: int| 0 <= s < stack@.len() ==> (#[trigger] stack@[s]) < captures@.len() && captures@[stack@[s] as int].start <= cursor,
                stack@.len() > 0 ==> captures@[stack@[stack@.len() - 1] as int].end > c.start,
                forall|a: int, b: int| 0 <= a < b < stack@.len() ==> stack@[a] < stack@[b],
                forall|s: int| 0 <= s < stack@.len() ==> (#[trigger] stack@[s]) < i,
                forall|j: int| 0 <= j < i && !stack@.contains(j as usize) ==> (#[trigger] caps[j]).end <= cursor,
                sorted ==> kinds_exact(out@, caps, kinds),
            decreases stack@.len(),
        {
            if stack.len() == 0 {
                break;
            }
            let top = stack[stack.len() - 1];
            let top_end = captures[top].end;
            if top_end > c.start {
                break;
            }
            let ghost old_cursor = cursor;
            if cursor < top_end {
                let kind = capture_kinds[captures[top].kind.0 as usize].clone();
                let ghost before = out@;
                let ghost seg = Segment { start: cursor, end: top_end, kind: Some(kind) };
                proof {
                    if sorted {
                        assert forall|p: int| seg.start <= p < seg.end implies seg.kind == #[trigger] kind_at(caps, kinds, p) by {
                            assert forall|j: int| top < j < caps.len() implies !covers(#[trigger] caps[j], p) by {
                                if j < i {
                                    if stack@.contains(j as usize) {
                                        let s = choose|s: int| 0 <= s < stack@.len() && stack@[s] == j as usize;
                                        if s < stack@.len() - 1 {
                                            assert(stack@[s] < stack@[stack@.len() - 1]);
                                        }
                                    }
                                } else {
                                    assert(c.start <= caps[j].start);
                                }
                            }
                            lemma_innermost_is(caps, caps.len() as int, p, top as int);
                        }
                        lemma_exact_push(before, caps, kinds, seg);
                    }
                }
                proof {
                    assert(caps[top as int].end == top_end);
                    assert(cut_at(caps, len as nat, top_end as int));
                }
                proof {
                    if nest {
                        lemma_stack_ends(caps, stack@, top_end as int);
                        lemma_no_cut_between(caps, stack@, i as int, cursor as int, top_end as int);
                        lemma_cuts_advance(before, caps, i as int, seg);
                    }
                }
                emit(&mut out, cursor, top_end, Some(kind));
                proof {
                    lemma_cut_push(before, caps, len as nat, seg);
                    lemma_covered_push(before, captures@, capture_kinds@, top as int, cursor, top_end);
                }
                cursor = top_end;
            }
            let ghost old_stack = stack@;
            stack.pop();
            proof {
                assert(stack@ == old_stack.drop_last());
                if nest {
                    assert(cursor == top_end);
                    assert forall|t: int| 0 <= t < stack@.len() implies cursor <= caps[#[trigger] stack@[t] as int].end by {
                        assert(stack@[t] == old_stack[t]);
                        assert(caps[old_stack[old_stack.len() - 1] as int].end <= caps[old_stack[t] as int].end);
                    }
                }
                assert forall|j: int| 0 <= j < i && !stack@.contains(j as usize) implies (#[trigger] caps[j]).end <= cursor by {
                    if j as usize != top {
                        if old_stack.contains(j as usize) {
                            lemma_pop_keeps(old_stack, j as usize);
                        }
                    }
                }
            }
        }
        if cursor < c.start {
            let kind = if stack.len() > 0 {
                let j = stack[stack.len() - 1];
                Some(capture_kinds[captures[j].kind.0 as usize].clone())
            } else {
                None
            };
            let ghost before = out@;
            let ghost seg = Segment { start: cursor, end: c.start, kind };
            proof {
                if sorted {
                    assert forall|p: int| seg.start <= p < seg.end implies seg.kind == #[trigger] kind_at(caps, kinds, p) by {
                        if stack@.len() > 0 {
                            let top = stack@[stack@.len() - 1] as int;
                            assert forall|j: int| top < j < caps.len() implies !covers(#[trigger] caps[j], p) by {
                                if j < i {
                                    if stack@.contains(j as usize) {
                                        let s = choose|s: int| 0 <= s < stack@.len() && stack@[s] == j as usize;
                                        if s < stack@.len() - 1 {
                                            assert(stack@[s] < stack@[stack@.len() - 1]);
                                        }
                                    }
                                } else {
                                    assert(c.start <= caps[j].start);
                                }
                            }
                            lemma_innermost_is(caps, caps.len() as int, p, top);
                        } else {
                            assert forall|j: int| 0 <= j < caps.len() implies !covers(#[trigger] caps[j], p) by {
                                if j < i {
                                    assert(!stack@.contains(j as usize));
                                } else {
                                    assert(c.start <= caps[j].start);
                                }
                            }
                            lemma_innermost_none(caps, caps.len() as int, p);
                        }
                    }
                    lemma_exact_push(before, caps, kinds, seg);
                }
            }
            proof {
                assert(caps[i as int].start == c.start);
                assert(cut_at(caps, len as nat, c.start as int));
            }
            proof {
                if nest {
                    if stack@.len() > 0 {
                        lemma_stack_ends(caps, stack@, c.start as int);
                    }
                    lemma_no_cut_between(caps, stack@, i as int, cursor as int, c.start as int);
                    lemma_cuts_advance(before, caps, i as int, seg);
                }
            }
            emit(&mut out, cursor, c.start, kind);
            proof {
                lemma_cut_push(before, caps, len as nat, seg);
                if stack@.len() > 0 {
                    let j = stack@[stack@.len() - 1] as int;
                    lemma_covered_push(before, captures@, capture_kinds@, j, cursor, c.start);
                } else {
                    assert(kinds_covered(out@, captures@, capture_kinds@)) by {
                        assert forall|k: int| 0 <= k < out@.len() && (#[trigger] out@[k]).kind is Some implies exists|
                            q: int,
                        |
                            0 <= q < captures@.len() && captures@[q].start <= out@[k].start && out@[k].end
                                <= captures@[q].end && out@[k].kind == Some(
                                capture_kinds@[captures@[q].kind.0 as int],
                            ) by {
                            assert(out@[k] == before[k]);
                        }
                    }
                }
            }
            cursor = c.start;
        }
        let ghost old_stack = stack@;
        proof {
            if nest {
                assert(cursor == c.start);
                lemma_push_nest(caps, stack@, i as int, cursor as int, out@);
            }
        }
        let ghost old_stack = stack@;
        stack.push(i);
        proof {
            assert forall|j: int| 0 <= j < i + 1 && !stack@.contains(j as usize) implies (#[trigger] caps[j]).end <= cursor by {
                if j < i && old_stack.contains(j as usize) {
                    let s = choose|s: int| 0 <= s < old_stack.len() && old_stack[s] == j as usize;
                    assert(stack@[s] == j as usize);
                }
                if j == i {
                    assert(stack@[stack@.len() - 1] == i);
                }
            }
        }
        i += 1;
    }
    while stack.len() > 0
        invariant
            len == input.spec_bytes().len(),
            caps == captures@,
            kinds == capture_kinds@,
            sorted == starts_sorted(caps),
            nest == (starts_sorted(caps) && nested(caps)),
            nest ==> cuts_kept(out@, caps, cursor as int, i as int),
            nest ==> forall|a: int, b: int| 0 <= a < b < stack@.len() ==> caps[stack@[b] as int].end <= caps[stack@[a] as int].end,
            nest ==> forall|t: int| 0 <= t < stack@.len() ==> cursor <= caps[#[trigger] stack@[t] as int].end,
            i == captures@.len(),
            captures_fit(captures@, capture_kinds@.len(), len as nat),
            cursor <= len,
            out@.len() == 0 ==> cursor == 0,
            out@.len() > 0 ==> out@.last().end == cursor,
            forall|k: int| 0 <= k < out@.len() ==> (#[trigger] out@[k]).start < out@[k].end,
            forall|k: int| 0 < k < out@.len() ==> (#[trigger] out@[k]).start == out@[k - 1].end,
            out@.len() > 0 ==> out@[0].start == 0,
            kinds_covered(out@, captures@, capture_kinds@),
            ends_at_cuts(out@, captures@, len as nat),
            forall|s: int| 0 <= s < stack@.len() ==> (#[trigger] stack@[s]) < captures@.len() && captures@[stack@[s] as int].start <= cursor,
            forall|a: int, b: int| 0 <= a < b < stack@.len() ==> stack@[a] < stack@[b],
            forall|j: int| 0 <= j < i && !stack@.contains(j as usize) ==> (#[trigger] caps[j]).end <= cursor,
            sorted ==> kinds_exact(out@, caps, kinds),
        decreases stack@.len(),
    {
        let ghost old_stack = stack@;
        let top = stack.pop().unwrap();
        proof {
            assert(stack@ == old_stack.drop_last());
            assert(top == old_stack.last());
        }
        let end = captures[top].end;
        if cursor < end {
            let kind = capture_kinds[captures[top].kind.0 as usize].clone();
            let ghost before = out@;
            let ghost seg = Segment { start: cursor, end: end, kind: Some(kind) };
            proof {
                if sorted {
                    assert forall|p: int| seg.start <= p < seg.end implies seg.kind == #[trigger] kind_at(caps, kinds, p) by {
                        assert forall|j: int| top < j < caps.len() implies !covers(#[trigger] caps[j], p) by {
                            if old_stack.contains(j as usize) {
                                let s = choose|s: int| 0 <= s < old_stack.len() && old_stack[s] == j as usize;
                                if s < old_stack.len() - 1 {
                                    assert(old_stack[s] < old_stack[old_stack.len() - 1]);
                                }
                            }
                        }
                        assert(caps[top as int].start <= cursor);
                        lemma_innermost_is(caps, caps.len() as int, p, top as int);
                    }
                    lemma_exact_push(before, caps, kinds, seg);
                }
            }
            proof {
                assert(caps[top as int].end == end);
                assert(cut_at(caps, len as nat, end as int));
            }
            proof {
                if nest {
                    lemma_stack_ends(caps, old_stack, end as int);
                    lemma_no_cut_between(caps, old_stack, i as int, cursor as int, end as int);
                    lemma_cuts_advance(before, caps, i as int, seg);
                }
            }
            emit(&mut out, cursor, end, Some(kind));
            proof {
                lemma_cut_push(before, caps, len as nat, seg);
                lemma_covered_push(before, captures@, capture_kinds@, top as int, cursor, end);
            }
            cursor = end;
        }
        proof {
            assert forall|s: int| 0 <= s < stack@.len() implies (#[trigger] stack@[s]) < captures@.len() && captures@[stack@[s] as int].start <= cursor by {
                assert(stack@[s] == old_stack[s]);
            }
            if nest {
                assert(cursor == end);
                assert forall|t: int| 0 <= t < stack@.len() implies cursor <= caps[#[trigger] stack@[t] as int].end by {
                    assert(stack@[t] == old_stack[t]);
                    assert(caps[old_stack[old_stack.len() - 1] as int].end <= caps[old_stack[t] as int].end);
                }
            }
            assert forall|j: int| 0 <= j < i && !stack@.contains(j as usize) implies (#[trigger] caps[j]).end <= cursor by {
                if j as usize != top {
                    if old_stack.contains(j as usize) {
                        lemma_pop_keeps(old_stack, j as usize);
                    }
                }
            }
        }
    }
    if cursor < len {
        let ghost before = out@;
        let ghost seg = Segment { start: cursor, end: len, kind: None };
        proof {
            if sorted {
                assert forall|p: int| seg.start <= p < seg.end implies seg.kind == #[trigger] kind_at(caps, kinds, p) by {
                    assert forall|j: int| 0 <= j < caps.len() implies !covers(#[trigger] caps[j], p) by {
                        assert(!stack@.contains(j as usize));
                    }
                    lemma_innermost_none(caps, caps.len() as int, p);
                }
                lemma_exact_push(before, caps, kinds, seg);
            }
        }
        proof {
            if nest {
                lemma_no_cut_between(caps, stack@, i as int, cursor as int, len as int);
                lemma_cuts_advance(before, caps, i as int, seg);
            }
        }
        emit(&mut out, cursor, len, None);
        proof {
            lemma_cut_push(before, caps, len as nat, seg);
            assert forall|k: int| 0 <= k < out@.len() && (#[trigger] out@[k]).kind is Some implies exists|q: int|
                0 <= q < captures@.len() && captures@[q].start <= out@[k].start && out@[k].end <= captures@[q].end
                    && out@[k].kind == Some(capture_kinds@[captures@[q].kind.0 as int]) by {
                assert(out@[k] == before[k]);
            }
        }
    }
    out
}

proof fn lemma_covered_push(
    before: Seq<Segment>,
    caps: Seq<Capture>,
    kinds: Seq<String>,
    j: int,
    from: usize,
    to: usize,
)
    requires
        kinds_covered(before, caps, kinds),
        0 <= j < caps.len(),
        caps[j].start <= from,
        to <= caps[j].end,
        0 <= caps[j].kind.0 < kinds.len(),
    ensures
        forall|kind: String|
            kind == kinds[caps[j].kind.0 as int] ==> kinds_covered(
                #[trigger] before.push(Segment { start: from, end: to, kind: Some(kind) }),
                caps,
                kinds,
            ),
{
    assert forall|kind: String| kind == kinds[caps[j].kind.0 as int] implies kinds_covered(
        #[trigger] before.push(Segment { start: from, end: to, kind: Some(kind) }),
        caps,
        kinds,
    ) by {
        let after = before.push(Segment { start: from, end: to, kind: Some(kind) });
        assert forall|k: int| 0 <= k < after.len() && (#[trigger] after[k]).kind is Some implies exists|q: int|
            0 <= q < caps.len() && caps[q].start <= after[k].start && after[k].end <= caps[q].end && after[k].kind
                == Some(kinds[caps[q].kind.0 as int]) by {
            if k < before.len() {
                assert(after[k] == before[k]);
            } else {
                assert(caps[j].start <= after[k].start);
            }
        }
    }
}

} // verus!
