//! Character set: an immutable sorted interval list over the Unicode
//! scalar value space, stored as inclusive `(char, char)` ranges.
//!
//! The canonical form keeps ranges sorted, each with `lo <= hi`, and
//! pairwise separated by at least one scalar value that lies outside
//! the set. Ranges that touch, overlap, or meet across the surrogate
//! gap (`U+D7FF` / `U+E000`) are merged at construction.
use vstd::prelude::*;

verus! {

/// `c` lies inside the inclusive range `r`.
pub open spec fn range_has(r: (char, char), c: char) -> bool {
    r.0 <= c && c <= r.1
}

/// `c` lies inside at least one of the ranges of `rs`.
pub open spec fn ranges_have(rs: Seq<(char, char)>, c: char) -> bool {
    exists|i: int| 0 <= i < rs.len() && #[trigger] range_has(rs[i], c)
}

/// Two ranges, `a` before `b`, leave at least one scalar value between them.
pub open spec fn separated(a: (char, char), b: (char, char)) -> bool {
    &&& (a.1 as int) + 1 < (b.0 as int)
    &&& !(a.1 as int == 0xD7FF && b.0 as int == 0xE000)
}

/// Every range of `rs` is non-inverted.
pub open spec fn all_ordered(rs: Seq<(char, char)>) -> bool {
    forall|i: int| 0 <= i < rs.len() ==> (#[trigger] rs[i]).0 <= rs[i].1
}

/// The canonical representation: non-inverted, ascending and pairwise separated.
pub open spec fn canonical(rs: Seq<(char, char)>) -> bool {
    &&& all_ordered(rs)
    &&& forall|i: int, j: int| 0 <= i < j < rs.len() ==> separated(#[trigger] rs[i], #[trigger] rs[j])
}

/// Ranges sorted by their lower bound (possibly overlapping).
pub open spec fn sorted_by_lo(rs: Seq<(char, char)>) -> bool {
    forall|i: int, j: int| 0 <= i <= j < rs.len() ==> (#[trigger] rs[i]).0 <= (#[trigger] rs[j]).0
}

/// The set of scalar values covered by `rs`.
pub open spec fn ranges_set(rs: Seq<(char, char)>) -> Set<char> {
    Set::new(|c: char| ranges_have(rs, c))
}

/// Immutable sorted, non-overlapping interval list over Unicode scalar
/// values.
#[derive(Debug, PartialEq, Eq, Hash)]
pub struct CharSet {
    ranges: Vec<(char, char)>,
}

/// Construction-time error for inverted ranges.
#[derive(Clone, Copy, Debug, PartialEq, Eq)]
pub enum CharSetError {
    /// `lo > hi` in a constructed range.
    InvertedRange(char, char),
}

impl CharSet {
    /// The range list, in canonical order.
    pub closed spec fn range_seq(&self) -> Seq<(char, char)> {
        self.ranges@
    }

    #[verifier::type_invariant]
    spec fn inv(self) -> bool {
        canonical(self.ranges@)
    }
}

impl Clone for CharSet {
    fn clone(&self) -> (res: Self)
        ensures
            res.range_seq() == self.range_seq(),
    {
        proof {
            use_type_invariant(self);
        }
        let mut out: Vec<(char, char)> = Vec::with_capacity(self.ranges.len());
        let mut i: usize = 0;
        while i < self.ranges.len()
            invariant
                i <= self.ranges.len(),
                out@ == self.ranges@.take(i as int),
            decreases self.ranges.len() - i,
        {
            out.push(self.ranges[i]);
            i += 1;
            proof {
                assert(out@ == self.ranges@.take(i as int));
            }
        }
        proof {
            assert(out@ == self.ranges@);
        }
        CharSet { ranges: out }
    }
}

impl View for CharSet {
    type V = Set<char>;

    open spec fn view(&self) -> Set<char> {
        ranges_set(self.range_seq())
    }
}

proof fn lemma_push_has(rs: Seq<(char, char)>, r: (char, char), c: char)
    ensures
        ranges_have(rs.push(r), c) == (ranges_have(rs, c) || range_has(r, c)),
{
    let s = rs.push(r);
    if ranges_have(rs, c) {
        let i = choose|i: int| 0 <= i < rs.len() && #[trigger] range_has(rs[i], c);
        assert(s[i] == rs[i]);
    }
    if range_has(r, c) {
        assert(s[rs.len() as int] == r);
    }
    if ranges_have(s, c) {
        let i = choose|i: int| 0 <= i < s.len() && #[trigger] range_has(s[i], c);
        if i < rs.len() {
            assert(s[i] == rs[i]);
        }
    }
}

proof fn lemma_insert_has(rs: Seq<(char, char)>, j: int, r: (char, char), c: char)
    requires
        0 <= j <= rs.len(),
    ensures
        ranges_have(rs.insert(j, r), c) == (ranges_have(rs, c) || range_has(r, c)),
{
    let s = rs.insert(j, r);
    if ranges_have(rs, c) {
        let i = choose|i: int| 0 <= i < rs.len() && #[trigger] range_has(rs[i], c);
        if i < j {
            assert(s[i] == rs[i]);
        } else {
            assert(s[i + 1] == rs[i]);
        }
    }
    if range_has(r, c) {
        assert(s[j] == r);
    }
    if ranges_have(s, c) {
        let i = choose|i: int| 0 <= i < s.len() && #[trigger] range_has(s[i], c);
        if i < j {
            assert(s[i] == rs[i]);
        } else if i > j {
            assert(s[i] == rs[i - 1]);
        }
    }
}

proof fn lemma_merge_has(last: (char, char), r: (char, char), new_hi: char, c: char)
    requires
        last.0 <= last.1,
        r.0 <= r.1,
        last.0 <= r.0,
        (r.0 as int) <= (last.1 as int) + 1 || (last.1 as int == 0xD7FF && r.0 as int == 0xE000),
        new_hi == (if r.1 > last.1 { r.1 } else { last.1 }),
    ensures
        range_has((last.0, new_hi), c) == (range_has(last, c) || range_has(r, c)),
{
}

proof fn lemma_take_push_has(rs: Seq<(char, char)>, i: int, c: char)
    requires
        0 <= i < rs.len(),
    ensures
        ranges_have(rs.take(i + 1), c) == (ranges_have(rs.take(i), c) || range_has(rs[i], c)),
{
    assert(rs.take(i + 1) == rs.take(i).push(rs[i]));
    lemma_push_has(rs.take(i), rs[i], c);
}

/// The scalar value of `c`.
pub fn char_value(c: char) -> (v: u32)
    ensures
        v as int == c as int,
        v <= 0x10FFFF,
        !(0xD800 <= v <= 0xDFFF),
{
    proof {
        lemma_char_bounds(c);
    }
    c as u32
}

/// Every `char` is a Unicode scalar value.
pub proof fn lemma_char_bounds(c: char)
    ensures
        0 <= c as int <= 0x10FFFF,
        !(0xD800 <= c as int <= 0xDFFF),
{
}

/// Sort ranges by lower bound, keeping the same cover.
fn sort_by_lo(input: &Vec<(char, char)>) -> (out: Vec<(char, char)>)
    requires
        all_ordered(input@),
    ensures
        sorted_by_lo(out@),
        all_ordered(out@),
        out.len() == input.len(),
        forall|c: char| ranges_have(out@, c) == ranges_have(input@, c),
{
    let mut out: Vec<(char, char)> = Vec::with_capacity(input.len());
    let n = input.len();
    let mut i: usize = 0;
    while i < n
        invariant
            n == input.len(),
            i <= n,
            out.len() == i,
            all_ordered(input@),
            sorted_by_lo(out@),
            all_ordered(out@),
            forall|c: char| ranges_have(out@, c) == ranges_have(input@.take(i as int), c),
        decreases n - i,
    {
        let r = input[i];
        let mut j: usize = 0;
        while j < out.len() && out[j].0 <= r.0
            invariant
                j <= out.len(),
                forall|k: int| 0 <= k < j ==> (#[trigger] out@[k]).0 <= r.0,
            decreases out.len() - j,
        {
            j += 1;
        }
        let ghost old_out = out@;
        out.insert(j, r);
        proof {
            assert(out@ == old_out.insert(j as int, r));
            assert forall|a: int, b: int| 0 <= a <= b < out@.len() implies (#[trigger] out@[a]).0 <= (
            #[trigger] out@[b]).0 by {
                if a < j && b < j {
                    assert(out@[a] == old_out[a] && out@[b] == old_out[b]);
                } else if a < j && b == j {
                    assert(out@[a] == old_out[a]);
                } else if a < j {
                    assert(out@[a] == old_out[a] && out@[b] == old_out[b - 1]);
                } else if a == j && b > j {
                    assert(out@[b] == old_out[b - 1]);
                    assert(old_out[j as int].0 > r.0);
                } else if a > j {
                    assert(out@[a] == old_out[a - 1] && out@[b] == old_out[b - 1]);
                }
            }
            assert forall|a: int| 0 <= a < out@.len() implies (#[trigger] out@[a]).0 <= out@[a].1 by {
                if a < j {
                    assert(out@[a] == old_out[a]);
                } else if a > j {
                    assert(out@[a] == old_out[a - 1]);
                }
            }
            assert forall|c: char| ranges_have(out@, c) == ranges_have(input@.take(i + 1), c) by {
                lemma_insert_has(old_out, j as int, r, c);
                lemma_take_push_has(input@, i as int, c);
            }
        }
        i += 1;
    }
    proof {
        assert(input@.take(n as int) == input@);
    }
    out
}

/// Merge sorted ranges into the canonical form.
fn merge_sorted(sorted: &Vec<(char, char)>) -> (out: Vec<(char, char)>)
    requires
        sorted_by_lo(sorted@),
        all_ordered(sorted@),
    ensures
        canonical(out@),
        out.len() <= sorted.len(),
        forall|c: char| ranges_have(out@, c) == ranges_have(sorted@, c),
{
    let mut out: Vec<(char, char)> = Vec::with_capacity(sorted.len());
    let n = sorted.len();
    let mut i: usize = 0;
    while i < n
        invariant
            n == sorted.len(),
            i <= n,
            out.len() <= i,
            sorted_by_lo(sorted@),
            all_ordered(sorted@),
            canonical(out@),
            i > 0 ==> out.len() > 0 && out@[out.len() - 1].0 <= sorted@[i - 1].0,
            i == 0 ==> out.len() == 0,
            forall|c: char| ranges_have(out@, c) == ranges_have(sorted@.take(i as int), c),
        decreases n - i,
    {
        let r = sorted[i];
        let lo = r.0;
        let hi = r.1;
        proof {
            assert(r.0 <= r.1);
            if i > 0 {
                assert(sorted@[i - 1].0 <= sorted@[i as int].0);
            }
        }
        let mut merged = false;
        if out.len() > 0 {
            let li = out.len() - 1;
            let last = out[li];
            let bridges = last.1 == '\u{D7FF}' && lo == '\u{E000}';
            let last_hi_value = char_value(last.1);
            if char_value(lo) <= last_hi_value + 1 || bridges {
                let ghost old_out = out@;
                let new_hi = if hi > last.1 { hi } else { last.1 };
                out.set(li, (last.0, new_hi));
                proof {
                    assert(out@ == old_out.update(li as int, (last.0, new_hi)));
                    assert forall|a: int, b: int| 0 <= a < b < out@.len() implies separated(
                        #[trigger] out@[a],
                        #[trigger] out@[b],
                    ) by {
                        assert(out@[a] == old_out[a]);
                        assert(separated(old_out[a], old_out[b]));
                    }
                    assert forall|a: int| 0 <= a < out@.len() implies (#[trigger] out@[a]).0
                        <= out@[a].1 by {
                        if a < li {
                            assert(out@[a] == old_out[a]);
                        }
                    }
                    assert forall|c: char| ranges_have(out@, c) == ranges_have(
                        sorted@.take(i + 1),
                        c,
                    ) by {
                        lemma_take_push_has(sorted@, i as int, c);
                        let prefix = old_out.take(li as int);
                        assert(old_out == prefix.push(last));
                        assert(out@ == prefix.push((last.0, new_hi)));
                        lemma_push_has(prefix, last, c);
                        lemma_push_has(prefix, (last.0, new_hi), c);
                        lemma_merge_has(last, r, new_hi, c);
                    }
                }
                merged = true;
            }
        }
        if !merged {
            let ghost old_out = out@;
            out.push(r);
            proof {
                assert(out@ == old_out.push(r));
                if old_out.len() > 0 {
                    let li = old_out.len() - 1;
                    let last = old_out[li];
                    assert(separated(last, r));
                    assert forall|a: int, b: int| 0 <= a < b < out@.len() implies separated(
                        #[trigger] out@[a],
                        #[trigger] out@[b],
                    ) by {
                        assert(out@[a] == old_out[a]);
                        if b < old_out.len() {
                            assert(out@[b] == old_out[b]);
                        } else if a < li {
                            assert(separated(old_out[a], last));
                        }
                    }
                }
                assert forall|a: int| 0 <= a < out@.len() implies (#[trigger] out@[a]).0
                    <= out@[a].1 by {
                    if a < old_out.len() {
                        assert(out@[a] == old_out[a]);
                    }
                }
                assert forall|c: char| ranges_have(out@, c) == ranges_have(sorted@.take(i + 1), c) by {
                    lemma_take_push_has(sorted@, i as int, c);
                    lemma_push_has(old_out, r, c);
                }
            }
        }
        i += 1;
    }
    proof {
        assert(sorted@.take(n as int) == sorted@);
    }
    out
}

} // verus!

verus! {

/// `char::from_u32`: the scalar value `v` as a `char`, when `v` is one.
#[verifier::external_body]
pub(crate) fn scalar_to_char(v: u32) -> (r: Option<char>)
    ensures
        r is Some <==> (v < 0xD800 || (0xE000 <= v && v <= 0x10FFFF)),
        r matches Some(c) ==> c as int == v as int,
{
    char::from_u32(v)
}

/// The next scalar value after `c`, skipping the surrogate gap; `None` at `char::MAX`.
fn next_char(c: char) -> (r: Option<char>)
    ensures
        r is None <==> c as int == 0x10FFFF,
        r matches Some(n) ==> c < n,
        r matches Some(n) ==> (n as int == c as int + 1 || (c as int == 0xD7FF && n as int == 0xE000)),
{
    let v = char_value(c);
    if v == 0xD7FF {
        Some('\u{E000}')
    } else if v == 0x10FFFF {
        None
    } else {
        scalar_to_char(v + 1)
    }
}

/// The scalar value before `c`, skipping the surrogate gap.
fn prev_char(c: char) -> (p: char)
    requires
        c as int != 0,
    ensures
        p < c,
        p as int == c as int - 1 || (c as int == 0xE000 && p as int == 0xD7FF),
{
    let v = char_value(c);
    if v == 0xE000 {
        '\u{D7FF}'
    } else {
        let r = scalar_to_char(v - 1);
        r.unwrap()
    }
}

proof fn lemma_concat_has(a: Seq<(char, char)>, b: Seq<(char, char)>, c: char)
    ensures
        ranges_have(a + b, c) == (ranges_have(a, c) || ranges_have(b, c)),
{
    let s = a + b;
    if ranges_have(a, c) {
        let i = choose|i: int| 0 <= i < a.len() && #[trigger] range_has(a[i], c);
        assert(s[i] == a[i]);
    }
    if ranges_have(b, c) {
        let i = choose|i: int| 0 <= i < b.len() && #[trigger] range_has(b[i], c);
        assert(s[a.len() + i] == b[i]);
    }
    if ranges_have(s, c) {
        let i = choose|i: int| 0 <= i < s.len() && #[trigger] range_has(s[i], c);
        if i < a.len() {
            assert(s[i] == a[i]);
        } else {
            assert(s[i] == b[i - a.len()]);
        }
    }
}

/// Lower bound of the open cursor (`None` means every scalar lies below it).
spec fn below(cursor: Option<char>, c: char) -> bool {
    match cursor {
        Some(x) => c < x,
        None => true,
    }
}

proof fn lemma_negate_step(
    old_out: Seq<(char, char)>,
    new_out: Seq<(char, char)>,
    prefix: Seq<(char, char)>,
    x: char,
    lo: char,
    hi: char,
    piece: (char, char),
    nx: Option<char>,
    c: char,
)
    requires
        lo <= hi,
        x <= lo,
        forall|k: int| 0 <= k < prefix.len() ==> (#[trigger] prefix[k]).1 < x,
        ranges_have(old_out, c) == (c < x && !ranges_have(prefix, c)),
        x < lo ==> piece.0 == x && (piece.1 as int == lo as int - 1 || (lo as int == 0xE000
            && piece.1 as int == 0xD7FF)),
        x < lo ==> new_out == old_out.push(piece),
        !(x < lo) ==> new_out == old_out,
        nx is None <==> hi as int == 0x10FFFF,
        nx matches Some(y) ==> (y as int == hi as int + 1 || (hi as int == 0xD7FF && y as int
            == 0xE000)),
    ensures
        ranges_have(new_out, c) == (below(nx, c) && !ranges_have(prefix.push((lo, hi)), c)),
{
    lemma_char_bounds(c);
    lemma_char_bounds(lo);
    lemma_char_bounds(hi);
    lemma_push_has(prefix, (lo, hi), c);
    if x < lo {
        lemma_push_has(old_out, piece, c);
    }
    if ranges_have(prefix, c) {
        let k = choose|k: int| 0 <= k < prefix.len() && #[trigger] range_has(prefix[k], c);
        assert(prefix[k].1 < x);
    }
}

/// Within a canonical list, a scalar in range `k` is in no other range.
proof fn lemma_canonical_order(rs: Seq<(char, char)>, i: int, j: int)
    requires
        canonical(rs),
        0 <= i < j < rs.len(),
    ensures
        rs[i].1 < rs[j].0,
        rs[i].0 < rs[j].0,
{
    assert(separated(rs[i], rs[j]));
    assert(rs[i].0 <= rs[i].1);
}

impl CharSet {
    /// Empty set. Matches no code points.
    pub fn empty() -> (s: Self)
        ensures
            s@ == Set::<char>::empty(),
            s.range_seq() == Seq::<(char, char)>::empty(),
    {
        let s = CharSet { ranges: Vec::new() };
        proof {
            assert(s@ =~= Set::<char>::empty());
        }
        s
    }

    /// Full set: every Unicode scalar value, as the single range
    /// `('\0', char::MAX)`.
    pub fn any() -> (s: Self)
        ensures
            s@ == Set::<char>::full(),
            s.range_seq() == seq![('\0', '\u{10FFFF}')],
    {
        let s = CharSet { ranges: vec![('\0', '\u{10FFFF}')] };
        proof {
            assert forall|c: char| s@.contains(c) by {
                lemma_char_bounds(c);
                assert(range_has(s.ranges@[0], c));
            }
            assert(s@ =~= Set::<char>::full());
        }
        s
    }

    /// Normalise a list of non-inverted ranges into canonical form.
    fn from_sorted_dedup(ranges: Vec<(char, char)>) -> (s: Self)
        requires
            all_ordered(ranges@),
        ensures
            forall|c: char| s@.contains(c) == ranges_have(ranges@, c),
            s.range_seq().len() <= ranges@.len(),
    {
        let sorted = sort_by_lo(&ranges);
        let out = merge_sorted(&sorted);
        CharSet { ranges: out }
    }

    /// Build from a list of inclusive ranges, in any order and possibly
    /// overlapping. Errors on the first inverted range.
    pub fn from_ranges(input: &[(char, char)]) -> (r: Result<Self, CharSetError>)
        ensures
            r is Ok <==> all_ordered(input@),
            r matches Ok(s) ==> forall|c: char| s@.contains(c) == ranges_have(input@, c),
            r matches Err(CharSetError::InvertedRange(lo, hi)) ==> exists|i: int|
                0 <= i < input@.len() && (#[trigger] input@[i]) == (lo, hi) && lo > hi
                    && all_ordered(input@.take(i)),
    {
        let mut ranges: Vec<(char, char)> = Vec::with_capacity(input.len());
        let mut i: usize = 0;
        while i < input.len()
            invariant
                i <= input.len(),
                ranges@ == input@.take(i as int),
                all_ordered(input@.take(i as int)),
            decreases input.len() - i,
        {
            let (lo, hi) = input[i];
            if lo > hi {
                proof {
                    assert(input@[i as int] == (lo, hi));
                }
                return Err(CharSetError::InvertedRange(lo, hi));
            }
            ranges.push((lo, hi));
            i += 1;
            proof {
                assert(ranges@ == input@.take(i as int));
                assert forall|k: int| 0 <= k < i implies (#[trigger] input@.take(i as int)[k]).0
                    <= input@.take(i as int)[k].1 by {
                    if k < i - 1 {
                        assert(input@.take(i as int)[k] == input@.take(i - 1)[k]);
                    }
                }
            }
        }
        proof {
            assert(input@.take(input@.len() as int) == input@);
        }
        Ok(CharSet::from_sorted_dedup(ranges))
    }

    /// Single-range convenience constructor.
    pub fn single_range(lo: char, hi: char) -> (r: Result<Self, CharSetError>)
        ensures
            r is Ok <==> lo <= hi,
            r matches Ok(s) ==> forall|c: char| s@.contains(c) == (lo <= c && c <= hi),
            r matches Err(e) ==> e == CharSetError::InvertedRange(lo, hi),
    {
        let arr = [(lo, hi)];
        let r = Self::from_ranges(&arr);
        proof {
            assert(arr@ == seq![(lo, hi)]);
            if let Ok(ref s) = r {
                assert forall|c: char| s@.contains(c) == (lo <= c && c <= hi) by {
                    if lo <= c && c <= hi {
                        assert(range_has(arr@[0], c));
                    }
                }
            }
        }
        r
    }

    /// Singleton constructor: the set `{c}`.
    pub fn singleton(c: char) -> (s: Self)
        ensures
            s@ == Set::<char>::empty().insert(c),
            s.range_seq() == seq![(c, c)],
    {
        let s = CharSet { ranges: vec![(c, c)] };
        proof {
            assert forall|d: char| s@.contains(d) == (d == c) by {
                if d == c {
                    assert(range_has(s.ranges@[0], d));
                }
            }
            assert(s@ =~= Set::<char>::empty().insert(c));
        }
        s
    }

    /// Build from a list of individual characters.
    pub fn from_chars(chars: &[char]) -> (s: Self)
        ensures
            forall|c: char| s@.contains(c) == chars@.contains(c),
    {
        let mut ranges: Vec<(char, char)> = Vec::with_capacity(chars.len());
        let mut i: usize = 0;
        while i < chars.len()
            invariant
                i <= chars.len(),
                ranges.len() == i,
                all_ordered(ranges@),
                forall|k: int| 0 <= k < i ==> #[trigger] ranges@[k] == (chars@[k], chars@[k]),
            decreases chars.len() - i,
        {
            ranges.push((chars[i], chars[i]));
            i += 1;
        }
        let s = Self::from_sorted_dedup(ranges);
        proof {
            assert forall|c: char| s@.contains(c) == chars@.contains(c) by {
                if chars@.contains(c) {
                    let k = choose|k: int| 0 <= k < chars@.len() && chars@[k] == c;
                    assert(range_has(ranges@[k], c));
                }
                if ranges_have(ranges@, c) {
                    let k = choose|k: int| 0 <= k < ranges@.len() && #[trigger] range_has(ranges@[k], c);
                    assert(chars@[k] == c);
                }
            }
        }
        s
    }

    /// True iff the code point is in the set. Binary search over the ranges.
    pub fn contains_char(&self, c: char) -> (r: bool)
        ensures
            r == self@.contains(c),
    {
        proof {
            use_type_invariant(self);
        }
        let n = self.ranges.len();
        let mut lo: usize = 0;
        let mut hi: usize = n;
        while lo < hi
            invariant
                n == self.ranges.len(),
                canonical(self.ranges@),
                0 <= lo <= hi <= n,
                forall|k: int| 0 <= k < lo ==> (#[trigger] self.ranges@[k]).0 <= c,
                forall|k: int| hi <= k < n ==> (#[trigger] self.ranges@[k]).0 > c,
            decreases hi - lo,
        {
            let mid = lo + (hi - lo) / 2;
            if self.ranges[mid].0 <= c {
                proof {
                    assert forall|k: int| 0 <= k < mid + 1 implies (#[trigger] self.ranges@[k]).0
                        <= c by {
                        if k < mid {
                            lemma_canonical_order(self.ranges@, k, mid as int);
                        }
                    }
                }
                lo = mid + 1;
            } else {
                proof {
                    assert forall|k: int| mid <= k < n implies (#[trigger] self.ranges@[k]).0 > c by {
                        if k > mid {
                            lemma_canonical_order(self.ranges@, mid as int, k);
                        }
                    }
                }
                hi = mid;
            }
        }
        if lo == 0 {
            proof {
                if ranges_have(self.ranges@, c) {
                    let k = choose|k: int| 0 <= k < n && #[trigger] range_has(self.ranges@[k], c);
                    assert(self.ranges@[k].0 > c);
                }
            }
            false
        } else {
            let r = self.ranges[lo - 1].1 >= c;
            proof {
                if r {
                    assert(range_has(self.ranges@[lo - 1], c));
                }
                if ranges_have(self.ranges@, c) {
                    let k = choose|k: int| 0 <= k < n && #[trigger] range_has(self.ranges@[k], c);
                    if k < lo - 1 {
                        lemma_canonical_order(self.ranges@, k, lo - 1);
                    } else if k >= lo {
                        assert(self.ranges@[k].0 > c);
                    }
                }
            }
            r
        }
    }

    /// True iff the set contains the code point identified by `c`;
    /// `false` for values that are not Unicode scalar values.
    pub fn contains(&self, c: u32) -> (r: bool)
        ensures
            r == exists|ch: char| ch as int == c as int && self@.contains(ch),
    {
        match scalar_to_char(c) {
            Some(ch) => self.contains_char(ch),
            None => {
                proof {
                    assert forall|ch: char| ch as int == c as int implies !self@.contains(ch) by {
                        lemma_char_bounds(ch);
                    }
                }
                false
            },
        }
    }

    /// Union with another set.
    pub fn union(&self, other: &CharSet) -> (u: CharSet)
        ensures
            forall|c: char| u@.contains(c) == (self@.contains(c) || other@.contains(c)),
    {
        proof {
            use_type_invariant(self);
            use_type_invariant(other);
        }
        let mut merged: Vec<(char, char)> = Vec::new();
        let mut i: usize = 0;
        while i < self.ranges.len()
            invariant
                i <= self.ranges.len(),
                merged@ == self.ranges@.take(i as int),
            decreases self.ranges.len() - i,
        {
            merged.push(self.ranges[i]);
            i += 1;
            proof {
                assert(merged@ == self.ranges@.take(i as int));
            }
        }
        let mut j: usize = 0;
        while j < other.ranges.len()
            invariant
                j <= other.ranges.len(),
                merged@ == self.ranges@ + other.ranges@.take(j as int),
            decreases other.ranges.len() - j,
        {
            merged.push(other.ranges[j]);
            j += 1;
            proof {
                assert(merged@ == self.ranges@ + other.ranges@.take(j as int));
            }
        }
        proof {
            assert(self.ranges@.take(self.ranges@.len() as int) == self.ranges@);
            assert(other.ranges@.take(other.ranges@.len() as int) == other.ranges@);
            assert(merged@ == self.ranges@ + other.ranges@);
            assert forall|k: int| 0 <= k < merged@.len() implies (#[trigger] merged@[k]).0
                <= merged@[k].1 by {
                if k < self.ranges@.len() {
                    assert(merged@[k] == self.ranges@[k]);
                } else {
                    assert(merged@[k] == other.ranges@[k - self.ranges@.len()]);
                }
            }
        }
        let u = CharSet::from_sorted_dedup(merged);
        proof {
            assert forall|c: char| u@.contains(c) == (self@.contains(c) || other@.contains(c)) by {
                lemma_concat_has(self.ranges@, other.ranges@, c);
            }
        }
        u
    }

    /// Complementing twice gives back the set one started from, down to
    /// its canonical ranges.
    pub proof fn law_negate_twice(a: CharSet, n: CharSet, nn: CharSet)
        requires
            canonical(a.range_seq()),
            canonical(nn.range_seq()),
            forall|c: char| n@.contains(c) == !a@.contains(c),
            forall|c: char| nn@.contains(c) == !n@.contains(c),
        ensures
            nn@ == a@,
            nn.range_seq() == a.range_seq(),
    {
        assert(nn@ =~= a@);
        assert forall|c: char| ranges_have(nn.range_seq(), c) == ranges_have(a.range_seq(), c) by {
            assert(nn@.contains(c) == a@.contains(c));
        }
        lemma_canonical_unique(nn.range_seq(), a.range_seq());
    }

    /// Two sets over the same scalar values have the same canonical ranges.
    pub proof fn law_same_values_same_ranges(a: CharSet, b: CharSet)
        requires
            canonical(a.range_seq()),
            canonical(b.range_seq()),
            a@ == b@,
        ensures
            a.range_seq() == b.range_seq(),
    {
        assert forall|c: char| ranges_have(a.range_seq(), c) == ranges_have(b.range_seq(), c) by {
            assert(ranges_set(a.range_seq()).contains(c) == ranges_have(a.range_seq(), c));
            assert(ranges_set(b.range_seq()).contains(c) == ranges_have(b.range_seq(), c));
            assert(ranges_set(a.range_seq()) == ranges_set(b.range_seq()));
        }
        lemma_canonical_unique(a.range_seq(), b.range_seq());
    }

    /// Complement with respect to the Unicode scalar value space.
    pub fn negate(&self) -> (n: CharSet)
        ensures
            forall|c: char| n@.contains(c) == !self@.contains(c),
    {
        proof {
            use_type_invariant(self);
        }
        let rs = &self.ranges;
        let len = rs.len();
        let mut out: Vec<(char, char)> = Vec::new();
        let mut cursor: Option<char> = Some('\0');
        let mut i: usize = 0;
        proof {
            assert forall|c: char| ranges_have(out@, c) == (below(cursor, c) && !ranges_have(
                rs@.take(0),
                c,
            )) by {
                lemma_char_bounds(c);
            }
        }
        while i < len
            invariant
                len == rs.len(),
                i <= len,
                canonical(rs@),
                canonical(out@),
                cursor is None ==> i == len,
                cursor matches Some(x) ==> (i == 0 ==> x as int == 0),
                cursor matches Some(x) ==> (i > 0 ==> (x as int == rs@[i - 1].1 as int + 1 || (
                rs@[i - 1].1 as int == 0xD7FF && x as int == 0xE000))),
                cursor matches Some(x) ==> forall|k: int| 0 <= k < i ==> (#[trigger] rs@[k]).1 < x,
                cursor matches Some(x) ==> (out.len() > 0 ==> separated(out@[out.len() - 1], (x, x))),
                forall|c: char| ranges_have(out@, c) == (below(cursor, c) && !ranges_have(
                    rs@.take(i as int),
                    c,
                )),
            decreases len - i,
        {
            let (lo, hi) = rs[i];
            let x = cursor.unwrap();
            proof {
                assert(rs@[i as int].0 <= rs@[i as int].1);
                lemma_char_bounds(x);
                lemma_char_bounds(lo);
                if i > 0 {
                    lemma_canonical_order(rs@, i - 1, i as int);
                    assert(separated(rs@[i - 1], rs@[i as int]));
                }
                assert(x <= lo);
            }
            let ghost old_out = out@;
            let ghost mut piece: (char, char) = (x, x);
            if x < lo {
                let p = prev_char(lo);
                proof {
                    piece = (x, p);
                }
                out.push((x, p));
                proof {
                    assert(out@ == old_out.push((x, p)));
                    assert forall|a: int, b: int| 0 <= a < b < out@.len() implies separated(
                        #[trigger] out@[a],
                        #[trigger] out@[b],
                    ) by {
                        assert(out@[a] == old_out[a]);
                        if b < old_out.len() {
                            assert(out@[b] == old_out[b]);
                        } else {
                            let lst = old_out[old_out.len() - 1];
                            assert(separated(lst, (x, x)));
                            if a < old_out.len() - 1 {
                                assert(separated(old_out[a], lst));
                                assert(lst.0 <= lst.1);
                                lemma_char_bounds(lst.1);
                            }
                        }
                    }
                    assert forall|a: int| 0 <= a < out@.len() implies (#[trigger] out@[a]).0
                        <= out@[a].1 by {
                        if a < old_out.len() {
                            assert(out@[a] == old_out[a]);
                        }
                    }
                }
            }
            let nx = next_char(hi);
            proof {
                assert(rs@.take(i + 1) == rs@.take(i as int).push((lo, hi)));
                assert forall|k: int| 0 <= k < rs@.take(i as int).len() implies (
                #[trigger] rs@.take(i as int)[k]).1 < x by {
                    assert(rs@.take(i as int)[k] == rs@[k]);
                }
                assert forall|c: char| ranges_have(out@, c) == (below(nx, c) && !ranges_have(
                    rs@.take(i + 1),
                    c,
                )) by {
                    assert(below(cursor, c) == (c < x));
                    assert(ranges_have(old_out, c) == (c < x && !ranges_have(rs@.take(i as int), c)));
                    lemma_negate_step(old_out, out@, rs@.take(i as int), x, lo, hi, piece, nx, c);
                }
                if nx is None {
                    if i + 1 < len {
                        lemma_canonical_order(rs@, i as int, i + 1);
                        assert(separated(rs@[i as int], rs@[i + 1]));
                        lemma_char_bounds(rs@[i + 1].0);
                    }
                }
                if let Some(y) = nx {
                    assert forall|k: int| 0 <= k < i + 1 implies (#[trigger] rs@[k]).1 < y by {
                        if k < i {
                            lemma_canonical_order(rs@, k, i as int);
                        }
                    }
                    if out.len() > 0 {
                        lemma_char_bounds(y);
                        lemma_char_bounds(hi);
                    }
                }
            }
            let ghost out_now = out@;
            let ghost i_old = i;
            assert(forall|c: char| ranges_have(out_now, c) == (below(nx, c) && !ranges_have(
                    rs@.take(i_old + 1),
                    c,
                )));
            cursor = nx;
            i += 1;
            proof {
                assert forall|c: char| ranges_have(out@, c) == (below(cursor, c) && !ranges_have(
                    rs@.take(i as int),
                    c,
                )) by {
                    assert(ranges_have(out_now, c) == (below(nx, c) && !ranges_have(
                        rs@.take(i as int),
                        c,
                    )));
                }
            }
        }
        let ghost pre_final = out@;
        if let Some(x) = cursor {
            let ghost old_out = out@;
            out.push((x, '\u{10FFFF}'));
            proof {
                lemma_char_bounds(x);
                assert(out@ == old_out.push((x, '\u{10FFFF}')));
                assert forall|a: int, b: int| 0 <= a < b < out@.len() implies separated(
                    #[trigger] out@[a],
                    #[trigger] out@[b],
                ) by {
                    assert(out@[a] == old_out[a]);
                    if b < old_out.len() {
                        assert(out@[b] == old_out[b]);
                    } else {
                        let lst = old_out[old_out.len() - 1];
                        if a < old_out.len() - 1 {
                            assert(separated(old_out[a], lst));
                            assert(lst.0 <= lst.1);
                            lemma_char_bounds(lst.1);
                        }
                    }
                }
                assert forall|a: int| 0 <= a < out@.len() implies (#[trigger] out@[a]).0
                    <= out@[a].1 by {
                    if a < old_out.len() {
                        assert(out@[a] == old_out[a]);
                    }
                }
            }
        }
        let n = CharSet { ranges: out };
        proof {
            assert(rs@.take(len as int) == rs@);
            assert forall|c: char| n@.contains(c) == !self@.contains(c) by {
                lemma_char_bounds(c);
                assert(ranges_have(pre_final, c) == (below(cursor, c) && !ranges_have(rs@, c)));
                if let Some(x) = cursor {
                    lemma_push_has(pre_final, (x, '\u{10FFFF}'), c);
                    if ranges_have(rs@, c) {
                        let k = choose|k: int| 0 <= k < rs@.len() && #[trigger] range_has(rs@[k], c);
                        assert(rs@[k].1 < x);
                    }
                }
                assert(n@.contains(c) == ranges_have(out@, c));
                assert(self@.contains(c) == ranges_have(rs@, c));
            }
        }
        n
    }

    /// The two sets have the same range list (so the same members).
    pub fn same_as(&self, other: &CharSet) -> (b: bool)
        ensures
            b == (self.range_seq() == other.range_seq()),
    {
        if self.ranges.len() != other.ranges.len() {
            return false;
        }
        let mut i: usize = 0;
        while i < self.ranges.len()
            invariant
                i <= self.ranges.len(),
                self.ranges.len() == other.ranges.len(),
                forall|k: int| 0 <= k < i ==> #[trigger] self.ranges@[k] == other.ranges@[k],
            decreases self.ranges.len() - i,
        {
            if self.ranges[i].0 != other.ranges[i].0 || self.ranges[i].1 != other.ranges[i].1 {
                return false;
            }
            i += 1;
        }
        proof {
            assert(self.ranges@ =~= other.ranges@);
        }
        true
    }

    /// Borrow the internal sorted range list.
    pub fn ranges(&self) -> (r: &[(char, char)])
        ensures
            r@ == self.range_seq(),
            canonical(r@),
    {
        proof {
            use_type_invariant(self);
        }
        self.ranges.as_slice()
    }

    /// Number of disjoint intervals in the set.
    pub fn interval_count(&self) -> (n: usize)
        ensures
            n == self.range_seq().len(),
    {
        self.ranges.len()
    }

    /// True iff the set matches no code points.
    pub fn is_empty(&self) -> (b: bool)
        ensures
            b == (self@ == Set::<char>::empty()),
    {
        proof {
            use_type_invariant(self);
        }
        let b = self.ranges.len() == 0;
        proof {
            if b {
                assert(self@ =~= Set::<char>::empty());
            } else {
                let r = self.ranges@[0];
                assert(range_has(r, r.0));
                assert(self@.contains(r.0));
            }
        }
        b
    }

    /// Rendering of the range list: `CharSet[U+0041-U+005A,U+0061]`.
    pub fn debug_string(&self) -> (s: String)
        ensures
            s@ == charset_text(self.range_seq()),
    {
        let mut out: Vec<char> = Vec::new();
        push_str_chars(&mut out, "CharSet[");
        proof {
            reveal_strlit("CharSet[");
            assert(out@ =~= seq!['C', 'h', 'a', 'r', 'S', 'e', 't', '['] + ranges_text(
                self.ranges@.take(0),
            ));
        }
        let mut i: usize = 0;
        while i < self.ranges.len()
            invariant
                i <= self.ranges.len(),
                out@ == seq!['C', 'h', 'a', 'r', 'S', 'e', 't', '['] + ranges_text(self.ranges@.take(i as int)),
            decreases self.ranges.len() - i,
        {
            let ghost before = out@;
            if i > 0 {
                out.push(',');
            }
            let (lo, hi) = self.ranges[i];
            push_code_point(&mut out, lo);
            if lo != hi {
                out.push('-');
                push_code_point(&mut out, hi);
            }
            proof {
                assert(self.ranges@.take(i + 1).drop_last() == self.ranges@.take(i as int));
                assert(self.ranges@.take(i + 1).last() == (lo, hi));
            }
            i += 1;
        }
        out.push(']');
        proof {
            assert(self.ranges@.take(self.ranges@.len() as int) == self.ranges@);
        }
        string_from_chars(&out)
    }
}

} // verus!

verus! {

/// Upper-case hexadecimal digit for a value below sixteen.
pub open spec fn hex_digit(v: int) -> char {
    if v < 10 {
        ((v + 48) as u8) as char
    } else {
        ((v + 55) as u8) as char
    }
}

/// Upper-case hex digits of `v`, most significant first, at least `width` digits.
pub open spec fn hex_text(v: nat, width: nat) -> Seq<char>
    decreases width + v,
{
    if v < 16 && width <= 1 {
        seq![hex_digit(v as int)]
    } else {
        hex_text(v / 16, if width > 0 { (width - 1) as nat } else { 0 }).push(hex_digit((v % 16) as int))
    }
}

/// `U+XXXX` rendering of a scalar value (at least four hex digits).
pub open spec fn code_point_text(c: char) -> Seq<char> {
    seq!['U', '+'] + hex_text(c as nat, 4)
}

/// Text of one range: `U+XXXX` or `U+XXXX-U+YYYY`.
pub open spec fn range_text(r: (char, char)) -> Seq<char> {
    if r.0 == r.1 {
        code_point_text(r.0)
    } else {
        code_point_text(r.0) + seq!['-'] + code_point_text(r.1)
    }
}

/// Comma-separated text of a range list.
pub open spec fn ranges_text(rs: Seq<(char, char)>) -> Seq<char>
    decreases rs.len(),
{
    if rs.len() == 0 {
        Seq::empty()
    } else if rs.len() == 1 {
        range_text(rs[0])
    } else {
        ranges_text(rs.drop_last()) + seq![','] + range_text(rs.last())
    }
}

/// Text of a whole set: `CharSet[` ranges `]`.
pub open spec fn charset_text(rs: Seq<(char, char)>) -> Seq<char> {
    seq!['C', 'h', 'a', 'r', 'S', 'e', 't', '['] + ranges_text(rs) + seq![']']
}

/// `String::from_iter`: the string whose characters are `cs`.
#[verifier::external_body]
pub(crate) fn string_from_chars(cs: &Vec<char>) -> (s: String)
    ensures
        s@ == cs@,
{
    cs.iter().collect()
}

fn push_str_chars(out: &mut Vec<char>, text: &str)
    ensures
        final(out)@ == old(out)@ + text@,
{
    let n = text.unicode_len();
    let mut i: usize = 0;
    let ghost start = out@;
    while i < n
        invariant
            i <= n,
            n == text@.len(),
            out@ == start + text@.take(i as int),
        decreases n - i,
    {
        out.push(text.get_char(i));
        i += 1;
        proof {
            assert(text@.take(i as int) == text@.take(i - 1).push(text@[i - 1]));
        }
    }
    proof {
        assert(text@.take(n as int) == text@);
    }
}

fn hex_digit_char(v: u32) -> (c: char)
    requires
        v < 16,
    ensures
        c == hex_digit(v as int),
{
    if v < 10 {
        ((v + 48) as u8) as char
    } else {
        ((v + 55) as u8) as char
    }
}

fn push_hex(out: &mut Vec<char>, v: u32, width: u32)
    requires
        width <= 8,
    ensures
        final(out)@ == old(out)@ + hex_text(v as nat, width as nat),
    decreases width + v,
{
    if v < 16 && width <= 1 {
        out.push(hex_digit_char(v));
    } else {
        push_hex(out, v / 16, if width > 0 { width - 1 } else { 0 });
        out.push(hex_digit_char(v % 16));
    }
}

pub(crate) fn push_code_point(out: &mut Vec<char>, c: char)
    ensures
        final(out)@ == old(out)@ + code_point_text(c),
{
    out.push('U');
    out.push('+');
    push_hex(out, char_value(c), 4);
}


/// The lowest bound of a canonical list is at or below every value it
/// covers.
proof fn lemma_first_is_least(r: Seq<(char, char)>, c: char)
    requires
        canonical(r),
        ranges_have(r, c),
    ensures
        r.len() > 0,
        r[0].0 <= c,
{
    let k = choose|k: int| 0 <= k < r.len() && #[trigger] range_has(r[k], c);
    if k > 0 {
        assert(separated(r[0], r[k]));
        assert(r[0].0 <= r[0].1);
    }
}

/// A value above the first range of a canonical list lies in the list
/// exactly when it lies in the rest.
proof fn lemma_rest_has(r: Seq<(char, char)>, c: char)
    requires
        canonical(r),
        r.len() > 0,
        (c as int) > (r[0].1 as int),
    ensures
        ranges_have(r, c) == ranges_have(r.drop_first(), c),
{
    if ranges_have(r, c) {
        let k = choose|k: int| 0 <= k < r.len() && #[trigger] range_has(r[k], c);
        assert(k > 0);
        assert(r.drop_first()[k - 1] == r[k]);
    }
    if ranges_have(r.drop_first(), c) {
        let k = choose|k: int| 0 <= k < r.drop_first().len() && #[trigger] range_has(r.drop_first()[k], c);
        assert(r[k + 1] == r.drop_first()[k]);
    }
}

/// The scalar value right after the first range of a canonical list lies
/// in no range of it.
proof fn lemma_gap_after_first(r: Seq<(char, char)>, g: char)
    requires
        canonical(r),
        r.len() > 0,
        (g as int) > (r[0].1 as int),
        (r[0].1 as int) != 0xD7FF ==> (g as int) == (r[0].1 as int) + 1,
        (r[0].1 as int) == 0xD7FF ==> (g as int) == 0xE000,
    ensures
        !ranges_have(r, g),
{
    if ranges_have(r, g) {
        let k = choose|k: int| 0 <= k < r.len() && #[trigger] range_has(r[k], g);
        assert(k > 0);
        assert(separated(r[0], r[k]));
        lemma_char_bounds(r[k].0);
    }
}

/// The drop of the first range of a canonical list is canonical.
proof fn lemma_canonical_rest(r: Seq<(char, char)>)
    requires
        canonical(r),
        r.len() > 0,
    ensures
        canonical(r.drop_first()),
{
    let t = r.drop_first();
    assert forall|i: int| 0 <= i < t.len() implies (#[trigger] t[i]).0 <= t[i].1 by {
        assert(t[i] == r[i + 1]);
    }
    assert forall|i: int, j: int| 0 <= i < j < t.len() implies separated(#[trigger] t[i], #[trigger] t[j]) by {
        assert(t[i] == r[i + 1] && t[j] == r[j + 1]);
    }
}

/// A canonical range list is determined by the scalar values it covers.
pub proof fn lemma_canonical_unique(r1: Seq<(char, char)>, r2: Seq<(char, char)>)
    requires
        canonical(r1),
        canonical(r2),
        forall|c: char| ranges_have(r1, c) == ranges_have(r2, c),
    ensures
        r1 == r2,
    decreases r1.len() + r2.len(),
{
    if r1.len() == 0 && r2.len() == 0 {
        assert(r1 =~= r2);
    } else if r1.len() == 0 {
        assert(range_has(r2[0], r2[0].0));
        assert(ranges_have(r2, r2[0].0));
    } else if r2.len() == 0 {
        assert(range_has(r1[0], r1[0].0));
        assert(ranges_have(r1, r1[0].0));
    } else {
        let a = r1[0];
        let b = r2[0];
        assert(range_has(r1[0], a.0));
        assert(ranges_have(r1, a.0));
        lemma_first_is_least(r2, a.0);
        assert(range_has(r2[0], b.0));
        assert(ranges_have(r2, b.0));
        lemma_first_is_least(r1, b.0);
        assert(a.0 == b.0);
        lemma_unique_first_end(r1, r2);
        lemma_unique_first_end(r2, r1);
        assert(a.1 == b.1);
        let t1 = r1.drop_first();
        let t2 = r2.drop_first();
        lemma_canonical_rest(r1);
        lemma_canonical_rest(r2);
        assert forall|c: char| ranges_have(t1, c) == ranges_have(t2, c) by {
            if (c as int) > (a.1 as int) {
                lemma_rest_has(r1, c);
                lemma_rest_has(r2, c);
            } else {
                if ranges_have(t1, c) {
                    let k = choose|k: int| 0 <= k < t1.len() && #[trigger] range_has(t1[k], c);
                    assert(t1[k] == r1[k + 1]);
                    assert(separated(r1[0], r1[k + 1]));
                }
                if ranges_have(t2, c) {
                    let k = choose|k: int| 0 <= k < t2.len() && #[trigger] range_has(t2[k], c);
                    assert(t2[k] == r2[k + 1]);
                    assert(separated(r2[0], r2[k + 1]));
                }
            }
        }
        lemma_canonical_unique(t1, t2);
        assert(r1 =~= seq![a] + t1);
        assert(r2 =~= seq![b] + t2);
    }
}

/// When two canonical lists cover the same values and start together,
/// the first range of `r1` ends no earlier than that of `r2`.
proof fn lemma_unique_first_end(r1: Seq<(char, char)>, r2: Seq<(char, char)>)
    requires
        canonical(r1),
        canonical(r2),
        forall|c: char| ranges_have(r1, c) == ranges_have(r2, c),
        r1.len() > 0,
        r2.len() > 0,
        r1[0].0 == r2[0].0,
    ensures
        (r2[0].1 as int) <= (r1[0].1 as int),
{
    let a = r1[0];
    let b = r2[0];
    if (a.1 as int) < (b.1 as int) {
        lemma_char_bounds(a.1);
        lemma_char_bounds(b.1);
        let g: char = if (a.1 as int) == 0xD7FF {
            '\u{E000}'
        } else {
            ((a.1 as int) + 1) as char
        };
        assert((g as int) <= (b.1 as int));
        assert(a.0 <= a.1);
        assert(range_has(r2[0], g));
        assert(ranges_have(r2, g));
        lemma_gap_after_first(r1, g);
    }
}

} // verus!
