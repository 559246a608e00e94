//! Grammar source text to a [`Grammar`].
//!
//! ```text
//! grammar   <- (marker* name (':' ascription)? ('<-' / '=') choice)+
//! marker    <- '~' (lenient rule) / '*' (atomic rule)
//! choice    <- catch ('/' catch)*
//! catch     <- sequence ('^' label sequence / '^^' label (boundary)?)*
//! sequence  <- prefix+
//! prefix    <- ('!' / '&')? postfix
//! postfix   <- atom ('*' / '+' / '?' / '{' n '}' / '*^' sync? (':' label)?)*
//! atom      <- '(' choice ')' / string / class / '.' / '..' prefix / '..=' prefix
//!            / '@' name '{' choice '}' / '\' shortcut / name
//! ```
use vstd::prelude::*;

use vstd::string::*;

use super::analysis::{
    bodies_of_rules, find_rule, holds_name, ignore_root, ignore_root_name, index_of, name_set,
    names_of_rules, rule_nullable,
};
use super::compiler::{CompileError, compile_rules, lemma_resolved_view, resolved, rules_laid_out, targets_within};
use super::order::start_then_sorted;
use super::pattern::{Pattern, PatternV, clone_items, lemma_pviews_index, pview, pviews};
use super::follow::{resolve_inferred_boundaries, resolves_to, rule_follow, unresolvable};
use super::keywords::{append_boundary_check, lemma_appended_free};
use super::lint::{finding_ok, lint_partial_match};
use super::rewrite::{auto_ignore_active, inject_auto_ignore, lemma_inject_free, lemma_wrap_free, wrap_root};
use crate::pegvm::{Instruction, Program};
use crate::pegvm::charset::string_from_chars;
use crate::pegvm::utf8::decode_scalar;
use crate::pegvm::CharSet;

verus! {

/// A grammar: named rules plus the markers the source put on them.
#[derive(Debug)]
pub struct Grammar {
    /// The rules, in source order.
    pub rules: Vec<(String, Pattern)>,
    /// Rules marked atomic: no `ignore` calls are spliced into them.
    pub atomic_rules: Vec<String>,
    /// Rule names in source order (empty for hand-built grammars).
    pub rule_order: Vec<String>,
    /// Rules ascribed `reserved` or `preferred`: keyword sets.
    pub percent_rules: Vec<String>,
    /// Rules ascribed `preferred`.
    pub preferred_rules: Vec<String>,
    /// The rule a parse starts from.
    pub start: String,
}

/// A grammar-source error at a line and column (both from 1).
#[derive(Debug)]
pub struct ParseError {
    pub message: String,
    pub line: usize,
    pub col: usize,
}

/// Line of position `pos`, from 1.
pub open spec fn line_of(s: Seq<u8>, pos: int) -> int
    decreases pos,
{
    if pos <= 0 {
        1
    } else {
        line_of(s, pos - 1) + if s[pos - 1] == 10 {
            1int
        } else {
            0int
        }
    }
}

/// Column of position `pos`, from 1.
pub open spec fn col_of(s: Seq<u8>, pos: int) -> int
    decreases pos,
{
    if pos <= 0 {
        1
    } else if s[pos - 1] == 10 {
        1
    } else {
        col_of(s, pos - 1) + 1
    }
}

/// The error points at a position of the source.
pub open spec fn located(e: ParseError, s: Seq<u8>) -> bool {
    exists|at: int| 0 <= at <= s.len() && e.line == line_of(s, at) && e.col == col_of(s, at)
}

proof fn lemma_line_col_bounds(s: Seq<u8>, pos: int)
    requires
        0 <= pos,
    ensures
        1 <= line_of(s, pos) <= pos + 1,
        1 <= col_of(s, pos) <= pos + 1,
    decreases pos,
{
    if pos > 0 {
        lemma_line_col_bounds(s, pos - 1);
    }
}

/// An error at `at` with message `msg`.
fn error_at(src: &[u8], at: usize, msg: &str) -> (e: ParseError)
    requires
        at <= src@.len(),
        src@.len() < usize::MAX,
    ensures
        located(e, src@),
{
    let mut line: usize = 1;
    let mut col: usize = 1;
    let mut i: usize = 0;
    while i < at
        invariant
            at <= src@.len(),
            src@.len() < usize::MAX,
            i <= at,
            line == line_of(src@, i as int),
            col == col_of(src@, i as int),
        decreases at - i,
    {
        proof {
            lemma_line_col_bounds(src@, i as int);
        }
        if src[i] == 10 {
            line = line + 1;
            col = 1;
        } else {
            col = col + 1;
        }
        i += 1;
    }
    ParseError { message: msg.to_owned(), line, col }
}

pub open spec fn is_ident_start(c: u8) -> bool {
    (65 <= c <= 90) || (97 <= c <= 122) || c == 95
}

pub open spec fn is_ident_cont(c: u8) -> bool {
    is_ident_start(c) || (48 <= c <= 57)
}

fn ident_start(c: u8) -> (b: bool)
    ensures
        b == is_ident_start(c),
{
    (65 <= c && c <= 90) || (97 <= c && c <= 122) || c == 95
}

fn ident_cont(c: u8) -> (b: bool)
    ensures
        b == is_ident_cont(c),
{
    ident_start(c) || (48 <= c && c <= 57)
}

/// An ASCII byte string as a `String`.
fn ascii_string(src: &[u8], from: usize, to: usize) -> (s: String)
    requires
        from <= to <= src@.len(),
        forall|k: int| from <= k < to ==> src@[k] < 128,
    ensures
        s@.len() == to - from,
        forall|k: int| 0 <= k < to - from ==> s@[k] as int == src@[from + k] as int,
{
    let mut cs: Vec<char> = Vec::new();
    let mut i = from;
    while i < to
        invariant
            from <= i <= to <= src@.len(),
            forall|k: int| from <= k < to ==> src@[k] < 128,
            cs@.len() == i - from,
            forall|k: int| 0 <= k < i - from ==> cs@[k] as int == src@[from + k] as int,
        decreases to - i,
    {
        cs.push(src[i] as char);
        i += 1;
    }
    string_from_chars(&cs)
}

/// Where the whitespace and `#` comments from `p` end; `in_comment`
/// while inside a comment, which runs to the end of its line.
pub open spec fn ws_end(src: Seq<u8>, p: int, in_comment: bool) -> int
    decreases src.len() - p,
{
    if p < 0 || p >= src.len() {
        p
    } else if in_comment {
        ws_end(src, p + 1, src[p] != 10)
    } else if src[p] == 32 || src[p] == 9 || src[p] == 10 || src[p] == 13 {
        ws_end(src, p + 1, false)
    } else if src[p] == 35 {
        ws_end(src, p + 1, true)
    } else {
        p
    }
}

/// Skip whitespace and `#` comments.
fn skip_ws(src: &[u8], pos: usize) -> (r: usize)
    requires
        pos <= src@.len(),
    ensures
        r == ws_end(src@, pos as int, false),
        pos <= r <= src@.len(),
        r < src@.len() ==> !(src@[r as int] == 32 || src@[r as int] == 9 || src@[r as int] == 10
            || src@[r as int] == 13 || src@[r as int] == 35),
{
    let mut p = pos;
    while p < src.len()
        invariant
            pos <= p <= src@.len(),
            ws_end(src@, pos as int, false) == ws_end(src@, p as int, false),
        decreases src.len() - p,
    {
        let c = src[p];
        if c == 32 || c == 9 || c == 10 || c == 13 {
            p += 1;
        } else if c == 35 {
            p += 1;
            let ghost p0 = p;
            while p < src.len() && src[p] != 10
                invariant
                    pos <= p0 <= p <= src@.len(),
                    ws_end(src@, pos as int, false) == ws_end(src@, p as int, true),
                decreases src.len() - p,
            {
                p += 1;
            }
            if p < src.len() {
                p += 1;
            }
        } else {
            return p;
        }
    }
    p
}

fn peek(src: &[u8], pos: usize) -> (r: Option<u8>)
    ensures
        pos < src@.len() ==> r == Some(src@[pos as int]),
        pos >= src@.len() ==> r is None,
{
    if pos < src.len() {
        Some(src[pos])
    } else {
        None
    }
}

fn peek_at(src: &[u8], pos: usize, off: usize) -> (r: Option<u8>)
    ensures
        pos + off < src@.len() ==> r == Some(src@[pos + off]),
        pos + off >= src@.len() ==> r is None,
{
    if pos < src.len() && off < src.len() - pos {
        Some(src[pos + off])
    } else {
        None
    }
}

/// Parse an identifier at `pos`.
fn parse_ident(src: &[u8], pos: usize) -> (r: Result<(String, usize), ParseError>)
    requires
        pos <= src@.len(),
        src@.len() < usize::MAX,
    ensures
        r matches Ok((s, np)) ==> pos < np <= src@.len() && s@.len() == np - pos && is_ident_start(src@[pos as int])
            && (forall|k: int| pos <= k < np ==> is_ident_cont(#[trigger] src@[k])) && (forall|k: int|
            0 <= k < np - pos ==> s@[k] as int == src@[pos + k] as int) && (np < src@.len() ==> !is_ident_cont(
            src@[np as int],
        )),
        r matches Err(e) ==> located(e, src@),
{
    if pos >= src.len() || !ident_start(src[pos]) {
        return Err(error_at(src, pos, "expected identifier"));
    }
    let mut p = pos + 1;
    while p < src.len() && ident_cont(src[p])
        invariant
            pos < p <= src@.len(),
            is_ident_start(src@[pos as int]),
            forall|k: int| pos <= k < p ==> is_ident_cont(#[trigger] src@[k]),
        decreases src.len() - p,
    {
        p += 1;
    }
    let s = ascii_string(src, pos, p);
    Ok((s, p))
}

/// The end of the identifier characters from `p` on.
pub open spec fn ident_end(src: Seq<u8>, p: int) -> int
    decreases src.len() - p,
{
    if p < 0 || p >= src.len() || !is_ident_cont(src[p]) {
        p
    } else {
        ident_end(src, p + 1)
    }
}

/// At `pos` stands `name <-`, `name =` (not `==`) or `name :`, the head
/// of a rule.
pub open spec fn rule_head_at(src: Seq<u8>, pos: int) -> bool {
    &&& 0 <= pos < src.len()
    &&& is_ident_start(src[pos])
    &&& {
        let q = ws_end(src, ident_end(src, pos + 1), false);
        &&& 0 <= q < src.len()
        &&& (src[q] == 58 || (src[q] == 61 && !(q + 1 < src.len() && src[q + 1] == 61)) || (src[q] == 60 && q + 1
            < src.len() && src[q + 1] == 45))
    }
}

/// What follows is `name <-`, `name =` or `name :`, the head of a rule.
fn looks_like_rule_def(src: &[u8], pos: usize) -> (b: bool)
    requires
        pos <= src@.len(),
    ensures
        b == rule_head_at(src@, pos as int),
{
    if pos >= src.len() || !ident_start(src[pos]) {
        return false;
    }
    let mut p = pos + 1;
    while p < src.len() && ident_cont(src[p])
        invariant
            pos < p <= src@.len(),
            ident_end(src@, pos + 1) == ident_end(src@, p as int),
        decreases src.len() - p,
    {
        p += 1;
    }
    let q = skip_ws(src, p);
    match peek(src, q) {
        Some(c) => {
            if c == 58 {
                true
            } else if c == 61 {
                peek_at(src, q, 1) != Some(61u8)
            } else if c == 60 {
                peek_at(src, q, 1) == Some(45u8)
            } else {
                false
            }
        },
        None => false,
    }
}

/// A byte that can begin an atom.
pub open spec fn is_atom_start(c: u8) -> bool {
    c == 40 || c == 34 || c == 39 || c == 91 || c == 46 || c == 64 || c == 33 || c == 38 || c == 92
        || is_ident_start(c)
}

/// A prefix expression starts at `pos`: an atom's first byte, and for an
/// identifier, not the head of the next rule.
pub open spec fn prefix_start_at(src: Seq<u8>, pos: int) -> bool {
    &&& 0 <= pos < src.len()
    &&& {
        let c = src[pos];
        &&& !(c == 47 || c == 41 || c == 125 || c == 60 || c == 94 || c == 126)
        &&& if is_ident_start(c) {
            !rule_head_at(src, pos)
        } else {
            c == 40 || c == 34 || c == 39 || c == 91 || c == 46 || c == 64 || c == 33 || c == 38 || c == 92
        }
    }
}

/// Whether a prefix expression starts at `pos`.
fn at_prefix_start(src: &[u8], pos: usize) -> (b: bool)
    requires
        pos <= src@.len(),
    ensures
        b == prefix_start_at(src@, pos as int),
        b ==> pos < src@.len() && is_atom_start(src@[pos as int]),
{
    match peek(src, pos) {
        None => false,
        Some(c) => {
            if c == 47 || c == 41 || c == 125 || c == 60 || c == 94 || c == 126 {
                false
            } else if ident_start(c) {
                !looks_like_rule_def(src, pos)
            } else {
                c == 40 || c == 34 || c == 39 || c == 91 || c == 46 || c == 64 || c == 33 || c == 38 || c
                    == 92
            }
        },
    }
}

/// A parse step from `pos`: on success it consumed at least one byte.
pub open spec fn step_ok<T>(r: Result<(T, usize), ParseError>, src: Seq<u8>, pos: int) -> bool {
    &&& r matches Ok((_, np)) ==> pos < np <= src.len()
    &&& r matches Err(e) ==> located(e, src)
}

/// The byte an escape `\c` stands for: `n`, `r`, `t` and `0` name line
/// feed, carriage return, tab and NUL; a backslash, a quote, a bracket, a
/// dash or a slash stands for itself; any other letter is no escape.
pub open spec fn escape_value(c: u8) -> Option<u8> {
    if c == 110 {
        Some(10u8)
    } else if c == 114 {
        Some(13u8)
    } else if c == 116 {
        Some(9u8)
    } else if c == 48 {
        Some(0u8)
    } else if c == 92 || c == 39 || c == 34 || c == 93 || c == 91 || c == 45 || c == 47 {
        Some(c)
    } else {
        None
    }
}

/// The escapes of control characters decode to their ASCII codes: `\n`
/// to line feed (10), `\r` to carriage return (13), `\t` to tab (9) and
/// `\0` to NUL. Every other escape that exists stands for the escaped
/// byte itself, and that byte is printable punctuation, never a letter or
/// digit; so no two escape letters decode alike, and `\r` is not `\n`.
pub proof fn law_escape_bytes(c: u8)
    ensures
        c == 110 ==> escape_value(c) == Some(10u8),
        c == 114 ==> escape_value(c) == Some(13u8),
        c == 116 ==> escape_value(c) == Some(9u8),
        c == 48 ==> escape_value(c) == Some(0u8),
        escape_value(c) is Some && c != 110 && c != 114 && c != 116 && c != 48 ==> escape_value(c)
            == Some(c) && !(65 <= c <= 90 || 97 <= c <= 122 || 48 <= c <= 57),
        forall|d: u8| #[trigger] escape_value(d) is Some && escape_value(c) is Some && d != c ==> escape_value(d)
            != escape_value(c),
{
}

/// `'\'` escapes inside strings and classes: the escaped byte at `pos`
/// decodes to `escape_value` of it, one byte is consumed, and an unknown
/// or missing escape is an error at `pos`.
fn parse_escape(src: &[u8], pos: usize) -> (r: Result<(u8, usize), ParseError>)
    requires
        pos <= src@.len(),
        src@.len() < usize::MAX,
    ensures
        step_ok(r, src@, pos as int),
        pos < src@.len() && escape_value(src@[pos as int]) is Some ==> r == Ok::<(u8, usize), ParseError>(
            (escape_value(src@[pos as int])->0, (pos + 1) as usize),
        ),
        !(pos < src@.len() && escape_value(src@[pos as int]) is Some) ==> r is Err,
{
    match peek(src, pos) {
        Some(c) => {
            let b: u8 = if c == 110 {
                10
            } else if c == 114 {
                13
            } else if c == 116 {
                9
            } else if c == 48 {
                0
            } else if c == 92 || c == 39 || c == 34 || c == 93 || c == 91 || c == 45 || c == 47 {
                c
            } else {
                return Err(error_at(src, pos, "unknown escape"));
            };
            Ok((b, pos + 1))
        },
        None => Err(error_at(src, pos, "unterminated escape sequence")),
    }
}

/// Where the string-body token at `i` ends: an escape `\c` takes two
/// bytes, any other byte one.
pub open spec fn token_end(src: Seq<u8>, i: int) -> int {
    if src[i] == 92 {
        i + 2
    } else {
        i + 1
    }
}

/// The bytes the token at `i` stands for.
pub open spec fn token_bytes(src: Seq<u8>, i: int) -> Seq<u8> {
    if src[i] == 92 {
        seq![escape_value(src[i + 1])->0]
    } else {
        seq![src[i]]
    }
}

/// Reading tokens from `i` lands exactly on `p`.
pub open spec fn reaches(src: Seq<u8>, i: int, p: int) -> bool
    decreases p - i,
{
    if i >= p {
        i == p
    } else if src[i] == 92 {
        i + 2 <= p && reaches(src, i + 2, p)
    } else {
        reaches(src, i + 1, p)
    }
}

/// The bytes the string body `src[i..end]` stands for, escapes resolved.
pub open spec fn string_bytes(src: Seq<u8>, i: int, end: int) -> Seq<u8>
    decreases end - i,
{
    if i >= end {
        Seq::empty()
    } else if src[i] == 92 {
        if i + 2 <= end {
            token_bytes(src, i) + string_bytes(src, i + 2, end)
        } else {
            token_bytes(src, i)
        }
    } else {
        token_bytes(src, i) + string_bytes(src, i + 1, end)
    }
}

proof fn lemma_string_bytes_extend(src: Seq<u8>, a: int, p: int)
    requires
        reaches(src, a, p),
    ensures
        reaches(src, a, token_end(src, p)),
        string_bytes(src, a, token_end(src, p)) == string_bytes(src, a, p) + token_bytes(src, p),
    decreases p - a,
{
    let e = token_end(src, p);
    if a >= p {
        assert(string_bytes(src, e, e) == Seq::<u8>::empty());
        assert(string_bytes(src, a, e) == token_bytes(src, p) + string_bytes(src, e, e));
        assert(string_bytes(src, a, p) == Seq::<u8>::empty());
        assert(string_bytes(src, a, e) =~= string_bytes(src, a, p) + token_bytes(src, p));
        assert(reaches(src, e, e));
    } else {
        let b = token_end(src, a);
        assert(b > a);
        lemma_string_bytes_extend(src, b, p);
        assert(string_bytes(src, a, e) == token_bytes(src, a) + string_bytes(src, b, e));
        assert(string_bytes(src, a, p) == token_bytes(src, a) + string_bytes(src, b, p));
        assert(string_bytes(src, a, e) =~= string_bytes(src, a, p) + token_bytes(src, p));
    }
}

/// Inside a string literal, reading one more token appends what it
/// stands for: a plain byte appends itself, and an escape appends its
/// decoded byte, so `\r` appends a carriage return (13) and `\n` a line
/// feed (10), wherever they stand.
pub proof fn law_string_escapes(src: Seq<u8>, a: int, p: int)
    requires
        reaches(src, a, p),
        0 <= p,
        p + 1 < src.len(),
    ensures
        src[p] != 92 ==> string_bytes(src, a, p + 1) == string_bytes(src, a, p).push(src[p]),
        src[p] == 92 && src[p + 1] == 114 ==> string_bytes(src, a, p + 2) == string_bytes(src, a, p).push(13u8),
        src[p] == 92 && src[p + 1] == 110 ==> string_bytes(src, a, p + 2) == string_bytes(src, a, p).push(10u8),
        src[p] == 92 && src[p + 1] == 116 ==> string_bytes(src, a, p + 2) == string_bytes(src, a, p).push(9u8),
        src[p] == 92 && src[p + 1] == 48 ==> string_bytes(src, a, p + 2) == string_bytes(src, a, p).push(0u8),
{
    lemma_string_bytes_extend(src, a, p);
    assert(string_bytes(src, a, p) + token_bytes(src, p) =~= string_bytes(src, a, p).push(token_bytes(src, p)[0]));
}

/// A string body without backslashes stands for its own bytes.
pub proof fn law_plain_string(src: Seq<u8>, a: int, e: int)
    requires
        0 <= a <= e <= src.len(),
        forall|k: int| a <= k < e ==> src[k] != 92,
    ensures
        string_bytes(src, a, e) == src.subrange(a, e),
    decreases e - a,
{
    if a < e {
        law_plain_string(src, a + 1, e);
        assert(string_bytes(src, a, e) =~= src.subrange(a, e));
    } else {
        assert(src.subrange(a, e) =~= Seq::<u8>::empty());
    }
}

/// A quoted string literal: its bytes, escapes resolved. On success the
/// literal ends at the matching quote and holds `string_bytes` of the
/// body between the quotes.
fn parse_string(src: &[u8], pos: usize) -> (r: Result<(Pattern, usize), ParseError>)
    requires
        pos < src@.len(),
        src@.len() < usize::MAX,
    ensures
        step_ok(r, src@, pos as int),
        r matches Ok((pat, np)) ==> {
            &&& pos + 2 <= np
            &&& src@[np - 1] == src@[pos as int]
            &&& reaches(src@, pos + 1, np - 1)
            &&& pat matches Pattern::Literal(v) && v@ == string_bytes(src@, pos + 1, np - 1)
        },
{
    let quote = src[pos];
    let mut p = pos + 1;
    let mut bytes: Vec<u8> = Vec::new();
    proof {
        assert(reaches(src@, pos + 1, pos + 1));
        assert(string_bytes(src@, pos + 1, pos + 1) =~= Seq::<u8>::empty());
    }
    loop
        invariant
            pos < p <= src@.len(),
            src@.len() < usize::MAX,
            quote == src@[pos as int],
            reaches(src@, pos + 1, p as int),
            bytes@ == string_bytes(src@, pos + 1, p as int),
        decreases src@.len() - p,
    {
        match peek(src, p) {
            None => {
                return Err(error_at(src, p, "unterminated string literal"));
            },
            Some(c) => {
                if c == 92 {
                    match parse_escape(src, p + 1) {
                        Ok((b, np)) => {
                            proof {
                                lemma_string_bytes_extend(src@, pos + 1, p as int);
                            }
                            bytes.push(b);
                            p = np;
                        },
                        Err(e) => {
                            return Err(e);
                        },
                    }
                } else if c == quote {
                    return Ok((Pattern::Literal(bytes), p + 1));
                } else {
                    proof {
                        lemma_string_bytes_extend(src@, pos + 1, p as int);
                    }
                    bytes.push(c);
                    p = p + 1;
                }
            },
        }
    }
}

/// The ranges of a backslash class shortcut: `\d` digits, `\s` space,
/// tab, CR and LF, `\h` space and tab; the capitals their complements.
pub open spec fn shortcut_of(c: u8) -> Option<Seq<(char, char)>> {
    if c == 100 {
        Some(seq![('0', '9')])
    } else if c == 68 {
        Some(seq![('\0', '/'), (':', '\u{10FFFF}')])
    } else if c == 115 {
        Some(seq![('\t', '\n'), ('\r', '\r'), (' ', ' ')])
    } else if c == 83 {
        Some(seq![('\0', '\u{8}'), ('\u{B}', '\u{C}'), ('\u{E}', '\u{1F}'), ('!', '\u{10FFFF}')])
    } else if c == 104 {
        Some(seq![('\t', '\t'), (' ', ' ')])
    } else if c == 72 {
        Some(seq![('\0', '\u{8}'), ('\n', '\u{1F}'), ('!', '\u{10FFFF}')])
    } else {
        None
    }
}

/// The ranges of a backslash class shortcut (`\d \D \s \S \h \H`).
fn shortcut_ranges(c: u8) -> (r: Option<Vec<(char, char)>>)
    ensures
        r matches Some(v) ==> crate::pegvm::charset::all_ordered(v@),
        match r {
            Some(v) => shortcut_of(c) == Some(v@),
            None => shortcut_of(c) is None,
        },
{
    let v: Vec<(char, char)> = if c == 100 {
        vec![('0', '9')]
    } else if c == 68 {
        vec![('\0', '/'), (':', '\u{10FFFF}')]
    } else if c == 115 {
        vec![('\t', '\n'), ('\r', '\r'), (' ', ' ')]
    } else if c == 83 {
        vec![('\0', '\u{8}'), ('\u{B}', '\u{C}'), ('\u{E}', '\u{1F}'), ('!', '\u{10FFFF}')]
    } else if c == 104 {
        vec![('\t', '\t'), (' ', ' ')]
    } else if c == 72 {
        vec![('\0', '\u{8}'), ('\n', '\u{1F}'), ('!', '\u{10FFFF}')]
    } else {
        return None;
    };
    assert(Some(v@) =~= shortcut_of(c)) by {
        assert(v@ =~= shortcut_of(c)->0);
    }
    Some(v)
}

/// One character of a class: an escape, an ASCII byte or a UTF-8 scalar.
/// An escape `\c` stands for the character whose code is
/// `escape_value(c)`.
fn parse_class_char(src: &[u8], pos: usize) -> (r: Result<(char, usize), ParseError>)
    requires
        pos <= src@.len(),
        src@.len() < usize::MAX,
    ensures
        step_ok(r, src@, pos as int),
        pos < src@.len() && src@[pos as int] == 92 ==> (r matches Ok((ch, np)) ==> np == pos + 2 && ch as int
            == escape_value(src@[pos + 1])->0 as int),
        pos + 1 < src@.len() && src@[pos as int] == 92 && escape_value(src@[pos + 1]) is Some ==> r is Ok,
{
    match peek(src, pos) {
        None => Err(error_at(src, pos, "unterminated character class")),
        Some(c) => {
            if c == 92 {
                match parse_escape(src, pos + 1) {
                    Ok((b, np)) => Ok((b as char, np)),
                    Err(e) => Err(e),
                }
            } else if c < 128 {
                Ok((c as char, pos + 1))
            } else {
                match decode_scalar(src, pos) {
                    Some((ch, n)) => {
                        if n == 0 || n > src.len() - pos {
                            Err(error_at(src, pos, "invalid UTF-8 in character class"))
                        } else {
                            Ok((ch, pos + n))
                        }
                    },
                    None => Err(error_at(src, pos, "invalid UTF-8 in character class")),
                }
            }
        },
    }
}

/// A bracketed character class, `[...]` or `[^...]`.
fn parse_charclass(src: &[u8], pos: usize) -> (r: Result<(CharSet, usize), ParseError>)
    requires
        pos <= src@.len(),
        src@.len() < usize::MAX,
    ensures
        step_ok(r, src@, pos as int),
{
    if peek(src, pos) != Some(91u8) {
        return Err(error_at(src, pos, "expected '['"));
    }
    let mut p = pos + 1;
    let negate = if peek(src, p) == Some(94u8) {
        p = p + 1;
        true
    } else {
        false
    };
    let mut ranges: Vec<(char, char)> = Vec::new();
    while p < src.len() && src[p] != 93
        invariant
            pos < p <= src@.len(),
            src@.len() < usize::MAX,
            crate::pegvm::charset::all_ordered(ranges@),
        decreases src@.len() - p,
    {
        if src[p] == 92 {
            match peek_at(src, p, 1) {
                Some(c) => {
                    match shortcut_ranges(c) {
                        Some(extra) => {
                            p = p + 2;
                            if peek(src, p) == Some(45u8) && peek_at(src, p, 1) != Some(93u8) {
                                return Err(error_at(src, p, "character-class range can't start with a shortcut"));
                            }
                            let mut k: usize = 0;
                            while k < extra.len()
                                invariant
                                    k <= extra@.len(),
                                    crate::pegvm::charset::all_ordered(extra@),
                                    crate::pegvm::charset::all_ordered(ranges@),
                                decreases extra.len() - k,
                            {
                                ranges.push(extra[k]);
                                k += 1;
                            }
                            continue;
                        },
                        None => {
                            if c == 82 {
                                return Err(error_at(src, p, "'\\R' can't appear in a character class"));
                            }
                        },
                    }
                },
                None => {},
            }
        }
        let (lo, p1) = match parse_class_char(src, p) {
            Ok(x) => x,
            Err(e) => {
                return Err(e);
            },
        };
        if peek(src, p1) == Some(45u8) && peek_at(src, p1, 1) != Some(93u8) && p1 + 1 < src.len() {
            let (hi, p2) = match parse_class_char(src, p1 + 1) {
                Ok(x) => x,
                Err(e) => {
                    return Err(e);
                },
            };
            if hi < lo {
                return Err(error_at(src, p1, "char class range out of order"));
            }
            ranges.push((lo, hi));
            p = p2;
        } else {
            ranges.push((lo, lo));
            p = p1;
        }
    }
    if p >= src.len() {
        return Err(error_at(src, p, "expected ']'"));
    }
    let set = match CharSet::from_ranges(ranges.as_slice()) {
        Ok(s) => s,
        Err(_) => {
            return Err(error_at(src, p, "char class range out of order"));
        },
    };
    let set = if negate {
        set.negate()
    } else {
        set
    };
    Ok((set, p + 1))
}

/// `\d \D \s \S \h \H` as a class, `\R` as a line break.
fn parse_backslash_atom(src: &[u8], pos: usize) -> (r: Result<(Pattern, usize), ParseError>)
    requires
        pos < src@.len(),
        src@.len() < usize::MAX,
    ensures
        step_ok(r, src@, pos as int),
{
    match peek(src, pos + 1) {
        Some(c) => {
            match shortcut_ranges(c) {
                Some(v) => {
                    match CharSet::from_ranges(v.as_slice()) {
                        Ok(set) => Ok((Pattern::CharClass(set), pos + 2)),
                        Err(_) => Err(error_at(src, pos, "unknown atom")),
                    }
                },
                None => {
                    if c == 82 {
                        let alts = vec![
                            Pattern::Literal(vec![13u8, 10u8]),
                            Pattern::Literal(vec![10u8]),
                            Pattern::Literal(vec![13u8]),
                        ];
                        Ok((Pattern::OrderedChoice(alts), pos + 2))
                    } else {
                        Err(error_at(src, pos + 1, "unknown atom (valid: \\d \\D \\s \\S \\h \\H \\R)"))
                    }
                },
            }
        },
        None => Err(error_at(src, pos + 1, "unterminated escape at top level")),
    }
}

/// The count of `p{n}`: a decimal in 1..=1024.
fn parse_repeat_count(src: &[u8], pos: usize) -> (r: Result<(usize, usize), ParseError>)
    requires
        pos <= src@.len(),
        src@.len() < usize::MAX,
    ensures
        step_ok(r, src@, pos as int),
        r matches Ok((n, _)) ==> 1 <= n <= 1024,
{
    let mut p = pos;
    let mut n: usize = 0;
    while p < src.len() && 48 <= src[p] && src[p] <= 57
        invariant
            pos <= p <= src@.len(),
            src@.len() < usize::MAX,
            n <= 1024,
        decreases src@.len() - p,
    {
        n = n * 10 + (src[p] - 48) as usize;
        if n > 1024 {
            return Err(error_at(src, pos, "repeat count exceeds maximum 1024"));
        }
        p = p + 1;
    }
    if p == pos {
        return Err(error_at(src, pos, "expected positive integer in `{n}`"));
    }
    if n == 0 {
        return Err(error_at(src, pos, "repeat count must be positive"));
    }
    Ok((n, p))
}

/// `(!stop .)*`.
fn lower_until_exclusive(stop: Pattern) -> (p: Pattern)
    ensures
        p@ == stop_loop_view(stop@),
{
    let ghost sv = stop@;
    let items = vec![Pattern::NotPredicate(Box::new(stop)), Pattern::AnyChar];
    proof {
        lemma_pviews_index(items@);
        assert(pviews(items@) =~= seq![PatternV::NotPredicate(Box::new(sv)), PatternV::AnyChar]);
    }
    let body = Pattern::Sequence(items);
    assert(body@ == PatternV::Sequence(seq![PatternV::NotPredicate(Box::new(sv)), PatternV::AnyChar]));
    let r = Pattern::Repeat(Box::new(body));
    assert(r@ == PatternV::Repeat(Box::new(body@)));
    r
}

/// `(!stop .)* stop`.
fn lower_until_inclusive(stop: Pattern) -> (p: Pattern)
    ensures
        p@ == PatternV::Sequence(seq![stop_loop_view(stop@), stop@]),
{
    let ghost sv = stop@;
    let copy = stop.deep_clone();
    let items = vec![lower_until_exclusive(copy), stop];
    proof {
        lemma_pviews_index(items@);
        assert(pviews(items@) =~= seq![stop_loop_view(sv), sv]);
    }
    Pattern::Sequence(items)
}

/// The name of the capture a recovery body is wrapped in.
pub open spec fn recovery_label() -> Seq<char> {
    seq!['r', 'e', 'c', 'o', 'v', 'e', 'r', 'y']
}

/// `(!b .)*`.
pub open spec fn stop_loop_view(b: PatternV) -> PatternV {
    PatternV::Repeat(Box::new(PatternV::Sequence(seq![PatternV::NotPredicate(Box::new(b)), PatternV::AnyChar])))
}

/// `inner ^^label B` lowered: `Catch { inner &B, label, @recovery{(!B .)*} }`.
pub open spec fn lowered_catch(inner: PatternV, label: Seq<char>, b: PatternV) -> PatternV {
    PatternV::Catch {
        inner: Box::new(PatternV::Sequence(seq![inner, PatternV::AndPredicate(Box::new(b))])),
        label,
        recovery: Box::new(PatternV::Capture(recovery_label(), Box::new(stop_loop_view(b)))),
    }
}

/// `inner ^^label B`: `Catch { inner &B, label, @recovery{(!B .)*} }`.
pub fn lower_boundary_catch(inner: Pattern, label: String, boundary: Pattern) -> (p: Pattern)
    ensures
        p@ == lowered_catch(inner@, label@, boundary@),
{
    let ghost iv = inner@;
    let ghost bv = boundary@;
    let lookahead = Pattern::AndPredicate(Box::new(boundary.deep_clone()));
    let stop_loop = lower_until_exclusive(boundary);
    let recovery = Pattern::Capture(recovery_name(), Box::new(stop_loop));
    let items = vec![inner, lookahead];
    proof {
        lemma_pviews_index(items@);
        assert(pviews(items@) =~= seq![iv, PatternV::AndPredicate(Box::new(bv))]);
    }
    let body = Pattern::Sequence(items);
    assert(body@ == PatternV::Sequence(seq![iv, PatternV::AndPredicate(Box::new(bv))]));
    assert(recovery@ == PatternV::Capture(recovery_label(), Box::new(stop_loop_view(bv))));
    let ghost lv = label@;
    let r = Pattern::Catch { inner: Box::new(body), label, recovery: Box::new(recovery) };
    assert(r@ == lowered_catch(iv, lv, bv));
    r
}

/// `inner ^^label ..= B` lowered: `Catch { inner, label, @recovery{(!B .)*} B }`.
pub open spec fn bracketed_catch(inner: PatternV, label: Seq<char>, b: PatternV) -> PatternV {
    PatternV::Catch {
        inner: Box::new(inner),
        label,
        recovery: Box::new(
            PatternV::Sequence(seq![PatternV::Capture(recovery_label(), Box::new(stop_loop_view(b))), b]),
        ),
    }
}

/// `inner ^^label ..= B`: `Catch { inner, label, @recovery{(!B .)*} B }`.
fn lower_bracketed_close_catch(inner: Pattern, label: String, boundary: Pattern) -> (p: Pattern)
    ensures
        p@ == bracketed_catch(inner@, label@, boundary@),
{
    let ghost bv = boundary@;
    let ghost iv = inner@;
    let ghost lv = label@;
    let stop_loop = lower_until_exclusive(boundary.deep_clone());
    let cap = Pattern::Capture(recovery_name(), Box::new(stop_loop));
    assert(cap@ == PatternV::Capture(recovery_label(), Box::new(stop_loop_view(bv))));
    let items = vec![cap, boundary];
    proof {
        lemma_pviews_index(items@);
        assert(pviews(items@) =~= seq![PatternV::Capture(recovery_label(), Box::new(stop_loop_view(bv))), bv]);
    }
    let recovery = Pattern::Sequence(items);
    assert(recovery@ == PatternV::Sequence(
        seq![PatternV::Capture(recovery_label(), Box::new(stop_loop_view(bv))), bv],
    ));
    let r = Pattern::Catch { inner: Box::new(inner), label, recovery: Box::new(recovery) };
    assert(r@ == bracketed_catch(iv, lv, bv));
    r
}

/// `"recovery"`.
pub fn recovery_name() -> (s: String)
    ensures
        s@ == seq!['r', 'e', 'c', 'o', 'v', 'e', 'r', 'y'],
{
    let s = "recovery".to_owned();
    proof {
        reveal_strlit("recovery");
    }
    assert(s@ =~= seq!['r', 'e', 'c', 'o', 'v', 'e', 'r', 'y']);
    s
}

/// `p*^` and `p*^[cs]` lowered: `(p ^label @recovery{body})*`, the body
/// `.` or `(!cs .)* cs`, the label `recovery` when none is given.
pub open spec fn recover_repeat_view(inner: PatternV, sync: Option<Seq<(char, char)>>, label: Option<Seq<char>>) -> PatternV {
    let body = match sync {
        None => PatternV::AnyChar,
        Some(rs) => PatternV::Sequence(seq![stop_loop_view(PatternV::CharClass(rs)), PatternV::CharClass(rs)]),
    };
    PatternV::Repeat(
        Box::new(
            PatternV::Catch {
                inner: Box::new(inner),
                label: match label {
                    Some(l) => l,
                    None => recovery_label(),
                },
                recovery: Box::new(PatternV::Capture(recovery_label(), Box::new(body))),
            },
        ),
    )
}

/// `p*^` and `p*^[cs]`: `(p ^label @recovery{body})*` where the body is
/// `.` or `(!cs .)* cs`.
fn build_recover_repeat(inner: Pattern, sync: Option<CharSet>, label: Option<String>) -> (p: Pattern)
    ensures
        p@ == recover_repeat_view(
            inner@,
            match sync {
                Some(cs) => Some(cs.range_seq()),
                None => None,
            },
            match label {
                Some(l) => Some(l@),
                None => None,
            },
        ),
{
    let ghost iv = inner@;
    let ghost sv = if sync is Some {
        Some(sync->0.range_seq())
    } else {
        None::<Seq<(char, char)>>
    };
    let ghost lv = if label is Some {
        Some(label->0@)
    } else {
        None::<Seq<char>>
    };
    let body = match sync {
        None => Pattern::AnyChar,
        Some(cs) => {
            let ghost rs = cs.range_seq();
            let copy = cs.clone();
            let nc = Pattern::CharClass(copy);
            assert(nc@ == PatternV::CharClass(rs));
            let np = Pattern::NotPredicate(Box::new(nc));
            assert(np@ == PatternV::NotPredicate(Box::new(PatternV::CharClass(rs))));
            let inner_items = vec![np, Pattern::AnyChar];
            proof {
                lemma_pviews_index(inner_items@);
                assert(pviews(inner_items@) =~= seq![
                    PatternV::NotPredicate(Box::new(PatternV::CharClass(rs))),
                    PatternV::AnyChar,
                ]);
            }
            let sq = Pattern::Sequence(inner_items);
            assert(sq@ == PatternV::Sequence(
                seq![PatternV::NotPredicate(Box::new(PatternV::CharClass(rs))), PatternV::AnyChar],
            ));
            let lp = Pattern::Repeat(Box::new(sq));
            assert(lp@ == stop_loop_view(PatternV::CharClass(rs)));
            let cc = Pattern::CharClass(cs);
            assert(cc@ == PatternV::CharClass(rs));
            let items = vec![lp, cc];
            proof {
                lemma_pviews_index(items@);
                assert(pviews(items@) =~= seq![stop_loop_view(PatternV::CharClass(rs)), PatternV::CharClass(rs)]);
            }
            Pattern::Sequence(items)
        },
    };
    let ghost bodyv = body@;
    let recovery = Pattern::Capture(recovery_name(), Box::new(body));
    assert(recovery@ == PatternV::Capture(recovery_label(), Box::new(bodyv)));
    let label = match label {
        Some(l) => l,
        None => recovery_name(),
    };
    let ghost lab = label@;
    let c = Pattern::Catch { inner: Box::new(inner), label, recovery: Box::new(recovery) };
    assert(c@ == PatternV::Catch {
        inner: Box::new(iv),
        label: lab,
        recovery: Box::new(PatternV::Capture(recovery_label(), Box::new(bodyv))),
    });
    let r = Pattern::Repeat(Box::new(c));
    assert(r@ == recover_repeat_view(iv, sv, lv));
    r
}

/// A label that touches its sigil; `_` is reserved.
fn parse_label(src: &[u8], pos: usize) -> (r: Result<(String, usize), ParseError>)
    requires
        pos <= src@.len(),
        src@.len() < usize::MAX,
    ensures
        step_ok(r, src@, pos as int),
{
    match parse_ident(src, pos) {
        Ok((s, np)) => {
            if np == pos + 1 && src[pos] == 95 {
                return Err(error_at(src, pos, "label name `_` is reserved for future use"));
            }
            Ok((s, np))
        },
        Err(_) => Err(error_at(src, pos, "expected label identifier immediately after its sigil")),
    }
}

/// `n` structurally equal copies of `p`.
fn repeat_copies(p: Pattern, n: usize) -> (r: Vec<Pattern>)
    requires
        n >= 1,
    ensures
        r@.len() == n,
{
    let mut v: Vec<Pattern> = Vec::new();
    let mut k: usize = 1;
    while k < n
        invariant
            1 <= k <= n,
            v@.len() == k - 1,
        decreases n - k,
    {
        v.push(p.deep_clone());
        k += 1;
    }
    v.push(p);
    v
}

/// `catch ('/' catch)*`.
fn parse_choice(src: &[u8], pos: usize) -> (r: Result<(Pattern, usize), ParseError>)
    requires
        pos <= src@.len(),
        src@.len() < usize::MAX,
    ensures
        step_ok(r, src@, pos as int),
    decreases src@.len() - pos, 6int,
{
    let (first, p1) = match parse_catch(src, pos) {
        Ok(x) => x,
        Err(e) => {
            return Err(e);
        },
    };
    let mut alts: Vec<Pattern> = vec![first];
    let mut p = p1;
    loop
        invariant
            pos < p <= src@.len(),
            src@.len() < usize::MAX,
        decreases src@.len() - p,
    {
        let q = skip_ws(src, p);
        if peek(src, q) == Some(47u8) {
            let q2 = skip_ws(src, q + 1);
            match parse_catch(src, q2) {
                Ok((alt, np)) => {
                    alts.push(alt);
                    p = np;
                },
                Err(e) => {
                    return Err(e);
                },
            }
        } else {
            break;
        }
    }
    Ok((Pattern::choice(alts), p))
}

/// `sequence ('^' label sequence / '^^' label boundary?)*`.
fn parse_catch(src: &[u8], pos: usize) -> (r: Result<(Pattern, usize), ParseError>)
    requires
        pos <= src@.len(),
        src@.len() < usize::MAX,
    ensures
        step_ok(r, src@, pos as int),
    decreases src@.len() - pos, 5int,
{
    let (mut lhs, p1) = match parse_sequence(src, pos) {
        Ok(x) => x,
        Err(e) => {
            return Err(e);
        },
    };
    let mut p = p1;
    loop
        invariant
            pos < p <= src@.len(),
            src@.len() < usize::MAX,
        decreases src@.len() - p,
    {
        let ghost pb = p;
        let q = skip_ws(src, p);
        if peek(src, q) != Some(94u8) {
            break;
        }
        if peek_at(src, q, 1) == Some(94u8) {
            let (label, q2) = match parse_label(src, q + 2) {
                Ok(x) => x,
                Err(e) => {
                    return Err(e);
                },
            };
            let q3 = skip_ws(src, q2);
            let catch_pat: Pattern;
            let mut q4: usize;
            if peek(src, q3) == Some(46u8) && peek_at(src, q3, 1) == Some(46u8) && peek_at(src, q3, 2) == Some(
                61u8,
            ) {
                let q5 = skip_ws(src, q3 + 3);
                match parse_prefix(src, q5) {
                    Ok((boundary, np)) => {
                        catch_pat = lower_bracketed_close_catch(lhs, label, boundary);
                        q4 = np;
                    },
                    Err(e) => {
                        return Err(e);
                    },
                }
            } else if peek(src, q3) == Some(46u8) && peek_at(src, q3, 1) == Some(46u8) {
                return Err(error_at(src, q3, "`^^lbl .. B` is not a valid form; the catch consumes its boundary"));
            } else if at_prefix_start(src, q3) {
                match parse_prefix(src, q3) {
                    Ok((boundary, np)) => {
                        catch_pat = lower_boundary_catch(lhs, label, boundary);
                        q4 = np;
                    },
                    Err(e) => {
                        return Err(e);
                    },
                }
            } else {
                catch_pat = Pattern::InferBoundaryCatch { inner: Box::new(lhs), label };
                q4 = q2;
            }
            let mut items: Vec<Pattern> = vec![catch_pat];
            loop
                invariant
                    pos < q4 <= src@.len(),
                    pb < q4,
                    src@.len() < usize::MAX,
                decreases src@.len() - q4,
            {
                let q6 = skip_ws(src, q4);
                if !at_prefix_start(src, q6) {
                    break;
                }
                match parse_prefix(src, q6) {
                    Ok((item, np)) => {
                        items.push(item);
                        q4 = np;
                    },
                    Err(e) => {
                        return Err(e);
                    },
                }
            }
            lhs = Pattern::seq(items);
            p = q4;
        } else {
            let (label, q2) = match parse_label(src, q + 1) {
                Ok(x) => x,
                Err(e) => {
                    return Err(e);
                },
            };
            let q3 = skip_ws(src, q2);
            match parse_sequence(src, q3) {
                Ok((rhs, np)) => {
                    lhs = Pattern::Catch { inner: Box::new(lhs), label, recovery: Box::new(rhs) };
                    p = np;
                },
                Err(e) => {
                    return Err(e);
                },
            }
        }
    }
    Ok((lhs, p))
}

/// `prefix+`.
fn parse_sequence(src: &[u8], pos: usize) -> (r: Result<(Pattern, usize), ParseError>)
    requires
        pos <= src@.len(),
        src@.len() < usize::MAX,
    ensures
        step_ok(r, src@, pos as int),
    decreases src@.len() - pos, 4int,
{
    let mut items: Vec<Pattern> = Vec::new();
    let mut p = pos;
    loop
        invariant
            pos <= p <= src@.len(),
            src@.len() < usize::MAX,
            items@.len() > 0 ==> pos < p,
        decreases src@.len() - p,
    {
        let q = skip_ws(src, p);
        if !at_prefix_start(src, q) {
            break;
        }
        match parse_prefix(src, q) {
            Ok((item, np)) => {
                items.push(item);
                p = np;
            },
            Err(e) => {
                return Err(e);
            },
        }
    }
    if items.len() == 0 {
        return Err(error_at(src, p, "expected pattern"));
    }
    Ok((Pattern::seq(items), p))
}

/// `('!' / '&')? postfix`.
fn parse_prefix(src: &[u8], pos: usize) -> (r: Result<(Pattern, usize), ParseError>)
    requires
        pos <= src@.len(),
        src@.len() < usize::MAX,
    ensures
        step_ok(r, src@, pos as int),
    decreases src@.len() - pos, 3int,
{
    match peek(src, pos) {
        Some(c) => {
            if c == 33 || c == 38 {
                let q = skip_ws(src, pos + 1);
                match parse_postfix(src, q) {
                    Ok((inner, np)) => {
                        let pat = if c == 33 {
                            Pattern::NotPredicate(Box::new(inner))
                        } else {
                            Pattern::AndPredicate(Box::new(inner))
                        };
                        Ok((pat, np))
                    },
                    Err(e) => Err(e),
                }
            } else {
                parse_postfix(src, pos)
            }
        },
        None => parse_postfix(src, pos),
    }
}

/// `atom` followed by any number of postfix operators.
fn parse_postfix(src: &[u8], pos: usize) -> (r: Result<(Pattern, usize), ParseError>)
    requires
        pos <= src@.len(),
        src@.len() < usize::MAX,
    ensures
        step_ok(r, src@, pos as int),
    decreases src@.len() - pos, 2int,
{
    let (mut atom, p1) = match parse_atom(src, pos) {
        Ok(x) => x,
        Err(e) => {
            return Err(e);
        },
    };
    let mut p = p1;
    loop
        invariant
            pos < p <= src@.len(),
            src@.len() < usize::MAX,
        decreases src@.len() - p,
    {
        match peek(src, p) {
            Some(c) => {
                if c == 42 || c == 43 {
                    if peek_at(src, p, 1) == Some(94u8) {
                        let mut q = p + 2;
                        let sync = if peek(src, q) == Some(91u8) {
                            match parse_charclass(src, q) {
                                Ok((set, np)) => {
                                    q = np;
                                    Some(set)
                                },
                                Err(e) => {
                                    return Err(e);
                                },
                            }
                        } else {
                            None
                        };
                        let label = if peek(src, q) == Some(58u8) {
                            match parse_label(src, q + 1) {
                                Ok((l, np)) => {
                                    q = np;
                                    Some(l)
                                },
                                Err(e) => {
                                    return Err(e);
                                },
                            }
                        } else {
                            None
                        };
                        if c == 42 {
                            atom = build_recover_repeat(atom, sync, label);
                        } else {
                            let head = atom.deep_clone();
                            atom = Pattern::seq(vec![head, build_recover_repeat(atom, sync, label)]);
                        }
                        p = q;
                    } else {
                        atom = if c == 42 {
                            Pattern::Repeat(Box::new(atom))
                        } else {
                            Pattern::RepeatOne(Box::new(atom))
                        };
                        p = p + 1;
                    }
                } else if c == 63 {
                    atom = Pattern::Optional(Box::new(atom));
                    p = p + 1;
                } else if c == 123 {
                    let (n, q) = match parse_repeat_count(src, p + 1) {
                        Ok(x) => x,
                        Err(e) => {
                            return Err(e);
                        },
                    };
                    if peek(src, q) != Some(125u8) {
                        return Err(error_at(src, q, "expected '}'"));
                    }
                    atom = Pattern::seq(repeat_copies(atom, n));
                    p = q + 1;
                } else {
                    break;
                }
            },
            None => {
                break;
            },
        }
    }
    Ok((atom, p))
}

/// `'@' name '{' choice '}'`.
fn parse_capture(src: &[u8], pos: usize) -> (r: Result<(Pattern, usize), ParseError>)
    requires
        pos < src@.len(),
        src@.len() < usize::MAX,
    ensures
        step_ok(r, src@, pos as int),
    decreases src@.len() - pos, 0int,
{
    let (name, p1) = match parse_ident(src, pos + 1) {
        Ok(x) => x,
        Err(e) => {
            return Err(e);
        },
    };
    if peek(src, p1) != Some(123u8) {
        return Err(error_at(src, p1, "expected '{'"));
    }
    let q = skip_ws(src, p1 + 1);
    let (inner, p2) = match parse_choice(src, q) {
        Ok(x) => x,
        Err(e) => {
            return Err(e);
        },
    };
    let p3 = skip_ws(src, p2);
    if peek(src, p3) != Some(125u8) {
        return Err(error_at(src, p3, "expected '}'"));
    }
    Ok((Pattern::Capture(name, Box::new(inner)), p3 + 1))
}

/// The pattern `.. stop` (when `inclusive` is false) or `..= stop` (when
/// it is true) stands for: skip bytes up to the first place `stop`
/// matches, then for `..=` match `stop` too.
pub open spec fn skip_until(stop: PatternV, inclusive: bool) -> PatternV {
    if inclusive {
        PatternV::Sequence(seq![stop_loop_view(stop), stop])
    } else {
        stop_loop_view(stop)
    }
}

/// `..` and `..=` differ exactly by consuming the stop: the inclusive
/// form is the exclusive one followed by the stop itself, and the
/// exclusive form repeats single bytes, each taken only where the stop
/// does not match, so it never consumes the stop.
pub proof fn law_skip_until(stop: PatternV)
    ensures
        skip_until(stop, true) == PatternV::Sequence(seq![skip_until(stop, false), stop]),
        skip_until(stop, false) == PatternV::Repeat(
            Box::new(PatternV::Sequence(seq![PatternV::NotPredicate(Box::new(stop)), PatternV::AnyChar])),
        ),
        skip_until(stop, true) != skip_until(stop, false),
{
}

/// The source at `pos` starts with `..`; `=` follows when `eq`.
pub open spec fn skip_marker_at(src: Seq<u8>, pos: int, eq: bool) -> bool {
    &&& pos + 1 < src.len()
    &&& src[pos] == 46
    &&& src[pos + 1] == 46
    &&& eq == (pos + 2 < src.len() && src[pos + 2] == 61)
}

/// One atom. An atom `..= S` parses to `skip_until(S, true)` and `.. S`
/// to `skip_until(S, false)`.
fn parse_atom(src: &[u8], pos: usize) -> (r: Result<(Pattern, usize), ParseError>)
    requires
        pos <= src@.len(),
        src@.len() < usize::MAX,
    ensures
        step_ok(r, src@, pos as int),
        pos < src@.len() && (src@[pos as int] == 34 || src@[pos as int] == 39) ==> (r matches Ok((p, np)) ==> {
            &&& src@[np - 1] == src@[pos as int]
            &&& reaches(src@, pos + 1, np - 1)
            &&& p matches Pattern::Literal(v) && v@ == string_bytes(src@, pos + 1, np - 1)
        }),
        pos < src@.len() && src@[pos as int] == 46 && !(pos + 1 < src@.len() && src@[pos + 1] == 46) ==> (r matches Ok(
            (p, np),
        ) && p@ == PatternV::AnyChar && np == pos + 1),
        pos < src@.len() && is_ident_start(src@[pos as int]) ==> (r matches Ok((p, np)) ==> {
            &&& p matches Pattern::NonTerminal(n) && n@.len() == np - pos && (forall|k: int|
                0 <= k < np - pos ==> n@[k] as int == src@[pos + k] as int)
            &&& np < src@.len() ==> !is_ident_cont(src@[np as int])
        }),
        pos < src@.len() && src@[pos as int] == 40 ==> (r matches Ok((_, np)) ==> src@[np - 1] == 41),
        forall|eq: bool|
            #[trigger] skip_marker_at(src@, pos as int, eq) ==> (r matches Ok((p, _)) ==> exists|stop: PatternV|
                p@ == #[trigger] skip_until(stop, eq)),
    decreases src@.len() - pos, 1int,
{
    match peek(src, pos) {
        None => Err(error_at(src, pos, "unexpected end of input")),
        Some(c) => {
            if c == 40 {
                let q = skip_ws(src, pos + 1);
                let (inner, p1) = match parse_choice(src, q) {
                    Ok(x) => x,
                    Err(e) => {
                        return Err(e);
                    },
                };
                let p2 = skip_ws(src, p1);
                if peek(src, p2) != Some(41u8) {
                    return Err(error_at(src, p2, "expected ')'"));
                }
                Ok((inner, p2 + 1))
            } else if c == 34 || c == 39 {
                parse_string(src, pos)
            } else if c == 91 {
                match parse_charclass(src, pos) {
                    Ok((set, np)) => Ok((Pattern::CharClass(set), np)),
                    Err(e) => Err(e),
                }
            } else if c == 46 {
                if peek_at(src, pos, 1) == Some(46u8) {
                    let inclusive = peek_at(src, pos, 2) == Some(61u8);
                    let q = skip_ws(
                        src,
                        if inclusive {
                            pos + 3
                        } else {
                            pos + 2
                        },
                    );
                    match parse_prefix(src, q) {
                        Ok((stop, np)) => {
                            let ghost sv = stop@;
                            let pat = if inclusive {
                                lower_until_inclusive(stop)
                            } else {
                                lower_until_exclusive(stop)
                            };
                            assert(pat@ == skip_until(sv, inclusive));
                            Ok((pat, np))
                        },
                        Err(e) => Err(e),
                    }
                } else {
                    Ok((Pattern::AnyChar, pos + 1))
                }
            } else if c == 64 {
                parse_capture(src, pos)
            } else if c == 92 {
                parse_backslash_atom(src, pos)
            } else if ident_start(c) {
                match parse_ident(src, pos) {
                    Ok((name, np)) => Ok((Pattern::NonTerminal(name), np)),
                    Err(e) => Err(e),
                }
            } else {
                Err(error_at(src, pos, "unexpected character"))
            }
        },
    }
}

/// The name of the rule a grammar parse starts from when it has one.
pub open spec fn root_name() -> Seq<char> {
    seq!['r', 'o', 'o', 't']
}

/// `"root"`.
pub fn root_rule_name() -> (s: String)
    ensures
        s@ == root_name(),
{
    let s = "root".to_owned();
    proof {
        reveal_strlit("root");
    }
    assert(s@ =~= root_name());
    s
}

/// A parsed grammar's shape: rules with distinct names, recorded in
/// order, and a start rule among them.
pub open spec fn grammar_shape(g: Grammar) -> bool {
    let names = names_of_rules(g.rules@);
    &&& g.rules@.len() >= 1
    &&& forall|i: int, j: int| 0 <= i < j < names.len() ==> names[i] != names[j]
    &&& g.rule_order@.map_values(|s: String| s@) == names
    &&& index_of(names, g.start@) >= 0
    &&& index_of(names, ignore_root()) >= 0 ==> index_of(names, ignore_root()) == 1
}

/// Parse grammar source into a [`Grammar`]. The start rule is `root`
/// when the grammar defines one, else the first rule.
pub fn parse(input: &str) -> (r: Result<Grammar, ParseError>)
    requires
        input.spec_bytes().len() < usize::MAX,
    ensures
        r matches Ok(g) ==> grammar_shape(g),
        r matches Err(e) ==> located(e, input.spec_bytes()),
{
    let src = input.as_bytes();
    parse_grammar(src)
}

/// Parse a whole grammar.
fn parse_grammar(src: &[u8]) -> (r: Result<Grammar, ParseError>)
    requires
        src@.len() < usize::MAX,
    ensures
        r matches Ok(g) ==> grammar_shape(g),
        r matches Err(e) ==> located(e, src@),
{
    let reserved = "reserved".to_owned();
    let preferred = "preferred".to_owned();
    let atomic_word = "atomic".to_owned();
    let mut rules: Vec<(String, Pattern)> = Vec::new();
    let mut atomic_rules: Vec<String> = Vec::new();
    let mut order: Vec<String> = Vec::new();
    let mut percent: Vec<String> = Vec::new();
    let mut preferred_rules: Vec<String> = Vec::new();
    let mut pos = skip_ws(src, 0);
    while pos < src.len()
        invariant
            pos <= src@.len(),
            src@.len() < usize::MAX,
            order@.map_values(|s: String| s@) == names_of_rules(rules@),
            forall|i: int, j: int|
                0 <= i < j < rules@.len() ==> names_of_rules(rules@)[i] != names_of_rules(rules@)[j],
        decreases src@.len() - pos,
    {
        let mut lenient = false;
        let mut atomic = false;
        let mut p = pos;
        loop
            invariant
                pos <= p <= src@.len(),
                src@.len() < usize::MAX,
                p == pos + (if lenient {
                    1int
                } else {
                    0int
                }) + (if atomic {
                    1int
                } else {
                    0int
                }),
            decreases (if lenient {
                0int
            } else {
                1int
            }) + (if atomic {
                0int
            } else {
                1int
            }),
        {
            if peek(src, p) == Some(126u8) && !lenient {
                p = p + 1;
                lenient = true;
            } else if peek(src, p) == Some(42u8) && !atomic {
                p = p + 1;
                atomic = true;
            } else {
                break;
            }
        }
        let (name, p1) = match parse_ident(src, p) {
            Ok(x) => x,
            Err(e) => {
                return Err(e);
            },
        };
        let mut q = skip_ws(src, p1);
        let mut is_percent = false;
        let mut is_preferred = false;
        if peek(src, q) == Some(58u8) {
            let q1 = skip_ws(src, q + 1);
            let (asc, q2) = match parse_ident(src, q1) {
                Ok(x) => x,
                Err(e) => {
                    return Err(e);
                },
            };
            if asc == reserved {
                is_percent = true;
            } else if asc == preferred {
                is_percent = true;
                is_preferred = true;
            } else if asc == atomic_word {
                atomic = true;
            } else {
                return Err(error_at(src, q1, "unknown rule ascription (expected reserved, preferred or atomic)"));
            }
            q = skip_ws(src, q2);
        }
        if peek(src, q) == Some(60u8) && peek_at(src, q, 1) == Some(45u8) {
            q = q + 2;
        } else if peek(src, q) == Some(61u8) {
            q = q + 1;
        } else {
            return Err(error_at(src, q, "expected '<-' or '='"));
        }
        let q3 = skip_ws(src, q);
        let (body, p2) = match parse_choice(src, q3) {
            Ok(x) => x,
            Err(e) => {
                return Err(e);
            },
        };
        if holds_name(&order, &name) {
            return Err(error_at(src, p, "rule defined twice"));
        }
        let body = if lenient {
            Pattern::Lenient(Box::new(body))
        } else {
            body
        };
        if atomic || is_percent {
            atomic_rules.push(name.clone());
        }
        if is_percent {
            percent.push(name.clone());
        }
        if is_preferred {
            preferred_rules.push(name.clone());
        }
        let ghost names0 = names_of_rules(rules@);
        proof {
            assert forall|k: int| 0 <= k < names0.len() implies names0[k] != name@ by {
                assert(order@.map_values(|s: String| s@)[k] == order@[k]@);
                if names0[k] == name@ {
                    assert(name_set(order@).contains(name@));
                }
            }
        }
        order.push(name.clone());
        rules.push((name, body));
        proof {
            assert(names_of_rules(rules@) =~= names0.push(rules@[rules@.len() - 1].0@));
            assert(order@.map_values(|s: String| s@) =~= names_of_rules(rules@));
        }
        pos = skip_ws(src, p2);
    }
    if rules.len() == 0 {
        return Err(error_at(src, pos, "grammar has no rules"));
    }
    let ghost names = names_of_rules(rules@);
    let ig = ignore_root_name();
    proof {
        lemma_index_of_distinct(names, ignore_root());
    }
    match find_rule(&rules, &ig) {
        Some(k) => {
            if k != 1 {
                return Err(error_at(src, pos, "`ignore` must be the second rule, right after `root`"));
            }
        },
        None => {},
    }
    let root = root_rule_name();
    let start = match find_rule(&rules, &root) {
        Some(_) => root,
        None => rules[0].0.clone(),
    };
    proof {
        crate::pegc::analysis::lemma_index_of(names, start@);
        assert(names[0] == rules@[0].0@);
    }
    Ok(Grammar {
        rules,
        atomic_rules,
        rule_order: order,
        percent_rules: percent,
        preferred_rules,
        start,
    })
}

proof fn lemma_index_of_distinct(names: Seq<Seq<char>>, n: Seq<char>)
    ensures
        -1 <= index_of(names, n) < names.len(),
{
    crate::pegc::analysis::lemma_index_of(names, n);
}

/// Element-wise copy of a list of names.
pub fn copy_names(v: &Vec<String>) -> (r: Vec<String>)
    ensures
        r@ == v@,
{
    let mut r: Vec<String> = Vec::new();
    let mut i: usize = 0;
    while i < v.len()
        invariant
            i <= v@.len(),
            r@ == v@.take(i as int),
        decreases v.len() - i,
    {
        r.push(v[i].clone());
        i += 1;
        assert(r@ =~= v@.take(i as int));
    }
    assert(v@.take(v@.len() as int) =~= v@);
    r
}

/// Structurally equal copy of a rule list.
pub fn copy_rules(rules: &Vec<(String, Pattern)>) -> (r: Vec<(String, Pattern)>)
    ensures
        r@.len() == rules@.len(),
        forall|i: int| 0 <= i < rules@.len() ==> #[trigger] r@[i].0 == rules@[i].0,
        forall|i: int| 0 <= i < rules@.len() ==> #[trigger] pview(r@[i].1) == pview(rules@[i].1),
        names_of_rules(r@) == names_of_rules(rules@),
{
    let mut r: Vec<(String, Pattern)> = Vec::new();
    let mut i: usize = 0;
    while i < rules.len()
        invariant
            i <= rules@.len(),
            r@.len() == i,
            forall|k: int| 0 <= k < i ==> #[trigger] r@[k].0 == rules@[k].0,
            forall|k: int| 0 <= k < i ==> #[trigger] pview(r@[k].1) == pview(rules@[k].1),
        decreases rules.len() - i,
    {
        r.push((rules[i].0.clone(), rules[i].1.deep_clone()));
        i += 1;
    }
    assert(names_of_rules(r@) =~= names_of_rules(rules@));
    r
}

impl Grammar {
    /// A grammar from hand-built rules, starting at `start`; no rule is
    /// atomic or a keyword set.
    pub fn new(rules: Vec<(String, Pattern)>, start: &str) -> (g: Grammar)
        ensures
            g.rules@ == rules@,
            g.start@ == start@,
            g.atomic_rules@.len() == 0,
            g.rule_order@.len() == 0,
            g.percent_rules@.len() == 0,
            g.preferred_rules@.len() == 0,
    {
        Grammar {
            rules,
            atomic_rules: Vec::new(),
            rule_order: Vec::new(),
            percent_rules: Vec::new(),
            preferred_rules: Vec::new(),
            start: start.to_owned(),
        }
    }

    /// A grammar from hand-built rules with the given atomic rules.
    pub fn with_atomic(rules: Vec<(String, Pattern)>, atomic_rules: Vec<String>, start: &str) -> (g: Grammar)
        ensures
            g.rules@ == rules@,
            g.start@ == start@,
            g.atomic_rules@ == atomic_rules@,
            g.rule_order@.len() == 0,
            g.percent_rules@.len() == 0,
            g.preferred_rules@.len() == 0,
    {
        Grammar {
            rules,
            atomic_rules,
            rule_order: Vec::new(),
            percent_rules: Vec::new(),
            preferred_rules: Vec::new(),
            start: start.to_owned(),
        }
    }

    /// A structurally equal copy.
    pub fn deep_copy(&self) -> (g: Grammar)
        ensures
            g.rules@.len() == self.rules@.len(),
            forall|i: int| 0 <= i < self.rules@.len() ==> #[trigger] g.rules@[i].0 == self.rules@[i].0,
            forall|i: int| 0 <= i < self.rules@.len() ==> #[trigger] pview(g.rules@[i].1) == pview(self.rules@[i].1),
            names_of_rules(g.rules@) == names_of_rules(self.rules@),
            g.atomic_rules@ == self.atomic_rules@,
            g.rule_order@ == self.rule_order@,
            g.percent_rules@ == self.percent_rules@,
            g.preferred_rules@ == self.preferred_rules@,
            g.start == self.start,
    {
        Grammar {
            rules: copy_rules(&self.rules),
            atomic_rules: copy_names(&self.atomic_rules),
            rule_order: copy_names(&self.rule_order),
            percent_rules: copy_names(&self.percent_rules),
            preferred_rules: copy_names(&self.preferred_rules),
            start: self.start.clone(),
        }
    }

    /// Compile the grammar into a runnable program.
    ///
    /// Pipeline: resolve `^^label` boundaries from FOLLOW sets, reject
    /// partial-match leniency, synthesize the keyword rules and their
    /// boundary checks, splice `ignore` calls, wrap `root`, emit bytecode.
    pub fn compile(&self) -> (r: Result<Program, CompileError>)
        ensures
            index_of(names_of_rules(self.rules@), self.start@) == -1 <==> r matches Err(
                CompileError::UnknownStartRule(_),
            ),
            r matches Err(CompileError::UnknownStartRule(s)) ==> s@ == self.start@,
            ({
                let names = names_of_rules(self.rules@);
                let bodies = bodies_of_rules(self.rules@);
                let nl = rule_nullable(names, bodies);
                let f = rule_follow(names, bodies, nl);
                &&& index_of(names, self.start@) != -1 && (exists|i: int|
                    0 <= i < self.rules@.len() && #[trigger] unresolvable(bodies[i], f[i], names, nl))
                    <==> (r matches Err(CompileError::CannotInferBoundary { .. }))
                &&& r matches Err(CompileError::CannotInferBoundary { rule, .. }) ==> exists|i: int|
                    0 <= i < self.rules@.len() && names[i] == rule@ && #[trigger] unresolvable(
                        bodies[i],
                        f[i],
                        names,
                        nl,
                    )
            }),
            r matches Err(CompileError::PartialMatchLeniency(fs)) ==> fs@.len() > 0 && crate::pegc::lint::findings_sorted(fs@)
                && exists|out: Seq<(String, Pattern)>|
                #[trigger] boundaries_resolved(self.rules@, out) && forall|k: int|
                    0 <= k < fs@.len() ==> finding_ok(
                        #[trigger] fs@[k],
                        names_of_rules(out),
                        bodies_of_rules(out),
                        rule_nullable(names_of_rules(out), bodies_of_rules(out)),
                    ),
            r matches Err(CompileError::UndefinedRule(u)) ==> index_of(names_of_rules(self.rules@), u@) == -1,
            !(r matches Err(CompileError::ReservedPreferredConflict(_))),
            r matches Ok(prog) ==> {
                &&& targets_within(prog.code@)
                &&& prog.code@.len() >= 2
                &&& prog.code@[0] matches Instruction::Call(_)
                &&& prog.code@[1] == Instruction::End
                &&& prog.rule_count == self.rules@.len()
                &&& exists|ord: Seq<int>| #[trigger] rule_order_of(prog, self.rules@, self.start@, ord)
            },
    {
        proof {
            crate::pegc::analysis::lemma_index_of(names_of_rules(self.rules@), self.start@);
        }
        if find_rule(&self.rules, &self.start).is_none() {
            return Err(CompileError::UnknownStartRule(self.start.clone()));
        }
        let mut g = self.deep_copy();
        assert(bodies_of_rules(g.rules@) =~= bodies_of_rules(self.rules@));
        let resolved_rules = match resolve_inferred_boundaries(&g.rules) {
            Ok(rs) => rs,
            Err(e) => return Err(e),
        };
        let ghost names = names_of_rules(self.rules@);
        let ghost bodies = bodies_of_rules(self.rules@);
        let ghost nl = rule_nullable(names, bodies);
        let ghost f = rule_follow(names, bodies, nl);
        g.rules = resolved_rules;
        let findings = lint_partial_match(&g);
        if findings.len() > 0 {
            assert(boundaries_resolved(self.rules@, g.rules@));
            return Err(CompileError::PartialMatchLeniency(findings));
        }
        let ghost before_append = g;
        append_boundary_check(&mut g);
        let ghost before_inject = g;
        inject_auto_ignore(&mut g);
        let ghost before_wrap = g;
        wrap_root(&mut g);
        proof {
            assert forall|i: int| 0 <= i < g.rules@.len() implies resolved(#[trigger] g.rules@[i].1) by {
                let a0 = before_append.rules@[i].1;
                lemma_resolved_view(a0);
                let b0 = before_inject.rules@[i].1;
                if name_set(before_append.percent_rules@).contains(before_append.rules@[i].0@) {
                    lemma_appended_free(pview(a0), pview(b0));
                }
                lemma_resolved_view(b0);
                lemma_inject_free(pview(b0));
                let b1 = before_wrap.rules@[i].1;
                lemma_wrap_free(pview(b1), auto_ignore_active(before_wrap));
                lemma_resolved_view(g.rules@[i].1);
            }
        }
        assert(names_of_rules(g.rules@) == names_of_rules(self.rules@));
        assert(g.start@ == self.start@);
        let r = compile_rules(&g.rules, &g.start);
        proof {
            if let Err(CompileError::CannotInferBoundary { .. }) = r {
                assert(false);
            }
            if r is Ok {
                let prog = r->Ok_0;
                let ord = choose|ord: Seq<int>|
                    start_then_sorted(names_of_rules(g.rules@), ord, index_of(names_of_rules(g.rules@), g.start@))
                        && rules_laid_out(prog, g.rules@, ord);
                assert(rule_order_of(prog, self.rules@, self.start@, ord));
            }
        }
        r
    }
}

/// `out` is `rules` with every inferred boundary resolved: the same
/// names, each body resolved against the grammar's FOLLOW sets.
pub open spec fn boundaries_resolved(rules: Seq<(String, Pattern)>, out: Seq<(String, Pattern)>) -> bool {
    let names = names_of_rules(rules);
    let bodies = bodies_of_rules(rules);
    let nl = rule_nullable(names, bodies);
    let f = rule_follow(names, bodies, nl);
    &&& out.len() == rules.len()
    &&& names_of_rules(out) == names
    &&& forall|i: int| 0 <= i < rules.len() ==> #[trigger] resolves_to(bodies[i], f[i], names, nl, pview(out[i].1))
}

/// The program's rules are those of the grammar, the start rule first
/// and the others sorted by name, in the order `ord`.
pub open spec fn rule_order_of(prog: Program, rules: Seq<(String, Pattern)>, start: Seq<char>, ord: Seq<int>) -> bool {
    let names = names_of_rules(rules);
    &&& start_then_sorted(names, ord, index_of(names, start))
    &&& prog.rule_names@.len() == rules.len()
    &&& forall|k: int| 0 <= k < rules.len() ==> #[trigger] prog.rule_names@[k]@ == names[ord[k]]
}

} // verus!
