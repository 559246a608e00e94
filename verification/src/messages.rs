//! Human-readable messages of the library's error types.
use std::str::Utf8Error;

use vstd::prelude::*;

use vstd::string::*;

use crate::highlight::HighlightError;
use crate::pegb;
use crate::pegc;
use crate::pegc::analysis::LintFinding;
use crate::pegc::compiler::CompileError;
use crate::pegc::parser::ParseError;
use crate::pegvm::charset::{code_point_text, push_code_point, string_from_chars};
use crate::pegvm::CharSetError;
use crate::report::{decimal, hex_char, lower_hex, push_decimal, push_text};

verus! {

/// The text `std::str::Utf8Error`'s `Display` gives for `e`.
pub uninterp spec fn utf8_error_text(e: Utf8Error) -> Seq<char>;

/// `std::str::Utf8Error`'s `Display`, rendered to a string.
#[verifier::external_body]
fn utf8_error_string(e: Utf8Error) -> (s: String)
    ensures
        s@ == utf8_error_text(e),
{
    format!("{}", e)
}

/// The message of a bytecode decoding error.
pub open spec fn decode_error_text(e: pegb::Error) -> Seq<char> {
    match e {
        pegb::Error::TruncatedInput { needed, position } => "truncated input: needed "@ + decimal(needed as nat)
            + " bytes at position "@ + decimal(position as nat),
        pegb::Error::InvalidOpcode { tag, position } => "invalid opcode tag 0x"@ + seq![
            lower_hex(tag as int / 16),
            lower_hex(tag as int % 16),
        ] + " at position "@ + decimal(position as nat),
        pegb::Error::InvalidRuleKind { tag, position } => "invalid RuleKind discriminant "@ + decimal(tag as nat)
            + " at position "@ + decimal(position as nat),
        pegb::Error::MalformedVarint { position } => "malformed varint at position "@ + decimal(position as nat),
        pegb::Error::InvalidCaptureName(u) => "invalid capture name UTF-8: "@ + utf8_error_text(u),
        pegb::Error::InvalidRuleName(u) => "invalid rule name UTF-8: "@ + utf8_error_text(u),
        pegb::Error::InvalidLabelName(u) => "invalid label name UTF-8: "@ + utf8_error_text(u),
        pegb::Error::InvalidCharSet { position } => "invalid character set at position "@ + decimal(position as nat),
        pegb::Error::InvalidFlag { tag, position } => "invalid ignore flag "@ + decimal(tag as nat) + " at position "@
            + decimal(position as nat),
        pegb::Error::TrailingBytes { remaining } => decimal(remaining as nat) + " trailing byte(s) after end of program"@,
        pegb::Error::ProgramTooLarge { count } => "declared instruction count "@ + decimal(count as nat)
            + " exceeds the 16777216 sanity cap"@,
    }
}

impl pegb::Error {
    /// The error as a message.
    pub fn describe(&self) -> (s: String)
        ensures
            s@ == decode_error_text(*self),
    {
        let mut out: Vec<char> = Vec::new();
        match *self {
            pegb::Error::TruncatedInput { needed, position } => {
                push_text(&mut out, "truncated input: needed ");
                push_decimal(&mut out, needed);
                push_text(&mut out, " bytes at position ");
                push_decimal(&mut out, position);
            },
            pegb::Error::InvalidOpcode { tag, position } => {
                push_text(&mut out, "invalid opcode tag 0x");
                out.push(hex_char(tag as u32 / 16));
                out.push(hex_char(tag as u32 % 16));
                push_text(&mut out, " at position ");
                push_decimal(&mut out, position);
            },
            pegb::Error::InvalidRuleKind { tag, position } => {
                push_text(&mut out, "invalid RuleKind discriminant ");
                push_decimal(&mut out, tag as usize);
                push_text(&mut out, " at position ");
                push_decimal(&mut out, position);
            },
            pegb::Error::MalformedVarint { position } => {
                push_text(&mut out, "malformed varint at position ");
                push_decimal(&mut out, position);
            },
            pegb::Error::InvalidCaptureName(u) => {
                push_text(&mut out, "invalid capture name UTF-8: ");
                let text = utf8_error_string(u);
                push_text(&mut out, text.as_str());
            },
            pegb::Error::InvalidRuleName(u) => {
                push_text(&mut out, "invalid rule name UTF-8: ");
                let text = utf8_error_string(u);
                push_text(&mut out, text.as_str());
            },
            pegb::Error::InvalidLabelName(u) => {
                push_text(&mut out, "invalid label name UTF-8: ");
                let text = utf8_error_string(u);
                push_text(&mut out, text.as_str());
            },
            pegb::Error::InvalidCharSet { position } => {
                push_text(&mut out, "invalid character set at position ");
                push_decimal(&mut out, position);
            },
            pegb::Error::InvalidFlag { tag, position } => {
                push_text(&mut out, "invalid ignore flag ");
                push_decimal(&mut out, tag as usize);
                push_text(&mut out, " at position ");
                push_decimal(&mut out, position);
            },
            pegb::Error::TrailingBytes { remaining } => {
                push_decimal(&mut out, remaining);
                push_text(&mut out, " trailing byte(s) after end of program");
            },
            pegb::Error::ProgramTooLarge { count } => {
                push_text(&mut out, "declared instruction count ");
                push_decimal(&mut out, count as usize);
                push_text(&mut out, " exceeds the 16777216 sanity cap");
            },
        }
        assert(out@ =~= decode_error_text(*self));
        string_from_chars(&out)
    }
}

/// The message of an inverted range.
pub open spec fn charset_error_text(e: CharSetError) -> Seq<char> {
    match e {
        CharSetError::InvertedRange(lo, hi) => "inverted code-point range "@ + code_point_text(lo) + seq!['-']
            + code_point_text(hi) + " (lo > hi)"@,
    }
}

impl CharSetError {
    /// The error as a message.
    pub fn describe(&self) -> (s: String)
        ensures
            s@ == charset_error_text(*self),
    {
        let mut out: Vec<char> = Vec::new();
        match *self {
            CharSetError::InvertedRange(lo, hi) => {
                push_text(&mut out, "inverted code-point range ");
                push_code_point(&mut out, lo);
                out.push('-');
                push_code_point(&mut out, hi);
                push_text(&mut out, " (lo > hi)");
            },
        }
        assert(out@ =~= charset_error_text(*self));
        string_from_chars(&out)
    }
}

/// The message of a grammar-source error.
pub open spec fn parse_error_text(e: ParseError) -> Seq<char> {
    "grammar parse error at "@ + decimal(e.line as nat) + seq![':'] + decimal(e.col as nat) + ": "@ + e.message@
}

impl ParseError {
    /// The error as a message, with its line and column.
    pub fn describe(&self) -> (s: String)
        ensures
            s@ == parse_error_text(*self),
    {
        let mut out: Vec<char> = Vec::new();
        push_text(&mut out, "grammar parse error at ");
        push_decimal(&mut out, self.line);
        out.push(':');
        push_decimal(&mut out, self.col);
        push_text(&mut out, ": ");
        push_text(&mut out, self.message.as_str());
        assert(out@ =~= parse_error_text(*self));
        string_from_chars(&out)
    }
}

/// One line of a leniency report.
pub open spec fn finding_text(f: LintFinding) -> Seq<char> {
    "  - rule `"@ + f.rule@ + "` is called unanchored by `"@ + f.caller@
        + "`; its trailing optional can succeed on a prefix, leaving bytes the caller does not validate\n"@
}

/// The lines of the findings, in order.
pub open spec fn findings_text(fs: Seq<LintFinding>) -> Seq<char>
    decreases fs.len(),
{
    if fs.len() == 0 {
        Seq::empty()
    } else {
        findings_text(fs.drop_last()) + finding_text(fs.last())
    }
}

/// The words, separated by `, `.
pub open spec fn joined_words(ws: Seq<String>) -> Seq<char>
    decreases ws.len(),
{
    if ws.len() == 0 {
        Seq::empty()
    } else if ws.len() == 1 {
        ws[0]@
    } else {
        joined_words(ws.drop_last()) + ", "@ + ws.last()@
    }
}

/// The message of a compile error.
pub open spec fn compile_error_text(e: CompileError) -> Seq<char> {
    match e {
        CompileError::UndefinedRule(name) => "undefined rule: "@ + name@,
        CompileError::UnknownStartRule(name) => "unknown start rule: "@ + name@,
        CompileError::CannotInferBoundary { rule, label } => "cannot infer boundary for `^^"@ + label@
            + "` in rule `"@ + rule@
            + "`: no following context. Either delete the unreachable catch or specify an explicit boundary `^^"@
            + label@ + " B`."@,
        CompileError::PartialMatchLeniency(fs) => "partial-match leniency detected:\n"@ + findings_text(fs@),
        CompileError::ReservedPreferredConflict(ws) => "keywords both reserved and preferred: "@ + joined_words(ws@),
        CompileError::ProgramTooLarge => "compiled program too large for 32-bit jump targets"@,
    }
}

impl CompileError {
    /// The error as a message.
    pub fn describe(&self) -> (s: String)
        ensures
            s@ == compile_error_text(*self),
    {
        let mut out: Vec<char> = Vec::new();
        match self {
            CompileError::UndefinedRule(name) => {
                push_text(&mut out, "undefined rule: ");
                push_text(&mut out, name.as_str());
            },
            CompileError::UnknownStartRule(name) => {
                push_text(&mut out, "unknown start rule: ");
                push_text(&mut out, name.as_str());
            },
            CompileError::CannotInferBoundary { rule, label } => {
                push_text(&mut out, "cannot infer boundary for `^^");
                push_text(&mut out, label.as_str());
                push_text(&mut out, "` in rule `");
                push_text(&mut out, rule.as_str());
                push_text(
                    &mut out,
                    "`: no following context. Either delete the unreachable catch or specify an explicit boundary `^^",
                );
                push_text(&mut out, label.as_str());
                push_text(&mut out, " B`.");
            },
            CompileError::PartialMatchLeniency(fs) => {
                push_text(&mut out, "partial-match leniency detected:\n");
                let ghost head = out@;
                let mut k: usize = 0;
                while k < fs.len()
                    invariant
                        k <= fs@.len(),
                        out@ == head + findings_text(fs@.take(k as int)),
                    decreases fs.len() - k,
                {
                    proof {
                        assert(fs@.take(k + 1).drop_last() =~= fs@.take(k as int));
                    }
                    push_text(&mut out, "  - rule `");
                    push_text(&mut out, fs[k].rule.as_str());
                    push_text(&mut out, "` is called unanchored by `");
                    push_text(&mut out, fs[k].caller.as_str());
                    push_text(
                        &mut out,
                        "`; its trailing optional can succeed on a prefix, leaving bytes the caller does not validate\n",
                    );
                    k += 1;
                    assert(out@ =~= head + findings_text(fs@.take(k as int)));
                }
                assert(fs@.take(fs@.len() as int) == fs@);
            },
            CompileError::ReservedPreferredConflict(ws) => {
                push_text(&mut out, "keywords both reserved and preferred: ");
                let ghost head = out@;
                let mut k: usize = 0;
                while k < ws.len()
                    invariant
                        k <= ws@.len(),
                        out@ == head + joined_words(ws@.take(k as int)),
                    decreases ws.len() - k,
                {
                    proof {
                        assert(ws@.take(k + 1).drop_last() =~= ws@.take(k as int));
                        if k == 0 {
                            assert(joined_words(ws@.take(0)) =~= Seq::<char>::empty());
                        }
                    }
                    if k > 0 {
                        push_text(&mut out, ", ");
                    }
                    push_text(&mut out, ws[k].as_str());
                    k += 1;
                    assert(out@ =~= head + joined_words(ws@.take(k as int)));
                }
                assert(ws@.take(ws@.len() as int) == ws@);
            },
            CompileError::ProgramTooLarge => {
                push_text(&mut out, "compiled program too large for 32-bit jump targets");
            },
        }
        assert(out@ =~= compile_error_text(*self));
        string_from_chars(&out)
    }
}

/// The message of a grammar error: that of its parse or compile error.
pub open spec fn grammar_error_text(e: pegc::Error) -> Seq<char> {
    match e {
        pegc::Error::Parse(p) => parse_error_text(p),
        pegc::Error::Compile(c) => compile_error_text(c),
    }
}

impl pegc::Error {
    /// The error as a message.
    pub fn describe(&self) -> (s: String)
        ensures
            s@ == grammar_error_text(*self),
    {
        match self {
            pegc::Error::Parse(p) => p.describe(),
            pegc::Error::Compile(c) => c.describe(),
        }
    }
}

impl HighlightError {
    /// The error as a message: that of its parse or compile error.
    pub fn describe(&self) -> (s: String)
        ensures
            s@ == match *self {
                HighlightError::Parse(p) => parse_error_text(p),
                HighlightError::Compile(c) => compile_error_text(c),
            },
    {
        match self {
            HighlightError::Parse(p) => p.describe(),
            HighlightError::Compile(c) => c.describe(),
        }
    }
}

} // verus!
