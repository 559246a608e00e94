//! ANSI colors for capture kinds.
use vstd::prelude::*;

use vstd::string::*;

verus! {

/// `ESC [ body m`: a Select Graphic Rendition escape.
pub open spec fn sgr(body: Seq<u8>) -> Seq<u8> {
    seq![0x1bu8, 0x5bu8] + body + seq![0x6du8]
}

/// The bytes of the reset escape, `ESC [ 0 m`.
pub open spec fn reset_bytes() -> Seq<u8> {
    sgr(seq![0x30u8])
}

/// The escape a capture kind is drawn in; empty for kinds without a color.
#[verifier::opaque]
pub open spec fn color_bytes(kind: Seq<char>) -> Seq<u8> {
    if kind == "keyword"@ {
        sgr(seq![0x31u8, 0x3bu8, 0x33u8, 0x34u8])  // bold blue
    } else if kind == "string"@ {
        sgr(seq![0x33u8, 0x32u8])  // green
    } else if kind == "number"@ {
        sgr(seq![0x33u8, 0x33u8])  // yellow
    } else if kind == "comment"@ {
        sgr(seq![0x32u8, 0x3bu8, 0x33u8, 0x37u8])  // dim gray
    } else if kind == "operator"@ {
        sgr(seq![0x33u8, 0x36u8])  // cyan
    } else if kind == "punctuation"@ {
        sgr(seq![0x33u8, 0x37u8])  // white
    } else if kind == "type"@ {
        sgr(seq![0x33u8, 0x33u8])  // yellow
    } else if kind == "function"@ {
        sgr(seq![0x31u8, 0x3bu8, 0x33u8, 0x33u8])  // bold yellow
    } else if kind == "constant"@ {
        sgr(seq![0x33u8, 0x35u8])  // magenta
    } else if kind == "property"@ {
        sgr(seq![0x33u8, 0x36u8])  // cyan
    } else if kind == "variable"@ {
        sgr(seq![0x33u8, 0x37u8])  // white
    } else {
        Seq::empty()
    }
}

/// `a == b`, byte for byte.
pub(crate) fn same_bytes(a: &[u8], b: &[u8]) -> (r: bool)
    ensures
        r == (a@ == b@),
{
    if a.len() != b.len() {
        return false;
    }
    let mut i: usize = 0;
    while i < a.len()
        invariant
            i <= a.len(),
            a.len() == b.len(),
            forall|k: int| 0 <= k < i ==> a@[k] == b@[k],
        decreases a.len() - i,
    {
        if a[i] != b[i] {
            return false;
        }
        i += 1;
    }
    assert(a@ =~= b@);
    true
}

/// `kind` spells `name`.
pub(crate) fn is_kind(kind: &str, name: &str) -> (r: bool)
    ensures
        r == (kind@ == name@),
{
    let r = same_bytes(kind.as_bytes(), name.as_bytes());
    proof {
        vstd::utf8::encode_utf8_decode_utf8(kind@);
        vstd::utf8::encode_utf8_decode_utf8(name@);
    }
    r
}

/// The bytes of an ASCII string are its characters.
proof fn lemma_ascii_bytes(s: &str, cs: Seq<char>)
    requires
        s@ =~= cs,
        vstd::utf8::is_ascii_chars(cs),
    ensures
        s.spec_bytes() =~= Seq::new(cs.len(), |i: int| cs[i] as u8),
{
    assert(is_ascii(s));
    is_ascii_spec_bytes(s);
}

/// The reset escape as a string.
pub fn reset() -> (s: &'static str)
    ensures
        s.spec_bytes() == reset_bytes(),
{
    let s = "\x1b[0m";
    proof {
        reveal_strlit("\x1b[0m");
        lemma_ascii_bytes(s, seq!['\x1b', '[', '0', 'm']);
        assert(s.spec_bytes() =~= reset_bytes());
    }
    s
}

/// The ANSI color escape for a capture kind; the empty string for kinds
/// without a color.
pub fn color_for(kind: &str) -> (c: &'static str)
    ensures
        c.spec_bytes() == color_bytes(kind@),
{
    reveal(color_bytes);
    if is_kind(kind, "keyword") {
        let s = "\x1b[1;34m";
        proof {
            reveal_strlit("\x1b[1;34m");
            lemma_ascii_bytes(s, seq!['\x1b', '[', '1', ';', '3', '4', 'm']);
            assert(s.spec_bytes() =~= color_bytes(kind@));
        }
        s
    } else if is_kind(kind, "string") {
        let s = "\x1b[32m";
        proof {
            reveal_strlit("\x1b[32m");
            lemma_ascii_bytes(s, seq!['\x1b', '[', '3', '2', 'm']);
            assert(s.spec_bytes() =~= color_bytes(kind@));
        }
        s
    } else if is_kind(kind, "number") {
        let s = "\x1b[33m";
        proof {
            reveal_strlit("\x1b[33m");
            lemma_ascii_bytes(s, seq!['\x1b', '[', '3', '3', 'm']);
            assert(s.spec_bytes() =~= color_bytes(kind@));
        }
        s
    } else if is_kind(kind, "comment") {
        let s = "\x1b[2;37m";
        proof {
            reveal_strlit("\x1b[2;37m");
            lemma_ascii_bytes(s, seq!['\x1b', '[', '2', ';', '3', '7', 'm']);
            assert(s.spec_bytes() =~= color_bytes(kind@));
        }
        s
    } else if is_kind(kind, "operator") {
        let s = "\x1b[36m";
        proof {
            reveal_strlit("\x1b[36m");
            lemma_ascii_bytes(s, seq!['\x1b', '[', '3', '6', 'm']);
            assert(s.spec_bytes() =~= color_bytes(kind@));
        }
        s
    } else if is_kind(kind, "punctuation") {
        let s = "\x1b[37m";
        proof {
            reveal_strlit("\x1b[37m");
            lemma_ascii_bytes(s, seq!['\x1b', '[', '3', '7', 'm']);
            assert(s.spec_bytes() =~= color_bytes(kind@));
        }
        s
    } else if is_kind(kind, "type") {
        let s = "\x1b[33m";
        proof {
            reveal_strlit("\x1b[33m");
            lemma_ascii_bytes(s, seq!['\x1b', '[', '3', '3', 'm']);
            assert(s.spec_bytes() =~= color_bytes(kind@));
        }
        s
    } else if is_kind(kind, "function") {
        let s = "\x1b[1;33m";
        proof {
            reveal_strlit("\x1b[1;33m");
            lemma_ascii_bytes(s, seq!['\x1b', '[', '1', ';', '3', '3', 'm']);
            assert(s.spec_bytes() =~= color_bytes(kind@));
        }
        s
    } else if is_kind(kind, "constant") {
        let s = "\x1b[35m";
        proof {
            reveal_strlit("\x1b[35m");
            lemma_ascii_bytes(s, seq!['\x1b', '[', '3', '5', 'm']);
            assert(s.spec_bytes() =~= color_bytes(kind@));
        }
        s
    } else if is_kind(kind, "property") {
        let s = "\x1b[36m";
        proof {
            reveal_strlit("\x1b[36m");
            lemma_ascii_bytes(s, seq!['\x1b', '[', '3', '6', 'm']);
            assert(s.spec_bytes() =~= color_bytes(kind@));
        }
        s
    } else if is_kind(kind, "variable") {
        let s = "\x1b[37m";
        proof {
            reveal_strlit("\x1b[37m");
            lemma_ascii_bytes(s, seq!['\x1b', '[', '3', '7', 'm']);
            assert(s.spec_bytes() =~= color_bytes(kind@));
        }
        s
    } else {
        let s = "";
        proof {
            reveal_strlit("");
            assert(s.spec_bytes() =~= color_bytes(kind@));
        }
        s
    }
}

} // verus!
