//! UTF-8 decoding of one scalar at an input position.
use vstd::prelude::*;
use vstd::utf8::*;

use super::charset::scalar_to_char;

verus! {

/// Decode the UTF-8 scalar that starts at `input[sp]`, returning it with
/// its encoded width, or `None` when no well-formed scalar starts there
/// (including at end of input).
pub fn decode_scalar(input: &[u8], sp: usize) -> (r: Option<(char, usize)>)
    requires
        sp <= input@.len(),
    ensures
        match r {
            Some((c, n)) => {
                &&& valid_first_scalar(input@.skip(sp as int))
                &&& n as int == length_of_first_scalar(input@.skip(sp as int))
                &&& c as int == decode_first_scalar(input@.skip(sp as int)) as int
                &&& 1 <= n <= 4
                &&& sp + n <= input@.len()
            },
            None => !valid_first_scalar(input@.skip(sp as int)),
        },
{
    let ghost rest = input@.skip(sp as int);
    let len = input.len();
    if sp >= len {
        return None;
    }
    let b0 = input[sp];
    proof {
        assert(rest[0] == b0);
    }
    if b0 <= 0x7f {
        let cp: u32 = (b0 & 0x7F) as u32;
        let c = scalar_to_char(cp);
        proof {
            assert(cp < 0x80) by (bit_vector)
                requires
                    cp == (b0 & 0x7F) as u32,
            ;
        }
        return Some((c.unwrap(), 1));
    }
    if 0xc0 <= b0 && b0 <= 0xdf {
        if len - sp <= 1 {
            return None;
        }
        let b1 = input[sp + 1];
        proof {
            assert(rest[1] == b1);
        }
        if !(0x80 <= b1 && b1 <= 0xbf) {
            return None;
        }
        let cp: u32 = (((b0 & 0x1F) as u32) << 6) | ((b1 & 0x3F) as u32);
        proof {
            assert(cp <= 0x7FF) by (bit_vector)
                requires
                    cp == (((b0 & 0x1F) as u32) << 6) | ((b1 & 0x3F) as u32),
            ;
        }
        if cp < 0x80 {
            return None;
        }
        let c = scalar_to_char(cp);
        return Some((c.unwrap(), 2));
    }
    if 0xe0 <= b0 && b0 <= 0xef {
        if len - sp <= 2 {
            return None;
        }
        let b1 = input[sp + 1];
        let b2 = input[sp + 2];
        proof {
            assert(rest[1] == b1 && rest[2] == b2);
        }
        if !(0x80 <= b1 && b1 <= 0xbf) || !(0x80 <= b2 && b2 <= 0xbf) {
            return None;
        }
        let cp: u32 = (((b0 & 0x0F) as u32) << 12) | (((b1 & 0x3F) as u32) << 6) | ((b2 & 0x3F) as u32);
        proof {
            assert(cp <= 0xFFFF) by (bit_vector)
                requires
                    cp == (((b0 & 0x0F) as u32) << 12) | (((b1 & 0x3F) as u32) << 6) | ((b2 & 0x3F) as u32),
            ;
        }
        if cp < 0x800 || (0xD800 <= cp && cp <= 0xDFFF) {
            return None;
        }
        let c = scalar_to_char(cp);
        return Some((c.unwrap(), 3));
    }
    if 0xf0 <= b0 && b0 <= 0xf7 {
        if len - sp <= 3 {
            return None;
        }
        let b1 = input[sp + 1];
        let b2 = input[sp + 2];
        let b3 = input[sp + 3];
        proof {
            assert(rest[1] == b1 && rest[2] == b2 && rest[3] == b3);
        }
        if !(0x80 <= b1 && b1 <= 0xbf) || !(0x80 <= b2 && b2 <= 0xbf) || !(0x80 <= b3 && b3 <= 0xbf) {
            return None;
        }
        let cp: u32 = (((b0 & 0x07) as u32) << 18) | (((b1 & 0x3F) as u32) << 12) | (((b2 & 0x3F) as u32) << 6) | ((b3 & 0x3F) as u32);
        if cp < 0x10000 || cp > 0x10FFFF {
            return None;
        }
        let c = scalar_to_char(cp);
        return Some((c.unwrap(), 4));
    }
    None
}

} // verus!
