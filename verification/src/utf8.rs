use vstd::prelude::*;

verus! {

/// A UTF-8 continuation byte.
pub open spec fn utf8_cont(b: u8) -> bool {
    0x80 <= b && b <= 0xBF
}

/// The length of the well-formed UTF-8 sequence starting at `i`, or 0 if no
/// well-formed sequence starts there. Overlong forms, surrogates and values
/// beyond U+10FFFF are excluded, as the UTF-8 definition requires.
pub open spec fn spec_utf8_char_len(s: Seq<u8>, i: int) -> int {
    if i < 0 || i >= s.len() {
        0
    } else {
        let b0 = s[i];
        if b0 <= 0x7F {
            1
        } else if 0xC2 <= b0 && b0 <= 0xDF {
            if i + 1 < s.len() && utf8_cont(s[i + 1]) {
                2
            } else {
                0
            }
        } else if b0 == 0xE0 {
            if i + 2 < s.len() && 0xA0 <= s[i + 1] && s[i + 1] <= 0xBF && utf8_cont(s[i + 2]) {
                3
            } else {
                0
            }
        } else if 0xE1 <= b0 && b0 <= 0xEC || b0 == 0xEE || b0 == 0xEF {
            if i + 2 < s.len() && utf8_cont(s[i + 1]) && utf8_cont(s[i + 2]) {
                3
            } else {
                0
            }
        } else if b0 == 0xED {
            if i + 2 < s.len() && 0x80 <= s[i + 1] && s[i + 1] <= 0x9F && utf8_cont(s[i + 2]) {
                3
            } else {
                0
            }
        } else if b0 == 0xF0 {
            if i + 3 < s.len() && 0x90 <= s[i + 1] && s[i + 1] <= 0xBF && utf8_cont(s[i + 2])
                && utf8_cont(s[i + 3]) {
                4
            } else {
                0
            }
        } else if 0xF1 <= b0 && b0 <= 0xF3 {
            if i + 3 < s.len() && utf8_cont(s[i + 1]) && utf8_cont(s[i + 2]) && utf8_cont(
                s[i + 3],
            ) {
                4
            } else {
                0
            }
        } else if b0 == 0xF4 {
            if i + 3 < s.len() && 0x80 <= s[i + 1] && s[i + 1] <= 0x8F && utf8_cont(s[i + 2])
                && utf8_cont(s[i + 3]) {
                4
            } else {
                0
            }
        } else {
            0
        }
    }
}

pub open spec fn utf8_valid_from(s: Seq<u8>, i: int) -> bool
    decreases s.len() - i,
    when 0 <= i
{
    if i >= s.len() {
        true
    } else {
        let n = spec_utf8_char_len(s, i);
        n > 0 && utf8_valid_from(s, i + n)
    }
}

/// The byte sequence is well-formed UTF-8.
pub open spec fn is_utf8(s: Seq<u8>) -> bool {
    utf8_valid_from(s, 0)
}

/// Check that a byte string is well-formed UTF-8.
pub fn validate_utf8(s: &[u8]) -> (r: bool)
    ensures
        r == is_utf8(s@),
{
    let len = s.len();
    let mut i: usize = 0;
    while i < len
        invariant
            0 <= i <= len,
            len == s@.len(),
            is_utf8(s@) == utf8_valid_from(s@, i as int),
        decreases len - i,
    {
        let b0 = s[i];
        let step: usize = if b0 <= 0x7F {
            1
        } else if 0xC2 <= b0 && b0 <= 0xDF {
            if len - i > 1 && 0x80 <= s[i + 1] && s[i + 1] <= 0xBF {
                2
            } else {
                0
            }
        } else if b0 == 0xE0 {
            if len - i > 2 && 0xA0 <= s[i + 1] && s[i + 1] <= 0xBF && 0x80 <= s[i + 2] && s[i + 2]
                <= 0xBF {
                3
            } else {
                0
            }
        } else if 0xE1 <= b0 && b0 <= 0xEC || b0 == 0xEE || b0 == 0xEF {
            if len - i > 2 && 0x80 <= s[i + 1] && s[i + 1] <= 0xBF && 0x80 <= s[i + 2] && s[i + 2]
                <= 0xBF {
                3
            } else {
                0
            }
        } else if b0 == 0xED {
            if len - i > 2 && 0x80 <= s[i + 1] && s[i + 1] <= 0x9F && 0x80 <= s[i + 2] && s[i + 2]
                <= 0xBF {
                3
            } else {
                0
            }
        } else if b0 == 0xF0 {
            if len - i > 3 && 0x90 <= s[i + 1] && s[i + 1] <= 0xBF && 0x80 <= s[i + 2] && s[i + 2]
                <= 0xBF && 0x80 <= s[i + 3] && s[i + 3] <= 0xBF {
                4
            } else {
                0
            }
        } else if 0xF1 <= b0 && b0 <= 0xF3 {
            if len - i > 3 && 0x80 <= s[i + 1] && s[i + 1] <= 0xBF && 0x80 <= s[i + 2] && s[i + 2]
                <= 0xBF && 0x80 <= s[i + 3] && s[i + 3] <= 0xBF {
                4
            } else {
                0
            }
        } else if b0 == 0xF4 {
            if len - i > 3 && 0x80 <= s[i + 1] && s[i + 1] <= 0x8F && 0x80 <= s[i + 2] && s[i + 2]
                <= 0xBF && 0x80 <= s[i + 3] && s[i + 3] <= 0xBF {
                4
            } else {
                0
            }
        } else {
            0
        };
        proof {
            assert(step as int == spec_utf8_char_len(s@, i as int));
        }
        if step == 0 {
            return false;
        }
        i = i + step;
    }
    true
}

} // verus!
