//! UTF-8 validity, stated over byte sequences and checked executably.
//! Rows whose text fields are not valid UTF-8 are rejected by the parser.

use vstd::prelude::*;

verus! {

/// A UTF-8 continuation byte.
pub open spec fn cont_byte(b: u8) -> bool {
    0x80 <= b <= 0xBF
}

/// The length of the encoding announced by a leading byte, or 0 when the
/// byte cannot lead an encoding.
pub open spec fn utf8_len(b0: u8) -> int {
    if b0 < 0x80 {
        1
    } else if 0xC2 <= b0 <= 0xDF {
        2
    } else if 0xE0 <= b0 <= 0xEF {
        3
    } else if 0xF0 <= b0 <= 0xF4 {
        4
    } else {
        0
    }
}

/// `s` begins with one complete, minimally encoded scalar value. The ranges
/// of the second byte exclude overlong forms, surrogates, and values above
/// the last scalar value.
pub open spec fn valid_char_at(s: Seq<u8>) -> bool {
    s.len() > 0 && {
        let b0 = s[0];
        if b0 < 0x80 {
            true
        } else if 0xC2 <= b0 <= 0xDF {
            s.len() >= 2 && cont_byte(s[1])
        } else if b0 == 0xE0 {
            s.len() >= 3 && 0xA0 <= s[1] <= 0xBF && cont_byte(s[2])
        } else if b0 == 0xED {
            s.len() >= 3 && 0x80 <= s[1] <= 0x9F && cont_byte(s[2])
        } else if 0xE1 <= b0 <= 0xEF {
            s.len() >= 3 && cont_byte(s[1]) && cont_byte(s[2])
        } else if b0 == 0xF0 {
            s.len() >= 4 && 0x90 <= s[1] <= 0xBF && cont_byte(s[2]) && cont_byte(s[3])
        } else if b0 == 0xF4 {
            s.len() >= 4 && 0x80 <= s[1] <= 0x8F && cont_byte(s[2]) && cont_byte(s[3])
        } else if 0xF1 <= b0 <= 0xF3 {
            s.len() >= 4 && cont_byte(s[1]) && cont_byte(s[2]) && cont_byte(s[3])
        } else {
            false
        }
    }
}

/// `s` is a sequence of complete, minimally encoded scalar values.
pub open spec fn is_utf8(s: Seq<u8>) -> bool
    decreases s.len(),
{
    if s.len() == 0 {
        true
    } else if !valid_char_at(s) {
        false
    } else {
        is_utf8(s.skip(utf8_len(s[0])))
    }
}

/// Checks UTF-8 validity of a byte vector; mirrors `is_utf8`.
pub fn check_utf8(s: &Vec<u8>) -> (r: bool)
    ensures
        r == is_utf8(s@),
{
    let n = s.len();
    let mut i: usize = 0;
    proof {
        assert(s@.skip(0) =~= s@);
    }
    while i < n
        invariant
            n == s@.len(),
            0 <= i <= n,
            is_utf8(s@) == is_utf8(s@.skip(i as int)),
        decreases n - i,
    {
        let ghost tail = s@.skip(i as int);
        proof {
            assert(tail.len() == n - i);
            assert(forall|j: int| 0 <= j < tail.len() ==> tail[j] == s@[i + j]);
        }
        let b0 = s[i];
        let k: usize;
        if b0 < 0x80 {
            k = 1;
        } else if 0xC2 <= b0 && b0 <= 0xDF {
            if !(n - i >= 2 && 0x80 <= s[i + 1] && s[i + 1] <= 0xBF) {
                proof {
                    assert(!valid_char_at(tail));
                }
                return false;
            }
            k = 2;
        } else if 0xE0 <= b0 && b0 <= 0xEF {
            let lo2: u8 = if b0 == 0xE0 { 0xA0 } else { 0x80 };
            let hi2: u8 = if b0 == 0xED { 0x9F } else { 0xBF };
            if !(n - i >= 3 && lo2 <= s[i + 1] && s[i + 1] <= hi2 && 0x80 <= s[i + 2] && s[i + 2]
                <= 0xBF) {
                proof {
                    assert(!valid_char_at(tail));
                }
                return false;
            }
            k = 3;
        } else if 0xF0 <= b0 && b0 <= 0xF4 {
            let lo2: u8 = if b0 == 0xF0 { 0x90 } else { 0x80 };
            let hi2: u8 = if b0 == 0xF4 { 0x8F } else { 0xBF };
            if !(n - i >= 4 && lo2 <= s[i + 1] && s[i + 1] <= hi2 && 0x80 <= s[i + 2] && s[i + 2]
                <= 0xBF && 0x80 <= s[i + 3] && s[i + 3] <= 0xBF) {
                proof {
                    assert(!valid_char_at(tail));
                }
                return false;
            }
            k = 4;
        } else {
            proof {
                assert(!valid_char_at(tail));
            }
            return false;
        }
        proof {
            assert(valid_char_at(tail));
            assert(utf8_len(tail[0]) == k);
            assert(is_utf8(tail) == is_utf8(tail.skip(k as int)));
            assert(tail.skip(k as int) =~= s@.skip(i + k));
        }
        i += k;
    }
    proof {
        assert(s@.skip(n as int) =~= Seq::<u8>::empty());
    }
    true
}

} // verus!
