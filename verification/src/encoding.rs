//! UTF-8 validation and character counting on raw bytes.
//!
//! Request bodies arrive as bytes and must be valid text; the validator here
//! is proved against vstd's `valid_utf8` specification.
use vstd::prelude::*;

verus! {

use vstd::utf8::is_continuation_byte;
use vstd::utf8::partial_valid_partial_invalid_utf8;
use vstd::utf8::partial_valid_utf8;
use vstd::utf8::partial_valid_utf8_extend;
use vstd::utf8::valid_first_scalar;
use vstd::utf8::valid_utf8;

/// Number of non-continuation bytes of `s`; for valid UTF-8 this is the
/// number of encoded characters, as `lemma_char_count_is_decoded_len`
/// proves against vstd's decoder.
pub open spec fn char_count(s: Seq<u8>) -> int
    decreases s.len(),
{
    if s.len() == 0 {
        0
    } else {
        (if is_continuation_byte(s[0]) {
            0int
        } else {
            1int
        }) + char_count(s.skip(1))
    }
}

/// Exec count of the non-continuation bytes of `s`.
pub fn count_chars(s: &[u8]) -> (r: usize)
    ensures
        r == char_count(s@),
{
    let mut n: usize = 0;
    let mut i: usize = 0;
    proof {
        assert(s@.skip(0) =~= s@);
    }
    while i < s.len()
        invariant
            i <= s@.len(),
            n <= i,
            n + char_count(s@.skip(i as int)) == char_count(s@),
        decreases s@.len() - i,
    {
        let b = s[i];
        proof {
            assert(s@.skip(i as int)[0] == b);
            assert(s@.skip(i as int).skip(1) =~= s@.skip(i + 1));
        }
        if b < 0x80 || b > 0xbf {
            n = n + 1;
        }
        i = i + 1;
    }
    proof {
        assert(s@.skip(s@.len() as int) =~= Seq::<u8>::empty());
    }
    n
}

/// Exec UTF-8 validity check, proved against vstd's `valid_utf8`.
pub fn is_valid_utf8(s: &[u8]) -> (r: bool)
    ensures
        r == valid_utf8(s@),
{
    let len = s.len();
    let mut i: usize = 0;
    while i < len
        invariant
            len == s@.len(),
            i <= len,
            partial_valid_utf8(s@, i as int),
        decreases len - i,
    {
        let ghost rest = s@.subrange(i as int, s@.len() as int);
        let b0 = s[i];
        proof {
            assert(rest.len() == s@.len() - i);
            assert(rest[0] == b0);
        }
        if b0 < 0x80 {
            proof {
                assert((b0 & 0x7f) as u32 <= 0x7f) by (bit_vector)
                    requires
                        b0 < 0x80,
                ;
                assert(valid_first_scalar(rest));
                partial_valid_utf8_extend(s@, i as int);
            }
            i = i + 1;
        } else if 0xc2 <= b0 && b0 <= 0xdf {
            if i + 1 >= len {
                proof {
                    assert(!valid_first_scalar(rest));
                    partial_valid_partial_invalid_utf8(s@, i as int);
                }
                return false;
            }
            let b1 = s[i + 1];
            proof {
                assert(rest[1] == b1);
            }
            if b1 < 0x80 || b1 > 0xbf {
                proof {
                    assert(!valid_first_scalar(rest));
                    partial_valid_partial_invalid_utf8(s@, i as int);
                }
                return false;
            }
            proof {
                assert(0x80 <= (((b0 & 0x1f) as u32) << 6 | (b1 & 0x3f) as u32) < 0xd800)
                    by (bit_vector)
                    requires
                        0xc2 <= b0 <= 0xdf && 0x80 <= b1 <= 0xbf,
                ;
                assert(valid_first_scalar(rest));
                partial_valid_utf8_extend(s@, i as int);
            }
            i = i + 2;
        } else if 0xe0 <= b0 && b0 <= 0xef {
            if len - i < 3 {
                proof {
                    assert(!valid_first_scalar(rest));
                    partial_valid_partial_invalid_utf8(s@, i as int);
                }
                return false;
            }
            let b1 = s[i + 1];
            let b2 = s[i + 2];
            proof {
                assert(rest[1] == b1 && rest[2] == b2);
            }
            let lo1: u8 = if b0 == 0xe0 {
                0xa0
            } else {
                0x80
            };
            let hi1: u8 = if b0 == 0xed {
                0x9f
            } else {
                0xbf
            };
            if b1 < lo1 || b1 > hi1 || b2 < 0x80 || b2 > 0xbf {
                proof {
                    if 0x80 <= b1 <= 0xbf && 0x80 <= b2 <= 0xbf {
                        assert((b0 == 0xe0 && b1 < 0xa0) ==> ((((b0 & 0x0f) as u32) << 12 | ((b1
                            & 0x3f) as u32) << 6 | (b2 & 0x3f) as u32) < 0x800)) by (bit_vector)
                            requires
                                0x80 <= b1 <= 0xbf,
                        ;
                        assert((b0 == 0xed && b1 > 0x9f) ==> (0xd800 <= (((b0 & 0x0f) as u32) << 12
                            | ((b1 & 0x3f) as u32) << 6 | (b2 & 0x3f) as u32) <= 0xdfff))
                            by (bit_vector)
                            requires
                                0x80 <= b1 <= 0xbf && 0x80 <= b2 <= 0xbf,
                        ;
                    }
                    assert(!valid_first_scalar(rest));
                    partial_valid_partial_invalid_utf8(s@, i as int);
                }
                return false;
            }
            proof {
                assert((((b0 & 0x0f) as u32) << 12 | ((b1 & 0x3f) as u32) << 6 | (b2
                    & 0x3f) as u32) >= 0x800 && !(0xd800 <= (((b0 & 0x0f) as u32) << 12 | ((b1
                    & 0x3f) as u32) << 6 | (b2 & 0x3f) as u32) <= 0xdfff)) by (bit_vector)
                    requires
                        0xe0 <= b0 <= 0xef && 0x80 <= b1 <= 0xbf && 0x80 <= b2 <= 0xbf && (b0
                            == 0xe0 ==> b1 >= 0xa0) && (b0 == 0xed ==> b1 <= 0x9f),
                ;
                assert(valid_first_scalar(rest));
                partial_valid_utf8_extend(s@, i as int);
            }
            i = i + 3;
        } else if 0xf0 <= b0 && b0 <= 0xf4 {
            if len - i < 4 {
                proof {
                    assert(!valid_first_scalar(rest));
                    partial_valid_partial_invalid_utf8(s@, i as int);
                }
                return false;
            }
            let b1 = s[i + 1];
            let b2 = s[i + 2];
            let b3 = s[i + 3];
            proof {
                assert(rest[1] == b1 && rest[2] == b2 && rest[3] == b3);
            }
            let lo1: u8 = if b0 == 0xf0 {
                0x90
            } else {
                0x80
            };
            let hi1: u8 = if b0 == 0xf4 {
                0x8f
            } else {
                0xbf
            };
            if b1 < lo1 || b1 > hi1 || b2 < 0x80 || b2 > 0xbf || b3 < 0x80 || b3 > 0xbf {
                proof {
                    if 0x80 <= b1 <= 0xbf && 0x80 <= b2 <= 0xbf && 0x80 <= b3 <= 0xbf {
                        assert((b0 == 0xf0 && b1 < 0x90) ==> ((((b0 & 0x07) as u32) << 18 | ((b1
                            & 0x3f) as u32) << 12 | ((b2 & 0x3f) as u32) << 6 | (b3
                            & 0x3f) as u32) < 0x10000)) by (bit_vector)
                            requires
                                0x80 <= b1 <= 0xbf,
                        ;
                        assert((b0 == 0xf4 && b1 > 0x8f) ==> ((((b0 & 0x07) as u32) << 18 | ((b1
                            & 0x3f) as u32) << 12 | ((b2 & 0x3f) as u32) << 6 | (b3
                            & 0x3f) as u32) > 0x10ffff)) by (bit_vector)
                            requires
                                0x80 <= b1 <= 0xbf,
                        ;
                    }
                    assert(!valid_first_scalar(rest));
                    partial_valid_partial_invalid_utf8(s@, i as int);
                }
                return false;
            }
            proof {
                assert(0x10000 <= (((b0 & 0x07) as u32) << 18 | ((b1 & 0x3f) as u32) << 12 | ((b2
                    & 0x3f) as u32) << 6 | (b3 & 0x3f) as u32) <= 0x10ffff) by (bit_vector)
                    requires
                        0xf0 <= b0 <= 0xf4 && 0x80 <= b1 <= 0xbf && 0x80 <= b2 <= 0xbf && 0x80
                            <= b3 <= 0xbf && (b0 == 0xf0 ==> b1 >= 0x90) && (b0 == 0xf4 ==> b1
                            <= 0x8f),
                ;
                assert(valid_first_scalar(rest));
                partial_valid_utf8_extend(s@, i as int);
            }
            i = i + 4;
        } else {
            proof {
                if 0xc0 <= b0 <= 0xc1 {
                    if rest.len() >= 2 && is_continuation_byte(rest[1]) {
                        let g1 = rest[1];
                        assert((((b0 & 0x1f) as u32) << 6 | (g1 & 0x3f) as u32) < 0x80)
                            by (bit_vector)
                            requires
                                0xc0 <= b0 <= 0xc1,
                        ;
                    }
                } else if 0xf5 <= b0 <= 0xf7 {
                    if rest.len() >= 4 && is_continuation_byte(rest[1]) && is_continuation_byte(
                        rest[2],
                    ) && is_continuation_byte(rest[3]) {
                        let g1 = rest[1];
                        let g2 = rest[2];
                        let g3 = rest[3];
                        assert((((b0 & 0x07) as u32) << 18 | ((g1 & 0x3f) as u32) << 12 | ((g2
                            & 0x3f) as u32) << 6 | (g3 & 0x3f) as u32) > 0x10ffff) by (bit_vector)
                            requires
                                0xf5 <= b0 <= 0xf7,
                        ;
                    }
                }
                assert(!valid_first_scalar(rest));
                partial_valid_partial_invalid_utf8(s@, i as int);
            }
            return false;
        }
    }
    proof {
        assert(s@.subrange(0, s@.len() as int) =~= s@);
    }
    true
}


proof fn lemma_char_count_skip_cont(s: Seq<u8>, k: int)
    requires
        0 <= k <= s.len(),
        forall|j: int| 0 <= j < k ==> is_continuation_byte(s[j]),
    ensures
        char_count(s) == char_count(s.skip(k)),
    decreases k,
{
    if k > 0 {
        assert(char_count(s) == char_count(s.skip(1)));
        assert forall|j: int| 0 <= j < k - 1 implies is_continuation_byte(s.skip(1)[j]) by {
            assert(s.skip(1)[j] == s[j + 1]);
        }
        lemma_char_count_skip_cont(s.skip(1), k - 1);
        assert(s.skip(1).skip(k - 1) =~= s.skip(k));
    } else {
        assert(s.skip(0) =~= s);
    }
}

/// The model behind the guestbook's length limit: for valid UTF-8, the
/// number of non-continuation bytes is exactly the number of decoded
/// characters.
pub proof fn lemma_char_count_is_decoded_len(s: Seq<u8>)
    requires
        valid_utf8(s),
    ensures
        char_count(s) == vstd::utf8::decode_utf8(s).len(),
    decreases s.len(),
{
    if s.len() > 0 {
        let w = vstd::utf8::length_of_first_scalar(s);
        let rest = vstd::utf8::pop_first_scalar(s);
        assert(valid_first_scalar(s));
        assert(1 <= w <= 4 && w <= s.len());
        assert(!is_continuation_byte(s[0]));
        assert forall|j: int| 1 <= j < w implies is_continuation_byte(s[j]) by {}
        assert(char_count(s) == 1 + char_count(s.skip(1)));
        assert forall|j: int| 0 <= j < w - 1 implies is_continuation_byte(s.skip(1)[j]) by {
            assert(s.skip(1)[j] == s[j + 1]);
        }
        lemma_char_count_skip_cont(s.skip(1), w - 1);
        assert(s.skip(1).skip(w - 1) =~= s.subrange(w, s.len() as int));
        lemma_char_count_is_decoded_len(rest);
        assert(vstd::utf8::decode_utf8(s).len() == 1 + vstd::utf8::decode_utf8(rest).len());
    }
}

} // verus!
