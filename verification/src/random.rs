//! Random numeric strings for session tokens and CSRF nonces.
use vstd::prelude::*;

verus! {

use crate::text::all_digits;
use crate::text::lemma_dec_rep_digits;
use crate::text::sub_bytes;
use crate::text::usize_to_decimal;

/// Relies on rand::random::<u64>: draws one machine word of randomness.
/// Nothing is promised of the value.
#[verifier::external_body]
fn random_usize() -> usize {
    rand::random::<u64>() as usize
}

/// A fresh numeric string: the decimal digits of a random number with its
/// first two digits dropped, as the token scheme writes them. Only the shape
/// is promised — every byte is an ASCII digit — since the value is random.
pub fn get_random_number() -> (r: Vec<u8>)
    ensures
        all_digits(r@),
{
    let n = random_usize();
    let digits = usize_to_decimal(n);
    proof {
        lemma_dec_rep_digits(n as nat);
    }
    let start: usize = if digits.len() > 2 {
        2
    } else {
        digits.len()
    };
    let r = sub_bytes(digits.as_slice(), start, digits.len());
    proof {
        assert forall|i: int| 0 <= i < r@.len() implies crate::text::is_digit(r@[i]) by {
            assert(r@[i] == digits@[start + i]);
        }
    }
    r
}

} // verus!
