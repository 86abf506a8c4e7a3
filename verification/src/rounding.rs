//! Rounding a rating to the nearest multiple of 25.

use vstd::prelude::*;
use vstd::arithmetic::div_mod::lemma_fundamental_div_mod;
use vstd::arithmetic::div_mod::lemma_fundamental_div_mod_converse;

verus! {

/// The nearest multiple of 25, halves rounded away from zero. Since 25 is
/// odd, an integer is never exactly half way between two multiples, so this
/// is simply the closest multiple.
pub open spec fn round25(r: int) -> int {
    if r >= 0 {
        25 * ((r + 12) / 25)
    } else {
        -25 * (((-r) + 12) / 25)
    }
}

/// The rounded value differs from the argument by at most 12.
pub proof fn lemma_round25_close(r: int)
    ensures
        r - 12 <= round25(r) <= r + 12,
{
    if r >= 0 {
        lemma_fundamental_div_mod(r + 12, 25);
    } else {
        lemma_fundamental_div_mod((-r) + 12, 25);
    }
}

/// A multiple of 25 rounds to itself.
proof fn lemma_round25_fixed(q: int)
    requires
        q >= 0,
    ensures
        round25(25 * q) == 25 * q,
        round25(-25 * q) == -25 * q,
{
    lemma_fundamental_div_mod_converse(25 * q + 12, 25, q, 12);
    if q == 0 {
        lemma_fundamental_div_mod_converse(12, 25, 0, 12);
    }
}

/// Rounding to the nearest multiple of 25 is idempotent: rounding an already
/// rounded rating changes nothing.
pub proof fn lemma_round_rating_idempotent(x: int)
    ensures
        round25(round25(x)) == round25(x),
{
    if x >= 0 {
        let q = (x + 12) / 25;
        lemma_fundamental_div_mod(x + 12, 25);
        assert(q >= 0);
        lemma_round25_fixed(q);
    } else {
        let q = ((-x) + 12) / 25;
        lemma_fundamental_div_mod((-x) + 12, 25);
        assert(q >= 0);
        lemma_round25_fixed(q);
    }
}

/// Rounds a rating to the nearest multiple of 25, without any bound on the
/// argument; the result is returned in a wider type so that it always fits.
pub(crate) fn round25_wide(rating: i32) -> (r: i64)
    ensures
        r as int == round25(rating as int),
{
    if rating >= 0 {
        let m: u64 = rating as u64;
        let q: u64 = (m + 12) / 25;
        proof {
            lemma_fundamental_div_mod(rating as int + 12, 25);
        }
        (q * 25) as i64
    } else {
        let m: u64 = (-(rating as i64)) as u64;
        let q: u64 = (m + 12) / 25;
        proof {
            lemma_fundamental_div_mod(-(rating as int) + 12, 25);
        }
        -((q * 25) as i64)
    }
}

/// Rounds `rating` to the nearest multiple of 25 (halves away from zero).
/// The bounds only keep the result representable; ratings in the expected
/// range (roughly 0 to 3500) satisfy them trivially.
pub fn round_rating(rating: i32) -> (r: i32)
    requires
        i32::MIN + 12 <= rating <= i32::MAX - 12,
    ensures
        r as int == round25(rating as int),
{
    let w = round25_wide(rating);
    proof {
        lemma_round25_close(rating as int);
    }
    w as i32
}

} // verus!
