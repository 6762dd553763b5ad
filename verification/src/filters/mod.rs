//! Output filters and the token estimate.

pub mod git;

use vstd::prelude::*;

verus! {

/// The estimated number of tokens in a text of `byte_count` bytes: one token
/// per four bytes, rounded up.
pub open spec fn tokens_for(byte_count: nat) -> nat {
    (byte_count + 3) / 4
}

/// Estimate the token count from a byte length, at about four bytes per token
/// (common for English and code), rounding up.
pub fn estimate_tokens(byte_count: usize) -> (res: u64)
    ensures
        res == tokens_for(byte_count as nat),
        res * 4 >= byte_count,
        res * 4 < byte_count + 4,
{
    let n = byte_count as u64;
    let q = n / 4;
    if n % 4 == 0 {
        q
    } else {
        q + 1
    }
}

} // verus!
