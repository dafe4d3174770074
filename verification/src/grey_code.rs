//! The reflected binary code.

use vstd::prelude::*;

verus! {

/// The code of `n`: each bit of `n` combined with the bit above it.
pub open spec fn grey_code_spec(n: u32) -> u32 {
    n ^ (n >> 1)
}

/// The code of `n`, in which the codes of two numbers that follow one
/// another differ in one bit.
pub fn grey_code(n: u32) -> (code: u32)
    ensures
        code == grey_code_spec(n),
{
    n ^ (n >> 1)
}

/// The codes of a number and of the next one differ in exactly one bit:
/// what tells them apart is not zero, and is nothing but its lowest bit.
pub proof fn lemma_grey_code_neighbours(n: u32, next: u32)
    by (bit_vector)
    requires
        n < 0xffff_ffff,
        next == n + 1,
    ensures
        (n ^ (n >> 1)) ^ (next ^ (next >> 1)) != 0,
        ((n ^ (n >> 1)) ^ (next ^ (next >> 1))) & (((n ^ (n >> 1)) ^ (next ^ (next >> 1))) - 1) as u32 == 0,
{
}

/// Two numbers with one code are one number.
pub proof fn lemma_grey_code_injective(a: u32, b: u32)
    by (bit_vector)
    requires
        a ^ (a >> 1) == b ^ (b >> 1),
    ensures
        a == b,
{
}

} // verus!
