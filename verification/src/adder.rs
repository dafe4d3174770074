//! Addition of two 32-bit words from bitwise primitives only.

use vstd::prelude::*;

verus! {

/// The sum of `a` and `b` modulo 2^32.
pub open spec fn wrapping_sum(a: u32, b: u32) -> u32 {
    ((a as int + b as int) % 0x1_0000_0000) as u32
}

proof fn lemma_carry_step(x: u32, y: u32, i: u32)
    by (bit_vector)
    requires
        i < 32,
        y & (((1u64 << i) - 1) as u32) == 0,
    ensures
        ((x ^ y) as int + ((x & y) << 1) as int) % 0x1_0000_0000 == (x as int + y as int) % 0x1_0000_0000,
        ((x & y) << 1) & (((1u64 << ((i + 1) as u32)) - 1) as u32) == 0,
{
}

proof fn lemma_no_low_bits(y: u32)
    by (bit_vector)
    requires
        y & (((1u64 << 32u32) - 1) as u32) == 0,
    ensures
        y == 0,
{
}

/// Adds two words with `&`, `^` and `<<` alone: the exclusive or adds the
/// bits without carrying, the conjunction finds the carries, and the carries
/// are added in turn one position to the left until none is left.
pub fn adder(a: u32, b: u32) -> (sum: u32)
    ensures
        sum == wrapping_sum(a, b),
{
    let mut x: u32 = a;
    let mut y: u32 = b;
    let ghost mut i: u32 = 0;
    proof {
        assert(y & (((1u64 << 0u32) - 1) as u32) == 0) by (bit_vector);
    }
    while y != 0
        invariant
            i <= 32,
            y & (((1u64 << i) - 1) as u32) == 0,
            (x as int + y as int) % 0x1_0000_0000 == (a as int + b as int) % 0x1_0000_0000,
        decreases 32 - i,
    {
        proof {
            if i == 32 {
                lemma_no_low_bits(y);
            }
            lemma_carry_step(x, y, i);
        }
        let carry: u32 = x & y;
        x = x ^ y;
        y = carry << 1;
        proof {
            i = (i + 1) as u32;
        }
    }
    x
}

} // verus!
