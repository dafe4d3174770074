//! Multiplication of two 32-bit words by repeated addition.

use vstd::prelude::*;
use vstd::arithmetic::div_mod::{lemma_add_mod_noop, lemma_small_mod};
use crate::adder::{adder, wrapping_sum};

verus! {

/// The product of `a` and `b` modulo 2^32.
pub open spec fn wrapping_product(a: u32, b: u32) -> u32 {
    ((a as int * b as int) % 0x1_0000_0000) as u32
}

proof fn lemma_next_multiple(a: u32, i: int, sum: u32)
    requires
        0 <= i,
        sum as int == (a as int * i) % 0x1_0000_0000,
    ensures
        wrapping_sum(sum, a) as int == (a as int * (i + 1)) % 0x1_0000_0000,
{
    let m = 0x1_0000_0000int;
    let x = a as int * i;
    lemma_small_mod(a as nat, m as nat);
    lemma_add_mod_noop(x, a as int, m);
    assert(a as int * (i + 1) == x + a as int) by (nonlinear_arith)
        requires
            x == a as int * i,
    ;
}

/// Multiplies by adding `a` to itself `b` times, each time with `adder`.
pub fn multiplier(a: u32, b: u32) -> (product: u32)
    ensures
        product == wrapping_product(a, b),
{
    let mut result: u32 = 0;
    let mut i: u32 = 0;
    assert(a as int * 0 == 0);
    while i < b
        invariant
            i <= b,
            result as int == (a as int * i as int) % 0x1_0000_0000,
        decreases b - i,
    {
        proof {
            lemma_next_multiple(a, i as int, result);
        }
        result = adder(result, a);
        i += 1;
    }
    result
}

} // verus!
