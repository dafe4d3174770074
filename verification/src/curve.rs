//! The interleaving of the bits of two coordinates, and its inverse.
//!
//! A point with two 16-bit coordinates gets a 32-bit code whose even bits
//! are the bits of the first coordinate and whose odd bits are those of the
//! second. Points that are close mostly have codes that are close.

use vstd::prelude::*;

verus! {

/// The 16 low bits of `n` moved apart: the bit at place i goes to place
/// 2i, and the odd places are empty.
pub open spec fn spread(n: u32) -> u32 {
    let a = (n | (n << 8)) & 0x00FF00FF;
    let b = (a | (a << 4)) & 0x0F0F0F0F;
    let c = (b | (b << 2)) & 0x33333333;
    (c | (c << 1)) & 0x55555555
}

/// The bits at the even places of `n` moved together: the bit at place 2i
/// goes to place i.
pub open spec fn gather(n: u32) -> u32 {
    let a = n & 0x55555555;
    let b = (a | (a >> 1)) & 0x33333333;
    let c = (b | (b >> 2)) & 0x0F0F0F0F;
    let d = (c | (c >> 4)) & 0x00FF00FF;
    (d | (d >> 8)) & 0x0000FFFF
}

/// The code of the point (x, y).
pub open spec fn interleave_spec(x: u16, y: u16) -> u32 {
    (spread(y as u32) << 1) | spread(x as u32)
}

/// The point of a code.
pub open spec fn deinterleave_spec(code: u32) -> (u16, u16) {
    (gather(code) as u16, gather(code >> 1) as u16)
}

/// Whether the bit at place `at` of `word` is set.
pub open spec fn bit_at(word: u32, at: u32) -> bool {
    (word >> at) & 1 == 1
}

fn part1by1(n: u16) -> (r: u32)
    ensures
        r == spread(n as u32),
{
    let mut n: u32 = n as u32;
    n = (n | (n << 8)) & 0x00FF00FF;
    n = (n | (n << 4)) & 0x0F0F0F0F;
    n = (n | (n << 2)) & 0x33333333;
    n = (n | (n << 1)) & 0x55555555;
    n
}

fn compact1by1(n: u32) -> (r: u16)
    ensures
        r == gather(n) as u16,
        r as u32 == gather(n),
{
    let mut n: u32 = n & 0x55555555;
    n = (n | (n >> 1)) & 0x33333333;
    n = (n | (n >> 2)) & 0x0F0F0F0F;
    n = (n | (n >> 4)) & 0x00FF00FF;
    let wide: u32 = n | (n >> 8);
    n = wide & 0x0000FFFF;
    assert(wide & 0x0000FFFF <= 0xFFFF) by (bit_vector);
    n as u16
}

/// The code of the point (x, y): the bits of `x` at the even places and
/// the bits of `y` at the odd ones.
pub fn interleave(x: u16, y: u16) -> (code: u32)
    ensures
        code == interleave_spec(x, y),
{
    (part1by1(y) << 1) | part1by1(x)
}

/// The point of a code: the even bits and the odd bits, each moved
/// together.
pub fn deinterleave(code: u32) -> (point: (u16, u16))
    ensures
        point == deinterleave_spec(code),
{
    let x = compact1by1(code);
    let y = compact1by1(code >> 1);
    (x, y)
}

/// In the code of a point, the bit at place 2i is the bit at place i of
/// the first coordinate, and the bit at place 2i + 1 that of the second.
pub proof fn lemma_interleave_bits(x: u16, y: u16, i: u32)
    requires
        i < 16,
    ensures
        bit_at(interleave_spec(x, y), (2 * i) as u32) == bit_at(x as u32, i),
        bit_at(interleave_spec(x, y), (2 * i + 1) as u32) == bit_at(y as u32, i),
{
    let a = x as u32;
    let b = y as u32;
    assert(a <= 0xFFFF && b <= 0xFFFF);
    lemma_spread_bits(a, b, i);
}

proof fn lemma_spread_bits(a: u32, b: u32, i: u32)
    by (bit_vector)
    requires
        i < 16,
        a <= 0xFFFF,
        b <= 0xFFFF,
    ensures
        ((((spread(b) << 1) | spread(a)) >> ((2 * i) as u32)) & 1 == 1) == ((a >> i) & 1 == 1),
        ((((spread(b) << 1) | spread(a)) >> ((2 * i + 1) as u32)) & 1 == 1) == ((b >> i) & 1 == 1),
{
}

proof fn lemma_gather_spread(a: u32, b: u32)
    by (bit_vector)
    requires
        a <= 0xFFFF,
        b <= 0xFFFF,
    ensures
        gather((spread(b) << 1) | spread(a)) == a,
        gather(((spread(b) << 1) | spread(a)) >> 1) == b,
{
}

proof fn lemma_spread_gather(code: u32)
    by (bit_vector)
    ensures
        gather(code) <= 0xFFFF,
        gather(code >> 1) <= 0xFFFF,
        (spread(gather(code >> 1)) << 1) | spread(gather(code)) == code,
{
}

/// A point is found again from its code.
pub proof fn lemma_deinterleave_interleave(x: u16, y: u16)
    ensures
        deinterleave_spec(interleave_spec(x, y)) == (x, y),
{
    lemma_gather_spread(x as u32, y as u32);
}

/// A code is found again from its point: every code is the code of one
/// point.
pub proof fn lemma_interleave_deinterleave(code: u32)
    ensures
        interleave_spec(deinterleave_spec(code).0, deinterleave_spec(code).1) == code,
{
    lemma_spread_gather(code);
}

} // verus!
