//! Exact tests on doubles by their IEEE-754 bit patterns: sign and zero
//! tests, the absolute value, and the closeness tests the expression
//! builders use to recognise simple exponents and unit coefficients.
//!
//! A closeness test `|x - c| < eps` with `x` a double near `c` is exact in
//! double arithmetic (the difference of two doubles within a factor of two
//! of each other is representable), so it holds precisely for one interval
//! of bit patterns; far from `c` the difference is far above `eps`. Each
//! `near_*` test below is that interval.

use vstd::prelude::*;

use crate::expression::Real;
use crate::text::push_str;

verus! {

/// The sign bit.
pub open spec fn sign_bit() -> u64 {
    0x8000_0000_0000_0000
}

/// The pattern is a NaN: all exponent bits set, mantissa not zero.
pub open spec fn nan_bits(b: u64) -> bool {
    (b >> 52u64) & 0x7ffu64 == 0x7ffu64 && b & 0xf_ffff_ffff_ffffu64 != 0
}

/// The pattern is `+0.0` or `-0.0` (`x == 0.0`).
pub open spec fn zero_bits(b: u64) -> bool {
    b == 0 || b == sign_bit()
}

/// `x < 0.0`.
pub open spec fn below_zero(b: u64) -> bool {
    b > sign_bit() && !nan_bits(b)
}

/// `x > 0.0`.
pub open spec fn above_zero(b: u64) -> bool {
    0 < b < sign_bit() && !nan_bits(b)
}

/// The pattern of `|x|`.
pub open spec fn abs_bits(b: u64) -> u64 {
    b & 0x7fff_ffff_ffff_ffffu64
}

/// The text of `|x|` given the text of `x`: without its leading minus.
pub open spec fn abs_text(t: Seq<char>) -> Seq<char> {
    if t.len() > 0 && t[0] == '-' {
        t.drop_first()
    } else {
        t
    }
}

/// `|x - 1| < 1e-12`.
pub open spec fn near_one(b: u64) -> bool {
    0x3fef_ffff_ffff_dcd1u64 <= b <= 0x3ff0_0000_0000_1197u64
}

/// `|x - 2| < 1e-12`.
pub open spec fn near_two(b: u64) -> bool {
    0x3fff_ffff_ffff_ee69u64 <= b <= 0x4000_0000_0000_08cbu64
}

/// `|x - 3| < 1e-12`.
pub open spec fn near_three(b: u64) -> bool {
    0x4007_ffff_ffff_f735u64 <= b <= 0x4008_0000_0000_08cbu64
}

/// `|x - 4| < 1e-12`.
pub open spec fn near_four(b: u64) -> bool {
    0x400f_ffff_ffff_f735u64 <= b <= 0x4010_0000_0000_0465u64
}

/// `|x - 0.5| < 1e-12`.
pub open spec fn near_half(b: u64) -> bool {
    0x3fdf_ffff_ffff_b9a2u64 <= b <= 0x3fe0_0000_0000_232fu64
}

/// `|x - 1.5| < 1e-12`.
pub open spec fn near_three_halves(b: u64) -> bool {
    0x3ff7_ffff_ffff_ee69u64 <= b <= 0x3ff8_0000_0000_1197u64
}

/// `|x + 1| < 1e-12`.
pub open spec fn near_minus_one(b: u64) -> bool {
    0xbfef_ffff_ffff_dcd1u64 <= b <= 0xbff0_0000_0000_1197u64
}

/// `|x - 1| < 1e-15`.
pub open spec fn unit_coeff(b: u64) -> bool {
    0x3fef_ffff_ffff_fff7u64 <= b <= 0x3ff0_0000_0000_0004u64
}

/// `|x + 1| < 1e-15`.
pub open spec fn minus_unit_coeff(b: u64) -> bool {
    0xbfef_ffff_ffff_fff7u64 <= b <= 0xbff0_0000_0000_0004u64
}

/// `x == 0.0`.
pub fn is_zero(x: &Real) -> (r: bool)
    ensures
        r == zero_bits(x.bits),
{
    x.bits == 0 || x.bits == 0x8000_0000_0000_0000
}

/// `x.is_nan()`.
pub fn is_nan(x: &Real) -> (r: bool)
    ensures
        r == nan_bits(x.bits),
{
    (x.bits >> 52u64) & 0x7ffu64 == 0x7ffu64 && x.bits & 0xf_ffff_ffff_ffffu64 != 0
}

/// `x < 0.0`.
pub fn is_negative(x: &Real) -> (r: bool)
    ensures
        r == below_zero(x.bits),
{
    x.bits > 0x8000_0000_0000_0000 && !is_nan(x)
}

/// `x > 0.0`.
pub fn is_positive(x: &Real) -> (r: bool)
    ensures
        r == above_zero(x.bits),
{
    0 < x.bits && x.bits < 0x8000_0000_0000_0000 && !is_nan(x)
}

/// `|x|`, with its text.
pub fn abs(x: &Real) -> (r: Real)
    ensures
        r.bits == abs_bits(x.bits),
        r.text@ == abs_text(x.text@),
{
    let bits = x.bits & 0x7fff_ffff_ffff_ffffu64;
    let s = x.text.as_str();
    let n = s.unicode_len();
    if n > 0 && s.get_char(0) == '-' {
        let tail = s.substring_char(1, n);
        let mut text = String::new();
        push_str(&mut text, tail);
        assert(text@ =~= abs_text(x.text@));
        Real { bits, text }
    } else {
        Real { bits, text: x.text.clone() }
    }
}

/// `|x - 1| < 1e-12`.
pub fn is_near_one(x: &Real) -> (r: bool)
    ensures
        r == near_one(x.bits),
{
    0x3fef_ffff_ffff_dcd1u64 <= x.bits && x.bits <= 0x3ff0_0000_0000_1197u64
}

/// `|x - 2| < 1e-12`.
pub fn is_near_two(x: &Real) -> (r: bool)
    ensures
        r == near_two(x.bits),
{
    0x3fff_ffff_ffff_ee69u64 <= x.bits && x.bits <= 0x4000_0000_0000_08cbu64
}

/// `|x - 3| < 1e-12`.
pub fn is_near_three(x: &Real) -> (r: bool)
    ensures
        r == near_three(x.bits),
{
    0x4007_ffff_ffff_f735u64 <= x.bits && x.bits <= 0x4008_0000_0000_08cbu64
}

/// `|x - 4| < 1e-12`.
pub fn is_near_four(x: &Real) -> (r: bool)
    ensures
        r == near_four(x.bits),
{
    0x400f_ffff_ffff_f735u64 <= x.bits && x.bits <= 0x4010_0000_0000_0465u64
}

/// `|x - 0.5| < 1e-12`.
pub fn is_near_half(x: &Real) -> (r: bool)
    ensures
        r == near_half(x.bits),
{
    0x3fdf_ffff_ffff_b9a2u64 <= x.bits && x.bits <= 0x3fe0_0000_0000_232fu64
}

/// `|x - 1.5| < 1e-12`.
pub fn is_near_three_halves(x: &Real) -> (r: bool)
    ensures
        r == near_three_halves(x.bits),
{
    0x3ff7_ffff_ffff_ee69u64 <= x.bits && x.bits <= 0x3ff8_0000_0000_1197u64
}

/// `|x + 1| < 1e-12`.
pub fn is_near_minus_one(x: &Real) -> (r: bool)
    ensures
        r == near_minus_one(x.bits),
{
    0xbfef_ffff_ffff_dcd1u64 <= x.bits && x.bits <= 0xbff0_0000_0000_1197u64
}

/// `|x - 1| < 1e-15`.
pub fn is_unit_coeff(x: &Real) -> (r: bool)
    ensures
        r == unit_coeff(x.bits),
{
    0x3fef_ffff_ffff_fff7u64 <= x.bits && x.bits <= 0x3ff0_0000_0000_0004u64
}

/// `|x + 1| < 1e-15`.
pub fn is_minus_unit_coeff(x: &Real) -> (r: bool)
    ensures
        r == minus_unit_coeff(x.bits),
{
    0xbfef_ffff_ffff_fff7u64 <= x.bits && x.bits <= 0xbff0_0000_0000_0004u64
}

} // verus!
