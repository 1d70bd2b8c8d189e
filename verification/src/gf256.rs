//! Arithmetic in GF(256), the field of polynomials over GF(2) modulo
//! x^8 + x^4 + x^3 + x^2 + 1 (0x11D), in which QR Code error correction works.
//! A byte holds a field element: bit k is the coefficient of x^k.
use vstd::prelude::*;

verus! {

/// Multiplication by x: shift up one place and reduce by the field polynomial.
pub open spec fn xtime(a: u8) -> u8 {
    if a & 0x80u8 != 0 {
        ((a << 1u8) ^ 0x1du8) as u8
    } else {
        (a << 1u8) as u8
    }
}

/// `a * x^k`.
pub open spec fn xtime_pow(a: u8, k: nat) -> u8
    decreases k,
{
    if k == 0 {
        a
    } else {
        xtime(xtime_pow(a, (k - 1) as nat))
    }
}

/// The generator `alpha = x` raised to the power `k`.
pub open spec fn alpha_pow(k: nat) -> u8 {
    xtime_pow(1u8, k)
}

/// `a` times the polynomial made of the `k` low bits of `b`:
/// the sum, over the set bits `j < k` of `b`, of `a * x^j`.
pub open spec fn mul_low_bits(a: u8, b: u8, k: nat) -> u8
    decreases k,
{
    if k == 0 {
        0u8
    } else {
        let j = (k - 1) as nat;
        let rest = mul_low_bits(a, b, j);
        if (b >> (j as u8)) & 1u8 == 1u8 {
            rest ^ xtime_pow(a, j)
        } else {
            rest
        }
    }
}

/// The field product of `a` and `b`.
pub open spec fn gf_mul(a: u8, b: u8) -> u8 {
    mul_low_bits(a, b, 8)
}

/// Zero is neutral for field addition (exclusive-or).
pub proof fn lemma_xor_zero(a: u8)
    ensures
        a ^ 0u8 == a,
        0u8 ^ a == a,
        a ^ a == 0u8,
{
    assert(a ^ 0u8 == a && 0u8 ^ a == a && a ^ a == 0u8) by (bit_vector);
}

/// The field product of `a` and `b`.
pub fn multiply(a: u8, b: u8) -> (r: u8)
    ensures
        r == gf_mul(a, b),
{
    let mut acc: u8 = 0;
    let mut shifted: u8 = a;
    let mut k: u8 = 0;
    while k < 8
        invariant
            k <= 8,
            acc == mul_low_bits(a, b, k as nat),
            shifted == xtime_pow(a, k as nat),
        decreases 8 - k,
    {
        if (b >> k) & 1u8 == 1u8 {
            acc = acc ^ shifted;
        }
        shifted = if shifted & 0x80u8 != 0 {
            (shifted << 1u8) ^ 0x1du8
        } else {
            shifted << 1u8
        };
        k = k + 1;
    }
    acc
}

} // verus!
