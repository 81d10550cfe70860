use vstd::prelude::*;

verus! {

/// The bit pattern of the 32-bit float whose value equals that of the 64-bit
/// float with bit pattern `d`, if there is one and `d` is finite.
///
/// A normal 64-bit value fits when its exponent lies in the normal or the
/// subnormal range of 32-bit floats and the mantissa bits that a 32-bit float
/// cannot hold are zero; zeros keep their sign; infinities and NaNs never fit.
pub open spec fn f32_exact(d: u64) -> Option<u32> {
    let sign = d >> 63u64;
    let e = (d >> 52u64) & 0x7ffu64;
    let m = d & 0xf_ffff_ffff_ffffu64;
    if e == 0 && m == 0 {
        Some(#[verifier::truncate] ((sign << 31u64) as u32))
    } else if e == 0 || e == 0x7ff {
        None
    } else if 897 <= e <= 1150 {
        // normal 32-bit range: unbiased exponent -126 ..= 127
        if m & 0x1fff_ffffu64 == 0 {
            Some(#[verifier::truncate] (((sign << 31u64) | (((e - 896) as u64) << 23u64) | (m >> 29u64)) as u32))
        } else {
            None
        }
    } else if 874 <= e < 897 {
        // subnormal 32-bit range: unbiased exponent -149 ..= -127
        let k = (926 - e) as u64;
        let full = m | 0x10_0000_0000_0000u64;
        if full & (((1u64 << k) - 1) as u64) == 0 {
            Some(#[verifier::truncate] (((sign << 31u64) | (full >> k)) as u32))
        } else {
            None
        }
    } else {
        None
    }
}

/// Narrows a 64-bit float, given by its bits, to the 32-bit float of the same
/// value, where one exists.
pub fn narrow_f64(d: u64) -> (r: Option<u32>)
    ensures
        r == f32_exact(d),
        r is Some ==> widen_f32(r->Some_0) == d,
{
    proof {
        if f32_exact(d) is Some {
            lemma_widen_of_narrow(d);
        }
    }
    let sign = d >> 63u64;
    let e = (d >> 52u64) & 0x7ffu64;
    let m = d & 0xf_ffff_ffff_ffffu64;
    assert(e <= 0x7ff) by (bit_vector)
        requires
            e == (d >> 52u64) & 0x7ffu64,
    ;
    assert(sign <= 1) by (bit_vector)
        requires
            sign == d >> 63u64,
    ;
    if e == 0 && m == 0 {
        Some(#[verifier::truncate] ((sign << 31u64) as u32))
    } else if e == 0 || e == 0x7ff {
        None
    } else if 897 <= e && e <= 1150 {
        if m & 0x1fff_ffffu64 == 0 {
            Some(#[verifier::truncate] (((sign << 31u64) | ((e - 896) << 23u64) | (m >> 29u64)) as u32))
        } else {
            None
        }
    } else if 874 <= e && e < 897 {
        let k = 926 - e;
        let full = m | 0x10_0000_0000_0000u64;
        assert(1u64 << k >= 1) by (bit_vector)
            requires
                k <= 52,
        ;
        if full & ((1u64 << k) - 1) == 0 {
            Some(#[verifier::truncate] (((sign << 31u64) | (full >> k)) as u32))
        } else {
            None
        }
    } else {
        None
    }
}

} // verus!
verus! {

/// The index of the highest set bit of `x`; zero for zero and one.
pub open spec fn high_bit(x: u64) -> nat
    decreases x,
{
    if x <= 1 {
        0
    } else {
        1 + high_bit(x / 2)
    }
}

/// The bit pattern of the 64-bit float equal to the 32-bit float with bit
/// pattern `f`.
pub open spec fn widen_f32(f: u32) -> u64 {
    let sign = (f >> 31u32) as u64;
    let e = ((f >> 23u32) & 0xffu32) as u64;
    let m = (f & 0x7f_ffffu32) as u64;
    if e == 0 && m == 0 {
        sign << 63u64
    } else if e == 0xff {
        (sign << 63u64) | (0x7ffu64 << 52u64) | (m << 29u64)
    } else if e == 0 {
        // subnormal: normalise on the highest set bit
        let p = high_bit(m) as u64;
        (sign << 63u64) | (((p + 874) as u64) << 52u64) | ((m << ((52 - p) as u64)) & 0xf_ffff_ffff_ffffu64)
    } else {
        (sign << 63u64) | (((e + 896) as u64) << 52u64) | (m << 29u64)
    }
}

/// The index of the highest set bit of `x`.
fn highest_bit(x: u64) -> (r: u64)
    ensures
        r == high_bit(x),
        r < 64,
{
    let mut y = x;
    let mut p: u64 = 0;
    proof {
        vstd::arithmetic::power2::lemma2_to64();
        lemma_high_bit_below(x, 64);
    }
    while y > 1
        invariant
            high_bit(x) == p + high_bit(y),
            p + high_bit(y) < 64,
        decreases y,
    {
        y = y / 2;
        p = p + 1;
    }
    p
}

/// Widens a 32-bit float, given by its bits, to the 64-bit float of the same value.
pub fn widen_f32_bits(f: u32) -> (r: u64)
    ensures
        r == widen_f32(f),
{
    let sign = (f >> 31u32) as u64;
    let e = ((f >> 23u32) & 0xffu32) as u64;
    let m = (f & 0x7f_ffffu32) as u64;
    if e == 0 && m == 0 {
        sign << 63u64
    } else if e == 0xff {
        (sign << 63u64) | (0x7ffu64 << 52u64) | (m << 29u64)
    } else if e == 0 {
        let p = highest_bit(m);
        assert(m < 0x80_0000) by (bit_vector)
            requires
                m == (f & 0x7f_ffffu32) as u64,
        ;
        assert(p <= 22) by {
            vstd::arithmetic::power2::lemma2_to64();
            lemma_high_bit_below(m, 23);
        }
        (sign << 63u64) | ((p + 874) << 52u64) | ((m << (52 - p)) & 0xf_ffff_ffff_ffffu64)
    } else {
        (sign << 63u64) | ((e + 896) << 52u64) | (m << 29u64)
    }
}

/// A value below `2^n` has its highest bit below `n`.
pub proof fn lemma_high_bit_below(x: u64, n: nat)
    requires
        1 <= n,
        x < vstd::arithmetic::power2::pow2(n),
    ensures
        high_bit(x) < n,
    decreases x,
{
    vstd::arithmetic::power2::lemma_pow2_unfold(n);
    if x > 1 {
        if n == 1 {
            vstd::arithmetic::power2::lemma2_to64();
        } else {
            lemma_high_bit_below(x / 2, (n - 1) as nat);
        }
    }
}

} // verus!
verus! {

/// A value whose bits above `p` are clear and bit `p` set has `p` as its highest bit.
pub proof fn lemma_high_bit_exact(x: u64, p: u64)
    requires
        p < 64,
        x >> p == 1,
    ensures
        high_bit(x) == p,
    decreases p,
{
    if p == 0 {
        assert(x == 1) by (bit_vector)
            requires
                x >> 0u64 == 1,
        ;
    } else {
        assert(x > 1 && (x / 2) >> ((p - 1) as u64) == 1) by (bit_vector)
            requires
                x >> p == 1,
                0 < p < 64,
        ;
        lemma_high_bit_exact(x / 2, (p - 1) as u64);
    }
}

/// Narrowing a 64-bit float and widening the result gives back its bits.
pub proof fn lemma_widen_of_narrow(d: u64)
    requires
        f32_exact(d) is Some,
    ensures
        widen_f32(f32_exact(d)->Some_0) == d,
{
    let sign = d >> 63u64;
    let e = (d >> 52u64) & 0x7ffu64;
    let m = d & 0xf_ffff_ffff_ffffu64;
    let f = f32_exact(d)->Some_0;
    if e == 0 && m == 0 {
        assert(f == #[verifier::truncate] ((sign << 31u64) as u32));
        assert(widen_f32(f) == d) by {
            assert((f >> 31u32) as u64 == sign && ((f >> 23u32) & 0xffu32) as u64 == 0 && (f & 0x7f_ffffu32) as u64 == 0
                && ((f >> 31u32) as u64) << 63u64 == d) by (bit_vector)
                requires
                    f == #[verifier::truncate] ((sign << 31u64) as u32),
                    sign == d >> 63u64,
                    (d >> 52u64) & 0x7ffu64 == 0,
                    d & 0xf_ffff_ffff_ffffu64 == 0,
            ;
        }
    } else if 897 <= e <= 1150 {
        let x = ((sign << 31u64) | (((e - 896) as u64) << 23u64) | (m >> 29u64));
        assert(f == #[verifier::truncate] (x as u32));
        let e32 = (e - 896) as u64;
        assert((f >> 31u32) as u64 == sign && ((f >> 23u32) & 0xffu32) as u64 == e32
            && (f & 0x7f_ffffu32) as u64 == m >> 29u64) by (bit_vector)
            requires
                f == #[verifier::truncate] (x as u32),
                x == ((sign << 31u64) | (e32 << 23u64) | (m >> 29u64)),
                sign == d >> 63u64,
                m == d & 0xf_ffff_ffff_ffffu64,
                1 <= e32 <= 254,
        ;
        assert((sign << 63u64) | (((e32 + 896) as u64) << 52u64) | ((m >> 29u64) << 29u64) == d) by (bit_vector)
            requires
                sign == d >> 63u64,
                e == (d >> 52u64) & 0x7ffu64,
                m == d & 0xf_ffff_ffff_ffffu64,
                m & 0x1fff_ffffu64 == 0,
                e32 == e - 896,
                897 <= e <= 1150,
        ;
    } else {
        let k = (926 - e) as u64;
        let full = m | 0x10_0000_0000_0000u64;
        let x = (sign << 31u64) | (full >> k);
        assert(f == #[verifier::truncate] (x as u32));
        let m32 = full >> k;
        assert((f >> 31u32) as u64 == sign && ((f >> 23u32) & 0xffu32) as u64 == 0 && (f & 0x7f_ffffu32) as u64 == m32
            && m32 != 0 && m32 >> ((52 - k) as u64) == 1) by (bit_vector)
            requires
                f == #[verifier::truncate] (x as u32),
                x == (sign << 31u64) | m32,
                m32 == full >> k,
                full == m | 0x10_0000_0000_0000u64,
                sign == d >> 63u64,
                m == d & 0xf_ffff_ffff_ffffu64,
                30 <= k <= 52,
        ;
        lemma_high_bit_exact(m32, (52 - k) as u64);
        assert((sign << 63u64) | (((((52 - k) as u64) + 874) as u64) << 52u64) | ((m32 << k) & 0xf_ffff_ffff_ffffu64) == d)
            by (bit_vector)
            requires
                sign == d >> 63u64,
                e == (d >> 52u64) & 0x7ffu64,
                m == d & 0xf_ffff_ffff_ffffu64,
                full == m | 0x10_0000_0000_0000u64,
                m32 == full >> k,
                full & (((1u64 << k) - 1) as u64) == 0,
                k == 926 - e,
                874 <= e < 897,
        ;
        assert(((52 - k) as u64) as nat == high_bit(m32));
        assert(52 - (52 - k) == k);
    }
}

} // verus!
