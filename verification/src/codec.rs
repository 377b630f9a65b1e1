//! Boundary codec: a two-way mapping between an (address, length) pair and a
//! single scalar.
//!
//! Many embedding environments let an exported function return only one
//! numeric value, yet locating a result buffer takes two: its address and its
//! length.  The codec packs the two into one scalar with the Cantor pairing
//! function, a bijection between pairs of non-negative integers and single
//! non-negative integers, so no second return slot or shared status region is
//! needed.
//!
//! The wire contract is [`pairing`]: the host must decode the returned scalar
//! with the inverse of exactly this formula.  [`cantor_pairing`] encodes,
//! [`cantor_unpairing`] decodes, and [`lemma_pairing_injective`] is the
//! round-trip law that keeps the two sides in agreement.
//!
//! Overflow policy: every pair of non-negative 32-bit values encodes losslessly
//! into a signed 64-bit scalar ([`lemma_pairing_fits`]); the implementation
//! computes the triangular part without intermediate overflow instead of
//! wrapping silently.

use vstd::prelude::*;

verus! {

/// The Cantor pairing value of the pair `(a, l)`:
/// `(a + l) * (a + l + 1) / 2 + l`.
///
/// This formula is the wire contract between host and guest: the host decodes
/// the scalar returned by the guest with the inverse of exactly this function.
pub open spec fn pairing(a: int, l: int) -> int {
    (a + l) * (a + l + 1) / 2 + l
}

/// The `n`-th triangular number, defined recursively.  Division-free shape of
/// the quadratic part of [`pairing`], convenient for induction.
pub open spec fn tri(n: int) -> int
    decreases n when n >= 0
{
    if n <= 0 {
        0
    } else {
        tri(n - 1) + n
    }
}

/// `tri` agrees with the closed form `n * (n + 1) / 2`.
proof fn lemma_tri_closed(n: int)
    requires
        n >= 0,
    ensures
        2 * tri(n) == n * (n + 1),
        tri(n) == n * (n + 1) / 2,
    decreases n,
{
    if n > 0 {
        lemma_tri_closed(n - 1);
        let t = tri(n - 1);
        assert(2 * (t + n) == n * (n + 1)) by (nonlinear_arith)
            requires
                2 * t == (n - 1) * n,
        ;
    }
}

/// `tri` is non-negative.
proof fn lemma_tri_nonneg(n: int)
    requires
        n >= 0,
    ensures
        tri(n) >= 0,
    decreases n,
{
    if n > 0 {
        lemma_tri_nonneg(n - 1);
    }
}

/// `tri` is monotonic.
proof fn lemma_tri_mono(m: int, n: int)
    requires
        0 <= m <= n,
    ensures
        0 <= tri(m) <= tri(n),
    decreases n - m,
{
    lemma_tri_nonneg(m);
    if m < n {
        lemma_tri_mono(m, n - 1);
        assert(tri(n) == tri(n - 1) + n);
    }
}

/// `pairing` in terms of `tri`: the scalar is the triangular number of the
/// pair's sum, offset by the second component.
proof fn lemma_pairing_tri(a: int, l: int)
    requires
        a >= 0,
        l >= 0,
    ensures
        pairing(a, l) == tri(a + l) + l,
{
    lemma_tri_closed(a + l);
}

/// Law: the pairing is injective on non-negative pairs.  Together with the
/// contracts of [`cantor_pairing`] and [`cantor_unpairing`] this says that
/// decoding an encoded pair gives back exactly the pair that was encoded:
/// `decode(encode(a, l)) == (a, l)` for all non-negative `a`, `l`.
pub proof fn lemma_pairing_injective(a1: int, l1: int, a2: int, l2: int)
    requires
        a1 >= 0,
        l1 >= 0,
        a2 >= 0,
        l2 >= 0,
        pairing(a1, l1) == pairing(a2, l2),
    ensures
        a1 == a2,
        l1 == l2,
{
    lemma_pairing_tri(a1, l1);
    lemma_pairing_tri(a2, l2);
    let s1 = a1 + l1;
    let s2 = a2 + l2;
    if s1 < s2 {
        lemma_tri_mono(s1 + 1, s2);
        assert(tri(s1 + 1) == tri(s1) + s1 + 1);
        assert(false);
    }
    if s2 < s1 {
        lemma_tri_mono(s2 + 1, s1);
        assert(tri(s2 + 1) == tri(s2) + s2 + 1);
        assert(false);
    }
}

/// Law: every pair of non-negative 32-bit values encodes losslessly into a
/// non-negative signed 64-bit scalar, so the codec is total on the inputs the
/// entry point can receive; the width boundary lies at
/// `pairing(i32::MAX, i32::MAX)`.
pub proof fn lemma_pairing_fits(a: int, l: int)
    requires
        0 <= a <= 0x7FFF_FFFF,
        0 <= l <= 0x7FFF_FFFF,
    ensures
        0 <= pairing(a, l) <= 0x7FFF_FFFF_FFFF_FFFF,
{
    lemma_pairing_tri(a, l);
    lemma_tri_mono(0, a + l);
    lemma_tri_mono(a + l, 0xFFFF_FFFE);
    lemma_tri_closed(0xFFFF_FFFE);
}

/// The triangular number of `n`, computed without intermediate overflow by
/// dividing the even factor of `n * (n + 1)` before multiplying.
fn tri_exec(n: i64) -> (r: i64)
    requires
        0 <= n <= 0xFFFF_FFFF,
    ensures
        r == tri(n as int),
{
    proof {
        lemma_tri_closed(n as int);
    }
    if n % 2 == 0 {
        let h: i64 = n / 2;
        proof {
            assert(0 <= h * (n + 1) <= 0x7FFF_FFFF_FFFF_FFFF && 2 * (h * (n + 1)) == n * (n + 1))
                by (nonlinear_arith)
                requires
                    n == 2 * h,
                    0 <= h <= 0x7FFF_FFFF,
                    0 <= n + 1 <= 0x1_0000_0000,
            ;
        }
        h * (n + 1)
    } else {
        let h: i64 = (n + 1) / 2;
        proof {
            assert(0 <= n * h <= 0x7FFF_FFFF_FFFF_FFFF && 2 * (n * h) == n * (n + 1))
                by (nonlinear_arith)
                requires
                    n + 1 == 2 * h,
                    0 <= h <= 0x8000_0000,
                    0 <= n <= 0xFFFF_FFFF,
            ;
        }
        n * h
    }
}

/// Encode: combine a non-negative (address, length) pair into one scalar.
///
/// Total for every non-negative pair of 32-bit inputs: the encoded value
/// always fits the 64-bit scalar (see [`lemma_pairing_fits`]), so nothing is
/// truncated.
pub fn cantor_pairing(k1: i32, k2: i32) -> (r: i64)
    requires
        k1 >= 0,
        k2 >= 0,
    ensures
        r == pairing(k1 as int, k2 as int),
        r >= 0,
{
    let s: i64 = (k1 as i64) + (k2 as i64);
    let t: i64 = tri_exec(s);
    proof {
        lemma_pairing_tri(k1 as int, k2 as int);
        lemma_tri_mono(0, s as int);
        lemma_tri_mono(s as int, 0xFFFF_FFFE);
        lemma_tri_closed(0xFFFF_FFFE);
    }
    t + (k2 as i64)
}

/// Decode: recover the (address, length) pair from an encoded scalar.
///
/// The host-side inverse of [`cantor_pairing`], stated here so the wire
/// contract is documented and stable rather than merely internally consistent.
/// Total on every non-negative scalar; by [`lemma_pairing_injective`] the
/// returned pair is the only one that encodes to `z`.
pub fn cantor_unpairing(z: i64) -> (r: (i64, i64))
    requires
        z >= 0,
    ensures
        r.0 >= 0,
        r.1 >= 0,
        pairing(r.0 as int, r.1 as int) == z,
{
    let mut lo: i64 = 0;
    let mut hi: i64 = 0xFFFF_FFFF;
    proof {
        lemma_tri_closed(0x1_0000_0000);
    }
    while lo < hi
        invariant
            0 <= lo <= hi <= 0xFFFF_FFFF,
            tri(lo as int) <= z,
            z < tri(hi as int + 1),
        decreases hi - lo,
    {
        let mid: i64 = lo + (hi - lo + 1) / 2;
        let t: i64 = tri_exec(mid);
        if t <= z {
            lo = mid;
        } else {
            assert(tri(mid as int) == tri(mid as int - 1) + mid as int);
            hi = mid - 1;
        }
    }
    let w: i64 = lo;
    let t: i64 = tri_exec(w);
    proof {
        assert(tri(w as int + 1) == tri(w as int) + w as int + 1);
    }
    let l: i64 = z - t;
    let a: i64 = w - l;
    proof {
        lemma_pairing_tri(a as int, l as int);
    }
    (a, l)
}

} // verus!
