//! Shared arithmetic of the scheme: the canonical modulus operation and the
//! dot products (exact and wrapping) that key derivation, encryption and
//! decryption are specified over.

use vstd::prelude::*;

pub mod public;
pub mod secret;

verus! {

/// The largest Unicode scalar value; the scaling factor of a key is its
/// modulus divided by this.
pub const MAX_CHR: i32 = 1114111;

/// Canonical non-negative remainder, as the contracts state it: Euclidean
/// `num % modulo`, in `[0, modulo)` for positive `modulo`.
pub open spec fn spec_modulus(num: int, modulo: int) -> int {
    num % modulo
}

/// Canonical non-negative modulo for signed integers: the remainder shifted
/// into `[0, modulo)` even for negative `num`.
pub fn modulus(num: i32, modulo: i32) -> (r: i32)
    requires
        0 < modulo < 0x4000_0000,
    ensures
        r == spec_modulus(num as int, modulo as int),
        0 <= r < modulo,
{
    if num >= 0 {
        num % modulo
    } else {
        // Euclidean remainder of a negative value, computed over the
        // non-negative distance `-num - 1` so that every machine `%` below
        // sees non-negative operands.
        let n: i64 = num as i64;
        let md: i64 = modulo as i64;
        let k: i64 = -n - 1;
        let r0: i64 = k % md;
        proof {
            let q0: int = k as int / md as int;
            vstd::arithmetic::div_mod::lemma_fundamental_div_mod(k as int, md as int);
            assert(k as int == md as int * q0 + r0);
            assert((-q0 - 1) * (md as int) == -(md as int * q0) - md) by (nonlinear_arith);
            assert(n as int == (-q0 - 1) * (md as int) + (md - 1 - r0));
            vstd::arithmetic::div_mod::lemma_fundamental_div_mod_converse(
                n as int,
                md as int,
                -q0 - 1,
                md - 1 - r0,
            );
        }
        (md - 1 - r0) as i32
    }
}

/// Exact dot product of the first `n` entries of `a` and `b`, over the
/// unbounded integers.
pub open spec fn dot_prefix(a: Seq<i32>, b: Seq<i32>, n: int) -> int
    decreases n,
{
    if n <= 0 {
        0
    } else {
        dot_prefix(a, b, n - 1) + a[n - 1] * b[n - 1]
    }
}

/// Dot product of the first `n` entries of `a` and `b` with wrapping 32-bit
/// multiplication and accumulation, in the order a left-to-right loop
/// computes it.  This is the accumulation decryption is specified over,
/// since ciphertext words are arbitrary.
pub open spec fn wrap_dot_prefix(a: Seq<i32>, b: Seq<i32>, n: int) -> i32
    decreases n,
{
    if n <= 0 {
        0i32
    } else {
        vstd::wrapping::i32_specs::wrapping_add(
            wrap_dot_prefix(a, b, n - 1),
            vstd::wrapping::i32_specs::wrapping_mul(a[n - 1], b[n - 1]),
        )
    }
}

/// The dot product reads only the first `n` entries of either side.
pub proof fn lemma_dot_prefix_congruence(a: Seq<i32>, b1: Seq<i32>, b2: Seq<i32>, n: int)
    requires
        forall|j: int| 0 <= j < n ==> b1[j] == b2[j],
    ensures
        dot_prefix(a, b1, n) == dot_prefix(a, b2, n),
        wrap_dot_prefix(a, b1, n) == wrap_dot_prefix(a, b2, n),
    decreases n,
{
    if n > 0 {
        lemma_dot_prefix_congruence(a, b1, b2, n - 1);
    }
}

/// A dot product against entries that are all zero vanishes.
pub proof fn lemma_dot_prefix_zero(a: Seq<i32>, b: Seq<i32>, n: int)
    requires
        forall|j: int| 0 <= j < n ==> b[j] == 0,
    ensures
        dot_prefix(a, b, n) == 0,
    decreases n,
{
    if n > 0 {
        lemma_dot_prefix_zero(a, b, n - 1);
        assert(a[n - 1] * b[n - 1] == 0) by (nonlinear_arith)
            requires
                b[n - 1] == 0,
        ;
    }
}

/// The dot product is additive in its second argument.
pub proof fn lemma_dot_prefix_additive(a: Seq<i32>, b: Seq<i32>, b1: Seq<i32>, b2: Seq<i32>, n: int)
    requires
        forall|j: int| 0 <= j < n ==> #[trigger] b[j] == b1[j] + b2[j],
    ensures
        dot_prefix(a, b, n) == dot_prefix(a, b1, n) + dot_prefix(a, b2, n),
    decreases n,
{
    if n > 0 {
        lemma_dot_prefix_additive(a, b, b1, b2, n - 1);
        assert(a[n - 1] * b[n - 1] == a[n - 1] * b1[n - 1] + a[n - 1] * b2[n - 1])
            by (nonlinear_arith)
            requires
                b[n - 1] == b1[n - 1] + b2[n - 1],
        ;
    }
}

/// Position `k` inside row `r` of a flat 17-wide layout has residue `k`.
pub proof fn lemma_row_index_mod(r: int, k: int)
    requires
        0 <= r,
        0 <= k < 17,
    ensures
        (17 * r + k) % 17 == k,
{
    vstd::arithmetic::div_mod::lemma_mod_multiples_vanish(r, k, 17);
    vstd::arithmetic::div_mod::lemma_small_mod(k as nat, 17);
}

/// The scaling factor of a key with a modulus in the drawn range lies in
/// `[9, 99]`.
pub proof fn lemma_add_range(modulo: int)
    requires
        11120640 <= modulo < 111206400,
    ensures
        9 <= modulo / (MAX_CHR as int) <= 99,
{
    vstd::arithmetic::div_mod::lemma_fundamental_div_mod(modulo, MAX_CHR as int);
    vstd::arithmetic::div_mod::lemma_mod_bound(modulo, MAX_CHR as int);
    let q = modulo / (MAX_CHR as int);
    assert(modulo == 1114111 * q + modulo % 1114111);
}

proof fn lemma_signed_crop_id(x: int)
    requires
        -0x8000_0000 <= x < 0x8000_0000,
    ensures
        vstd::wrapping::i32_specs::signed_crop(x) == x,
{
    if x >= 0 {
        vstd::arithmetic::div_mod::lemma_small_mod(x as nat, 0x1_0000_0000);
    } else {
        vstd::arithmetic::div_mod::lemma_fundamental_div_mod_converse(
            x,
            0x1_0000_0000,
            -1,
            x + 0x1_0000_0000,
        );
    }
}

/// When every partial sum stays inside the 32-bit range, the wrapping dot
/// product agrees with the exact one, and the exact one is bounded by
/// `n * abound * bbound`.
pub proof fn lemma_wrap_dot_eq(a: Seq<i32>, b: Seq<i32>, n: int, abound: int, bbound: int)
    requires
        0 <= n <= a.len(),
        n <= b.len(),
        0 < abound,
        0 < bbound,
        n * (abound * bbound) < 0x8000_0000,
        forall|i: int| 0 <= i < n ==> -abound <= #[trigger] a[i] <= abound,
        forall|i: int| 0 <= i < n ==> -bbound <= #[trigger] b[i] <= bbound,
    ensures
        wrap_dot_prefix(a, b, n) == dot_prefix(a, b, n),
        -(n * (abound * bbound)) <= dot_prefix(a, b, n) <= n * (abound * bbound),
    decreases n,
{
    if n > 0 {
        assert((n - 1) * (abound * bbound) < 0x8000_0000 && 0 <= (n - 1) * (abound * bbound) + (
        abound * bbound) == n * (abound * bbound)) by (nonlinear_arith)
            requires
                n >= 1,
                0 < abound,
                0 < bbound,
                n * (abound * bbound) < 0x8000_0000,
        ;
        lemma_wrap_dot_eq(a, b, n - 1, abound, bbound);
        assert(-(abound * bbound) <= a[n - 1] * b[n - 1] <= abound * bbound) by (nonlinear_arith)
            requires
                -abound <= a[n - 1] <= abound,
                -bbound <= b[n - 1] <= bbound,
                0 < abound,
                0 < bbound,
        ;
        lemma_signed_crop_id(a[n - 1] * b[n - 1]);
        assert(vstd::wrapping::i32_specs::wrapping_mul(a[n - 1], b[n - 1]) == a[n - 1] * b[n - 1]);
    }
}

} // verus!
