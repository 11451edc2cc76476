//! Arithmetic in GF(2^8), the field of 256 elements built on the reducing
//! polynomial x^8 + x^4 + x^3 + x^2 + 1 (`0x11d`). Addition is `^`.
use vstd::prelude::*;
use crate::erasure::{flatten_rows, lemma_flatten_rows};
use crate::matrix::{identity, inverse_of, invert, invertible, is_matrix, mat_mul, push_row, rows_view};

verus! {

/// Multiplication by the generator `{02}`.
pub open spec fn xtime(a: u8) -> u8 {
    if a & 0x80u8 == 0 {
        (a << 1u8) as u8
    } else {
        ((a << 1u8) ^ 0x1du8) as u8
    }
}

/// `a` multiplied `i` times by `{02}`.
pub open spec fn xtimes(a: u8, i: nat) -> u8
    decreases i,
{
    if i == 0 {
        a
    } else {
        xtime(xtimes(a, (i - 1) as nat))
    }
}

/// The sum of those `x_i` whose bit `i` is set in `b`.
pub open spec fn select_sum(
    b: u8,
    x0: u8,
    x1: u8,
    x2: u8,
    x3: u8,
    x4: u8,
    x5: u8,
    x6: u8,
    x7: u8,
) -> u8 {
    (if b & 0x01u8 != 0 { x0 } else { 0u8 }) ^ (if b & 0x02u8 != 0 { x1 } else { 0u8 }) ^ (if b
        & 0x04u8 != 0 {
        x2
    } else {
        0u8
    }) ^ (if b & 0x08u8 != 0 { x3 } else { 0u8 }) ^ (if b & 0x10u8 != 0 { x4 } else { 0u8 }) ^ (if b
        & 0x20u8 != 0 {
        x5
    } else {
        0u8
    }) ^ (if b & 0x40u8 != 0 { x6 } else { 0u8 }) ^ (if b & 0x80u8 != 0 { x7 } else { 0u8 })
}

/// The product of `a` and `b` in the field: `a * b = sum over the bits i of b of a * {02}^i`.
pub open spec fn gmul(a: u8, b: u8) -> u8 {
    select_sum(
        b,
        a,
        xtimes(a, 1),
        xtimes(a, 2),
        xtimes(a, 3),
        xtimes(a, 4),
        xtimes(a, 5),
        xtimes(a, 6),
        xtimes(a, 7),
    )
}

/// `a` raised to the power 254; for `a != 0` this is the multiplicative inverse.
pub open spec fn ginv(a: u8) -> u8 {
    let a2 = gmul(a, a);
    let a4 = gmul(a2, a2);
    let a8 = gmul(a4, a4);
    let a16 = gmul(a8, a8);
    let a32 = gmul(a16, a16);
    let a64 = gmul(a32, a32);
    let a128 = gmul(a64, a64);
    gmul(gmul(gmul(gmul(gmul(gmul(a2, a4), a8), a16), a32), a64), a128)
}

/// `a1 .. a7` are `a` times `{02}^1 .. {02}^7`.
pub open spec fn is_chain(a: u8, a1: u8, a2: u8, a3: u8, a4: u8, a5: u8, a6: u8, a7: u8) -> bool {
    a1 == xtime(a) && a2 == xtime(a1) && a3 == xtime(a2) && a4 == xtime(a3) && a5 == xtime(a4)
        && a6 == xtime(a5) && a7 == xtime(a6)
}

proof fn lemma_chain(a: u8)
    ensures
        is_chain(
            a,
            xtimes(a, 1),
            xtimes(a, 2),
            xtimes(a, 3),
            xtimes(a, 4),
            xtimes(a, 5),
            xtimes(a, 6),
            xtimes(a, 7),
        ),
{
    reveal_with_fuel(xtimes, 8);
}

#[verifier::rlimit(100)]
proof fn lemma_commutes_bv(
    a: u8,
    a1: u8,
    a2: u8,
    a3: u8,
    a4: u8,
    a5: u8,
    a6: u8,
    a7: u8,
    b: u8,
    b1: u8,
    b2: u8,
    b3: u8,
    b4: u8,
    b5: u8,
    b6: u8,
    b7: u8,
)
    by (bit_vector)
    requires
        is_chain(a, a1, a2, a3, a4, a5, a6, a7),
        is_chain(b, b1, b2, b3, b4, b5, b6, b7),
    ensures
        select_sum(b, a, a1, a2, a3, a4, a5, a6, a7) == select_sum(a, b, b1, b2, b3, b4, b5, b6, b7),
{
}

proof fn lemma_select_split_bv(b: u8, c: u8, x0: u8, x1: u8, x2: u8, x3: u8, x4: u8, x5: u8, x6: u8, x7: u8)
    by (bit_vector)
    ensures
        select_sum(b ^ c, x0, x1, x2, x3, x4, x5, x6, x7) == select_sum(b, x0, x1, x2, x3, x4, x5, x6, x7)
            ^ select_sum(c, x0, x1, x2, x3, x4, x5, x6, x7),
{
}

proof fn lemma_xtime_select_bv(c: u8, x0: u8, x1: u8, x2: u8, x3: u8, x4: u8, x5: u8, x6: u8, x7: u8)
    by (bit_vector)
    ensures
        xtime(select_sum(c, x0, x1, x2, x3, x4, x5, x6, x7)) == select_sum(
            c,
            xtime(x0),
            xtime(x1),
            xtime(x2),
            xtime(x3),
            xtime(x4),
            xtime(x5),
            xtime(x6),
            xtime(x7),
        ),
{
}

proof fn lemma_select_small_bv(x0: u8, x1: u8, x2: u8, x3: u8, x4: u8, x5: u8, x6: u8, x7: u8)
    by (bit_vector)
    ensures
        select_sum(0, x0, x1, x2, x3, x4, x5, x6, x7) == 0,
        select_sum(1, x0, x1, x2, x3, x4, x5, x6, x7) == x0,
{
}

/// Multiplication is commutative.
pub proof fn lemma_mul_commutes(a: u8, b: u8)
    ensures
        gmul(a, b) == gmul(b, a),
{
    lemma_chain(a);
    lemma_chain(b);
    lemma_commutes_bv(
        a,
        xtimes(a, 1),
        xtimes(a, 2),
        xtimes(a, 3),
        xtimes(a, 4),
        xtimes(a, 5),
        xtimes(a, 6),
        xtimes(a, 7),
        b,
        xtimes(b, 1),
        xtimes(b, 2),
        xtimes(b, 3),
        xtimes(b, 4),
        xtimes(b, 5),
        xtimes(b, 6),
        xtimes(b, 7),
    );
}

/// `0` annihilates and `1` is neutral.
pub proof fn lemma_mul_zero_one(a: u8)
    ensures
        gmul(a, 0) == 0,
        gmul(0, a) == 0,
        gmul(a, 1) == a,
        gmul(1, a) == a,
{
    lemma_select_small_bv(
        a,
        xtimes(a, 1),
        xtimes(a, 2),
        xtimes(a, 3),
        xtimes(a, 4),
        xtimes(a, 5),
        xtimes(a, 6),
        xtimes(a, 7),
    );
    lemma_mul_commutes(a, 0);
    lemma_mul_commutes(a, 1);
}

/// Multiplication distributes over addition, on either side.
pub proof fn lemma_mul_distributes(a: u8, b: u8, c: u8)
    ensures
        gmul(a, b ^ c) == gmul(a, b) ^ gmul(a, c),
        gmul(b ^ c, a) == gmul(b, a) ^ gmul(c, a),
{
    lemma_select_split_bv(
        b,
        c,
        a,
        xtimes(a, 1),
        xtimes(a, 2),
        xtimes(a, 3),
        xtimes(a, 4),
        xtimes(a, 5),
        xtimes(a, 6),
        xtimes(a, 7),
    );
    lemma_mul_commutes(a, b ^ c);
    lemma_mul_commutes(a, b);
    lemma_mul_commutes(a, c);
}

proof fn lemma_xtimes_shift(x: u8, i: nat)
    ensures
        xtimes(xtime(x), i) == xtimes(x, i + 1),
    decreases i,
{
    reveal_with_fuel(xtimes, 2);
    if i > 0 {
        lemma_xtimes_shift(x, (i - 1) as nat);
    }
}

proof fn lemma_mul_xtime_left(x: u8, c: u8)
    ensures
        gmul(xtime(x), c) == xtime(gmul(x, c)),
{
    lemma_xtimes_shift(x, 0);
    lemma_xtimes_shift(x, 1);
    lemma_xtimes_shift(x, 2);
    lemma_xtimes_shift(x, 3);
    lemma_xtimes_shift(x, 4);
    lemma_xtimes_shift(x, 5);
    lemma_xtimes_shift(x, 6);
    lemma_xtimes_shift(x, 7);
    reveal_with_fuel(xtimes, 2);
    lemma_xtime_select_bv(
        c,
        x,
        xtimes(x, 1),
        xtimes(x, 2),
        xtimes(x, 3),
        xtimes(x, 4),
        xtimes(x, 5),
        xtimes(x, 6),
        xtimes(x, 7),
    );
}

proof fn lemma_xtimes_mul(a: u8, c: u8, i: nat)
    ensures
        xtimes(gmul(a, c), i) == gmul(xtimes(a, i), c),
    decreases i,
{
    if i > 0 {
        lemma_xtimes_mul(a, c, (i - 1) as nat);
        lemma_mul_xtime_left(xtimes(a, (i - 1) as nat), c);
    }
}

proof fn lemma_mul_select_left(b: u8, x0: u8, x1: u8, x2: u8, x3: u8, x4: u8, x5: u8, x6: u8, x7: u8, c: u8)
    ensures
        gmul(select_sum(b, x0, x1, x2, x3, x4, x5, x6, x7), c) == select_sum(
            b,
            gmul(x0, c),
            gmul(x1, c),
            gmul(x2, c),
            gmul(x3, c),
            gmul(x4, c),
            gmul(x5, c),
            gmul(x6, c),
            gmul(x7, c),
        ),
{
    lemma_mul_zero_one(c);
    let t0 = if b & 0x01u8 != 0 { x0 } else { 0u8 };
    let t1 = if b & 0x02u8 != 0 { x1 } else { 0u8 };
    let t2 = if b & 0x04u8 != 0 { x2 } else { 0u8 };
    let t3 = if b & 0x08u8 != 0 { x3 } else { 0u8 };
    let t4 = if b & 0x10u8 != 0 { x4 } else { 0u8 };
    let t5 = if b & 0x20u8 != 0 { x5 } else { 0u8 };
    let t6 = if b & 0x40u8 != 0 { x6 } else { 0u8 };
    let t7 = if b & 0x80u8 != 0 { x7 } else { 0u8 };
    lemma_mul_distributes(c, t0, t1);
    lemma_mul_distributes(c, t0 ^ t1, t2);
    lemma_mul_distributes(c, t0 ^ t1 ^ t2, t3);
    lemma_mul_distributes(c, t0 ^ t1 ^ t2 ^ t3, t4);
    lemma_mul_distributes(c, t0 ^ t1 ^ t2 ^ t3 ^ t4, t5);
    lemma_mul_distributes(c, t0 ^ t1 ^ t2 ^ t3 ^ t4 ^ t5, t6);
    lemma_mul_distributes(c, t0 ^ t1 ^ t2 ^ t3 ^ t4 ^ t5 ^ t6, t7);
}

/// Multiplication is associative.
pub proof fn lemma_mul_associates(a: u8, b: u8, c: u8)
    ensures
        gmul(gmul(a, b), c) == gmul(a, gmul(b, c)),
{
    // (a * b) * c == (a * c) * b, by expanding b into its bits.
    assert forall|x: u8, y: u8, z: u8| #[trigger] gmul(gmul(x, y), z) == gmul(gmul(x, z), y) by {
        lemma_mul_select_left(
            y,
            x,
            xtimes(x, 1),
            xtimes(x, 2),
            xtimes(x, 3),
            xtimes(x, 4),
            xtimes(x, 5),
            xtimes(x, 6),
            xtimes(x, 7),
            z,
        );
        lemma_xtimes_mul(x, z, 1);
        lemma_xtimes_mul(x, z, 2);
        lemma_xtimes_mul(x, z, 3);
        lemma_xtimes_mul(x, z, 4);
        lemma_xtimes_mul(x, z, 5);
        lemma_xtimes_mul(x, z, 6);
        lemma_xtimes_mul(x, z, 7);
    }
    lemma_mul_commutes(a, gmul(b, c));
    lemma_mul_commutes(b, a);
    assert(gmul(gmul(b, c), a) == gmul(gmul(b, a), c));
}

#[verifier::rlimit(100)]
proof fn lemma_inverse_bv(
    a: u8,
    a_1: u8,
    a_2: u8,
    a_3: u8,
    a_4: u8,
    a_5: u8,
    a_6: u8,
    a_7: u8,
    a2: u8,
    a2_1: u8,
    a2_2: u8,
    a2_3: u8,
    a2_4: u8,
    a2_5: u8,
    a2_6: u8,
    a2_7: u8,
    a4: u8,
    a4_1: u8,
    a4_2: u8,
    a4_3: u8,
    a4_4: u8,
    a4_5: u8,
    a4_6: u8,
    a4_7: u8,
    a8: u8,
    a8_1: u8,
    a8_2: u8,
    a8_3: u8,
    a8_4: u8,
    a8_5: u8,
    a8_6: u8,
    a8_7: u8,
    a16: u8,
    a16_1: u8,
    a16_2: u8,
    a16_3: u8,
    a16_4: u8,
    a16_5: u8,
    a16_6: u8,
    a16_7: u8,
    a32: u8,
    a32_1: u8,
    a32_2: u8,
    a32_3: u8,
    a32_4: u8,
    a32_5: u8,
    a32_6: u8,
    a32_7: u8,
    a64: u8,
    a64_1: u8,
    a64_2: u8,
    a64_3: u8,
    a64_4: u8,
    a64_5: u8,
    a64_6: u8,
    a64_7: u8,
    q1: u8,
    q1_1: u8,
    q1_2: u8,
    q1_3: u8,
    q1_4: u8,
    q1_5: u8,
    q1_6: u8,
    q1_7: u8,
    q2: u8,
    q2_1: u8,
    q2_2: u8,
    q2_3: u8,
    q2_4: u8,
    q2_5: u8,
    q2_6: u8,
    q2_7: u8,
    q3: u8,
    q3_1: u8,
    q3_2: u8,
    q3_3: u8,
    q3_4: u8,
    q3_5: u8,
    q3_6: u8,
    q3_7: u8,
    q4: u8,
    q4_1: u8,
    q4_2: u8,
    q4_3: u8,
    q4_4: u8,
    q4_5: u8,
    q4_6: u8,
    q4_7: u8,
    q5: u8,
    q5_1: u8,
    q5_2: u8,
    q5_3: u8,
    q5_4: u8,
    q5_5: u8,
    q5_6: u8,
    q5_7: u8,
    a128: u8,
    r: u8,
)
    by (bit_vector)
    requires
        is_chain(a, a_1, a_2, a_3, a_4, a_5, a_6, a_7),
        is_chain(a2, a2_1, a2_2, a2_3, a2_4, a2_5, a2_6, a2_7),
        is_chain(a4, a4_1, a4_2, a4_3, a4_4, a4_5, a4_6, a4_7),
        is_chain(a8, a8_1, a8_2, a8_3, a8_4, a8_5, a8_6, a8_7),
        is_chain(a16, a16_1, a16_2, a16_3, a16_4, a16_5, a16_6, a16_7),
        is_chain(a32, a32_1, a32_2, a32_3, a32_4, a32_5, a32_6, a32_7),
        is_chain(a64, a64_1, a64_2, a64_3, a64_4, a64_5, a64_6, a64_7),
        is_chain(q1, q1_1, q1_2, q1_3, q1_4, q1_5, q1_6, q1_7),
        is_chain(q2, q2_1, q2_2, q2_3, q2_4, q2_5, q2_6, q2_7),
        is_chain(q3, q3_1, q3_2, q3_3, q3_4, q3_5, q3_6, q3_7),
        is_chain(q4, q4_1, q4_2, q4_3, q4_4, q4_5, q4_6, q4_7),
        is_chain(q5, q5_1, q5_2, q5_3, q5_4, q5_5, q5_6, q5_7),
        a2 == select_sum(a, a, a_1, a_2, a_3, a_4, a_5, a_6, a_7),
        a4 == select_sum(a2, a2, a2_1, a2_2, a2_3, a2_4, a2_5, a2_6, a2_7),
        a8 == select_sum(a4, a4, a4_1, a4_2, a4_3, a4_4, a4_5, a4_6, a4_7),
        a16 == select_sum(a8, a8, a8_1, a8_2, a8_3, a8_4, a8_5, a8_6, a8_7),
        a32 == select_sum(a16, a16, a16_1, a16_2, a16_3, a16_4, a16_5, a16_6, a16_7),
        a64 == select_sum(a32, a32, a32_1, a32_2, a32_3, a32_4, a32_5, a32_6, a32_7),
        a128 == select_sum(a64, a64, a64_1, a64_2, a64_3, a64_4, a64_5, a64_6, a64_7),
        q1 == select_sum(a4, a2, a2_1, a2_2, a2_3, a2_4, a2_5, a2_6, a2_7),
        q2 == select_sum(a8, q1, q1_1, q1_2, q1_3, q1_4, q1_5, q1_6, q1_7),
        q3 == select_sum(a16, q2, q2_1, q2_2, q2_3, q2_4, q2_5, q2_6, q2_7),
        q4 == select_sum(a32, q3, q3_1, q3_2, q3_3, q3_4, q3_5, q3_6, q3_7),
        q5 == select_sum(a64, q4, q4_1, q4_2, q4_3, q4_4, q4_5, q4_6, q4_7),
        r == select_sum(a128, q5, q5_1, q5_2, q5_3, q5_4, q5_5, q5_6, q5_7),
    ensures
        a != 0 ==> select_sum(r, a, a_1, a_2, a_3, a_4, a_5, a_6, a_7) == 1,
{
}

/// Every element but `0` has `ginv` as its multiplicative inverse.
pub proof fn lemma_mul_inverse(a: u8)
    ensures
        a != 0 ==> gmul(a, ginv(a)) == 1,
{
    let a2 = gmul(a, a);
    let a4 = gmul(a2, a2);
    let a8 = gmul(a4, a4);
    let a16 = gmul(a8, a8);
    let a32 = gmul(a16, a16);
    let a64 = gmul(a32, a32);
    let a128 = gmul(a64, a64);
    let q1 = gmul(a2, a4);
    let q2 = gmul(q1, a8);
    let q3 = gmul(q2, a16);
    let q4 = gmul(q3, a32);
    let q5 = gmul(q4, a64);
    let r = gmul(q5, a128);
    assert(r == ginv(a));
    lemma_chain(a);
    lemma_chain(a2);
    lemma_chain(a4);
    lemma_chain(a8);
    lemma_chain(a16);
    lemma_chain(a32);
    lemma_chain(a64);
    lemma_chain(q1);
    lemma_chain(q2);
    lemma_chain(q3);
    lemma_chain(q4);
    lemma_chain(q5);
    lemma_inverse_bv(
        a,
        xtimes(a, 1),
        xtimes(a, 2),
        xtimes(a, 3),
        xtimes(a, 4),
        xtimes(a, 5),
        xtimes(a, 6),
        xtimes(a, 7),
        a2,
        xtimes(a2, 1),
        xtimes(a2, 2),
        xtimes(a2, 3),
        xtimes(a2, 4),
        xtimes(a2, 5),
        xtimes(a2, 6),
        xtimes(a2, 7),
        a4,
        xtimes(a4, 1),
        xtimes(a4, 2),
        xtimes(a4, 3),
        xtimes(a4, 4),
        xtimes(a4, 5),
        xtimes(a4, 6),
        xtimes(a4, 7),
        a8,
        xtimes(a8, 1),
        xtimes(a8, 2),
        xtimes(a8, 3),
        xtimes(a8, 4),
        xtimes(a8, 5),
        xtimes(a8, 6),
        xtimes(a8, 7),
        a16,
        xtimes(a16, 1),
        xtimes(a16, 2),
        xtimes(a16, 3),
        xtimes(a16, 4),
        xtimes(a16, 5),
        xtimes(a16, 6),
        xtimes(a16, 7),
        a32,
        xtimes(a32, 1),
        xtimes(a32, 2),
        xtimes(a32, 3),
        xtimes(a32, 4),
        xtimes(a32, 5),
        xtimes(a32, 6),
        xtimes(a32, 7),
        a64,
        xtimes(a64, 1),
        xtimes(a64, 2),
        xtimes(a64, 3),
        xtimes(a64, 4),
        xtimes(a64, 5),
        xtimes(a64, 6),
        xtimes(a64, 7),
        q1,
        xtimes(q1, 1),
        xtimes(q1, 2),
        xtimes(q1, 3),
        xtimes(q1, 4),
        xtimes(q1, 5),
        xtimes(q1, 6),
        xtimes(q1, 7),
        q2,
        xtimes(q2, 1),
        xtimes(q2, 2),
        xtimes(q2, 3),
        xtimes(q2, 4),
        xtimes(q2, 5),
        xtimes(q2, 6),
        xtimes(q2, 7),
        q3,
        xtimes(q3, 1),
        xtimes(q3, 2),
        xtimes(q3, 3),
        xtimes(q3, 4),
        xtimes(q3, 5),
        xtimes(q3, 6),
        xtimes(q3, 7),
        q4,
        xtimes(q4, 1),
        xtimes(q4, 2),
        xtimes(q4, 3),
        xtimes(q4, 4),
        xtimes(q4, 5),
        xtimes(q4, 6),
        xtimes(q4, 7),
        q5,
        xtimes(q5, 1),
        xtimes(q5, 2),
        xtimes(q5, 3),
        xtimes(q5, 4),
        xtimes(q5, 5),
        xtimes(q5, 6),
        xtimes(q5, 7),
        a128,
        r,
    );
}


/// `x` raised to the power `e`.
pub open spec fn gpow(x: u8, e: nat) -> u8
    decreases e,
{
    if e == 0 {
        1
    } else {
        gmul(gpow(x, (e - 1) as nat), x)
    }
}

fn xtime_exec(a: u8) -> (r: u8)
    ensures
        r == xtime(a),
{
    if a & 0x80u8 == 0 {
        a << 1u8
    } else {
        (a << 1u8) ^ 0x1du8
    }
}

/// Single element GF(2^8) multiply.
pub fn mul(a: u8, b: u8) -> (r: u8)
    ensures
        r == gmul(a, b),
{
    proof {
        lemma_chain(a);
    }
    let a1 = xtime_exec(a);
    let a2 = xtime_exec(a1);
    let a3 = xtime_exec(a2);
    let a4 = xtime_exec(a3);
    let a5 = xtime_exec(a4);
    let a6 = xtime_exec(a5);
    let a7 = xtime_exec(a6);
    let r = (if b & 0x01u8 != 0 { a } else { 0u8 }) ^ (if b & 0x02u8 != 0 { a1 } else { 0u8 }) ^ (if b
        & 0x04u8 != 0 {
        a2
    } else {
        0u8
    }) ^ (if b & 0x08u8 != 0 { a3 } else { 0u8 }) ^ (if b & 0x10u8 != 0 { a4 } else { 0u8 }) ^ (if b
        & 0x20u8 != 0 {
        a5
    } else {
        0u8
    }) ^ (if b & 0x40u8 != 0 { a6 } else { 0u8 }) ^ (if b & 0x80u8 != 0 { a7 } else { 0u8 });
    r
}

/// Single element GF(2^8) inverse: the element `b` with `a * b == 1`, and `0` for `0`.
pub fn inv(a: u8) -> (r: u8)
    ensures
        r == ginv(a),
        a != 0 ==> gmul(a, r) == 1,
        a == 0 ==> r == 0,
{
    let a2 = self::mul(a, a);
    let a4 = self::mul(a2, a2);
    let a8 = self::mul(a4, a4);
    let a16 = self::mul(a8, a8);
    let a32 = self::mul(a16, a16);
    let a64 = self::mul(a32, a32);
    let a128 = self::mul(a64, a64);
    let r = self::mul(self::mul(self::mul(self::mul(self::mul(self::mul(a2, a4), a8), a16), a32), a64), a128);
    proof {
        lemma_mul_inverse(a);
        lemma_mul_zero_one(a4);
        lemma_mul_zero_one(a128);
        lemma_mul_zero_one(0);
    }
    r
}


/// Entry `(i, j)` of the identity matrix.
pub open spec fn unit(i: int, j: int) -> u8 {
    if i == j {
        1
    } else {
        0
    }
}

/// The `m x k` Reed-Solomon encoding matrix: the identity on top, then row
/// `k + r` holds the powers `g^0, g^1, ...` of `g = {02}^r`.
pub open spec fn rs_matrix(m: nat, k: nat) -> Seq<Seq<u8>> {
    Seq::new(
        m,
        |i: int|
            Seq::new(
                k,
                |j: int|
                    if i < k {
                        unit(i, j)
                    } else {
                        gpow(gpow(2, (i - k) as nat), j as nat)
                    },
            ),
    )
}

/// The `m x k` Cauchy encoding matrix: the identity on top, then entry
/// `(i, j)` is the inverse of `i + j` (both taken as field elements).
pub open spec fn cauchy_matrix(m: nat, k: nat) -> Seq<Seq<u8>> {
    Seq::new(
        m,
        |i: int|
            Seq::new(
                k,
                |j: int|
                    if i < k {
                        unit(i, j)
                    } else {
                        ginv(((i % 256) as u8) ^ ((j % 256) as u8))
                    },
            ),
    )
}

fn unit_row(i: usize, k: usize) -> (row: Vec<u8>)
    ensures
        row@ == Seq::new(k as nat, |j: int| unit(i as int, j)),
{
    let mut row: Vec<u8> = Vec::with_capacity(k);
    for j in 0..k
        invariant
            row@ == Seq::new(k as nat, |j: int| unit(i as int, j)).take(j as int),
    {
        if i == j {
            row.push(1u8);
        } else {
            row.push(0u8);
        }
        assert(row@ =~= Seq::new(k as nat, |j: int| unit(i as int, j)).take(j + 1));
    }
    assert(row@ =~= Seq::new(k as nat, |j: int| unit(i as int, j)));
    row
}

/// Generates the Reed-Solomon (Vandermonde) matrix of `m` rows and `k`
/// columns. Not every square sub-matrix of it is invertible.
pub fn gen_rs_matrix(m: usize, k: usize) -> (a: Vec<Vec<u8>>)
    ensures
        rows_view(&a) == rs_matrix(m as nat, k as nat),
{
    let ghost spec_m = rs_matrix(m as nat, k as nat);
    let mut a: Vec<Vec<u8>> = Vec::with_capacity(m);
    let mut gen: u8 = 1;
    for i in 0..m
        invariant
            spec_m == rs_matrix(m as nat, k as nat),
            rows_view(&a) == spec_m.take(i as int),
            gen == gpow(2, if i < k { 0 } else { (i - k) as nat }),
    {
        if i < k {
            let row = unit_row(i, k);
            assert(row@ =~= spec_m[i as int]);
            push_row(&mut a, row);
        } else {
            let mut row: Vec<u8> = Vec::with_capacity(k);
            let mut p: u8 = 1;
            for j in 0..k
                invariant
                    i >= k,
                    i < m,
                    spec_m == rs_matrix(m as nat, k as nat),
                    gen == gpow(2, (i - k) as nat),
                    p == gpow(gen, j as nat),
                    row@ == spec_m[i as int].take(j as int),
            {
                row.push(p);
                p = self::mul(p, gen);
                assert(row@ =~= spec_m[i as int].take(j + 1));
            }
            assert(row@ =~= spec_m[i as int]);
            push_row(&mut a, row);
            gen = self::mul(gen, 2);
        }
        assert(rows_view(&a) =~= spec_m.take(i + 1));
    }
    assert(rows_view(&a) =~= spec_m);
    a
}

/// Generates the Cauchy matrix of `m` rows and `k` columns. For `m <= 256`
/// the index sums are distinct non-zero field elements, the condition under
/// which a Cauchy matrix has only invertible square sub-matrices (a classical
/// fact that this crate does not prove).
pub fn gen_cauchy1_matrix(m: usize, k: usize) -> (a: Vec<Vec<u8>>)
    ensures
        rows_view(&a) == cauchy_matrix(m as nat, k as nat),
{
    let ghost spec_m = cauchy_matrix(m as nat, k as nat);
    let mut a: Vec<Vec<u8>> = Vec::with_capacity(m);
    for i in 0..m
        invariant
            spec_m == cauchy_matrix(m as nat, k as nat),
            rows_view(&a) == spec_m.take(i as int),
    {
        if i < k {
            let row = unit_row(i, k);
            assert(row@ =~= spec_m[i as int]);
            push_row(&mut a, row);
        } else {
            let mut row: Vec<u8> = Vec::with_capacity(k);
            for j in 0..k
                invariant
                    i >= k,
                    i < m,
                    spec_m == cauchy_matrix(m as nat, k as nat),
                    row@ == spec_m[i as int].take(j as int),
            {
                let x = ((i % 256) as u8) ^ ((j % 256) as u8);
                row.push(self::inv(x));
                assert(row@ =~= spec_m[i as int].take(j + 1));
            }
            assert(row@ =~= spec_m[i as int]);
            push_row(&mut a, row);
        }
        assert(rows_view(&a) =~= spec_m.take(i + 1));
    }
    assert(rows_view(&a) =~= spec_m);
    a
}


/// The `n x n` matrix held row after row in `s`.
pub open spec fn unflatten(s: Seq<u8>, n: nat) -> Seq<Seq<u8>> {
    Seq::new(n, |i: int| s.subrange(i * n, i * n + n))
}

proof fn lemma_row_bounds(i: nat, n: nat)
    requires
        i < n,
    ensures
        i * n + n <= n * n,
        (i + 1) * n == i * n + n,
{
    assert(i * n + n <= n * n) by (nonlinear_arith)
        requires
            i < n,
    ;
    assert((i + 1) * n == i * n + n) by (nonlinear_arith);
}

/// Inverts the `n x n` matrix `input` (row after row) into `output`.
/// Returns `false`, and leaves `output` as it was, when `input` is singular.
pub fn invert_matrix(input: &[u8], output: &mut [u8], n: usize) -> (r: bool)
    requires
        input@.len() == n * n,
        old(output)@.len() == n * n,
    ensures
        r == invertible(unflatten(input@, n as nat), n as nat),
        r ==> final(output)@ == flatten_rows(inverse_of(unflatten(input@, n as nat), n as nat)),
        r ==> mat_mul(inverse_of(unflatten(input@, n as nat), n as nat), unflatten(input@, n as nat), n as nat)
            == identity(n as nat),
        !r ==> final(output)@ == old(output)@,
{
    let ghost nn = n as nat;
    let mut rows: Vec<Vec<u8>> = Vec::with_capacity(n);
    let mut base: usize = 0;
    assert(0 * nn == 0);
    for i in 0..n
        invariant
            input@.len() == nn * nn,
            nn == n,
            base == i * nn,
            rows_view(&rows) == unflatten(input@, nn).take(i as int),
    {
        proof {
            lemma_row_bounds(i as nat, nn);
        }
        let mut row: Vec<u8> = Vec::with_capacity(n);
        for j in 0..n
            invariant
                input@.len() == nn * nn,
                nn == n,
                base + n <= nn * nn,
                row@ == input@.subrange(base as int, base + j),
        {
            assert(input@.len() == input.len());
            row.push(input[base + j]);
            assert(row@ =~= input@.subrange(base as int, base + j + 1));
        }
        push_row(&mut rows, row);
        assert(rows_view(&rows) =~= unflatten(input@, nn).take(i + 1));
        assert(input@.len() == input.len());
        base = base + n;
    }
    assert(rows_view(&rows) =~= unflatten(input@, nn));
    assert forall|i: int| 0 <= i < nn implies #[trigger] unflatten(input@, nn)[i].len() == nn by {
        lemma_row_bounds(i as nat, nn);
        assert(0 <= i * nn) by (nonlinear_arith)
            requires
                0 <= i,
        ;
    }
    assert(is_matrix(unflatten(input@, nn), nn, nn));
    match invert(&rows, n) {
        Some(inv) => {
            let flat = crate::erasure::flatten_rows_of(&inv);
            proof {
                lemma_flatten_rows(rows_view(&inv), nn);
                assert(nn * nn == n * n);
            }
            for x in 0..flat.len()
                invariant
                    flat@.len() == nn * nn,
                    output@.len() == nn * nn,
                    forall|y: int| 0 <= y < x ==> #[trigger] output@[y] == flat@[y],
            {
                output[x] = flat[x];
            }
            assert(output@ =~= flat@);
            true
        },
        None => false,
    }
}

} // verus!
