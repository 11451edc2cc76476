//! Table expansion of coefficients and the block kernels that apply them:
//! a dot product of source blocks and an in-place multiply-accumulate.
use vstd::prelude::*;
use crate::gf::{gmul, lemma_mul_distributes, lemma_mul_zero_one};
use crate::matrix::xsum;

verus! {

/// The 32-byte expansion of the coefficient `c`: `c * {00} .. c * {0f}`,
/// then `c * {00}, c * {10}, .. c * {f0}`.
pub open spec fn coef_table(c: u8) -> Seq<u8> {
    Seq::new(
        32,
        |i: int|
            if i < 16 {
                gmul(c, i as u8)
            } else {
                gmul(c, ((i - 16) as u8) << 4u8)
            },
    )
}

/// The expansions of all `coeffs`, one after the other.
pub open spec fn gf_tables(coeffs: Seq<u8>) -> Seq<u8>
    decreases coeffs.len(),
{
    if coeffs.len() == 0 {
        Seq::empty()
    } else {
        gf_tables(coeffs.drop_last()) + coef_table(coeffs.last())
    }
}

/// The coefficient that entry `idx` of the table `t` expands.
pub open spec fn table_coef(t: Seq<u8>, idx: int) -> u8 {
    t[32 * idx + 1]
}

/// `t` is the expansion of `count` coefficients.
pub open spec fn is_gf_table(t: Seq<u8>, count: nat) -> bool {
    &&& t.len() == 32 * count
    &&& forall|idx: int, x: int|
        0 <= idx < count && 0 <= x < 32 ==> #[trigger] t[32 * idx + x] == coef_table(
            table_coef(t, idx),
        )[x]
}

/// The blocks held in a sequence of vectors.
pub open spec fn blocks(s: Seq<Vec<u8>>) -> Seq<Seq<u8>> {
    s.map_values(|b: Vec<u8>| b@)
}

/// The blocks named by `sel` in `stripe`.
pub open spec fn selected(stripe: Seq<Seq<u8>>, sel: Seq<usize>) -> Seq<Seq<u8>> {
    sel.map_values(|s: usize| stripe[s as int])
}

/// Byte `p` of the combination of the `k` blocks `srcs` by the coefficients
/// `base .. base + k` of the table `t`.
pub open spec fn dot_byte(t: Seq<u8>, base: int, k: nat, srcs: Seq<Seq<u8>>, p: int) -> u8 {
    xsum(|i: int| gmul(table_coef(t, base + i), srcs[i][p]), k)
}

/// Output `r` of the transform of `srcs` by the table `t` of `k` columns.
pub open spec fn dot_block(t: Seq<u8>, r: int, k: nat, srcs: Seq<Seq<u8>>, len: nat) -> Seq<u8> {
    Seq::new(len, |p: int| dot_byte(t, r * k, k, srcs, p))
}

pub proof fn lemma_gf_tables(s: Seq<u8>)
    ensures
        is_gf_table(gf_tables(s), s.len()),
        forall|idx: int| 0 <= idx < s.len() ==> #[trigger] table_coef(gf_tables(s), idx) == s[idx],
    decreases s.len(),
{
    let t = gf_tables(s);
    if s.len() > 0 {
        let pre = s.drop_last();
        lemma_gf_tables(pre);
        let c = s.last();
        lemma_mul_zero_one(c);
        assert(coef_table(c)[1] == c);
        assert forall|idx: int| 0 <= idx < s.len() implies #[trigger] table_coef(t, idx) == s[idx] by {
            if idx < s.len() - 1 {
                assert(t[32 * idx + 1] == gf_tables(pre)[32 * idx + 1]);
            } else {
                assert(t[32 * idx + 1] == coef_table(c)[1]);
            }
        }
        assert forall|idx: int, x: int|
            0 <= idx < s.len() && 0 <= x < 32 implies #[trigger] t[32 * idx + x] == coef_table(
                table_coef(t, idx),
            )[x] by {
            if idx < s.len() - 1 {
                assert(t[32 * idx + x] == gf_tables(pre)[32 * idx + x]);
                assert(t[32 * idx + 1] == gf_tables(pre)[32 * idx + 1]);
            } else {
                assert(t[32 * idx + x] == coef_table(c)[x]);
                assert(t[32 * idx + 1] == coef_table(c)[1]);
            }
        }
    }
}

fn push_coef_table(c: u8, t: &mut Vec<u8>)
    ensures
        final(t)@ == old(t)@ + coef_table(c),
{
    let ghost start = t@;
    for i in 0..16u8
        invariant
            t@ == start + coef_table(c).take(i as int),
    {
        t.push(crate::gf::mul(c, i));
        assert(t@ =~= start + coef_table(c).take(i + 1));
    }
    for i in 0..16u8
        invariant
            t@ == start + coef_table(c).take(16 + i),
    {
        t.push(crate::gf::mul(c, i << 4u8));
        assert(((16 + i - 16) as u8) == i);
        assert(t@ =~= start + coef_table(c).take(16 + i + 1));
    }
    assert(t@ =~= start + coef_table(c));
}

/// Expands each coefficient of `coeffs` into its 32-byte table.
pub fn init_tables(coeffs: &[u8]) -> (t: Vec<u8>)
    ensures
        t@ == gf_tables(coeffs@),
{
    let mut t: Vec<u8> = Vec::new();
    for x in 0..coeffs.len()
        invariant
            t@ == gf_tables(coeffs@.take(x as int)),
    {
        push_coef_table(coeffs[x], &mut t);
        assert(coeffs@.take(x + 1).drop_last() =~= coeffs@.take(x as int));
    }
    assert(coeffs@.take(coeffs.len() as int) =~= coeffs@);
    t
}

proof fn lemma_split_byte(x: u8)
    ensures
        x & 15u8 < 16,
        x >> 4u8 < 16,
        x == (x & 15u8) ^ ((x >> 4u8) << 4u8),
{
    assert(x & 15u8 < 16) by (bit_vector);
    assert(x >> 4u8 < 16) by (bit_vector);
    assert(x == (x & 15u8) ^ ((x >> 4u8) << 4u8)) by (bit_vector);
}

/// `c * x`, read from the expansion of `c` that starts at `off`.
fn table_mul(t: &[u8], off: usize, x: u8, Ghost(c): Ghost<u8>) -> (r: u8)
    requires
        off + 32 <= t.len(),
        forall|i: int| 0 <= i < 32 ==> #[trigger] t@[off + i] == coef_table(c)[i],
    ensures
        r == gmul(c, x),
{
    proof {
        lemma_split_byte(x);
        lemma_mul_distributes(c, x & 15u8, (x >> 4u8) << 4u8);
    }
    let lo = (x & 15u8) as usize;
    let hi = (x >> 4u8) as usize;
    assert(t@[off + lo] == coef_table(c)[lo as int]);
    assert(t@[off + (16 + hi)] == coef_table(c)[16 + hi]);
    assert((lo as int) as u8 == x & 15u8);
    assert((((16 + hi) - 16) as int) as u8 == x >> 4u8);
    t[off + lo] ^ t[off + 16 + hi]
}


/// The blocks `data ++ code` of a stripe.
pub open spec fn stripe(data: Seq<Vec<u8>>, code: Seq<Vec<u8>>) -> Seq<Seq<u8>> {
    blocks(data) + blocks(code)
}

/// Every block named by `sel` lies in the stripe and holds `len` bytes.
pub open spec fn valid_sources(data: Seq<Vec<u8>>, code: Seq<Vec<u8>>, sel: Seq<usize>, len: nat) -> bool {
    forall|i: int|
        0 <= i < sel.len() ==> #[trigger] sel[i] < data.len() + code.len() && stripe(data, code)[sel[i] as int].len()
            == len
}

proof fn lemma_row_offset(r: nat, rows: nat, k: nat)
    requires
        r < rows,
    ensures
        r * k + k <= rows * k,
        r * k + k <= k * rows,
        (r + 1) * k == r * k + k,
        0 * k == 0,
{
    assert(0 * k == 0) by (nonlinear_arith);
    assert(rows * k == k * rows) by (nonlinear_arith);
    assert(r * k + k <= rows * k) by (nonlinear_arith)
        requires
            r < rows,
    ;
    assert((r + 1) * k == r * k + k) by (nonlinear_arith);
}

fn source_byte(data: &[Vec<u8>], code: &[Vec<u8>], s: usize, p: usize) -> (b: u8)
    requires
        s < data.len() + code.len(),
        p < stripe(data@, code@)[s as int].len(),
    ensures
        b == stripe(data@, code@)[s as int][p as int],
{
    if s < data.len() {
        assert(stripe(data@, code@)[s as int] == data@[s as int]@);
        data[s][p]
    } else {
        assert(stripe(data@, code@)[s as int] == code@[s - data.len()]@);
        code[s - data.len()][p]
    }
}

fn dot_at(
    t: &[u8],
    base: usize,
    k: usize,
    data: &[Vec<u8>],
    code: &[Vec<u8>],
    sel: &[usize],
    len: usize,
    p: usize,
) -> (b: u8)
    requires
        32 * (base + k) <= t.len(),
        is_gf_table(t@, (t.len() / 32) as nat),
        sel.len() == k,
        valid_sources(data@, code@, sel@, len as nat),
        p < len,
    ensures
        b == dot_byte(t@, base as int, k as nat, selected(stripe(data@, code@), sel@), p as int),
{
    let ghost srcs = selected(stripe(data@, code@), sel@);
    let ghost f = |i: int| gmul(table_coef(t@, base + i), srcs[i][p as int]);
    let mut acc: u8 = 0;
    let mut off: usize = 32 * base;
    for i in 0..k
        invariant
            32 * (base + k) <= t.len(),
            is_gf_table(t@, (t.len() / 32) as nat),
            sel.len() == k,
            valid_sources(data@, code@, sel@, len as nat),
            p < len,
            srcs == selected(stripe(data@, code@), sel@),
            f == (|i: int| gmul(table_coef(t@, base + i), srcs[i][p as int])),
            off == 32 * (base + i),
            acc == xsum(f, i as nat),
    {
        let s = sel[i];
        let x = source_byte(data, code, s, p);
        assert(x == srcs[i as int][p as int]);
        proof {
            assert forall|y: int| 0 <= y < 32 implies #[trigger] t@[off + y] == coef_table(
                table_coef(t@, base + i),
            )[y] by {
                assert(t@[32 * (base + i) + y] == coef_table(table_coef(t@, base + i))[y]);
            }
        }
        let c = table_mul(t, off, x, Ghost(table_coef(t@, base + i)));
        acc = acc ^ c;
        off = off + 32;
    }
    acc
}

/// Combines the `k` source blocks named by `sel` (indices into the stripe
/// `data ++ code`) into `rows` output blocks of `len` bytes: output `r` is
/// the sum of `c(r, i) * source i`, with the coefficients `c(r, i)` at
/// entry `r * k + i` of the table `t`.
pub fn encode_data(
    len: usize,
    k: usize,
    rows: usize,
    t: &[u8],
    data: &[Vec<u8>],
    code: &[Vec<u8>],
    sel: &[usize],
) -> (out: Vec<Vec<u8>>)
    requires
        t.len() == 32 * (k * rows),
        is_gf_table(t@, (k * rows) as nat),
        sel.len() == k,
        valid_sources(data@, code@, sel@, len as nat),
    ensures
        out.len() == rows,
        forall|r: int|
            0 <= r < rows ==> #[trigger] out@[r]@ == dot_block(
                t@,
                r,
                k as nat,
                selected(stripe(data@, code@), sel@),
                len as nat,
            ),
{
    let ghost srcs = selected(stripe(data@, code@), sel@);
    let mut out: Vec<Vec<u8>> = Vec::with_capacity(rows);
    let mut base: usize = 0;
    assert(0 * k == 0) by (nonlinear_arith);
    for r in 0..rows
        invariant
            t.len() == 32 * (k * rows),
            is_gf_table(t@, (k * rows) as nat),
            sel.len() == k,
            valid_sources(data@, code@, sel@, len as nat),
            srcs == selected(stripe(data@, code@), sel@),
            base == r * k,
            out.len() == r,
            forall|q: int| 0 <= q < r ==> #[trigger] out@[q]@ == dot_block(t@, q, k as nat, srcs, len as nat),
    {
        proof {
            lemma_row_offset(r as nat, rows as nat, k as nat);
            assert(t.len() / 32 == k * rows);
        }
        let mut row: Vec<u8> = Vec::with_capacity(len);
        for p in 0..len
            invariant
                t.len() == 32 * (k * rows),
                is_gf_table(t@, (k * rows) as nat),
                t.len() / 32 == k * rows,
                sel.len() == k,
                valid_sources(data@, code@, sel@, len as nat),
                srcs == selected(stripe(data@, code@), sel@),
                base == r * k,
                base + k <= k * rows,
                row@ == dot_block(t@, r as int, k as nat, srcs, len as nat).take(p as int),
        {
            let b = dot_at(t, base, k, data, code, sel, len, p);
            row.push(b);
            assert(row@ =~= dot_block(t@, r as int, k as nat, srcs, len as nat).take(p + 1));
        }
        assert(row@ =~= dot_block(t@, r as int, k as nat, srcs, len as nat));
        out.push(row);
        base = base + k;
    }
    out
}

/// Adds to each of the `rows` blocks of `code` the block `delta` times its
/// coefficient `c(r, vec_i)`, at entry `r * k + vec_i` of the table `t`.
pub fn encode_data_update(
    len: usize,
    k: usize,
    rows: usize,
    vec_i: usize,
    t: &[u8],
    delta: &[u8],
    code: &mut [Vec<u8>],
)
    requires
        vec_i < k,
        t.len() == 32 * (k * rows),
        is_gf_table(t@, (k * rows) as nat),
        delta.len() == len,
        old(code).len() == rows,
        forall|r: int| 0 <= r < rows ==> (#[trigger] old(code)@[r]).len() == len,
    ensures
        final(code).len() == rows,
        forall|r: int|
            0 <= r < rows ==> #[trigger] final(code)@[r]@ == Seq::new(
                len as nat,
                |p: int| old(code)@[r]@[p] ^ gmul(table_coef(t@, r * k + vec_i), delta@[p]),
            ),
{
    let ghost start = code@;
    let mut base: usize = 0;
    assert(0 * k == 0) by (nonlinear_arith);
    for r in 0..rows
        invariant
            vec_i < k,
            t.len() == 32 * (k * rows),
            is_gf_table(t@, (k * rows) as nat),
            delta.len() == len,
            code.len() == rows,
            start.len() == rows,
            forall|q: int| 0 <= q < rows ==> (#[trigger] start[q]).len() == len,
            base == r * k,
            forall|q: int|
                r <= q < rows ==> #[trigger] code@[q] == start[q],
            forall|q: int|
                0 <= q < r ==> #[trigger] code@[q]@ == Seq::new(
                    len as nat,
                    |p: int| start[q]@[p] ^ gmul(table_coef(t@, q * k + vec_i), delta@[p]),
                ),
    {
        proof {
            lemma_row_offset(r as nat, rows as nat, k as nat);
        }
        let ghost c = table_coef(t@, r * k + vec_i);
        let ghost target = Seq::new(len as nat, |p: int| start[r as int]@[p] ^ gmul(c, delta@[p]));
        let off = 32 * (base + vec_i);
        assert forall|y: int| 0 <= y < 32 implies #[trigger] t@[off + y] == coef_table(c)[y] by {
            assert(t@[32 * (base + vec_i) + y] == coef_table(c)[y]);
        }
        let mut row: Vec<u8> = Vec::with_capacity(len);
        for p in 0..len
            invariant
                off + 32 <= t.len(),
                forall|y: int| 0 <= y < 32 ==> #[trigger] t@[off + y] == coef_table(c)[y],
                delta.len() == len,
                code.len() == rows,
                start.len() == rows,
                r < rows,
                code@[r as int] == start[r as int],
                start[r as int].len() == len,
                target == Seq::new(len as nat, |p: int| start[r as int]@[p] ^ gmul(c, delta@[p])),
                row@ == target.take(p as int),
        {
            let m = table_mul(t, off, delta[p], Ghost(c));
            row.push(code[r][p] ^ m);
            assert(row@ =~= target.take(p + 1));
        }
        assert(row@ =~= target);
        code[r] = row;
        base = base + k;
    }
}

} // verus!
