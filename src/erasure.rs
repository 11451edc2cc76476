//! The erasure-coding engine: encoding, incremental update and decoding of a
//! stripe of `k` source blocks and `m` parity blocks.
use vstd::prelude::*;
use crate::ec::{
    blocks, dot_block, gf_tables, init_tables, is_gf_table, lemma_gf_tables, selected, stripe,
    table_coef,
};
use crate::gf::{cauchy_matrix, gen_cauchy1_matrix, gen_rs_matrix, gmul, rs_matrix};
use crate::matrix::{
    inverse_of, invert, invertible, is_left_inverse, is_matrix, mat_mul, push_row, rows_view, xsum,
};

verus! {

/// The errors of the engine.
#[derive(Debug)]
pub enum Error {
    /// More distinct blocks are erased (first field) than there are parity
    /// blocks (second field).
    TooManyErasures(usize, usize),
    /// The shapes, lengths or indices handed in do not fit the code.
    InvalidArguments(String),
    /// The survivor sub-matrix for this erasure pattern cannot be inverted.
    InternalError(String),
    /// Any other failure.
    Other(String),
}

impl Error {
    fn too_many_erasures(erasures: usize, max_erasures: usize) -> (e: Self)
        ensures
            e == Error::TooManyErasures(erasures, max_erasures),
    {
        Error::TooManyErasures(erasures, max_erasures)
    }

    fn invalid_arguments(msg: &str) -> (e: Self)
        ensures
            e is InvalidArguments,
    {
        Error::InvalidArguments(msg.to_owned())
    }

    fn internal_error(msg: &str) -> (e: Self)
        ensures
            e is InternalError,
    {
        Error::InternalError(msg.to_owned())
    }

    #[allow(dead_code)]
    fn other(msg: &str) -> (e: Self)
        ensures
            e is Other,
    {
        Error::Other(msg.to_owned())
    }
}

/// How the parity rows of the encoding matrix are chosen.
#[derive(Clone, Copy, Debug, PartialEq, Eq, Structural)]
pub enum CodeType {
    /// Powers of `{02}^r` (Vandermonde); some survivor sets are singular.
    ReedSolomon,
    /// Inverses of index sums; every survivor set is invertible.
    Cauchy,
}

/// The `n x k` systematic encoding matrix of the given kind.
pub open spec fn encoding_matrix(kind: CodeType, n: nat, k: nat) -> Seq<Seq<u8>> {
    match kind {
        CodeType::ReedSolomon => rs_matrix(n, k),
        CodeType::Cauchy => cauchy_matrix(n, k),
    }
}

/// The rows of a matrix, one after the other.
pub open spec fn flatten_rows(rows: Seq<Seq<u8>>) -> Seq<u8>
    decreases rows.len(),
{
    if rows.len() == 0 {
        Seq::empty()
    } else {
        flatten_rows(rows.drop_last()) + rows.last()
    }
}

pub proof fn lemma_flatten_rows(rows: Seq<Seq<u8>>, k: nat)
    requires
        is_matrix(rows, rows.len(), k),
    ensures
        flatten_rows(rows).len() == rows.len() * k,
        forall|r: int, i: int|
            0 <= r < rows.len() && 0 <= i < k ==> #[trigger] flatten_rows(rows)[r * k + i] == rows[r][i],
    decreases rows.len(),
{
    if rows.len() > 0 {
        let pre = rows.drop_last();
        let len = rows.len();
        lemma_flatten_rows(pre, k);
        assert((len - 1) * k + k == len * k) by (nonlinear_arith);
        assert forall|r: int, i: int|
            0 <= r < rows.len() && 0 <= i < k implies #[trigger] flatten_rows(rows)[r * k + i] == rows[r][i] by {
            if r < len - 1 {
                assert(r * k + i < (len - 1) * k) by (nonlinear_arith)
                    requires
                        r < len - 1,
                        i < k,
                ;
                assert(pre[r] == rows[r]);
            } else {
                assert(r * k == (len - 1) * k);
            }
        }
    }
}

/// The coefficients of the rows `from ..` of a matrix, one row after the other.
fn flatten_from(a: &Vec<Vec<u8>>, from: usize) -> (f: Vec<u8>)
    requires
        from <= a.len(),
    ensures
        f@ == flatten_rows(rows_view(a).subrange(from as int, a.len() as int)),
{
    let mut f: Vec<u8> = Vec::new();
    for r in from..a.len()
        invariant
            from <= a.len(),
            f@ == flatten_rows(rows_view(a).subrange(from as int, r as int)),
    {
        let row = &a[r];
        let ghost before = f@;
        for i in 0..row.len()
            invariant
                f@ == before + row@.take(i as int),
        {
            f.push(row[i]);
            assert(f@ =~= before + row@.take(i + 1));
        }
        assert(row@.take(row.len() as int) =~= row@);
        assert(rows_view(a).subrange(from as int, r + 1).drop_last() =~= rows_view(a).subrange(
            from as int,
            r as int,
        ));
        assert(rows_view(a)[r as int] == row@);
    }
    f
}

/// All rows of a matrix, one after the other.
pub fn flatten_rows_of(a: &Vec<Vec<u8>>) -> (f: Vec<u8>)
    ensures
        f@ == flatten_rows(rows_view(a)),
{
    let f = flatten_from(a, 0);
    assert(rows_view(a).subrange(0, a.len() as int) =~= rows_view(a));
    f
}

/// Expands the `rows x cols` coefficient matrix `matrix` (row after row) into
/// its table of `32` bytes per coefficient.
pub fn make_table_from_matrix(matrix: &[u8], cols: usize, rows: usize) -> (r: Result<Vec<u8>, Error>)
    ensures
        r is Err <==> matrix.len() != cols * rows,
        r is Err ==> r->Err_0 is InvalidArguments,
        r is Ok ==> r->Ok_0@ == gf_tables(matrix@),
{
    if cols.checked_mul(rows) != Some(matrix.len()) {
        return Err(Error::invalid_arguments("matrix length is not equal to col * row"));
    }
    Ok(init_tables(matrix))
}


/// Byte-wise linear combination of the blocks `srcs` by `coeffs`:
/// byte `p` is the sum of `coeffs[i] * srcs[i][p]`.
pub open spec fn combine_block(coeffs: Seq<u8>, srcs: Seq<Seq<u8>>, len: nat) -> Seq<u8> {
    Seq::new(len, |p: int| xsum(|i: int| gmul(coeffs[i], srcs[i][p]), coeffs.len()))
}

/// The blocks all hold `len` bytes.
pub open spec fn all_of_len(bs: Seq<Vec<u8>>, len: nat) -> bool {
    forall|i: int| 0 <= i < bs.len() ==> (#[trigger] bs[i]).len() == len
}

/// An erasure code over GF(2^8) with `k` source and `m` parity blocks per stripe.
pub struct ErasureCode {
    k: usize,
    m: usize,
    kind: CodeType,
    encode_matrix: Vec<Vec<u8>>,
    encode_gf_table: Vec<u8>,
}

/// An expansion of a decode matrix, reusable for the erasure set it was made for.
pub struct DecodeTable(Vec<u8>);

impl DecodeTable {
    /// The expanded table.
    pub closed spec fn table(&self) -> Seq<u8> {
        self.0@
    }
}

impl ErasureCode {
    /// The number of source blocks.
    pub closed spec fn source_count(&self) -> nat {
        self.k as nat
    }

    /// The number of parity blocks.
    pub closed spec fn code_count(&self) -> nat {
        self.m as nat
    }

    /// The kind of encoding matrix.
    pub closed spec fn code_type(&self) -> CodeType {
        self.kind
    }

    /// The `(k + m) x k` encoding matrix.
    pub closed spec fn matrix(&self) -> Seq<Seq<u8>> {
        rows_view(&self.encode_matrix)
    }

    /// The encode table: the parity rows of the matrix, expanded.
    closed spec fn parity_coefs(&self) -> Seq<u8> {
        flatten_rows(self.matrix().subrange(self.k as int, (self.k + self.m) as int))
    }

    /// The code is well formed.
    pub closed spec fn wf(&self) -> bool {
        &&& 1 <= self.k
        &&& 1 <= self.m
        &&& self.k + self.m <= usize::MAX
        &&& (self.k + self.m) * self.k <= usize::MAX
        &&& self.matrix() == encoding_matrix(self.kind, (self.k + self.m) as nat, self.k as nat)
        &&& self.encode_gf_table@ == gf_tables(self.parity_coefs())
    }

    /// What a well-formed code guarantees.
    pub proof fn lemma_wf(&self)
        requires
            self.wf(),
        ensures
            self.source_count() >= 1,
            self.code_count() >= 1,
            (self.source_count() + self.code_count()) * self.source_count() <= usize::MAX,
            self.source_count() + self.code_count() <= usize::MAX,
            self.matrix() == encoding_matrix(
                self.code_type(),
                self.source_count() + self.code_count(),
                self.source_count(),
            ),
            is_matrix(self.matrix(), self.source_count() + self.code_count(), self.source_count()),
    {
        lemma_encoding_matrix_shape(self.kind, (self.k + self.m) as nat, self.k as nat);
        let n = (self.k + self.m) as nat;
        let k = self.k as nat;
        assert(n <= n * k) by (nonlinear_arith)
            requires
                k >= 1,
        ;
    }

    proof fn lemma_encode_table(&self)
        requires
            self.wf(),
        ensures
            is_matrix(self.matrix(), (self.k + self.m) as nat, self.k as nat),
            self.encode_gf_table@.len() == 32 * (self.k * self.m),
            is_gf_table(self.encode_gf_table@, (self.k * self.m) as nat),
            forall|r: int, i: int|
                0 <= r < self.m && 0 <= i < self.k ==> #[trigger] table_coef(
                    self.encode_gf_table@,
                    r * self.k + i,
                ) == self.matrix()[self.k + r][i],
    {
        let k = self.k as nat;
        let m = self.m as nat;
        lemma_encoding_matrix_shape(self.kind, k + m, k);
        let par = self.matrix().subrange(k as int, (k + m) as int);
        assert(is_matrix(par, m, k));
        lemma_flatten_rows(par, k);
        lemma_gf_tables(self.parity_coefs());
        assert(m * k == k * m) by (nonlinear_arith);
        assert forall|r: int, i: int| 0 <= r < m && 0 <= i < k implies #[trigger] table_coef(
            self.encode_gf_table@,
            r * k + i,
        ) == self.matrix()[k + r][i] by {
            assert(0 <= r * k + i < m * k) by (nonlinear_arith)
                requires
                    0 <= r < m,
                    0 <= i < k,
            ;
            assert(self.parity_coefs()[r * k + i] == par[r][i]);
        }
    }

    fn new(source_num: usize, code_num: usize, code_type: CodeType) -> (r: Self)
        requires
            source_num >= 1,
            code_num >= 1,
            (source_num + code_num) * source_num <= usize::MAX,
        ensures
            r.wf(),
            r.source_count() == source_num,
            r.code_count() == code_num,
            r.code_type() == code_type,
    {
        proof {
            assert(source_num + code_num <= (source_num + code_num) * source_num) by (nonlinear_arith)
                requires
                    source_num >= 1,
            ;
        }
        let k = source_num;
        let n = source_num + code_num;
        let encode_matrix = match code_type {
            CodeType::ReedSolomon => gen_rs_matrix(n, k),
            CodeType::Cauchy => gen_cauchy1_matrix(n, k),
        };
        proof {
            lemma_encoding_matrix_shape(code_type, n as nat, k as nat);
        }
        let coeffs = flatten_from(&encode_matrix, k);
        let encode_gf_table = init_tables(coeffs.as_slice());
        ErasureCode { k, m: code_num, kind: code_type, encode_matrix, encode_gf_table }
    }

    /// Creates a code whose parity rows form a Cauchy matrix. Fails when a count is zero.
    pub fn with_cauchy(source_num: usize, code_num: usize) -> (r: Result<Self, Error>)
        requires
            (source_num + code_num) * source_num <= usize::MAX,
        ensures
            r is Err <==> source_num == 0 || code_num == 0,
            r is Err ==> r->Err_0 is InvalidArguments,
            r is Ok ==> r->Ok_0.wf() && r->Ok_0.source_count() == source_num && r->Ok_0.code_count()
                == code_num && r->Ok_0.code_type() == CodeType::Cauchy,
    {
        if source_num == 0 || code_num == 0 {
            return Err(Error::invalid_arguments("source and code numbers must be positive"));
        }
        Ok(Self::new(source_num, code_num, CodeType::Cauchy))
    }

    /// Creates a code whose parity rows form a Reed-Solomon (Vandermonde)
    /// matrix. Fails when a count is zero. For some larger pairs of counts a
    /// survivor set may not be invertible; `decode` then fails.
    pub fn with_reed_solomon(source_num: usize, code_num: usize) -> (r: Result<Self, Error>)
        requires
            (source_num + code_num) * source_num <= usize::MAX,
        ensures
            r is Err <==> source_num == 0 || code_num == 0,
            r is Err ==> r->Err_0 is InvalidArguments,
            r is Ok ==> r->Ok_0.wf() && r->Ok_0.source_count() == source_num && r->Ok_0.code_count()
                == code_num && r->Ok_0.code_type() == CodeType::ReedSolomon,
    {
        if source_num == 0 || code_num == 0 {
            return Err(Error::invalid_arguments("source and code numbers must be positive"));
        }
        Ok(Self::new(source_num, code_num, CodeType::ReedSolomon))
    }

    /// Returns the number of source data blocks.
    pub fn source_num(&self) -> (r: usize)
        ensures
            r == self.source_count(),
    {
        self.k
    }

    /// Returns the number of code blocks.
    pub fn code_num(&self) -> (r: usize)
        ensures
            r == self.code_count(),
    {
        self.m
    }

    /// Returns the total number of blocks (source + code).
    pub fn block_num(&self) -> (r: usize)
        requires
            self.wf(),
        ensures
            r == self.source_count() + self.code_count(),
    {
        self.k + self.m
    }

    /// The buffers fit `encode`: `k` data blocks, `m` code blocks, all of one
    /// non-zero length.
    pub open spec fn encode_args_ok(&self, data: Seq<Vec<u8>>, code: Seq<Vec<u8>>) -> bool {
        &&& data.len() == self.source_count()
        &&& code.len() == self.code_count()
        &&& data[0].len() > 0
        &&& all_of_len(data, data[0].len() as nat)
        &&& all_of_len(code, data[0].len() as nat)
    }

    fn check_encode_buffer(&self, data: &[Vec<u8>], code: &[Vec<u8>]) -> (r: Result<(), Error>)
        requires
            self.wf(),
        ensures
            r is Ok <==> self.encode_args_ok(data@, code@),
            r is Err ==> r->Err_0 is InvalidArguments,
    {
        if data.len() != self.k {
            return Err(Error::invalid_arguments("data length is not equal to source num"));
        }
        if code.len() != self.m {
            return Err(Error::invalid_arguments("code length is not equal to code number"));
        }
        let len = data[0].len();
        if len == 0 {
            return Err(Error::invalid_arguments("blocks must not be empty"));
        }
        for i in 0..data.len()
            invariant
                len == data@[0].len(),
                forall|j: int| 0 <= j < i ==> (#[trigger] data@[j]).len() == len,
        {
            if data[i].len() != len {
                return Err(Error::invalid_arguments("source data block must be equal"));
            }
        }
        for i in 0..code.len()
            invariant
                len == data@[0].len(),
                all_of_len(data@, len as nat),
                forall|j: int| 0 <= j < i ==> (#[trigger] code@[j]).len() == len,
        {
            if code[i].len() != len {
                return Err(Error::invalid_arguments("code data block must be equal"));
            }
        }
        Ok(())
    }

    /// Encodes the source data into code blocks: parity block `r` becomes the
    /// combination of the data blocks by row `k + r` of the encoding matrix.
    pub fn encode(&self, data: &[Vec<u8>], code: &mut [Vec<u8>]) -> (r: Result<(), Error>)
        requires
            self.wf(),
        ensures
            r is Ok <==> self.encode_args_ok(data@, old(code)@),
            r is Err ==> r->Err_0 is InvalidArguments && final(code)@ == old(code)@,
            r is Ok ==> final(code)@.len() == self.code_count() && forall|q: int|
                0 <= q < self.code_count() ==> #[trigger] final(code)@[q]@ == combine_block(
                    self.matrix()[self.source_count() + q],
                    blocks(data@),
                    data@[0]@.len(),
                ),
    {
        self.check_encode_buffer(data, code)?;
        self.encode_impl(data, code);
        Ok(())
    }

    fn encode_impl(&self, data: &[Vec<u8>], code: &mut [Vec<u8>])
        requires
            self.wf(),
            self.encode_args_ok(data@, old(code)@),
        ensures
            final(code)@.len() == self.code_count(),
            forall|q: int|
                0 <= q < self.code_count() ==> #[trigger] final(code)@[q]@ == combine_block(
                    self.matrix()[self.source_count() + q],
                    blocks(data@),
                    data@[0]@.len(),
                ),
    {
        proof {
            self.lemma_encode_table();
        }
        let k = self.k;
        let m = self.m;
        let len = data[0].len();
        let mut sel: Vec<usize> = Vec::with_capacity(k);
        for i in 0..k
            invariant
                sel@ == Seq::new(i as nat, |j: int| j as usize),
        {
            sel.push(i);
            assert(sel@ =~= Seq::new((i + 1) as nat, |j: int| j as usize));
        }
        let empty: Vec<Vec<u8>> = Vec::new();
        let ghost srcs = selected(stripe(data@, empty@), sel@);
        assert(srcs =~= blocks(data@));
        let mut out = crate::ec::encode_data(
            len,
            k,
            m,
            self.encode_gf_table.as_slice(),
            data,
            empty.as_slice(),
            sel.as_slice(),
        );
        let ghost outs = out@;
        let mut q = m;
        while q > 0
            invariant
                q <= m,
                m == self.m,
                code@.len() == m,
                out@ == outs.take(q as int),
                outs.len() == m,
                forall|j: int| q <= j < m ==> #[trigger] code@[j] == outs[j],
            decreases q,
        {
            let b = out.pop().unwrap();
            q = q - 1;
            code[q] = b;
            assert(out@ =~= outs.take(q as int));
        }
        proof {
            assert forall|q: int| 0 <= q < m implies #[trigger] code@[q]@ == combine_block(
                self.matrix()[k + q],
                blocks(data@),
                len as nat,
            ) by {
                let row = self.matrix()[k + q];
                assert forall|p: int| 0 <= p < len implies #[trigger] dot_block(
                    self.encode_gf_table@,
                    q,
                    k as nat,
                    srcs,
                    len as nat,
                )[p] == combine_block(row, blocks(data@), len as nat)[p] by {
                    assert(row.len() == k);
                    crate::matrix::lemma_xsum_ext(
                        |i: int| gmul(table_coef(self.encode_gf_table@, q * k + i), srcs[i][p]),
                        |i: int| gmul(row[i], blocks(data@)[i][p]),
                        k as nat,
                    );
                }
                assert(code@[q]@ =~= combine_block(row, blocks(data@), len as nat));
            }
        }
    }

    /// Adds to every parity block the contribution of a change `delta` (the
    /// sum of old and new contents) of source block `index`.
    pub fn update(&self, index: usize, delta: &[u8], code: &mut [Vec<u8>]) -> (r: Result<(), Error>)
        requires
            self.wf(),
        ensures
            r is Ok <==> index < self.source_count() && old(code)@.len() == self.code_count()
                && all_of_len(old(code)@, delta@.len()),
            r is Err ==> r->Err_0 is InvalidArguments && final(code)@ == old(code)@,
            r is Ok ==> final(code)@.len() == self.code_count() && forall|q: int|
                0 <= q < self.code_count() ==> #[trigger] final(code)@[q]@ == Seq::new(
                    delta@.len(),
                    |p: int|
                        old(code)@[q]@[p] ^ gmul(
                            self.matrix()[self.source_count() + q][index as int],
                            delta@[p],
                        ),
                ),
    {
        self.check_update(index, delta, code)?;
        proof {
            self.lemma_encode_table();
        }
        crate::ec::encode_data_update(
            delta.len(),
            self.k,
            self.m,
            index,
            self.encode_gf_table.as_slice(),
            delta,
            code,
        );
        Ok(())
    }

    fn check_update(&self, index: usize, delta: &[u8], code: &[Vec<u8>]) -> (r: Result<(), Error>)
        ensures
            r is Ok <==> index < self.source_count() && code@.len() == self.code_count()
                && all_of_len(code@, delta@.len()),
            r is Err ==> r->Err_0 is InvalidArguments,
    {
        if index >= self.k {
            return Err(Error::invalid_arguments("index is out of range"));
        }
        if code.len() != self.m {
            return Err(Error::invalid_arguments("code length is not equal to code number"));
        }
        let len = delta.len();
        for i in 0..code.len()
            invariant
                len == delta@.len(),
                forall|j: int| 0 <= j < i ==> (#[trigger] code@[j]).len() == len,
        {
            if code[i].len() != len {
                return Err(Error::invalid_arguments("code block length is not equal to delta length"));
            }
        }
        Ok(())
    }
}

proof fn lemma_encoding_matrix_shape(kind: CodeType, n: nat, k: nat)
    ensures
        is_matrix(encoding_matrix(kind, n, k), n, k),
{
}


/// `s` is sorted in strictly increasing order.
pub open spec fn strictly_increasing(s: Seq<usize>) -> bool {
    forall|i: int, j: int| 0 <= i < j < s.len() ==> s[i] < s[j]
}

/// The indices below `i` that `es` does not hold, in increasing order.
pub open spec fn survivors_upto(es: Set<usize>, i: nat) -> Seq<usize>
    decreases i,
{
    if i == 0 {
        Seq::empty()
    } else {
        let s = survivors_upto(es, (i - 1) as nat);
        if es.contains((i - 1) as usize) {
            s
        } else {
            s.push((i - 1) as usize)
        }
    }
}

/// The first `k` indices below `n` that are not erased.
pub open spec fn survivors(es: Set<usize>, n: nat, k: nat) -> Seq<usize> {
    survivors_upto(es, n).take(k as int)
}

/// The rows of `mat` at the indices `idx`.
pub open spec fn rows_at(mat: Seq<Seq<u8>>, idx: Seq<usize>) -> Seq<Seq<u8>> {
    idx.map_values(|i: usize| mat[i as int])
}

/// The coefficients that rebuild block `e` from the survivors, given the
/// inverse `inv` of the survivor sub-matrix of `mat`: a row of `inv` for a
/// source block, that row recombined through row `e` of `mat` for a parity block.
pub open spec fn decode_row(mat: Seq<Seq<u8>>, inv: Seq<Seq<u8>>, e: int, k: nat) -> Seq<u8> {
    if e < k {
        inv[e]
    } else {
        Seq::new(k, |i: int| xsum(|j: int| gmul(inv[j][i], mat[e][j]), k))
    }
}

proof fn lemma_insert_sorted(s: Seq<usize>, pos: int, x: usize)
    requires
        strictly_increasing(s),
        0 <= pos <= s.len(),
        forall|j: int| 0 <= j < pos ==> #[trigger] s[j] < x,
        pos < s.len() ==> s[pos] > x,
    ensures
        strictly_increasing(s.insert(pos, x)),
        forall|v: usize| #[trigger] s.insert(pos, x).contains(v) <==> (v == x || s.contains(v)),
{
    let t = s.insert(pos, x);
    assert forall|i: int, j: int| 0 <= i < j < t.len() implies t[i] < t[j] by {
        if j < pos {
        } else if j == pos {
        } else if i < pos {
            assert(s[i] < x);
            if pos < s.len() {
                assert(s[pos] <= s[j - 1]);
            }
        } else if i == pos {
            assert(s[pos] <= s[j - 1]);
        } else {
        }
    }
    assert forall|v: usize| #[trigger] t.contains(v) <==> (v == x || s.contains(v)) by {
        if t.contains(v) {
            let w = choose|w: int| 0 <= w < t.len() && t[w] == v;
            if w < pos {
                assert(s[w] == v);
            } else if w > pos {
                assert(s[w - 1] == v);
            }
        }
        if v == x {
            assert(t[pos] == x);
        } else if s.contains(v) {
            let w = choose|w: int| 0 <= w < s.len() && s[w] == v;
            if w < pos {
                assert(t[w] == v);
            } else {
                assert(t[w + 1] == v);
            }
        }
    }
}

/// Sorts `e` and drops repeated indices.
fn normalize(e: &Vec<usize>) -> (s: Vec<usize>)
    ensures
        strictly_increasing(s@),
        forall|v: usize| #[trigger] s@.contains(v) <==> e@.contains(v),
        s@.len() == e@.to_set().len(),
        s@.to_set() == e@.to_set(),
{
    let mut s: Vec<usize> = Vec::new();
    for i in 0..e.len()
        invariant
            strictly_increasing(s@),
            forall|v: usize| #[trigger] s@.contains(v) <==> e@.take(i as int).contains(v),
    {
        let x = e[i];
        let mut pos: usize = 0;
        while pos < s.len() && s[pos] < x
            invariant
                pos <= s.len(),
                forall|j: int| 0 <= j < pos ==> #[trigger] s@[j] < x,
            decreases s.len() - pos,
        {
            pos += 1;
        }
        let ghost before = s@;
        if pos < s.len() && s[pos] == x {
            assert(s@.contains(x));
        } else {
            proof {
                lemma_insert_sorted(s@, pos as int, x);
            }
            s.insert(pos, x);
        }
        let ghost ep = e@.take(i + 1);
        let ghost eq = e@.take(i as int);
        assert forall|v: usize| #[trigger] s@.contains(v) <==> ep.contains(v) by {
            assert(ep =~= eq.push(x));
            if ep.contains(v) {
                let w = choose|w: int| 0 <= w < ep.len() && ep[w] == v;
                if w < i {
                    assert(eq[w] == v);
                }
            }
            if eq.contains(v) {
                let w = choose|w: int| 0 <= w < eq.len() && eq[w] == v;
                assert(ep[w] == v);
            }
            if v == x {
                assert(ep[i as int] == v);
            }
        }
    }
    assert(e@.take(e.len() as int) =~= e@);
    proof {
        assert(s@.no_duplicates()) by {
            assert forall|i: int, j: int| 0 <= i < s@.len() && 0 <= j < s@.len() && i != j implies s@[i] != s@[j] by {
                if i < j {
                } else {
                }
            }
        }
        s@.unique_seq_to_set();
        assert(s@.to_set() =~= e@.to_set());
    }
    s
}


proof fn lemma_survivors_upto(es: Set<usize>, i: nat)
    requires
        i <= usize::MAX,
    ensures
        forall|t: int| 0 <= t < survivors_upto(es, i).len() ==> #[trigger] survivors_upto(es, i)[t] < i,
        forall|t: int| 0 <= t < survivors_upto(es, i).len() ==> !es.contains(#[trigger] survivors_upto(es, i)[t]),
        strictly_increasing(survivors_upto(es, i)),
    decreases i,
{
    if i > 0 {
        let p = (i - 1) as nat;
        lemma_survivors_upto(es, p);
        let s = survivors_upto(es, p);
        if !es.contains(p as usize) {
            let t = s.push(p as usize);
            assert forall|a: int, b: int| 0 <= a < b < t.len() implies t[a] < t[b] by {
                if b == s.len() {
                    assert(s[a] < p);
                }
            }
        }
    }
}

impl ErasureCode {
    /// The survivor sub-matrix for the erased set `es`: the rows of the
    /// encoding matrix at the first `k` blocks that are not erased.
    pub open spec fn survivor_matrix(&self, es: Set<usize>) -> Seq<Seq<u8>> {
        rows_at(
            self.matrix(),
            survivors(es, self.source_count() + self.code_count(), self.source_count()),
        )
    }

    /// The blocks that `es` names can be rebuilt: the survivor sub-matrix is invertible.
    pub open spec fn decodable(&self, es: Set<usize>) -> bool {
        invertible(self.survivor_matrix(es), self.source_count())
    }

    /// The decode coefficients of block `e` when the blocks of `es` are lost.
    pub open spec fn decode_coefs(&self, es: Set<usize>, e: int) -> Seq<u8> {
        decode_row(
            self.matrix(),
            inverse_of(self.survivor_matrix(es), self.source_count()),
            e,
            self.source_count(),
        )
    }

    /// The decode matrix for the erasures `e`, in their order.
    pub open spec fn decode_matrix(&self, e: Seq<usize>) -> Seq<Seq<u8>> {
        Seq::new(e.len(), |t: int| self.decode_coefs(e.to_set(), e[t] as int))
    }

    /// `e` is a normalized erasure list: sorted, without repeats, in range, and
    /// no longer than the number of parity blocks.
    pub open spec fn normalized(&self, e: Seq<usize>) -> bool {
        &&& strictly_increasing(e)
        &&& e.len() <= self.code_count()
        &&& forall|t: int| 0 <= t < e.len() ==> #[trigger] e[t] < self.source_count() + self.code_count()
    }

    fn survivor_index(&self, e: &[usize]) -> (sv: Vec<usize>)
        requires
            self.wf(),
            self.normalized(e@),
        ensures
            sv@ == survivors(e@.to_set(), self.source_count() + self.code_count(), self.source_count()),
            sv@.len() == self.source_count(),
            forall|t: int| 0 <= t < sv@.len() ==> #[trigger] sv@[t] < self.source_count() + self.code_count(),
    {
        let ghost es = e@.to_set();
        let n = self.k + self.m;
        let mut out: Vec<usize> = Vec::new();
        let mut j: usize = 0;
        for i in 0..n
            invariant
                n == self.k + self.m,
                self.normalized(e@),
                es == e@.to_set(),
                j <= e.len(),
                forall|t: int| 0 <= t < j ==> #[trigger] e@[t] < i,
                j < e.len() ==> e@[j as int] >= i,
                out@ == survivors_upto(es, i as nat),
                out.len() + j == i,
        {
            if j < e.len() && e[j] == i {
                assert(es.contains(i));
                j += 1;
            } else {
                assert(!e@.contains(i)) by {
                    if e@.contains(i) {
                        let w = choose|w: int| 0 <= w < e@.len() && e@[w] == i;
                        if w < j {
                        } else {
                            assert(e@[j as int] <= e@[w]);
                        }
                    }
                }
                out.push(i);
            }
        }
        if j < e.len() {
            assert(e@[j as int] < n);
        }
        proof {
            lemma_survivors_upto(es, n as nat);
        }
        out.truncate(self.k);
        out
    }

    fn make_decode_rows(&self, e: &[usize]) -> (r: Result<Vec<Vec<u8>>, Error>)
        requires
            self.wf(),
            self.normalized(e@),
        ensures
            r is Err <==> !self.decodable(e@.to_set()),
            r is Err ==> r->Err_0 is InternalError,
            r is Ok ==> rows_view(&r->Ok_0) == self.decode_matrix(e@),
            r is Ok ==> is_matrix(rows_view(&r->Ok_0), e@.len(), self.source_count()),
    {
        proof {
            self.lemma_wf();
        }
        let k = self.k;
        let ghost es = e@.to_set();
        let ghost mat = self.matrix();
        let sv = self.survivor_index(e);
        let mut surv: Vec<Vec<u8>> = Vec::with_capacity(k);
        for i in 0..k
            invariant
                self.wf(),
                k == self.k,
                mat == self.matrix(),
                is_matrix(mat, (self.k + self.m) as nat, k as nat),
                sv@.len() == k,
                forall|t: int| 0 <= t < sv@.len() ==> #[trigger] sv@[t] < self.k + self.m,
                rows_view(&surv) == rows_at(mat, sv@).take(i as int),
        {
            let row = self.encode_matrix[sv[i]].clone();
            assert(row@ =~= mat[sv@[i as int] as int]);
            push_row(&mut surv, row);
            assert(rows_view(&surv) =~= rows_at(mat, sv@).take(i + 1));
        }
        assert(rows_view(&surv) =~= self.survivor_matrix(es));
        let inv = match invert(&surv, k) {
            Some(inv) => inv,
            None => {
                return Err(Error::internal_error("fail to invert matrix"));
            },
        };
        let ghost invv = rows_view(&inv);
        assert(invv == inverse_of(self.survivor_matrix(es), k as nat));
        assert(is_matrix(invv, k as nat, k as nat));
        let mut rows: Vec<Vec<u8>> = Vec::with_capacity(e.len());
        for t in 0..e.len()
            invariant
                self.wf(),
                k == self.k,
                mat == self.matrix(),
                is_matrix(mat, (self.k + self.m) as nat, k as nat),
                self.normalized(e@),
                es == e@.to_set(),
                invv == rows_view(&inv),
                invv == inverse_of(self.survivor_matrix(es), k as nat),
                is_matrix(invv, k as nat, k as nat),
                rows_view(&rows) == self.decode_matrix(e@).take(t as int),
        {
            let x = e[t];
            let target = Ghost(decode_row(mat, invv, x as int, k as nat));
            let row = if x < k {
                let r = inv[x].clone();
                assert(r@ =~= invv[x as int]);
                r
            } else {
                let mut r: Vec<u8> = Vec::with_capacity(k);
                for i in 0..k
                    invariant
                        k == self.k,
                        mat == self.matrix(),
                        is_matrix(mat, (self.k + self.m) as nat, k as nat),
                        x < self.k + self.m,
                        x >= k,
                        invv == rows_view(&inv),
                        is_matrix(invv, k as nat, k as nat),
                        target@ == decode_row(mat, invv, x as int, k as nat),
                        r@ == target@.take(i as int),
                {
                    let mut acc: u8 = 0;
                    for j in 0..k
                        invariant
                            k == self.k,
                            mat == self.matrix(),
                            is_matrix(mat, (self.k + self.m) as nat, k as nat),
                            x < self.k + self.m,
                            i < k,
                            invv == rows_view(&inv),
                            is_matrix(invv, k as nat, k as nat),
                            acc == xsum(|j: int| gmul(invv[j][i as int], mat[x as int][j]), j as nat),
                    {
                        assert(invv[j as int] == inv@[j as int]@);
                        assert(mat[x as int] == self.encode_matrix@[x as int]@);
                        acc = acc ^ crate::gf::mul(inv[j][i], self.encode_matrix[x][j]);
                    }
                    r.push(acc);
                    assert(r@ =~= target@.take(i + 1));
                }
                assert(r@ =~= target@);
                r
            };
            push_row(&mut rows, row);
            assert(rows_view(&rows) =~= self.decode_matrix(e@).take(t + 1));
        }
        assert(rows_view(&rows) =~= self.decode_matrix(e@));
        Ok(rows)
    }

    /// Derives the decode matrix for the normalized erasures `erasures`: row
    /// `t` rebuilds block `erasures[t]` from the survivors. The result has
    /// `k * (k + m)` bytes, the rows first and zeros after them.
    pub fn make_decode_matrix(&self, erasures: &[usize]) -> (r: Result<Vec<u8>, Error>)
        requires
            self.wf(),
            self.normalized(erasures@),
        ensures
            r is Err <==> !self.decodable(erasures@.to_set()),
            r is Err ==> r->Err_0 is InternalError,
            r is Ok ==> r->Ok_0@ == flatten_rows(self.decode_matrix(erasures@)) + Seq::new(
                (self.source_count() * (self.source_count() + self.code_count()) - self.source_count()
                    * erasures@.len()) as nat,
                |x: int| 0u8,
            ),
    {
        proof {
            self.lemma_wf();
        }
        let rows = self.make_decode_rows(erasures)?;
        let mut flat = flatten_from(&rows, 0);
        let k = self.k;
        let n = self.k + self.m;
        proof {
            assert(rows_view(&rows).subrange(0, rows.len() as int) =~= rows_view(&rows));
            lemma_flatten_rows(rows_view(&rows), k as nat);
            assert(k * erasures@.len() <= k * n) by (nonlinear_arith)
                requires
                    erasures@.len() <= n,
            ;
            assert(rows.len() * k == k * rows.len()) by (nonlinear_arith);
            assert(n * k == k * n) by (nonlinear_arith);
        }
        let ghost base = flat@;
        let total = k * n;
        while flat.len() < total
            invariant
                base.len() <= total,
                flat@.len() <= total,
                base.len() <= flat@.len(),
                flat@ == base + Seq::new((flat@.len() - base.len()) as nat, |x: int| 0u8),
            decreases total - flat@.len(),
        {
            flat.push(0u8);
            assert(flat@ =~= base + Seq::new((flat@.len() - base.len()) as nat, |x: int| 0u8));
        }
        Ok(flat)
    }
}


/// The erased indices of `es` in increasing order.
pub open spec fn sorted_erasures(es: Set<usize>) -> Seq<usize> {
    choose|s: Seq<usize>| strictly_increasing(s) && s.to_set() == es
}

proof fn lemma_sorted_prefix(s1: Seq<usize>, s2: Seq<usize>, i: int)
    requires
        strictly_increasing(s1),
        strictly_increasing(s2),
        s1.len() == s2.len(),
        s1.to_set() == s2.to_set(),
        0 <= i < s1.len(),
    ensures
        forall|j: int| 0 <= j <= i ==> #[trigger] s1[j] == s2[j],
    decreases i,
{
    if i > 0 {
        lemma_sorted_prefix(s1, s2, i - 1);
    }
    if s1[i] != s2[i] {
        if s1[i] < s2[i] {
            assert(s1.to_set().contains(s1[i]));
            assert(s2.contains(s1[i]));
            let w = choose|w: int| 0 <= w < s2.len() && s2[w] == s1[i];
            if w < i {
                assert(s1[w] == s2[w]);
            } else {
                assert(s2[i] < s2[w] || w == i);
            }
        } else {
            assert(s2.to_set().contains(s2[i]));
            assert(s1.contains(s2[i]));
            let w = choose|w: int| 0 <= w < s1.len() && s1[w] == s2[i];
            if w < i {
                assert(s1[w] == s2[w]);
            } else {
                assert(s1[i] < s1[w] || w == i);
            }
        }
    }
}

/// A sorted list without repeats is determined by its set of elements.
proof fn lemma_sorted_erasures(s: Seq<usize>)
    requires
        strictly_increasing(s),
    ensures
        sorted_erasures(s.to_set()) == s,
{
    let t = sorted_erasures(s.to_set());
    assert(strictly_increasing(s) && s.to_set() == s.to_set());
    assert(strictly_increasing(t) && t.to_set() == s.to_set());
    assert forall|a: int, b: int| 0 <= a < s.len() && 0 <= b < s.len() && a != b implies s[a] != s[b] by {
        if a > b {
        }
    }
    assert forall|a: int, b: int| 0 <= a < t.len() && 0 <= b < t.len() && a != b implies t[a] != t[b] by {
        if a > b {
        }
    }
    assert(s.no_duplicates());
    assert(t.no_duplicates());
    s.unique_seq_to_set();
    t.unique_seq_to_set();
    if s.len() > 0 {
        lemma_sorted_prefix(s, t, s.len() - 1);
    }
    assert(s =~= t);
}

impl DecodeTable {
    /// The coefficient of survivor `i` for erased block number `t` (in
    /// increasing order) of a code with `k` source blocks.
    pub open spec fn coef(&self, t: int, i: int, k: nat) -> u8 {
        table_coef(self.table(), t * k + i)
    }

    /// The table is an expansion of whole coefficients.
    pub open spec fn wf(&self) -> bool {
        &&& self.table().len() % 32 == 0
        &&& is_gf_table(self.table(), self.table().len() / 32)
    }
}

impl ErasureCode {
    /// The buffers fit `decode`: `k` data blocks, `m` code blocks, all of one length.
    pub open spec fn decode_args_ok(&self, data: Seq<Vec<u8>>, code: Seq<Vec<u8>>) -> bool {
        &&& data.len() == self.source_count()
        &&& code.len() == self.code_count()
        &&& all_of_len(data, data[0].len() as nat)
        &&& all_of_len(code, data[0].len() as nat)
    }

    /// Every index of `es` names a block of the stripe.
    pub open spec fn in_range(&self, es: Set<usize>) -> bool {
        forall|x: usize| #[trigger] es.contains(x) ==> x < self.source_count() + self.code_count()
    }

    /// What block `b` becomes when the blocks of `es` are rebuilt from `old`.
    pub open spec fn recovered(&self, es: Set<usize>, old: Seq<Seq<u8>>, b: int, len: nat) -> Seq<u8> {
        if es.contains(b as usize) {
            combine_block(
                self.decode_coefs(es, b),
                selected(old, survivors(es, self.source_count() + self.code_count(), self.source_count())),
                len,
            )
        } else {
            old[b]
        }
    }

    fn check_decode_erasure(&self, erasures: &mut Vec<usize>) -> (r: Result<(), Error>)
        requires
            self.wf(),
        ensures
            final(erasures)@ == sorted_erasures(old(erasures)@.to_set()),
            final(erasures)@.to_set() == old(erasures)@.to_set(),
            (r matches Err(Error::TooManyErasures(c, mx)) && c == old(erasures)@.to_set().len() && mx
                == self.code_count()) <== old(erasures)@.to_set().len() > self.code_count(),
            r is Err && r->Err_0 is TooManyErasures ==> old(erasures)@.to_set().len() > self.code_count(),
            r is Err && r->Err_0 is InvalidArguments <==> old(erasures)@.to_set().len() <= self.code_count()
                && !self.in_range(old(erasures)@.to_set()),
            !(r is Err && r->Err_0 is InternalError),
            !(r is Err && r->Err_0 is Other),
            r is Ok <==> old(erasures)@.to_set().len() <= self.code_count() && self.in_range(
                old(erasures)@.to_set(),
            ),
            r is Ok ==> self.normalized(final(erasures)@),
    {
        let s = normalize(erasures);
        proof {
            lemma_sorted_erasures(s@);
        }
        *erasures = s;
        if erasures.len() > self.m {
            return Err(Error::too_many_erasures(erasures.len(), self.m));
        }
        let n = self.k + self.m;
        for t in 0..erasures.len()
            invariant
                n == self.k + self.m,
                erasures@ == sorted_erasures(old(erasures)@.to_set()),
                erasures@.to_set() == old(erasures)@.to_set(),
                erasures@.len() == old(erasures)@.to_set().len(),
                erasures@.len() <= self.m,
                forall|q: int| 0 <= q < t ==> #[trigger] erasures@[q] < n,
        {
            if erasures[t] >= n {
                assert(erasures@.to_set().contains(erasures@[t as int]));
                return Err(Error::invalid_arguments("erasure index out of range"));
            }
        }
        assert forall|x: usize| #[trigger] erasures@.to_set().contains(x) implies x < n by {
            assert(erasures@.contains(x));
        }
        Ok(())
    }

    fn check_decode_buffer(&self, data: &[Vec<u8>], code: &[Vec<u8>]) -> (r: Result<(), Error>)
        requires
            self.wf(),
        ensures
            r is Ok <==> self.decode_args_ok(data@, code@),
            r is Err ==> r->Err_0 is InvalidArguments,
    {
        if data.len() != self.k {
            return Err(Error::invalid_arguments("data length is not equal to source num"));
        }
        if code.len() != self.m {
            return Err(Error::invalid_arguments("code length is not equal to code number"));
        }
        let len = data[0].len();
        for i in 0..data.len()
            invariant
                len == data@[0].len(),
                forall|j: int| 0 <= j < i ==> (#[trigger] data@[j]).len() == len,
        {
            if data[i].len() != len {
                return Err(Error::invalid_arguments("source data block must be equal"));
            }
        }
        for i in 0..code.len()
            invariant
                len == data@[0].len(),
                all_of_len(data@, len as nat),
                forall|j: int| 0 <= j < i ==> (#[trigger] code@[j]).len() == len,
        {
            if code[i].len() != len {
                return Err(Error::invalid_arguments("code data block must be equal"));
            }
        }
        Ok(())
    }

    fn make_decode_table_impl(&self, erasures: &[usize]) -> (r: Result<DecodeTable, Error>)
        requires
            self.wf(),
            self.normalized(erasures@),
        ensures
            r is Err <==> !self.decodable(erasures@.to_set()),
            r is Err ==> r->Err_0 is InternalError,
            r is Ok ==> r->Ok_0.wf() && r->Ok_0.table().len() == 32 * (self.source_count()
                * erasures@.len()) && forall|t: int, i: int|
                0 <= t < erasures@.len() && 0 <= i < self.source_count() ==> #[trigger] r->Ok_0.coef(
                    t,
                    i,
                    self.source_count(),
                ) == self.decode_matrix(erasures@)[t][i],
    {
        let rows = self.make_decode_rows(erasures)?;
        let flat = flatten_from(&rows, 0);
        let k = self.k;
        proof {
            assert(rows_view(&rows).subrange(0, rows.len() as int) =~= rows_view(&rows));
            lemma_flatten_rows(rows_view(&rows), k as nat);
            lemma_gf_tables(flat@);
            assert(rows.len() * k == k * rows.len()) by (nonlinear_arith);
        }
        let table = match make_table_from_matrix(flat.as_slice(), k, erasures.len()) {
            Ok(t) => t,
            Err(e) => {
                return Err(e);
            },
        };
        let r = DecodeTable(table);
        proof {
            let len = erasures@.len();
            assert(r.table().len() / 32 == k * len);
            assert forall|t: int, i: int| 0 <= t < len && 0 <= i < k implies #[trigger] r.coef(
                t,
                i,
                k as nat,
            ) == self.decode_matrix(erasures@)[t][i] by {
                assert(0 <= t * k + i < len * k) by (nonlinear_arith)
                    requires
                        0 <= t < len,
                        0 <= i < k,
                ;
                assert(flat@[t * k + i] == rows_view(&rows)[t][i]);
            }
        }
        Ok(r)
    }

    fn decode_impl(&self, data: &mut [Vec<u8>], code: &mut [Vec<u8>], table: &[u8], erasures: &[usize])
        requires
            self.wf(),
            self.normalized(erasures@),
            self.decode_args_ok(old(data)@, old(code)@),
            table@.len() == 32 * (self.source_count() * erasures@.len()),
            is_gf_table(table@, (self.source_count() * erasures@.len()) as nat),
        ensures
            final(data)@.len() == self.source_count(),
            final(code)@.len() == self.code_count(),
            forall|b: int|
                0 <= b < self.source_count() + self.code_count() && !erasures@.contains(b as usize)
                    ==> #[trigger] stripe(final(data)@, final(code)@)[b] == stripe(old(data)@, old(code)@)[b],
            forall|t: int|
                0 <= t < erasures@.len() ==> #[trigger] stripe(final(data)@, final(code)@)[erasures@[t] as int]
                    == dot_block(
                    table@,
                    t,
                    self.source_count(),
                    selected(
                        stripe(old(data)@, old(code)@),
                        survivors(
                            erasures@.to_set(),
                            self.source_count() + self.code_count(),
                            self.source_count(),
                        ),
                    ),
                    old(data)@[0]@.len(),
                ),
    {
        let k = self.k;
        let len = data[0].len();
        let ghost old_stripe = stripe(data@, code@);
        let ghost od = data@;
        let ghost oc = code@;
        let sv = self.survivor_index(erasures);
        let ghost srcs = selected(old_stripe, sv@);
        proof {
            assert forall|i: int| 0 <= i < sv@.len() implies #[trigger] sv@[i] < data@.len() + code@.len()
                && stripe(data@, code@)[sv@[i] as int].len() == len by {
                let b = sv@[i] as int;
                if b < k {
                    assert(stripe(data@, code@)[b] == data@[b]@);
                } else {
                    assert(stripe(data@, code@)[b] == code@[b - k]@);
                }
            }
            assert(table@.len() == 32 * (k * erasures@.len()));
        }
        let mut out = crate::ec::encode_data(len, k, erasures.len(), table, data, code, sv.as_slice());
        let ghost outs = out@;
        let mut q = erasures.len();
        while q > 0
            invariant
                self.wf(),
                k == self.k,
                self.normalized(erasures@),
                q <= erasures@.len(),
                out@ == outs.take(q as int),
                outs.len() == erasures@.len(),
                data@.len() == k,
                code@.len() == self.m,
                od.len() == k,
                oc.len() == self.m,
                forall|t: int| q <= t < erasures@.len() ==> #[trigger] stripe(data@, code@)[erasures@[t] as int]
                    == outs[t]@,
                forall|b: int|
                    0 <= b < self.k + self.m && !erasures@.subrange(q as int, erasures@.len() as int).contains(
                        b as usize,
                    ) ==> #[trigger] stripe(data@, code@)[b] == stripe(od, oc)[b],
            decreases q,
        {
            let blk = out.pop().unwrap();
            q = q - 1;
            let x = erasures[q];
            let ghost pd = data@;
            let ghost pc = code@;
            let ghost bv = blk@;
            if x < k {
                data[x] = blk;
            } else {
                code[x - k] = blk;
            }
            assert(out@ =~= outs.take(q as int));
            proof {
                assert(stripe(data@, code@) =~= stripe(pd, pc).update(x as int, bv));
                assert forall|t: int| q <= t < erasures@.len() implies #[trigger] stripe(data@, code@)[erasures@[t] as int]
                    == outs[t]@ by {
                    if t > q {
                        assert(erasures@[q as int] < erasures@[t]);
                    }
                }
                assert forall|b: int|
                    0 <= b < self.k + self.m && !erasures@.subrange(q as int, erasures@.len() as int).contains(
                        b as usize,
                    ) implies #[trigger] stripe(data@, code@)[b] == stripe(od, oc)[b] by {
                    let sub = erasures@.subrange(q as int, erasures@.len() as int);
                    let sub2 = erasures@.subrange(q + 1, erasures@.len() as int);
                    assert(sub[0] == x);
                    if sub2.contains(b as usize) {
                        let w = choose|w: int| 0 <= w < sub2.len() && sub2[w] == b as usize;
                        assert(sub[w + 1] == b as usize);
                    }
                }
            }
        }
        proof {
            assert(erasures@.subrange(0, erasures@.len() as int) =~= erasures@);
        }
    }
}


impl ErasureCode {
    /// The coefficients of row `t` of a decode table, for a code with `k` source blocks.
    pub open spec fn table_row(table: &DecodeTable, t: int, k: nat) -> Seq<u8> {
        Seq::new(k, |i: int| table.coef(t, i, k))
    }

    /// The survivor blocks of the stripe `old` when the blocks of `es` are lost.
    pub open spec fn survivor_blocks(&self, es: Set<usize>, old: Seq<Seq<u8>>) -> Seq<Seq<u8>> {
        selected(old, survivors(es, self.source_count() + self.code_count(), self.source_count()))
    }

    /// `table` holds the decode matrix for the erased set `es`.
    pub open spec fn table_for(&self, table: &DecodeTable, es: Set<usize>) -> bool {
        &&& table.wf()
        &&& table.table().len() == 32 * (self.source_count() * es.len())
        &&& forall|t: int, i: int|
            0 <= t < es.len() && 0 <= i < self.source_count() ==> #[trigger] table.coef(
                t,
                i,
                self.source_count(),
            ) == self.decode_coefs(es, sorted_erasures(es)[t] as int)[i]
    }

    proof fn lemma_decode_row_len(&self, es: Set<usize>, b: int)
        requires
            self.wf(),
            self.decodable(es),
            0 <= b < self.source_count() + self.code_count(),
        ensures
            self.decode_coefs(es, b).len() == self.source_count(),
    {
        let k = self.source_count();
        let inv = inverse_of(self.survivor_matrix(es), k);
        assert(is_left_inverse(inv, self.survivor_matrix(es), k));
    }

    /// Decoding with a table made for the same erasures rebuilds each erased
    /// block exactly as decoding without it does.
    pub proof fn lemma_table_reuse(&self, table: &DecodeTable, e: Seq<usize>, old: Seq<Seq<u8>>, len: nat)
        requires
            self.wf(),
            self.normalized(e),
            self.decodable(e.to_set()),
            self.table_for(table, e.to_set()),
        ensures
            forall|t: int|
                0 <= t < e.len() ==> #[trigger] combine_block(
                    Self::table_row(table, t, self.source_count()),
                    self.survivor_blocks(e.to_set(), old),
                    len,
                ) == self.recovered(e.to_set(), old, e[t] as int, len),
    {
        let k = self.source_count();
        let es = e.to_set();
        lemma_sorted_erasures(e);
        lemma_sorted_len(e);
        assert forall|t: int| 0 <= t < e.len() implies #[trigger] combine_block(
            Self::table_row(table, t, k),
            self.survivor_blocks(es, old),
            len,
        ) == self.recovered(es, old, e[t] as int, len) by {
            assert(e.contains(e[t]));
            let b = e[t] as int;
            self.lemma_decode_row_len(es, b);
            assert(Self::table_row(table, t, k) =~= self.decode_coefs(es, b));
        }
    }
}

proof fn lemma_sorted_len(s: Seq<usize>)
    requires
        strictly_increasing(s),
    ensures
        s.to_set().len() == s.len(),
        s.to_set().finite(),
{
    assert forall|a: int, b: int| 0 <= a < s.len() && 0 <= b < s.len() && a != b implies s[a] != s[b] by {
        if a > b {
        }
    }
    assert(s.no_duplicates());
    s.unique_seq_to_set();
}


impl ErasureCode {
    proof fn lemma_decoded(
        &self,
        table: Seq<u8>,
        e: Seq<usize>,
        od: Seq<Vec<u8>>,
        oc: Seq<Vec<u8>>,
        fd: Seq<Vec<u8>>,
        fc: Seq<Vec<u8>>,
    )
        requires
            self.wf(),
            self.normalized(e),
            self.decodable(e.to_set()),
            od.len() == self.source_count(),
            oc.len() == self.code_count(),
            forall|b: int|
                0 <= b < self.source_count() + self.code_count() && !e.contains(b as usize)
                    ==> #[trigger] stripe(fd, fc)[b] == stripe(od, oc)[b],
            forall|t: int|
                0 <= t < e.len() ==> #[trigger] stripe(fd, fc)[e[t] as int] == dot_block(
                    table,
                    t,
                    self.source_count(),
                    self.survivor_blocks(e.to_set(), stripe(od, oc)),
                    od[0]@.len(),
                ),
            forall|t: int, i: int|
                0 <= t < e.len() && 0 <= i < self.source_count() ==> #[trigger] table_coef(
                    table,
                    t * self.source_count() + i,
                ) == self.decode_matrix(e)[t][i],
        ensures
            forall|b: int|
                0 <= b < self.source_count() + self.code_count() ==> #[trigger] stripe(fd, fc)[b]
                    == self.recovered(e.to_set(), stripe(od, oc), b, od[0]@.len()),
    {
        let k = self.source_count();
        let es = e.to_set();
        let old = stripe(od, oc);
        let len = od[0]@.len();
        let srcs = self.survivor_blocks(es, old);
        assert forall|b: int| 0 <= b < self.source_count() + self.code_count() implies #[trigger] stripe(
            fd,
            fc,
        )[b] == self.recovered(es, old, b, len) by {
            if e.contains(b as usize) {
                let t = choose|t: int| 0 <= t < e.len() && e[t] == b as usize;
                self.lemma_decode_row_len(es, b);
                let coefs = self.decode_coefs(es, b);
                assert forall|p: int| 0 <= p < len implies #[trigger] dot_block(table, t, k, srcs, len)[p]
                    == combine_block(coefs, srcs, len)[p] by {
                    crate::matrix::lemma_xsum_ext(
                        |i: int| gmul(table_coef(table, t * k + i), srcs[i][p]),
                        |i: int| gmul(coefs[i], srcs[i][p]),
                        k,
                    );
                }
                assert(dot_block(table, t, k, srcs, len) =~= combine_block(coefs, srcs, len));
            }
        }
    }

    /// Decodes the erased blocks from the surviving data and code blocks.
    ///
    /// `erasures` may list indices in any order and more than once. The first
    /// `k` blocks are the source blocks in `data`, the next `m` the code
    /// blocks in `code`. Each erased block is rebuilt in place from the first
    /// `k` surviving blocks; no other block changes, and on error nothing does.
    pub fn decode(&self, data: &mut [Vec<u8>], code: &mut [Vec<u8>], erasures: Vec<usize>) -> (r: Result<
        (),
        Error,
    >)
        requires
            self.wf(),
        ensures
            r is Err && r->Err_0 is TooManyErasures <==> erasures@.to_set().len() > self.code_count(),
            r matches Err(Error::TooManyErasures(c, mx)) ==> c == erasures@.to_set().len() && mx
                == self.code_count(),
            r is Err && r->Err_0 is InvalidArguments <==> erasures@.to_set().len() <= self.code_count() && (
            !self.in_range(erasures@.to_set()) || !self.decode_args_ok(old(data)@, old(code)@)),
            r is Err && r->Err_0 is InternalError <==> erasures@.to_set().len() <= self.code_count()
                && self.in_range(erasures@.to_set()) && self.decode_args_ok(old(data)@, old(code)@)
                && !self.decodable(erasures@.to_set()),
            r is Ok <==> erasures@.to_set().len() <= self.code_count() && self.in_range(
                erasures@.to_set(),
            ) && self.decode_args_ok(old(data)@, old(code)@) && self.decodable(erasures@.to_set()),
            !(r is Err && r->Err_0 is Other),
            r is Err ==> final(data)@ == old(data)@ && final(code)@ == old(code)@,
            r is Ok ==> final(data)@.len() == self.source_count() && final(code)@.len()
                == self.code_count() && forall|b: int|
                0 <= b < self.source_count() + self.code_count() ==> #[trigger] stripe(
                    final(data)@,
                    final(code)@,
                )[b] == self.recovered(erasures@.to_set(), stripe(old(data)@, old(code)@), b, old(data)@[0]@.len()),
    {
        let mut erasures = erasures;
        let ghost es = erasures@.to_set();
        self.check_decode_erasure(&mut erasures)?;
        self.check_decode_buffer(data, code)?;
        let table = self.make_decode_table_impl(erasures.as_slice())?;
        let ghost od = data@;
        let ghost oc = code@;
        self.decode_impl(data, code, table.0.as_slice(), erasures.as_slice());
        proof {
            assert(erasures@.to_set() == es);
            let k = self.source_count();
            assert forall|t: int, i: int| 0 <= t < erasures@.len() && 0 <= i < k implies #[trigger] table_coef(
                table.0@,
                t * k + i,
            ) == self.decode_matrix(erasures@)[t][i] by {
                assert(table.coef(t, i, k) == self.decode_matrix(erasures@)[t][i]);
            }
            self.lemma_decoded(table.0@, erasures@, od, oc, data@, code@);
        }
        Ok(())
    }

    /// Decodes the erased blocks like `decode`, with a table made by
    /// `make_decode_table` for the same erasures. Row `t` of the table rebuilds
    /// the `t`-th erased block in increasing order. A table whose size does not
    /// fit the erasures is refused.
    pub fn decode_with_table(
        &self,
        data: &mut [Vec<u8>],
        code: &mut [Vec<u8>],
        decode_table: &DecodeTable,
        erasures: Vec<usize>,
    ) -> (r: Result<(), Error>)
        requires
            self.wf(),
            decode_table.wf(),
        ensures
            r is Err && r->Err_0 is TooManyErasures <==> erasures@.to_set().len() > self.code_count(),
            r matches Err(Error::TooManyErasures(c, mx)) ==> c == erasures@.to_set().len() && mx
                == self.code_count(),
            r is Err && r->Err_0 is InvalidArguments <==> erasures@.to_set().len() <= self.code_count() && (
            !self.in_range(erasures@.to_set()) || !self.decode_args_ok(old(data)@, old(code)@)
                || decode_table.table().len() != 32 * (self.source_count() * erasures@.to_set().len())),
            r is Ok <==> erasures@.to_set().len() <= self.code_count() && self.in_range(
                erasures@.to_set(),
            ) && self.decode_args_ok(old(data)@, old(code)@) && decode_table.table().len() == 32 * (
            self.source_count() * erasures@.to_set().len()),
            !(r is Err && r->Err_0 is InternalError),
            !(r is Err && r->Err_0 is Other),
            r is Err ==> final(data)@ == old(data)@ && final(code)@ == old(code)@,
            r is Ok ==> final(data)@.len() == self.source_count() && final(code)@.len()
                == self.code_count(),
            r is Ok ==> forall|b: int|
                0 <= b < self.source_count() + self.code_count() && !erasures@.contains(b as usize)
                    ==> #[trigger] stripe(final(data)@, final(code)@)[b] == stripe(old(data)@, old(code)@)[b],
            r is Ok ==> forall|t: int|
                0 <= t < erasures@.to_set().len() ==> #[trigger] stripe(final(data)@, final(code)@)[sorted_erasures(
                    erasures@.to_set(),
                )[t] as int] == combine_block(
                    Self::table_row(decode_table, t, self.source_count()),
                    self.survivor_blocks(erasures@.to_set(), stripe(old(data)@, old(code)@)),
                    old(data)@[0]@.len(),
                ),
    {
        let mut erasures = erasures;
        let ghost e0 = erasures@;
        self.check_decode_erasure(&mut erasures)?;
        self.check_decode_buffer(data, code)?;
        proof {
            lemma_sorted_len(erasures@);
        }
        let k = self.k;
        let expected = match k.checked_mul(erasures.len()) {
            Some(x) => x.checked_mul(32),
            None => None,
        };
        if expected != Some(decode_table.0.len()) {
            return Err(Error::invalid_arguments("decode table does not fit the erasures"));
        }
        let ghost od = data@;
        let ghost oc = code@;
        proof {
            lemma_sorted_len(erasures@);
            assert(32 * (k * erasures@.len()) == decode_table.0@.len());
            assert(decode_table.0@.len() / 32 == k * erasures@.len());
        }
        self.decode_impl(data, code, decode_table.0.as_slice(), erasures.as_slice());
        proof {
            let es = e0.to_set();
            let len = od[0]@.len();
            let srcs = self.survivor_blocks(es, stripe(od, oc));
            assert forall|b: int|
                0 <= b < self.source_count() + self.code_count() && !e0.contains(b as usize) implies #[trigger] stripe(
                data@,
                code@,
            )[b] == stripe(od, oc)[b] by {
                if erasures@.contains(b as usize) {
                    assert(erasures@.to_set().contains(b as usize));
                }
            }
            assert forall|t: int| 0 <= t < es.len() implies #[trigger] stripe(data@, code@)[sorted_erasures(
                es,
            )[t] as int] == combine_block(Self::table_row(decode_table, t, k as nat), srcs, len) by {
                let row = Self::table_row(decode_table, t, k as nat);
                assert forall|p: int| 0 <= p < len implies #[trigger] dot_block(decode_table.0@, t, k as nat, srcs, len)[p]
                    == combine_block(row, srcs, len)[p] by {
                    crate::matrix::lemma_xsum_ext(
                        |i: int| gmul(table_coef(decode_table.0@, t * k + i), srcs[i][p]),
                        |i: int| gmul(row[i], srcs[i][p]),
                        k as nat,
                    );
                }
                assert(dot_block(decode_table.0@, t, k as nat, srcs, len) =~= combine_block(
                    Self::table_row(decode_table, t, k as nat),
                    srcs,
                    len,
                ));
            }
        }
        Ok(())
    }

    /// Generates a `DecodeTable` for the given erasures, for use with
    /// `decode_with_table`. The order of `erasures` and repeats do not matter.
    pub fn make_decode_table(&self, erasures: Vec<usize>) -> (r: Result<DecodeTable, Error>)
        requires
            self.wf(),
        ensures
            r is Err && r->Err_0 is TooManyErasures <==> erasures@.to_set().len() > self.code_count(),
            r matches Err(Error::TooManyErasures(c, mx)) ==> c == erasures@.to_set().len() && mx
                == self.code_count(),
            r is Err && r->Err_0 is InvalidArguments <==> erasures@.to_set().len() <= self.code_count()
                && !self.in_range(erasures@.to_set()),
            r is Err && r->Err_0 is InternalError <==> erasures@.to_set().len() <= self.code_count()
                && self.in_range(erasures@.to_set()) && !self.decodable(erasures@.to_set()),
            r is Ok <==> erasures@.to_set().len() <= self.code_count() && self.in_range(
                erasures@.to_set(),
            ) && self.decodable(erasures@.to_set()),
            !(r is Err && r->Err_0 is Other),
            r is Ok ==> self.table_for(&r->Ok_0, erasures@.to_set()),
    {
        let mut erasures = erasures;
        let ghost es = erasures@.to_set();
        self.check_decode_erasure(&mut erasures)?;
        let table = self.make_decode_table_impl(erasures.as_slice())?;
        proof {
            lemma_sorted_len(erasures@);
        }
        Ok(table)
    }
}


impl ErasureCode {
    /// Encodes the source data into newly allocated code blocks.
    pub fn encode_to_owned(&self, data: &[Vec<u8>]) -> (r: Result<Vec<Vec<u8>>, Error>)
        requires
            self.wf(),
        ensures
            r is Ok <==> data@.len() == self.source_count() && data@[0].len() > 0 && all_of_len(
                data@,
                data@[0].len() as nat,
            ),
            r is Err ==> r->Err_0 is InvalidArguments,
            r is Ok ==> r->Ok_0@.len() == self.code_count() && forall|q: int|
                0 <= q < self.code_count() ==> #[trigger] r->Ok_0@[q]@ == combine_block(
                    self.matrix()[self.source_count() + q],
                    blocks(data@),
                    data@[0]@.len(),
                ),
    {
        if data.len() == 0 {
            return Err(Error::invalid_arguments("data length is not equal to source num"));
        }
        let len = data[0].len();
        let mut code: Vec<Vec<u8>> = Vec::with_capacity(self.m);
        for q in 0..self.m
            invariant
                code@.len() == q,
                all_of_len(code@, len as nat),
        {
            code.push(vec![0u8; len]);
        }
        self.encode(data, code.as_mut_slice())?;
        Ok(code)
    }

    /// The outcome of decoding depends on the set of erased indices alone: lists
    /// that differ in order or repeats are treated alike.
    pub proof fn lemma_erasure_order(&self, e1: Seq<usize>, e2: Seq<usize>, old: Seq<Seq<u8>>, len: nat)
        requires
            e1.to_set() == e2.to_set(),
        ensures
            e1.to_set().len() == e2.to_set().len(),
            self.in_range(e1.to_set()) == self.in_range(e2.to_set()),
            self.decodable(e1.to_set()) == self.decodable(e2.to_set()),
            forall|b: int| #[trigger] self.recovered(e1.to_set(), old, b, len) == self.recovered(
                e2.to_set(),
                old,
                b,
                len,
            ),
    {
    }
}

/// Updating parity with a change `delta` of source block `idx` gives the parity
/// of the changed data: for any coefficient row `row`, the combination of the
/// changed blocks is the old combination plus `row[idx] * delta`.
pub proof fn lemma_update_matches_encode(row: Seq<u8>, d: Seq<Seq<u8>>, idx: int, delta: Seq<u8>, len: nat)
    requires
        0 <= idx < row.len(),
        row.len() == d.len(),
        delta.len() == len,
        forall|i: int| 0 <= i < d.len() ==> (#[trigger] d[i]).len() == len,
    ensures
        combine_block(
            row,
            d.update(idx, Seq::new(len, |p: int| d[idx][p] ^ delta[p])),
            len,
        ) == Seq::new(len, |p: int| combine_block(row, d, len)[p] ^ gmul(row[idx], delta[p])),
{
    let d2 = d.update(idx, Seq::new(len, |p: int| d[idx][p] ^ delta[p]));
    let lhs = combine_block(row, d2, len);
    let rhs = Seq::new(len, |p: int| combine_block(row, d, len)[p] ^ gmul(row[idx], delta[p]));
    assert forall|p: int| 0 <= p < len implies #[trigger] lhs[p] == rhs[p] by {
        let f = |i: int| gmul(row[i], d[i][p]);
        let g = |i: int| if i == idx { gmul(row[idx], delta[p]) } else { 0u8 };
        let h = |i: int| gmul(row[i], d2[i][p]);
        assert forall|i: int| 0 <= i < row.len() implies #[trigger] h(i) == f(i) ^ g(i) by {
            if i == idx {
                crate::gf::lemma_mul_distributes(row[idx], d[idx][p], delta[p]);
            } else {
                crate::matrix::lemma_xor(f(i), 0, 0, 0);
            }
        }
        crate::matrix::lemma_xsum_add(f, g, h, row.len());
        crate::matrix::lemma_xsum_single(g, row.len(), idx);
    }
    assert(lhs =~= rhs);
}


/// The stripe that the matrix `mat` makes of the data blocks `d`: block `b` is
/// the combination of `d` by row `b` of `mat`.
pub open spec fn codeword(mat: Seq<Seq<u8>>, d: Seq<Seq<u8>>, len: nat) -> Seq<Seq<u8>> {
    Seq::new(mat.len(), |b: int| combine_block(mat[b], d, len))
}

proof fn lemma_survivor_count(e: Seq<usize>, i: nat) -> (j: int)
    requires
        strictly_increasing(e),
        i <= usize::MAX,
    ensures
        0 <= j <= e.len(),
        forall|t: int| 0 <= t < j ==> #[trigger] e[t] < i,
        j < e.len() ==> e[j] >= i,
        survivors_upto(e.to_set(), i).len() + j == i,
    decreases i,
{
    if i == 0 {
        0
    } else {
        let p = (i - 1) as nat;
        let j0 = lemma_survivor_count(e, p);
        if j0 < e.len() && e[j0] == p as usize {
            assert(e.contains(e[j0]));
            assert(e.to_set().contains(p as usize));
            j0 + 1
        } else {
            assert(!e.contains(p as usize)) by {
                if e.contains(p as usize) {
                    let w = choose|w: int| 0 <= w < e.len() && e[w] == p as usize;
                    if w >= j0 {
                        assert(e[j0] <= e[w]);
                    }
                }
            }
            assert(!e.to_set().contains(p as usize));
            j0
        }
    }
}

impl ErasureCode {
    /// A normalized erasure list leaves at least `k` survivors.
    proof fn lemma_survivors_len(&self, e: Seq<usize>)
        requires
            self.wf(),
            self.normalized(e),
        ensures
            survivors_upto(e.to_set(), self.source_count() + self.code_count()).len() >= self.source_count(),
            survivors(e.to_set(), self.source_count() + self.code_count(), self.source_count()).len()
                == self.source_count(),
            forall|t: int|
                0 <= t < self.source_count() ==> #[trigger] survivors(
                    e.to_set(),
                    self.source_count() + self.code_count(),
                    self.source_count(),
                )[t] < self.source_count() + self.code_count(),
    {
        let n = (self.k + self.m) as nat;
        let j = lemma_survivor_count(e, n);
        if j < e.len() {
            assert(e[j] < n);
        }
        lemma_survivors_upto(e.to_set(), n);
    }

    /// Decoding rebuilds the blocks of an encoded stripe: when the blocks that
    /// survive the erasures `e` are those of the encoding of the data `d`, each
    /// block comes out as the encoding's block, erased or not.
    pub proof fn lemma_round_trip(&self, e: Seq<usize>, d: Seq<Seq<u8>>, old: Seq<Seq<u8>>, len: nat)
        requires
            self.wf(),
            self.normalized(e),
            self.decodable(e.to_set()),
            d.len() == self.source_count(),
            forall|i: int| 0 <= i < d.len() ==> (#[trigger] d[i]).len() == len,
            old.len() == self.source_count() + self.code_count(),
            forall|b: int|
                0 <= b < old.len() && !e.contains(b as usize) ==> #[trigger] old[b] == codeword(
                    self.matrix(),
                    d,
                    len,
                )[b],
        ensures
            forall|b: int|
                0 <= b < self.source_count() + self.code_count() ==> #[trigger] self.recovered(
                    e.to_set(),
                    old,
                    b,
                    len,
                ) == codeword(self.matrix(), d, len)[b],
    {
        let k = self.source_count();
        let n = self.source_count() + self.code_count();
        let es = e.to_set();
        let mat = self.matrix();
        self.lemma_wf();
        self.lemma_survivors_len(e);
        let sv = survivors(es, n, k);
        let s = self.survivor_matrix(es);
        let inv = inverse_of(s, k);
        assert(is_left_inverse(inv, s, k));
        assert(is_matrix(s, k, k));
        let srcs = self.survivor_blocks(es, old);
        let cw = codeword(mat, d, len);
        assert forall|b: int| 0 <= b < n implies #[trigger] self.recovered(es, old, b, len) == cw[b] by {
            if es.contains(b as usize) {
                assert(e.contains(b as usize));
                let row = self.decode_coefs(es, b);
                self.lemma_decode_row_len(es, b);
                assert forall|p: int| 0 <= p < len implies #[trigger] combine_block(row, srcs, len)[p]
                    == cw[b][p] by {
                    self.lemma_round_trip_byte(e, d, old, len, b, p);
                }
                assert(combine_block(row, srcs, len) =~= cw[b]);
            } else {
                assert(!e.contains(b as usize));
            }
        }
    }

    #[verifier::rlimit(50)]
    proof fn lemma_round_trip_byte(&self, e: Seq<usize>, d: Seq<Seq<u8>>, old: Seq<Seq<u8>>, len: nat, b: int, p: int)
        requires
            self.wf(),
            self.normalized(e),
            self.decodable(e.to_set()),
            d.len() == self.source_count(),
            forall|i: int| 0 <= i < d.len() ==> (#[trigger] d[i]).len() == len,
            old.len() == self.source_count() + self.code_count(),
            forall|x: int|
                0 <= x < old.len() && !e.contains(x as usize) ==> #[trigger] old[x] == codeword(
                    self.matrix(),
                    d,
                    len,
                )[x],
            0 <= b < self.source_count() + self.code_count(),
            0 <= p < len,
        ensures
            xsum(
                |i: int|
                    gmul(
                        self.decode_coefs(e.to_set(), b)[i],
                        self.survivor_blocks(e.to_set(), old)[i][p],
                    ),
                self.source_count(),
            ) == xsum(|j: int| gmul(self.matrix()[b][j], d[j][p]), self.source_count()),
    {
        let k = self.source_count();
        let n = self.source_count() + self.code_count();
        let es = e.to_set();
        let mat = self.matrix();
        self.lemma_wf();
        self.lemma_survivors_len(e);
        lemma_survivors_upto(es, n);
        let sv = survivors(es, n, k);
        let s = self.survivor_matrix(es);
        let inv = inverse_of(s, k);
        assert(is_left_inverse(inv, s, k));
        assert(is_matrix(s, k, k)) by {
            assert forall|i: int| 0 <= i < k implies #[trigger] s[i].len() == k by {
                assert(s[i] == mat[sv[i] as int]);
            }
        }
        let srcs = self.survivor_blocks(es, old);
        let cw = codeword(mat, d, len);
        // The data bytes at `p` as a column.
        let x = Seq::new(k, |j: int| Seq::new(1, |z: int| d[j][p]));
        assert(is_matrix(x, k, 1));
        let v = mat_mul(s, x, 1);
        crate::matrix::lemma_mat_mul_is_matrix(s, x, 1);
        // Column `v` holds the survivor bytes at `p`.
        assert forall|i: int| 0 <= i < k implies #[trigger] v[i][0] == srcs[i][p] by {
            let q = sv[i] as int;
            assert(sv.contains(sv[i]));
            assert(!es.contains(sv[i])) by {
                assert(survivors_upto(es, n).take(k as int)[i] == survivors_upto(es, n)[i]);
            }
            assert(!e.contains(sv[i])) by {
                if e.contains(sv[i]) {
                    assert(es.contains(sv[i]));
                }
            }
            assert(old[q] == cw[q]);
            crate::matrix::lemma_xsum_ext(
                |l: int| gmul(s[i][l], crate::matrix::column(x, 0)[l]),
                |l: int| gmul(mat[q][l], d[l][p]),
                k,
            );
        }
        // inv * v == x
        crate::matrix::lemma_mat_mul_associates(inv, s, x, k, k, k, 1);
        crate::matrix::lemma_mat_mul_identity(x, k, 1);
        let iv = mat_mul(inv, v, 1);
        assert(iv == x);
        let row = self.decode_coefs(es, b);
        let lhs_f = |i: int| gmul(row[i], srcs[i][p]);
        if b < k {
            assert(row == inv[b]);
            crate::matrix::lemma_xsum_ext(lhs_f, |l: int| gmul(inv[b][l], crate::matrix::column(v, 0)[l]), k);
            assert(iv[b][0] == d[b][p]);
            // Row `b` of the matrix is the unit row.
            let f = |j: int| gmul(mat[b][j], d[j][p]);
            assert forall|j: int| 0 <= j < k && j != b implies #[trigger] f(j) == 0 by {
                crate::gf::lemma_mul_zero_one(d[j][p]);
            }
            crate::gf::lemma_mul_zero_one(d[b][p]);
            crate::matrix::lemma_xsum_single(f, k, b);
        } else {
            // `row` is row `b` of the matrix times `inv`.
            let r1 = seq![mat[b]];
            assert(is_matrix(r1, 1, k));
            let ri = mat_mul(r1, inv, k);
            crate::matrix::lemma_mat_mul_is_matrix(r1, inv, k);
            assert forall|i: int| 0 <= i < k implies #[trigger] ri[0][i] == row[i] by {
                assert forall|j: int| 0 <= j < k implies #[trigger] gmul(mat[b][j], crate::matrix::column(inv, i)[j])
                    == gmul(inv[j][i], mat[b][j]) by {
                    crate::gf::lemma_mul_commutes(mat[b][j], inv[j][i]);
                }
                crate::matrix::lemma_xsum_ext(
                    |j: int| gmul(r1[0][j], crate::matrix::column(inv, i)[j]),
                    |j: int| gmul(inv[j][i], mat[b][j]),
                    k,
                );
            }
            crate::matrix::lemma_mat_mul_associates(r1, inv, v, 1, k, k, 1);
            let lhs = mat_mul(ri, v, 1);
            let rhs = mat_mul(r1, iv, 1);
            assert(lhs == rhs);
            crate::matrix::lemma_xsum_ext(lhs_f, |i: int| gmul(ri[0][i], crate::matrix::column(v, 0)[i]), k);
            crate::matrix::lemma_xsum_ext(
                |j: int| gmul(r1[0][j], crate::matrix::column(iv, 0)[j]),
                |j: int| gmul(mat[b][j], d[j][p]),
                k,
            );
            assert(lhs[0][0] == rhs[0][0]);
        }
    }
}


impl ErasureCode {
    /// The code is systematic: the encoding of the data `d` begins with `d`
    /// itself, and its parity blocks are those that `encode` writes.
    pub proof fn lemma_codeword_systematic(&self, d: Seq<Seq<u8>>, len: nat)
        requires
            self.wf(),
            d.len() == self.source_count(),
            forall|i: int| 0 <= i < d.len() ==> (#[trigger] d[i]).len() == len,
        ensures
            codeword(self.matrix(), d, len).len() == self.source_count() + self.code_count(),
            forall|b: int| 0 <= b < self.source_count() ==> #[trigger] codeword(self.matrix(), d, len)[b] == d[b],
            forall|q: int|
                0 <= q < self.code_count() ==> #[trigger] codeword(self.matrix(), d, len)[self.source_count() + q]
                    == combine_block(self.matrix()[self.source_count() + q], d, len),
    {
        let k = self.source_count();
        let mat = self.matrix();
        self.lemma_wf();
        assert forall|b: int| 0 <= b < k implies #[trigger] codeword(mat, d, len)[b] == d[b] by {
            assert forall|p: int| 0 <= p < len implies #[trigger] combine_block(mat[b], d, len)[p] == d[b][p] by {
                let f = |j: int| gmul(mat[b][j], d[j][p]);
                assert forall|j: int| 0 <= j < k && j != b implies #[trigger] f(j) == 0 by {
                    crate::gf::lemma_mul_zero_one(d[j][p]);
                }
                crate::gf::lemma_mul_zero_one(d[b][p]);
                crate::matrix::lemma_xsum_single(f, k, b);
            }
            assert(combine_block(mat[b], d, len) =~= d[b]);
        }
    }
}

} // verus!
