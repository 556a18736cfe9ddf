//! Matrix products.

use crate::error::{execution_error, Error, ErrorView};
use crate::float::{
    bits, computes, computes_all, do_plus, do_times, eq, equal, leaves, lemma_leaves, plus, times,
    Float, Fx, ZERO,
};
use crate::kernels::movement::{lemma_numel_2, lemma_numel_3, lemma_row_major};
use crate::kernels::reduce::{
    by_rows, lemma_row_within, part_of, push_row, row, rows_done,
};
use crate::kernels::rows::sum_seq;
use crate::shape::{fits, Shape};
use crate::sym::{
    fails, misfit, misfit_error, not_single, not_single_error, product_failed, realized,
    yields, yields_with_products, Outcome,
};
use crate::tensor::{AnyData, DataView, Tensor, TensorView};
use crate::text::{bracketed, push_bracketed};
use vstd::arithmetic::mul::*;
use vstd::prelude::*;
use vstd::string::*;

verus! {

/// The entries of the product of an `m` by `k` and a `k` by `n` matrix.
pub open spec fn dot_exprs(m: usize, k: usize, n: usize, a: Seq<Fx>, b: Seq<Fx>) -> Seq<Fx> {
    Seq::new((m * n) as nat, |i: int| Fx::Dot { m, k, n, a, b, at: i })
}

/// The product of two matrices, computed by the host as a whole.
pub(crate) fn product<F: Float>(
    f: &F,
    m: usize,
    k: usize,
    n: usize,
    a: &Vec<u32>,
    b: &Vec<u32>,
    Ghost(ea): Ghost<Seq<Fx>>,
    Ghost(eb): Ghost<Seq<Fx>>,
) -> (r: Result<Vec<u32>, Error>)
    requires
        m * n <= usize::MAX,
        computes_all(*f, ea, a@),
        computes_all(*f, eb, b@),
    ensures
        match r {
            Ok(v) => computes_all(*f, dot_exprs(m, k, n, ea, eb), v@),
            Err(e) => product_failed(*f) && e@ == ErrorView::ExecutionError(
                "Matrix product has the wrong size"@,
            ),
        },
{
    let out: Vec<u32> = f.dot(m, k, n, a, b);
    proof {
        assert(call_ensures(F::dot, (f, m, k, n, a, b), out));
    }
    if out.len() != m * n {
        return Err(execution_error("Matrix product has the wrong size"));
    }
    proof {
        let es = dot_exprs(m, k, n, ea, eb);
        assert forall|i: int| 0 <= i < es.len() implies computes(
            *f,
            es[i],
            #[trigger] out@[i],
        ) by {
            assert(call_ensures(F::dot, (f, m, k, n, a, b), out));
        }
    }
    Ok(out)
}

/// The message for factors that do not fit together.
pub open spec fn matmul_mismatch(a: Seq<usize>, b: Seq<usize>) -> Seq<char> {
    "MatMul shape mismatch: "@ + bracketed(a) + " and "@ + bracketed(b)
}

/// What a matrix product yields.
pub open spec fn matmul_outcome(x: TensorView, y: TensorView) -> Outcome {
    if x.shape.len() != 2 || y.shape.len() != 2 || x.shape[1] != y.shape[0] {
        Outcome::Fails(ErrorView::ShapeMismatch(matmul_mismatch(x.shape, y.shape)))
    } else if x.shape[0] * y.shape[1] > usize::MAX {
        misfit()
    } else {
        match (x.data, y.data) {
            (DataView::F32(a), DataView::F32(b)) => yields_with_products(
                seq![x.shape[0], y.shape[1]],
                dot_exprs(x.shape[0], x.shape[1], y.shape[1], leaves(a), leaves(b)),
            ),
            _ => not_single(),
        }
    }
}

/// The product of two matrices.
pub fn matmul<F: Float>(f: &F, lhs: &Tensor, rhs: &Tensor) -> (r: Result<Tensor, Error>)
    requires
        lhs.wf(),
        rhs.wf(),
    ensures
        realized(*f, matmul_outcome(lhs@, rhs@), r),
{
    let ls: &Vec<usize> = &lhs.shape.dims;
    let rs: &Vec<usize> = &rhs.shape.dims;
    if ls.len() != 2 || rs.len() != 2 || ls[1] != rs[0] {
        let mut message = String::new();
        message.append("MatMul shape mismatch: ");
        push_bracketed(&mut message, ls);
        message.append(" and ");
        push_bracketed(&mut message, rs);
        proof {
            assert(message@ =~= matmul_mismatch(lhs@.shape, rhs@.shape));
        }
        return Err(Error::ShapeMismatch(message));
    }
    let m: usize = ls[0];
    let k: usize = ls[1];
    let n: usize = rs[1];
    if m.checked_mul(n).is_none() {
        return Err(misfit_error());
    }
    match (&lhs.data, &rhs.data) {
        (AnyData::F32(a), AnyData::F32(b)) => {
            proof {
                lemma_leaves(*f, a@);
                lemma_leaves(*f, b@);
                lemma_numel_2(m, n);
            }
            match product(f, m, k, n, a, b, Ghost(leaves(a@)), Ghost(leaves(b@))) {
                Ok(out) => {
                    let shape = Shape::new(vec![m, n]);
                    proof {
                        assert(shape@ =~= seq![m, n]);
                    }
                    Ok(Tensor::new(out, shape))
                },
                Err(e) => Err(e),
            }
        },
        _ => Err(not_single_error()),
    }
}

/// The products of the matrices of two batches.
pub open spec fn batch_products(a: Seq<u32>, b: Seq<u32>, m: usize, k: usize, n: usize) -> spec_fn(
    int,
) -> Seq<Fx> {
    |i: int| dot_exprs(m, k, n, leaves(row(a, m * k, i)), leaves(row(b, k * n, i)))
}

/// What a batched matrix product yields.
pub open spec fn batched_matmul_outcome(x: TensorView, y: TensorView) -> Outcome {
    if x.shape.len() != 3 || y.shape.len() != 3 {
        fails("BatchedMatMul inputs must be 3D"@)
    } else {
        let (b, m, k, n) = (x.shape[0], x.shape[1], x.shape[2], y.shape[2]);
        if m * n > usize::MAX || b * (m * n) > usize::MAX || y.data.len() < b * (k * n) {
            misfit()
        } else {
            match (x.data, y.data) {
                (DataView::F32(p), DataView::F32(q)) => yields_with_products(
                    seq![b, m, n],
                    by_rows((b * (m * n)) as nat, (m * n) as nat, batch_products(p, q, m, k, n)),
                ),
                _ => if b == 0 {
                    yields(seq![b, m, n], Seq::empty())
                } else {
                    not_single()
                },
            }
        }
    }
}

/// The product of every pair of matrices of two batches.
pub fn batched_matmul<F: Float>(f: &F, lhs: &Tensor, rhs: &Tensor) -> (r: Result<Tensor, Error>)
    requires
        lhs.wf(),
        rhs.wf(),
    ensures
        realized(*f, batched_matmul_outcome(lhs@, rhs@), r),
{
    let ls: &Vec<usize> = &lhs.shape.dims;
    let rs: &Vec<usize> = &rhs.shape.dims;
    if ls.len() != 3 || rs.len() != 3 {
        return Err(execution_error("BatchedMatMul inputs must be 3D"));
    }
    let b: usize = ls[0];
    let m: usize = ls[1];
    let k: usize = ls[2];
    let n: usize = rs[2];
    let size: usize = match m.checked_mul(n) {
        Some(v) => v,
        None => {
            return Err(misfit_error());
        },
    };
    if b.checked_mul(size).is_none() {
        return Err(misfit_error());
    }
    proof {
        lemma_mul_nonnegative(k as int, n as int);
        if k * n > usize::MAX && b > 0 {
            assert(b * (k * n) >= k * n) by (nonlinear_arith)
                requires
                    b > 0,
                    k * n >= 0,
            ;
        }
        if b == 0 {
            lemma_mul_basics((k * n) as int);
        }
    }
    let count: usize = crate::kernels::reduce::count_of(rhs);
    if b > 0 {
        match k.checked_mul(n) {
            Some(s) => match b.checked_mul(s) {
                Some(t) => {
                    if count < t {
                        return Err(misfit_error());
                    }
                },
                None => {
                    return Err(misfit_error());
                },
            },
            None => {
                return Err(misfit_error());
            },
        }
    }
    match (&lhs.data, &rhs.data) {
        (AnyData::F32(p), AnyData::F32(q)) => {
            let ghost of = batch_products(p@, q@, m, k, n);
            proof {
                assert(lhs@.shape =~= seq![b, m, k]);
                lemma_numel_3(b, m, k);
                lemma_numel_3(b, m, n);
                lemma_mul_basics(size as int);
            }
            let psize: usize = p.len();
            let qsize: usize = q.len();
            let mut out: Vec<u32> = Vec::new();
            for i in 0..b
                invariant
                    size == m * n,
                    m * k <= usize::MAX,
                    k * n <= usize::MAX || b == 0,
                    psize == p@.len() == b * (m * k),
                    qsize == q@.len() >= b * (k * n),
                    of == batch_products(p@, q@, m, k, n),
                    batched_matmul_outcome(lhs@, rhs@) matches Outcome::Yields(_, true),
                    out@.len() == i * size,
                    rows_done(*f, size as nat, of, out@),
            {
                proof {
                    lemma_row_within(i as int, b as int, m * k);
                    lemma_row_within(i as int, b as int, k * n);
                }
                let x = part_of(p, i * (m * k), m * k);
                let y = part_of(q, i * (k * n), k * n);
                proof {
                    lemma_leaves(*f, x@);
                    lemma_leaves(*f, y@);
                }
                match product(f, m, k, n, &x, &y, Ghost(leaves(x@)), Ghost(leaves(y@))) {
                    Ok(done) => {
                        push_row(f, &mut out, &done, i, size, Ghost(of));
                    },
                    Err(e) => {
                        return Err(e);
                    },
                }
            }
            let shape = Shape::new(vec![b, m, n]);
            proof {
                assert(shape@ =~= seq![b, m, n]);
            }
            Ok(Tensor::new(out, shape))
        },
        _ => {
            if b > 0 {
                return Err(not_single_error());
            }
            let shape = Shape::new(vec![b, m, n]);
            proof {
                assert(shape@ =~= seq![b, m, n]);
                lemma_numel_3(b, m, n);
            }
            Ok(Tensor::new(Vec::new(), shape))
        },
    }
}

/// Where entry (`i`, `j`) of a stored matrix stands; a transposed matrix is
/// stored by columns.
pub open spec fn entry(trans: bool, ld: int, i: int, j: int) -> int {
    if trans {
        j * ld + i
    } else {
        i * ld + j
    }
}

/// The products that make up entry (`i`, `j`) of a matrix product.
pub open spec fn gemm_terms(
    trans_a: bool,
    trans_b: bool,
    k: nat,
    a: Seq<Fx>,
    lda: int,
    b: Seq<Fx>,
    ldb: int,
    i: int,
    j: int,
) -> Seq<Fx> {
    Seq::new(k, |t: int| times(a[entry(trans_a, lda, i, t)], b[entry(trans_b, ldb, t, j)]))
}

/// `alpha * sum + beta * c`, without the second part where `beta` is zero.
pub open spec fn gemm_combine(alpha: u32, sum: Fx, beta: u32, c: Fx) -> Fx {
    if equal(beta, ZERO) {
        times(bits(alpha), sum)
    } else {
        plus(times(bits(alpha), sum), times(bits(beta), c))
    }
}

/// Every entry of a stored `rows` by `cols` matrix stands within `len`
/// numbers.
pub open spec fn stored(trans: bool, ld: int, rows: int, cols: int, len: int) -> bool {
    forall|i: int, j: int|
        0 <= i < rows && 0 <= j < cols ==> 0 <= #[trigger] entry(trans, ld, i, j) < len
}

/// The sizes of a general matrix product.
#[derive(Debug, Clone, Copy)]
pub struct Gemm {
    pub trans_a: bool,
    pub trans_b: bool,
    pub m: usize,
    pub n: usize,
    pub k: usize,
    pub alpha: u32,
    pub lda: usize,
    pub ldb: usize,
    pub beta: u32,
    pub ldc: usize,
}

impl Gemm {
    /// The operands hold every entry, and the rows of the result do not
    /// overlap.
    pub open spec fn fits(self, a: int, b: int, c: int) -> bool {
        &&& stored(self.trans_a, self.lda as int, self.m as int, self.k as int, a)
        &&& stored(self.trans_b, self.ldb as int, self.k as int, self.n as int, b)
        &&& stored(false, self.ldc as int, self.m as int, self.n as int, c)
        &&& self.ldc >= self.n
    }

    /// Where entry (`i`, `j`) of the result stands.
    pub open spec fn at(self, i: int, j: int) -> int {
        entry(false, self.ldc as int, i, j)
    }

    /// Entry (`i`, `j`) of the result.
    pub open spec fn value(self, a: Seq<Fx>, b: Seq<Fx>, c: Seq<Fx>, i: int, j: int) -> Fx {
        gemm_combine(
            self.alpha,
            sum_seq(
                gemm_terms(
                    self.trans_a,
                    self.trans_b,
                    self.k as nat,
                    a,
                    self.lda as int,
                    b,
                    self.ldb as int,
                    i,
                    j,
                ),
            ),
            self.beta,
            c[self.at(i, j)],
        )
    }

    /// Position `p` belongs to the result.
    pub open spec fn covers(self, p: int) -> bool {
        exists|i: int, j: int| 0 <= i < self.m && 0 <= j < self.n && p == #[trigger] self.at(i, j)
    }

    /// Every entry of the result is computed, and nothing else is changed.
    pub open spec fn done<F: Float>(
        self,
        f: F,
        a: Seq<Fx>,
        b: Seq<Fx>,
        c: Seq<Fx>,
        before: Seq<u32>,
        after: Seq<u32>,
    ) -> bool {
        &&& after.len() == before.len()
        &&& forall|i: int, j: int|
            0 <= i < self.m && 0 <= j < self.n ==> computes(
                f,
                self.value(a, b, c, i, j),
                after[#[trigger] self.at(i, j)],
            )
        &&& forall|p: int|
            0 <= p < before.len() && !self.covers(p) ==> #[trigger] after[p] == before[p]
    }

    /// The entries before (`r`, `s`) are computed, the others are as before.
    spec fn reached<F: Float>(
        self,
        f: F,
        a: Seq<Fx>,
        b: Seq<Fx>,
        c: Seq<Fx>,
        before: Seq<u32>,
        after: Seq<u32>,
        r: int,
        s: int,
    ) -> bool {
        &&& after.len() == before.len()
        &&& forall|i: int, j: int|
            0 <= i < self.m && 0 <= j < self.n ==> if i < r || (i == r && j < s) {
                computes(f, self.value(a, b, c, i, j), after[#[trigger] self.at(i, j)])
            } else {
                after[self.at(i, j)] == before[self.at(i, j)]
            }
        &&& forall|p: int|
            0 <= p < before.len() && !self.covers(p) ==> #[trigger] after[p] == before[p]
    }
}

/// Different entries of the result stand at different places.
proof fn lemma_entries_distinct(g: Gemm, i: int, j: int, r: int, s: int)
    requires
        0 <= i < g.m,
        0 <= r < g.m,
        0 <= j < g.n,
        0 <= s < g.n,
        g.ldc >= g.n,
        g.at(i, j) == g.at(r, s),
    ensures
        i == r,
        j == s,
{
    lemma_row_major(i, j, g.m as int, g.ldc as int);
    lemma_row_major(r, s, g.m as int, g.ldc as int);
}

/// One entry of a matrix product before it is combined with the result.
fn gemm_sum<F: Float>(
    f: &F,
    g: &Gemm,
    a: &Vec<u32>,
    b: &Vec<u32>,
    i: usize,
    j: usize,
    Ghost(ea): Ghost<Seq<Fx>>,
    Ghost(eb): Ghost<Seq<Fx>>,
) -> (r: u32)
    requires
        stored(g.trans_a, g.lda as int, g.m as int, g.k as int, a@.len() as int),
        stored(g.trans_b, g.ldb as int, g.k as int, g.n as int, b@.len() as int),
        i < g.m,
        j < g.n,
        computes_all(*f, ea, a@),
        computes_all(*f, eb, b@),
    ensures
        computes(
            *f,
            sum_seq(
                gemm_terms(
                    g.trans_a,
                    g.trans_b,
                    g.k as nat,
                    ea,
                    g.lda as int,
                    eb,
                    g.ldb as int,
                    i as int,
                    j as int,
                ),
            ),
            r,
        ),
{
    let asize: usize = a.len();
    let bsize: usize = b.len();
    let mut sum: u32 = ZERO;
    for t in 0..g.k
        invariant
            asize == a@.len(),
            bsize == b@.len(),
            stored(g.trans_a, g.lda as int, g.m as int, g.k as int, asize as int),
            stored(g.trans_b, g.ldb as int, g.k as int, g.n as int, bsize as int),
            i < g.m,
            j < g.n,
            computes_all(*f, ea, a@),
            computes_all(*f, eb, b@),
            computes(
                *f,
                sum_seq(
                    gemm_terms(
                        g.trans_a,
                        g.trans_b,
                        t as nat,
                        ea,
                        g.lda as int,
                        eb,
                        g.ldb as int,
                        i as int,
                        j as int,
                    ),
                ),
                sum,
            ),
    {
        let ghost pa = entry(g.trans_a, g.lda as int, i as int, t as int);
        let ghost pb = entry(g.trans_b, g.ldb as int, t as int, j as int);
        proof {
            assert(0 <= pa < asize);
            assert(0 <= pb < bsize);
            lemma_mul_nonnegative(i as int, g.lda as int);
            lemma_mul_nonnegative(t as int, g.lda as int);
            lemma_mul_nonnegative(t as int, g.ldb as int);
            lemma_mul_nonnegative(j as int, g.ldb as int);
        }
        let x: u32 = if g.trans_a {
            a[t * g.lda + i]
        } else {
            a[i * g.lda + t]
        };
        let y: u32 = if g.trans_b {
            b[j * g.ldb + t]
        } else {
            b[t * g.ldb + j]
        };
        proof {
            assert(x == a@[pa] && y == b@[pb]);
        }
        let p: u32 = do_times(f, x, y, Ghost(ea[pa]), Ghost(eb[pb]));
        let ghost before = gemm_terms(
            g.trans_a,
            g.trans_b,
            t as nat,
            ea,
            g.lda as int,
            eb,
            g.ldb as int,
            i as int,
            j as int,
        );
        sum = do_plus(f, sum, p, Ghost(sum_seq(before)), Ghost(times(ea[pa], eb[pb])));
        proof {
            let after = gemm_terms(
                g.trans_a,
                g.trans_b,
                (t + 1) as nat,
                ea,
                g.lda as int,
                eb,
                g.ldb as int,
                i as int,
                j as int,
            );
            assert(after.drop_last() =~= before);
            assert(after.last() == times(ea[pa], eb[pb]));
        }
    }
    sum
}

/// A general matrix product on evaluated expressions.
pub(crate) fn gemm<F: Float>(
    f: &F,
    g: &Gemm,
    a: &Vec<u32>,
    b: &Vec<u32>,
    c: &mut Vec<u32>,
    Ghost(ea): Ghost<Seq<Fx>>,
    Ghost(eb): Ghost<Seq<Fx>>,
    Ghost(ec): Ghost<Seq<Fx>>,
)
    requires
        g.fits(a@.len() as int, b@.len() as int, old(c)@.len() as int),
        computes_all(*f, ea, a@),
        computes_all(*f, eb, b@),
        computes_all(*f, ec, old(c)@),
    ensures
        g.done(*f, ea, eb, ec, old(c)@, final(c)@),
{
    let ghost before = c@;
    let csize: usize = c.len();
    let plain: bool = eq(g.beta, ZERO);
    for i in 0..g.m
        invariant
            csize == before.len(),
            before == old(c)@,
            plain == equal(g.beta, ZERO),
            g.fits(a@.len() as int, b@.len() as int, csize as int),
            computes_all(*f, ea, a@),
            computes_all(*f, eb, b@),
            computes_all(*f, ec, before),
            g.reached(*f, ea, eb, ec, before, c@, i as int, 0),
    {
        for j in 0..g.n
            invariant
                i < g.m,
                csize == before.len(),
                plain == equal(g.beta, ZERO),
                g.fits(a@.len() as int, b@.len() as int, csize as int),
                computes_all(*f, ea, a@),
                computes_all(*f, eb, b@),
                computes_all(*f, ec, before),
                g.reached(*f, ea, eb, ec, before, c@, i as int, j as int),
        {
            let ghost p = g.at(i as int, j as int);
            let ghost c0 = c@;
            proof {
                assert(0 <= entry(false, g.ldc as int, i as int, j as int) < csize);
                lemma_mul_nonnegative(i as int, g.ldc as int);
                assert(c@[g.at(i as int, j as int)] == before[g.at(i as int, j as int)]);
                assert(computes(*f, ec[p], before[p]));
            }
            let at: usize = i * g.ldc + j;
            let sum: u32 = gemm_sum(f, g, a, b, i, j, Ghost(ea), Ghost(eb));
            let ghost es = sum_seq(
                gemm_terms(
                    g.trans_a,
                    g.trans_b,
                    g.k as nat,
                    ea,
                    g.lda as int,
                    eb,
                    g.ldb as int,
                    i as int,
                    j as int,
                ),
            );
            let scaled: u32 = do_times(f, g.alpha, sum, Ghost(bits(g.alpha)), Ghost(es));
            let v: u32 = if plain {
                scaled
            } else {
                let kept: u32 = do_times(f, g.beta, c[at], Ghost(bits(g.beta)), Ghost(ec[p]));
                do_plus(
                    f,
                    scaled,
                    kept,
                    Ghost(times(bits(g.alpha), es)),
                    Ghost(times(bits(g.beta), ec[p])),
                )
            };
            c.set(at, v);
            proof {
                assert(computes(*f, g.value(ea, eb, ec, i as int, j as int), v));
                assert forall|r: int, s: int| 0 <= r < g.m && 0 <= s < g.n implies if r < i || (r
                    == i && s < j + 1) {
                    computes(*f, g.value(ea, eb, ec, r, s), c@[#[trigger] g.at(r, s)])
                } else {
                    c@[g.at(r, s)] == before[g.at(r, s)]
                } by {
                    assert(0 <= entry(false, g.ldc as int, r, s) < csize);
                    if g.at(r, s) == at {
                        lemma_entries_distinct(*g, r, s, i as int, j as int);
                    } else {
                        assert(c@[g.at(r, s)] == c0[g.at(r, s)]);
                    }
                }
                assert forall|q: int| 0 <= q < before.len() && !g.covers(q) implies
                    #[trigger] c@[q] == before[q] by {
                    if q == at {
                        assert(q == g.at(i as int, j as int));
                    }
                    assert(c0[q] == before[q]);
                }
            }
        }
    }
}

/// `C = alpha * op(A) * op(B) + beta * C` for row-major matrices, where `op`
/// transposes on request and `C` is read only where `beta` is not zero.
pub fn sgemm<F: Float>(
    f: &F,
    trans_a: bool,
    trans_b: bool,
    m: usize,
    n: usize,
    k: usize,
    alpha: u32,
    a: &Vec<u32>,
    lda: usize,
    b: &Vec<u32>,
    ldb: usize,
    beta: u32,
    c: &mut Vec<u32>,
    ldc: usize,
)
    requires
        (Gemm { trans_a, trans_b, m, n, k, alpha, lda, ldb, beta, ldc }).fits(
            a@.len() as int,
            b@.len() as int,
            old(c)@.len() as int,
        ),
    ensures
        (Gemm { trans_a, trans_b, m, n, k, alpha, lda, ldb, beta, ldc }).done(
            *f,
            leaves(a@),
            leaves(b@),
            leaves(old(c)@),
            old(c)@,
            final(c)@,
        ),
{
    let g = Gemm { trans_a, trans_b, m, n, k, alpha, lda, ldb, beta, ldc };
    proof {
        lemma_leaves(*f, a@);
        lemma_leaves(*f, b@);
        lemma_leaves(*f, c@);
    }
    gemm(f, &g, a, b, c, Ghost(leaves(a@)), Ghost(leaves(b@)), Ghost(leaves(old(c)@)))
}

} // verus!
