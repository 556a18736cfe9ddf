//! Scaled dot-product attention and its gradients.

use crate::blas::{dot_exprs, product};
use crate::error::{execution_error, Error, ErrorView};
use crate::float::{
    bits, computes, computes_all, do_times, leaves, lemma_leaves, times, Float, Fx, NEG_ZERO,
};
use crate::kernels::movement::{lemma_row_major, lemma_split};
use crate::kernels::reduce::{
    by_rows, count_of, lemma_row_within, part_of, push_row, row, rows_done,
};
use crate::kernels::rows::{
    softmax_grad_row, softmax_grad_vec, softmax_row, softmax_vec,
};
use crate::sym::{
    fails, misfit, misfit_error, not_single, not_single_error, product_failed, realized,
    yields, yields_with_products, Outcome,
};
use crate::tensor::{AnyData, DataView, Tensor, TensorView};
use vstd::arithmetic::div_mod::*;
use vstd::arithmetic::mul::*;
use vstd::prelude::*;

verus! {

/// The transpose of an `m` by `n` matrix of expressions.
pub open spec fn flipped(es: Seq<Fx>, m: int, n: int) -> Seq<Fx> {
    Seq::new((m * n) as nat, |i: int| es[(i % m) * n + i / m])
}

/// Every expression of a list times a number.
pub open spec fn scaled(es: Seq<Fx>, scale: u32) -> Seq<Fx> {
    Seq::new(es.len(), |i: int| times(es[i], bits(scale)))
}

/// Row `r` of a matrix of expressions.
pub open spec fn fx_row(es: Seq<Fx>, cols: int, r: int) -> Seq<Fx> {
    es.subrange(r * cols, r * cols + cols)
}

/// The softmax of the rows of a matrix with `n` columns.
pub open spec fn soft_row_of(es: Seq<Fx>, n: int) -> spec_fn(int) -> Seq<Fx> {
    |r: int| softmax_row(NEG_ZERO, fx_row(es, n, r))
}

/// The gradient of the softmax of every row of an `n` by `n` matrix.
pub open spec fn soft_grad_rows(s: Seq<Fx>, d: Seq<Fx>, n: int) -> Seq<Fx> {
    by_rows((n * n) as nat, n as nat, soft_grad_row_of(s, d, n))
}

/// The rows of [`soft_grad_rows`].
pub open spec fn soft_grad_row_of(s: Seq<Fx>, d: Seq<Fx>, n: int) -> spec_fn(int) -> Seq<Fx> {
    |r: int| softmax_grad_row(fx_row(s, n, r), fx_row(d, n, r))
}

/// The attention weights of `s` queries on `s` keys of width `d`: the softmax
/// of the scaled products.
pub open spec fn attention_weights(
    q: Seq<Fx>,
    k: Seq<Fx>,
    s: usize,
    d: usize,
    scale: u32,
) -> Seq<Fx> {
    by_rows(
        (s * s) as nat,
        s as nat,
        soft_row_of(
            scaled(dot_exprs(s, d, s, q, flipped(k, s as int, d as int)), scale),
            s as int,
        ),
    )
}

/// The attention of one sequence: the weighted sums of the values.
pub open spec fn attended(
    q: Seq<Fx>,
    k: Seq<Fx>,
    v: Seq<Fx>,
    s: usize,
    d: usize,
    scale: u32,
) -> Seq<Fx> {
    dot_exprs(s, s, d, attention_weights(q, k, s, d, scale), v)
}

/// The gradient of the scaled products of one sequence.
pub open spec fn score_grad(
    dy: Seq<Fx>,
    q: Seq<Fx>,
    k: Seq<Fx>,
    v: Seq<Fx>,
    s: usize,
    d: usize,
    scale: u32,
) -> Seq<Fx> {
    scaled(
        soft_grad_rows(
            attention_weights(q, k, s, d, scale),
            dot_exprs(s, d, s, dy, flipped(v, s as int, d as int)),
            s as int,
        ),
        scale,
    )
}

/// Transposes a matrix of evaluated expressions.
fn flip<F: Float>(f: &F, v: &Vec<u32>, m: usize, n: usize, Ghost(es): Ghost<Seq<Fx>>) -> (out: Vec<
    u32,
>)
    requires
        v@.len() == m * n,
        computes_all(*f, es, v@),
    ensures
        computes_all(*f, flipped(es, m as int, n as int), out@),
{
    let out = crate::kernels::movement::transpose_data(v, m, n);
    proof {
        let fs = flipped(es, m as int, n as int);
        assert forall|i: int| 0 <= i < fs.len() implies computes(*f, fs[i], #[trigger] out@[i]) by {
            lemma_mul_is_commutative(m as int, n as int);
            lemma_split(i, n as int, m as int);
            lemma_row_major(i % m as int, i / m as int, m as int, n as int);
            let p = (i % m as int) * n + i / m as int;
            assert(computes(*f, es[p], v@[p]));
        }
    }
    out
}

/// Multiplies every number of a list.
fn scale_all<F: Float>(f: &F, v: &Vec<u32>, scale: u32, Ghost(es): Ghost<Seq<Fx>>) -> (out: Vec<
    u32,
>)
    requires
        computes_all(*f, es, v@),
    ensures
        computes_all(*f, scaled(es, scale), out@),
{
    let mut out: Vec<u32> = Vec::new();
    for i in 0..v.len()
        invariant
            computes_all(*f, es, v@),
            out@.len() == i,
            forall|j: int| 0 <= j < i ==> computes(*f, scaled(es, scale)[j], #[trigger] out@[j]),
    {
        proof {
            assert(computes(*f, es[i as int], v@[i as int]));
        }
        out.push(do_times(f, v[i], scale, Ghost(es[i as int]), Ghost(bits(scale))));
    }
    out
}

/// A row of evaluated expressions.
fn row_part<F: Float>(
    f: &F,
    v: &Vec<u32>,
    start: usize,
    n: usize,
    Ghost(es): Ghost<Seq<Fx>>,
) -> (out: Vec<u32>)
    requires
        start + n <= v@.len(),
        computes_all(*f, es, v@),
    ensures
        out@ == v@.subrange(start as int, start + n),
        computes_all(*f, es.subrange(start as int, start + n), out@),
{
    let out = part_of(v, start, n);
    proof {
        let sub = es.subrange(start as int, start + n);
        assert forall|i: int| 0 <= i < sub.len() implies computes(
            *f,
            sub[i],
            #[trigger] out@[i],
        ) by {
            assert(computes(*f, es[start + i], v@[start + i]));
        }
    }
    out
}

/// The softmax of every row of a square matrix.
fn soften<F: Float>(f: &F, v: &Vec<u32>, n: usize, Ghost(es): Ghost<Seq<Fx>>) -> (out: Vec<u32>)
    requires
        v@.len() == n * n,
        computes_all(*f, es, v@),
    ensures
        computes_all(*f, by_rows((n * n) as nat, n as nat, soft_row_of(es, n as int)), out@),
{
    let size: usize = v.len();
    let ghost of = soft_row_of(es, n as int);
    proof {
        lemma_mul_basics(n as int);
    }
    let mut out: Vec<u32> = Vec::new();
    for r in 0..n
        invariant
            size == v@.len() == n * n,
            computes_all(*f, es, v@),
            of == soft_row_of(es, n as int),
            out@.len() == r * n,
            rows_done(*f, n as nat, of, out@),
    {
        proof {
            lemma_row_within(r as int, n as int, n as int);
        }
        let part = row_part(f, v, r * n, n, Ghost(es));
        let ghost er = fx_row(es, n as int, r as int);
        let done = softmax_vec(f, NEG_ZERO, &part, Ghost(er));
        push_row(f, &mut out, &done, r, n, Ghost(of));
    }
    out
}

/// The gradient of the softmax of every row of a square matrix.
fn soften_grad<F: Float>(
    f: &F,
    s: &Vec<u32>,
    d: &Vec<u32>,
    n: usize,
    Ghost(es): Ghost<Seq<Fx>>,
    Ghost(ed): Ghost<Seq<Fx>>,
) -> (out: Vec<u32>)
    requires
        s@.len() == n * n,
        d@.len() == n * n,
        computes_all(*f, es, s@),
        computes_all(*f, ed, d@),
    ensures
        computes_all(*f, soft_grad_rows(es, ed, n as int), out@),
{
    let size: usize = s.len();
    let ghost of = soft_grad_row_of(es, ed, n as int);
    proof {
        lemma_mul_basics(n as int);
    }
    let mut out: Vec<u32> = Vec::new();
    for r in 0..n
        invariant
            size == s@.len() == d@.len() == n * n,
            computes_all(*f, es, s@),
            computes_all(*f, ed, d@),
            of == soft_grad_row_of(es, ed, n as int),
            out@.len() == r * n,
            rows_done(*f, n as nat, of, out@),
    {
        proof {
            lemma_row_within(r as int, n as int, n as int);
        }
        let ps = row_part(f, s, r * n, n, Ghost(es));
        let pd = row_part(f, d, r * n, n, Ghost(ed));
        let done = softmax_grad_vec(
            f,
            &ps,
            &pd,
            Ghost(fx_row(es, n as int, r as int)),
            Ghost(fx_row(ed, n as int, r as int)),
        );
        push_row(f, &mut out, &done, r, n, Ghost(of));
    }
    out
}

/// The result is what a list of expressions evaluates to, or the error of a
/// matrix product of the wrong size.
pub open spec fn block_done<F: Float>(f: F, es: Seq<Fx>, r: Result<Vec<u32>, Error>) -> bool {
    match r {
        Ok(v) => computes_all(f, es, v@),
        Err(e) => product_failed(f) && e@ == ErrorView::ExecutionError(
            "Matrix product has the wrong size"@,
        ),
    }
}

/// The attention weights of one sequence.
fn weights<F: Float>(
    f: &F,
    q: &Vec<u32>,
    k: &Vec<u32>,
    s: usize,
    d: usize,
    scale: u32,
    Ghost(eq): Ghost<Seq<Fx>>,
    Ghost(ek): Ghost<Seq<Fx>>,
) -> (r: Result<Vec<u32>, Error>)
    requires
        k@.len() == s * d,
        s * s <= usize::MAX,
        computes_all(*f, eq, q@),
        computes_all(*f, ek, k@),
    ensures
        block_done(*f, attention_weights(eq, ek, s, d, scale), r),
{
    let kt = flip(f, k, s, d, Ghost(ek));
    let ghost ekt = flipped(ek, s as int, d as int);
    let a: Vec<u32> = match product(f, s, d, s, q, &kt, Ghost(eq), Ghost(ekt)) {
        Ok(v) => v,
        Err(e) => {
            return Err(e);
        },
    };
    let ghost ea = dot_exprs(s, d, s, eq, ekt);
    let b = scale_all(f, &a, scale, Ghost(ea));
    let out = soften(f, &b, s, Ghost(scaled(ea, scale)));
    Ok(out)
}

/// The attention of one sequence.
fn attend<F: Float>(
    f: &F,
    q: &Vec<u32>,
    k: &Vec<u32>,
    v: &Vec<u32>,
    s: usize,
    d: usize,
    scale: u32,
    Ghost(eq): Ghost<Seq<Fx>>,
    Ghost(ek): Ghost<Seq<Fx>>,
    Ghost(ev): Ghost<Seq<Fx>>,
) -> (r: Result<Vec<u32>, Error>)
    requires
        k@.len() == s * d,
        s * s <= usize::MAX,
        s * d <= usize::MAX,
        computes_all(*f, eq, q@),
        computes_all(*f, ek, k@),
        computes_all(*f, ev, v@),
    ensures
        block_done(*f, attended(eq, ek, ev, s, d, scale), r),
{
    match weights(f, q, k, s, d, scale, Ghost(eq), Ghost(ek)) {
        Ok(w) => product(
            f,
            s,
            s,
            d,
            &w,
            v,
            Ghost(attention_weights(eq, ek, s, d, scale)),
            Ghost(ev),
        ),
        Err(e) => Err(e),
    }
}

/// The gradient of the scaled products of one sequence.
fn score_gradient<F: Float>(
    f: &F,
    dy: &Vec<u32>,
    q: &Vec<u32>,
    k: &Vec<u32>,
    v: &Vec<u32>,
    s: usize,
    d: usize,
    scale: u32,
    Ghost(ed): Ghost<Seq<Fx>>,
    Ghost(eq): Ghost<Seq<Fx>>,
    Ghost(ek): Ghost<Seq<Fx>>,
    Ghost(ev): Ghost<Seq<Fx>>,
) -> (r: Result<Vec<u32>, Error>)
    requires
        k@.len() == s * d,
        v@.len() == s * d,
        s * s <= usize::MAX,
        computes_all(*f, ed, dy@),
        computes_all(*f, eq, q@),
        computes_all(*f, ek, k@),
        computes_all(*f, ev, v@),
    ensures
        block_done(*f, score_grad(ed, eq, ek, ev, s, d, scale), r),
{
    let w: Vec<u32> = match weights(f, q, k, s, d, scale, Ghost(eq), Ghost(ek)) {
        Ok(w) => w,
        Err(e) => {
            return Err(e);
        },
    };
    let ghost ew = attention_weights(eq, ek, s, d, scale);
    let vt = flip(f, v, s, d, Ghost(ev));
    let ghost evt = flipped(ev, s as int, d as int);
    let ds: Vec<u32> = match product(f, s, d, s, dy, &vt, Ghost(ed), Ghost(evt)) {
        Ok(x) => x,
        Err(e) => {
            return Err(e);
        },
    };
    let ghost eds = dot_exprs(s, d, s, ed, evt);
    let g = soften_grad(f, &w, &ds, s, Ghost(ew), Ghost(eds));
    let out = scale_all(f, &g, scale, Ghost(soft_grad_rows(ew, eds, s as int)));
    Ok(out)
}

/// What is computed of an attention.
#[derive(Debug, Clone, Copy, PartialEq, Eq, Structural)]
pub enum AttentionPart {
    /// The attention itself.
    Forward,
    /// The gradient with respect to the queries.
    GradQ,
    /// The gradient with respect to the keys.
    GradK,
    /// The gradient with respect to the values.
    GradV,
}

/// One sequence of an attention or of one of its gradients.
pub open spec fn attention_block(
    part: AttentionPart,
    dy: Seq<Fx>,
    q: Seq<Fx>,
    k: Seq<Fx>,
    v: Seq<Fx>,
    s: usize,
    d: usize,
    scale: u32,
) -> Seq<Fx> {
    match part {
        AttentionPart::Forward => attended(q, k, v, s, d, scale),
        AttentionPart::GradQ => dot_exprs(s, s, d, score_grad(dy, q, k, v, s, d, scale), k),
        AttentionPart::GradK => dot_exprs(
            s,
            s,
            d,
            flipped(score_grad(dy, q, k, v, s, d, scale), s as int, s as int),
            q,
        ),
        AttentionPart::GradV => dot_exprs(
            s,
            s,
            d,
            flipped(attention_weights(q, k, s, d, scale), s as int, s as int),
            dy,
        ),
    }
}

/// The sequences of an attention or of one of its gradients.
pub open spec fn attention_blocks(
    part: AttentionPart,
    dy: Seq<u32>,
    q: Seq<u32>,
    k: Seq<u32>,
    v: Seq<u32>,
    s: usize,
    d: usize,
    scale: u32,
) -> spec_fn(int) -> Seq<Fx> {
    |i: int|
        attention_block(
            part,
            leaves(row(dy, s * d, i)),
            leaves(row(q, s * d, i)),
            leaves(row(k, s * d, i)),
            leaves(row(v, s * d, i)),
            s,
            d,
            scale,
        )
}

/// The operand that the result has the shape of.
pub open spec fn shaped_like(
    part: AttentionPart,
    q: TensorView,
    k: TensorView,
    v: TensorView,
) -> TensorView {
    match part {
        AttentionPart::Forward => q,
        AttentionPart::GradQ => q,
        AttentionPart::GradK => k,
        AttentionPart::GradV => v,
    }
}

/// The operand that is read for the values. The gradient with respect to the
/// values does not depend on them: `dy` is read in their place, to no effect.
pub open spec fn values_read(part: AttentionPart, dy: TensorView, v: TensorView) -> TensorView {
    if part == AttentionPart::GradV {
        dy
    } else {
        v
    }
}

/// What an attention or one of its gradients yields, for queries whose first
/// three axes are batch, sequence and width.
pub open spec fn attention_outcome(
    part: AttentionPart,
    dy: TensorView,
    q: TensorView,
    k: TensorView,
    v: TensorView,
    scale: u32,
) -> Outcome {
    if q.shape.len() < 3 {
        misfit()
    } else {
        let (b, s, d) = (q.shape[0], q.shape[1], q.shape[2]);
        let n = b * (s * d);
        let like = shaped_like(part, q, k, v);
        if b == 0 {
            if like.data.len() == 0 {
                yields(like.shape, Seq::empty())
            } else {
                misfit()
            }
        } else if s * s > usize::MAX || s * d > usize::MAX || dy.data.len() < n || q.data.len() < n || k.data.len() < n || v.data.len() < n
            || like.data.len() != n {
            misfit()
        } else {
            match (dy.data, q.data, k.data, values_read(part, dy, v).data) {
                (
                    DataView::F32(dd),
                    DataView::F32(qd),
                    DataView::F32(kd),
                    DataView::F32(vd),
                ) => yields_with_products(
                    like.shape,
                    by_rows(
                        n as nat,
                        (s * d) as nat,
                        attention_blocks(part, dd, qd, kd, vd, s, d, scale),
                    ),
                ),
                _ => not_single(),
            }
        }
    }
}

/// What an attention yields.
pub open spec fn attention_forward_outcome(
    q: TensorView,
    k: TensorView,
    v: TensorView,
    scale: u32,
) -> Outcome {
    if q.shape.len() != 3 || k.shape.len() != 3 || v.shape.len() != 3 {
        fails("Attention inputs must be 3D [B, S, D]"@)
    } else {
        attention_outcome(AttentionPart::Forward, q, q, k, v, scale)
    }
}

/// One sequence of an attention or of one of its gradients.
fn block<F: Float>(
    f: &F,
    part: AttentionPart,
    dy: &Vec<u32>,
    q: &Vec<u32>,
    k: &Vec<u32>,
    v: &Vec<u32>,
    s: usize,
    d: usize,
    scale: u32,
) -> (r: Result<Vec<u32>, Error>)
    requires
        k@.len() == s * d,
        v@.len() == s * d,
        s * s <= usize::MAX,
        s * d <= usize::MAX,
    ensures
        block_done(
            *f,
            attention_block(
                part,
                leaves(dy@),
                leaves(q@),
                leaves(k@),
                leaves(v@),
                s,
                d,
                scale,
            ),
            r,
        ),
{
    let ghost ed = leaves(dy@);
    let ghost eq = leaves(q@);
    let ghost ek = leaves(k@);
    let ghost ev = leaves(v@);
    proof {
        lemma_leaves(*f, dy@);
        lemma_leaves(*f, q@);
        lemma_leaves(*f, k@);
        lemma_leaves(*f, v@);
    }
    match part {
        AttentionPart::Forward => attend(
            f,
            q,
            k,
            v,
            s,
            d,
            scale,
            Ghost(eq),
            Ghost(ek),
            Ghost(ev),
        ),
        AttentionPart::GradQ | AttentionPart::GradK => {
            let a: Vec<u32> = match score_gradient(
                f,
                dy,
                q,
                k,
                v,
                s,
                d,
                scale,
                Ghost(ed),
                Ghost(eq),
                Ghost(ek),
                Ghost(ev),
            ) {
                Ok(a) => a,
                Err(e) => {
                    return Err(e);
                },
            };
            let ghost ea = score_grad(ed, eq, ek, ev, s, d, scale);
            if part == AttentionPart::GradQ {
                product(f, s, s, d, &a, k, Ghost(ea), Ghost(ek))
            } else {
                let at = flip(f, &a, s, s, Ghost(ea));
                product(
                    f,
                    s,
                    s,
                    d,
                    &at,
                    q,
                    Ghost(flipped(ea, s as int, s as int)),
                    Ghost(eq),
                )
            }
        },
        AttentionPart::GradV => {
            let w: Vec<u32> = match weights(f, q, k, s, d, scale, Ghost(eq), Ghost(ek)) {
                Ok(w) => w,
                Err(e) => {
                    return Err(e);
                },
            };
            let ghost ew = attention_weights(eq, ek, s, d, scale);
            let wt = flip(f, &w, s, s, Ghost(ew));
            product(
                f,
                s,
                s,
                d,
                &wt,
                dy,
                Ghost(flipped(ew, s as int, s as int)),
                Ghost(ed),
            )
        },
    }
}

/// An attention or one of its gradients.
pub fn attention_part<F: Float>(
    f: &F,
    part: AttentionPart,
    dy: &Tensor,
    q: &Tensor,
    k: &Tensor,
    v: &Tensor,
    scale: u32,
) -> (r: Result<Tensor, Error>)
    requires
        dy.wf(),
        q.wf(),
        k.wf(),
        v.wf(),
    ensures
        realized(*f, attention_outcome(part, dy@, q@, k@, v@, scale), r),
{
    if q.shape.dims.len() < 3 {
        return Err(misfit_error());
    }
    let b: usize = q.shape.dims[0];
    let s: usize = q.shape.dims[1];
    let d: usize = q.shape.dims[2];
    let like: &Tensor = match part {
        AttentionPart::Forward => q,
        AttentionPart::GradQ => q,
        AttentionPart::GradK => k,
        AttentionPart::GradV => v,
    };
    if b == 0 {
        return if count_of(like) == 0 {
            Ok(Tensor::new(Vec::new(), like.shape.copy()))
        } else {
            Err(misfit_error())
        };
    }
    let held: usize = count_of(q);
    let size: usize = match s.checked_mul(d) {
        Some(v) => v,
        None => {
            return Err(misfit_error());
        },
    };
    let n: usize = match b.checked_mul(size) {
        Some(v) => v,
        None => {
            return Err(misfit_error());
        },
    };
    if s.checked_mul(s).is_none() || count_of(dy) < n || held < n || count_of(k) < n || count_of(v) < n
        || count_of(like) != n {
        return Err(misfit_error());
    }
    let values: &Tensor = if part == AttentionPart::GradV {
        dy
    } else {
        v
    };
    match (&dy.data, &q.data, &k.data, &values.data) {
        (AnyData::F32(dd), AnyData::F32(qd), AnyData::F32(kd), AnyData::F32(vd)) => {
            let ghost of = attention_blocks(part, dd@, qd@, kd@, vd@, s, d, scale);
            proof {
                lemma_mul_basics(size as int);
            }
            let mut out: Vec<u32> = Vec::new();
            for i in 0..b
                invariant
                    size == s * d,
                    s * s <= usize::MAX,
                    n == b * size,
                    dd@.len() >= n,
                    qd@.len() >= n,
                    kd@.len() >= n,
                    vd@.len() >= n,
                    of == attention_blocks(part, dd@, qd@, kd@, vd@, s, d, scale),
                    attention_outcome(part, dy@, q@, k@, v@, scale) matches Outcome::Yields(_, true),
                    out@.len() == i * size,
                    rows_done(*f, size as nat, of, out@),
            {
                proof {
                    lemma_row_within(i as int, b as int, size as int);
                }
                let pd = part_of(dd, i * size, size);
                let pq = part_of(qd, i * size, size);
                let pk = part_of(kd, i * size, size);
                let pv = part_of(vd, i * size, size);
                match block(f, part, &pd, &pq, &pk, &pv, s, d, scale) {
                    Ok(done) => {
                        push_row(f, &mut out, &done, i, size, Ghost(of));
                    },
                    Err(e) => {
                        return Err(e);
                    },
                }
            }
            Ok(Tensor::new(out, like.shape.copy()))
        },
        _ => Err(not_single_error()),
    }
}

/// Scaled dot-product attention.
pub fn attention<F: Float>(f: &F, q: &Tensor, k: &Tensor, v: &Tensor, scale: u32) -> (r: Result<
    Tensor,
    Error,
>)
    requires
        q.wf(),
        k.wf(),
        v.wf(),
    ensures
        realized(*f, attention_forward_outcome(q@, k@, v@, scale), r),
{
    if q.shape.dims.len() != 3 || k.shape.dims.len() != 3 || v.shape.dims.len() != 3 {
        return Err(execution_error("Attention inputs must be 3D [B, S, D]"));
    }
    attention_part(f, AttentionPart::Forward, q, q, k, v, scale)
}

} // verus!
