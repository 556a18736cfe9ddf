//! How kernels are launched: their uniform parameters, the number of
//! workgroups and the size of the result.
//!
//! Sizes are 32-bit numbers on the device. Where a size does not fit, there is
//! no plan.

use crate::shape::{checked_numel, fits, get_strides, numel, stride, Shape};
use vstd::prelude::*;

verus! {

/// A compute kernel.
#[allow(non_camel_case_types)]
#[derive(Debug, Clone, Copy, PartialEq, Eq, Structural)]
pub enum Kernel {
    Relu,
    Add,
    MatMul,
    TinyMatMul,
    MatMulRelu,
    MatMulAdd,
    MatMulAddRelu,
    MatMulQ8_0,
    MatMulQ4_K,
    BatchedMatMul,
    BatchedTranspose,
    MaxPool,
    AvgPool,
    MaxPoolGrad,
    AvgPoolGrad,
    DequantQ4_K,
    DequantQ5_K,
    DequantQ6_K,
    DequantQ8_0,
    SiluMul,
    Rope,
    Attention,
    Transpose,
    SumAll,
    SumDim,
    Softmax,
    SoftmaxGrad,
    RmsNorm,
    LayerNorm,
    ConcatCopy,
    Conv2d,
    Elementwise,
    Broadcast,
}

/// A kernel launch: the words of the uniform block, the workgroups along the
/// three axes and the number of elements of the result.
#[derive(Debug)]
pub struct Dispatch {
    pub kernel: Kernel,
    pub params: Vec<u32>,
    pub groups: (u32, u32, u32),
    pub output: usize,
}

/// The contents of a [`Dispatch`].
#[verifier::ext_equal]
pub struct DispatchView {
    pub kernel: Kernel,
    pub params: Seq<u32>,
    pub groups: (u32, u32, u32),
    pub output: nat,
}

impl View for Dispatch {
    type V = DispatchView;

    open spec fn view(&self) -> DispatchView {
        DispatchView {
            kernel: self.kernel,
            params: self.params@,
            groups: self.groups,
            output: self.output as nat,
        }
    }
}

/// The threads of a workgroup of a one-dimensional kernel.
pub const GROUP: u32 = 256;

/// The most workgroups along one axis.
pub const MAX_GROUPS: u32 = 65535;

/// The largest number of rows for which small matrix products are computed by
/// one thread per entry.
pub const TINY_ROWS: u32 = 32;

/// How many groups of `d` hold `n` items.
pub open spec fn up(n: nat, d: nat) -> nat {
    if n % d == 0 {
        n / d
    } else {
        n / d + 1
    }
}

/// The groups hold all items, and no group is empty.
pub proof fn law_groups_cover(n: nat, d: nat)
    requires
        d > 0,
    ensures
        up(n, d) * d >= n,
        n > 0 ==> (up(n, d) - 1) * d < n,
        up(n, d) <= n,
{
    assert(n == d * (n / d) + n % d) by (nonlinear_arith)
        requires
            d > 0,
    ;
    assert(0 <= n % d < d) by (nonlinear_arith)
        requires
            d > 0,
    ;
    assert((n / d + 1) * d == d * (n / d) + d) by (nonlinear_arith);
    assert((n / d) * d == d * (n / d)) by (nonlinear_arith);
    assert((n / d - 1) * d == d * (n / d) - d) by (nonlinear_arith);
    assert(n / d <= d * (n / d)) by (nonlinear_arith)
        requires
            d > 0,
            n / d >= 0,
    ;
}

/// How many groups of `d` hold `n` items.
pub fn div_up(n: u32, d: u32) -> (r: u32)
    requires
        d > 0,
    ensures
        r == up(n as nat, d as nat),
{
    proof {
        law_groups_cover(n as nat, d as nat);
    }
    if n % d == 0 {
        n / d
    } else {
        n / d + 1
    }
}

/// The product of a list.
pub open spec fn product(s: Seq<u32>) -> nat
    decreases s.len(),
{
    if s.len() == 0 {
        1
    } else {
        product(s.drop_last()) * s.last() as nat
    }
}

/// Multiplying from the left stays a 32-bit number.
pub open spec fn multiplies(s: Seq<u32>) -> bool
    decreases s.len(),
{
    s.len() > 0 ==> multiplies(s.drop_last()) && product(s) <= u32::MAX
}

/// The product of a list, multiplied from the left.
pub fn product_of(v: &Vec<u32>) -> (r: Option<u32>)
    ensures
        match r {
            Some(p) => multiplies(v@) && p == product(v@),
            None => !multiplies(v@),
        },
{
    let mut acc: u32 = 1;
    for i in 0..v.len()
        invariant
            multiplies(v@.take(i as int)),
            acc == product(v@.take(i as int)),
    {
        proof {
            assert(v@.take(i + 1).drop_last() =~= v@.take(i as int));
        }
        match acc.checked_mul(v[i]) {
            Some(p) => {
                acc = p;
            },
            None => {
                proof {
                    assert(!multiplies(v@.take(i + 1)));
                    if multiplies(v@) {
                        lemma_multiplies_prefix(v@, i + 1);
                    }
                }
                return None;
            },
        }
    }
    proof {
        assert(v@.take(v@.len() as int) =~= v@);
    }
    Some(acc)
}

proof fn lemma_multiplies_prefix(s: Seq<u32>, n: int)
    requires
        0 <= n <= s.len(),
        multiplies(s),
    ensures
        multiplies(s.take(n)),
    decreases s.len(),
{
    if n < s.len() {
        lemma_multiplies_prefix(s.drop_last(), n);
        assert(s.drop_last().take(n) =~= s.take(n));
    } else {
        assert(s.take(n) =~= s);
    }
}

/// One thread for each of `n` items.
pub open spec fn flat(kernel: Kernel, params: Seq<u32>, n: nat, output: nat) -> DispatchView {
    DispatchView { kernel, params, groups: (up(n, GROUP as nat) as u32, 1, 1), output }
}

/// One thread for each of `n` items, in rows of at most [`MAX_GROUPS`]
/// workgroups.
pub open spec fn split(kernel: Kernel, params: Seq<u32>, n: nat, output: nat) -> DispatchView {
    let total = up(n, GROUP as nat);
    DispatchView {
        kernel,
        params,
        groups: (
            if total < MAX_GROUPS {
                total as u32
            } else {
                MAX_GROUPS
            },
            up(total, MAX_GROUPS as nat) as u32,
            1,
        ),
        output,
    }
}

/// One workgroup for every tile of `tile` by `tile` of a plane, for every
/// layer.
pub open spec fn tiled(
    kernel: Kernel,
    params: Seq<u32>,
    cols: u32,
    rows: u32,
    layers: u32,
    tile: u32,
    output: nat,
) -> DispatchView {
    DispatchView {
        kernel,
        params,
        groups: (
            up(cols as nat, tile as nat) as u32,
            up(rows as nat, tile as nat) as u32,
            layers,
        ),
        output,
    }
}

/// Rows of workgroups have a thread for every item.
pub proof fn law_split_covers(kernel: Kernel, params: Seq<u32>, n: nat, output: nat)
    requires
        n <= u32::MAX,
    ensures
        split(kernel, params, n, output).groups.0 * split(
            kernel,
            params,
            n,
            output,
        ).groups.1 * GROUP >= n,
{
    let total = up(n, GROUP as nat);
    law_groups_cover(n, GROUP as nat);
    law_groups_cover(total, MAX_GROUPS as nat);
    let x = if total < MAX_GROUPS {
        total
    } else {
        MAX_GROUPS as nat
    };
    let y = up(total, MAX_GROUPS as nat);
    assert(x * y >= total) by {
        if total < MAX_GROUPS {
            if total > 0 {
                assert(total / MAX_GROUPS as nat == 0) by (nonlinear_arith)
                    requires
                        0 < total < MAX_GROUPS,
                ;
                assert(total % MAX_GROUPS as nat == total) by (nonlinear_arith)
                    requires
                        0 < total < MAX_GROUPS,
                ;
                assert(y == 1);
            }
        } else {
            assert(x * y == y * MAX_GROUPS) by (nonlinear_arith)
                requires
                    x == MAX_GROUPS,
            ;
        }
    }
    assert(x * y * GROUP >= total * GROUP) by (nonlinear_arith)
        requires
            x * y >= total,
    ;
}

fn flat_dispatch(kernel: Kernel, params: Vec<u32>, n: u32, output: usize) -> (d: Dispatch)
    ensures
        d@ == flat(kernel, params@, n as nat, output as nat),
{
    Dispatch { kernel, params, groups: (div_up(n, GROUP), 1, 1), output }
}

fn split_dispatch(kernel: Kernel, params: Vec<u32>, n: u32, output: usize) -> (d: Dispatch)
    ensures
        d@ == split(kernel, params@, n as nat, output as nat),
{
    let total: u32 = div_up(n, GROUP);
    let x: u32 = if total < MAX_GROUPS {
        total
    } else {
        MAX_GROUPS
    };
    Dispatch { kernel, params, groups: (x, div_up(total, MAX_GROUPS), 1), output }
}

fn tiled_dispatch(
    kernel: Kernel,
    params: Vec<u32>,
    cols: u32,
    rows: u32,
    layers: u32,
    tile: u32,
    output: usize,
) -> (d: Dispatch)
    requires
        tile > 0,
    ensures
        d@ == tiled(kernel, params@, cols, rows, layers, tile, output as nat),
{
    Dispatch {
        kernel,
        params,
        groups: (div_up(cols, tile), div_up(rows, tile), layers),
        output,
    }
}

/// The result is the plan.
pub open spec fn planned(r: Option<Dispatch>, p: Option<DispatchView>) -> bool {
    match r {
        Some(d) => p == Some(d@),
        None => p is None,
    }
}

/// A number of elements, if it is a 32-bit number.
pub fn small(n: usize) -> (r: Option<u32>)
    ensures
        match r {
            Some(x) => x == n,
            None => n > u32::MAX,
        },
{
    if n <= u32::MAX as usize {
        Some(n as u32)
    } else {
        None
    }
}

/// The positive parts of `n` elements.
pub open spec fn relu_plan(n: nat) -> Option<DispatchView> {
    if n <= u32::MAX {
        Some(split(Kernel::Relu, Seq::empty(), n, n))
    } else {
        None
    }
}

/// Launches [`Kernel::Relu`].
pub fn plan_relu(n: usize) -> (r: Option<Dispatch>)
    ensures
        planned(r, relu_plan(n as nat)),
{
    match small(n) {
        Some(x) => Some(split_dispatch(Kernel::Relu, Vec::new(), x, n)),
        None => None,
    }
}

/// The positive parts of `n` elements of a view, in one row of workgroups.
pub open spec fn relu_view_plan(n: nat) -> Option<DispatchView> {
    if n <= u32::MAX {
        Some(flat(Kernel::Relu, Seq::empty(), n, n))
    } else {
        None
    }
}

/// Launches [`Kernel::Relu`] on a view.
pub fn plan_relu_view(n: usize) -> (r: Option<Dispatch>)
    ensures
        planned(r, relu_view_plan(n as nat)),
{
    match small(n) {
        Some(x) => Some(flat_dispatch(Kernel::Relu, Vec::new(), x, n)),
        None => None,
    }
}

/// The sums of `n` pairs of elements.
pub open spec fn add_plan(n: nat) -> Option<DispatchView> {
    if n <= u32::MAX {
        Some(split(Kernel::Add, Seq::empty(), n, n))
    } else {
        None
    }
}

/// Launches [`Kernel::Add`], on buffers or on views.
pub fn plan_add(n: usize) -> (r: Option<Dispatch>)
    ensures
        planned(r, add_plan(n as nat)),
{
    match small(n) {
        Some(x) => Some(split_dispatch(Kernel::Add, Vec::new(), x, n)),
        None => None,
    }
}

/// The gated activation of `rows` rows of `d_ff` elements.
pub open spec fn silu_mul_plan(rows: u32, d_ff: u32) -> Option<DispatchView> {
    let s = seq![rows, d_ff];
    if multiplies(s) {
        Some(flat(Kernel::SiluMul, Seq::empty(), product(s), product(s)))
    } else {
        None
    }
}

/// Launches [`Kernel::SiluMul`].
pub fn plan_silu_mul(rows: u32, d_ff: u32) -> (r: Option<Dispatch>)
    ensures
        planned(r, silu_mul_plan(rows, d_ff)),
{
    let v = vec![rows, d_ff];
    proof {
        assert(v@ =~= seq![rows, d_ff]);
    }
    match product_of(&v) {
        Some(p) => Some(flat_dispatch(Kernel::SiluMul, Vec::new(), p, p as usize)),
        None => None,
    }
}

/// Rotary embedding of the pairs of every head, in place.
pub open spec fn rope_plan(n_tokens: u32, n_heads: u32, head_dim: u32, start_pos: u32) -> Option<
    DispatchView,
> {
    let s = seq![n_tokens, n_heads, (head_dim / 2) as u32];
    if multiplies(s) {
        Some(flat(Kernel::Rope, seq![n_tokens, n_heads, head_dim, start_pos], product(s), 0))
    } else {
        None
    }
}

/// Launches [`Kernel::Rope`].
pub fn plan_rope(n_tokens: u32, n_heads: u32, head_dim: u32, start_pos: u32) -> (r: Option<
    Dispatch,
>)
    ensures
        planned(r, rope_plan(n_tokens, n_heads, head_dim, start_pos)),
{
    let v = vec![n_tokens, n_heads, head_dim / 2];
    let params = vec![n_tokens, n_heads, head_dim, start_pos];
    proof {
        assert(v@ =~= seq![n_tokens, n_heads, (head_dim / 2) as u32]);
        assert(params@ =~= seq![n_tokens, n_heads, head_dim, start_pos]);
    }
    match product_of(&v) {
        Some(p) => Some(flat_dispatch(Kernel::Rope, params, p, 0)),
        None => None,
    }
}

/// Attention over a cache: one workgroup for every token and head. The scale
/// is given by its bits.
pub open spec fn attention_plan(
    n_tokens: u32,
    n_heads: u32,
    n_kv_heads: u32,
    head_dim: u32,
    seq_len: u32,
    scale: u32,
    cache_offset: u32,
) -> Option<DispatchView> {
    if n_kv_heads > 0 {
        Some(
            DispatchView {
                kernel: Kernel::Attention,
                params: seq![
                    n_tokens,
                    n_heads,
                    n_kv_heads,
                    head_dim,
                    seq_len,
                    (n_heads / n_kv_heads) as u32,
                    scale,
                    cache_offset,
                ],
                groups: (n_tokens, n_heads, 1),
                output: 0,
            },
        )
    } else {
        None
    }
}

/// Launches [`Kernel::Attention`].
pub fn plan_attention(
    n_tokens: u32,
    n_heads: u32,
    n_kv_heads: u32,
    head_dim: u32,
    seq_len: u32,
    scale: u32,
    cache_offset: u32,
) -> (r: Option<Dispatch>)
    ensures
        planned(
            r,
            attention_plan(
                n_tokens,
                n_heads,
                n_kv_heads,
                head_dim,
                seq_len,
                scale,
                cache_offset,
            ),
        ),
{
    if n_kv_heads == 0 {
        return None;
    }
    let kv_groups: u32 = n_heads / n_kv_heads;
    let params = vec![
        n_tokens,
        n_heads,
        n_kv_heads,
        head_dim,
        seq_len,
        kv_groups,
        scale,
        cache_offset,
    ];
    proof {
        assert(params@ =~= seq![
            n_tokens,
            n_heads,
            n_kv_heads,
            head_dim,
            seq_len,
            kv_groups,
            scale,
            cache_offset,
        ]);
    }
    Some(
        Dispatch { kernel: Kernel::Attention, params, groups: (n_tokens, n_heads, 1), output: 0 },
    )
}

/// A product of an `m` by `k` and a `k` by `n` matrix in tiles.
pub open spec fn tiled_matmul_plan(kernel: Kernel, m: u32, n: u32, k: u32, tile: u32) -> Option<
    DispatchView,
> {
    let s = seq![m, n];
    if multiplies(s) {
        Some(tiled(kernel, seq![m, n, k, 0], n, m, 1, tile, product(s)))
    } else {
        None
    }
}

/// A product of an `m` by `k` and a `k` by `n` matrix, one thread per entry.
pub open spec fn flat_matmul_plan(kernel: Kernel, m: u32, n: u32, k: u32) -> Option<DispatchView> {
    let s = seq![m, n];
    if multiplies(s) {
        Some(flat(kernel, seq![m, n, k, 0], product(s), product(s)))
    } else {
        None
    }
}

/// Launches a matrix product in tiles.
pub fn plan_tiled_matmul(kernel: Kernel, m: u32, n: u32, k: u32, tile: u32) -> (r: Option<
    Dispatch,
>)
    requires
        tile > 0,
    ensures
        planned(r, tiled_matmul_plan(kernel, m, n, k, tile)),
{
    let v = vec![m, n];
    let params = vec![m, n, k, 0];
    proof {
        assert(v@ =~= seq![m, n]);
        assert(params@ =~= seq![m, n, k, 0]);
    }
    match product_of(&v) {
        Some(p) => Some(tiled_dispatch(kernel, params, n, m, 1, tile, p as usize)),
        None => None,
    }
}

/// Launches a matrix product with one thread per entry.
pub fn plan_flat_matmul(kernel: Kernel, m: u32, n: u32, k: u32) -> (r: Option<Dispatch>)
    ensures
        planned(r, flat_matmul_plan(kernel, m, n, k)),
{
    let v = vec![m, n];
    let params = vec![m, n, k, 0];
    proof {
        assert(v@ =~= seq![m, n]);
        assert(params@ =~= seq![m, n, k, 0]);
    }
    match product_of(&v) {
        Some(p) => Some(flat_dispatch(kernel, params, p, p as usize)),
        None => None,
    }
}

/// A matrix product of buffers: few rows are computed entry by entry.
pub open spec fn matmul_plan(m: u32, n: u32, k: u32) -> Option<DispatchView> {
    if m <= TINY_ROWS {
        flat_matmul_plan(Kernel::TinyMatMul, m, n, k)
    } else {
        tiled_matmul_plan(Kernel::MatMul, m, n, k, 64)
    }
}

/// Launches a matrix product of buffers.
pub fn plan_matmul(m: u32, n: u32, k: u32) -> (r: Option<Dispatch>)
    ensures
        planned(r, matmul_plan(m, n, k)),
{
    if m <= TINY_ROWS {
        plan_flat_matmul(Kernel::TinyMatMul, m, n, k)
    } else {
        plan_tiled_matmul(Kernel::MatMul, m, n, k, 64)
    }
}

/// The matrix products of a batch.
pub open spec fn batched_matmul_plan(b: u32, m: u32, n: u32, k: u32) -> Option<DispatchView> {
    let s = seq![b, m, n];
    if multiplies(s) {
        Some(tiled(Kernel::BatchedMatMul, seq![b, m, n, k], n, m, b, 64, product(s)))
    } else {
        None
    }
}

/// Launches [`Kernel::BatchedMatMul`].
pub fn plan_batched_matmul(b: u32, m: u32, n: u32, k: u32) -> (r: Option<Dispatch>)
    ensures
        planned(r, batched_matmul_plan(b, m, n, k)),
{
    let v = vec![b, m, n];
    let params = vec![b, m, n, k];
    proof {
        assert(v@ =~= seq![b, m, n]);
        assert(params@ =~= seq![b, m, n, k]);
    }
    match product_of(&v) {
        Some(p) => Some(tiled_dispatch(Kernel::BatchedMatMul, params, n, m, b, 64, p as usize)),
        None => None,
    }
}

/// The transposed matrices of a batch.
pub open spec fn batched_transpose_plan(b: u32, m: u32, n: u32) -> Option<DispatchView> {
    let s = seq![b, m, n];
    if multiplies(s) {
        Some(tiled(Kernel::BatchedTranspose, seq![b, m, n, 0], n, m, b, 16, product(s)))
    } else {
        None
    }
}

/// Launches [`Kernel::BatchedTranspose`].
pub fn plan_batched_transpose(b: u32, m: u32, n: u32) -> (r: Option<Dispatch>)
    ensures
        planned(r, batched_transpose_plan(b, m, n)),
{
    let v = vec![b, m, n];
    let params = vec![b, m, n, 0];
    proof {
        assert(v@ =~= seq![b, m, n]);
        assert(params@ =~= seq![b, m, n, 0]);
    }
    match product_of(&v) {
        Some(p) => Some(tiled_dispatch(Kernel::BatchedTranspose, params, n, m, b, 16, p as usize)),
        None => None,
    }
}

/// The transposed matrix.
pub open spec fn transpose_plan(m: u32, n: u32) -> Option<DispatchView> {
    let s = seq![m, n];
    if multiplies(s) {
        Some(tiled(Kernel::Transpose, seq![m, n], n, m, 1, 16, product(s)))
    } else {
        None
    }
}

/// Launches [`Kernel::Transpose`].
pub fn plan_transpose(m: u32, n: u32) -> (r: Option<Dispatch>)
    ensures
        planned(r, transpose_plan(m, n)),
{
    let v = vec![m, n];
    let params = vec![m, n];
    proof {
        assert(v@ =~= seq![m, n]);
        assert(params@ =~= seq![m, n]);
    }
    match product_of(&v) {
        Some(p) => Some(tiled_dispatch(Kernel::Transpose, params, n, m, 1, 16, p as usize)),
        None => None,
    }
}

/// The sizes of a pooling.
#[derive(Debug, Clone, Copy)]
pub struct PoolDims {
    pub n: u32,
    pub c: u32,
    pub h: u32,
    pub w: u32,
    pub out_h: u32,
    pub out_w: u32,
    pub kernel_h: u32,
    pub kernel_w: u32,
    pub stride_h: u32,
    pub stride_w: u32,
    pub padding_h: u32,
    pub padding_w: u32,
}

impl PoolDims {
    /// The uniform block.
    pub open spec fn words(self) -> Seq<u32> {
        seq![
            self.n,
            self.c,
            self.h,
            self.w,
            self.out_h,
            self.out_w,
            self.kernel_h,
            self.kernel_w,
            self.stride_h,
            self.stride_w,
            self.padding_h,
            self.padding_w,
        ]
    }

    fn to_words(&self) -> (v: Vec<u32>)
        ensures
            v@ == self.words(),
    {
        let v = vec![
            self.n,
            self.c,
            self.h,
            self.w,
            self.out_h,
            self.out_w,
            self.kernel_h,
            self.kernel_w,
            self.stride_h,
            self.stride_w,
            self.padding_h,
            self.padding_w,
        ];
        proof {
            assert(v@ =~= self.words());
        }
        v
    }
}

/// A pooling, or its gradient: one thread for every element of the result,
/// plane by plane.
pub open spec fn pool_plan(kernel: Kernel, d: PoolDims, gradient: bool) -> Option<DispatchView> {
    let (rows, cols) = if gradient {
        (d.h, d.w)
    } else {
        (d.out_h, d.out_w)
    };
    let s = seq![d.n, d.c, rows, cols];
    if multiplies(s) {
        Some(tiled(kernel, d.words(), cols, rows, (d.n * d.c) as u32, 16, product(s)))
    } else {
        None
    }
}

/// Launches a pooling or its gradient.
pub fn plan_pool(kernel: Kernel, d: &PoolDims, gradient: bool) -> (r: Option<Dispatch>)
    ensures
        planned(r, pool_plan(kernel, *d, gradient)),
{
    let rows: u32 = if gradient {
        d.h
    } else {
        d.out_h
    };
    let cols: u32 = if gradient {
        d.w
    } else {
        d.out_w
    };
    let v = vec![d.n, d.c, rows, cols];
    let ghost s = seq![d.n, d.c, rows, cols];
    proof {
        assert(v@ =~= s);
    }
    match product_of(&v) {
        Some(p) => {
            proof {
                reveal_with_fuel(multiplies, 4);
                reveal_with_fuel(product, 4);
                let s3 = s.drop_last();
                let s2 = s3.drop_last();
                assert(s3 =~= seq![d.n, d.c, rows]);
                assert(s2 =~= seq![d.n, d.c]);
                assert(s2.drop_last() =~= seq![d.n]);
                assert(s2.drop_last().drop_last() =~= Seq::<u32>::empty());
                assert(multiplies(s3) && multiplies(s2));
                assert(product(seq![d.n]) == 1 * d.n as nat);
                assert(product(s2) == d.n as nat * d.c as nat);
                assert(d.n as nat * d.c as nat == d.n * d.c) by (nonlinear_arith);
            }
            let layers: u32 = d.n * d.c;
            Some(tiled_dispatch(kernel, d.to_words(), cols, rows, layers, 16, p as usize))
        },
        None => None,
    }
}

/// The sum of all elements, by one thread.
pub open spec fn sum_all_plan() -> DispatchView {
    DispatchView { kernel: Kernel::SumAll, params: Seq::empty(), groups: (1, 1, 1), output: 1 }
}

/// Launches [`Kernel::SumAll`].
pub fn plan_sum_all() -> (d: Dispatch)
    ensures
        d@ == sum_all_plan(),
{
    Dispatch { kernel: Kernel::SumAll, params: Vec::new(), groups: (1, 1, 1), output: 1 }
}

/// A shape that the device can hold: not empty, and its size is a 32-bit
/// number.
pub open spec fn small_shape(dims: Seq<usize>) -> bool {
    &&& dims.len() > 0
    &&& fits(dims)
    &&& numel(dims) <= u32::MAX
    &&& forall|i: int| 0 <= i < dims.len() ==> #[trigger] dims[i] <= u32::MAX
}

/// Whether the device can hold the shape.
pub fn check_small_shape(dims: &Vec<usize>) -> (ok: bool)
    ensures
        ok == small_shape(dims@),
{
    if dims.len() == 0 {
        return false;
    }
    for i in 0..dims.len()
        invariant
            forall|j: int| 0 <= j < i ==> #[trigger] dims@[j] <= u32::MAX,
    {
        if dims[i] > u32::MAX as usize {
            return false;
        }
    }
    match checked_numel(dims) {
        Some(n) => n <= u32::MAX as usize,
        None => false,
    }
}

/// A kernel that works row by row, with more parameters behind the number of
/// rows and columns.
pub open spec fn rows_plan(kernel: Kernel, dims: Seq<usize>, more: Seq<u32>) -> Option<
    DispatchView,
> {
    if small_shape(dims) && dims.last() > 0 {
        let cols = dims.last() as u32;
        let rows = (numel(dims) / cols as nat) as u32;
        Some(flat(kernel, seq![rows, cols] + more, rows as nat, numel(dims)))
    } else {
        None
    }
}

/// Launches a kernel that works row by row.
pub fn plan_rows(kernel: Kernel, dims: &Vec<usize>, more: &Vec<u32>) -> (r: Option<Dispatch>)
    ensures
        planned(r, rows_plan(kernel, dims@, more@)),
{
    if !check_small_shape(dims) {
        return None;
    }
    let cols: u32 = dims[dims.len() - 1] as u32;
    if cols == 0 {
        return None;
    }
    let n: usize = match checked_numel(dims) {
        Some(n) => n,
        None => 0,
    };
    let rows: u32 = (n / cols as usize) as u32;
    let mut params: Vec<u32> = vec![rows, cols];
    let ghost head = seq![rows, cols];
    proof {
        assert(params@ =~= head + more@.take(0));
    }
    for i in 0..more.len()
        invariant
            params@ == head + more@.take(i as int),
    {
        params.push(more[i]);
        proof {
            assert(params@ =~= head + more@.take(i + 1));
        }
    }
    proof {
        assert(more@.take(more@.len() as int) =~= more@);
    }
    Some(flat_dispatch(kernel, params, rows, n))
}

/// The extents of a shape of at most four axes, filled up in front.
pub open spec fn four(dims: Seq<usize>) -> Seq<u32> {
    Seq::new(
        4,
        |i: int|
            if i < 4 - dims.len() {
                1
            } else {
                dims[i - (4 - dims.len())] as u32
            },
    )
}

/// The strides of a shape of at most four axes, filled up in front.
pub open spec fn four_strides(dims: Seq<usize>) -> Seq<u32> {
    Seq::new(
        4,
        |i: int|
            if i < 4 - dims.len() {
                0
            } else {
                stride(dims, i - (4 - dims.len())) as u32
            },
    )
}

/// Fills up extents in front.
fn to_four(dims: &Vec<usize>) -> (v: Vec<u32>)
    requires
        dims@.len() <= 4,
    ensures
        v@ == four(dims@),
{
    let pad: usize = 4 - dims.len();
    let mut v: Vec<u32> = Vec::new();
    for i in 0..4usize
        invariant
            pad == 4 - dims@.len(),
            v@.len() == i,
            forall|j: int| 0 <= j < i ==> #[trigger] v@[j] == four(dims@)[j],
    {
        if i < pad {
            v.push(1);
        } else {
            v.push(dims[i - pad] as u32);
        }
    }
    proof {
        assert(v@ =~= four(dims@));
    }
    v
}

/// Fills up strides in front.
fn to_four_strides(dims: &Vec<usize>) -> (v: Vec<u32>)
    requires
        dims@.len() <= 4,
        fits(dims@),
    ensures
        v@ == four_strides(dims@),
{
    let strides = get_strides(dims);
    let pad: usize = 4 - dims.len();
    let mut v: Vec<u32> = Vec::new();
    for i in 0..4usize
        invariant
            pad == 4 - dims@.len(),
            strides@.len() == dims@.len(),
            forall|j: int| 0 <= j < dims@.len() ==> #[trigger] strides@[j] == stride(dims@, j),
            v@.len() == i,
            forall|j: int| 0 <= j < i ==> #[trigger] v@[j] == four_strides(dims@)[j],
    {
        if i < pad {
            v.push(0);
        } else {
            proof {
                assert(strides@[i - pad] == stride(dims@, i - pad));
            }
            v.push(strides[i - pad] as u32);
        }
    }
    proof {
        assert(v@ =~= four_strides(dims@));
    }
    v
}

/// The sums along an axis of a shape of at most four axes.
pub open spec fn sum_dim_plan(dims: Seq<usize>, axis: usize) -> Option<DispatchView> {
    let out = dims.update(axis as int, 1);
    if dims.len() <= 4 && axis < dims.len() && small_shape(dims) && small_shape(out) {
        Some(
            flat(
                Kernel::SumDim,
                seq![numel(out) as u32, numel(dims) as u32, (4 - dims.len() + axis) as u32, 0]
                    + four(out) + four(dims) + four_strides(dims),
                numel(out),
                numel(out),
            ),
        )
    } else {
        None
    }
}

/// Appends the words of one list to another.
fn extend(v: &mut Vec<u32>, more: &Vec<u32>)
    ensures
        final(v)@ == old(v)@ + more@,
{
    let ghost start = v@;
    proof {
        assert(v@ =~= start + more@.take(0));
    }
    for i in 0..more.len()
        invariant
            v@ == start + more@.take(i as int),
    {
        v.push(more[i]);
        proof {
            assert(v@ =~= start + more@.take(i + 1));
        }
    }
    proof {
        assert(more@.take(more@.len() as int) =~= more@);
    }
}

/// Launches [`Kernel::SumDim`].
pub fn plan_sum_dim(dims: &Vec<usize>, axis: usize) -> (r: Option<Dispatch>)
    ensures
        planned(r, sum_dim_plan(dims@, axis)),
{
    if dims.len() > 4 || axis >= dims.len() || !check_small_shape(dims) {
        return None;
    }
    let mut out: Vec<usize> = crate::shape::copy_dims(dims);
    out.set(axis, 1);
    if !check_small_shape(&out) {
        return None;
    }
    match (checked_numel(&out), checked_numel(dims)) {
        (Some(n), Some(m)) => {
            let at: usize = 4 - dims.len() + axis;
            let mut params: Vec<u32> = vec![n as u32, m as u32, at as u32, 0];
            proof {
                assert(params@ =~= seq![n as u32, m as u32, at as u32, 0]);
            }
            extend(&mut params, &to_four(&out));
            extend(&mut params, &to_four(dims));
            extend(&mut params, &to_four_strides(dims));
            Some(flat_dispatch(Kernel::SumDim, params, n as u32, n))
        },
        _ => None,
    }
}

/// The strides with which an input is read for an output of at most four
/// axes: an axis of extent one is not moved along.
pub open spec fn broadcast_strides(dims: Seq<usize>) -> Seq<u32> {
    Seq::new(
        4,
        |i: int|
            if i < 4 - dims.len() || dims[i - (4 - dims.len())] == 1 {
                0
            } else {
                stride(dims, i - (4 - dims.len())) as u32
            },
    )
}

/// The reading strides of an input.
fn to_broadcast_strides(dims: &Vec<usize>) -> (v: Vec<u32>)
    requires
        dims@.len() <= 4,
        fits(dims@),
    ensures
        v@ == broadcast_strides(dims@),
{
    let strides = get_strides(dims);
    let pad: usize = 4 - dims.len();
    let mut v: Vec<u32> = Vec::new();
    for i in 0..4usize
        invariant
            pad == 4 - dims@.len(),
            strides@.len() == dims@.len(),
            forall|j: int| 0 <= j < dims@.len() ==> #[trigger] strides@[j] == stride(dims@, j),
            v@.len() == i,
            forall|j: int| 0 <= j < i ==> #[trigger] v@[j] == broadcast_strides(dims@)[j],
    {
        if i < pad || dims[i - pad] == 1 {
            v.push(0);
        } else {
            proof {
                assert(strides@[i - pad] == stride(dims@, i - pad));
            }
            v.push(strides[i - pad] as u32);
        }
    }
    proof {
        assert(v@ =~= broadcast_strides(dims@));
    }
    v
}

/// The reading strides of input `i`, or zeros where there is none.
pub open spec fn strides_of_input(shapes: Seq<Seq<usize>>, i: int) -> Seq<u32> {
    if i < shapes.len() {
        broadcast_strides(shapes[i])
    } else {
        seq![0, 0, 0, 0]
    }
}

/// The inputs of a fused kernel fit its output: with a different shape among
/// them, at most four axes each.
pub open spec fn fused_fits(shapes: Seq<Seq<usize>>, out: Seq<usize>) -> bool {
    &&& fits(out)
    &&& numel(out) <= u32::MAX
    &&& is_broadcasting(shapes, out) ==> {
        &&& out.len() <= 4
        &&& forall|i: int|
            0 <= i < shapes.len() ==> small_shape(#[trigger] shapes[i]) && shapes[i].len()
                <= out.len()
    }
}

/// An input has another shape than the output.
pub open spec fn is_broadcasting(shapes: Seq<Seq<usize>>, out: Seq<usize>) -> bool {
    exists|i: int| 0 <= i < shapes.len() && #[trigger] shapes[i] != out
}

/// A fused kernel: elementwise where all shapes agree, else with the
/// parameters of a broadcast.
pub open spec fn fused_plan(shapes: Seq<Seq<usize>>, out: Seq<usize>) -> Option<DispatchView> {
    if !fused_fits(shapes, out) {
        None
    } else if is_broadcasting(shapes, out) {
        Some(
            split(
                Kernel::Broadcast,
                seq![numel(out) as u32, out.len() as u32, 0, 0] + four(out) + strides_of_input(
                    shapes,
                    0,
                ) + strides_of_input(shapes, 1),
                numel(out),
                numel(out),
            ),
        )
    } else {
        Some(split(Kernel::Elementwise, seq![numel(out) as u32], numel(out), numel(out)))
    }
}

/// Whether an input has another shape than the output.
pub fn broadcasting(shapes: &Vec<Shape>, out: &Shape) -> (r: bool)
    ensures
        r == is_broadcasting(crate::op::shape_views(shapes@), out@),
{
    let ghost ss = crate::op::shape_views(shapes@);
    for i in 0..shapes.len()
        invariant
            ss == crate::op::shape_views(shapes@),
            forall|j: int| 0 <= j < i ==> #[trigger] ss[j] == out@,
    {
        if !crate::shape::same_dims(&shapes[i].dims, &out.dims) {
            proof {
                assert(ss[i as int] != out@);
            }
            return true;
        }
    }
    false
}

/// Launches a fused kernel.
pub fn plan_fused(shapes: &Vec<Shape>, out: &Shape) -> (r: Option<Dispatch>)
    ensures
        planned(r, fused_plan(crate::op::shape_views(shapes@), out@)),
{
    let ghost ss = crate::op::shape_views(shapes@);
    let n: usize = match checked_numel(&out.dims) {
        Some(n) => n,
        None => {
            return None;
        },
    };
    let count: u32 = match small(n) {
        Some(c) => c,
        None => {
            return None;
        },
    };
    if !broadcasting(shapes, out) {
        let params = vec![count];
        proof {
            assert(params@ =~= seq![numel(out@) as u32]);
        }
        return Some(split_dispatch(Kernel::Elementwise, params, count, n));
    }
    if out.dims.len() > 4 {
        return None;
    }
    for i in 0..shapes.len()
        invariant
            ss == crate::op::shape_views(shapes@),
            out@.len() <= 4,
            is_broadcasting(ss, out@),
            forall|j: int|
                0 <= j < i ==> small_shape(#[trigger] ss[j]) && ss[j].len() <= out@.len(),
    {
        if !check_small_shape(&shapes[i].dims) || shapes[i].dims.len() > out.dims.len() {
            proof {
                assert(!(small_shape(ss[i as int]) && ss[i as int].len() <= out@.len()));
            }
            return None;
        }
    }
    let mut params: Vec<u32> = vec![count, out.dims.len() as u32, 0, 0];
    proof {
        assert(params@ =~= seq![numel(out@) as u32, out@.len() as u32, 0, 0]);
    }
    extend(&mut params, &to_four(&out.dims));
    for i in 0..2usize
        invariant
            ss == crate::op::shape_views(shapes@),
            out@.len() <= 4,
            forall|j: int|
                0 <= j < shapes@.len() ==> small_shape(#[trigger] ss[j]) && ss[j].len()
                    <= out@.len(),
            params@ == seq![numel(out@) as u32, out@.len() as u32, 0, 0] + four(out@) + (if i == 0 {
                Seq::<u32>::empty()
            } else if i == 1 {
                strides_of_input(ss, 0)
            } else {
                strides_of_input(ss, 0) + strides_of_input(ss, 1)
            }),
    {
        let more: Vec<u32> = if i < shapes.len() {
            proof {
                assert(small_shape(ss[i as int]) && ss[i as int].len() <= out@.len());
            }
            to_broadcast_strides(&shapes[i].dims)
        } else {
            vec![0, 0, 0, 0]
        };
        proof {
            assert(more@ =~= strides_of_input(ss, i as int));
        }
        extend(&mut params, &more);
        proof {
            assert(params@ =~= seq![numel(out@) as u32, out@.len() as u32, 0, 0] + four(out@) + (
            if i + 1 == 1 {
                strides_of_input(ss, 0)
            } else {
                strides_of_input(ss, 0) + strides_of_input(ss, 1)
            }));
        }
    }
    proof {
        assert(params@ =~= seq![numel(out@) as u32, out@.len() as u32, 0, 0] + four(out@)
            + strides_of_input(ss, 0) + strides_of_input(ss, 1));
    }
    Some(split_dispatch(Kernel::Broadcast, params, count, n))
}

} // verus!
