//! What is launched has a thread for every element.

use crate::gpu::plan::{
    batched_matmul_plan, batched_transpose_plan, law_groups_cover, matmul_plan,
    product, rope_plan, silu_mul_plan, transpose_plan, DispatchView, Kernel, GROUP,
};
use vstd::prelude::*;

verus! {

/// The threads of square tiles reach column `n` and row `m` of every layer.
pub open spec fn tiles_reach(p: DispatchView, m: u32, n: u32, layers: int, tile: int) -> bool {
    &&& p.groups.0 * tile >= n
    &&& p.groups.1 * tile >= m
    &&& p.groups.2 == layers
}

/// The threads of a row of workgroups reach item `n`.
pub open spec fn threads_reach(p: DispatchView, n: int) -> bool {
    p.groups.0 * GROUP >= n && p.groups.1 == 1 && p.groups.2 == 1
}

proof fn lemma_product_2(a: u32, b: u32)
    ensures
        product(seq![a, b]) == a * b,
{
    reveal_with_fuel(product, 3);
    let s = seq![a, b];
    assert(s.drop_last() =~= seq![a]);
    assert(seq![a].drop_last() =~= Seq::<u32>::empty());
    assert(product(Seq::<u32>::empty()) == 1);
    assert(product(seq![a]) == a) by {
        assert(1 * a == a) by (nonlinear_arith);
        assert(a * 1 == a) by (nonlinear_arith);
    }
}

proof fn lemma_product_3(a: u32, b: u32, c: u32)
    ensures
        product(seq![a, b, c]) == a * b * c,
{
    lemma_product_2(a, b);
    let s = seq![a, b, c];
    assert(s.drop_last() =~= seq![a, b]);
}

/// A matrix product is launched with a thread for every entry: by entries
/// where there are few rows, else by tiles that reach every column across and
/// every row down.
pub proof fn law_matmul_launch_covers(m: u32, n: u32, k: u32)
    ensures
        matmul_plan(m, n, k) matches Some(p) ==> p.output == m * n && p.params == seq![m, n, k, 0]
            && match p.kernel {
            Kernel::TinyMatMul => threads_reach(p, m * n),
            Kernel::MatMul => tiles_reach(p, m, n, 1, 64),
            _ => false,
        },
{
    lemma_product_2(m, n);
    law_groups_cover(product(seq![m, n]), GROUP as nat);
    law_groups_cover(m as nat, 64);
    law_groups_cover(n as nat, 64);
}

/// The products of a batch and transposes are launched with a thread for every
/// entry of every matrix.
pub proof fn law_batch_launches_cover(b: u32, m: u32, n: u32, k: u32)
    ensures
        batched_matmul_plan(b, m, n, k) matches Some(p) ==> p.output == b * m * n && tiles_reach(
            p,
            m,
            n,
            b as int,
            64,
        ),
        batched_transpose_plan(b, m, n) matches Some(p) ==> p.output == b * m * n && tiles_reach(
            p,
            m,
            n,
            b as int,
            16,
        ),
        transpose_plan(m, n) matches Some(p) ==> p.output == m * n && tiles_reach(p, m, n, 1, 16),
{
    lemma_product_2(m, n);
    lemma_product_3(b, m, n);
    law_groups_cover(m as nat, 64);
    law_groups_cover(n as nat, 64);
    law_groups_cover(m as nat, 16);
    law_groups_cover(n as nat, 16);
}

/// Gates and positions are launched with a thread for every number and for
/// every pair.
pub proof fn law_step_launches_cover(tokens: u32, heads: u32, width: u32, start: u32)
    ensures
        silu_mul_plan(tokens, width) matches Some(p) ==> p.output == tokens * width
            && threads_reach(p, tokens * width),
        rope_plan(tokens, heads, width, start) matches Some(p) ==> threads_reach(
            p,
            tokens * heads * (width / 2),
        ),
{
    lemma_product_2(tokens, width);
    lemma_product_3(tokens, heads, (width / 2) as u32);
    law_groups_cover(product(seq![tokens, width]), GROUP as nat);
    law_groups_cover(product(seq![tokens, heads, (width / 2) as u32]), GROUP as nat);
}

} // verus!
