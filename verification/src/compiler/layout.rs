//! Layout optimization: constant weights are transposed ahead of time.

use crate::error::Error;
use crate::graph::{get_binary_inputs, GraphView, TensorGraph};
use crate::kernels::movement::{lemma_numel_2, transpose_data, transposed};
use crate::op::{Op, OpOf, OpView};
use crate::shape::Shape;
use crate::tensor::{single, AnyData, Tensor};
use vstd::arithmetic::mul::lemma_mul_is_commutative;
use vstd::prelude::*;

verus! {

/// A constant single-precision matrix with more rows than columns.
pub open spec fn is_tall(op: OpView) -> bool {
    op matches OpOf::Input(t) && t.data is F32 && t.shape.len() == 2 && t.shape[0] > t.shape[1]
}

/// A constant weight as it is laid out: a tall matrix is transposed.
pub open spec fn laid_out_weight(op: OpView) -> OpView {
    match op {
        OpOf::Input(t) => if is_tall(op) {
            OpOf::Input(
                single(
                    transposed(t.singles(), t.shape[0] as int, t.shape[1] as int),
                    seq![t.shape[1], t.shape[0]],
                ),
            )
        } else {
            op
        },
        _ => op,
    }
}

/// One of the first `until` nodes is a matrix product whose right operand is
/// node `n`.
pub open spec fn weighs_until(g: GraphView, n: int, until: int) -> bool {
    exists|m: int| #[trigger]
        is_product_with(g, m, n) && 0 <= m < until
}

/// Node `m` is a matrix product whose right operand is node `n`.
pub open spec fn is_product_with(g: GraphView, m: int, n: int) -> bool {
    &&& 0 <= m < g.nodes.len()
    &&& g.nodes[m].op is MatMul
    &&& g.binary_inputs(m as usize) matches Some((_, r)) && r == n
}

/// Node `n` is the right operand of a matrix product.
pub open spec fn is_weight(g: GraphView, n: int) -> bool {
    weighs_until(g, n, g.nodes.len() as int)
}

spec fn laid_out_until(g0: GraphView, g: GraphView, until: int) -> bool {
    &&& g.edges == g0.edges
    &&& g.nodes.len() == g0.nodes.len()
    &&& forall|n: int|
        0 <= n < g0.nodes.len() ==> #[trigger] g.nodes[n] == (if weighs_until(g0, n, until) {
            crate::graph::NodeView { op: laid_out_weight(g0.nodes[n].op), ..g0.nodes[n] }
        } else {
            g0.nodes[n]
        })
}

/// `g` is `g0` with the constant right operands of matrix products laid out.
/// A node keeps the shape that it is recorded with.
pub open spec fn laid_out(g0: GraphView, g: GraphView) -> bool {
    &&& g.edges == g0.edges
    &&& g.nodes.len() == g0.nodes.len()
    &&& forall|n: int|
        0 <= n < g0.nodes.len() ==> #[trigger] g.nodes[n] == (if is_weight(g0, n) {
            crate::graph::NodeView { op: laid_out_weight(g0.nodes[n].op), ..g0.nodes[n] }
        } else {
            g0.nodes[n]
        })
}

/// The constant at node `n` as it is laid out, if that makes a difference.
fn tall_weight(g: &TensorGraph, n: usize) -> (r: Option<Op>)
    requires
        g.wf(),
        n < g@.nodes.len(),
    ensures
        match r {
            Some(op) => op.wf() && op@ == laid_out_weight(g@.nodes[n as int].op),
            None => laid_out_weight(g@.nodes[n as int].op) == g@.nodes[n as int].op,
        },
{
    match &g.node(n).op {
        OpOf::Input(t) => match &t.data {
            AnyData::F32(d) => {
                if t.shape.dims.len() == 2 && t.shape.dims[0] > t.shape.dims[1] {
                    let rows: usize = t.shape.dims[0];
                    let cols: usize = t.shape.dims[1];
                    proof {
                        assert(t@.shape =~= seq![rows, cols]);
                        lemma_numel_2(rows, cols);
                        lemma_numel_2(cols, rows);
                        lemma_mul_is_commutative(rows as int, cols as int);
                    }
                    let data = transpose_data(d, rows, cols);
                    let shape = Shape::new(vec![cols, rows]);
                    proof {
                        assert(shape@ =~= seq![cols, rows]);
                    }
                    Some(OpOf::Input(Tensor::new(data, shape)))
                } else {
                    None
                }
            },
            AnyData::F16(_) => None,
        },
        _ => None,
    }
}

/// Whether node `n` is a matrix product.
fn is_matmul_node(g: &TensorGraph, n: usize) -> (r: bool)
    requires
        g.wf(),
        n < g@.nodes.len(),
    ensures
        r == (g@.nodes[n as int].op is MatMul),
{
    match &g.node(n).op {
        OpOf::MatMul => true,
        _ => false,
    }
}

/// Laying out a constant twice is laying it out once.
proof fn lemma_laid_out_once(op: OpView)
    ensures
        laid_out_weight(laid_out_weight(op)) == laid_out_weight(op),
{
}

/// Looking at one more node.
proof fn lemma_one_more(g: GraphView, n: int, m: int)
    requires
        0 <= m < g.nodes.len(),
    ensures
        weighs_until(g, n, m + 1) == (weighs_until(g, n, m) || is_product_with(g, m, n)),
{
    if weighs_until(g, n, m + 1) {
        let k = choose|k: int| #[trigger] is_product_with(g, k, n) && 0 <= k < m + 1;
        assert(is_product_with(g, k, n));
    }
    if weighs_until(g, n, m) {
        let k = choose|k: int| #[trigger] is_product_with(g, k, n) && 0 <= k < m;
        assert(is_product_with(g, k, n));
    }
}

/// Transposes the constant right operands of matrix products that have more
/// rows than columns, so that the inner loop runs over adjacent numbers.
pub fn run_layout_optimize_pass(graph: &mut TensorGraph) -> (r: Result<(), Error>)
    requires
        old(graph).wf(),
    ensures
        r is Ok,
        final(graph).wf(),
        laid_out(old(graph)@, final(graph)@),
        final(graph).next_tensor_id() == old(graph).next_tensor_id(),
        final(graph).compiles_on_run() == old(graph).compiles_on_run(),
{
    let ghost g0 = graph@;
    let count: usize = graph.node_count();
    for i in 0..count
        invariant
            graph.wf(),
            count == g0.nodes.len(),
            laid_out_until(g0, graph@, i as int),
            graph.next_tensor_id() == old(graph).next_tensor_id(),
            graph.compiles_on_run() == old(graph).compiles_on_run(),
    {
        let ghost g = graph@;
        proof {
            assert(g.nodes[i as int].op is MatMul == g0.nodes[i as int].op is MatMul);
            assert(g.binary_inputs(i) == g0.binary_inputs(i));
            assert forall|n: int| weighs_until(g0, n, i + 1) == (#[trigger] weighs_until(
                g0,
                n,
                i as int,
            ) || is_product_with(g0, i as int, n)) by {
                lemma_one_more(g0, n, i as int);
            }
        }
        if is_matmul_node(graph, i) {
            if let Ok((_lhs, rhs)) = get_binary_inputs(graph, i) {
                proof {
                    lemma_laid_out_once(g0.nodes[rhs as int].op);
                    assert(is_product_with(g0, i as int, rhs as int));
                }
                if let Some(op) = tall_weight(graph, rhs) {
                    graph.set_op(rhs, op);
                }
            }
        }
        proof {
            assert forall|n: int| 0 <= n < g0.nodes.len() implies #[trigger] graph@.nodes[n] == (
            if weighs_until(g0, n, i + 1) {
                crate::graph::NodeView { op: laid_out_weight(g0.nodes[n].op), ..g0.nodes[n] }
            } else {
                g0.nodes[n]
            }) by {
                assert(g.nodes[n] == (if weighs_until(g0, n, i as int) {
                    crate::graph::NodeView { op: laid_out_weight(g0.nodes[n].op), ..g0.nodes[n] }
                } else {
                    g0.nodes[n]
                }));
            }
        }
    }
    Ok(())
}

/// A graph that has been laid out is left alone.
pub proof fn law_layout_idempotent(g0: GraphView, g: GraphView)
    requires
        laid_out(g0, g),
    ensures
        laid_out(g, g),
{
    assert forall|n: int| 0 <= n < g.nodes.len() implies #[trigger] g.nodes[n] == (if is_weight(
        g,
        n,
    ) {
        crate::graph::NodeView { op: laid_out_weight(g.nodes[n].op), ..g.nodes[n] }
    } else {
        g.nodes[n]
    }) by {
        if is_weight(g, n) {
            let m = choose|m: int| #[trigger]
                is_product_with(g, m, n) && 0 <= m < g.nodes.len();
            assert(g.nodes[m].op is MatMul);
            assert(g0.nodes[m].op is MatMul);
            assert(is_product_with(g0, m, n));
            lemma_laid_out_once(g0.nodes[n].op);
        }
    }
}

/// After the pass no constant right operand of a matrix product has more rows
/// than columns.
pub proof fn law_no_tall_weights(g0: GraphView, g: GraphView, n: int)
    requires
        laid_out(g0, g),
        0 <= n < g0.nodes.len(),
        is_weight(g0, n),
    ensures
        !is_tall(g.nodes[n].op),
{
}

} // verus!
