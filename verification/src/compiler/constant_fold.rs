//! Constant folding: nodes whose operands are constants are computed once, at
//! compile time.

use crate::backend::cpu::CpuBackend;
use crate::backend::dispatch::op_outcome;
use crate::backend::Backend;
use crate::compiler::simplify::{computed_nodes, is_constant, lemma_computed_nodes_drop};
use crate::error::Error;
use crate::float::Float;
use crate::graph::{get_indexed_inputs, lemma_inputs_in_range, GraphView, NodeView, TensorGraph};
use crate::op::{Op, OpOf, OpView};
use crate::sym::{operand_views, operands_wf, realized};
use crate::tensor::{single, AnyData, Dtype, Tensor, TensorView};
use vstd::prelude::*;

verus! {

/// The tensor of a constant.
pub open spec fn constant_of(op: OpView) -> TensorView {
    match op {
        OpOf::Input(t) => t,
        _ => arbitrary(),
    }
}

/// The operands of node `n`, where there are some and all are constants.
pub open spec fn constant_operands(g: GraphView, n: int) -> Option<Seq<TensorView>> {
    match g.inputs(n as usize) {
        Some(s) => if s.len() > 0 && forall|p: int|
            0 <= p < s.len() ==> is_constant((#[trigger] g.nodes[s[p] as int]).op) {
            Some(Seq::new(s.len(), |p: int| constant_of(g.nodes[s[p] as int].op)))
        } else {
            None
        },
        None => None,
    }
}

/// The host may compute the operation to the single-precision tensor `t`.
pub open spec fn evaluates<F: Float>(f: F, op: OpView, xs: Seq<TensorView>, t: TensorView) -> bool {
    exists|out: Tensor| #[trigger]
        realized(f, op_outcome(op, xs), Ok(out)) && out.data is F32 && t == single(
            out@.singles(),
            out@.shape,
        )
}

/// The host may fail to compute the operation to a single-precision tensor.
pub open spec fn stays<F: Float>(f: F, op: OpView, xs: Seq<TensorView>) -> bool {
    exists|r: Result<Tensor, Error>| #[trigger]
        realized(f, op_outcome(op, xs), r) && (r matches Ok(t) ==> t.data is F16)
}

/// Node `n`, which was `before`, has been folded: its operands are constants,
/// and it is the constant that its operation gives on them.
pub open spec fn folded<F: Float>(f: F, g: GraphView, n: int, before: NodeView) -> bool {
    &&& !is_constant(before.op)
    &&& is_constant(g.nodes[n].op)
    &&& constant_operands(g, n) matches Some(xs) && evaluates(
        f,
        before.op,
        xs,
        constant_of(g.nodes[n].op),
    )
    &&& g.nodes[n].shape == constant_of(g.nodes[n].op).shape
    &&& g.nodes[n].dtype == Dtype::F32
}

/// The identifier that is given out `k` steps after `start`.
pub open spec fn id_after(start: u64, k: nat) -> u64
    decreases k,
{
    if k == 0 {
        start
    } else {
        id_after(start, (k - 1) as nat).wrapping_add(1)
    }
}

/// `g` is `g0` with the nodes of `order` folded, one after the other: they
/// have the identifiers from `start` on. Every other node is as it was.
pub open spec fn folding<F: Float>(
    f: F,
    g0: GraphView,
    g: GraphView,
    start: u64,
    order: Seq<int>,
) -> bool {
    &&& g.edges == g0.edges
    &&& g.nodes.len() == g0.nodes.len()
    &&& order.no_duplicates()
    &&& forall|k: int|
        0 <= k < order.len() ==> {
            &&& 0 <= #[trigger] order[k] < g0.nodes.len()
            &&& folded(f, g, order[k], g0.nodes[order[k]])
            &&& g.nodes[order[k]].id == id_after(start, k as nat)
        }
    &&& forall|n: int|
        0 <= n < g0.nodes.len() && !order.contains(n) ==> #[trigger] g.nodes[n] == g0.nodes[n]
}

/// No node is left that the host would have folded: where a computed node has
/// constants only as operands, the host may fail on it.
pub open spec fn nothing_to_fold<F: Float>(f: F, g: GraphView, until: int) -> bool {
    forall|n: int|
        0 <= n < until && !is_constant((#[trigger] g.nodes[n]).op) ==> (constant_operands(
            g,
            n,
        ) matches Some(xs) ==> stays(f, g.nodes[n].op, xs))
}

/// `g` is what constant folding makes of `g0`, with tensor identifiers from
/// `start` on.
pub open spec fn constant_folded<F: Float>(
    f: F,
    g0: GraphView,
    g: GraphView,
    start: u64,
    next: u64,
) -> bool {
    &&& nothing_to_fold(f, g, g.nodes.len() as int)
    &&& exists|order: Seq<int>| #[trigger]
        folding(f, g0, g, start, order) && next == id_after(start, order.len())
}

/// The constants that are the operands of node `n`, if there are some and all
/// are constants.
fn collect_constants(g: &TensorGraph, n: usize) -> (r: Option<Vec<&Tensor>>)
    requires
        g.wf(),
        n < g@.nodes.len(),
    ensures
        match r {
            Some(v) => {
                &&& constant_operands(g@, n as int) == Some(operand_views(v@))
                &&& operands_wf(v@)
            },
            None => constant_operands(g@, n as int) is None,
        },
{
    let inputs: Vec<usize> = match get_indexed_inputs(g, n) {
        Ok(inputs) => inputs,
        Err(_) => {
            return None;
        },
    };
    if inputs.len() == 0 {
        return None;
    }
    let mut out: Vec<&Tensor> = Vec::new();
    for p in 0..inputs.len()
        invariant
            g.wf(),
            g@.inputs(n) == Some(inputs@),
            forall|q: int| 0 <= q < inputs@.len() ==> #[trigger] inputs@[q] < g@.nodes.len(),
            out@.len() == p,
            operands_wf(out@),
            forall|q: int|
                0 <= q < p ==> is_constant((#[trigger] g@.nodes[inputs@[q] as int]).op) && out@[q]@
                    == constant_of(g@.nodes[inputs@[q] as int].op),
    {
        let node = g.node(inputs[p]);
        match &node.op {
            OpOf::Input(t) => {
                out.push(t);
            },
            _ => {
                proof {
                    assert(!is_constant(g@.nodes[inputs@[p as int] as int].op));
                }
                return None;
            },
        }
    }
    proof {
        assert(constant_operands(g@, n as int).unwrap() =~= operand_views(out@));
    }
    Some(out)
}

/// Whether an operation is a constant.
fn is_input(op: &Op) -> (r: bool)
    ensures
        r == is_constant(op@),
{
    match op {
        OpOf::Input(_) => true,
        _ => false,
    }
}

/// The operands of a node stay constants when another node becomes one.
proof fn lemma_operands_stay(g: GraphView, h: GraphView, m: int, n: int)
    requires
        g.wf(),
        0 <= m < g.nodes.len(),
        0 <= n < g.nodes.len(),
        !is_constant(g.nodes[m].op),
        h.edges == g.edges,
        h.nodes == g.nodes.update(m, h.nodes[m]),
        constant_operands(g, n) is Some,
    ensures
        constant_operands(h, n) == constant_operands(g, n),
{
    let s = g.inputs(n as usize).unwrap();
    lemma_inputs_in_range(g, n as usize);
    assert forall|p: int| 0 <= p < s.len() implies h.nodes[s[p] as int]
        == #[trigger] g.nodes[s[p] as int] by {
        assert(s[p] < g.nodes.len());
        assert(is_constant(g.nodes[s[p] as int].op));
    }
    assert forall|p: int| 0 <= p < s.len() implies is_constant(
        (#[trigger] h.nodes[s[p] as int]).op,
    ) by {
        assert(h.nodes[s[p] as int] == g.nodes[s[p] as int]);
    }
    assert(constant_operands(h, n).unwrap() =~= constant_operands(g, n).unwrap());
}

/// One more node is folded.
proof fn lemma_fold_step<F: Float>(
    f: F,
    g0: GraphView,
    g: GraphView,
    h: GraphView,
    start: u64,
    order: Seq<int>,
    m: int,
    xs: Seq<TensorView>,
    t: TensorView,
)
    requires
        g.wf(),
        0 <= m < g.nodes.len(),
        folding(f, g0, g, start, order),
        !is_constant(g.nodes[m].op),
        constant_operands(g, m) == Some(xs),
        evaluates(f, g.nodes[m].op, xs, t),
        h.edges == g.edges,
        h.nodes == g.nodes.update(
            m,
            NodeView {
                op: OpOf::Input(t),
                shape: t.shape,
                dtype: Dtype::F32,
                id: id_after(start, order.len()),
            },
        ),
    ensures
        folding(f, g0, h, start, order.push(m)),
{
    let more = order.push(m);
    assert(!order.contains(m)) by {
        if order.contains(m) {
            let k = choose|k: int| 0 <= k < order.len() && order[k] == m;
            assert(folded(f, g, order[k], g0.nodes[order[k]]));
        }
    }
    assert(g.nodes[m] == g0.nodes[m]);
    lemma_operands_stay(g, h, m, m);
    assert forall|k: int| 0 <= k < more.len() implies {
        &&& 0 <= #[trigger] more[k] < g0.nodes.len()
        &&& folded(f, h, more[k], g0.nodes[more[k]])
        &&& h.nodes[more[k]].id == id_after(start, k as nat)
    } by {
        if k < order.len() {
            assert(more[k] == order[k]);
            assert(folded(f, g, order[k], g0.nodes[order[k]]));
            assert(order[k] != m);
            lemma_operands_stay(g, h, m, order[k]);
        }
    }
    assert forall|n: int| 0 <= n < g0.nodes.len() && !more.contains(n) implies #[trigger] h.nodes[n]
        == g0.nodes[n] by {
        assert(more[order.len() as int] == m);
        assert(n != m);
        if order.contains(n) {
            let k = choose|k: int| 0 <= k < order.len() && order[k] == n;
            assert(more[k] == n);
        }
        assert(g.nodes[n] == g0.nodes[n]);
    }
}

/// The constant that node `n` folds to, if the host computes it.
fn fold_node<F: Float>(g: &TensorGraph, n: usize, backend: &CpuBackend<F>) -> (r: Option<Tensor>)
    requires
        g.wf(),
        n < g@.nodes.len(),
    ensures
        match r {
            Some(t) => {
                &&& t.wf()
                &&& !is_constant(g@.nodes[n as int].op)
                &&& constant_operands(g@, n as int) matches Some(xs) && evaluates(
                    backend.float,
                    g@.nodes[n as int].op,
                    xs,
                    t@,
                )
            },
            None => is_constant(g@.nodes[n as int].op) || (constant_operands(
                g@,
                n as int,
            ) matches Some(xs) ==> stays(backend.float, g@.nodes[n as int].op, xs)),
        },
{
    let op: &Op = &g.node(n).op;
    if is_input(op) {
        return None;
    }
    match collect_constants(g, n) {
        Some(inputs) => {
            let r = backend.execute(op, inputs.as_slice());
            proof {
                assert(realized(backend.float, op_outcome(op@, operand_views(inputs@)), r));
            }
            match r {
                Ok(out) => match out.data {
                    AnyData::F32(d) => Some(Tensor::new(d, out.shape)),
                    AnyData::F16(_) => None,
                },
                Err(_) => None,
            }
        },
        None => None,
    }
}

/// Computes every node whose operands are constants, until none is left that
/// the host can compute. A node that the host fails on is kept.
pub fn run_constant_fold_pass<F: Float>(graph: &mut TensorGraph, backend: &CpuBackend<F>) -> (r:
    Result<(), Error>)
    requires
        old(graph).wf(),
    ensures
        r is Ok,
        final(graph).wf(),
        constant_folded(
            backend.float,
            old(graph)@,
            final(graph)@,
            old(graph).next_tensor_id(),
            final(graph).next_tensor_id(),
        ),
        final(graph).compiles_on_run() == old(graph).compiles_on_run(),
{
    let ghost g0 = graph@;
    let ghost start = graph.next_tensor_id();
    let ghost mut order: Seq<int> = Seq::empty();
    let count: usize = graph.node_count();
    let mut changed: bool = true;
    while changed
        invariant
            graph.wf(),
            count == graph@.nodes.len(),
            folding(backend.float, g0, graph@, start, order),
            graph.next_tensor_id() == id_after(start, order.len()),
            graph.compiles_on_run() == old(graph).compiles_on_run(),
            !changed ==> nothing_to_fold(backend.float, graph@, count as int),
        decreases computed_nodes(graph@.nodes), changed as int,
    {
        changed = false;
        let ghost before = computed_nodes(graph@.nodes);
        for i in 0..count
            invariant
                graph.wf(),
                count == graph@.nodes.len(),
                folding(backend.float, g0, graph@, start, order),
                graph.next_tensor_id() == id_after(start, order.len()),
                graph.compiles_on_run() == old(graph).compiles_on_run(),
                changed ==> computed_nodes(graph@.nodes) < before,
                !changed ==> computed_nodes(graph@.nodes) == before,
                !changed ==> nothing_to_fold(backend.float, graph@, i as int),
        {
            if let Some(t) = fold_node(graph, i, backend) {
                let ghost g = graph@;
                let ghost tv = t@;
                proof {
                    graph.lemma_wf();
                }
                graph.replace_with_constant(i, t);
                proof {
                    lemma_fold_step(
                        backend.float,
                        g0,
                        g,
                        graph@,
                        start,
                        order,
                        i as int,
                        constant_operands(g, i as int).unwrap(),
                        tv,
                    );
                    lemma_computed_nodes_drop(g.nodes, i as int, graph@.nodes[i as int]);
                    order = order.push(i as int);
                }
                changed = true;
            }
        }
    }
    Ok(())
}

/// Constants are not folded again: they keep their tensor and identifier.
pub proof fn law_fold_keeps_constants<F: Float>(
    f: F,
    g0: GraphView,
    g: GraphView,
    start: u64,
    next: u64,
    n: int,
)
    requires
        constant_folded(f, g0, g, start, next),
        0 <= n < g0.nodes.len(),
        is_constant(g0.nodes[n].op),
    ensures
        g.nodes[n] == g0.nodes[n],
{
    let order = choose|order: Seq<int>| #[trigger]
        folding(f, g0, g, start, order) && next == id_after(start, order.len());
    if order.contains(n) {
        let k = choose|k: int| 0 <= k < order.len() && order[k] == n;
        assert(folded(f, g, order[k], g0.nodes[order[k]]));
    }
}

/// A node that computes from an operand that is still computed is kept.
pub proof fn law_fold_skips_computed_operands<F: Float>(
    f: F,
    g0: GraphView,
    g: GraphView,
    start: u64,
    next: u64,
    n: int,
    p: int,
)
    requires
        constant_folded(f, g0, g, start, next),
        0 <= n < g0.nodes.len(),
        g0.inputs(n as usize) matches Some(s) && 0 <= p < s.len() && !is_constant(
            g.nodes[s[p] as int].op,
        ),
    ensures
        g.nodes[n] == g0.nodes[n],
{
    let order = choose|order: Seq<int>| #[trigger]
        folding(f, g0, g, start, order) && next == id_after(start, order.len());
    if order.contains(n) {
        let k = choose|k: int| 0 <= k < order.len() && order[k] == n;
        assert(folded(f, g, order[k], g0.nodes[order[k]]));
        let s = g0.inputs(n as usize).unwrap();
        assert(is_constant(g.nodes[s[p] as int].op));
    }
}

} // verus!
