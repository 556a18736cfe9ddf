//! Algebraic simplification: identities with constant operands.

use crate::error::Error;
use crate::float::{at_least, eq, equal, ge, ONE, ZERO};
use crate::graph::{
    get_binary_inputs, get_unary_input, lemma_inputs_in_range, GraphView, NodeView,
    TensorGraph,
};
use crate::op::{Op, OpOf, OpView};
use crate::shape::{numel, Shape};
use crate::tensor::{single, AnyData, DataView, Tensor};
use vstd::prelude::*;

verus! {

/// The node is a constant.
pub open spec fn is_constant(op: OpView) -> bool {
    op is Input
}

/// The node is a non-empty single-precision constant, every element of which
/// is the number `value`.
pub open spec fn all_equal(op: OpView, value: u32) -> bool {
    match op {
        OpOf::Input(t) => match t.data {
            DataView::F32(d) => d.len() > 0 && forall|i: int|
                0 <= i < d.len() ==> equal(#[trigger] d[i], value),
            DataView::F16(_) => false,
        },
        _ => false,
    }
}

/// The node is a single-precision constant without negative elements.
pub open spec fn all_non_negative(op: OpView) -> bool {
    match op {
        OpOf::Input(t) => match t.data {
            DataView::F32(d) => forall|i: int| 0 <= i < d.len() ==> at_least(#[trigger] d[i], ZERO),
            DataView::F16(_) => false,
        },
        _ => false,
    }
}

/// A constant of the given shape with the same number everywhere.
pub open spec fn filled(value: u32, shape: Seq<usize>) -> OpView {
    OpOf::Input(single(Seq::new(numel(shape), |i: int| value), shape))
}

/// What the operation `op` of node `n` becomes, if an identity applies:
///
/// * `x + 0` and `0 + x` become `x`;
/// * `x * 0` and `0 * x` become zeros, `x * 1` and `1 * x` become `x`, and
///   `sqrt(x) * sqrt(x)` becomes `x` where `x` has no negative element;
/// * `x - x` becomes zeros, `x / 1` becomes `x`;
/// * `-(-x)` becomes `x`, and `exp(0)` becomes ones.
///
/// An operand takes the node's place only where it is a constant.
pub open spec fn rule(g: GraphView, n: int, op: OpView) -> Option<OpView> {
    match op {
        OpOf::Add => match g.binary_inputs(n as usize) {
            Some((l, r)) => {
                let lop = g.nodes[l as int].op;
                let rop = g.nodes[r as int].op;
                if all_equal(rop, ZERO) && is_constant(lop) {
                    Some(lop)
                } else if all_equal(lop, ZERO) && is_constant(rop) {
                    Some(rop)
                } else {
                    None
                }
            },
            None => None,
        },
        OpOf::Mul => match g.binary_inputs(n as usize) {
            Some((l, r)) => {
                let lop = g.nodes[l as int].op;
                let rop = g.nodes[r as int].op;
                if all_equal(lop, ZERO) || all_equal(rop, ZERO) {
                    Some(filled(ZERO, g.nodes[n].shape))
                } else if all_equal(rop, ONE) && is_constant(lop) {
                    Some(lop)
                } else if all_equal(lop, ONE) && is_constant(rop) {
                    Some(rop)
                } else if l == r && lop is Sqrt {
                    match g.unary_input(l) {
                        Some(x) => if all_non_negative(g.nodes[x as int].op) {
                            Some(g.nodes[x as int].op)
                        } else {
                            None
                        },
                        None => None,
                    }
                } else {
                    None
                }
            },
            None => None,
        },
        OpOf::Sub => match g.binary_inputs(n as usize) {
            Some((l, r)) => if l == r {
                Some(filled(ZERO, g.nodes[n].shape))
            } else {
                None
            },
            None => None,
        },
        OpOf::Div => match g.binary_inputs(n as usize) {
            Some((l, r)) => {
                let lop = g.nodes[l as int].op;
                if all_equal(g.nodes[r as int].op, ONE) && is_constant(lop) {
                    Some(lop)
                } else {
                    None
                }
            },
            None => None,
        },
        OpOf::Neg => match g.unary_input(n as usize) {
            Some(a) => if g.nodes[a as int].op is Neg {
                match g.unary_input(a) {
                    Some(x) => if is_constant(g.nodes[x as int].op) {
                        Some(g.nodes[x as int].op)
                    } else {
                        None
                    },
                    None => None,
                }
            } else {
                None
            },
            None => None,
        },
        OpOf::Exp => match g.unary_input(n as usize) {
            Some(a) => if all_equal(g.nodes[a as int].op, ZERO) {
                Some(filled(ONE, g.nodes[n].shape))
            } else {
                None
            },
            None => None,
        },
        _ => None,
    }
}

/// The operation of node `n` after its identity, if one applies.
pub open spec fn simplest(g: GraphView, n: int, op: OpView) -> OpView {
    match rule(g, n, op) {
        Some(o) => o,
        None => op,
    }
}

/// `g` is `g0` simplified: edges, shapes, element types and identifiers are
/// those of `g0`, and every operation is what its identity gives when the
/// operands are read as simplified.
pub open spec fn simplified(g0: GraphView, g: GraphView) -> bool {
    &&& same_but_ops(g0, g)
    &&& forall|n: int|
        0 <= n < g0.nodes.len() ==> (#[trigger] g.nodes[n]).op == simplest(g, n, g0.nodes[n].op)
}

/// The graphs differ in the nodes' operations only.
pub open spec fn same_but_ops(g0: GraphView, g: GraphView) -> bool {
    &&& g.edges == g0.edges
    &&& g.nodes.len() == g0.nodes.len()
    &&& forall|n: int|
        0 <= n < g0.nodes.len() ==> {
            &&& (#[trigger] g.nodes[n]).shape == g0.nodes[n].shape
            &&& g.nodes[n].dtype == g0.nodes[n].dtype
            &&& g.nodes[n].id == g0.nodes[n].id
        }
}

/// How many nodes are not constants.
pub open spec fn computed_nodes(nodes: Seq<NodeView>) -> nat
    decreases nodes.len(),
{
    if nodes.len() == 0 {
        0
    } else {
        computed_nodes(nodes.drop_last()) + (if is_constant(nodes.last().op) {
            0nat
        } else {
            1
        })
    }
}

pub proof fn lemma_computed_nodes_drop(nodes: Seq<NodeView>, n: int, v: NodeView)
    requires
        0 <= n < nodes.len(),
        !is_constant(nodes[n].op),
        is_constant(v.op),
    ensures
        computed_nodes(nodes.update(n, v)) + 1 == computed_nodes(nodes),
    decreases nodes.len(),
{
    let u = nodes.update(n, v);
    if n == nodes.len() - 1 {
        assert(u.drop_last() =~= nodes.drop_last());
    } else {
        assert(u.drop_last() =~= nodes.drop_last().update(n, v));
        lemma_computed_nodes_drop(nodes.drop_last(), n, v);
    }
}

/// A rule that applies keeps applying, with the same result, when another node
/// is simplified.
proof fn lemma_rule_stable(g: GraphView, m: int, new_op: OpView, n: int, op: OpView)
    requires
        g.wf(),
        0 <= m < g.nodes.len(),
        0 <= n < g.nodes.len(),
        rule(g, m, g.nodes[m].op) == Some(new_op),
        rule(g, n, op) is Some,
    ensures
        rule(g.with_op(m, new_op), n, op) == rule(g, n, op),
{
    let h = g.with_op(m, new_op);
    assert(h.nodes[n].shape == g.nodes[n].shape);
    lemma_operands_in_range(g, n);
    lemma_operands_in_range(g, m);
}

/// The operands that a rule looks at are nodes of the graph.
proof fn lemma_operands_in_range(g: GraphView, n: int)
    requires
        g.wf(),
        0 <= n < g.nodes.len(),
    ensures
        g.binary_inputs(n as usize) matches Some((l, r)) ==> {
            &&& l < g.nodes.len()
            &&& r < g.nodes.len()
            &&& g.unary_input(l) matches Some(x) ==> x < g.nodes.len()
        },
        g.unary_input(n as usize) matches Some(a) ==> {
            &&& a < g.nodes.len()
            &&& g.unary_input(a) matches Some(x) ==> x < g.nodes.len()
        },
{
    if g.inputs(n as usize) is Some {
        lemma_inputs_in_range(g, n as usize);
        let s = g.inputs(n as usize).unwrap();
        if s.len() > 0 {
            assert(s[0] < g.nodes.len());
            if g.inputs(s[0]) is Some {
                lemma_inputs_in_range(g, s[0]);
                let t = g.inputs(s[0]).unwrap();
                if t.len() > 0 {
                    assert(t[0] < g.nodes.len());
                }
            }
        }
        if s.len() > 1 {
            assert(s[1] < g.nodes.len());
        }
    }
}

/// Whether node `n` is a constant made of the number `value`.
fn is_filled_node(g: &TensorGraph, n: usize, value: u32) -> (r: bool)
    requires
        g.wf(),
        n < g@.nodes.len(),
    ensures
        r == all_equal(g@.nodes[n as int].op, value),
{
    match &g.node(n).op {
        OpOf::Input(t) => match &t.data {
            AnyData::F32(d) => {
                for i in 0..d.len()
                    invariant
                        forall|j: int| 0 <= j < i ==> equal(#[trigger] d@[j], value),
                        g@.nodes[n as int].op matches OpOf::Input(tv) && tv.data
                            == DataView::F32(d@),
                {
                    if !eq(d[i], value) {
                        return false;
                    }
                }
                d.len() > 0
            },
            AnyData::F16(_) => false,
        },
        _ => false,
    }
}

/// Whether node `n` is a zero constant.
fn is_zero_node(g: &TensorGraph, n: usize) -> (r: bool)
    requires
        g.wf(),
        n < g@.nodes.len(),
    ensures
        r == all_equal(g@.nodes[n as int].op, ZERO),
{
    is_filled_node(g, n, ZERO)
}

/// Whether node `n` is a constant of ones.
fn is_one_node(g: &TensorGraph, n: usize) -> (r: bool)
    requires
        g.wf(),
        n < g@.nodes.len(),
    ensures
        r == all_equal(g@.nodes[n as int].op, ONE),
{
    is_filled_node(g, n, ONE)
}

/// Whether node `n` is a constant without negative elements.
fn is_non_negative_node(g: &TensorGraph, n: usize) -> (r: bool)
    requires
        g.wf(),
        n < g@.nodes.len(),
    ensures
        r == all_non_negative(g@.nodes[n as int].op),
{
    match &g.node(n).op {
        OpOf::Input(t) => match &t.data {
            AnyData::F32(d) => {
                for i in 0..d.len()
                    invariant
                        forall|j: int| 0 <= j < i ==> at_least(#[trigger] d@[j], ZERO),
                        g@.nodes[n as int].op matches OpOf::Input(tv) && tv.data
                            == DataView::F32(d@),
                {
                    if !ge(d[i], ZERO) {
                        proof {
                            let dd = g@.nodes[n as int].op->Input_0.data->F32_0;
                            assert(dd == d@);
                            assert(!at_least(dd[i as int], ZERO));
                        }
                        return false;
                    }
                }
                true
            },
            AnyData::F16(_) => false,
        },
        _ => false,
    }
}

/// A copy of the constant at node `n`, if it is one.
fn tensor_from(g: &TensorGraph, n: usize) -> (r: Option<Op>)
    requires
        g.wf(),
        n < g@.nodes.len(),
    ensures
        match r {
            Some(op) => op@ == g@.nodes[n as int].op && is_constant(op@) && op.wf(),
            None => !is_constant(g@.nodes[n as int].op),
        },
{
    match &g.node(n).op {
        OpOf::Input(t) => Some(OpOf::Input(t.copy())),
        _ => None,
    }
}

/// A constant with the shape of node `n` and the same number everywhere.
fn filled_like(g: &TensorGraph, n: usize, value: u32) -> (op: Op)
    requires
        g.wf(),
        n < g@.nodes.len(),
    ensures
        op@ == filled(value, g@.nodes[n as int].shape),
        op.wf(),
{
    let shape: Shape = g.node(n).shape.copy();
    let count: usize = shape.num_elements();
    let data: Vec<u32> = vec![value; count];
    proof {
        assert(data@ =~= Seq::new(numel(shape@), |i: int| value));
    }
    OpOf::Input(Tensor::new(data, shape))
}

/// The operation that node `n` simplifies to, if an identity applies.
fn try_simplify_node(g: &TensorGraph, n: usize, op: &Op) -> (r: Option<Op>)
    requires
        g.wf(),
        n < g@.nodes.len(),
    ensures
        match r {
            Some(o) => rule(g@, n as int, op@) == Some(o@) && is_constant(o@) && o.wf(),
            None => rule(g@, n as int, op@) is None,
        },
{
    match op {
        OpOf::Add => {
            if let Ok((lhs, rhs)) = get_binary_inputs(g, n) {
                if is_zero_node(g, rhs) {
                    if let Some(o) = tensor_from(g, lhs) {
                        return Some(o);
                    }
                }
                if is_zero_node(g, lhs) {
                    if let Some(o) = tensor_from(g, rhs) {
                        return Some(o);
                    }
                }
            }
            None
        },
        OpOf::Mul => {
            if let Ok((lhs, rhs)) = get_binary_inputs(g, n) {
                if is_zero_node(g, lhs) || is_zero_node(g, rhs) {
                    return Some(filled_like(g, n, ZERO));
                }
                if is_one_node(g, rhs) {
                    if let Some(o) = tensor_from(g, lhs) {
                        return Some(o);
                    }
                }
                if is_one_node(g, lhs) {
                    if let Some(o) = tensor_from(g, rhs) {
                        return Some(o);
                    }
                }
                if lhs == rhs && is_sqrt_node(g, lhs) {
                    if let Ok(x) = get_unary_input(g, lhs) {
                        if is_non_negative_node(g, x) {
                            return tensor_from(g, x);
                        }
                    }
                }
            }
            None
        },
        OpOf::Sub => {
            if let Ok((lhs, rhs)) = get_binary_inputs(g, n) {
                if lhs == rhs {
                    return Some(filled_like(g, n, ZERO));
                }
            }
            None
        },
        OpOf::Div => {
            if let Ok((lhs, rhs)) = get_binary_inputs(g, n) {
                if is_one_node(g, rhs) {
                    if let Some(o) = tensor_from(g, lhs) {
                        return Some(o);
                    }
                }
            }
            None
        },
        OpOf::Neg => {
            if let Ok(input) = get_unary_input(g, n) {
                if is_neg_node(g, input) {
                    if let Ok(x) = get_unary_input(g, input) {
                        return tensor_from(g, x);
                    }
                }
            }
            None
        },
        OpOf::Exp => {
            if let Ok(input) = get_unary_input(g, n) {
                if is_zero_node(g, input) {
                    return Some(filled_like(g, n, ONE));
                }
            }
            None
        },
        _ => None,
    }
}

/// Whether node `n` is a square root.
fn is_sqrt_node(g: &TensorGraph, n: usize) -> (r: bool)
    requires
        g.wf(),
        n < g@.nodes.len(),
    ensures
        r == (g@.nodes[n as int].op is Sqrt),
{
    match &g.node(n).op {
        OpOf::Sqrt => true,
        _ => false,
    }
}

/// Whether node `n` is a negation.
fn is_neg_node(g: &TensorGraph, n: usize) -> (r: bool)
    requires
        g.wf(),
        n < g@.nodes.len(),
    ensures
        r == (g@.nodes[n as int].op is Neg),
{
    match &g.node(n).op {
        OpOf::Neg => true,
        _ => false,
    }
}

/// Every node is as it was, or is a constant that its identity gives.
spec fn progress(g0: GraphView, g: GraphView) -> bool {
    &&& same_but_ops(g0, g)
    &&& forall|n: int|
        0 <= n < g0.nodes.len() ==> {
            ||| (#[trigger] g.nodes[n]).op == g0.nodes[n].op
            ||| rule(g, n, g0.nodes[n].op) == Some(g.nodes[n].op)
        }
}

proof fn lemma_progress_step(g0: GraphView, g: GraphView, m: int, new_op: OpView)
    requires
        progress(g0, g),
        g.wf(),
        0 <= m < g.nodes.len(),
        rule(g, m, g.nodes[m].op) == Some(new_op),
    ensures
        progress(g0, g.with_op(m, new_op)),
{
    let h = g.with_op(m, new_op);
    assert forall|n: int| 0 <= n < g0.nodes.len() implies ((#[trigger] h.nodes[n]).op
        == g0.nodes[n].op || rule(h, n, g0.nodes[n].op) == Some(h.nodes[n].op)) by {
        assert(g.nodes[n].op == g0.nodes[n].op || rule(g, n, g0.nodes[n].op) == Some(
            g.nodes[n].op,
        ));
        if n == m {
            // A node that already is a constant has no identity.
            lemma_rule_constant(g, n, g0.nodes[n].op);
            assert(g.nodes[m].op == g0.nodes[m].op);
            lemma_rule_stable(g, m, new_op, m, g0.nodes[m].op);
        } else if rule(g, n, g0.nodes[n].op) is Some {
            lemma_rule_stable(g, m, new_op, n, g0.nodes[n].op);
        }
    }
}

/// An identity gives a constant.
pub proof fn lemma_rule_constant(g: GraphView, n: int, op: OpView)
    ensures
        rule(g, n, op) matches Some(o) ==> is_constant(o),
        is_constant(op) ==> rule(g, n, op) is None,
{
}

/// No identity applies to any node.
pub open spec fn settled(g: GraphView) -> bool {
    forall|n: int| 0 <= n < g.nodes.len() ==> rule(g, n, (#[trigger] g.nodes[n]).op) is None
}

/// Applies the algebraic identities until none applies any more. Where none
/// applies, the graph stays as it is.
pub fn run_simplify_pass(graph: &mut TensorGraph) -> (r: Result<(), Error>)
    requires
        old(graph).wf(),
    ensures
        r is Ok,
        final(graph).wf(),
        simplified(old(graph)@, final(graph)@),
        settled(old(graph)@) ==> final(graph)@ == old(graph)@,
        final(graph).next_tensor_id() == old(graph).next_tensor_id(),
        final(graph).compiles_on_run() == old(graph).compiles_on_run(),
{
    let ghost g0 = graph@;
    let count: usize = graph.node_count();
    let mut changed: bool = true;
    while changed
        invariant
            graph.wf(),
            count == graph@.nodes.len(),
            progress(g0, graph@),
            settled(g0) ==> graph@ == g0,
            graph.next_tensor_id() == old(graph).next_tensor_id(),
            graph.compiles_on_run() == old(graph).compiles_on_run(),
            !changed ==> forall|n: int|
                0 <= n < count ==> rule(graph@, n, (#[trigger] graph@.nodes[n]).op) is None,
        decreases computed_nodes(graph@.nodes), changed as int,
    {
        changed = false;
        let ghost start = computed_nodes(graph@.nodes);
        for i in 0..count
            invariant
                graph.wf(),
                count == graph@.nodes.len(),
                progress(g0, graph@),
                settled(g0) ==> graph@ == g0,
                graph.next_tensor_id() == old(graph).next_tensor_id(),
                graph.compiles_on_run() == old(graph).compiles_on_run(),
                changed ==> computed_nodes(graph@.nodes) < start,
                !changed ==> computed_nodes(graph@.nodes) == start,
                !changed ==> forall|n: int|
                    0 <= n < i ==> rule(graph@, n, (#[trigger] graph@.nodes[n]).op) is None,
        {
            let op: Op = graph.node(i).op.copy();
            if let Some(new_op) = try_simplify_node(graph, i, &op) {
                proof {
                    graph.lemma_wf();
                    if settled(g0) {
                        assert(rule(g0, i as int, g0.nodes[i as int].op) is None);
                    }
                    lemma_rule_constant(graph@, i as int, op@);
                    lemma_progress_step(g0, graph@, i as int, new_op@);
                    lemma_computed_nodes_drop(
                        graph@.nodes,
                        i as int,
                        NodeView { op: new_op@, ..graph@.nodes[i as int] },
                    );
                }
                graph.set_op(i, new_op);
                changed = true;
            }
        }
    }
    proof {
        assert forall|n: int| 0 <= n < g0.nodes.len() implies (#[trigger] graph@.nodes[n]).op
            == simplest(graph@, n, g0.nodes[n].op) by {
            assert(rule(graph@, n, graph@.nodes[n].op) is None);
        }
    }
    Ok(())
}

/// A simplified graph has no identity left to apply: it is its own
/// simplification, and the pass leaves it as it is.
pub proof fn law_simplify_reaches_fixpoint(g0: GraphView, g: GraphView)
    requires
        simplified(g0, g),
    ensures
        settled(g),
        simplified(g, g),
{
    assert forall|n: int| 0 <= n < g.nodes.len() implies rule(
        g,
        n,
        (#[trigger] g.nodes[n]).op,
    ) is None by {
        lemma_rule_constant(g, n, g0.nodes[n].op);
        lemma_rule_constant(g, n, g.nodes[n].op);
    }
}

/// Constants stay as they are.
pub proof fn law_simplify_keeps_constants(g0: GraphView, g: GraphView, n: int)
    requires
        simplified(g0, g),
        0 <= n < g0.nodes.len(),
        is_constant(g0.nodes[n].op),
    ensures
        g.nodes[n] == g0.nodes[n],
{
    lemma_rule_constant(g, n, g0.nodes[n].op);
}

/// A sum or quotient with an operand that is still computed is left alone: the
/// operand's value is not known before the graph is run.
pub proof fn law_simplify_skips_computed_operands(
    g0: GraphView,
    g: GraphView,
    n: int,
    l: usize,
    r: usize,
)
    requires
        simplified(g0, g),
        0 <= n < g0.nodes.len(),
        g0.nodes[n].op is Add || g0.nodes[n].op is Div,
        g0.binary_inputs(n as usize) == Some((l, r)),
        !is_constant(g.nodes[l as int].op) || !is_constant(g.nodes[r as int].op),
    ensures
        g.nodes[n] == g0.nodes[n],
{
    assert(g.nodes[n].op == simplest(g, n, g0.nodes[n].op));
}

/// `rank` grows along every edge, so the graph has no cycle.
pub open spec fn acyclic_by(g: GraphView, rank: Seq<nat>) -> bool {
    &&& rank.len() == g.nodes.len()
    &&& forall|i: int|
        0 <= i < g.edges.len() ==> rank[(#[trigger] g.edges[i]).0 as int]
            < rank[g.edges[i].1 as int]
}

/// On a graph without cycles the simplified graph is determined.
pub proof fn law_simplified_unique(g0: GraphView, a: GraphView, b: GraphView, rank: Seq<nat>)
    requires
        g0.wf(),
        acyclic_by(g0, rank),
        simplified(g0, a),
        simplified(g0, b),
    ensures
        a == b,
{
    assert forall|n: int| 0 <= n < g0.nodes.len() implies a.nodes[n] == b.nodes[n] by {
        lemma_unique_at(g0, a, b, rank, n);
        assert(a.nodes[n].op == b.nodes[n].op);
    }
    assert(a.nodes =~= b.nodes);
}

proof fn lemma_unique_at(g0: GraphView, a: GraphView, b: GraphView, rank: Seq<nat>, n: int)
    requires
        g0.wf(),
        acyclic_by(g0, rank),
        simplified(g0, a),
        simplified(g0, b),
        0 <= n < g0.nodes.len(),
    ensures
        a.nodes[n].op == b.nodes[n].op,
    decreases rank[n],
{
    lemma_operands_in_range(g0, n);
    if g0.inputs(n as usize) is Some {
        lemma_inputs_in_range(g0, n as usize);
        let s = g0.inputs(n as usize).unwrap();
        assert forall|p: int| 0 <= p < s.len() implies a.nodes[s[p] as int].op
            == b.nodes[#[trigger] s[p] as int].op && rank[s[p] as int] < rank[n] by {
            lemma_edge_of_input(g0, n as usize, s, p);
            lemma_unique_at(g0, a, b, rank, s[p] as int);
        }
        if s.len() > 0 && g0.inputs(s[0]) is Some {
            lemma_inputs_in_range(g0, s[0]);
            let t = g0.inputs(s[0]).unwrap();
            assert(rank[s[0] as int] < rank[n]);
            assert forall|p: int| 0 <= p < t.len() implies a.nodes[t[p] as int].op
                == b.nodes[#[trigger] t[p] as int].op by {
                lemma_edge_of_input(g0, s[0], t, p);
                lemma_unique_at(g0, a, b, rank, t[p] as int);
            }
        }
    }
    assert(rule(a, n, g0.nodes[n].op) == rule(b, n, g0.nodes[n].op));
}

/// Every operand comes along an edge.
pub proof fn lemma_edge_of_input(g: GraphView, n: usize, s: Seq<usize>, p: int)
    requires
        g.wf(),
        g.is_inputs(n, s),
        0 <= p < s.len(),
    ensures
        exists|i: int|
            0 <= i < g.edges.len() && (#[trigger] g.edges[i]).0 == s[p] && g.edges[i].1 == n,
        s[p] < g.nodes.len(),
        n < g.nodes.len(),
{
    crate::graph::lemma_inputs_len(g, n, s);
    let e = (s[p], n, p as usize);
    assert(g.edges.to_multiset().count((s[p], n, p as usize)) == 1);
    vstd::seq_lib::to_multiset_contains(g.edges, e);
    let i = choose|i: int| 0 <= i < g.edges.len() && g.edges[i] == e;
    assert(g.edges[i].0 == s[p] && g.edges[i].1 == n);
}

} // verus!
