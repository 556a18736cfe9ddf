//! Running a graph: what its nodes come to.

use crate::backend::cpu::CpuBackend;
use crate::backend::dispatch::op_outcome;
use crate::backend::Backend;
use crate::compiler::dce::lemma_bounded;
use crate::compiler::simplify::{acyclic_by, lemma_edge_of_input};
use crate::error::{execution_error, Error, ErrorView};
use crate::float::Float;
use crate::graph::{get_indexed_inputs, lemma_inputs_in_range, GraphView, TensorGraph};
use crate::op::{OpOf, OpView};
use crate::sym::{operand_views, operands_wf, product_failed, realized, realizes, Outcome};
use crate::tensor::{Tensor, TensorView};
use vstd::prelude::*;

verus! {

/// Every edge runs from an earlier node to a later one. Graphs whose nodes are
/// added after their operands are in order.
pub open spec fn in_order(g: GraphView) -> bool {
    forall|i: int| 0 <= i < g.edges.len() ==> (#[trigger] g.edges[i]).0 < g.edges[i].1
}

/// An operation on nodes that are there keeps a graph in order.
pub proof fn law_applying_keeps_order(before: GraphView, after: GraphView, inputs: Seq<usize>)
    requires
        before.wf(),
        in_order(before),
        forall|i: int| 0 <= i < inputs.len() ==> #[trigger] inputs[i] < before.nodes.len(),
        after.edges == before.edges + Seq::new(
            inputs.len(),
            |p: int| (inputs[p], before.nodes.len() as usize, p as usize),
        ),
    ensures
        in_order(after),
{
    assert forall|i: int| 0 <= i < after.edges.len() implies (#[trigger] after.edges[i]).0
        < after.edges[i].1 by {
        let k = before.edges.len() as int;
        if i < k {
            assert(after.edges[i] == before.edges[i]);
        } else {
            assert(after.edges[i] == (
                inputs[i - k],
                before.nodes.len() as usize,
                (i - k) as usize,
            ));
        }
    }
}

/// Whether a graph is in order.
pub fn check_order(g: &TensorGraph) -> (r: bool)
    requires
        g.wf(),
    ensures
        r == in_order(g@),
        r ==> acyclic(g@),
{
    proof {
        g.lemma_wf();
    }
    let count: usize = g.node_count();
    for n in 0..count
        invariant
            g.wf(),
            count == g@.nodes.len(),
            forall|i: int|
                0 <= i < g@.edges.len() && (#[trigger] g@.edges[i]).1 < n ==> g@.edges[i].0
                    < g@.edges[i].1,
    {
        let found = g.edges_directed(n, false);
        for k in 0..found.len()
            invariant
                n < g@.nodes.len(),
                forall|i: int|
                    0 <= i < found@.len() ==> {
                        let (id, e) = #[trigger] found@[i];
                        id < g@.edges.len() && e == g@.edges[id as int] && e.1 == n
                    },
                forall|i: int| 0 <= i < k ==> (#[trigger] found@[i]).1.0 < n,
        {
            if found[k].1.0 >= n {
                proof {
                    let id = found@[k as int].0 as int;
                    assert(g@.edges[id].0 >= g@.edges[id].1);
                }
                return false;
            }
        }
        proof {
            assert forall|i: int|
                0 <= i < g@.edges.len() && (#[trigger] g@.edges[i]).1 < n + 1 implies g@.edges[i].0
                < g@.edges[i].1 by {
                if g@.edges[i].1 == n {
                    let k = choose|k: int| 0 <= k < found@.len() && (#[trigger] found@[k]).0 == i;
                    assert(found@[k].1 == g@.edges[i]);
                }
            }
        }
    }
    proof {
        lemma_order_is_acyclic(g@);
    }
    true
}

/// The host may compute the operation on the operands to the tensor `t`.
pub open spec fn may_give<F: Float>(f: F, op: OpView, xs: Seq<TensorView>, t: TensorView) -> bool {
    match op_outcome(op, xs) {
        Outcome::Yields(s, _) => realizes(f, s, t),
        Outcome::Copies(x) => t == x,
        Outcome::Fails(_) => false,
    }
}

/// The host may fail to compute the operation, with this error.
pub open spec fn may_fail<F: Float>(f: F, op: OpView, xs: Seq<TensorView>, e: ErrorView) -> bool {
    match op_outcome(op, xs) {
        Outcome::Yields(_, products) => products && product_failed(f) && e
            == ErrorView::ExecutionError("Matrix product has the wrong size"@),
        Outcome::Copies(_) => false,
        Outcome::Fails(x) => e == x,
    }
}

/// Node `n` may come to the tensor `t` in at most `d` steps: a constant to its
/// tensor, another node to what its operation may give on tensors that its
/// operands may come to in one step less.
pub open spec fn comes_within<F: Float>(f: F, g: GraphView, n: int, t: TensorView, d: nat) -> bool
    decreases d, 0nat,
{
    match g.nodes[n].op {
        OpOf::Input(c) => t == c,
        op => d > 0 && exists|xs: Seq<TensorView>| #[trigger]
            may_give(f, op, xs, t) && operands_within(f, g, n, xs, (d - 1) as nat),
    }
}

/// The operands of node `n` may come to these tensors in at most `d` steps.
pub open spec fn operands_within<F: Float>(
    f: F,
    g: GraphView,
    n: int,
    xs: Seq<TensorView>,
    d: nat,
) -> bool
    decreases d, 1nat,
{
    &&& g.inputs(n as usize) is Some
    &&& xs.len() == g.inputs(n as usize).unwrap().len()
    &&& forall|p: int|
        0 <= p < xs.len() ==> comes_within(f, g, operand(g, n, p), #[trigger] xs[p], d)
}

/// Node `n` may come to the tensor `t` when the graph is run.
pub open spec fn comes_to<F: Float>(f: F, g: GraphView, n: int, t: TensorView) -> bool {
    exists|d: nat| #[trigger] comes_within(f, g, n, t, d)
}

/// The operands of node `n` may come to these tensors.
pub open spec fn operands_come_to<F: Float>(
    f: F,
    g: GraphView,
    n: int,
    xs: Seq<TensorView>,
) -> bool {
    &&& g.inputs(n as usize) is Some
    &&& xs.len() == g.inputs(n as usize).unwrap().len()
    &&& forall|p: int| 0 <= p < xs.len() ==> comes_to(f, g, operand(g, n, p), #[trigger] xs[p])
}

/// Operand `p` of node `n`.
pub open spec fn operand(g: GraphView, n: int, p: int) -> int {
    g.inputs(n as usize).unwrap()[p] as int
}

/// Operand `p` of node `n` is node `a`.
pub open spec fn is_operand(g: GraphView, n: int, p: int, a: usize) -> bool {
    g.inputs(n as usize) matches Some(s) && 0 <= p < s.len() && s[p] == a
}

/// Running node `n` may fail with the error: at the node, or at most `d` steps
/// before it.
pub open spec fn breaks_within<F: Float>(f: F, g: GraphView, n: int, e: ErrorView, d: nat) -> bool
    decreases d,
{
    match g.nodes[n].op {
        OpOf::Input(_) => false,
        op => match g.inputs(n as usize) {
            None => e == ErrorView::ExecutionError(
                "Node operands are not numbered consecutively"@,
            ),
            Some(s) => {
                ||| exists|xs: Seq<TensorView>| #[trigger]
                    may_fail(f, op, xs, e) && operands_come_to(f, g, n, xs)
                ||| d > 0 && exists|p: int, a: usize| #[trigger]
                    is_operand(g, n, p, a) && breaks_within(f, g, a as int, e, (d - 1) as nat)
            },
        },
    }
}

/// Running node `n` may fail with the error.
pub open spec fn may_break<F: Float>(f: F, g: GraphView, n: int, e: ErrorView) -> bool {
    exists|d: nat| #[trigger] breaks_within(f, g, n, e, d)
}

/// The graph has no cycle.
pub open spec fn acyclic(g: GraphView) -> bool {
    exists|rank: Seq<nat>| acyclic_by(g, rank)
}

/// More steps allow more.
proof fn lemma_within_more<F: Float>(f: F, g: GraphView, n: int, t: TensorView, d: nat, e: nat)
    requires
        comes_within(f, g, n, t, d),
        d <= e,
    ensures
        comes_within(f, g, n, t, e),
    decreases d,
{
    if !(g.nodes[n].op is Input) {
        let xs = choose|xs: Seq<TensorView>| #[trigger]
            may_give(f, g.nodes[n].op, xs, t) && operands_within(f, g, n, xs, (d - 1) as nat);
        assert forall|p: int| 0 <= p < xs.len() implies comes_within(
            f,
            g,
            operand(g, n, p),
            #[trigger] xs[p],
            (e - 1) as nat,
        ) by {
            lemma_within_more(f, g, operand(g, n, p), xs[p], (d - 1) as nat, (e - 1) as nat);
        }
        assert(operands_within(f, g, n, xs, (e - 1) as nat));
    }
}

/// The operands come to their tensors within a common number of steps.
proof fn lemma_common_steps<F: Float>(
    f: F,
    g: GraphView,
    n: int,
    xs: Seq<TensorView>,
    k: nat,
) -> (d: nat)
    requires
        operands_come_to(f, g, n, xs),
        k <= xs.len(),
    ensures
        forall|p: int|
            0 <= p < k ==> comes_within(f, g, operand(g, n, p), #[trigger] xs[p], d),
    decreases k,
{
    if k == 0 {
        0
    } else {
        let a = lemma_common_steps(f, g, n, xs, (k - 1) as nat);
        let o = operand(g, n, k - 1);
        assert(comes_to(f, g, o, xs[k - 1]));
        let b = choose|d: nat| #[trigger] comes_within(f, g, o, xs[k - 1], d);
        let d = if a < b {
            b
        } else {
            a
        };
        assert forall|p: int| 0 <= p < k implies comes_within(
            f,
            g,
            operand(g, n, p),
            #[trigger] xs[p],
            d,
        ) by {
            if p < k - 1 {
                lemma_within_more(f, g, operand(g, n, p), xs[p], a, d);
            } else {
                lemma_within_more(f, g, o, xs[p], b, d);
            }
        }
        d
    }
}

/// What an operation may give on tensors that the operands may come to, the
/// node may come to.
pub proof fn lemma_gives<F: Float>(
    f: F,
    g: GraphView,
    n: int,
    xs: Seq<TensorView>,
    t: TensorView,
)
    requires
        !(g.nodes[n].op is Input),
        may_give(f, g.nodes[n].op, xs, t),
        operands_come_to(f, g, n, xs),
    ensures
        comes_to(f, g, n, t),
{
    let d = lemma_common_steps(f, g, n, xs, xs.len());
    assert(operands_within(f, g, n, xs, d));
    assert(comes_within(f, g, n, t, d + 1));
}

/// A constant comes to its tensor, and to no other.
pub proof fn lemma_constant_comes<F: Float>(f: F, g: GraphView, n: int, t: TensorView)
    requires
        g.nodes[n].op is Input,
    ensures
        comes_to(f, g, n, t) == (g.nodes[n].op == OpView::Input(t)),
{
    if g.nodes[n].op == OpView::Input(t) {
        assert(comes_within(f, g, n, t, 0));
    }
}

/// What a node that is not a constant may come to, it gives on tensors that
/// its operands may come to.
pub proof fn lemma_operand_values<F: Float>(f: F, g: GraphView, n: int, t: TensorView) -> (xs: Seq<
    TensorView,
>)
    requires
        !(g.nodes[n].op is Input),
        comes_to(f, g, n, t),
    ensures
        operands_come_to(f, g, n, xs),
        may_give(f, g.nodes[n].op, xs, t),
{
    let d = choose|d: nat| #[trigger] comes_within(f, g, n, t, d);
    let xs = choose|xs: Seq<TensorView>| #[trigger]
        may_give(f, g.nodes[n].op, xs, t) && operands_within(f, g, n, xs, (d - 1) as nat);
    assert forall|p: int| 0 <= p < xs.len() implies comes_to(
        f,
        g,
        operand(g, n, p),
        #[trigger] xs[p],
    ) by {
        assert(comes_within(f, g, operand(g, n, p), xs[p], (d - 1) as nat));
    }
    xs
}

/// A node may fail where its operation may fail.
pub proof fn lemma_fails<F: Float>(
    f: F,
    g: GraphView,
    n: int,
    xs: Seq<TensorView>,
    e: ErrorView,
)
    requires
        !(g.nodes[n].op is Input),
        may_fail(f, g.nodes[n].op, xs, e),
        operands_come_to(f, g, n, xs),
    ensures
        may_break(f, g, n, e),
{
    assert(breaks_within(f, g, n, e, 0));
}

/// A node may fail where an operand may.
pub proof fn lemma_operand_fails<F: Float>(
    f: F,
    g: GraphView,
    n: int,
    p: int,
    a: usize,
    e: ErrorView,
)
    requires
        !(g.nodes[n].op is Input),
        is_operand(g, n, p, a),
        may_break(f, g, a as int, e),
    ensures
        may_break(f, g, n, e),
{
    let d = choose|d: nat| #[trigger] breaks_within(f, g, a as int, e, d);
    assert(breaks_within(f, g, n, e, d + 1));
}

/// Where a node with operands may fail, its operation may, or an operand.
pub proof fn lemma_why_it_fails<F: Float>(f: F, g: GraphView, n: int, e: ErrorView)
    requires
        may_break(f, g, n, e),
        g.inputs(n as usize) is Some,
    ensures
        !(g.nodes[n].op is Input),
        (exists|xs: Seq<TensorView>| #[trigger]
            may_fail(f, g.nodes[n].op, xs, e) && operands_come_to(f, g, n, xs)) || (exists|
            p: int,
            a: usize,
        | #[trigger]
            is_operand(g, n, p, a) && may_break(f, g, a as int, e)),
{
    let d = choose|d: nat| #[trigger] breaks_within(f, g, n, e, d);
    if !(exists|xs: Seq<TensorView>| #[trigger]
        may_fail(f, g.nodes[n].op, xs, e) && operands_come_to(f, g, n, xs)) {
        let (p, a) = choose|p: int, a: usize| #[trigger]
            is_operand(g, n, p, a) && breaks_within(f, g, a as int, e, (d - 1) as nat);
        assert(is_operand(g, n, p, a) && may_break(f, g, a as int, e));
    }
}

/// A graph in order has no cycle.
pub proof fn lemma_order_is_acyclic(g: GraphView)
    requires
        g.wf(),
        in_order(g),
    ensures
        acyclic_by(g, Seq::new(g.nodes.len(), |i: int| i as nat)),
        acyclic(g),
{
    let rank = Seq::new(g.nodes.len(), |i: int| i as nat);
    assert forall|i: int| 0 <= i < g.edges.len() implies rank[(#[trigger] g.edges[i]).0 as int]
        < rank[g.edges[i].1 as int] by {
        assert(g.edges[i].0 < g.nodes.len() && g.edges[i].1 < g.nodes.len());
    }
    assert(acyclic_by(g, rank));
}

/// An operation on nodes that are there brings no cycle.
pub proof fn law_applying_brings_no_cycle(before: GraphView, after: GraphView, inputs: Seq<usize>)
    requires
        before.wf(),
        acyclic(before),
        forall|i: int| 0 <= i < inputs.len() ==> #[trigger] inputs[i] < before.nodes.len(),
        after.nodes.len() == before.nodes.len() + 1,
        after.edges == before.edges + Seq::new(
            inputs.len(),
            |p: int| (inputs[p], before.nodes.len() as usize, p as usize),
        ),
    ensures
        acyclic(after),
{
    let rank = choose|rank: Seq<nat>| acyclic_by(before, rank);
    let top = lemma_bounded(rank);
    let longer = rank.push(top + 1);
    assert forall|i: int| 0 <= i < after.edges.len() implies longer[(
    #[trigger] after.edges[i]).0 as int] < longer[after.edges[i].1 as int] by {
        let k = before.edges.len() as int;
        if i < k {
            assert(after.edges[i] == before.edges[i]);
            assert(before.edges[i].0 < before.nodes.len());
        } else {
            assert(after.edges[i] == (
                inputs[i - k],
                before.nodes.len() as usize,
                (i - k) as usize,
            ));
            assert(rank[inputs[i - k] as int] <= top);
        }
    }
    assert(acyclic_by(after, longer));
}

/// Operands have a smaller rank than their consumer.
pub proof fn lemma_operands_below(g: GraphView, rank: Seq<nat>, n: usize)
    requires
        g.wf(),
        acyclic_by(g, rank),
        g.inputs(n) is Some,
    ensures
        forall|p: int|
            0 <= p < g.inputs(n).unwrap().len() ==> (#[trigger] g.inputs(n).unwrap()[p])
                < g.nodes.len() && rank[g.inputs(n).unwrap()[p] as int] < rank[n as int],
{
    lemma_inputs_in_range(g, n);
    let s = g.inputs(n).unwrap();
    assert forall|p: int| 0 <= p < s.len() implies (#[trigger] s[p]) < g.nodes.len()
        && rank[s[p] as int] < rank[n as int] by {
        lemma_edge_of_input(g, n, s, p);
    }
}

/// What is known of some nodes is right.
spec fn known_right<F: Float>(f: F, g: GraphView, memo: Seq<Option<Tensor>>) -> bool {
    &&& memo.len() == g.nodes.len()
    &&& forall|m: int|
        0 <= m < memo.len() ==> (#[trigger] memo[m] matches Some(t) ==> t.wf() && comes_to(
            f,
            g,
            m,
            t@,
        ))
}

/// Everything that was known is known still.
spec fn knows_more(before: Seq<Option<Tensor>>, after: Seq<Option<Tensor>>) -> bool {
    &&& after.len() == before.len()
    &&& forall|m: int| 0 <= m < before.len() && before[m] is Some ==> #[trigger] after[m] is Some
}

/// Runs a node and what it depends on, as far as it is not known yet.
fn fill<F: Float>(
    g: &TensorGraph,
    n: usize,
    backend: &CpuBackend<F>,
    memo: &mut Vec<Option<Tensor>>,
    Ghost(rank): Ghost<Seq<nat>>,
) -> (r: Result<(), Error>)
    requires
        g.wf(),
        acyclic_by(g@, rank),
        n < g@.nodes.len(),
        known_right(backend.float, g@, old(memo)@),
    ensures
        known_right(backend.float, g@, final(memo)@),
        knows_more(old(memo)@, final(memo)@),
        match r {
            Ok(_) => final(memo)@[n as int] is Some,
            Err(e) => may_break(backend.float, g@, n as int, e@),
        },
    decreases rank[n as int],
{
    let ghost f = backend.float;
    proof {
        g.lemma_wf();
    }
    if memo[n].is_some() {
        return Ok(());
    }
    let node = g.node(n);
    match &node.op {
        OpOf::Input(t) => {
            let c = t.copy();
            proof {
                lemma_constant_comes(f, g@, n as int, c@);
            }
            memo.set(n, Some(c));
            return Ok(());
        },
        _ => {},
    }
    let inputs = match get_indexed_inputs(g, n) {
        Ok(v) => v,
        Err(e) => {
            proof {
                assert(breaks_within(f, g@, n as int, e@, 0));
            }
            return Err(e);
        },
    };
    proof {
        lemma_operands_below(g@, rank, n);
        assert forall|q: int| 0 <= q < inputs@.len() implies (#[trigger] inputs@[q])
            < g@.nodes.len() && rank[inputs@[q] as int] < rank[n as int] by {
            assert(g@.inputs(n).unwrap()[q] < g@.nodes.len());
        }
    }
    let ghost before = memo@;
    for p in 0..inputs.len()
        invariant
            g.wf(),
            g@.wf(),
            acyclic_by(g@, rank),
            n < g@.nodes.len(),
            f == backend.float,
            !(g@.nodes[n as int].op is Input),
            g@.inputs(n) == Some(inputs@),
            forall|q: int|
                0 <= q < inputs@.len() ==> (#[trigger] inputs@[q]) < g@.nodes.len()
                    && rank[inputs@[q] as int] < rank[n as int],
            before == old(memo)@,
            known_right(f, g@, memo@),
            knows_more(before, memo@),
            forall|q: int| 0 <= q < p ==> memo@[#[trigger] inputs@[q] as int] is Some,
    {
        let ghost step = memo@;
        let done = fill(g, inputs[p], backend, memo, Ghost(rank));
        proof {
            assert forall|m: int| 0 <= m < before.len() && before[m] is Some implies #[trigger] memo@[m] is Some by {
                assert(step[m] is Some);
            }
        }
        match done {
            Ok(_) => {},
            Err(e) => {
                proof {
                    lemma_operand_fails(f, g@, n as int, p as int, inputs@[p as int], e@);
                }
                return Err(e);
            },
        }
        proof {
            assert forall|q: int| 0 <= q < p + 1 implies memo@[#[trigger] inputs@[q] as int] is Some by {
                if q < p {
                    assert(step[inputs@[q] as int] is Some);
                }
            }
        }
    }
    let ghost xs = Seq::new(inputs@.len(), |p: int| memo@[inputs@[p] as int].unwrap()@);
    let mut args: Vec<&Tensor> = Vec::new();
    for p in 0..inputs.len()
        invariant
            known_right(f, g@, memo@),
            forall|q: int| 0 <= q < inputs@.len() ==> #[trigger] inputs@[q] < g@.nodes.len(),
            forall|q: int|
                0 <= q < inputs@.len() ==> memo@[#[trigger] inputs@[q] as int] is Some,
            xs == Seq::new(inputs@.len(), |p: int| memo@[inputs@[p] as int].unwrap()@),
            args@.len() == p,
            operands_wf(args@),
            forall|q: int| 0 <= q < p ==> (#[trigger] args@[q])@ == xs[q],
    {
        proof {
            assert(memo@[inputs@[p as int] as int] is Some);
        }
        match &memo[inputs[p]] {
            Some(t) => {
                args.push(t);
            },
            None => {},
        }
    }
    proof {
        assert(operand_views(args@) =~= xs);
        assert forall|p: int| 0 <= p < xs.len() implies comes_to(
            f,
            g@,
            operand(g@, n as int, p),
            #[trigger] xs[p],
        ) by {
            assert(operand(g@, n as int, p) == inputs@[p]);
            assert(memo@[inputs@[p] as int] is Some);
        }
        assert(operands_come_to(f, g@, n as int, xs));
    }
    match backend.execute(&node.op, args.as_slice()) {
        Ok(t) => {
            proof {
                assert(realized(f, op_outcome(node.op@, xs), Ok(t)));
                assert(may_give(f, node.op@, xs, t@));
                lemma_gives(f, g@, n as int, xs, t@);
            }
            memo.set(n, Some(t));
            Ok(())
        },
        Err(e) => {
            proof {
                assert(realized(f, op_outcome(node.op@, xs), Err(e)));
                lemma_fails(f, g@, n as int, xs, e@);
            }
            Err(e)
        },
    }
}

/// Runs a node of a graph without cycles, and what it depends on.
pub fn run_node<F: Float>(g: &TensorGraph, n: usize, backend: &CpuBackend<F>) -> (r: Result<
    Tensor,
    Error,
>)
    requires
        g.wf(),
        acyclic(g@),
        n < g@.nodes.len(),
    ensures
        match r {
            Ok(t) => t.wf() && comes_to(backend.float, g@, n as int, t@),
            Err(e) => may_break(backend.float, g@, n as int, e@),
        },
{
    let count: usize = g.node_count();
    let mut memo: Vec<Option<Tensor>> = Vec::new();
    for i in 0..count
        invariant
            memo@.len() == i,
            forall|m: int| 0 <= m < i ==> #[trigger] memo@[m] is None,
    {
        memo.push(None);
    }
    let ghost rank = choose|rank: Seq<nat>| acyclic_by(g@, rank);
    match fill(g, n, backend, &mut memo, Ghost(rank)) {
        Ok(_) => {
            match &memo[n] {
                Some(t) => Ok(t.copy()),
                None => Err(execution_error("Node was not run")),
            }
        },
        Err(e) => Err(e),
    }
}

} // verus!
