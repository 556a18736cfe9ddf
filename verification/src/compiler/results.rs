//! What the passes do to the results of a graph.
//!
//! A pass is right when whatever a node may come to or fail with after it, the
//! node might have come to or failed with before.

use crate::backend::dispatch::{
    lemma_only_constants_are_copied, lemma_operands_are_needed, op_outcome,
};
use crate::compiler::constant_fold::{
    constant_folded, constant_of, constant_operands, evaluates, folded, folding, id_after, stays,
};
use crate::compiler::cse::{
    deduplicated, law_cse_brings_no_cycle, law_cse_operands, law_cse_uses_representatives,
    law_representative_idempotent, law_same_representative, redirecting, representative,
};
use crate::compiler::dce::{
    computing, lemma_computing_feeds, lemma_reaches_step, needed, pruned_by, reaches_any, swept,
    tracing, wanted_edges,
};
use crate::compiler::layout::{is_tall, is_weight, laid_out};
use crate::compiler::simplify::{
    acyclic_by, is_constant, law_simplify_keeps_constants, lemma_edge_of_input,
    lemma_rule_constant, simplest, simplified,
};
use crate::compiler::{compiled_by, gives, kept_at, wanted, Passes};
use crate::error::{Error, ErrorView};
use crate::eval::{
    acyclic, breaks_within, comes_to, in_order, is_operand, lemma_constant_comes, lemma_fails,
    lemma_gives, lemma_operand_fails, lemma_operand_values, lemma_operands_below,
    lemma_why_it_fails, may_break, may_fail, may_give, operand, operands_come_to,
};
use crate::float::Float;
use crate::graph::{is_operands, lemma_inputs_found, lemma_inputs_in_range, GraphView};
use crate::items::{
    lemma_count_injective, lemma_count_one, lemma_count_two, lemma_distinct_below,
    lemma_filter_count,
};
use crate::op::OpView;
use crate::sym::realized;
use crate::tensor::{Tensor, TensorView};
use vstd::prelude::*;
use vstd::seq_lib::*;

verus! {

/// Whatever node `n` of `g` may come to or fail with, node `m` of `h` may.
pub open spec fn carries<F: Float>(f: F, g: GraphView, n: int, h: GraphView, m: int) -> bool {
    &&& forall|t: TensorView| #[trigger] comes_to(f, g, n, t) ==> comes_to(f, h, m, t)
    &&& forall|e: ErrorView| #[trigger] may_break(f, g, n, e) ==> may_break(f, h, m, e)
}

/// The operands of node `n` of `g` are carried to those of node `m` of `h`.
pub open spec fn operands_carry<F: Float>(
    f: F,
    g: GraphView,
    n: int,
    h: GraphView,
    m: int,
) -> bool {
    match (g.inputs(n as usize), h.inputs(m as usize)) {
        (Some(s), Some(u)) => s.len() == u.len() && forall|p: int|
            #![trigger s[p]]
            #![trigger u[p]]
            0 <= p < s.len() ==> carries(f, g, s[p] as int, h, u[p] as int),
        (None, None) => true,
        _ => false,
    }
}

/// What the operands may come to in one graph, they may come to in another
/// that carries them.
proof fn lemma_operands_carry<F: Float>(
    f: F,
    g: GraphView,
    n: int,
    h: GraphView,
    m: int,
    xs: Seq<TensorView>,
)
    requires
        operands_carry(f, g, n, h, m),
        operands_come_to(f, g, n, xs),
    ensures
        operands_come_to(f, h, m, xs),
{
    let s = g.inputs(n as usize).unwrap();
    let u = h.inputs(m as usize).unwrap();
    assert forall|p: int| 0 <= p < xs.len() implies comes_to(
        f,
        h,
        operand(h, m, p),
        #[trigger] xs[p],
    ) by {
        assert(operand(g, n, p) == s[p]);
        assert(comes_to(f, g, operand(g, n, p), xs[p]));
        assert(carries(f, g, s[p] as int, h, u[p] as int));
    }
}

/// The same operation on operands that are carried is carried.
proof fn lemma_carries<F: Float>(f: F, g: GraphView, n: int, h: GraphView, m: int)
    requires
        g.nodes[n].op == h.nodes[m].op,
        !(g.nodes[n].op is Input) ==> operands_carry(f, g, n, h, m),
    ensures
        carries(f, g, n, h, m),
{
    assert forall|t: TensorView| #[trigger] comes_to(f, g, n, t) implies comes_to(f, h, m, t) by {
        if g.nodes[n].op is Input {
            lemma_constant_comes(f, g, n, t);
            lemma_constant_comes(f, h, m, t);
        } else {
            let xs = lemma_operand_values(f, g, n, t);
            lemma_operands_carry(f, g, n, h, m, xs);
            lemma_gives(f, h, m, xs, t);
        }
    }
    assert forall|e: ErrorView| #[trigger] may_break(f, g, n, e) implies may_break(f, h, m, e) by {
        let d = choose|d: nat| #[trigger] breaks_within(f, g, n, e, d);
        if g.inputs(n as usize) is None {
            assert(breaks_within(f, h, m, e, 0));
        } else {
            lemma_why_it_fails(f, g, n, e);
            if exists|xs: Seq<TensorView>| #[trigger]
                may_fail(f, g.nodes[n].op, xs, e) && operands_come_to(f, g, n, xs) {
                let xs = choose|xs: Seq<TensorView>| #[trigger]
                    may_fail(f, g.nodes[n].op, xs, e) && operands_come_to(f, g, n, xs);
                lemma_operands_carry(f, g, n, h, m, xs);
                lemma_fails(f, h, m, xs, e);
            } else {
                let (p, a) = choose|p: int, a: usize| #[trigger]
                    is_operand(g, n, p, a) && may_break(f, g, a as int, e);
                let s = g.inputs(n as usize).unwrap();
                let u = h.inputs(m as usize).unwrap();
                assert(carries(f, g, s[p] as int, h, u[p] as int));
                lemma_operand_fails(f, h, m, p, u[p], e);
            }
        }
    }
}

/// A constant is carried to a node that may come to it.
proof fn lemma_constant_carries<F: Float>(
    f: F,
    g: GraphView,
    n: int,
    h: GraphView,
    m: int,
    xs: Seq<TensorView>,
)
    requires
        is_constant(g.nodes[n].op),
        !is_constant(h.nodes[m].op),
        may_give(f, h.nodes[m].op, xs, constant_of(g.nodes[n].op)),
        operands_come_to(f, h, m, xs),
    ensures
        carries(f, g, n, h, m),
{
    lemma_gives(f, h, m, xs, constant_of(g.nodes[n].op));
    assert forall|t: TensorView| #[trigger] comes_to(f, g, n, t) implies comes_to(f, h, m, t) by {
        lemma_constant_comes(f, g, n, t);
    }
    assert forall|e: ErrorView| #[trigger] may_break(f, g, n, e) implies may_break(f, h, m, e) by {
        let d = choose|d: nat| #[trigger] breaks_within(f, g, n, e, d);
        assert(false);
    }
}

/// What is carried on is carried.
proof fn lemma_carries_on<F: Float>(
    f: F,
    g: GraphView,
    n: int,
    h: GraphView,
    m: int,
    k: GraphView,
    l: int,
)
    requires
        carries(f, g, n, h, m),
        carries(f, h, m, k, l),
    ensures
        carries(f, g, n, k, l),
{
}

/// What a host computes to a single-precision tensor, it may give.
proof fn lemma_evaluates<F: Float>(f: F, op: OpView, xs: Seq<TensorView>, t: TensorView)
    requires
        !(op is Input),
        evaluates(f, op, xs, t),
    ensures
        may_give(f, op, xs, t),
{
    lemma_only_constants_are_copied(op, xs);
    let out = choose|out: Tensor| #[trigger]
        realized(f, op_outcome(op, xs), Ok(out)) && out.data is F32 && t == crate::tensor::single(
            out@.singles(),
            out@.shape,
        );
    assert(out@ =~= t);
}

/// Constant folding invents no result and no error.
pub proof fn law_fold_keeps_results<F: Float>(
    f: F,
    g0: GraphView,
    g: GraphView,
    start: u64,
    next: u64,
    n: int,
)
    requires
        g0.wf(),
        acyclic(g0),
        constant_folded(f, g0, g, start, next),
        0 <= n < g0.nodes.len(),
    ensures
        carries(f, g, n, g0, n),
{
    let rank = choose|rank: Seq<nat>| acyclic_by(g0, rank);
    lemma_fold_carries(f, g0, g, start, next, rank, n);
}

proof fn lemma_fold_carries<F: Float>(
    f: F,
    g0: GraphView,
    g: GraphView,
    start: u64,
    next: u64,
    rank: Seq<nat>,
    n: int,
)
    requires
        g0.wf(),
        acyclic_by(g0, rank),
        constant_folded(f, g0, g, start, next),
        0 <= n < g0.nodes.len(),
    ensures
        carries(f, g, n, g0, n),
    decreases rank[n],
{
    let order = choose|order: Seq<int>| #[trigger]
        folding(f, g0, g, start, order) && next == id_after(start, order.len());
    if g0.inputs(n as usize) is Some {
        let s = g0.inputs(n as usize).unwrap();
        lemma_operands_below(g0, rank, n as usize);
        assert forall|p: int| 0 <= p < s.len() implies carries(
            f,
            g,
            #[trigger] s[p] as int,
            g0,
            s[p] as int,
        ) by {
            assert(g0.inputs(n as usize).unwrap()[p] < g0.nodes.len());
            lemma_fold_carries(f, g0, g, start, next, rank, s[p] as int);
        }
    }
    assert(operands_carry(f, g, n, g0, n));
    if order.contains(n) {
        let k = choose|k: int| 0 <= k < order.len() && order[k] == n;
        assert(folded(f, g, order[k], g0.nodes[order[k]]));
        let xs = constant_operands(g, n).unwrap();
        let s = g0.inputs(n as usize).unwrap();
        lemma_evaluates(f, g0.nodes[n].op, xs, constant_of(g.nodes[n].op));
        assert forall|p: int| 0 <= p < xs.len() implies comes_to(
            f,
            g0,
            operand(g0, n, p),
            #[trigger] xs[p],
        ) by {
            assert(is_constant(g.nodes[s[p] as int].op));
            lemma_constant_comes(f, g, s[p] as int, xs[p]);
            assert(carries(f, g, s[p] as int, g0, s[p] as int));
        }
        lemma_constant_carries(f, g, n, g0, n, xs);
    } else {
        assert(g.nodes[n] == g0.nodes[n]);
        lemma_carries(f, g, n, g0, n);
    }
}

/// Where no weight is tall, the layout pass leaves the graph as it is.
pub proof fn law_layout_keeps_wide_weights(g0: GraphView, g: GraphView)
    requires
        laid_out(g0, g),
        forall|n: int|
            0 <= n < g0.nodes.len() && is_weight(g0, n) ==> !is_tall(
                (#[trigger] g0.nodes[n]).op,
            ),
    ensures
        g == g0,
{
    assert forall|n: int| 0 <= n < g0.nodes.len() implies g.nodes[n] == g0.nodes[n] by {
        assert(g.nodes[n] == (if is_weight(g0, n) {
            crate::graph::NodeView {
                op: crate::compiler::layout::laid_out_weight(g0.nodes[n].op),
                ..g0.nodes[n]
            }
        } else {
            g0.nodes[n]
        }));
    }
    assert(g.nodes =~= g0.nodes);
}

/// What stands for a node gives what the node gives, and fails as it fails.
pub proof fn law_representative_results<F: Float>(f: F, g: GraphView, n: usize)
    requires
        g.wf(),
        acyclic(g),
        n < g.nodes.len(),
    ensures
        carries(f, g, representative(g, n) as int, g, n as int),
        carries(f, g, n as int, g, representative(g, n) as int),
{
    let rank = choose|rank: Seq<nat>| acyclic_by(g, rank);
    law_representative_idempotent(g, n);
    lemma_same_results(f, g, rank, representative(g, n), n);
    lemma_same_results(f, g, rank, n, representative(g, n));
}

/// Nodes with the same representative give the same, and fail alike.
proof fn lemma_same_results<F: Float>(f: F, g: GraphView, rank: Seq<nat>, a: usize, b: usize)
    requires
        g.wf(),
        acyclic_by(g, rank),
        a < g.nodes.len(),
        b < g.nodes.len(),
        representative(g, a) == representative(g, b),
    ensures
        carries(f, g, a as int, g, b as int),
    decreases rank[a as int],
{
    if a != b {
        law_same_representative(g, a, b);
        let s = g.inputs(a).unwrap();
        let t = g.inputs(b).unwrap();
        lemma_operands_below(g, rank, a);
        lemma_operands_below(g, rank, b);
        assert forall|p: int|
            #![trigger s[p]]
            #![trigger t[p]]
            0 <= p < s.len() implies carries(f, g, s[p] as int, g, t[p] as int) by {
            assert(g.inputs(a).unwrap()[p] < g.nodes.len());
            assert(g.inputs(b).unwrap()[p] < g.nodes.len());
            lemma_same_results(f, g, rank, s[p], t[p]);
        }
        assert(operands_carry(f, g, a as int, g, b as int));
        lemma_carries(f, g, a as int, g, b as int);
    }
}

/// Where a node has operands after common subexpressions were eliminated, it
/// had operands before.
proof fn lemma_operands_before_cse(g0: GraphView, g: GraphView, n: usize, t: Seq<usize>)
    requires
        g0.wf(),
        g.wf(),
        deduplicated(g0, g),
        g.is_inputs(n, t),
    ensures
        g0.inputs(n) is Some,
{
    let m = g0.edges.map_values(redirecting(g0));
    crate::graph::lemma_inputs_len(g, n, t);
    let at = Seq::new(
        t.len(),
        |p: int| choose|j: int| 0 <= j < m.len() && m[j] == (t[p], n, p as usize),
    );
    assert forall|p: int| 0 <= p < t.len() implies 0 <= #[trigger] at[p] < m.len() && m[at[p]] == (
        t[p],
        n,
        p as usize,
    ) by {
        let x = (t[p], n, p as usize);
        assert(g.edges.to_multiset().count((t[p], n, p as usize)) == 1);
        to_multiset_contains(m, x);
        assert(m.to_multiset().count(x) == 1);
    }
    let s = Seq::new(t.len(), |p: int| g0.edges[at[p]].0);
    assert forall|a: usize, p: usize| #[trigger]
        g0.edges.to_multiset().count((a, n, p)) == (if p < s.len() && s[p as int] == a {
            1nat
        } else {
            0
        }) by {
        let e = (a, n, p);
        to_multiset_contains(g0.edges, e);
        if g0.edges.contains(e) {
            let i = choose|i: int| 0 <= i < g0.edges.len() && g0.edges[i] == e;
            let x = m[i];
            assert(x.1 == n && x.2 == p);
            to_multiset_contains(m, x);
            assert(m.contains(x));
            assert(g.edges.to_multiset().count((x.0, n, p)) > 0);
            assert(p < t.len() && t[p as int] == x.0);
            let j = at[p as int];
            if i != j {
                lemma_count_two(m, i, j);
            }
            assert forall|k: int| 0 <= k < g0.edges.len() && k != i implies g0.edges[k]
                != g0.edges[i] by {
                if g0.edges[k] == e {
                    assert(m[k] == x);
                    lemma_count_two(m, i, k);
                }
            }
            lemma_count_one(g0.edges, i);
        } else if p < s.len() && s[p as int] == a {
            let j = at[p as int];
            assert(g0.edges[j] == e);
        }
    }
    assert(is_operands(g0.edges, n, s));
    lemma_inputs_found(g0, n, s);
}

/// Eliminating common subexpressions invents no result and no error.
pub proof fn law_cse_keeps_results<F: Float>(f: F, g0: GraphView, g: GraphView, n: int)
    requires
        g0.wf(),
        g.wf(),
        acyclic(g0),
        deduplicated(g0, g),
        0 <= n < g0.nodes.len(),
    ensures
        carries(f, g, n, g0, n),
{
    law_cse_brings_no_cycle(g0, g);
    let rank = choose|rank: Seq<nat>| acyclic_by(g, rank);
    lemma_cse_carries(f, g0, g, rank, n);
}

proof fn lemma_cse_carries<F: Float>(f: F, g0: GraphView, g: GraphView, rank: Seq<nat>, n: int)
    requires
        g0.wf(),
        g.wf(),
        acyclic(g0),
        acyclic_by(g, rank),
        deduplicated(g0, g),
        0 <= n < g0.nodes.len(),
    ensures
        carries(f, g, n, g0, n),
    decreases rank[n],
{
    let m = n as usize;
    if g.inputs(m) is Some {
        lemma_inputs_in_range(g, m);
        lemma_operands_before_cse(g0, g, m, g.inputs(m).unwrap());
    }
    if g0.inputs(m) is Some {
        let s = g0.inputs(m).unwrap();
        lemma_inputs_in_range(g0, m);
        law_cse_operands(g0, g, m, s);
        let u = g.inputs(m).unwrap();
        lemma_operands_below(g, rank, m);
        assert forall|p: int|
            #![trigger s[p]]
            #![trigger u[p]]
            0 <= p < u.len() implies carries(f, g, u[p] as int, g0, s[p] as int) by {
            assert(g0.inputs(m).unwrap()[p] < g0.nodes.len());
            assert(g.inputs(m).unwrap()[p] < g.nodes.len());
            let r = representative(g0, s[p]);
            assert(u[p] == r);
            lemma_cse_carries(f, g0, g, rank, r as int);
            law_representative_results(f, g0, s[p]);
            lemma_carries_on(f, g, r as int, g0, r as int, g0, s[p] as int);
        }
    }
    assert(operands_carry(f, g, n, g0, n));
    lemma_carries(f, g, n, g0, n);
}

/// Redirecting edges to earlier nodes keeps a graph in order.
pub proof fn law_cse_keeps_order(g0: GraphView, g: GraphView)
    requires
        in_order(g0),
        deduplicated(g0, g),
    ensures
        in_order(g),
{
    let m = g0.edges.map_values(redirecting(g0));
    assert forall|i: int| 0 <= i < g.edges.len() implies (#[trigger] g.edges[i]).0
        < g.edges[i].1 by {
        let x = g.edges[i];
        to_multiset_contains(g.edges, x);
        assert(g.edges.contains(x));
        to_multiset_contains(m, x);
        let j = choose|j: int| 0 <= j < m.len() && m[j] == x;
        law_representative_idempotent(g0, g0.edges[j].0);
    }
}

/// Every identity that was applied holds on the host.
pub open spec fn identities_hold<F: Float>(f: F, g0: GraphView, g: GraphView) -> bool {
    forall|n: int|
        0 <= n < g0.nodes.len() && (#[trigger] g.nodes[n]).op != g0.nodes[n].op ==> identity_holds(
            f,
            g0,
            g,
            n,
        )
}

/// The constant that took the place of node `n` is one that the operation of
/// the node may give, on tensors that its operands may come to.
pub open spec fn identity_holds<F: Float>(f: F, g0: GraphView, g: GraphView, n: int) -> bool {
    exists|xs: Seq<TensorView>| #[trigger]
        may_give(f, g0.nodes[n].op, xs, constant_of(g.nodes[n].op)) && operands_come_to(f, g, n, xs)
}

/// Simplification invents no result and no error, as long as the identities
/// hold.
pub proof fn law_simplify_keeps_results<F: Float>(f: F, g0: GraphView, g: GraphView, n: int)
    requires
        g0.wf(),
        acyclic(g0),
        simplified(g0, g),
        identities_hold(f, g0, g),
        0 <= n < g0.nodes.len(),
    ensures
        carries(f, g, n, g0, n),
{
    let rank = choose|rank: Seq<nat>| acyclic_by(g0, rank);
    lemma_simplify_carries(f, g0, g, rank, n);
}

proof fn lemma_simplify_carries<F: Float>(
    f: F,
    g0: GraphView,
    g: GraphView,
    rank: Seq<nat>,
    n: int,
)
    requires
        g0.wf(),
        acyclic_by(g0, rank),
        simplified(g0, g),
        identities_hold(f, g0, g),
        0 <= n < g0.nodes.len(),
    ensures
        carries(f, g, n, g0, n),
    decreases rank[n],
{
    if g0.inputs(n as usize) is Some {
        let s = g0.inputs(n as usize).unwrap();
        lemma_operands_below(g0, rank, n as usize);
        assert forall|p: int| 0 <= p < s.len() implies carries(
            f,
            g,
            #[trigger] s[p] as int,
            g0,
            s[p] as int,
        ) by {
            assert(g0.inputs(n as usize).unwrap()[p] < g0.nodes.len());
            lemma_simplify_carries(f, g0, g, rank, s[p] as int);
        }
    }
    assert(operands_carry(f, g, n, g0, n));
    if g.nodes[n].op != g0.nodes[n].op {
        assert(g.nodes[n].op == simplest(g, n, g0.nodes[n].op));
        lemma_rule_constant(g, n, g0.nodes[n].op);
        assert(identity_holds(f, g0, g, n));
        let xs = choose|xs: Seq<TensorView>| #[trigger]
            may_give(f, g0.nodes[n].op, xs, constant_of(g.nodes[n].op)) && operands_come_to(
                f,
                g,
                n,
                xs,
            );
        lemma_operands_carry(f, g, n, g0, n, xs);
        if is_constant(g0.nodes[n].op) {
            law_simplify_keeps_constants(g0, g, n);
        }
        lemma_constant_carries(f, g, n, g0, n, xs);
    } else {
        lemma_carries(f, g, n, g0, n);
    }
}

/// An identity on constants holds where the host may give the constant that
/// takes the node's place.
pub proof fn law_constant_identity_holds<F: Float>(
    f: F,
    g0: GraphView,
    g: GraphView,
    n: int,
    xs: Seq<TensorView>,
)
    requires
        0 <= n < g.nodes.len(),
        constant_operands(g, n) == Some(xs),
        may_give(f, g0.nodes[n].op, xs, constant_of(g.nodes[n].op)),
    ensures
        identity_holds(f, g0, g, n),
{
    let s = g.inputs(n as usize).unwrap();
    assert forall|p: int| 0 <= p < xs.len() implies comes_to(
        f,
        g,
        operand(g, n, p),
        #[trigger] xs[p],
    ) by {
        assert(is_constant(g.nodes[s[p] as int].op));
        lemma_constant_comes(f, g, s[p] as int, xs[p]);
    }
    assert(operands_come_to(f, g, n, xs));
}

/// What a needed node is computed from is needed.
proof fn lemma_needed_operand(g: GraphView, roots: Seq<usize>, a: int, b: int)
    requires
        g.wf(),
        0 <= a < g.nodes.len(),
        0 <= b < g.nodes.len(),
        needed(g, roots)(b),
        g.feeds(a, b),
        !is_constant(g.nodes[b].op),
    ensures
        needed(g, roots)(a),
{
    lemma_computing_feeds(g, a, b);
    let i = choose|i: int|
        0 <= i < roots.len() && crate::compiler::dce::reaches(
            computing(g),
            b,
            #[trigger] roots[i] as int,
        );
    lemma_reaches_step(computing(g), a, b, roots[i] as int);
    assert(reaches_any(computing(g), a, roots));
}

/// An edge of the rest stands as often as the edge that it was.
proof fn lemma_traced_count(
    g0: GraphView,
    g: GraphView,
    origin: Seq<usize>,
    want: spec_fn(int) -> bool,
    a: usize,
    k: usize,
    p: usize,
)
    requires
        g.wf(),
        pruned_by(g0, g, origin, want),
        a < g.nodes.len(),
        k < g.nodes.len(),
    ensures
        g.edges.to_multiset().count((a, k, p)) == g0.edges.to_multiset().count(
            (origin[a as int], origin[k as int], p),
        ),
{
    let x = (a, k, p);
    let f = tracing(origin);
    assert forall|i: int| 0 <= i < g.edges.len() && f(#[trigger] g.edges[i]) == f(x) implies
        g.edges[i] == x by {
        let e = g.edges[i];
        assert(e.0 < g.nodes.len() && e.1 < g.nodes.len());
        assert(origin[e.0 as int] == origin[a as int]);
        assert(origin[e.1 as int] == origin[k as int]);
    }
    lemma_count_injective(g.edges, f, x);
    lemma_filter_count(g0.edges, wanted_edges(want), f(x));
    assert(want(origin[a as int] as int) && want(origin[k as int] as int));
}

/// The operands of a node that is kept with its operands are those that it
/// had.
proof fn lemma_pruned_inputs(
    g0: GraphView,
    g: GraphView,
    origin: Seq<usize>,
    want: spec_fn(int) -> bool,
    k: usize,
)
    requires
        g0.wf(),
        g.wf(),
        pruned_by(g0, g, origin, want),
        k < g.nodes.len(),
        forall|a: int|
            0 <= a < g0.nodes.len() && #[trigger] g0.feeds(a, origin[k as int] as int) ==> want(a),
    ensures
        match (g.inputs(k), g0.inputs(origin[k as int])) {
            (Some(t), Some(s)) => s == t.map_values(|a: usize| origin[a as int]),
            (None, None) => true,
            _ => false,
        },
{
    let o = origin[k as int];
    if g.inputs(k) is Some {
        let t = g.inputs(k).unwrap();
        lemma_inputs_in_range(g, k);
        let s = t.map_values(|a: usize| origin[a as int]);
        assert forall|b: usize, p: usize| #[trigger]
            g0.edges.to_multiset().count((b, o, p)) == (if p < s.len() && s[p as int] == b {
                1nat
            } else {
                0
            }) by {
            if b < g0.nodes.len() && want(b as int) {
                assert(origin.contains(b));
                let a = choose|a: int| 0 <= a < origin.len() && origin[a] == b;
                lemma_traced_count(g0, g, origin, want, a as usize, k, p);
                assert(g.edges.to_multiset().count((a as usize, k, p)) == (if p < t.len()
                    && t[p as int] == a as usize {
                    1nat
                } else {
                    0
                }));
                if p < t.len() {
                    assert(t[p as int] < g.nodes.len());
                    assert(s[p as int] == origin[t[p as int] as int]);
                }
            } else {
                to_multiset_contains(g0.edges, (b, o, p));
                if g0.edges.contains((b, o, p)) {
                    let i = choose|i: int| 0 <= i < g0.edges.len() && g0.edges[i] == (b, o, p);
                    assert(g0.edges[i].0 == b && g0.edges[i].1 == o);
                    assert(g0.feeds(b as int, o as int));
                }
                if p < s.len() && s[p as int] == b {
                    assert(t[p as int] < g.nodes.len());
                    assert(want(origin[t[p as int] as int] as int));
                }
            }
        }
        assert(is_operands(g0.edges, o, s));
        lemma_inputs_found(g0, o, s);
    } else if g0.inputs(o) is Some {
        let s = g0.inputs(o).unwrap();
        lemma_inputs_in_range(g0, o);
        let t = Seq::new(
            s.len(),
            |p: int| (choose|a: int| 0 <= a < origin.len() && origin[a] == s[p]) as usize,
        );
        assert forall|p: int| 0 <= p < s.len() implies (#[trigger] t[p]) < g.nodes.len()
            && origin[t[p] as int] == s[p] by {
            lemma_edge_of_input(g0, o, s, p);
            assert(g0.feeds(s[p] as int, o as int));
            assert(origin.contains(s[p]));
        }
        assert forall|a: usize, p: usize| #[trigger]
            g.edges.to_multiset().count((a, k, p)) == (if p < t.len() && t[p as int] == a {
                1nat
            } else {
                0
            }) by {
            if a < g.nodes.len() {
                lemma_traced_count(g0, g, origin, want, a, k, p);
                assert(g0.edges.to_multiset().count((origin[a as int], o, p)) == (if p < s.len()
                    && s[p as int] == origin[a as int] {
                    1nat
                } else {
                    0
                }));
                if p < t.len() {
                    assert(origin[t[p as int] as int] == s[p as int]);
                }
            } else {
                to_multiset_contains(g.edges, (a, k, p));
                if g.edges.contains((a, k, p)) {
                    let i = choose|i: int| 0 <= i < g.edges.len() && g.edges[i] == (a, k, p);
                    assert(g.edges[i].0 < g.nodes.len());
                }
                if p < t.len() && t[p as int] == a {
                    assert(t[p as int] < g.nodes.len());
                }
            }
        }
        assert(is_operands(g.edges, k, t));
        lemma_inputs_found(g, k, t);
    }
}

/// A choice of nodes brings no cycle.
proof fn lemma_pruned_acyclic(
    g0: GraphView,
    g: GraphView,
    origin: Seq<usize>,
    want: spec_fn(int) -> bool,
    rank: Seq<nat>,
)
    requires
        g0.wf(),
        g.wf(),
        pruned_by(g0, g, origin, want),
        acyclic_by(g0, rank),
    ensures
        acyclic_by(g, Seq::new(g.nodes.len(), |k: int| rank[origin[k] as int])),
{
    let below = Seq::new(g.nodes.len(), |k: int| rank[origin[k] as int]);
    let f = tracing(origin);
    let m = g.edges.map_values(f);
    let kept = g0.edges.filter(wanted_edges(want));
    assert forall|i: int| 0 <= i < g.edges.len() implies below[(#[trigger] g.edges[i]).0 as int]
        < below[g.edges[i].1 as int] by {
        let x = m[i];
        assert(g.edges[i].0 < g.nodes.len() && g.edges[i].1 < g.nodes.len());
        to_multiset_contains(m, x);
        assert(m.contains(x));
        to_multiset_contains(kept, x);
        assert(kept.contains(x));
        g0.edges.lemma_filter_contains_rev(wanted_edges(want), x);
        let j = choose|j: int| 0 <= j < g0.edges.len() && g0.edges[j] == x;
        assert(rank[g0.edges[j].0 as int] < rank[g0.edges[j].1 as int]);
    }
}

/// Where the ranks of the rest come from.
pub open spec fn ranks_left(rank: Seq<nat>, origin: Seq<usize>) -> Seq<nat> {
    Seq::new(origin.len(), |k: int| rank[origin[k] as int])
}

/// Keeping what some nodes need brings no cycle.
proof fn lemma_swept_acyclic(
    g0: GraphView,
    g: GraphView,
    roots: Seq<usize>,
    origin: Seq<usize>,
    rank: Seq<nat>,
)
    requires
        g0.wf(),
        g.wf(),
        swept(g0, g, roots, origin),
        acyclic_by(g0, rank),
    ensures
        acyclic_by(g, ranks_left(rank, origin)),
{
    if roots.len() == 0 {
        assert(ranks_left(rank, origin) =~= rank);
    } else {
        lemma_pruned_acyclic(g0, g, origin, needed(g0, roots), rank);
        assert(ranks_left(rank, origin) =~= Seq::new(
            g.nodes.len(),
            |k: int| rank[origin[k] as int],
        ));
    }
}

/// Keeping only what some nodes need invents no result and no error: node `k`
/// of the rest is the node that it was.
pub proof fn law_sweep_keeps_results<F: Float>(
    f: F,
    g0: GraphView,
    g: GraphView,
    roots: Seq<usize>,
    origin: Seq<usize>,
    k: int,
)
    requires
        g0.wf(),
        g.wf(),
        acyclic(g0),
        swept(g0, g, roots, origin),
        0 <= k < g.nodes.len(),
    ensures
        carries(f, g, k, g0, origin[k] as int),
{
    let rank = choose|rank: Seq<nat>| acyclic_by(g0, rank);
    lemma_swept_acyclic(g0, g, roots, origin, rank);
    lemma_sweep_carries(f, g0, g, roots, origin, ranks_left(rank, origin), k);
}

proof fn lemma_sweep_carries<F: Float>(
    f: F,
    g0: GraphView,
    g: GraphView,
    roots: Seq<usize>,
    origin: Seq<usize>,
    rank: Seq<nat>,
    k: int,
)
    requires
        g0.wf(),
        g.wf(),
        acyclic_by(g, rank),
        swept(g0, g, roots, origin),
        0 <= k < g.nodes.len(),
    ensures
        carries(f, g, k, g0, origin[k] as int),
    decreases rank[k],
{
    let m = k as usize;
    if roots.len() > 0 {
        let want = needed(g0, roots);
        let o = origin[k];
        assert(o < g0.nodes.len() && want(o as int));
        if !is_constant(g.nodes[k].op) {
            assert forall|a: int| 0 <= a < g0.nodes.len() && #[trigger] g0.feeds(
                a,
                o as int,
            ) implies want(a) by {
                lemma_needed_operand(g0, roots, a, o as int);
            }
            lemma_pruned_inputs(g0, g, origin, want, m);
            if g.inputs(m) is Some {
                let t = g.inputs(m).unwrap();
                let s = g0.inputs(o).unwrap();
                lemma_operands_below(g, rank, m);
                assert forall|p: int|
                    #![trigger t[p]]
                    #![trigger s[p]]
                    0 <= p < t.len() implies carries(f, g, t[p] as int, g0, s[p] as int) by {
                    assert(g.inputs(m).unwrap()[p] < g.nodes.len());
                    lemma_sweep_carries(f, g0, g, roots, origin, rank, t[p] as int);
                }
            }
            assert(operands_carry(f, g, k, g0, o as int));
        }
        lemma_carries(f, g, k, g0, o as int);
    }
}

/// What the passes make of a graph, they do not invent: whatever a node may
/// come to or fail with in the compiled graph, the node that it was might have
/// come to or failed with, and so might every node that it stands for.
///
/// The identities that were applied must hold on the host, and no weight may
/// be tall.
pub proof fn law_compile_keeps_results<F: Float>(
    f: F,
    g0: GraphView,
    g: GraphView,
    start: u64,
    next: u64,
    keep: Seq<usize>,
    p: Passes,
    k: int,
    n: usize,
)
    requires
        g0.wf(),
        acyclic(g0),
        compiled_by(f, g0, g, start, next, keep, p),
        identities_hold(f, g0, p.simple),
        forall|m: int|
            0 <= m < p.last.nodes.len() && is_weight(p.last, m) ==> !is_tall(
                (#[trigger] p.last.nodes[m]).op,
            ),
        0 <= k < g.nodes.len(),
        n < g0.nodes.len(),
        p.origin(k) == representative(p.simple, n),
    ensures
        carries(f, g, k, g0, n as int),
{
    lemma_passes_acyclic(f, g0, g, start, next, keep, p);
    lemma_origins(f, g0, g, start, next, keep, p);
    let j = p.second[k] as int;
    let r = p.first[j];
    law_layout_keeps_wide_weights(p.last, g);
    law_sweep_keeps_results(f, p.folded, p.last, p.roots, p.second, k);
    law_fold_keeps_results(f, p.rest, p.folded, start, next, j);
    law_sweep_keeps_results(f, p.merged, p.rest, wanted(p.simple, keep), p.first, j);
    law_cse_keeps_results(f, p.simple, p.merged, r as int);
    law_representative_results(f, p.simple, n);
    law_simplify_keeps_results(f, g0, p.simple, n as int);
    lemma_carries_on(f, g, k, p.folded, j, p.rest, j);
    lemma_carries_on(f, g, k, p.rest, j, p.merged, r as int);
    lemma_carries_on(f, g, k, p.merged, r as int, p.simple, r as int);
    lemma_carries_on(f, g, k, p.simple, r as int, p.simple, n as int);
    lemma_carries_on(f, g, k, p.simple, n as int, g0, n as int);
}

/// A node of a graph that is compiled when it is run gives what it might have
/// given without that, and fails as it might have failed.
///
/// The identities that were applied must hold on the host, and no weight may
/// be tall.
pub proof fn law_run_keeps_results<F: Float>(
    f: F,
    g0: GraphView,
    g: GraphView,
    start: u64,
    next: u64,
    n: usize,
    p: Passes,
    at: Seq<usize>,
    r: Result<Tensor, Error>,
)
    requires
        g0.wf(),
        acyclic(g0),
        n < g0.nodes.len(),
        compiled_by(f, g0, g, start, next, seq![n], p),
        kept_at(p, seq![n], at),
        gives(f, g, at[0] as int, r),
        identities_hold(f, g0, p.simple),
        forall|m: int|
            0 <= m < p.last.nodes.len() && is_weight(p.last, m) ==> !is_tall(
                (#[trigger] p.last.nodes[m]).op,
            ),
    ensures
        gives(f, g0, n as int, r),
{
    lemma_origins(f, g0, g, start, next, seq![n], p);
    assert(at[0] < p.second.len());
    law_compile_keeps_results(f, g0, g, start, next, seq![n], p, at[0] as int, n);
}

/// A node after constant folding is the node that it was.
proof fn lemma_folded_carries<F: Float>(
    f: F,
    g0: GraphView,
    g: GraphView,
    start: u64,
    next: u64,
    keep: Seq<usize>,
    p: Passes,
    j: int,
)
    requires
        g0.wf(),
        acyclic(g0),
        compiled_by(f, g0, g, start, next, keep, p),
        identities_hold(f, g0, p.simple),
        0 <= j < p.folded.nodes.len(),
    ensures
        carries(f, p.folded, j, g0, p.first[j] as int),
{
    lemma_passes_acyclic(f, g0, g, start, next, keep, p);
    lemma_origins(f, g0, g, start, next, keep, p);
    let r = p.first[j] as int;
    let roots = wanted(p.simple, keep);
    if roots.len() == 0 {
        assert(p.first[j] == j as usize);
    }
    law_fold_keeps_results(f, p.rest, p.folded, start, next, j);
    law_sweep_keeps_results(f, p.merged, p.rest, roots, p.first, j);
    law_cse_keeps_results(f, p.simple, p.merged, r);
    law_simplify_keeps_results(f, g0, p.simple, r);
    lemma_carries_on(f, p.folded, j, p.rest, j, p.merged, r);
    lemma_carries_on(f, p.folded, j, p.merged, r, p.simple, r);
    lemma_carries_on(f, p.folded, j, p.simple, r, g0, r);
}

/// Every node comes to single-precision tensors only, and none may fail.
pub open spec fn sound<F: Float>(f: F, g: GraphView) -> bool {
    &&& forall|n: int, e: ErrorView|
        0 <= n < g.nodes.len() ==> !#[trigger] may_break(f, g, n, e)
    &&& forall|n: int, t: TensorView|
        0 <= n < g.nodes.len() && #[trigger] comes_to(f, g, n, t) ==> t.data is F32
}

/// In a graph of which no node may fail, every node is folded.
proof fn lemma_sound_is_folded<F: Float>(
    f: F,
    g0: GraphView,
    g: GraphView,
    start: u64,
    next: u64,
    keep: Seq<usize>,
    p: Passes,
    rank: Seq<nat>,
    j: int,
)
    requires
        g0.wf(),
        acyclic(g0),
        compiled_by(f, g0, g, start, next, keep, p),
        identities_hold(f, g0, p.simple),
        sound(f, g0),
        acyclic_by(p.folded, rank),
        0 <= j < p.folded.nodes.len(),
    ensures
        is_constant(p.folded.nodes[j].op),
    decreases rank[j],
{
    let h = p.folded;
    let op = h.nodes[j].op;
    if !is_constant(op) {
        lemma_folded_carries(f, g0, g, start, next, keep, p, j);
        lemma_origins(f, g0, g, start, next, keep, p);
        let r = p.first[j] as int;
        if wanted(p.simple, keep).len() == 0 {
            assert(p.first[j] == j as usize);
        }
        assert(0 <= r < g0.nodes.len());
        if h.inputs(j as usize) is None {
            let e = ErrorView::ExecutionError("Node operands are not numbered consecutively"@);
            assert(breaks_within(f, h, j, e, 0));
            assert(may_break(f, h, j, e));
            assert(may_break(f, g0, r, e));
        } else {
            let s = h.inputs(j as usize).unwrap();
            lemma_operands_below(h, rank, j as usize);
            assert forall|q: int| 0 <= q < s.len() implies is_constant(
                (#[trigger] h.nodes[s[q] as int]).op,
            ) by {
                assert(h.inputs(j as usize).unwrap()[q] < h.nodes.len());
                lemma_sound_is_folded(f, g0, g, start, next, keep, p, rank, s[q] as int);
            }
            let xs = Seq::new(s.len(), |q: int| constant_of(h.nodes[s[q] as int].op));
            assert forall|q: int| 0 <= q < xs.len() implies comes_to(
                f,
                h,
                operand(h, j, q),
                #[trigger] xs[q],
            ) by {
                assert(is_constant(h.nodes[s[q] as int].op));
                lemma_constant_comes(f, h, s[q] as int, xs[q]);
            }
            assert(operands_come_to(f, h, j, xs));
            if s.len() == 0 {
                assert(xs =~= Seq::empty());
                lemma_operands_are_needed(op);
                let e = op_outcome(op, xs)->Fails_0;
                assert(may_fail(f, op, xs, e));
                lemma_fails(f, h, j, xs, e);
                assert(may_break(f, g0, r, e));
            } else {
                assert(constant_operands(h, j) == Some(xs));
                assert(stays(f, op, xs));
                let out = choose|out: Result<Tensor, Error>| #[trigger]
                    realized(f, op_outcome(op, xs), out) && (out matches Ok(t) ==> t.data is F16);
                lemma_only_constants_are_copied(op, xs);
                match out {
                    Ok(t) => {
                        assert(may_give(f, op, xs, t@));
                        lemma_gives(f, h, j, xs, t@);
                        assert(comes_to(f, g0, r, t@));
                        assert(t@.data is F16);
                    },
                    Err(e) => {
                        assert(may_fail(f, op, xs, e@));
                        lemma_fails(f, h, j, xs, e@);
                        assert(may_break(f, g0, r, e@));
                    },
                }
            }
        }
    }
}

/// Compiling a graph of which no node may fail changes no result: what is left
/// are constants, and each is what the node that it was, and every node that it
/// stands for, might have come to.
pub proof fn law_compile_keeps_sound_results<F: Float>(
    f: F,
    g0: GraphView,
    g: GraphView,
    start: u64,
    next: u64,
    keep: Seq<usize>,
    p: Passes,
    k: int,
    n: usize,
)
    requires
        g0.wf(),
        acyclic(g0),
        compiled_by(f, g0, g, start, next, keep, p),
        identities_hold(f, g0, p.simple),
        sound(f, g0),
        0 <= k < g.nodes.len(),
        n < g0.nodes.len(),
        p.origin(k) == representative(p.simple, n),
    ensures
        is_constant(g.nodes[k].op),
        comes_to(f, g0, n as int, constant_of(g.nodes[k].op)),
{
    lemma_passes_acyclic(f, g0, g, start, next, keep, p);
    lemma_origins(f, g0, g, start, next, keep, p);
    let rank = choose|rank: Seq<nat>| acyclic_by(p.folded, rank);
    assert forall|m: int| 0 <= m < p.last.nodes.len() implies is_constant(
        (#[trigger] p.last.nodes[m]).op,
    ) by {
        assert(p.second[m] < p.first.len());
        if p.roots.len() == 0 {
            assert(p.second[m] == m as usize);
        }
        lemma_sound_is_folded(f, g0, g, start, next, keep, p, rank, p.second[m] as int);
    }
    assert forall|m: int| 0 <= m < p.last.nodes.len() && is_weight(p.last, m) implies !is_tall(
        (#[trigger] p.last.nodes[m]).op,
    ) by {
        assert(false);
    }
    law_layout_keeps_wide_weights(p.last, g);
    law_compile_keeps_results(f, g0, g, start, next, keep, p, k, n);
    lemma_constant_comes(f, g, k, constant_of(g.nodes[k].op));
}

/// The nodes that are left come from nodes of the graph.
pub proof fn lemma_origins<F: Float>(
    f: F,
    g0: GraphView,
    g: GraphView,
    start: u64,
    next: u64,
    keep: Seq<usize>,
    p: Passes,
)
    requires
        compiled_by(f, g0, g, start, next, keep, p),
    ensures
        p.first.len() == p.rest.nodes.len() == p.folded.nodes.len(),
        p.second.len() == p.last.nodes.len() == g.nodes.len(),
        forall|k: int|
            0 <= k < p.second.len() ==> (#[trigger] p.second[k]) < p.first.len()
                && p.first[p.second[k] as int] < g0.nodes.len(),
{
    let roots = wanted(p.simple, keep);
    assert forall|j: int| 0 <= j < p.first.len() implies (#[trigger] p.first[j])
        < g0.nodes.len() by {
        if roots.len() == 0 {
            assert(p.first[j] == j as usize);
        }
    }
    assert forall|k: int| 0 <= k < p.second.len() implies (#[trigger] p.second[k])
        < p.first.len() && p.first[p.second[k] as int] < g0.nodes.len() by {
        if p.roots.len() == 0 {
            assert(p.second[k] == k as usize);
        }
        assert(p.first[p.second[k] as int] < g0.nodes.len());
    }
}

/// No pass brings a cycle.
proof fn lemma_passes_acyclic<F: Float>(
    f: F,
    g0: GraphView,
    g: GraphView,
    start: u64,
    next: u64,
    keep: Seq<usize>,
    p: Passes,
)
    requires
        g0.wf(),
        acyclic(g0),
        compiled_by(f, g0, g, start, next, keep, p),
    ensures
        acyclic(p.simple),
        acyclic(p.merged),
        acyclic(p.rest),
        acyclic(p.folded),
        acyclic(p.last),
        acyclic(g),
{
    let given = choose|rank: Seq<nat>| acyclic_by(g0, rank);
    assert(acyclic_by(p.simple, given));
    law_cse_brings_no_cycle(p.simple, p.merged);
    let rank = choose|rank: Seq<nat>| acyclic_by(p.merged, rank);
    lemma_swept_acyclic(p.merged, p.rest, wanted(p.simple, keep), p.first, rank);
    let left = ranks_left(rank, p.first);
    assert(acyclic_by(p.rest, left));
    assert(p.folded.edges == p.rest.edges && p.folded.nodes.len() == p.rest.nodes.len());
    assert(acyclic_by(p.folded, left));
    lemma_swept_acyclic(p.folded, p.last, p.roots, p.second, left);
    assert(acyclic_by(p.last, ranks_left(left, p.second)));
    assert(acyclic_by(g, ranks_left(left, p.second)));
}

/// Compiling brings no cycle.
pub proof fn law_compile_brings_no_cycle<F: Float>(
    f: F,
    g0: GraphView,
    g: GraphView,
    start: u64,
    next: u64,
    keep: Seq<usize>,
    p: Passes,
)
    requires
        g0.wf(),
        acyclic(g0),
        compiled_by(f, g0, g, start, next, keep, p),
    ensures
        acyclic(g),
{
    lemma_passes_acyclic(f, g0, g, start, next, keep, p);
}

/// Compiling leaves no node that another one stands for: what common
/// subexpression elimination orphans is removed.
pub proof fn law_compile_drops_duplicates<F: Float>(
    f: F,
    g0: GraphView,
    g: GraphView,
    start: u64,
    next: u64,
    keep: Seq<usize>,
    p: Passes,
    k: int,
)
    requires
        compiled_by(f, g0, g, start, next, keep, p),
        exists|m: int| 0 <= m < g0.nodes.len() && g0.is_output(m),
        0 <= k < g.nodes.len(),
    ensures
        representative(p.simple, p.origin(k) as usize) == p.origin(k),
{
    lemma_origins(f, g0, g, start, next, keep, p);
    let roots = wanted(p.simple, keep);
    let m = choose|m: int| 0 <= m < g0.nodes.len() && g0.is_output(m);
    assert(p.simple.is_output((m as usize) as int));
    crate::compiler::dce::lemma_outputs_below(p.simple, p.simple.nodes.len());
    assert(crate::compiler::dce::outputs_below(p.simple, p.simple.nodes.len()).contains(
        m as usize,
    ));
    assert(roots.len() > 0);
    let r = p.origin(k);
    assert(needed(p.merged, roots)(r));
    let i = choose|i: int|
        0 <= i < roots.len() && crate::compiler::dce::reaches(
            computing(p.merged),
            r,
            #[trigger] roots[i] as int,
        );
    let path = choose|path: Seq<int>| #[trigger]
        crate::compiler::dce::is_path(computing(p.merged), path) && path[0] == r && path.last()
            == roots[i];
    if path.len() == 1 {
        let all = crate::compiler::dce::outputs_below(p.simple, p.simple.nodes.len()) + keep;
        assert(roots[i] == representative(p.simple, all[i]));
        law_representative_idempotent(p.simple, all[i]);
    } else {
        assert(computing(p.merged).feeds(path[0], path[1]));
        lemma_computing_feeds(p.merged, path[0], path[1]);
        let e = choose|e: int|
            0 <= e < p.merged.edges.len() && (#[trigger] p.merged.edges[e]).0 == path[0]
                && p.merged.edges[e].1 == path[1];
        law_cse_uses_representatives(p.simple, p.merged, e);
    }
}

/// Where a node is a duplicate, the compiled graph has fewer nodes.
pub proof fn law_compile_removes_duplicates<F: Float>(
    f: F,
    g0: GraphView,
    g: GraphView,
    start: u64,
    next: u64,
    keep: Seq<usize>,
    p: Passes,
    n: usize,
)
    requires
        compiled_by(f, g0, g, start, next, keep, p),
        exists|m: int| 0 <= m < g0.nodes.len() && g0.is_output(m),
        n < g0.nodes.len(),
        representative(p.simple, n) != n,
    ensures
        g.nodes.len() < g0.nodes.len(),
{
    lemma_origins(f, g0, g, start, next, keep, p);
    let from = Seq::new(g.nodes.len(), |k: int| p.origin(k));
    assert forall|k: int| 0 <= k < from.len() implies 0 <= #[trigger] from[k] < g0.nodes.len()
        && from[k] != n by {
        assert(p.second[k] < p.first.len());
        law_compile_drops_duplicates(f, g0, g, start, next, keep, p, k);
    }
    let all = from.push(n as int);
    assert forall|a: int, b: int| 0 <= a < b < all.len() implies all[a] != all[b] by {
        assert(from[a] != n);
        if b < from.len() {
            assert(p.second[a] < p.first.len() && p.second[b] < p.first.len());
            assert(p.second[a] != p.second[b]);
            assert(p.first[p.second[a] as int] != p.first[p.second[b] as int]);
        }
    }
    assert(all.no_duplicates());
    lemma_distinct_below(all, g0.nodes.len() as int);
}

/// An edge between nodes that are kept is kept.
proof fn lemma_pruned_feeds(
    g0: GraphView,
    g: GraphView,
    origin: Seq<usize>,
    want: spec_fn(int) -> bool,
    a: int,
    b: int,
)
    requires
        g.wf(),
        pruned_by(g0, g, origin, want),
        0 <= a < origin.len(),
        0 <= b < origin.len(),
        g0.feeds(origin[a] as int, origin[b] as int),
    ensures
        g.feeds(a, b),
{
    let i = choose|i: int|
        0 <= i < g0.edges.len() && (#[trigger] g0.edges[i]).0 == origin[a] && g0.edges[i].1
            == origin[b];
    let pos = g0.edges[i].2;
    to_multiset_contains(g0.edges, g0.edges[i]);
    assert(g0.edges.contains(g0.edges[i]));
    lemma_traced_count(g0, g, origin, want, a as usize, b as usize, pos);
    let x = (a as usize, b as usize, pos);
    to_multiset_contains(g.edges, x);
    let j = choose|j: int| 0 <= j < g.edges.len() && g.edges[j] == x;
    assert(g.edges[j].0 == a && g.edges[j].1 == b);
}

/// Compiling leaves no orphan: every node that is left stands for an output or
/// for a node that was to be kept, or feeds a node that is still computed.
pub proof fn law_compile_leaves_no_orphan<F: Float>(
    f: F,
    g0: GraphView,
    g: GraphView,
    start: u64,
    next: u64,
    keep: Seq<usize>,
    p: Passes,
    k: int,
)
    requires
        compiled_by(f, g0, g, start, next, keep, p),
        wanted(p.simple, keep).len() > 0,
        0 <= k < g.nodes.len(),
    ensures
        wanted(p.simple, keep).contains(p.origin(k) as usize) || exists|j: int|
            0 <= j < g.nodes.len() && #[trigger] g.feeds(k, j) && !is_constant(g.nodes[j].op),
{
    lemma_origins(f, g0, g, start, next, keep, p);
    let h = computing(p.folded);
    let o = p.second[k] as int;
    assert(needed(p.folded, p.roots)(o));
    let i = choose|i: int|
        0 <= i < p.roots.len() && crate::compiler::dce::reaches(
            h,
            o,
            #[trigger] p.roots[i] as int,
        );
    let path = choose|path: Seq<int>| #[trigger]
        crate::compiler::dce::is_path(h, path) && path[0] == o && path.last() == p.roots[i];
    if path.len() == 1 {
        assert(p.first[p.roots[i] as int] == wanted(p.simple, keep)[i]);
    } else {
        assert(h.feeds(path[0], path[1]));
        lemma_computing_feeds(p.folded, path[0], path[1]);
        let rest = path.skip(1);
        assert forall|a: int, b: int|
            #![trigger rest[a], rest[b]]
            0 <= a && b == a + 1 && b < rest.len() implies h.feeds(rest[a], rest[b]) by {
            assert(path[a + 1] == rest[a]);
            assert(path[b + 1] == rest[b]);
        }
        assert forall|a: int| 0 <= a < rest.len() implies 0 <= #[trigger] rest[a]
            < h.nodes.len() by {
            assert(path[a + 1] == rest[a]);
        }
        assert(crate::compiler::dce::is_path(h, rest));
        assert(rest[0] == path[1] && rest.last() == p.roots[i]);
        assert(reaches_any(h, path[1], p.roots));
        assert(needed(p.folded, p.roots)((path[1] as usize) as int));
        assert(p.second.contains(path[1] as usize));
        let j = choose|j: int| 0 <= j < p.second.len() && p.second[j] == path[1] as usize;
        lemma_pruned_feeds(p.folded, p.last, p.second, needed(p.folded, p.roots), k, j);
        assert(p.last.nodes[j] == p.folded.nodes[path[1]]);
        assert(g.edges == p.last.edges);
        assert(g.feeds(k, j));
        assert(!is_constant(g.nodes[j].op));
    }
}

/// Compiling keeps what stands for every output.
pub proof fn law_compile_keeps_outputs<F: Float>(
    f: F,
    g0: GraphView,
    g: GraphView,
    start: u64,
    next: u64,
    keep: Seq<usize>,
    p: Passes,
    m: usize,
) -> (k: int)
    requires
        g0.wf(),
        compiled_by(f, g0, g, start, next, keep, p),
        m < g0.nodes.len(),
        g0.is_output(m as int),
    ensures
        0 <= k < g.nodes.len(),
        p.origin(k) == representative(p.simple, m),
{
    lemma_origins(f, g0, g, start, next, keep, p);
    let outs = crate::compiler::dce::outputs_below(p.simple, p.simple.nodes.len());
    let roots = wanted(p.simple, keep);
    assert(p.simple.is_output(m as int));
    crate::compiler::dce::lemma_outputs_below(p.simple, p.simple.nodes.len());
    assert(outs.contains(m));
    let i = choose|i: int| 0 <= i < outs.len() && outs[i] == m;
    assert((outs + keep)[i] == m);
    assert(roots[i] == representative(p.simple, m));
    assert(p.roots[i] < p.first.len() && p.first[p.roots[i] as int] == roots[i]);
    assert forall|j: int| 0 <= j < p.roots.len() implies #[trigger] p.roots[j]
        < p.folded.nodes.len() by {
        assert(p.roots[j] < p.first.len());
    }
    crate::compiler::dce::lemma_roots_kept(p.folded, p.last, p.roots, p.second);
    assert(p.second.contains(p.roots[i]));
    let k = choose|k: int| 0 <= k < p.second.len() && p.second[k] == p.roots[i];
    k
}

} // verus!
