//! Common subexpression elimination.

use crate::dag::{swap_removed, Edge};
use crate::compiler::simplify::acyclic_by;
use crate::error::Error;
use crate::eval::{acyclic, lemma_operands_below};
use crate::graph::{get_indexed_inputs, lemma_inputs_in_range, GraphView, TensorGraph};
use crate::items::{lemma_count_one, lemma_filter_same_items, lemma_swap_removed, same_items};
use crate::op::{same_op, Op, OpOf, OpView};
use vstd::prelude::*;
use vstd::seq_lib::*;

verus! {

/// Operations that are looked at for common subexpressions.
pub open spec fn comparable(op: OpView) -> bool {
    match op {
        OpOf::Input(_)
        | OpOf::MatMul
        | OpOf::Relu
        | OpOf::Add
        | OpOf::Sub
        | OpOf::Mul
        | OpOf::Div
        | OpOf::Tanh
        | OpOf::Sigmoid
        | OpOf::Exp
        | OpOf::Sqrt
        | OpOf::Neg
        | OpOf::BroadcastAdd { .. }
        | OpOf::BroadcastMul { .. }
        | OpOf::BroadcastSub { .. }
        | OpOf::BroadcastDiv { .. }
        | OpOf::Transpose
        | OpOf::SumAll
        | OpOf::SumDim { .. }
        | OpOf::Reshape { .. }
        | OpOf::Softmax
        | OpOf::Concat { .. } => true,
        _ => false,
    }
}

/// The node that operand `a` of node `n` counts as: what stands for it, where
/// it comes before `n`.
pub open spec fn stand_in(g: GraphView, n: nat, a: usize) -> usize
    decreases n, 0nat, 0nat,
{
    if a < n {
        first_same(g, a as nat, 0) as usize
    } else {
        a
    }
}

/// Nodes `m` and `n` are the same computation: the same operation on the same
/// input tensors in the same order. An input tensor counts as the first one
/// that is computed in the same way.
pub open spec fn same_computation(g: GraphView, m: nat, n: nat) -> bool
    decreases
            if m < n {
                n
            } else {
                m
            },
            1nat,
            0nat,
{
    &&& comparable(g.nodes[n as int].op)
    &&& g.nodes[m as int].op == g.nodes[n as int].op
    &&& match (g.inputs(m as usize), g.inputs(n as usize)) {
        (Some(s), Some(t)) => {
            &&& s.len() == t.len()
            &&& forall|p: int|
                #![trigger s[p]]
                #![trigger t[p]]
                0 <= p < s.len() ==> stand_in(g, m, s[p]) == stand_in(g, n, t[p])
        },
        _ => false,
    }
}

/// The first node from `m` on, up to `n`, that is the same computation as `n`.
pub open spec fn first_same(g: GraphView, n: nat, m: nat) -> nat
    decreases n, 2nat, n - m,
{
    if m >= n {
        n
    } else if same_computation(g, m, n) {
        m
    } else {
        first_same(g, n, m + 1)
    }
}

/// The first node that is the same computation as node `n`.
pub open spec fn representative(g: GraphView, n: usize) -> usize {
    first_same(g, n as nat, 0) as usize
}

/// The edge, taken from the representative of its source.
pub open spec fn redirected(g: GraphView, e: Edge) -> Edge {
    (representative(g, e.0), e.1, e.2)
}

/// Redirection as a function on edges.
pub open spec fn redirecting(g: GraphView) -> spec_fn(Edge) -> Edge {
    |e: Edge| redirected(g, e)
}

/// `g` is `g0` with every operand taken from the first node that computes it.
/// No node is removed.
pub open spec fn deduplicated(g0: GraphView, g: GraphView) -> bool {
    &&& g.nodes == g0.nodes
    &&& same_items(g.edges, g0.edges.map_values(redirecting(g0)))
}

proof fn lemma_first_same(g: GraphView, n: nat, m: nat)
    requires
        m <= n,
    ensures
        m <= first_same(g, n, m) <= n,
        first_same(g, n, m) < n ==> same_computation(g, first_same(g, n, m), n),
        forall|k: nat| m <= k < first_same(g, n, m) ==> !#[trigger] same_computation(g, k, n),
    decreases n - m,
{
    if m < n && !same_computation(g, m, n) {
        lemma_first_same(g, n, m + 1);
    }
}

/// The same computation as the same computation is the same computation.
proof fn lemma_same_transitive(g: GraphView, l: nat, m: nat, n: nat)
    requires
        same_computation(g, l, m),
        same_computation(g, m, n),
    ensures
        same_computation(g, l, n),
{
    let r = g.inputs(l as usize).unwrap();
    let s = g.inputs(m as usize).unwrap();
    let t = g.inputs(n as usize).unwrap();
    assert forall|p: int|
        #![trigger r[p]]
        #![trigger t[p]]
        0 <= p < r.len() implies stand_in(g, l, r[p]) == stand_in(g, n, t[p]) by {
        assert(stand_in(g, l, r[p]) == stand_in(g, m, s[p]));
        assert(stand_in(g, m, s[p]) == stand_in(g, n, t[p]));
    }
}

/// A representative stands for itself.
pub proof fn law_representative_idempotent(g: GraphView, n: usize)
    ensures
        representative(g, n) <= n,
        representative(g, representative(g, n)) == representative(g, n),
        representative(g, n) != n ==> same_computation(g, representative(g, n) as nat, n as nat),
{
    lemma_first_same(g, n as nat, 0);
    let r = first_same(g, n as nat, 0);
    lemma_first_same(g, r, 0);
    let q = first_same(g, r, 0);
    if q < r {
        if r < n {
            lemma_same_transitive(g, q, r, n as nat);
        }
        assert(same_computation(g, q, n as nat));
    }
}

/// Two nodes have the same operation, on operands with the same
/// representatives.
pub open spec fn same_operands(g: GraphView, a: usize, b: usize) -> bool {
    &&& g.nodes[a as int].op == g.nodes[b as int].op
    &&& match (g.inputs(a), g.inputs(b)) {
        (Some(s), Some(t)) => {
            &&& s.len() == t.len()
            &&& forall|p: int|
                #![trigger s[p]]
                #![trigger t[p]]
                0 <= p < s.len() ==> representative(g, s[p]) == representative(g, t[p])
        },
        _ => false,
    }
}

/// The operands of a node and of an earlier one that is the same computation
/// have the same representatives.
proof fn lemma_same_operands(g: GraphView, m: usize, n: usize)
    requires
        m < n,
        same_computation(g, m as nat, n as nat),
    ensures
        same_operands(g, m, n),
{
    let s = g.inputs(m).unwrap();
    let t = g.inputs(n).unwrap();
    assert forall|p: int|
        #![trigger s[p]]
        #![trigger t[p]]
        0 <= p < s.len() implies representative(g, s[p]) == representative(g, t[p]) by {
        assert(stand_in(g, m as nat, s[p]) == stand_in(g, n as nat, t[p]));
        law_representative_idempotent(g, s[p]);
        law_representative_idempotent(g, t[p]);
    }
}

/// Different nodes with the same representative have the same operation, on
/// operands with the same representatives.
pub proof fn law_same_representative(g: GraphView, a: usize, b: usize)
    requires
        representative(g, a) == representative(g, b),
        a != b,
    ensures
        same_operands(g, a, b),
{
    law_representative_idempotent(g, a);
    law_representative_idempotent(g, b);
    let c = representative(g, a);
    if c != a {
        lemma_same_operands(g, c, a);
    }
    if c != b {
        lemma_same_operands(g, c, b);
    }
    let s = g.inputs(a).unwrap();
    let t = g.inputs(b).unwrap();
    assert forall|p: int|
        #![trigger s[p]]
        #![trigger t[p]]
        0 <= p < s.len() implies representative(g, s[p]) == representative(g, t[p]) by {
        let r = g.inputs(c).unwrap();
        assert(representative(g, r[p]) == representative(g, r[p]));
    }
}

/// Node `b` has the same representative as `n`, and no node that has it has a
/// smaller rank.
spec fn is_lowest(g: GraphView, rank: Seq<nat>, n: int, b: int) -> bool {
    &&& 0 <= b < g.nodes.len()
    &&& representative(g, b as usize) == representative(g, n as usize)
    &&& forall|a: int|
        0 <= a < g.nodes.len() && #[trigger] representative(g, a as usize) == representative(
            g,
            n as usize,
        ) ==> rank[b] <= rank[a]
}

proof fn lemma_lowest(g: GraphView, rank: Seq<nat>, n: int, a: int) -> (b: int)
    requires
        rank.len() == g.nodes.len(),
        0 <= a < g.nodes.len(),
        representative(g, a as usize) == representative(g, n as usize),
    ensures
        is_lowest(g, rank, n, b),
    decreases rank[a],
{
    if exists|x: int|
        0 <= x < g.nodes.len() && #[trigger] representative(g, x as usize) == representative(
            g,
            n as usize,
        ) && rank[x] < rank[a] {
        let x = choose|x: int|
            0 <= x < g.nodes.len() && #[trigger] representative(g, x as usize) == representative(
                g,
                n as usize,
            ) && rank[x] < rank[a];
        lemma_lowest(g, rank, n, x)
    } else {
        a
    }
}

/// The smallest rank among the nodes with the representative of node `n`.
spec fn lowest_rank(g: GraphView, rank: Seq<nat>, n: int) -> nat {
    rank[choose|b: int| is_lowest(g, rank, n, b)]
}

/// Redirecting edges to representatives brings no cycle.
pub proof fn law_cse_brings_no_cycle(g0: GraphView, g: GraphView)
    requires
        g0.wf(),
        acyclic(g0),
        deduplicated(g0, g),
    ensures
        acyclic(g),
{
    let rank = choose|rank: Seq<nat>| acyclic_by(g0, rank);
    let low = Seq::new(g0.nodes.len(), |n: int| lowest_rank(g0, rank, n));
    let m = g0.edges.map_values(redirecting(g0));
    assert forall|i: int| 0 <= i < g.edges.len() implies low[(#[trigger] g.edges[i]).0 as int]
        < low[g.edges[i].1 as int] by {
        let e = g.edges[i];
        to_multiset_contains(g.edges, e);
        assert(g.edges.contains(e));
        to_multiset_contains(m, e);
        let j = choose|j: int| 0 <= j < m.len() && m[j] == e;
        let x = g0.edges[j].0;
        let y = g0.edges[j].1;
        assert(x < g0.nodes.len() && y < g0.nodes.len());
        law_representative_idempotent(g0, x);
        assert(rank[x as int] < rank[y as int]);
        let _ = lemma_lowest(g0, rank, e.0 as int, x as int);
        let _ = lemma_lowest(g0, rank, y as int, y as int);
        let a = choose|b: int| is_lowest(g0, rank, e.0 as int, b);
        let b = choose|b: int| is_lowest(g0, rank, y as int, b);
        assert(is_lowest(g0, rank, e.0 as int, a) && is_lowest(g0, rank, y as int, b));
        if b == y {
            assert(representative(g0, (x as int) as usize) == representative(g0, e.0));
        } else {
            let z = lemma_same_source(g0, y, b as usize, j);
            lemma_operands_below(g0, rank, b as usize);
            assert(representative(g0, (z as int) as usize) == representative(g0, e.0));
            let t = g0.inputs(b as usize).unwrap();
            let p = choose|p: int| 0 <= p < t.len() && t[p] == z;
            assert(g0.inputs(b as usize).unwrap()[p] == z);
            assert(rank[z as int] < rank[b]);
        }
    }
    assert(acyclic_by(g, low));
}

/// Where edge `j` feeds `y`, a node with the same operands up to
/// representatives has an operand with the representative of its source.
proof fn lemma_same_source(g: GraphView, y: usize, b: usize, j: int) -> (z: usize)
    requires
        g.wf(),
        0 <= j < g.edges.len(),
        g.edges[j].1 == y,
        representative(g, y) == representative(g, b),
        y != b,
    ensures
        g.inputs(b) is Some,
        g.inputs(b).unwrap().contains(z),
        representative(g, z) == representative(g, g.edges[j].0),
{
    law_same_representative(g, y, b);
    let s = g.inputs(y).unwrap();
    let t = g.inputs(b).unwrap();
    lemma_inputs_in_range(g, y);
    let e = g.edges[j];
    to_multiset_contains(g.edges, e);
    assert(g.edges.contains(e));
    assert(g.edges.to_multiset().count((e.0, y, e.2)) > 0);
    assert(s[e.2 as int] == e.0);
    let z = t[e.2 as int];
    z
}

/// Whether the operation is looked at for common subexpressions.
fn is_comparable(op: &Op) -> (r: bool)
    ensures
        r == comparable(op@),
{
    match op {
        OpOf::Input(_)
        | OpOf::MatMul
        | OpOf::Relu
        | OpOf::Add
        | OpOf::Sub
        | OpOf::Mul
        | OpOf::Div
        | OpOf::Tanh
        | OpOf::Sigmoid
        | OpOf::Exp
        | OpOf::Sqrt
        | OpOf::Neg
        | OpOf::BroadcastAdd { .. }
        | OpOf::BroadcastMul { .. }
        | OpOf::BroadcastSub { .. }
        | OpOf::BroadcastDiv { .. }
        | OpOf::Transpose
        | OpOf::SumAll
        | OpOf::SumDim { .. }
        | OpOf::Reshape { .. }
        | OpOf::Softmax
        | OpOf::Concat { .. } => true,
        _ => false,
    }
}

/// `k` lists what the operands of node `n` count as, where they are
/// consistent.
spec fn keyed(g: GraphView, n: nat, k: Option<Vec<usize>>) -> bool {
    match g.inputs(n as usize) {
        Some(s) => k matches Some(v) && v@.len() == s.len() && forall|p: int|
            0 <= p < s.len() ==> #[trigger] v@[p] == stand_in(g, n, s[p]),
        None => k is None,
    }
}

/// What two nodes must share to be the same computation, besides the
/// operation.
fn node_key(g: &TensorGraph, n: usize, reps: &Vec<usize>) -> (k: Option<Vec<usize>>)
    requires
        g.wf(),
        n < g@.nodes.len(),
        reps@.len() == n,
        forall|i: int| 0 <= i < n ==> #[trigger] reps@[i] == representative(g@, i as usize),
    ensures
        keyed(g@, n as nat, k),
{
    let inputs = match get_indexed_inputs(g, n) {
        Ok(v) => v,
        Err(_) => {
            return None;
        },
    };
    let mut out: Vec<usize> = Vec::new();
    for p in 0..inputs.len()
        invariant
            reps@.len() == n,
            forall|i: int| 0 <= i < n ==> #[trigger] reps@[i] == representative(g@, i as usize),
            out@.len() == p,
            forall|q: int|
                0 <= q < p ==> #[trigger] out@[q] == stand_in(g@, n as nat, inputs@[q]),
    {
        let a: usize = inputs[p];
        if a < n {
            proof {
                assert(reps@[a as int] == representative(g@, a));
            }
            out.push(reps[a]);
        } else {
            out.push(a);
        }
    }
    Some(out)
}

/// Whether two nodes have consistent operands that count as the same.
fn same_key(a: &Option<Vec<usize>>, b: &Option<Vec<usize>>) -> (r: bool)
    ensures
        r == match (a, b) {
            (Some(v), Some(w)) => v@ == w@,
            _ => false,
        },
{
    match (a, b) {
        (Some(v), Some(w)) => crate::shape::same_dims(v, w),
        _ => false,
    }
}

/// The representative of every node.
fn representatives(g: &TensorGraph) -> (reps: Vec<usize>)
    requires
        g.wf(),
    ensures
        reps@.len() == g@.nodes.len(),
        forall|i: int| 0 <= i < reps@.len() ==> #[trigger] reps@[i] == representative(g@, i as usize),
{
    let count: usize = g.node_count();
    let mut keys: Vec<Option<Vec<usize>>> = Vec::new();
    let mut reps: Vec<usize> = Vec::new();
    for n in 0..count
        invariant
            g.wf(),
            count == g@.nodes.len(),
            keys@.len() == n,
            forall|i: int| 0 <= i < n ==> keyed(g@, i as nat, #[trigger] keys@[i]),
            reps@.len() == n,
            forall|i: int| 0 <= i < n ==> #[trigger] reps@[i] == representative(g@, i as usize),
    {
        let key = node_key(g, n, &reps);
        keys.push(key);
        let mut rep: usize = 0;
        if is_comparable(&g.node(n).op) {
            while rep < n && !(same_op(&g.node(rep).op, &g.node(n).op) && same_key(
                &keys[rep],
                &keys[n],
            ))
                invariant
                    g.wf(),
                    rep <= n < count,
                    count == g@.nodes.len(),
                    keys@.len() == n + 1,
                    forall|i: int| 0 <= i <= n ==> keyed(g@, i as nat, #[trigger] keys@[i]),
                    comparable(g@.nodes[n as int].op),
                    first_same(g@, n as nat, 0) == first_same(g@, n as nat, rep as nat),
                decreases n - rep,
            {
                proof {
                    lemma_keys(g@, rep as nat, n as nat, keys@[rep as int], keys@[n as int]);
                }
                rep = rep + 1;
            }
            proof {
                lemma_keys(g@, rep as nat, n as nat, keys@[rep as int], keys@[n as int]);
            }
        } else {
            rep = n;
            proof {
                lemma_first_same(g@, n as nat, 0);
            }
        }
        reps.push(rep);
    }
    reps
}

/// Equal keys are equal operands.
proof fn lemma_keys(g: GraphView, m: nat, n: nat, a: Option<Vec<usize>>, b: Option<Vec<usize>>)
    requires
        keyed(g, m, a),
        keyed(g, n, b),
        comparable(g.nodes[n as int].op),
    ensures
        same_computation(g, m, n) == (g.nodes[m as int].op == g.nodes[n as int].op && match (a, b) {
            (Some(v), Some(w)) => v@ == w@,
            _ => false,
        }),
{
    if a is Some && b is Some {
        let v = a.unwrap()@;
        let w = b.unwrap()@;
        let s = g.inputs(m as usize).unwrap();
        let t = g.inputs(n as usize).unwrap();
        if same_computation(g, m, n) {
            assert forall|p: int| 0 <= p < v.len() implies v[p] == w[p] by {
                assert(v[p] == stand_in(g, m, s[p]));
                assert(w[p] == stand_in(g, n, t[p]));
            }
            assert(v =~= w);
        }
        if v == w && g.nodes[m as int].op == g.nodes[n as int].op {
            assert forall|p: int|
                #![trigger s[p]]
                #![trigger t[p]]
                0 <= p < s.len() implies stand_in(g, m, s[p]) == stand_in(g, n, t[p]) by {
                assert(v[p] == stand_in(g, m, s[p]));
                assert(w[p] == stand_in(g, n, t[p]));
            }
            assert(same_computation(g, m, n));
        }
    }
}

/// The edges that leave node `n`.
spec fn leaves_node(n: usize) -> spec_fn(Edge) -> bool {
    |e: Edge| e.0 == n
}

/// How many edges leave node `n`.
spec fn leaving(edges: Seq<Edge>, n: usize) -> nat {
    edges.filter(leaves_node(n)).len()
}

/// Replacing an edge that leaves `n` by one that does not takes one away.
proof fn lemma_leaving(edges: Seq<Edge>, i: int, new_edge: Edge, n: usize)
    requires
        0 <= i < edges.len(),
        edges[i].0 == n,
        new_edge.0 != n,
    ensures
        leaving(swap_removed(edges, i).push(new_edge), n) + 1 == leaving(edges, n),
{
    broadcast use vstd::multiset::group_multiset_axioms;

    let p = leaves_node(n);
    let rest = swap_removed(edges, i);
    let x = edges[i];
    lemma_swap_removed(edges, i);
    to_multiset_build(rest, x);
    to_multiset_contains(edges, x);
    assert(edges.contains(x));
    assert(rest.push(x).to_multiset() =~= edges.to_multiset());
    lemma_filter_same_items(rest.push(x), edges, p);
    to_multiset_len(rest.push(x).filter(p));
    to_multiset_len(edges.filter(p));
    rest.lemma_filter_len_push(p, x);
    rest.lemma_filter_len_push(p, new_edge);
}

/// Replacing an edge by its redirection leaves the redirected edges the same.
proof fn lemma_redirect_step(g0: GraphView, edges: Seq<Edge>, i: int)
    requires
        0 <= i < edges.len(),
    ensures
        same_items(
            swap_removed(edges, i).push(redirected(g0, edges[i])).map_values(redirecting(g0)),
            edges.map_values(redirecting(g0)),
        ),
{
    broadcast use vstd::multiset::group_multiset_axioms;

    let f = redirecting(g0);
    let rest = swap_removed(edges, i);
    let x = edges[i];
    law_representative_idempotent(g0, x.0);
    assert(f(f(x)) == f(x));
    assert(rest.push(f(x)).map_values(f) =~= rest.map_values(f).push(f(x)));
    assert(rest.map_values(f) =~= swap_removed(edges.map_values(f), i));
    lemma_swap_removed(edges.map_values(f), i);
    to_multiset_build(rest.map_values(f), f(x));
    to_multiset_contains(edges.map_values(f), f(x));
    assert(edges.map_values(f)[i] == f(x));
    assert(edges.map_values(f).contains(f(x)));
    assert(rest.map_values(f).push(f(x)).to_multiset() =~= edges.map_values(f).to_multiset());
}

/// Takes the operands that node `n` gives from its representative instead.
fn redirect_node(graph: &mut TensorGraph, n: usize, rep: usize, Ghost(g0): Ghost<GraphView>)
    requires
        old(graph).wf(),
        old(graph)@.nodes == g0.nodes,
        n < g0.nodes.len(),
        rep == representative(g0, n),
        rep != n,
        same_items(
            old(graph)@.edges.map_values(redirecting(g0)),
            g0.edges.map_values(redirecting(g0)),
        ),
        forall|i: int|
            0 <= i < old(graph)@.edges.len() ==> {
                let a = (#[trigger] old(graph)@.edges[i]).0;
                a < n ==> representative(g0, a) == a
            },
    ensures
        final(graph).wf(),
        final(graph)@.nodes == g0.nodes,
        final(graph).next_tensor_id() == old(graph).next_tensor_id(),
        final(graph).compiles_on_run() == old(graph).compiles_on_run(),
        same_items(
            final(graph)@.edges.map_values(redirecting(g0)),
            g0.edges.map_values(redirecting(g0)),
        ),
        forall|i: int|
            0 <= i < final(graph)@.edges.len() ==> {
                let a = (#[trigger] final(graph)@.edges[i]).0;
                a <= n ==> representative(g0, a) == a
            },
{
    proof {
        law_representative_idempotent(g0, n);
    }
    let mut out = graph.edges_directed(n, true);
    while out.len() > 0
        invariant
            graph.wf(),
            graph@.nodes == g0.nodes,
            graph.next_tensor_id() == old(graph).next_tensor_id(),
            graph.compiles_on_run() == old(graph).compiles_on_run(),
            n < g0.nodes.len(),
            rep == representative(g0, n),
            rep < n,
            representative(g0, rep) == rep,
            same_items(
                graph@.edges.map_values(redirecting(g0)),
                g0.edges.map_values(redirecting(g0)),
            ),
            forall|i: int|
                0 <= i < graph@.edges.len() ==> {
                    let a = (#[trigger] graph@.edges[i]).0;
                    a < n ==> representative(g0, a) == a
                },
            forall|i: int|
                0 <= i < out@.len() ==> {
                    let (id, e) = #[trigger] out@[i];
                    &&& id < graph@.edges.len()
                    &&& e == graph@.edges[id as int]
                    &&& n == e.0
                },
            forall|id: int|
                #![trigger graph@.edges[id]]
                0 <= id < graph@.edges.len() && n == graph@.edges[id].0 ==> exists|i: int|
                    0 <= i < out@.len() && (#[trigger] out@[i]).0 == id,
        decreases leaving(graph@.edges, n),
    {
        let id: usize = out[0].0;
        let target: usize = out[0].1.1;
        let position: usize = out[0].1.2;
        let ghost before = graph@.edges;
        proof {
            graph.lemma_wf();
            assert(out@[0].1 == before[id as int]);
            assert(before[id as int].1 < graph@.nodes.len());
            lemma_leaving(before, id as int, (rep, target, position), n);
            lemma_redirect_step(g0, before, id as int);
        }
        graph.remove_edge(id);
        graph.add_edge(rep, target, position);
        proof {
            assert(graph@.edges == swap_removed(before, id as int).push(
                redirected(g0, before[id as int]),
            ));
            assert forall|i: int| 0 <= i < graph@.edges.len() implies {
                let a = (#[trigger] graph@.edges[i]).0;
                a < n ==> representative(g0, a) == a
            } by {
                if i < before.len() - 1 {
                    if i == id {
                        assert(before[before.len() - 1].0 == graph@.edges[i].0);
                    } else {
                        assert(before[i].0 == graph@.edges[i].0);
                    }
                }
            }
        }
        out = graph.edges_directed(n, true);
    }
    proof {
        assert forall|i: int| 0 <= i < graph@.edges.len() implies {
            let a = (#[trigger] graph@.edges[i]).0;
            a <= n ==> representative(g0, a) == a
        } by {
            if graph@.edges[i].0 == n {
                let j = choose|j: int| 0 <= j < out@.len() && (#[trigger] out@[j]).0 == i;
                assert(false);
            }
        }
    }
}

/// Takes every operand from the first node that is the same computation.
///
/// Two nodes are the same computation when they have the same operation and
/// the same input tensors in the same order.
pub fn run_cse_pass(graph: &mut TensorGraph) -> (r: Result<(), Error>)
    requires
        old(graph).wf(),
    ensures
        r is Ok,
        final(graph).wf(),
        deduplicated(old(graph)@, final(graph)@),
        final(graph).next_tensor_id() == old(graph).next_tensor_id(),
        final(graph).compiles_on_run() == old(graph).compiles_on_run(),
{
    let _reps = merge_duplicates(graph);
    Ok(())
}

/// Takes every operand from the first node that is the same computation, and
/// tells which node stands for each.
pub(crate) fn merge_duplicates(graph: &mut TensorGraph) -> (reps: Vec<usize>)
    requires
        old(graph).wf(),
    ensures
        final(graph).wf(),
        deduplicated(old(graph)@, final(graph)@),
        final(graph).next_tensor_id() == old(graph).next_tensor_id(),
        final(graph).compiles_on_run() == old(graph).compiles_on_run(),
        reps@.len() == old(graph)@.nodes.len(),
        forall|i: int|
            0 <= i < reps@.len() ==> #[trigger] reps@[i] == representative(
                old(graph)@,
                i as usize,
            ),
{
    let ghost g0 = graph@;
    let reps = representatives(graph);
    let count: usize = reps.len();
    for n in 0..count
        invariant
            graph.wf(),
            graph@.nodes == g0.nodes,
            graph.next_tensor_id() == old(graph).next_tensor_id(),
            graph.compiles_on_run() == old(graph).compiles_on_run(),
            count == reps@.len() == g0.nodes.len(),
            forall|i: int| 0 <= i < count ==> #[trigger] reps@[i] == representative(g0, i as usize),
            same_items(
                graph@.edges.map_values(redirecting(g0)),
                g0.edges.map_values(redirecting(g0)),
            ),
            forall|i: int|
                0 <= i < graph@.edges.len() ==> {
                    let a = (#[trigger] graph@.edges[i]).0;
                    a < n ==> representative(g0, a) == a
                },
    {
        let rep: usize = reps[n];
        if rep != n {
            redirect_node(graph, n, rep, Ghost(g0));
        }
    }
    proof {
        graph.lemma_wf();
        assert(graph@.edges.map_values(redirecting(g0)) =~= graph@.edges) by {
            assert forall|i: int| 0 <= i < graph@.edges.len() implies redirected(
                g0,
                graph@.edges[i],
            ) == graph@.edges[i] by {
                assert(graph@.edges[i].0 < g0.nodes.len());
            }
        }
    }
    reps
}

/// After the pass no operand comes from a node that another one stands for.
pub proof fn law_cse_uses_representatives(g0: GraphView, g: GraphView, i: int)
    requires
        deduplicated(g0, g),
        0 <= i < g.edges.len(),
    ensures
        representative(g0, g.edges[i].0) == g.edges[i].0,
{
    let m = g0.edges.map_values(redirecting(g0));
    let x = g.edges[i];
    to_multiset_contains(g.edges, x);
    assert(g.edges.contains(x));
    to_multiset_contains(m, x);
    let j = choose|j: int| 0 <= j < m.len() && m[j] == x;
    law_representative_idempotent(g0, g0.edges[j].0);
}

/// Every operand list is the old one, each operand taken from its
/// representative, at the same position.
pub proof fn law_cse_operands(g0: GraphView, g: GraphView, n: usize, s: Seq<usize>)
    requires
        g0.wf(),
        g.wf(),
        deduplicated(g0, g),
        g0.is_inputs(n, s),
    ensures
        g.inputs(n) == Some(s.map_values(|a: usize| representative(g0, a))),
{
    let f = redirecting(g0);
    let m = g0.edges.map_values(f);
    let t = s.map_values(|a: usize| representative(g0, a));
    assert forall|a: usize, p: usize| #[trigger]
        g.edges.to_multiset().count((a, n, p)) == (if p < t.len() && t[p as int] == a {
            1nat
        } else {
            0
        }) by {
        let x = (a, n, p);
        to_multiset_contains(m, x);
        if p < t.len() {
            let e = (s[p as int], n, p);
            assert(g0.edges.to_multiset().count((s[p as int], n, p)) == 1);
            to_multiset_contains(g0.edges, e);
            let i = choose|i: int| 0 <= i < g0.edges.len() && g0.edges[i] == e;
            assert(m[i] == (t[p as int], n, p));
            // No other edge stands at this position.
            assert forall|j: int| 0 <= j < m.len() && j != i implies !(m[j].1 == n && m[j].2
                == p) by {
                if m[j].1 == n && m[j].2 == p {
                    let d = g0.edges[j];
                    to_multiset_contains(g0.edges, d);
                    assert(g0.edges.contains(d));
                    assert(g0.edges.to_multiset().count((d.0, n, p)) > 0);
                    assert(d == e);
                    crate::items::lemma_count_two(g0.edges, i, j);
                }
            }
            if t[p as int] == a {
                lemma_count_one(m, i);
            } else if m.contains(x) {
                let j = choose|j: int| 0 <= j < m.len() && m[j] == x;
                assert(j == i);
            }
        } else if m.contains(x) {
            let j = choose|j: int| 0 <= j < m.len() && m[j] == x;
            let d = g0.edges[j];
            to_multiset_contains(g0.edges, d);
            assert(g0.edges.contains(d));
            assert(g0.edges.to_multiset().count((d.0, n, p)) > 0);
        }
    }
    assert(g.is_inputs(n, t));
    crate::graph::lemma_inputs_found(g, n, t);
}

} // verus!
