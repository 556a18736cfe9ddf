//! Dead code elimination and reachability.

use crate::dag::{avoiding, renaming, swap_removed, touches, Edge};
use crate::error::Error;
use crate::compiler::simplify::is_constant;
use crate::graph::{GraphView, TensorGraph};
use crate::items::{
    lemma_filter_all, lemma_filter_congruent, lemma_filter_map, lemma_filter_same_items,
    lemma_filter_twice, lemma_map_same_items, same_items,
};
use crate::op::OpOf;
use vstd::prelude::*;
use vstd::seq_lib::*;

verus! {

/// `path` follows edges of the graph.
pub open spec fn is_path(g: GraphView, path: Seq<int>) -> bool {
    &&& path.len() > 0
    &&& forall|i: int|
        0 <= i < path.len() ==> 0 <= #[trigger] path[i] < g.nodes.len()
    &&& forall|i: int, j: int|
        #![trigger path[i], path[j]]
        0 <= i && j == i + 1 && j < path.len() ==> g.feeds(path[i], path[j])
}

/// There is a path from node `a` to node `b`.
pub open spec fn reaches(g: GraphView, a: int, b: int) -> bool {
    exists|path: Seq<int>| #[trigger] is_path(g, path) && path[0] == a && path.last() == b
}

/// Some output depends on node `n`.
pub open spec fn live(g: GraphView, n: int) -> bool {
    exists|m: int| 0 <= m < g.nodes.len() && #[trigger] g.is_output(m) && reaches(g, n, m)
}

/// Some of the nodes `starts` depends on node `n`.
pub open spec fn reaches_any(g: GraphView, n: int, starts: Seq<usize>) -> bool {
    exists|i: int| 0 <= i < starts.len() && reaches(g, n, #[trigger] starts[i] as int)
}

/// The edges that lead to a node that is still computed.
pub open spec fn into_computed(g: GraphView) -> spec_fn(Edge) -> bool {
    |e: Edge| !is_constant(g.nodes[e.1 as int].op)
}

/// The graph without the edges to constants: a constant needs no operands.
pub open spec fn computing(g: GraphView) -> GraphView {
    GraphView { nodes: g.nodes, edges: g.edges.filter(into_computed(g)) }
}

/// One of `roots` needs node `n` to be computed.
pub open spec fn needed(g: GraphView, roots: Seq<usize>) -> spec_fn(int) -> bool {
    |n: int| reaches_any(computing(g), n, roots)
}

/// The graph with all its edges, or without those to constants.
spec fn counted(g: GraphView, all: bool) -> GraphView {
    if all {
        g
    } else {
        computing(g)
    }
}

/// What feeds a node that is still computed, feeds it in the graph.
pub proof fn lemma_computing_feeds(g: GraphView, a: int, b: int)
    requires
        0 <= b,
    ensures
        computing(g).feeds(a, b) == (g.feeds(a, b) && !is_constant(g.nodes[b].op)),
{
    let p = into_computed(g);
    let t = g.edges.filter(p);
    if computing(g).feeds(a, b) {
        let i = choose|i: int| 0 <= i < t.len() && (#[trigger] t[i]).0 == a && t[i].1 == b;
        assert(t.contains(t[i]));
        g.edges.lemma_filter_pred(p, i);
        g.edges.lemma_filter_contains_rev(p, t[i]);
        let k = choose|k: int| 0 <= k < g.edges.len() && g.edges[k] == t[i];
        assert(g.edges[k].0 == a);
    }
    if g.feeds(a, b) && !is_constant(g.nodes[b].op) {
        let k = choose|k: int|
            0 <= k < g.edges.len() && (#[trigger] g.edges[k]).0 == a && g.edges[k].1 == b;
        assert(p(g.edges[k]));
        g.edges.lemma_filter_contains(p, k);
        assert(t.contains(g.edges[k]));
        let i = choose|i: int| 0 <= i < t.len() && t[i] == g.edges[k];
        assert(computing(g).edges[i].0 == a && computing(g).edges[i].1 == b);
    }
}

/// Every node reaches itself.
proof fn lemma_reaches_self(g: GraphView, n: int)
    requires
        0 <= n < g.nodes.len(),
    ensures
        reaches(g, n, n),
{
    let path = seq![n];
    assert(is_path(g, path));
    assert(path[0] == n && path.last() == n);
}

/// What feeds a node reaches all that the node reaches.
pub proof fn lemma_reaches_step(g: GraphView, a: int, b: int, c: int)
    requires
        0 <= a < g.nodes.len(),
        g.feeds(a, b),
        reaches(g, b, c),
    ensures
        reaches(g, a, c),
{
    let path = choose|path: Seq<int>|
        #[trigger] is_path(g, path) && path[0] == b && path.last() == c;
    let longer = seq![a] + path;
    assert forall|i: int, j: int|
        #![trigger longer[i], longer[j]]
        0 <= i && j == i + 1 && j < longer.len() implies g.feeds(longer[i], longer[j]) by {
        if i > 0 {
            assert(path[i - 1] == longer[i]);
            assert(path[i] == longer[j]);
        } else {
            assert(longer[j] == path[0]);
        }
    }
    assert forall|i: int| 0 <= i < longer.len() implies 0 <= #[trigger] longer[i]
        < g.nodes.len() by {
        if i > 0 {
            assert(path[i - 1] == longer[i]);
        }
    }
    assert(is_path(g, longer));
    assert(longer[0] == a && longer.last() == c);
}

/// A set that holds the end of a path and, with a node, all that feeds it
/// holds the whole path.
proof fn lemma_closed_holds_path(g: GraphView, marked: Seq<bool>, path: Seq<int>)
    requires
        is_path(g, path),
        marked.len() == g.nodes.len(),
        marked[path.last()],
        forall|a: int, b: int|
            0 <= a < marked.len() && 0 <= b < marked.len() && marked[b] && #[trigger] g.feeds(a, b)
                ==> marked[a],
    ensures
        marked[path[0]],
    decreases path.len(),
{
    if path.len() > 1 {
        let rest = path.skip(1);
        assert forall|i: int, j: int|
            #![trigger rest[i], rest[j]]
            0 <= i && j == i + 1 && j < rest.len() implies g.feeds(rest[i], rest[j]) by {
            assert(path[i + 1] == rest[i]);
            assert(path[j + 1] == rest[j]);
        }
        assert forall|i: int| 0 <= i < rest.len() implies 0 <= #[trigger] rest[i]
            < g.nodes.len() by {
            assert(path[i + 1] == rest[i]);
        }
        assert(rest.last() == path.last());
        lemma_closed_holds_path(g, marked, rest);
        assert(rest[0] == path[1]);
        assert(g.feeds(path[0], path[1]));
    }
}

/// How many entries are not set.
spec fn unmarked(marked: Seq<bool>) -> nat
    decreases marked.len(),
{
    if marked.len() == 0 {
        0
    } else {
        unmarked(marked.drop_last()) + (if marked.last() {
            0nat
        } else {
            1
        })
    }
}

proof fn lemma_unmarked_drop(marked: Seq<bool>, n: int)
    requires
        0 <= n < marked.len(),
        !marked[n],
    ensures
        unmarked(marked.update(n, true)) + 1 == unmarked(marked),
    decreases marked.len(),
{
    let u = marked.update(n, true);
    if n == marked.len() - 1 {
        assert(u.drop_last() =~= marked.drop_last());
    } else {
        assert(u.drop_last() =~= marked.drop_last().update(n, true));
        lemma_unmarked_drop(marked.drop_last(), n);
    }
}

/// Pushes the nodes that feed node `n`; without `all`, those of a constant are
/// left out.
fn push_operands(g: &TensorGraph, n: usize, all: bool, stack: &mut Vec<usize>)
    requires
        g.wf(),
        n < g@.nodes.len(),
    ensures
        final(stack)@.len() >= old(stack)@.len(),
        final(stack)@.take(old(stack)@.len() as int) == old(stack)@,
        forall|i: int|
            old(stack)@.len() <= i < final(stack)@.len() ==> {
                &&& #[trigger] final(stack)@[i] < g@.nodes.len()
                &&& counted(g@, all).feeds(final(stack)@[i] as int, n as int)
            },
        forall|a: int|
            0 <= a < g@.nodes.len() && #[trigger] counted(g@, all).feeds(a, n as int)
                ==> final(stack)@.contains(a as usize),
{
    proof {
        assert forall|a: int| #[trigger] counted(g@, all).feeds(a, n as int) == (g@.feeds(
            a,
            n as int,
        ) && (all || !is_constant(g@.nodes[n as int].op))) by {
            lemma_computing_feeds(g@, a, n as int);
        }
    }
    if !all {
        if let OpOf::Input(_) = &g.node(n).op {
            proof {
                assert(stack@.take(stack@.len() as int) =~= stack@);
            }
            return;
        }
    }
    let incoming = g.edges_directed(n, false);
    let ghost start = stack@;
    proof {
        g.lemma_wf();
        assert(stack@.take(start.len() as int) =~= start);
    }
    for i in 0..incoming.len()
        invariant
            g@.wf(),
            n < g@.nodes.len(),
            forall|a: int| #[trigger]
                counted(g@, all).feeds(a, n as int) == g@.feeds(a, n as int),
            forall|j: int|
                0 <= j < incoming@.len() ==> {
                    let (id, e) = #[trigger] incoming@[j];
                    &&& id < g@.edges.len()
                    &&& e == g@.edges[id as int]
                    &&& n == e.1
                },
            stack@.len() == start.len() + i,
            stack@.take(start.len() as int) == start,
            forall|j: int| 0 <= j < i ==> stack@[start.len() + j] == (#[trigger] incoming@[j]).1.0,
            forall|j: int|
                start.len() <= j < stack@.len() ==> {
                    &&& #[trigger] stack@[j] < g@.nodes.len()
                    &&& counted(g@, all).feeds(stack@[j] as int, n as int)
                },
    {
        let source: usize = incoming[i].1.0;
        proof {
            let (id, e) = incoming@[i as int];
            assert(g@.edges[id as int].0 < g@.nodes.len());
            assert(g@.feeds(source as int, n as int));
            assert(counted(g@, all).feeds(source as int, n as int));
        }
        stack.push(source);
        proof {
            assert(stack@.take(start.len() as int) =~= start);
        }
    }
    proof {
        assert forall|a: int| 0 <= a < g@.nodes.len() && #[trigger] counted(g@, all).feeds(
            a,
            n as int,
        ) implies stack@.contains(a as usize) by {
            assert(g@.feeds(a, n as int));
            let id = choose|id: int|
                0 <= id < g@.edges.len() && (#[trigger] g@.edges[id]).0 == a && g@.edges[id].1 == n;
            let j = choose|j: int| 0 <= j < incoming@.len() && (#[trigger] incoming@[j]).0 == id;
            assert(stack@[start.len() + j] == incoming@[j].1.0);
        }
    }
}

/// Every node on the stack is a node of the graph that reaches a start.
spec fn stack_ok(g: GraphView, stack: Seq<usize>, starts: Seq<usize>) -> bool {
    forall|i: int|
        0 <= i < stack.len() ==> {
            &&& #[trigger] stack[i] < g.nodes.len()
            &&& reaches_any(g, stack[i] as int, starts)
        }
}

/// What feeds a marked node is marked or on the stack, and so is every start.
spec fn frontier_ok(
    g: GraphView,
    marked: Seq<bool>,
    stack: Seq<usize>,
    starts: Seq<usize>,
) -> bool {
    &&& forall|i: int|
        0 <= i < starts.len() ==> marked[#[trigger] starts[i] as int] || stack.contains(starts[i])
    &&& forall|a: int, b: int|
        0 <= a < marked.len() && 0 <= b < marked.len() && marked[b] && #[trigger] g.feeds(a, b)
            ==> marked[a] || stack.contains(a as usize)
}

/// What was on the stack is still there, or was the node just taken off it.
proof fn lemma_stack_kept(before: Seq<usize>, after: Seq<usize>)
    requires
        before.len() > 0,
        after.len() >= before.len() - 1,
        after.take(before.len() - 1) == before.drop_last(),
    ensures
        forall|v: usize| #[trigger] before.contains(v) ==> v == before.last() || after.contains(v),
{
    assert forall|v: usize| #[trigger] before.contains(v) implies v == before.last()
        || after.contains(v) by {
        let i = choose|i: int| 0 <= i < before.len() && before[i] == v;
        if i < before.len() - 1 {
            assert(after.take(before.len() - 1)[i] == v);
            assert(after[i] == v);
        }
    }
}

/// Marks the nodes from which one of `starts` is reached; without `all`, over
/// nodes that are still computed.
fn reach_back(g: &TensorGraph, starts: &Vec<usize>, all: bool) -> (marked: Vec<bool>)
    requires
        g.wf(),
        forall|i: int| 0 <= i < starts@.len() ==> #[trigger] starts@[i] < g@.nodes.len(),
    ensures
        marked@.len() == g@.nodes.len(),
        forall|n: int|
            0 <= n < marked@.len() ==> (#[trigger] marked@[n] <==> reaches_any(counted(g@, all), n, starts@)),
{
    let ghost h = counted(g@, all);
    let count: usize = g.node_count();
    let mut marked: Vec<bool> = vec![false; count];
    let mut stack: Vec<usize> = starts.clone();
    proof {
        assert(stack@ =~= starts@);
        g.lemma_wf();
        assert(stack_ok(h, stack@, starts@)) by {
            assert forall|i: int| 0 <= i < stack@.len() implies #[trigger] stack@[i]
                < g@.nodes.len() && reaches_any(h, stack@[i] as int, starts@) by {
                assert(starts@[i] < g@.nodes.len());
                lemma_reaches_self(h, starts@[i] as int);
            }
        }
        assert(frontier_ok(h, marked@, stack@, starts@));
    }
    while stack.len() > 0
        invariant
            g.wf(),
            h == counted(g@, all),
            count == g@.nodes.len() == marked@.len(),
            forall|i: int| 0 <= i < starts@.len() ==> #[trigger] starts@[i] < count,
            stack_ok(h, stack@, starts@),
            frontier_ok(h, marked@, stack@, starts@),
            forall|n: int|
                0 <= n < count && #[trigger] marked@[n] ==> reaches_any(h, n, starts@),
        decreases unmarked(marked@), stack@.len(),
    {
        let ghost stack0 = stack@;
        let ghost marked0 = marked@;
        let n: usize = match stack.pop() {
            Some(n) => n,
            None => 0,
        };
        proof {
            assert(n == stack0[stack0.len() - 1]);
            assert(stack@ =~= stack0.drop_last());
            assert(stack@.take(stack0.len() - 1) =~= stack0.drop_last());
        }
        if !marked[n] {
            proof {
                lemma_unmarked_drop(marked@, n as int);
            }
            marked[n] = true;
            push_operands(g, n, all, &mut stack);
            proof {
                lemma_stack_kept(stack0, stack@);
                lemma_expanded(h, stack0, stack@, n, starts@);
                assert(frontier_ok(h, marked@, stack@, starts@)) by {
                    assert forall|a: int, b: int|
                        0 <= a < count && 0 <= b < count && marked@[b] && #[trigger] h.feeds(
                            a,
                            b,
                        ) implies marked@[a] || stack@.contains(a as usize) by {
                        if b != n {
                            assert(marked0[b]);
                            assert(marked0[a] || stack0.contains(a as usize));
                        }
                    }
                    assert forall|i: int| 0 <= i < starts@.len() implies marked@[
                    #[trigger] starts@[i] as int] || stack@.contains(starts@[i]) by {
                        assert(marked0[starts@[i] as int] || stack0.contains(starts@[i]));
                    }
                }
            }
        } else {
            proof {
                lemma_stack_kept(stack0, stack@);
                assert(stack_ok(h, stack@, starts@)) by {
                    assert forall|i: int| 0 <= i < stack@.len() implies #[trigger] stack@[i]
                        < g@.nodes.len() && reaches_any(h, stack@[i] as int, starts@) by {
                        assert(stack@[i] == stack0[i]);
                    }
                }
            }
        }
    }
    proof {
        assert forall|n: int| 0 <= n < count && reaches_any(h, n, starts@) implies
            #[trigger] marked@[n] by {
            let k = choose|k: int|
                0 <= k < starts@.len() && reaches(h, n, #[trigger] starts@[k] as int);
            let path = choose|path: Seq<int>|
                #[trigger] is_path(h, path) && path[0] == n && path.last() == starts@[k] as int;
            assert(marked@[starts@[k] as int]);
            lemma_closed_holds_path(h, marked@, path);
        }
    }
    marked
}

/// The stack stays in order when the operands of its top node replace it.
proof fn lemma_expanded(
    g: GraphView,
    before: Seq<usize>,
    after: Seq<usize>,
    n: usize,
    starts: Seq<usize>,
)
    requires
        before.len() > 0,
        before.last() == n,
        stack_ok(g, before, starts),
        after.len() >= before.len() - 1,
        after.take(before.len() - 1) == before.drop_last(),
        forall|i: int|
            before.len() - 1 <= i < after.len() ==> {
                &&& #[trigger] after[i] < g.nodes.len()
                &&& g.feeds(after[i] as int, n as int)
            },
    ensures
        reaches_any(g, n as int, starts),
        stack_ok(g, after, starts),
{
    assert(before[before.len() - 1] == n);
    let k = choose|k: int|
        0 <= k < starts.len() && reaches(g, n as int, #[trigger] starts[k] as int);
    assert forall|i: int| 0 <= i < after.len() implies #[trigger] after[i] < g.nodes.len()
        && reaches_any(g, after[i] as int, starts) by {
        if i < before.len() - 1 {
            assert(after.take(before.len() - 1)[i] == before[i]);
        } else {
            lemma_reaches_step(g, after[i] as int, n as int, starts[k] as int);
        }
    }
}

/// Whether no edge leaves a node.
fn is_output_node(g: &TensorGraph, n: usize) -> (r: bool)
    requires
        g.wf(),
        n < g@.nodes.len(),
    ensures
        r == g@.is_output(n as int),
{
    let out = g.edges_directed(n, true);
    proof {
        if out@.len() > 0 {
            let (id, e) = out@[0];
            assert(g@.edges[id as int].0 == n);
        } else {
            assert forall|i: int| 0 <= i < g@.edges.len() implies (#[trigger] g@.edges[i]).0
                != n by {}
        }
    }
    out.len() == 0
}

/// The first output at or after node `from`.
pub open spec fn first_output(g: GraphView, from: int) -> Option<int>
    decreases g.nodes.len() - from,
{
    if from >= g.nodes.len() {
        None
    } else if g.is_output(from) {
        Some(from)
    } else {
        first_output(g, from + 1)
    }
}

/// Whether the graph's first output depends on a node.
pub fn is_reachable_from_output(g: &TensorGraph, node: usize) -> (r: bool)
    requires
        g.wf(),
    ensures
        r == match first_output(g@, 0) {
            Some(out) => node < g@.nodes.len() && reaches(g@, node as int, out),
            None => false,
        },
{
    let count: usize = g.node_count();
    let mut output: usize = 0;
    while output < count && !is_output_node(g, output)
        invariant
            g.wf(),
            count == g@.nodes.len(),
            output <= count,
            first_output(g@, 0) == first_output(g@, output as int),
        decreases count - output,
    {
        output = output + 1;
    }
    if output >= count {
        return false;
    }
    let starts: Vec<usize> = vec![output];
    let marked = reach_back(g, &starts, true);
    proof {
        assert(starts@[0] == output);
        assert forall|n: int| reaches_any(g@, n, starts@) == reaches(g@, n, output as int) by {
            if reaches(g@, n, output as int) {
                assert(reaches(g@, n, starts@[0] as int));
            }
        }
    }
    node < count && marked[node]
}

/// Node `k` of the pruned graph is node `origin[k]` of the whole one.
pub open spec fn traced(origin: Seq<usize>, e: Edge) -> Edge {
    (origin[e.0 as int], origin[e.1 as int], e.2)
}

/// Tracing as a function on edges.
pub open spec fn tracing(origin: Seq<usize>) -> spec_fn(Edge) -> Edge {
    |e: Edge| traced(origin, e)
}

/// The nodes that some output depends on.
pub open spec fn live_nodes(g: GraphView) -> spec_fn(int) -> bool {
    |n: int| live(g, n)
}

/// Both ends of an edge are wanted.
pub open spec fn wanted_edges(wanted: spec_fn(int) -> bool) -> spec_fn(Edge) -> bool {
    |e: Edge| wanted(e.0 as int) && wanted(e.1 as int)
}

/// `g` holds exactly the wanted nodes of `g0`, as they are, with the edges
/// between them; node `k` of `g` is node `origin[k]` of `g0`.
pub open spec fn pruned_by(
    g0: GraphView,
    g: GraphView,
    origin: Seq<usize>,
    wanted: spec_fn(int) -> bool,
) -> bool {
    &&& origin.no_duplicates()
    &&& g.nodes.len() == origin.len()
    &&& forall|k: int|
        0 <= k < origin.len() ==> {
            &&& #[trigger] origin[k] < g0.nodes.len()
            &&& wanted(origin[k] as int)
            &&& g.nodes[k] == g0.nodes[origin[k] as int]
        }
    &&& forall|n: usize| n < g0.nodes.len() && wanted(n as int) ==> #[trigger] origin.contains(n)
    &&& same_items(g.edges.map_values(tracing(origin)), g0.edges.filter(wanted_edges(wanted)))
}

/// What is left of a graph when its dead nodes are removed. A graph without
/// an output is left as it is, and so is one without dead nodes.
pub open spec fn pruned(g0: GraphView, g: GraphView) -> bool {
    if (forall|n: int| 0 <= n < g0.nodes.len() ==> !#[trigger] g0.is_output(n)) || (forall|n: int|
        0 <= n < g0.nodes.len() ==> #[trigger] live(g0, n)) {
        g == g0
    } else {
        exists|origin: Seq<usize>| pruned_by(g0, g, origin, live_nodes(g0))
    }
}

/// What is left of a graph when only what `roots` need is kept. Without roots
/// the graph is left as it is.
pub open spec fn swept(g0: GraphView, g: GraphView, roots: Seq<usize>, origin: Seq<usize>) -> bool {
    if roots.len() == 0 {
        g == g0 && origin == Seq::new(g0.nodes.len(), |k: int| k as usize)
    } else {
        pruned_by(g0, g, origin, needed(g0, roots))
    }
}

/// Still there when the unwanted nodes from `d` on are gone.
spec fn kept_from(wanted: spec_fn(int) -> bool, d: int, n: int) -> bool {
    n < d || wanted(n)
}

spec fn kept_edges(wanted: spec_fn(int) -> bool, d: int) -> spec_fn(Edge) -> bool {
    |e: Edge| kept_from(wanted, d, e.0 as int) && kept_from(wanted, d, e.1 as int)
}

/// Part of the nodes have been removed: the unwanted ones from `d` on.
spec fn removing(
    g0: GraphView,
    g: GraphView,
    origin: Seq<usize>,
    wanted: spec_fn(int) -> bool,
    d: int,
) -> bool {
    &&& origin.no_duplicates()
    &&& g.nodes.len() == origin.len()
    &&& d <= origin.len()
    &&& forall|k: int|
        0 <= k < origin.len() ==> {
            &&& #[trigger] origin[k] < g0.nodes.len()
            &&& kept_from(wanted, d, origin[k] as int)
            &&& k < d ==> origin[k] == k
            &&& g.nodes[k] == g0.nodes[origin[k] as int]
        }
    &&& forall|n: usize|
        n < g0.nodes.len() && kept_from(wanted, d, n as int) ==> #[trigger] origin.contains(n)
    &&& same_items(g.edges.map_values(tracing(origin)), g0.edges.filter(kept_edges(wanted, d)))
}

/// Removing the unwanted node `d` carries the correspondence on.
proof fn lemma_remove_dead(
    g0: GraphView,
    g: GraphView,
    h: GraphView,
    origin: Seq<usize>,
    wanted: spec_fn(int) -> bool,
    d: int,
)
    requires
        g.wf(),
        removing(g0, g, origin, wanted, d + 1),
        0 <= d < g.nodes.len(),
        !wanted(d),
        h.nodes == swap_removed(g.nodes, d),
        h.edges.to_multiset() == g.edges.filter(avoiding(d as usize)).map_values(
            renaming((g.nodes.len() - 1) as usize, d as usize),
        ).to_multiset(),
    ensures
        removing(g0, h, swap_removed(origin, d), wanted, d),
{
    let last = (g.nodes.len() - 1) as usize;
    let x = d as usize;
    assert(origin[d] == x);
    let to = swap_removed(origin, d);
    let keep = avoiding(x);
    let rename = renaming(last, x);
    let t = tracing(origin);
    let t2 = tracing(to);
    let p = kept_edges(wanted, d + 1);
    let q = avoiding(x);
    let r = kept_edges(wanted, d);
    let kept = g.edges.filter(keep);
    // The new edges, traced, are the kept edges, traced.
    lemma_map_same_items(h.edges, kept.map_values(rename), t2);
    assert(kept.map_values(rename).map_values(t2) =~= kept.map_values(t)) by {
        assert forall|i: int| 0 <= i < kept.len() implies t2(rename(kept[i])) == t(kept[i]) by {
            let e = kept[i];
            assert(kept.contains(e));
            g.edges.lemma_filter_pred(keep, i);
            g.edges.lemma_filter_contains_rev(keep, e);
            let k = choose|k: int| 0 <= k < g.edges.len() && g.edges[k] == e;
            assert(g.edges[k].0 < g.nodes.len());
            assert(!touches(e, x));
        }
    }
    // Traced first or filtered first, it is the same.
    lemma_filter_map(g.edges, t, q);
    let qt = |e: Edge| q(t(e));
    assert forall|i: int| 0 <= i < g.edges.len() implies keep(#[trigger] g.edges[i]) == qt(
        g.edges[i],
    ) by {
        let e = g.edges[i];
        assert(e.0 < g.nodes.len() && e.1 < g.nodes.len());
        assert(origin[e.0 as int] == x <==> e.0 == x);
        assert(origin[e.1 as int] == x <==> e.1 == x);
    }
    lemma_filter_congruent(g.edges, keep, qt);
    lemma_filter_same_items(g.edges.map_values(t), g0.edges.filter(p), q);
    lemma_filter_twice(g0.edges, p, q, r);
    assert(same_items(h.edges.map_values(t2), g0.edges.filter(r)));
    assert(to.no_duplicates()) by {
        assert forall|a: int, b: int| 0 <= a < to.len() && 0 <= b < to.len() && a != b implies to[a]
            != to[b] by {
            let l = last as int;
            assert(to[a] == (if a == d {
                origin[l]
            } else {
                origin[a]
            }));
            assert(to[b] == (if b == d {
                origin[l]
            } else {
                origin[b]
            }));
        }
    }
    assert forall|k: int| 0 <= k < to.len() implies #[trigger] to[k] < g0.nodes.len() && kept_from(
        wanted,
        d,
        to[k] as int,
    ) && (k < d ==> to[k] == k) && h.nodes[k] == g0.nodes[to[k] as int] by {
        let j = if k == d {
            last as int
        } else {
            k
        };
        assert(to[k] == origin[j]);
        assert(origin[j] < g0.nodes.len() && kept_from(wanted, d + 1, origin[j] as int));
        assert(j != d);
        assert(origin[j] != origin[d]);
    }
    assert forall|n: usize| n < g0.nodes.len() && kept_from(wanted, d, n as int) implies
        #[trigger] to.contains(n) by {
        assert(origin.contains(n));
        let j = choose|j: int| 0 <= j < origin.len() && origin[j] == n;
        assert(j != d);
        if j == last {
            assert(to[d] == n);
        } else {
            assert(to[j] == n);
        }
    }
}

/// Removes the nodes that are not marked, and tells which node each of the rest
/// was. Where a node goes, the last node takes its place.
fn remove_unmarked(graph: &mut TensorGraph, marked: &Vec<bool>) -> (origin: Vec<usize>)
    requires
        old(graph).wf(),
        marked@.len() == old(graph)@.nodes.len(),
    ensures
        final(graph).wf(),
        pruned_by(old(graph)@, final(graph)@, origin@, |n: int| marked@[n]),
        (forall|n: int| 0 <= n < marked@.len() ==> #[trigger] marked@[n]) ==> final(graph)@
            == old(graph)@,
        final(graph).next_tensor_id() == old(graph).next_tensor_id(),
        final(graph).compiles_on_run() == old(graph).compiles_on_run(),
{
    let ghost g0 = graph@;
    let ghost wanted = |n: int| marked@[n];
    let count: usize = graph.node_count();
    let mut origin = all_nodes(count);
    proof {
        graph.lemma_wf();
        assert(g0.edges.map_values(tracing(origin@)) =~= g0.edges) by {
            assert forall|i: int| 0 <= i < g0.edges.len() implies traced(origin@, g0.edges[i])
                == g0.edges[i] by {
                assert(g0.edges[i].0 < count && g0.edges[i].1 < count);
            }
        }
        assert forall|i: int| 0 <= i < g0.edges.len() implies kept_edges(wanted, count as int)(
            #[trigger] g0.edges[i],
        ) by {
            assert(g0.edges[i].0 < count && g0.edges[i].1 < count);
        }
        lemma_filter_all(g0.edges, kept_edges(wanted, count as int));
        assert forall|n: usize| n < g0.nodes.len() implies #[trigger] origin@.contains(n) by {
            assert(origin@[n as int] == n);
        }
        assert(removing(g0, graph@, origin@, wanted, count as int));
    }
    let mut d: usize = count;
    while d > 0
        invariant
            graph.wf(),
            d <= count,
            count == g0.nodes.len() == marked@.len(),
            wanted == (|n: int| marked@[n]),
            removing(g0, graph@, origin@, wanted, d as int),
            graph.next_tensor_id() == old(graph).next_tensor_id(),
            graph.compiles_on_run() == old(graph).compiles_on_run(),
            (forall|n: int| 0 <= n < count ==> #[trigger] marked@[n]) ==> graph@ == g0,
        decreases d,
    {
        d = d - 1;
        if !marked[d] {
            let ghost before = graph@;
            let ghost was = origin@;
            proof {
                graph.lemma_wf();
            }
            graph.remove_node(d);
            let _gone = origin.swap_remove(d);
            proof {
                assert(origin@ =~= swap_removed(was, d as int));
                assert(!wanted(d as int));
                lemma_remove_dead(g0, before, graph@, was, wanted, d as int);
            }
        } else {
            proof {
                assert(wanted(d as int));
                assert(kept_edges(wanted, d as int) =~= kept_edges(wanted, d as int + 1));
            }
        }
    }
    proof {
        assert(kept_edges(wanted, 0) =~= wanted_edges(wanted));
        assert(pruned_by(g0, graph@, origin@, wanted));
    }
    origin
}

/// The numbers below `count`.
fn all_nodes(count: usize) -> (v: Vec<usize>)
    ensures
        v@ == Seq::new(count as nat, |k: int| k as usize),
{
    let mut v: Vec<usize> = Vec::new();
    for k in 0..count
        invariant
            v@ == Seq::new(k as nat, |i: int| i as usize),
    {
        v.push(k);
        proof {
            assert(v@ =~= Seq::new((k + 1) as nat, |i: int| i as usize));
        }
    }
    v
}

/// The outputs among the first `n` nodes, in order.
pub open spec fn outputs_below(g: GraphView, n: nat) -> Seq<usize>
    decreases n,
{
    if n == 0 {
        Seq::empty()
    } else if g.is_output(n - 1) {
        outputs_below(g, (n - 1) as nat).push((n - 1) as usize)
    } else {
        outputs_below(g, (n - 1) as nat)
    }
}

/// The outputs of a graph are its nodes without consumers.
pub proof fn lemma_outputs_below(g: GraphView, n: nat)
    requires
        n <= usize::MAX + 1,
    ensures
        forall|i: int|
            0 <= i < outputs_below(g, n).len() ==> #[trigger] outputs_below(g, n)[i] < n
                && g.is_output(outputs_below(g, n)[i] as int),
        forall|k: usize|
            k < n && #[trigger] g.is_output(k as int) ==> outputs_below(g, n).contains(k),
    decreases n,
{
    if n > 0 {
        lemma_outputs_below(g, (n - 1) as nat);
        let before = outputs_below(g, (n - 1) as nat);
        let after = outputs_below(g, n);
        assert forall|k: usize| k < n && #[trigger] g.is_output(k as int) implies after.contains(
            k,
        ) by {
            if k < n - 1 {
                let i = choose|i: int| 0 <= i < before.len() && before[i] == k;
                assert(after[i] == k);
            } else {
                assert(after[before.len() as int] == k);
            }
        }
    }
}

/// The outputs of a graph.
pub(crate) fn output_nodes(g: &TensorGraph) -> (v: Vec<usize>)
    requires
        g.wf(),
    ensures
        v@ == outputs_below(g@, g@.nodes.len()),
{
    let count: usize = g.node_count();
    let mut v: Vec<usize> = Vec::new();
    for n in 0..count
        invariant
            g.wf(),
            count == g@.nodes.len(),
            v@ == outputs_below(g@, n as nat),
    {
        if is_output_node(g, n) {
            v.push(n);
        }
    }
    v
}

/// Removes the nodes that no output depends on. Where a node goes, the last
/// node takes its place.
pub fn run_dce_pass(graph: &mut TensorGraph) -> (r: Result<(), Error>)
    requires
        old(graph).wf(),
    ensures
        r is Ok,
        final(graph).wf(),
        pruned(old(graph)@, final(graph)@),
        final(graph).next_tensor_id() == old(graph).next_tensor_id(),
        final(graph).compiles_on_run() == old(graph).compiles_on_run(),
{
    let ghost g0 = graph@;
    let count: usize = graph.node_count();
    let outputs = output_nodes(graph);
    proof {
        lemma_outputs_below(g0, g0.nodes.len());
        assert(outputs@ == outputs_below(g0, g0.nodes.len()));
        assert forall|i: int| 0 <= i < outputs@.len() implies #[trigger] outputs@[i]
            < g0.nodes.len() && g0.is_output(outputs@[i] as int) by {
            assert(outputs_below(g0, g0.nodes.len())[i] < g0.nodes.len());
        }
    }
    if outputs.len() == 0 {
        proof {
            assert forall|n: int| 0 <= n < g0.nodes.len() implies !#[trigger] g0.is_output(n) by {
                if g0.is_output(n) {
                    assert(g0.is_output((n as usize) as int));
                    assert(outputs@.contains(n as usize));
                }
            }
        }
        return Ok(());
    }
    let marked = reach_back(graph, &outputs, true);
    proof {
        assert forall|n: int| 0 <= n < count implies #[trigger] marked@[n] == live(g0, n) by {
            if reaches_any(g0, n, outputs@) {
                let i = choose|i: int|
                    0 <= i < outputs@.len() && reaches(g0, n, #[trigger] outputs@[i] as int);
                assert(g0.is_output(outputs@[i] as int));
            }
            if live(g0, n) {
                let m = choose|m: int|
                    0 <= m < g0.nodes.len() && #[trigger] g0.is_output(m) && reaches(g0, n, m);
                assert(g0.is_output((m as usize) as int));
                assert(outputs@.contains(m as usize));
                let i = choose|i: int| 0 <= i < outputs@.len() && outputs@[i] == m as usize;
                assert(reaches(g0, n, outputs@[i] as int));
            }
        }
        graph.lemma_wf();
    }
    let origin = remove_unmarked(graph, &marked);
    proof {
        lemma_wanted_congruent(g0, graph@, origin@, |n: int| marked@[n], live_nodes(g0));
        assert(g0.is_output(outputs@[0] as int));
        if forall|n: int| 0 <= n < g0.nodes.len() ==> #[trigger] live(g0, n) {
            assert forall|n: int| 0 <= n < marked@.len() implies #[trigger] marked@[n] by {
                assert(live(g0, n));
            }
        }
    }
    Ok(())
}

/// What is wanted matters only for nodes of the graph.
proof fn lemma_wanted_congruent(
    g0: GraphView,
    g: GraphView,
    origin: Seq<usize>,
    a: spec_fn(int) -> bool,
    b: spec_fn(int) -> bool,
)
    requires
        g0.wf(),
        pruned_by(g0, g, origin, a),
        forall|n: int| 0 <= n < g0.nodes.len() ==> #[trigger] a(n) == b(n),
    ensures
        pruned_by(g0, g, origin, b),
{
    assert forall|i: int| 0 <= i < g0.edges.len() implies wanted_edges(a)(#[trigger] g0.edges[i])
        == wanted_edges(b)(g0.edges[i]) by {
        let e = g0.edges[i];
        assert(e.0 < g0.nodes.len() && e.1 < g0.nodes.len());
        assert(a(e.0 as int) == b(e.0 as int));
        assert(a(e.1 as int) == b(e.1 as int));
    }
    lemma_filter_congruent(g0.edges, wanted_edges(a), wanted_edges(b));
    assert forall|k: int| 0 <= k < origin.len() implies #[trigger] origin[k] < g0.nodes.len() && b(
        origin[k] as int,
    ) && g.nodes[k] == g0.nodes[origin[k] as int] by {
        assert(a(origin[k] as int));
    }
    assert forall|n: usize| n < g0.nodes.len() && b(n as int) implies #[trigger] origin.contains(
        n,
    ) by {
        assert(a(n as int));
    }
}

/// Removes the nodes that none of `roots` needs, and tells which node each of
/// the rest was.
pub(crate) fn sweep(graph: &mut TensorGraph, roots: &Vec<usize>) -> (origin: Vec<usize>)
    requires
        old(graph).wf(),
        forall|i: int| 0 <= i < roots@.len() ==> #[trigger] roots@[i] < old(graph)@.nodes.len(),
    ensures
        final(graph).wf(),
        swept(old(graph)@, final(graph)@, roots@, origin@),
        final(graph).next_tensor_id() == old(graph).next_tensor_id(),
        final(graph).compiles_on_run() == old(graph).compiles_on_run(),
{
    let ghost g0 = graph@;
    if roots.len() == 0 {
        return all_nodes(graph.node_count());
    }
    let marked = reach_back(graph, roots, false);
    proof {
        graph.lemma_wf();
    }
    let origin = remove_unmarked(graph, &marked);
    proof {
        lemma_wanted_congruent(g0, graph@, origin@, |n: int| marked@[n], needed(g0, roots@));
    }
    origin
}

/// Where nodes went: node `at[i]` of the rest was node `nodes[i]`.
pub open spec fn placed(origin: Seq<usize>, nodes: Seq<usize>, at: Seq<usize>) -> bool {
    &&& at.len() == nodes.len()
    &&& forall|i: int|
        0 <= i < at.len() ==> (#[trigger] at[i]) < origin.len() && origin[at[i] as int] == nodes[i]
}

/// Finds where nodes went that were kept.
pub(crate) fn places(origin: &Vec<usize>, nodes: &Vec<usize>) -> (at: Vec<usize>)
    requires
        forall|i: int| 0 <= i < nodes@.len() ==> #[trigger] origin@.contains(nodes@[i]),
    ensures
        placed(origin@, nodes@, at@),
{
    let size: usize = origin.len();
    let mut at: Vec<usize> = Vec::new();
    for i in 0..nodes.len()
        invariant
            size == origin@.len(),
            forall|i: int| 0 <= i < nodes@.len() ==> #[trigger] origin@.contains(nodes@[i]),
            at@.len() == i,
            forall|j: int|
                0 <= j < i ==> (#[trigger] at@[j]) < origin@.len() && origin@[at@[j] as int]
                    == nodes@[j],
    {
        let mut k: usize = 0;
        proof {
            assert(origin@.contains(nodes@[i as int]));
        }
        while origin[k] != nodes[i]
            invariant
                i < nodes@.len(),
                size == origin@.len(),
                k < size,
                exists|j: int| k <= j < origin@.len() && origin@[j] == nodes@[i as int],
            decreases origin@.len() - k,
        {
            k = k + 1;
        }
        at.push(k);
    }
    at
}

/// What is kept holds every root.
pub proof fn lemma_roots_kept(g0: GraphView, g: GraphView, roots: Seq<usize>, origin: Seq<usize>)
    requires
        swept(g0, g, roots, origin),
        forall|i: int| 0 <= i < roots.len() ==> #[trigger] roots[i] < g0.nodes.len(),
    ensures
        forall|i: int| 0 <= i < roots.len() ==> #[trigger] origin.contains(roots[i]),
{
    assert forall|i: int| 0 <= i < roots.len() implies #[trigger] origin.contains(roots[i]) by {
        lemma_reaches_self(computing(g0), roots[i] as int);
        assert(reaches_any(computing(g0), roots[i] as int, roots));
        assert(needed(g0, roots)(roots[i] as int));
    }
}

/// In a graph without cycles some output depends on every node: where the
/// graph has nodes, it has outputs, and nothing is removed.
pub proof fn law_dce_keeps_acyclic_graphs(g0: GraphView, g: GraphView, rank: Seq<nat>)
    requires
        g0.wf(),
        crate::compiler::simplify::acyclic_by(g0, rank),
        pruned(g0, g),
    ensures
        g == g0,
{
    assert forall|n: int| 0 <= n < g0.nodes.len() implies #[trigger] live(g0, n) by {
        let top = lemma_bounded(rank);
        lemma_all_live(g0, rank, top, n);
    }
}

/// Finitely many ranks have a bound.
pub proof fn lemma_bounded(rank: Seq<nat>) -> (top: nat)
    ensures
        forall|i: int| 0 <= i < rank.len() ==> #[trigger] rank[i] <= top,
    decreases rank.len(),
{
    if rank.len() == 0 {
        0
    } else {
        let t = lemma_bounded(rank.drop_last());
        let top = if rank.last() > t {
            rank.last()
        } else {
            t
        };
        assert forall|i: int| 0 <= i < rank.len() implies #[trigger] rank[i] <= top by {
            if i < rank.len() - 1 {
                assert(rank.drop_last()[i] == rank[i]);
            }
        }
        top
    }
}

proof fn lemma_all_live(g: GraphView, rank: Seq<nat>, top: nat, n: int)
    requires
        g.wf(),
        crate::compiler::simplify::acyclic_by(g, rank),
        forall|i: int| 0 <= i < rank.len() ==> #[trigger] rank[i] <= top,
        0 <= n < g.nodes.len(),
    ensures
        live(g, n),
    decreases top - rank[n],
{
    if g.is_output(n) {
        lemma_reaches_self(g, n);
    } else {
        let i = choose|i: int| 0 <= i < g.edges.len() && (#[trigger] g.edges[i]).0 == n;
        let m = g.edges[i].1 as int;
        assert(rank[n] < rank[m]);
        assert(rank[m] <= top);
        lemma_all_live(g, rank, top, m);
        let o = choose|o: int|
            0 <= o < g.nodes.len() && #[trigger] g.is_output(o) && reaches(g, m, o);
        assert(g.feeds(n, m));
        lemma_reaches_step(g, n, m, o);
    }
}

/// Removing dead nodes never adds a node.
pub proof fn law_dce_shrinks(g0: GraphView, g: GraphView)
    requires
        pruned(g0, g),
    ensures
        g.nodes.len() <= g0.nodes.len(),
{
    if g != g0 {
        let origin = choose|origin: Seq<usize>| pruned_by(g0, g, origin, live_nodes(g0));
        lemma_pruned_shrinks(g0, g, origin, live_nodes(g0));
    }
}

/// A choice of nodes is no larger than the graph.
pub proof fn lemma_pruned_shrinks(
    g0: GraphView,
    g: GraphView,
    origin: Seq<usize>,
    wanted: spec_fn(int) -> bool,
)
    requires
        pruned_by(g0, g, origin, wanted),
    ensures
        g.nodes.len() <= g0.nodes.len(),
{
    let ints = origin.map_values(|n: usize| n as int);
    assert(ints.no_duplicates());
    assert forall|i: int| 0 <= i < ints.len() implies 0 <= #[trigger] ints[i]
        < g0.nodes.len() by {
        assert(origin[i] < g0.nodes.len());
    }
    crate::items::lemma_distinct_below(ints, g0.nodes.len() as int);
}

} // verus!
