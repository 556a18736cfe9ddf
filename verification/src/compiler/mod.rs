//! The graph compiler: passes that make a graph cheaper to run.

use crate::backend::cpu::CpuBackend;
use crate::compiler::constant_fold::{constant_folded, run_constant_fold_pass};
use crate::compiler::cse::{
    deduplicated, law_representative_idempotent, merge_duplicates, representative,
};
use crate::compiler::dce::{
    lemma_outputs_below, lemma_pruned_shrinks, lemma_roots_kept, needed, output_nodes,
    outputs_below, placed, places, sweep, swept,
};
use crate::compiler::layout::{laid_out, run_layout_optimize_pass};
use crate::compiler::results::{law_compile_brings_no_cycle, lemma_origins};
use crate::compiler::simplify::{run_simplify_pass, simplified};
use crate::error::Error;
use crate::eval::{acyclic, comes_to, may_break, run_node};
use crate::float::Float;
use crate::graph::{GraphView, TensorGraph};
use crate::tensor::Tensor;
use vstd::prelude::*;

pub mod constant_fold;
pub mod cse;
pub mod dce;
pub mod identities;
pub mod layout;
pub mod results;
pub mod simplify;

verus! {

/// A compiled graph.
pub struct CompiledGraph {
    pub graph: TensorGraph,
}

/// The graph compiler.
#[derive(Debug, Clone, Copy)]
pub struct GraphCompiler;

/// The graphs between the passes, and where nodes come from.
pub struct Passes {
    /// After the algebraic identities.
    pub simple: GraphView,
    /// After common subexpressions were merged.
    pub merged: GraphView,
    /// Without what nothing needs any more.
    pub rest: GraphView,
    /// Node `j` of the rest was node `first[j]`.
    pub first: Seq<usize>,
    /// The nodes of the rest that are wanted for themselves.
    pub roots: Seq<usize>,
    /// After constant folding.
    pub folded: GraphView,
    /// Without what nothing needs any more.
    pub last: GraphView,
    /// Node `k` of the last graph was node `second[k]` of the folded one.
    pub second: Seq<usize>,
}

impl Passes {
    /// The node of the whole graph that node `k` of the compiled one was.
    pub open spec fn origin(self, k: int) -> int {
        self.first[self.second[k] as int] as int
    }
}

/// What is wanted for itself: what stands for an output or for one of `keep`.
pub open spec fn wanted(g: GraphView, keep: Seq<usize>) -> Seq<usize> {
    (outputs_below(g, g.nodes.len()) + keep).map_values(|a: usize| representative(g, a))
}

/// `g` is what the passes make of `g0`, one after the other: algebraic
/// identities, common subexpressions, orphans, constant folding, orphans again
/// and the layout of weights. An orphan is a node that nothing needs which is
/// wanted for itself. Tensors made on the way have the identifiers from
/// `start` to `next`.
pub open spec fn compiled_by<F: Float>(
    f: F,
    g0: GraphView,
    g: GraphView,
    start: u64,
    next: u64,
    keep: Seq<usize>,
    p: Passes,
) -> bool {
    &&& simplified(g0, p.simple)
    &&& deduplicated(p.simple, p.merged)
    &&& swept(p.merged, p.rest, wanted(p.simple, keep), p.first)
    &&& placed(p.first, wanted(p.simple, keep), p.roots)
    &&& constant_folded(f, p.rest, p.folded, start, next)
    &&& swept(p.folded, p.last, p.roots, p.second)
    &&& laid_out(p.last, g)
    &&& p.simple.wf()
    &&& p.merged.wf()
    &&& p.rest.wf()
    &&& p.folded.wf()
    &&& p.last.wf()
}

/// `g` is what the passes make of `g0` where nothing is wanted but its
/// outputs.
pub open spec fn compiled<F: Float>(
    f: F,
    g0: GraphView,
    g: GraphView,
    start: u64,
    next: u64,
) -> bool {
    exists|p: Passes| compiled_by(f, g0, g, start, next, Seq::empty(), p)
}

/// Node `at[i]` of the compiled graph stands for node `keep[i]`.
pub open spec fn kept_at(p: Passes, keep: Seq<usize>, at: Seq<usize>) -> bool {
    &&& at.len() == keep.len()
    &&& forall|i: int|
        0 <= i < at.len() ==> (#[trigger] at[i]) < p.second.len() && p.origin(at[i] as int)
            == representative(p.simple, keep[i])
}

/// The nodes that are wanted for themselves.
fn root_nodes(
    outputs: &Vec<usize>,
    keep: &Vec<usize>,
    reps: &Vec<usize>,
    Ghost(g): Ghost<GraphView>,
) -> (roots: Vec<usize>)
    requires
        outputs@ == outputs_below(g, g.nodes.len()),
        forall|i: int| 0 <= i < keep@.len() ==> #[trigger] keep@[i] < g.nodes.len(),
        reps@.len() == g.nodes.len(),
        forall|i: int| 0 <= i < reps@.len() ==> #[trigger] reps@[i] == representative(g, i as usize),
    ensures
        roots@ == wanted(g, keep@),
        forall|i: int| 0 <= i < roots@.len() ==> #[trigger] roots@[i] < g.nodes.len(),
{
    let ghost all = outputs@ + keep@;
    let size: usize = reps.len();
    proof {
        lemma_outputs_below(g, g.nodes.len());
        assert forall|i: int| 0 <= i < all.len() implies #[trigger] all[i] < g.nodes.len() by {
            if i < outputs@.len() {
                assert(outputs_below(g, g.nodes.len())[i] < g.nodes.len());
            } else {
                assert(keep@[i - outputs@.len()] < g.nodes.len());
            }
        }
    }
    let mut roots: Vec<usize> = Vec::new();
    for i in 0..outputs.len()
        invariant
            all == outputs@ + keep@,
            size == reps@.len() == g.nodes.len(),
            forall|j: int| 0 <= j < all.len() ==> #[trigger] all[j] < g.nodes.len(),
            forall|j: int|
                0 <= j < reps@.len() ==> #[trigger] reps@[j] == representative(g, j as usize),
            roots@.len() == i,
            forall|j: int| 0 <= j < i ==> #[trigger] roots@[j] == representative(g, all[j]),
    {
        proof {
            assert(all[i as int] == outputs@[i as int]);
        }
        roots.push(reps[outputs[i]]);
    }
    for i in 0..keep.len()
        invariant
            all == outputs@ + keep@,
            size == reps@.len() == g.nodes.len(),
            forall|j: int| 0 <= j < all.len() ==> #[trigger] all[j] < g.nodes.len(),
            forall|j: int|
                0 <= j < reps@.len() ==> #[trigger] reps@[j] == representative(g, j as usize),
            roots@.len() == outputs@.len() + i,
            forall|j: int|
                0 <= j < roots@.len() ==> #[trigger] roots@[j] == representative(g, all[j]),
    {
        proof {
            assert(all[outputs@.len() + i] == keep@[i as int]);
        }
        roots.push(reps[keep[i]]);
    }
    proof {
        assert(roots@ =~= wanted(g, keep@));
        assert forall|i: int| 0 <= i < roots@.len() implies #[trigger] roots@[i]
            < g.nodes.len() by {
            law_representative_idempotent(g, all[i]);
            assert(all[i] < g.nodes.len());
        }
    }
    roots
}

/// What stands behind the first `n` entries.
fn behind(v: &Vec<usize>, n: usize) -> (out: Vec<usize>)
    requires
        n <= v@.len(),
    ensures
        out@ == v@.skip(n as int),
{
    let mut out: Vec<usize> = Vec::new();
    for i in n..v.len()
        invariant
            n <= v@.len(),
            out@.len() == i - n,
            forall|j: int| 0 <= j < out@.len() ==> #[trigger] out@[j] == v@[n + j],
    {
        out.push(v[i]);
    }
    proof {
        assert(out@ =~= v@.skip(n as int));
    }
    out
}

/// The roots behind the outputs stand for the nodes that are kept.
proof fn lemma_kept_at(p: Passes, keep: Seq<usize>, ends: Seq<usize>, at: Seq<usize>)
    requires
        placed(p.first, wanted(p.simple, keep), p.roots),
        placed(p.second, p.roots, ends),
        at == ends.skip(outputs_below(p.simple, p.simple.nodes.len()).len() as int),
    ensures
        kept_at(p, keep, at),
{
    let outs = outputs_below(p.simple, p.simple.nodes.len());
    let roots = wanted(p.simple, keep);
    assert forall|i: int| 0 <= i < at.len() implies (#[trigger] at[i]) < p.second.len()
        && p.origin(at[i] as int) == representative(p.simple, keep[i]) by {
        let j = outs.len() + i;
        assert(at[i] == ends[j]);
        assert(ends[j] < p.second.len());
        assert(p.roots[j] < p.first.len());
        assert((outs + keep)[j] == keep[i]);
        assert(roots[j] == representative(p.simple, keep[i]));
    }
}

/// Compiles a graph and tells where the nodes of `keep` went.
fn compile_keeping<F: Float>(
    graph: TensorGraph,
    backend: &CpuBackend<F>,
    keep: &Vec<usize>,
) -> (r: Result<(TensorGraph, Vec<usize>), Error>)
    requires
        graph.wf(),
        forall|i: int| 0 <= i < keep@.len() ==> #[trigger] keep@[i] < graph@.nodes.len(),
    ensures
        r matches Ok(done) && {
            &&& done.0.wf()
            &&& done.0.compiles_on_run() == graph.compiles_on_run()
            &&& exists|p: Passes|
                compiled_by(
                    backend.float,
                    graph@,
                    done.0@,
                    graph.next_tensor_id(),
                    done.0.next_tensor_id(),
                    keep@,
                    p,
                ) && #[trigger] kept_at(p, keep@, done.1@)
        },
{
    let mut optimized = graph;
    let ghost g0 = optimized@;
    let ghost start = optimized.next_tensor_id();
    run_simplify_pass(&mut optimized)?;
    let ghost simple = optimized@;
    proof {
        optimized.lemma_wf();
        lemma_outputs_below(simple, simple.nodes.len());
    }
    let outputs = output_nodes(&optimized);
    let reps = merge_duplicates(&mut optimized);
    let ghost merged = optimized@;
    let targets = root_nodes(&outputs, keep, &reps, Ghost(simple));
    let ghost roots = targets@;
    proof {
        optimized.lemma_wf();
    }
    let first = sweep(&mut optimized, &targets);
    let ghost rest = optimized@;
    proof {
        optimized.lemma_wf();
        lemma_roots_kept(merged, rest, roots, first@);
    }
    let places_left = places(&first, &targets);
    run_constant_fold_pass(&mut optimized, backend)?;
    let ghost folded = optimized@;
    proof {
        optimized.lemma_wf();
        assert forall|j: int| 0 <= j < places_left@.len() implies #[trigger] places_left@[j]
            < folded.nodes.len() by {
            assert(places_left@[j] < first@.len());
        }
    }
    let second = sweep(&mut optimized, &places_left);
    let ghost last = optimized@;
    proof {
        optimized.lemma_wf();
        lemma_roots_kept(folded, last, places_left@, second@);
    }
    let ends = places(&second, &places_left);
    run_layout_optimize_pass(&mut optimized)?;
    let at = behind(&ends, outputs.len());
    let ghost p = Passes {
        simple,
        merged,
        rest,
        first: first@,
        roots: places_left@,
        folded,
        last,
        second: second@,
    };
    let ghost next = optimized.next_tensor_id();
    proof {
        assert(compiled_by(backend.float, g0, optimized@, start, next, keep@, p));
        lemma_kept_at(p, keep@, ends@, at@);
    }
    let done = (optimized, at);
    assert(compiled_by(backend.float, g0, done.0@, start, next, keep@, p));
    assert(kept_at(p, keep@, done.1@));
    Ok(done)
}

impl GraphCompiler {
    /// Compiles a graph. Constants are folded with the given backend.
    pub fn compile<F: Float>(graph: TensorGraph, backend: &CpuBackend<F>) -> (r: Result<
        CompiledGraph,
        Error,
    >)
        requires
            graph.wf(),
        ensures
            r matches Ok(c) && {
                &&& c.graph.wf()
                &&& compiled(
                    backend.float,
                    graph@,
                    c.graph@,
                    graph.next_tensor_id(),
                    c.graph.next_tensor_id(),
                )
                &&& c.graph.compiles_on_run() == graph.compiles_on_run()
            },
    {
        let nothing: Vec<usize> = Vec::new();
        proof {
            assert(nothing@ =~= Seq::<usize>::empty());
        }
        match compile_keeping(graph, backend, &nothing) {
            Ok((g, _)) => Ok(CompiledGraph { graph: g }),
            Err(e) => Err(e),
        }
    }
}

/// What running node `n` of a graph may give.
pub open spec fn gives<F: Float>(f: F, g: GraphView, n: int, r: Result<Tensor, Error>) -> bool {
    match r {
        Ok(t) => t.wf() && comes_to(f, g, n, t@),
        Err(e) => may_break(f, g, n, e@),
    }
}

/// Runs node `n` of a graph, which is compiled first if it asks for that: then
/// the node that stands for `n` in the compiled graph is run. The graph that
/// was run is handed back.
pub fn run<F: Float>(graph: TensorGraph, n: usize, backend: &CpuBackend<F>) -> (r: (
    TensorGraph,
    Result<Tensor, Error>,
))
    requires
        graph.wf(),
        acyclic(graph@),
        n < graph@.nodes.len(),
    ensures
        r.0.wf(),
        acyclic(r.0@),
        r.0.compiles_on_run() == graph.compiles_on_run(),
        if graph.compiles_on_run() {
            exists|p: Passes, at: Seq<usize>|
                compiled_by(
                    backend.float,
                    graph@,
                    r.0@,
                    graph.next_tensor_id(),
                    r.0.next_tensor_id(),
                    seq![n],
                    p,
                ) && #[trigger] kept_at(p, seq![n], at) && gives(
                    backend.float,
                    r.0@,
                    at[0] as int,
                    r.1,
                )
        } else {
            r.0 == graph && gives(backend.float, graph@, n as int, r.1)
        },
{
    proof {
        graph.lemma_wf();
    }
    if !graph.compile_on_run() {
        let t = run_node(&graph, n, backend);
        return (graph, t);
    }
    let ghost g0 = graph@;
    let ghost start = graph.next_tensor_id();
    let keep: Vec<usize> = vec![n];
    proof {
        assert(keep@ =~= seq![n]);
    }
    match compile_keeping(graph, backend, &keep) {
        Ok((g, at)) => {
            proof {
                let p = choose|p: Passes|
                    compiled_by(
                        backend.float,
                        g0,
                        g@,
                        start,
                        g.next_tensor_id(),
                        keep@,
                        p,
                    ) && #[trigger] kept_at(p, keep@, at@);
                law_compile_brings_no_cycle(
                    backend.float,
                    g0,
                    g@,
                    start,
                    g.next_tensor_id(),
                    keep@,
                    p,
                );
                lemma_origins(backend.float, g0, g@, start, g.next_tensor_id(), keep@, p);
                assert(at@[0] < p.second.len());
            }
            let t = run_node(&g, at[0], backend);
            (g, t)
        },
        Err(e) => (TensorGraph::new(), Err(e)),
    }
}

/// Compiling never adds a node.
pub proof fn law_compile_shrinks<F: Float>(
    f: F,
    g0: GraphView,
    g: GraphView,
    start: u64,
    next: u64,
    keep: Seq<usize>,
    p: Passes,
)
    requires
        compiled_by(f, g0, g, start, next, keep, p),
    ensures
        g.nodes.len() <= g0.nodes.len(),
{
    let roots = wanted(p.simple, keep);
    if roots.len() > 0 {
        lemma_pruned_shrinks(p.merged, p.rest, p.first, needed(p.merged, roots));
    }
    if p.roots.len() > 0 {
        lemma_pruned_shrinks(p.folded, p.last, p.second, needed(p.folded, p.roots));
    }
}

} // verus!
