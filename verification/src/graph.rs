//! The compute graph: operations on nodes, operands on edges.

use crate::dag::{
    avoiding, dag_add_edge, dag_add_node, dag_edge_count, dag_edges, dag_edges_directed, dag_new,
    dag_node_count, dag_node_weight, dag_nodes, dag_remove_edge, dag_remove_node,
    dag_set_node_weight, renaming, swap_removed, Dag, Edge,
};
use crate::error::{execution_error, Error, ErrorView};
use crate::items::{lemma_count_one, lemma_count_two, lemma_distinct_below};
use crate::op::{Op, OpOf, OpView};
use crate::shape::{fits, Shape};
use crate::tensor::{Dtype, Tensor};
use vstd::prelude::*;
use vstd::seq_lib::*;

verus! {

/// What a node computes and the shape of its result.
#[derive(Debug)]
pub struct Node {
    pub op: Op,
    pub shape: Shape,
    pub dtype: Dtype,
}

/// The contents of a node, with the identifier of its tensor.
#[verifier::ext_equal]
pub struct NodeView {
    pub op: OpView,
    pub shape: Seq<usize>,
    pub dtype: Dtype,
    pub id: u64,
}

/// The contents of a graph. An edge runs from an operand to its consumer and
/// carries the operand's position; edges are listed in index order.
#[verifier::ext_equal]
pub struct GraphView {
    pub nodes: Seq<NodeView>,
    pub edges: Seq<Edge>,
}

/// A compute graph.
pub struct TensorGraph {
    dag: Dag,
    nodes: Vec<Node>,
    next_id: u64,
    compile_on_run: bool,
}

/// `s` lists the operands of node `n`: each position from 0 on is taken by one
/// edge, and no edge to `n` stands outside.
pub open spec fn is_operands(edges: Seq<Edge>, n: usize, s: Seq<usize>) -> bool {
    forall|a: usize, p: usize|
        #[trigger] edges.to_multiset().count((a, n, p)) == (if p < s.len() && s[p as int] == a {
            1nat
        } else {
            0
        })
}

/// The operands of node `n` in order, where they are consistent.
pub open spec fn operands(edges: Seq<Edge>, n: usize) -> Option<Seq<usize>> {
    if exists|s: Seq<usize>| is_operands(edges, n, s) {
        Some(choose|s: Seq<usize>| is_operands(edges, n, s))
    } else {
        None
    }
}

impl Node {
    /// The node's constant, if it has one, and its shape are well formed.
    pub open spec fn wf(&self) -> bool {
        self.op.wf() && fits(self.shape@)
    }

    pub open spec fn view_with(&self, id: u64) -> NodeView {
        NodeView { op: self.op@, shape: self.shape@, dtype: self.dtype, id }
    }
}

impl NodeView {
    pub open spec fn wf(self) -> bool {
        &&& fits(self.shape)
        &&& match self.op {
            OpOf::Input(t) => t.wf(),
            _ => true,
        }
    }
}

impl GraphView {
    /// Edges run between nodes of the graph, and every node is well formed.
    pub open spec fn wf(self) -> bool {
        &&& self.nodes.len() <= u32::MAX
        &&& self.edges.len() <= u32::MAX
        &&& forall|i: int|
            0 <= i < self.edges.len() ==> {
                &&& (#[trigger] self.edges[i]).0 < self.nodes.len()
                &&& self.edges[i].1 < self.nodes.len()
            }
        &&& forall|i: int| 0 <= i < self.nodes.len() ==> (#[trigger] self.nodes[i]).wf()
    }

    /// `s` lists the operands of node `n`.
    pub open spec fn is_inputs(self, n: usize, s: Seq<usize>) -> bool {
        is_operands(self.edges, n, s)
    }

    /// The operands of node `n` in order, where they are consistent.
    pub open spec fn inputs(self, n: usize) -> Option<Seq<usize>> {
        operands(self.edges, n)
    }

    /// The two operands of node `n`.
    pub open spec fn binary_inputs(self, n: usize) -> Option<(usize, usize)> {
        match self.inputs(n) {
            Some(s) => if s.len() == 2 {
                Some((s[0], s[1]))
            } else {
                None
            },
            None => None,
        }
    }

    /// The one operand of node `n`.
    pub open spec fn unary_input(self, n: usize) -> Option<usize> {
        match self.inputs(n) {
            Some(s) => if s.len() == 1 {
                Some(s[0])
            } else {
                None
            },
            None => None,
        }
    }

    /// The graph with another operation at node `n`.
    pub open spec fn with_op(self, n: int, op: OpView) -> GraphView {
        GraphView {
            nodes: self.nodes.update(n, NodeView { op, ..self.nodes[n] }),
            edges: self.edges,
        }
    }

    /// No edge leaves node `n`.
    pub open spec fn is_output(self, n: int) -> bool {
        forall|i: int| 0 <= i < self.edges.len() ==> (#[trigger] self.edges[i]).0 != n
    }

    /// There is an edge from `a` to `b`.
    pub open spec fn feeds(self, a: int, b: int) -> bool {
        exists|i: int|
            0 <= i < self.edges.len() && (#[trigger] self.edges[i]).0 == a && self.edges[i].1 == b
    }
}

/// A node has one list of operands only.
pub proof fn lemma_inputs_unique(g: GraphView, n: usize, s: Seq<usize>, t: Seq<usize>)
    requires
        g.is_inputs(n, s),
        g.is_inputs(n, t),
        s.len() <= usize::MAX,
        t.len() <= usize::MAX,
    ensures
        s == t,
{
    assert forall|p: int| 0 <= p < s.len() implies p < t.len() && s[p] == t[p] by {
        assert(g.edges.to_multiset().count((s[p], n, p as usize)) == 1);
    }
    if s.len() < t.len() {
        let p = s.len() as int;
        assert(g.edges.to_multiset().count((t[p], n, p as usize)) == 1);
    } else if t.len() < s.len() {
        let p = t.len() as int;
        assert(g.edges.to_multiset().count((s[p], n, p as usize)) == 1);
    }
    assert(s =~= t);
}

/// The operand list of a node, once found, is the node's operand list.
pub proof fn lemma_inputs_found(g: GraphView, n: usize, s: Seq<usize>)
    requires
        g.wf(),
        g.is_inputs(n, s),
    ensures
        g.inputs(n) == Some(s),
{
    assert(is_operands(g.edges, n, s));
    let t = choose|t: Seq<usize>| is_operands(g.edges, n, t);
    lemma_inputs_len(g, n, s);
    lemma_inputs_len(g, n, t);
    lemma_inputs_unique(g, n, s, t);
}

/// Operands are nodes of the graph.
pub proof fn lemma_inputs_in_range(g: GraphView, n: usize)
    requires
        g.wf(),
        g.inputs(n) is Some,
    ensures
        g.is_inputs(n, g.inputs(n).unwrap()),
        forall|p: int|
            0 <= p < g.inputs(n).unwrap().len() ==> #[trigger] g.inputs(n).unwrap()[p]
                < g.nodes.len(),
{
    let s = choose|s: Seq<usize>| is_operands(g.edges, n, s);
    assert(is_operands(g.edges, n, s));
    lemma_inputs_len(g, n, s);
}

/// Operands are nodes of the graph, and no more than there are edges.
pub proof fn lemma_inputs_len(g: GraphView, n: usize, s: Seq<usize>)
    requires
        g.wf(),
        g.is_inputs(n, s),
    ensures
        s.len() <= g.edges.len(),
        forall|p: int| 0 <= p < s.len() ==> #[trigger] s[p] < g.nodes.len(),
{
    if s.len() > usize::MAX {
        // Positions beyond a machine number have no edge; below, each has one.
        let k = g.edges.len() + 1;
        lemma_prefix_of_inputs(g, n, s, k);
    } else {
        lemma_prefix_of_inputs(g, n, s, s.len());
    }
    assert forall|p: int| 0 <= p < s.len() implies #[trigger] s[p] < g.nodes.len() by {
        assert(g.edges.to_multiset().count((s[p], n, p as usize)) == 1);
        to_multiset_contains(g.edges, (s[p], n, p as usize));
        let i = choose|i: int| 0 <= i < g.edges.len() && g.edges[i] == (s[p], n, p as usize);
        assert(g.edges[i].0 < g.nodes.len());
    }
}

proof fn lemma_prefix_of_inputs(g: GraphView, n: usize, s: Seq<usize>, k: nat)
    requires
        g.wf(),
        g.is_inputs(n, s),
        k <= s.len(),
        k <= usize::MAX + 1,
    ensures
        k <= g.edges.len(),
{
    let at = Seq::new(
        k,
        |p: int| choose|i: int| 0 <= i < g.edges.len() && g.edges[i] == (s[p], n, p as usize),
    );
    assert forall|p: int| 0 <= p < k implies 0 <= #[trigger] at[p] < g.edges.len() && g.edges[at[p]]
        == (s[p], n, p as usize) by {
        assert(g.edges.to_multiset().count((s[p], n, p as usize)) == 1);
        to_multiset_contains(g.edges, (s[p], n, p as usize));
    }
    assert(at.no_duplicates()) by {
        assert forall|p: int, q: int| 0 <= p < k && 0 <= q < k && p != q implies at[p] != at[q] by {
            assert(g.edges[at[p]].2 == p as usize);
            assert(g.edges[at[q]].2 == q as usize);
        }
    }
    lemma_distinct_below(at, g.edges.len() as int);
}

impl View for TensorGraph {
    type V = GraphView;

    closed spec fn view(&self) -> GraphView {
        GraphView {
            nodes: Seq::new(
                self.nodes@.len(),
                |i: int| self.nodes@[i].view_with(dag_nodes(self.dag)[i]),
            ),
            edges: dag_edges(self.dag),
        }
    }
}

impl TensorGraph {
    /// The invariant of a graph.
    pub closed spec fn wf(&self) -> bool {
        &&& self.nodes@.len() == dag_nodes(self.dag).len()
        &&& self@.wf()
    }

    /// Whether the graph is to be compiled before it is run.
    pub closed spec fn compiles_on_run(&self) -> bool {
        self.compile_on_run
    }

    /// The identifier that the next new tensor gets.
    pub closed spec fn next_tensor_id(&self) -> u64 {
        self.next_id
    }

    /// What is well formed as a value is well formed in content.
    pub proof fn lemma_wf(&self)
        requires
            self.wf(),
        ensures
            self@.wf(),
    {
    }

    /// A graph without nodes.
    pub fn new() -> (g: TensorGraph)
        ensures
            g.wf(),
            g@.nodes.len() == 0,
            g@.edges.len() == 0,
            g.next_tensor_id() == 0,
            !g.compiles_on_run(),
    {
        TensorGraph { dag: dag_new(), nodes: Vec::new(), next_id: 0, compile_on_run: false }
    }

    /// Sets whether the graph is to be compiled before it is run.
    pub fn set_compile_on_run(&mut self, on: bool)
        requires
            old(self).wf(),
        ensures
            final(self).wf(),
            final(self)@ == old(self)@,
            final(self).next_tensor_id() == old(self).next_tensor_id(),
            final(self).compiles_on_run() == on,
    {
        self.compile_on_run = on;
        proof {
            assert(self@ =~= old(self)@);
        }
    }

    /// Whether the graph is to be compiled before it is run.
    pub fn compile_on_run(&self) -> (on: bool)
        ensures
            on == self.compiles_on_run(),
    {
        self.compile_on_run
    }

    /// The number of nodes.
    pub fn node_count(&self) -> (n: usize)
        requires
            self.wf(),
        ensures
            n == self@.nodes.len(),
    {
        dag_node_count(&self.dag)
    }

    /// The number of edges.
    pub fn edge_count(&self) -> (n: usize)
        ensures
            n == self@.edges.len(),
    {
        dag_edge_count(&self.dag)
    }

    /// The node at an index.
    pub fn node(&self, n: usize) -> (node: &Node)
        requires
            self.wf(),
            n < self@.nodes.len(),
        ensures
            node.wf(),
            node.view_with(self@.nodes[n as int].id) == self@.nodes[n as int],
    {
        proof {
            assert(self@.nodes[n as int].wf());
        }
        &self.nodes[n]
    }

    /// The tensor identifier of a node.
    pub fn tensor_id(&self, n: usize) -> (id: u64)
        requires
            self.wf(),
            n < self@.nodes.len(),
        ensures
            id == self@.nodes[n as int].id,
    {
        dag_node_weight(&self.dag, n)
    }

    /// Adds a node with a fresh tensor identifier and no operands.
    pub fn add_node(&mut self, op: Op, shape: Shape) -> (n: usize)
        requires
            old(self).wf(),
            op.wf(),
            fits(shape@),
            old(self)@.nodes.len() < u32::MAX,
        ensures
            final(self).wf(),
            n == old(self)@.nodes.len(),
            final(self)@.nodes == old(self)@.nodes.push(
                NodeView {
                    op: op@,
                    shape: shape@,
                    dtype: Dtype::F32,
                    id: old(self).next_tensor_id(),
                },
            ),
            final(self)@.edges == old(self)@.edges,
            final(self).next_tensor_id() == old(self).next_tensor_id().wrapping_add(1),
            final(self).compiles_on_run() == old(self).compiles_on_run(),
    {
        let id: u64 = self.next_id;
        self.next_id = id.wrapping_add(1);
        let n: usize = dag_add_node(&mut self.dag, id);
        self.nodes.push(Node { op, shape, dtype: Dtype::F32 });
        proof {
            assert(self@.nodes =~= old(self)@.nodes.push(
                NodeView { op: op@, shape: shape@, dtype: Dtype::F32, id },
            ));
            assert forall|i: int| 0 <= i < self@.edges.len() implies (#[trigger] self@.edges[i]).0
                < self@.nodes.len() && self@.edges[i].1 < self@.nodes.len() by {
                assert(self@.edges[i] == old(self)@.edges[i]);
            }
            assert forall|i: int| 0 <= i < self@.nodes.len() implies (
            #[trigger] self@.nodes[i]).wf() by {
                if i < n {
                    assert(self@.nodes[i] == old(self)@.nodes[i]);
                }
            }
        }
        n
    }

    /// Adds an edge: node `source` becomes operand `position` of node `target`.
    pub fn add_edge(&mut self, source: usize, target: usize, position: usize)
        requires
            old(self).wf(),
            source < old(self)@.nodes.len(),
            target < old(self)@.nodes.len(),
            old(self)@.edges.len() < u32::MAX,
        ensures
            final(self).wf(),
            final(self)@.nodes == old(self)@.nodes,
            final(self)@.edges == old(self)@.edges.push((source, target, position)),
            final(self).next_tensor_id() == old(self).next_tensor_id(),
            final(self).compiles_on_run() == old(self).compiles_on_run(),
    {
        dag_add_edge(&mut self.dag, source, target, position);
        proof {
            assert(self@.nodes =~= old(self)@.nodes);
            assert forall|i: int| 0 <= i < self@.edges.len() implies (#[trigger] self@.edges[i]).0
                < self@.nodes.len() && self@.edges[i].1 < self@.nodes.len() by {
                if i < old(self)@.edges.len() {
                    assert(self@.edges[i] == old(self)@.edges[i]);
                }
            }
            assert forall|i: int| 0 <= i < self@.nodes.len() implies (
            #[trigger] self@.nodes[i]).wf() by {
                assert(self@.nodes[i] == old(self)@.nodes[i]);
            }
        }
    }

    /// Adds a constant.
    pub fn tensor(&mut self, data: Vec<u32>, shape: Shape) -> (n: usize)
        requires
            old(self).wf(),
            fits(shape@),
            data@.len() == crate::shape::numel(shape@),
            old(self)@.nodes.len() < u32::MAX,
        ensures
            final(self).wf(),
            n == old(self)@.nodes.len(),
            final(self)@.nodes == old(self)@.nodes.push(
                NodeView {
                    op: OpOf::Input(crate::tensor::single(data@, shape@)),
                    shape: shape@,
                    dtype: Dtype::F32,
                    id: old(self).next_tensor_id(),
                },
            ),
            final(self)@.edges == old(self)@.edges,
            final(self).next_tensor_id() == old(self).next_tensor_id().wrapping_add(1),
            final(self).compiles_on_run() == old(self).compiles_on_run(),
    {
        let node_shape: Shape = shape.copy();
        let t: Tensor = Tensor::new(data, shape);
        self.add_node(OpOf::Input(t), node_shape)
    }

    /// Adds an operation on existing nodes; the shape of its result is given.
    pub fn apply(&mut self, op: Op, inputs: &Vec<usize>, shape: Shape) -> (n: usize)
        requires
            old(self).wf(),
            op.wf(),
            fits(shape@),
            old(self)@.nodes.len() < u32::MAX,
            old(self)@.edges.len() + inputs@.len() <= u32::MAX,
            forall|i: int| 0 <= i < inputs@.len() ==> #[trigger] inputs@[i] < old(self)@.nodes.len(),
        ensures
            final(self).wf(),
            n == old(self)@.nodes.len(),
            final(self)@.nodes == old(self)@.nodes.push(
                NodeView {
                    op: op@,
                    shape: shape@,
                    dtype: Dtype::F32,
                    id: old(self).next_tensor_id(),
                },
            ),
            final(self)@.edges == old(self)@.edges + Seq::new(
                inputs@.len(),
                |p: int| (inputs@[p], n, p as usize),
            ),
            final(self).next_tensor_id() == old(self).next_tensor_id().wrapping_add(1),
            final(self).compiles_on_run() == old(self).compiles_on_run(),
    {
        let n: usize = self.add_node(op, shape);
        let ghost nodes = self@.nodes;
        let ghost edges = self@.edges;
        for p in 0..inputs.len()
            invariant
                self.wf(),
                self@.nodes == nodes,
                n < nodes.len(),
                self.next_tensor_id() == old(self).next_tensor_id().wrapping_add(1),
                self.compiles_on_run() == old(self).compiles_on_run(),
                self@.edges == edges + Seq::new(p as nat, |q: int| (inputs@[q], n, q as usize)),
                edges.len() + inputs@.len() <= u32::MAX,
                forall|i: int| 0 <= i < inputs@.len() ==> #[trigger] inputs@[i] < nodes.len(),
        {
            self.add_edge(inputs[p], n, p);
            proof {
                assert(self@.edges =~= edges + Seq::new(
                    (p + 1) as nat,
                    |q: int| (inputs@[q], n, q as usize),
                ));
            }
        }
        n
    }

    /// Replaces the operation of a node; its shape, element type, identifier
    /// and edges stay.
    pub fn set_op(&mut self, n: usize, op: Op)
        requires
            old(self).wf(),
            n < old(self)@.nodes.len(),
            op.wf(),
        ensures
            final(self).wf(),
            final(self)@ == old(self)@.with_op(n as int, op@),
            final(self).next_tensor_id() == old(self).next_tensor_id(),
            final(self).compiles_on_run() == old(self).compiles_on_run(),
    {
        proof {
            assert(old(self)@.nodes[n as int].wf());
        }
        let shape: Shape = self.nodes[n].shape.copy();
        let dtype: Dtype = self.nodes[n].dtype;
        self.nodes.set(n, Node { op, shape, dtype });
        proof {
            assert(self@ =~= old(self)@.with_op(n as int, op@));
            assert forall|i: int| 0 <= i < self@.nodes.len() implies (
            #[trigger] self@.nodes[i]).wf() by {
                assert(i != n ==> self@.nodes[i] == old(self)@.nodes[i]);
            }
            assert forall|i: int| 0 <= i < self@.edges.len() implies (#[trigger] self@.edges[i]).0
                < self@.nodes.len() && self@.edges[i].1 < self@.nodes.len() by {
                assert(self@.edges[i] == old(self)@.edges[i]);
            }
        }
    }

    /// Turns a node into a constant with a fresh identifier; its edges stay.
    pub fn replace_with_constant(&mut self, n: usize, t: Tensor)
        requires
            old(self).wf(),
            n < old(self)@.nodes.len(),
            t.wf(),
        ensures
            final(self).wf(),
            final(self)@.edges == old(self)@.edges,
            final(self)@.nodes == old(self)@.nodes.update(
                n as int,
                NodeView {
                    op: OpOf::Input(t@),
                    shape: t@.shape,
                    dtype: Dtype::F32,
                    id: old(self).next_tensor_id(),
                },
            ),
            final(self).next_tensor_id() == old(self).next_tensor_id().wrapping_add(1),
            final(self).compiles_on_run() == old(self).compiles_on_run(),
    {
        let id: u64 = self.next_id;
        self.next_id = id.wrapping_add(1);
        let shape: Shape = t.shape.copy();
        dag_set_node_weight(&mut self.dag, n, id);
        self.nodes.set(n, Node { op: OpOf::Input(t), shape, dtype: Dtype::F32 });
        proof {
            assert(self@.nodes =~= old(self)@.nodes.update(
                n as int,
                NodeView { op: OpOf::Input(t@), shape: t@.shape, dtype: Dtype::F32, id },
            ));
            assert forall|i: int| 0 <= i < self@.nodes.len() implies (
            #[trigger] self@.nodes[i]).wf() by {
                assert(i != n ==> self@.nodes[i] == old(self)@.nodes[i]);
            }
            assert forall|i: int| 0 <= i < self@.edges.len() implies (#[trigger] self@.edges[i]).0
                < self@.nodes.len() && self@.edges[i].1 < self@.nodes.len() by {
                assert(self@.edges[i] == old(self)@.edges[i]);
            }
        }
    }

    /// The edges that leave (`outgoing`) or reach a node, each once, with
    /// their indices.
    pub fn edges_directed(&self, n: usize, outgoing: bool) -> (out: Vec<(usize, Edge)>)
        requires
            self.wf(),
            n < self@.nodes.len(),
        ensures
            forall|i: int|
                0 <= i < out@.len() ==> {
                    let (id, e) = #[trigger] out@[i];
                    &&& id < self@.edges.len()
                    &&& e == self@.edges[id as int]
                    &&& n == (if outgoing {
                        e.0
                    } else {
                        e.1
                    })
                },
            forall|i: int, j: int|
                0 <= i < j < out@.len() ==> (#[trigger] out@[i]).0 != (#[trigger] out@[j]).0,
            forall|id: int|
                #![trigger self@.edges[id]]
                0 <= id < self@.edges.len() && n == (if outgoing {
                    self@.edges[id].0
                } else {
                    self@.edges[id].1
                }) ==> exists|i: int| 0 <= i < out@.len() && (#[trigger] out@[i]).0 == id,
    {
        dag_edges_directed(&self.dag, n, outgoing)
    }

    /// Removes an edge by its index; the last edge takes its index.
    pub fn remove_edge(&mut self, e: usize)
        requires
            old(self).wf(),
            e < old(self)@.edges.len(),
        ensures
            final(self).wf(),
            final(self)@.nodes == old(self)@.nodes,
            final(self)@.edges == swap_removed(old(self)@.edges, e as int),
            final(self).next_tensor_id() == old(self).next_tensor_id(),
            final(self).compiles_on_run() == old(self).compiles_on_run(),
    {
        dag_remove_edge(&mut self.dag, e);
        proof {
            assert(self@.nodes =~= old(self)@.nodes);
            assert forall|i: int| 0 <= i < self@.edges.len() implies (#[trigger] self@.edges[i]).0
                < self@.nodes.len() && self@.edges[i].1 < self@.nodes.len() by {
                let last = old(self)@.edges.len() - 1;
                assert(old(self)@.edges[i].0 < self@.nodes.len());
                assert(old(self)@.edges[last].0 < self@.nodes.len());
            }
            assert forall|i: int| 0 <= i < self@.nodes.len() implies (
            #[trigger] self@.nodes[i]).wf() by {
                assert(self@.nodes[i] == old(self)@.nodes[i]);
            }
        }
    }

    /// Removes a node with its edges; the last node takes its index.
    pub fn remove_node(&mut self, n: usize)
        requires
            old(self).wf(),
            n < old(self)@.nodes.len(),
        ensures
            final(self).wf(),
            final(self)@.nodes == swap_removed(old(self)@.nodes, n as int),
            final(self)@.edges.to_multiset() == old(self)@.edges.filter(
                avoiding(n),
            ).map_values(
                renaming((old(self)@.nodes.len() - 1) as usize, n),
            ).to_multiset(),
            final(self).next_tensor_id() == old(self).next_tensor_id(),
            final(self).compiles_on_run() == old(self).compiles_on_run(),
    {
        let ghost before = self@;
        dag_remove_node(&mut self.dag, n);
        let _removed = self.nodes.swap_remove(n);
        proof {
            let last = (before.nodes.len() - 1) as usize;
            assert(self@.nodes =~= swap_removed(before.nodes, n as int));
            let keep = avoiding(n);
            let rename = renaming(last, n);
            let kept = before.edges.filter(keep);
            let moved = kept.map_values(rename);
            assert(dag_nodes(old(self).dag).len() == before.nodes.len());
            assert(self@.edges.to_multiset() == moved.to_multiset());
            to_multiset_len(self@.edges);
            to_multiset_len(moved);
            before.edges.lemma_filter_len(keep);
            assert forall|i: int| 0 <= i < self@.edges.len() implies (#[trigger] self@.edges[i]).0
                < self@.nodes.len() && self@.edges[i].1 < self@.nodes.len() by {
                let e = self@.edges[i];
                to_multiset_contains(self@.edges, e);
                assert(self@.edges.contains(e));
                to_multiset_contains(moved, e);
                let j = choose|j: int| 0 <= j < moved.len() && moved[j] == e;
                let f = kept[j];
                assert(rename(f) == e);
                assert(kept.contains(f));
                before.edges.lemma_filter_pred(keep, j);
                before.edges.lemma_filter_contains_rev(keep, f);
                let k = choose|k: int| 0 <= k < before.edges.len() && before.edges[k] == f;
                assert(before.edges[k].0 < before.nodes.len());
            }
            assert forall|i: int| 0 <= i < self@.nodes.len() implies (
            #[trigger] self@.nodes[i]).wf() by {
                assert(before.nodes[i].wf());
                assert(before.nodes[before.nodes.len() - 1].wf());
            }
        }
    }
}

/// The operands of a node, in order of their positions.
pub fn get_indexed_inputs(g: &TensorGraph, n: usize) -> (r: Result<Vec<usize>, Error>)
    requires
        g.wf(),
        n < g@.nodes.len(),
    ensures
        match r {
            Ok(v) => g@.inputs(n) == Some(v@) && g@.is_inputs(n, v@) && (forall|p: int|
                0 <= p < v@.len() ==> #[trigger] v@[p] < g@.nodes.len()),
            Err(e) => g@.inputs(n) is None && e@ == ErrorView::ExecutionError(
                "Node operands are not numbered consecutively"@,
            ),
        },
{
    let found = g.edges_directed(n, false);
    let k: usize = found.len();
    // at[p] is the place in `found` of the edge for operand p.
    let mut at: Vec<usize> = Vec::new();
    let mut sources: Vec<usize> = Vec::new();
    let mut missing: bool = false;
    while at.len() < k && !missing
        invariant
            k == found@.len(),
            at@.len() == sources@.len(),
            at@.len() <= k,
            forall|p: int|
                0 <= p < at@.len() ==> {
                    &&& #[trigger] at@[p] < k
                    &&& found@[at@[p] as int].1.2 == p
                    &&& found@[at@[p] as int].1.0 == sources@[p]
                },
            missing ==> forall|i: int|
                0 <= i < k ==> (#[trigger] found@[i]).1.2 != at@.len(),
        decreases k - at@.len(), !missing as int,
    {
        let p: usize = at.len();
        let mut hit: usize = k;
        for i in 0..k
            invariant
                k == found@.len(),
                hit <= k,
                hit < k ==> found@[hit as int].1.2 == p,
                hit == k ==> forall|j: int| 0 <= j < i ==> (#[trigger] found@[j]).1.2 != p,
        {
            if hit == k && found[i].1.2 == p {
                hit = i;
            }
        }
        if hit < k {
            at.push(hit);
            sources.push(found[hit].1.0);
        } else {
            missing = true;
        }
    }
    let m: usize = at.len();
    for i in 0..k
        invariant
            k == found@.len(),
            m == at@.len() == sources@.len(),
            m <= k,
            locates(found@, at@),
            forall|p: int|
                0 <= p < at@.len() ==> found@[(#[trigger] at@[p]) as int].1.0 == sources@[p],
            forall|j: int|
                0 <= j < i ==> (#[trigger] found@[j]).1.2 < m && at@[found@[j].1.2 as int] == j,
            g.wf(),
            n < g@.nodes.len(),
            lists_incoming(g@, n, found@),
            m < k ==> forall|j: int| 0 <= j < k ==> (#[trigger] found@[j]).1.2 != m,
    {
        let p: usize = found[i].1.2;
        if p >= m || at[p] != i {
            proof {
                assert forall|s: Seq<usize>| !is_operands(g@.edges, n, s) by {
                    lemma_not_inputs(g@, n, s, found@, at@, i as int);
                }
            }
            return Err(execution_error("Node operands are not numbered consecutively"));
        }
    }
    proof {
        assert(g@.is_inputs(n, sources@)) by {
            assert forall|a: usize, p: usize| #[trigger]
                g@.edges.to_multiset().count((a, n, p)) == (if p < sources@.len() && sources@[p as int]
                    == a {
                    1nat
                } else {
                    0
                }) by {
                lemma_inputs_count(g@, n, found@, at@, sources@, a, p);
            }
        }
        lemma_inputs_found(g@, n, sources@);
        lemma_inputs_len(g@, n, sources@);
    }
    Ok(sources)
}

/// `found` lists the edges that reach node `n`, each once, with their indices.
spec fn lists_incoming(g: GraphView, n: usize, found: Seq<(usize, Edge)>) -> bool {
    &&& forall|j: int|
        0 <= j < found.len() ==> {
            let (id, e) = #[trigger] found[j];
            &&& id < g.edges.len()
            &&& e == g.edges[id as int]
            &&& n == e.1
        }
    &&& forall|a: int, b: int|
        0 <= a < b < found.len() ==> (#[trigger] found[a]).0 != (#[trigger] found[b]).0
    &&& forall|id: int|
        #![trigger g.edges[id]]
        0 <= id < g.edges.len() && n == g.edges[id].1 ==> exists|i: int|
            0 <= i < found.len() && (#[trigger] found[i]).0 == id
}

/// `at[p]` is the place in `found` of an edge for operand `p`.
spec fn locates(found: Seq<(usize, Edge)>, at: Seq<usize>) -> bool {
    forall|p: int|
        0 <= p < at.len() ==> #[trigger] at[p] < found.len() && found[at[p] as int].1.2 == p
}

/// An incoming edge at a position beyond the last, or at one already taken,
/// leaves the node without an operand list.
proof fn lemma_not_inputs(
    g: GraphView,
    n: usize,
    s: Seq<usize>,
    found: Seq<(usize, Edge)>,
    at: Seq<usize>,
    i: int,
)
    requires
        g.wf(),
        lists_incoming(g, n, found),
        locates(found, at),
        0 <= i < found.len(),
        at.len() <= found.len(),
        at.len() < found.len() ==> forall|j: int|
            0 <= j < found.len() ==> (#[trigger] found[j]).1.2 != at.len(),
        found[i].1.2 >= at.len() || at[found[i].1.2 as int] != i,
    ensures
        !g.is_inputs(n, s),
{
    if g.is_inputs(n, s) {
        let m = at.len();
        let e = found[i].1;
        let id = found[i].0 as int;
        assert(g.edges[id] == e);
        to_multiset_contains(g.edges, e);
        assert(g.edges.contains(e));
        assert(g.edges.to_multiset().count((e.0, n, e.2)) > 0);
        assert(e.2 < s.len() && s[e.2 as int] == e.0);
        lemma_inputs_len(g, n, s);
        if e.2 < m {
            let j = at[e.2 as int] as int;
            let d = found[j].1;
            let jd = found[j].0 as int;
            assert(g.edges[jd] == d);
            to_multiset_contains(g.edges, d);
            assert(g.edges.contains(d));
            assert(g.edges.to_multiset().count((d.0, n, d.2)) > 0);
            assert(d == e);
            if j < i {
                assert(found[j].0 != found[i].0);
            } else {
                assert(found[i].0 != found[j].0);
            }
            lemma_count_two(g.edges, id, jd);
            assert(g.edges.to_multiset().count((e.0, n, e.2)) == 1);
        } else if m < found.len() {
            let f = (s[m as int], n, m as usize);
            assert(g.edges.to_multiset().count((s[m as int], n, m as usize)) == 1);
            to_multiset_contains(g.edges, f);
            let q = choose|q: int| 0 <= q < g.edges.len() && g.edges[q] == f;
            assert(g.edges[q].1 == n);
            let j = choose|j: int| 0 <= j < found.len() && (#[trigger] found[j]).0 == q;
            assert(found[j].1.2 == m);
        } else {
            let all = Seq::new(
                m + 1,
                |p: int| if p < m {
                    at[p] as int
                } else {
                    i
                },
            );
            assert forall|p: int| 0 <= p < all.len() implies 0 <= #[trigger] all[p]
                < found.len() by {
                if p < m {
                    assert(at[p] < found.len());
                }
            }
            assert(all.no_duplicates()) by {
                assert forall|p: int, q: int|
                    0 <= p < all.len() && 0 <= q < all.len() && p != q implies all[p]
                    != all[q] by {
                    if p < m {
                        assert(found[at[p] as int].1.2 == p);
                    }
                    if q < m {
                        assert(found[at[q] as int].1.2 == q);
                    }
                }
            }
            lemma_distinct_below(all, found.len() as int);
        }
    }
}

/// Where every incoming edge is the one located for its position, the edges
/// are counted by the list of their sources.
proof fn lemma_inputs_count(
    g: GraphView,
    n: usize,
    found: Seq<(usize, Edge)>,
    at: Seq<usize>,
    sources: Seq<usize>,
    a: usize,
    p: usize,
)
    requires
        lists_incoming(g, n, found),
        locates(found, at),
        at.len() == sources.len(),
        forall|q: int|
            0 <= q < at.len() ==> found[(#[trigger] at[q]) as int].1.0 == sources[q],
        forall|j: int|
            0 <= j < found.len() ==> (#[trigger] found[j]).1.2 < at.len()
                && at[found[j].1.2 as int] == j,
    ensures
        g.edges.to_multiset().count((a, n, p)) == (if p < sources.len() && sources[p as int] == a {
            1nat
        } else {
            0
        }),
{
    let e = (a, n, p);
    if p < sources.len() && sources[p as int] == a {
        let j = at[p as int] as int;
        let id = found[j].0 as int;
        assert(g.edges[id] == e);
        assert forall|q: int| 0 <= q < g.edges.len() && q != id implies g.edges[q]
            != g.edges[id] by {
            if g.edges[q] == e {
                let k = choose|k: int| 0 <= k < found.len() && (#[trigger] found[k]).0 == q;
                assert(found[k].1.2 == p);
                assert(k == j);
            }
        }
        lemma_count_one(g.edges, id);
    } else {
        to_multiset_contains(g.edges, e);
        if g.edges.contains(e) {
            let q = choose|q: int| 0 <= q < g.edges.len() && g.edges[q] == e;
            assert(g.edges[q].1 == n);
            let k = choose|k: int| 0 <= k < found.len() && (#[trigger] found[k]).0 == q;
            assert(found[k].1.2 == p);
            assert(found[at[p as int] as int].1.0 == sources[p as int]);
            assert(false);
        }
    }
}

/// The two operands of a node.
pub fn get_binary_inputs(g: &TensorGraph, n: usize) -> (r: Result<(usize, usize), Error>)
    requires
        g.wf(),
        n < g@.nodes.len(),
    ensures
        match r {
            Ok(pair) => g@.binary_inputs(n) == Some(pair) && pair.0 < g@.nodes.len() && pair.1
                < g@.nodes.len(),
            Err(_) => g@.binary_inputs(n) is None,
        },
{
    match get_indexed_inputs(g, n) {
        Ok(v) => if v.len() == 2 {
            Ok((v[0], v[1]))
        } else {
            Err(execution_error("Node does not have exactly 2 inputs"))
        },
        Err(e) => Err(e),
    }
}

/// The one operand of a node.
pub fn get_unary_input(g: &TensorGraph, n: usize) -> (r: Result<usize, Error>)
    requires
        g.wf(),
        n < g@.nodes.len(),
    ensures
        match r {
            Ok(a) => g@.unary_input(n) == Some(a) && a < g@.nodes.len(),
            Err(_) => g@.unary_input(n) is None,
        },
{
    match get_indexed_inputs(g, n) {
        Ok(v) => if v.len() == 1 {
            Ok(v[0])
        } else {
            Err(execution_error("Node does not have exactly 1 input"))
        },
        Err(e) => Err(e),
    }
}

} // verus!
