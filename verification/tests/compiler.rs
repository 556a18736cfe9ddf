use aether::backend::cpu::CpuBackend;
use aether::compiler::constant_fold::run_constant_fold_pass;
use aether::compiler::cse::run_cse_pass;
use aether::compiler::dce::{is_reachable_from_output, run_dce_pass};
use aether::compiler::layout::run_layout_optimize_pass;
use aether::compiler::simplify::run_simplify_pass;
use aether::compiler::{run, GraphCompiler};
use aether::error::Error;
use aether::eval::{check_order, run_node};
use aether::float::Float;
use aether::graph::{get_binary_inputs, get_indexed_inputs, get_unary_input, TensorGraph};
use aether::op::{Op, OpOf};
use aether::shape::Shape;

/// The host's arithmetic.
struct Host;

fn num(b: u32) -> f32 {
    f32::from_bits(b)
}

impl Float for Host {
    fn plus(&self, a: u32, b: u32) -> u32 {
        (num(a) + num(b)).to_bits()
    }
    fn minus(&self, a: u32, b: u32) -> u32 {
        (num(a) - num(b)).to_bits()
    }
    fn times(&self, a: u32, b: u32) -> u32 {
        (num(a) * num(b)).to_bits()
    }
    fn over(&self, a: u32, b: u32) -> u32 {
        (num(a) / num(b)).to_bits()
    }
    fn exp(&self, a: u32) -> u32 {
        num(a).exp().to_bits()
    }
    fn tanh(&self, a: u32) -> u32 {
        num(a).tanh().to_bits()
    }
    fn sqrt(&self, a: u32) -> u32 {
        num(a).sqrt().to_bits()
    }
    fn square(&self, a: u32) -> u32 {
        num(a).powi(2).to_bits()
    }
    fn from_count(&self, n: usize) -> u32 {
        (n as f32).to_bits()
    }
    fn from_whole(&self, n: i32) -> u32 {
        (n as f32).to_bits()
    }
    fn from_double(&self, bits: u64) -> u32 {
        (f64::from_bits(bits) as f32).to_bits()
    }
    fn dot(&self, m: usize, k: usize, n: usize, a: &Vec<u32>, b: &Vec<u32>) -> Vec<u32> {
        let x: Vec<f32> = a.iter().map(|v| num(*v)).collect();
        let y: Vec<f32> = b.iter().map(|v| num(*v)).collect();
        let l = ndarray::ArrayView2::from_shape((m, k), &x).unwrap();
        let r = ndarray::ArrayView2::from_shape((k, n), &y).unwrap();
        l.dot(&r).iter().map(|v| v.to_bits()).collect()
    }
    fn to_half(&self, a: u32) -> u16 {
        half::f16::from_f32(num(a)).to_bits()
    }
    fn from_half(&self, h: u16) -> u32 {
        half::f16::from_bits(h).to_f32().to_bits()
    }
    fn round_brain(&self, a: u32) -> u32 {
        half::bf16::from_f32(num(a)).to_f32().to_bits()
    }
    fn mul_add(&self, a: u32, b: u32, c: u32) -> u32 {
        num(a).mul_add(num(b), num(c)).to_bits()
    }
    fn pow(&self, a: u32, b: u32) -> u32 {
        num(a).powf(num(b)).to_bits()
    }
    fn sin(&self, a: u32) -> u32 {
        num(a).sin().to_bits()
    }
    fn cos(&self, a: u32) -> u32 {
        num(a).cos().to_bits()
    }
    fn stored_product(&self, matrix: usize, x: &Vec<u32>) -> Vec<u32> {
        x.iter().map(|v| (num(*v) * matrix as f32).to_bits()).collect()
    }
}

fn words(v: &[f32]) -> Vec<u32> {
    v.iter().map(|x| x.to_bits()).collect()
}

fn floats(v: &[u32]) -> Vec<f32> {
    v.iter().map(|x| num(*x)).collect()
}

fn backend() -> CpuBackend<Host> {
    CpuBackend::new(Host)
}

fn shape(dims: &[usize]) -> Shape {
    Shape::new(dims.to_vec())
}

fn tensor(g: &mut TensorGraph, v: &[f32], dims: &[usize]) -> usize {
    g.tensor(words(v), shape(dims))
}

fn dims_of(g: &TensorGraph, n: usize) -> Vec<usize> {
    g.node(n).shape.dims.clone()
}

fn unary(g: &mut TensorGraph, op: Op, x: usize) -> usize {
    let d = dims_of(g, x);
    g.apply(op, &vec![x], Shape::new(d))
}

fn binary(g: &mut TensorGraph, op: Op, x: usize, y: usize) -> usize {
    let d = dims_of(g, x);
    g.apply(op, &vec![x, y], Shape::new(d))
}

fn add(g: &mut TensorGraph, x: usize, y: usize) -> usize {
    binary(g, OpOf::Add, x, y)
}

/// A product; a right operand of another shape is broadcast.
fn mul(g: &mut TensorGraph, x: usize, y: usize) -> usize {
    let (a, b) = (dims_of(g, x), dims_of(g, y));
    if a == b {
        binary(g, OpOf::Mul, x, y)
    } else {
        let input_shapes = vec![Shape::new(a), Shape::new(b)];
        binary(g, OpOf::BroadcastMul { input_shapes }, x, y)
    }
}

fn matmul(g: &mut TensorGraph, x: usize, y: usize) -> usize {
    let d = vec![dims_of(g, x)[0], dims_of(g, y)[1]];
    g.apply(OpOf::MatMul, &vec![x, y], Shape::new(d))
}

fn value(g: &TensorGraph, n: usize) -> Vec<f32> {
    floats(run_node(g, n, &backend()).unwrap().data())
}

fn compile(g: TensorGraph) -> TensorGraph {
    match GraphCompiler::compile(g, &backend()) {
        Ok(c) => c.graph,
        Err(e) => panic!("{:?}", e),
    }
}

fn constant(g: &TensorGraph, n: usize) -> Option<Vec<f32>> {
    match &g.node(n).op {
        OpOf::Input(t) => Some(floats(t.data())),
        _ => None,
    }
}

fn make_graph_with_identities() -> TensorGraph {
    let mut graph = TensorGraph::new();
    let x = tensor(&mut graph, &[3.0, 7.0], &[2]);
    let zero = tensor(&mut graph, &[0.0, 0.0], &[2]);
    let sum = add(&mut graph, x, zero);
    let one = tensor(&mut graph, &[1.0], &[1]);
    mul(&mut graph, sum, one);
    graph
}

fn make_graph_with_cse() -> TensorGraph {
    let mut graph = TensorGraph::new();
    let a1 = tensor(&mut graph, &[1.0, 2.0], &[2]);
    let b1 = tensor(&mut graph, &[3.0, 4.0], &[2]);
    let sum1 = add(&mut graph, a1, b1);
    let a2 = tensor(&mut graph, &[1.0, 2.0], &[2]);
    let b2 = tensor(&mut graph, &[3.0, 4.0], &[2]);
    let sum2 = add(&mut graph, a2, b2);
    add(&mut graph, sum1, sum2);
    graph
}

#[test]
fn test_compile_simplify_identities() {
    let mut graph = TensorGraph::new();
    let x = tensor(&mut graph, &[3.0, 7.0], &[2]);
    let zero = tensor(&mut graph, &[0.0, 0.0], &[2]);
    let out = add(&mut graph, x, zero);
    let expected = value(&graph, out);
    let mut graph = compile(graph);
    let x2 = tensor(&mut graph, &[3.0, 7.0], &[2]);
    let zero2 = tensor(&mut graph, &[0.0, 0.0], &[2]);
    let o2 = add(&mut graph, x2, zero2);
    let actual = value(&graph, o2);
    assert_eq!(actual.len(), expected.len());
    for (x, y) in expected.iter().zip(actual.iter()) {
        assert!((x - y).abs() < 1e-5, "compile changed result: {x} vs {y}");
    }
}

#[test]
fn test_compile_node_count_bounded() {
    let graph = make_graph_with_identities();
    let count_before = graph.node_count();
    let graph = compile(graph);
    let count_after = graph.node_count();
    assert!(
        count_after <= count_before,
        "compile should not increase node count (was {count_before}, now {count_after})"
    );
}

#[test]
fn test_compile_cse_bounded() {
    let graph = make_graph_with_cse();
    let count_before = graph.node_count();
    let graph = compile(graph);
    let count_after = graph.node_count();
    assert!(count_after <= count_before, "CSE should not increase node count");
}

#[test]
fn test_compile_numerical_correctness() {
    let mut graph = TensorGraph::new();
    let a = tensor(&mut graph, &[2.0, 3.0, 4.0], &[3]);
    let b = tensor(&mut graph, &[1.0, 0.0, 5.0], &[3]);
    let t = add(&mut graph, a, b);
    let expected = value(&graph, t);
    let mut graph = compile(graph);
    let a2 = tensor(&mut graph, &[2.0, 3.0, 4.0], &[3]);
    let b2 = tensor(&mut graph, &[1.0, 0.0, 5.0], &[3]);
    let t2 = add(&mut graph, a2, b2);
    let actual = value(&graph, t2);
    assert_eq!(expected.len(), actual.len(), "compile should preserve output size");
    for (x, y) in expected.iter().zip(actual.iter()) {
        assert!((x - y).abs() < 1e-5, "compile changed result: {x} vs {y}");
    }
}

#[test]
fn test_compile_on_run_flag() {
    let mut graph = TensorGraph::new();
    graph.set_compile_on_run(true);
    let a = tensor(&mut graph, &[42.0], &[1]);
    let zero = tensor(&mut graph, &[0.0], &[1]);
    let _ = add(&mut graph, a, zero);
    let (graph, result) = run(graph, a, &backend());
    assert_eq!(num(result.unwrap().data()[0]), 42.0);
    assert!(graph.compile_on_run());
}

#[test]
fn test_simplify_skips_computed_operands() {
    let mut graph = TensorGraph::new();
    let a = tensor(&mut graph, &[1.0, 2.0, 3.0], &[1, 3]);
    let b = tensor(&mut graph, &[4.0, 5.0, 6.0], &[3, 1]);
    let mm = matmul(&mut graph, a, b);
    let zero = tensor(&mut graph, &[0.0], &[1, 1]);
    let out = add(&mut graph, mm, zero);
    let expected = value(&graph, out);
    let mut graph = compile(graph);
    let a2 = tensor(&mut graph, &[1.0, 2.0, 3.0], &[1, 3]);
    let b2 = tensor(&mut graph, &[4.0, 5.0, 6.0], &[3, 1]);
    let mm2 = matmul(&mut graph, a2, b2);
    let zero2 = tensor(&mut graph, &[0.0], &[1, 1]);
    let out2 = add(&mut graph, mm2, zero2);
    let actual = value(&graph, out2);
    assert_eq!(expected, actual, "simplify must not corrupt computed operands");
}

#[test]
fn test_compile_full_pipeline_numerical() {
    let mut graph = TensorGraph::new();
    let a = tensor(&mut graph, &[2.0, 3.0, 4.0], &[3]);
    let b = tensor(&mut graph, &[5.0, 6.0, 7.0], &[3]);
    let zero = tensor(&mut graph, &[0.0, 0.0, 0.0], &[3]);
    let one = tensor(&mut graph, &[1.0], &[1]);
    let l = add(&mut graph, a, zero);
    let r = mul(&mut graph, b, one);
    let t = add(&mut graph, l, r);
    let expected = value(&graph, t);
    let mut graph = compile(graph);
    let a2 = tensor(&mut graph, &[2.0, 3.0, 4.0], &[3]);
    let b2 = tensor(&mut graph, &[5.0, 6.0, 7.0], &[3]);
    let zero2 = tensor(&mut graph, &[0.0, 0.0, 0.0], &[3]);
    let one2 = tensor(&mut graph, &[1.0], &[1]);
    let l2 = add(&mut graph, a2, zero2);
    let r2 = mul(&mut graph, b2, one2);
    let t2 = add(&mut graph, l2, r2);
    let actual = value(&graph, t2);
    for (x, y) in expected.iter().zip(actual.iter()) {
        assert!((x - y).abs() < 1e-5, "compile changed result: {x} vs {y}");
    }
}

#[test]
fn compiled_graph_gives_the_same_results() {
    let mut graph = make_graph_with_cse();
    let top = graph.node_count() - 1;
    let scale = tensor(&mut graph, &[2.0], &[1]);
    let out = mul(&mut graph, top, scale);
    let before = value(&graph, out);
    assert!(check_order(&graph));
    let graph = compile(graph);
    assert_eq!(graph.node_count(), 1);
    assert_eq!(value(&graph, 0), before);
    assert_eq!(before, vec![16.0, 24.0]);
}

#[test]
fn simplify_replaces_each_identity() {
    let mut g = TensorGraph::new();
    let x = tensor(&mut g, &[3.0, -7.0], &[2]);
    let zero = tensor(&mut g, &[0.0, -0.0], &[2]);
    let one = tensor(&mut g, &[1.0, 1.0], &[2]);
    let pos = tensor(&mut g, &[4.0, 9.0], &[2]);
    let plus_r = binary(&mut g, OpOf::Add, x, zero);
    let plus_l = binary(&mut g, OpOf::Add, zero, x);
    let times_zero = binary(&mut g, OpOf::Mul, x, zero);
    let times_one = binary(&mut g, OpOf::Mul, x, one);
    let one_times = binary(&mut g, OpOf::Mul, one, x);
    let root = unary(&mut g, OpOf::Sqrt, pos);
    let square = binary(&mut g, OpOf::Mul, root, root);
    let minus_self = binary(&mut g, OpOf::Sub, x, x);
    let over_one = binary(&mut g, OpOf::Div, x, one);
    let n1 = unary(&mut g, OpOf::Neg, x);
    let n2 = unary(&mut g, OpOf::Neg, n1);
    let exp = unary(&mut g, OpOf::Exp, zero);
    let other = binary(&mut g, OpOf::Sub, x, one);
    assert!(run_simplify_pass(&mut g).is_ok());
    assert_eq!(constant(&g, plus_r), Some(vec![3.0, -7.0]));
    assert_eq!(constant(&g, plus_l), Some(vec![3.0, -7.0]));
    assert_eq!(constant(&g, times_zero), Some(vec![0.0, 0.0]));
    assert_eq!(constant(&g, times_one), Some(vec![3.0, -7.0]));
    assert_eq!(constant(&g, one_times), Some(vec![3.0, -7.0]));
    assert_eq!(constant(&g, square), Some(vec![4.0, 9.0]));
    assert_eq!(constant(&g, minus_self), Some(vec![0.0, 0.0]));
    assert_eq!(constant(&g, over_one), Some(vec![3.0, -7.0]));
    assert_eq!(constant(&g, n2), Some(vec![3.0, -7.0]));
    assert_eq!(constant(&g, exp), Some(vec![1.0, 1.0]));
    assert_eq!(constant(&g, other), None);
    assert_eq!(constant(&g, root), None);
}

#[test]
fn simplify_is_its_own_fixpoint() {
    let mut g = make_graph_with_identities();
    run_simplify_pass(&mut g).unwrap();
    let first: Vec<Option<Vec<f32>>> = (0..g.node_count()).map(|n| constant(&g, n)).collect();
    run_simplify_pass(&mut g).unwrap();
    let second: Vec<Option<Vec<f32>>> = (0..g.node_count()).map(|n| constant(&g, n)).collect();
    assert_eq!(first, second);
    assert_eq!(first[2], Some(vec![3.0, 7.0]));
}

#[test]
fn cse_takes_operands_from_the_first_node() {
    let mut g = make_graph_with_cse();
    run_cse_pass(&mut g).unwrap();
    assert_eq!(g.node_count(), 7);
    assert_eq!(get_binary_inputs(&g, 5).unwrap(), (0, 1));
    assert_eq!(get_binary_inputs(&g, 6).unwrap(), (2, 2));
}

#[test]
fn cse_reads_operands_in_order() {
    let mut g = TensorGraph::new();
    let a = tensor(&mut g, &[1.0], &[1]);
    let b = tensor(&mut g, &[3.0], &[1]);
    let s1 = binary(&mut g, OpOf::Sub, a, b);
    let s2 = binary(&mut g, OpOf::Sub, b, a);
    let y = binary(&mut g, OpOf::Sub, s1, s2);
    run_cse_pass(&mut g).unwrap();
    assert_eq!(get_binary_inputs(&g, y).unwrap(), (s1, s2));
    assert_eq!(value(&g, y), vec![-4.0]);
    let g = compile(g);
    assert_eq!(value(&g, g.node_count() - 1), vec![-4.0]);
}

#[test]
fn cse_leaves_inconsistent_operands_alone() {
    let mut g = TensorGraph::new();
    let a = tensor(&mut g, &[1.0], &[1]);
    let x = g.add_node(OpOf::Neg, shape(&[1]));
    let y = g.add_node(OpOf::Neg, shape(&[1]));
    g.add_edge(a, x, 1);
    g.add_edge(a, y, 1);
    let z = binary(&mut g, OpOf::Add, x, y);
    run_cse_pass(&mut g).unwrap();
    assert_eq!(get_binary_inputs(&g, z).unwrap(), (x, y));
}

/// An operation on two inputs that the host cannot compute, so that it is not
/// folded.
fn failing(g: &mut TensorGraph) -> usize {
    let a = tensor(g, &[1.0, 2.0], &[2]);
    let b = tensor(g, &[1.0, 2.0, 3.0], &[3]);
    binary(g, OpOf::Add, a, b)
}

#[test]
fn compiling_removes_orphans() {
    let mut g = TensorGraph::new();
    let x = tensor(&mut g, &[1.0, 2.0], &[2]);
    let r1 = unary(&mut g, OpOf::Relu, x);
    let r2 = unary(&mut g, OpOf::Relu, x);
    add(&mut g, r1, r2);
    let g = compile(g);
    assert!(g.node_count() < 4);
    assert_eq!(constant(&g, 0), Some(vec![2.0, 4.0]));

    let mut g = TensorGraph::new();
    let bad = failing(&mut g);
    let n1 = unary(&mut g, OpOf::Neg, bad);
    let n2 = unary(&mut g, OpOf::Neg, bad);
    let top = binary(&mut g, OpOf::Mul, n1, n2);
    assert_eq!((top, g.node_count()), (5, 6));
    let g = compile(g);
    assert_eq!((g.node_count(), g.edge_count()), (5, 5));
}

#[test]
fn every_output_is_kept() {
    let mut g = TensorGraph::new();
    let x = tensor(&mut g, &[1.0], &[1]);
    let y = tensor(&mut g, &[2.0], &[1]);
    unary(&mut g, OpOf::Neg, x);
    unary(&mut g, OpOf::Neg, y);
    unary(&mut g, OpOf::Neg, x);
    let g = compile(g);
    let mut left: Vec<f32> = (0..g.node_count()).map(|n| value(&g, n)[0]).collect();
    left.sort_by(|a, b| a.partial_cmp(b).unwrap());
    assert_eq!(left, vec![-2.0, -1.0]);
    assert_eq!(compile(TensorGraph::new()).node_count(), 0);
}

#[test]
fn running_finds_the_node_in_the_compiled_graph() {
    let mut g = TensorGraph::new();
    g.set_compile_on_run(true);
    let x = tensor(&mut g, &[1.0, 2.0], &[2]);
    let n1 = unary(&mut g, OpOf::Neg, x);
    let n2 = unary(&mut g, OpOf::Neg, x);
    let top = add(&mut g, n1, n2);
    let (g, r) = run(g, n2, &backend());
    assert_eq!(floats(r.unwrap().data()), vec![-1.0, -2.0]);
    assert!(g.node_count() < top + 1);

    let mut g = TensorGraph::new();
    g.set_compile_on_run(true);
    let bad = failing(&mut g);
    let up = unary(&mut g, OpOf::Neg, bad);
    let (_, r) = run(g, up, &backend());
    match r {
        Err(Error::ShapeMismatch(m)) => assert_eq!(m, "Add shape mismatch: [2] and [3]"),
        other => panic!("{:?}", other),
    }
}

fn is_output(g: &TensorGraph, n: usize) -> bool {
    g.edges_directed(n, true).is_empty()
}

#[test]
fn a_graph_can_be_run_again() {
    let mut g = TensorGraph::new();
    g.set_compile_on_run(true);
    let x = tensor(&mut g, &[1.0, 2.0], &[2]);
    let n1 = unary(&mut g, OpOf::Neg, x);
    let bad = failing(&mut g);
    let n2 = unary(&mut g, OpOf::Neg, x);
    let top = binary(&mut g, OpOf::Mul, n1, n2);
    let up = unary(&mut g, OpOf::Exp, bad);
    let last = add(&mut g, up, top);
    let (mut g, r) = run(g, last, &backend());
    assert!(r.is_err());
    for _ in 0..3 {
        let count = g.node_count();
        let end = (0..count).find(|n| is_output(&g, *n)).unwrap();
        let (again, r) = run(g, end, &backend());
        match r {
            Err(Error::ShapeMismatch(m)) => assert_eq!(m, "Add shape mismatch: [2] and [3]"),
            other => panic!("{:?}", other),
        }
        assert_eq!(again.node_count(), count);
        g = again;
    }
}

#[test]
fn compiling_looks_at_ranks_and_not_at_places() {
    let build = || {
        let mut g = TensorGraph::new();
        let dead = tensor(&mut g, &[9.0], &[1]);
        let x = tensor(&mut g, &[1.0, 2.0], &[2]);
        let s1 = unary(&mut g, OpOf::Neg, x);
        let s2 = unary(&mut g, OpOf::Neg, x);
        binary(&mut g, OpOf::Mul, s1, s2);
        g.remove_node(dead);
        (g, dead, s1)
    };
    let (mut g, top, s) = build();
    assert!(!check_order(&g));
    assert_eq!(value(&g, top), vec![1.0, 4.0]);
    run_cse_pass(&mut g).unwrap();
    assert_eq!(get_binary_inputs(&g, top).unwrap(), (s, s));
    assert_eq!(value(&g, top), vec![1.0, 4.0]);
    let g = compile(build().0);
    assert_eq!(g.node_count(), 1);
    assert_eq!(value(&g, 0), vec![1.0, 4.0]);
}

#[test]
fn cse_tells_operations_apart() {
    let mut g = TensorGraph::new();
    let a = tensor(&mut g, &[1.0], &[1]);
    let b = tensor(&mut g, &[2.0], &[1]);
    let s = binary(&mut g, OpOf::Add, a, b);
    let p = binary(&mut g, OpOf::Mul, a, b);
    let t = binary(&mut g, OpOf::Sub, s, p);
    run_cse_pass(&mut g).unwrap();
    assert_eq!(get_binary_inputs(&g, t).unwrap(), (s, p));
}

#[test]
fn dce_keeps_graphs_without_cycles() {
    let mut g = make_graph_with_cse();
    let (nodes, edges) = (g.node_count(), g.edge_count());
    run_dce_pass(&mut g).unwrap();
    assert_eq!((g.node_count(), g.edge_count()), (nodes, edges));
}

#[test]
fn dce_removes_what_feeds_no_output() {
    let mut g = TensorGraph::new();
    let out = tensor(&mut g, &[1.0], &[1]);
    let a = g.add_node(OpOf::Relu, shape(&[1]));
    let b = g.add_node(OpOf::Neg, shape(&[1]));
    g.add_edge(a, b, 0);
    g.add_edge(b, a, 0);
    assert!(!check_order(&g));
    assert!(is_reachable_from_output(&g, out));
    assert!(!is_reachable_from_output(&g, a));
    run_dce_pass(&mut g).unwrap();
    assert_eq!((g.node_count(), g.edge_count()), (1, 0));
    assert_eq!(constant(&g, 0), Some(vec![1.0]));
}

#[test]
fn reachability_follows_the_first_output() {
    let mut g = TensorGraph::new();
    let a = tensor(&mut g, &[1.0], &[1]);
    let b = unary(&mut g, OpOf::Neg, a);
    let c = tensor(&mut g, &[2.0], &[1]);
    assert!(is_reachable_from_output(&g, a));
    assert!(is_reachable_from_output(&g, b));
    assert!(!is_reachable_from_output(&g, c));
    assert!(!is_reachable_from_output(&TensorGraph::new(), 0));
}

#[test]
fn folding_computes_constants_once() {
    let mut g = TensorGraph::new();
    let a = tensor(&mut g, &[1.0, 2.0], &[1, 2]);
    let b = tensor(&mut g, &[3.0, 4.0], &[2, 1]);
    let m = matmul(&mut g, a, b);
    let n = unary(&mut g, OpOf::Neg, m);
    let bad = binary(&mut g, OpOf::Add, a, b);
    let id = g.tensor_id(m);
    run_constant_fold_pass(&mut g, &backend()).unwrap();
    assert_eq!(constant(&g, m), Some(vec![11.0]));
    assert_eq!(constant(&g, n), Some(vec![-11.0]));
    assert_eq!(constant(&g, bad), None);
    assert_ne!(g.tensor_id(m), id);
    assert_eq!(g.node(m).shape.dims, vec![1, 1]);
}

#[test]
fn layout_transposes_tall_weights_once() {
    let mut g = TensorGraph::new();
    let x = tensor(&mut g, &[1.0, 1.0], &[1, 2]);
    let tall = tensor(&mut g, &[1.0, 2.0, 3.0, 4.0, 5.0, 6.0], &[3, 2]);
    g.apply(OpOf::MatMul, &vec![x, tall], shape(&[1, 3]));
    run_layout_optimize_pass(&mut g).unwrap();
    assert_eq!(constant(&g, tall), Some(vec![1.0, 3.0, 5.0, 2.0, 4.0, 6.0]));
    run_layout_optimize_pass(&mut g).unwrap();
    assert_eq!(constant(&g, tall), Some(vec![1.0, 3.0, 5.0, 2.0, 4.0, 6.0]));
}

#[test]
fn layout_leaves_wide_weights_alone() {
    let mut g = TensorGraph::new();
    let x = tensor(&mut g, &[1.0, 1.0], &[1, 2]);
    let wide = tensor(&mut g, &[1.0, 2.0, 3.0, 4.0, 5.0, 6.0], &[2, 3]);
    let m = matmul(&mut g, x, wide);
    let before = value(&g, m);
    run_layout_optimize_pass(&mut g).unwrap();
    assert_eq!(value(&g, m), before);
}

#[test]
fn operands_are_read_by_position() {
    let mut g = TensorGraph::new();
    let a = tensor(&mut g, &[1.0], &[1]);
    let b = tensor(&mut g, &[2.0], &[1]);
    let s = g.add_node(OpOf::Sub, shape(&[1]));
    g.add_edge(a, s, 1);
    assert!(get_indexed_inputs(&g, s).is_err());
    g.add_edge(b, s, 0);
    assert_eq!(get_indexed_inputs(&g, s).unwrap(), vec![b, a]);
    assert_eq!(value(&g, s), vec![1.0]);
    assert!(get_unary_input(&g, s).is_err());
    let n = unary(&mut g, OpOf::Neg, s);
    assert_eq!(get_unary_input(&g, n).unwrap(), s);
    assert!(get_binary_inputs(&g, n).is_err());
}

#[test]
fn removing_a_node_renumbers_the_last() {
    let mut g = TensorGraph::new();
    let a = tensor(&mut g, &[1.0], &[1]);
    let b = tensor(&mut g, &[2.0], &[1]);
    let n = unary(&mut g, OpOf::Neg, b);
    assert_eq!(n, 2);
    g.remove_node(a);
    assert_eq!((g.node_count(), g.edge_count()), (2, 1));
    assert!(matches!(g.node(0).op, OpOf::Neg));
    assert_eq!(get_unary_input(&g, 0).unwrap(), b);
    let found = g.edges_directed(b, true);
    assert_eq!(found, vec![(0, (b, 0, 0))]);
    g.remove_edge(0);
    assert_eq!(g.edge_count(), 0);
}

#[test]
fn a_failing_node_breaks_what_needs_it() {
    let mut g = TensorGraph::new();
    let a = tensor(&mut g, &[1.0, 2.0], &[2]);
    let b = tensor(&mut g, &[1.0, 2.0, 3.0], &[3]);
    let bad = binary(&mut g, OpOf::Add, a, b);
    let top = unary(&mut g, OpOf::Neg, bad);
    let fine = unary(&mut g, OpOf::Neg, a);
    match run_node(&g, top, &backend()) {
        Err(Error::ShapeMismatch(m)) => assert_eq!(m, "Add shape mismatch: [2] and [3]"),
        other => panic!("{:?}", other),
    }
    assert_eq!(value(&g, fine), vec![-1.0, -2.0]);
}

#[test]
fn shared_nodes_are_run_once_each() {
    let mut g = TensorGraph::new();
    let mut n = tensor(&mut g, &[1.0], &[1]);
    for _ in 0..40 {
        n = binary(&mut g, OpOf::Add, n, n);
    }
    assert_eq!(value(&g, n), vec![1099511627776.0]);
}
