use aether::backend::cpu::CpuBackend;
use aether::backend::Backend;
use aether::codegen::ast::{evaluate_ast, hash_ast, Expr, ScalarText};
use aether::codegen::cache::{CacheAction, PipelineCache};
use aether::codegen::WgslKernelBuilder;
use aether::float::Float;
use aether::op::{Op, OpOf};
use aether::shape::Shape;
use aether::tensor::{Dtype, Tensor};

/// The host's arithmetic.
struct Host;

fn num(b: u32) -> f32 {
    f32::from_bits(b)
}

impl Float for Host {
    fn plus(&self, a: u32, b: u32) -> u32 {
        (num(a) + num(b)).to_bits()
    }
    fn minus(&self, a: u32, b: u32) -> u32 {
        (num(a) - num(b)).to_bits()
    }
    fn times(&self, a: u32, b: u32) -> u32 {
        (num(a) * num(b)).to_bits()
    }
    fn over(&self, a: u32, b: u32) -> u32 {
        (num(a) / num(b)).to_bits()
    }
    fn exp(&self, a: u32) -> u32 {
        num(a).exp().to_bits()
    }
    fn tanh(&self, a: u32) -> u32 {
        num(a).tanh().to_bits()
    }
    fn sqrt(&self, a: u32) -> u32 {
        num(a).sqrt().to_bits()
    }
    fn square(&self, a: u32) -> u32 {
        num(a).powi(2).to_bits()
    }
    fn from_count(&self, n: usize) -> u32 {
        (n as f32).to_bits()
    }
    fn from_whole(&self, n: i32) -> u32 {
        (n as f32).to_bits()
    }
    fn from_double(&self, bits: u64) -> u32 {
        (f64::from_bits(bits) as f32).to_bits()
    }
    fn dot(&self, m: usize, k: usize, n: usize, a: &Vec<u32>, b: &Vec<u32>) -> Vec<u32> {
        let x: Vec<f32> = a.iter().map(|v| num(*v)).collect();
        let y: Vec<f32> = b.iter().map(|v| num(*v)).collect();
        let l = ndarray::ArrayView2::from_shape((m, k), &x).unwrap();
        let r = ndarray::ArrayView2::from_shape((k, n), &y).unwrap();
        l.dot(&r).iter().map(|v| v.to_bits()).collect()
    }
    fn to_half(&self, a: u32) -> u16 {
        half::f16::from_f32(num(a)).to_bits()
    }
    fn from_half(&self, h: u16) -> u32 {
        half::f16::from_bits(h).to_f32().to_bits()
    }
    fn round_brain(&self, a: u32) -> u32 {
        half::bf16::from_f32(num(a)).to_f32().to_bits()
    }
    fn mul_add(&self, a: u32, b: u32, c: u32) -> u32 {
        num(a).mul_add(num(b), num(c)).to_bits()
    }
    fn pow(&self, a: u32, b: u32) -> u32 {
        num(a).powf(num(b)).to_bits()
    }
    fn sin(&self, a: u32) -> u32 {
        num(a).sin().to_bits()
    }
    fn cos(&self, a: u32) -> u32 {
        num(a).cos().to_bits()
    }
    fn stored_product(&self, matrix: usize, x: &Vec<u32>) -> Vec<u32> {
        x.iter().map(|v| (num(*v) * matrix as f32).to_bits()).collect()
    }
}

fn words(v: &[f32]) -> Vec<u32> {
    v.iter().map(|x| x.to_bits()).collect()
}

fn floats(v: &[u32]) -> Vec<f32> {
    v.iter().map(|x| num(*x)).collect()
}

/// The host's texts of numbers.
struct Texts;

impl ScalarText for Texts {
    fn debug(&self, b: u32) -> String {
        format!("{:?}", num(b))
    }
    fn display(&self, b: u32) -> String {
        format!("{}", num(b))
    }
}

fn input(i: usize) -> Box<Expr> {
    Box::new(Expr::Input(i))
}

fn scalar(x: f32) -> Box<Expr> {
    Box::new(Expr::Scalar(x.to_bits()))
}

#[test]
fn test_to_wgsl() {
    let expr = Expr::Relu(Box::new(Expr::Add(input(0), scalar(2.5))));
    let indexer = |idx| format!("in{}", idx);
    assert_eq!(expr.to_wgsl(&Texts, &indexer), "max(0.0, (in0 + 2.5))");
}

#[test]
fn test_step_wgsl() {
    let expr = Expr::Step(input(0));
    let indexer = |idx| format!("in{}", idx);
    assert_eq!(expr.to_wgsl(&Texts, &indexer), "step(0.0, in0)");
}

#[test]
fn every_operation_has_shader_text() {
    let name = |idx| format!("x{}", idx);
    let text = |e: Expr| e.to_wgsl(&Texts, &name);
    assert_eq!(text(Expr::Mul(input(0), input(1))), "(x0 * x1)");
    assert_eq!(text(Expr::Sub(input(0), input(1))), "(x0 - x1)");
    assert_eq!(text(Expr::Div(input(0), input(1))), "(x0 / x1)");
    assert_eq!(text(Expr::Tanh(input(0))), "tanh(x0)");
    assert_eq!(text(Expr::Sigmoid(input(0))), "(1.0 / (1.0 + exp(-(x0))))");
    assert_eq!(text(Expr::Neg(input(0))), "(-(x0))");
    assert_eq!(text(Expr::Exp(input(0))), "exp(x0)");
    assert_eq!(text(Expr::Sqrt(input(0))), "sqrt(x0)");
    assert_eq!(text(Expr::Scalar(1e30f32.to_bits())), "1e30");
    assert_eq!(text(Expr::Scalar(f32::INFINITY.to_bits())), "inf.0");
    assert_eq!(text(Expr::Scalar(2.0f32.to_bits())), "2.0");
}

#[test]
fn serialization_tells_expressions_apart() {
    let a = Expr::Sub(input(0), input(1));
    let b = Expr::Sub(input(1), input(0));
    let c = Expr::Sigmoid(Box::new(Expr::Add(input(0), scalar(2.0))));
    assert_eq!(a.serialize(&Texts), "Sub(Input(0),Input(1))");
    assert_eq!(b.serialize(&Texts), "Sub(Input(1),Input(0))");
    assert_eq!(c.serialize(&Texts), "Sigmoid(Add(Input(0),Scalar(2)))");
    assert!(a.uses_below(2));
    assert!(!a.uses_below(1));
}

#[test]
fn key_is_the_digest_of_the_texts() {
    let e = Expr::Relu(input(0));
    let shapes = [Shape::new(vec![2, 3])];
    let key = hash_ast(&Texts, &e, &shapes, Dtype::F32);
    assert_eq!(key.len(), 64);
    let digest = <sha2::Sha256 as sha2::Digest>::digest("Relu(Input(0))[2, 3]F32".as_bytes());
    let hex: String = digest.iter().map(|b| format!("{:02x}", b)).collect();
    assert_eq!(key, hex);
    assert_eq!(key.len(), 64);
    assert_ne!(hash_ast(&Texts, &e, &shapes, Dtype::F16), key);
    assert_ne!(hash_ast(&Texts, &e, &[Shape::new(vec![3, 2])], Dtype::F32), key);
}

#[test]
fn expressions_are_evaluated_with_broadcasting() {
    let e = Expr::Add(
        Box::new(Expr::Mul(input(0), scalar(2.0))),
        Box::new(Expr::Neg(input(1))),
    );
    let a = words(&[1.0, 2.0, 3.0, 4.0]);
    let b = words(&[10.0, 20.0]);
    let shapes = [Shape::new(vec![2, 2]), Shape::new(vec![2])];
    let out = Shape::new(vec![2, 2]);
    let got: Vec<f32> = (0..4)
        .map(|i| num(evaluate_ast(&Host, &e, &[&a, &b], &shapes, &out, i)))
        .collect();
    assert_eq!(got, vec![-8.0, -16.0, -4.0, -12.0]);
    let s = Expr::Step(Box::new(Expr::Relu(Box::new(Expr::Sub(input(0), scalar(2.5))))));
    assert_eq!(num(evaluate_ast(&Host, &s, &[&a], &shapes[..1], &out, 0)), 1.0);
    let t = Expr::Tanh(Box::new(Expr::Exp(Box::new(Expr::Sqrt(Box::new(Expr::Div(
        Box::new(Expr::Sigmoid(input(0))),
        input(0),
    )))))));
    let x = 4.0f32;
    let want = ((1.0 / (1.0 + (-x).exp())) / x).sqrt().exp().tanh();
    assert_eq!(num(evaluate_ast(&Host, &t, &[&a], &shapes[..1], &out, 3)), want);
}

#[test]
fn expressions_agree_with_broadcast_operations() {
    let b = CpuBackend::new(Host);
    let x = Tensor::new(words(&[1.0, 2.0, 3.0, 4.0, 5.0, 6.0]), Shape::new(vec![2, 3]));
    let y = Tensor::new(words(&[0.5, 3.0]), Shape::new(vec![2, 1]));
    let pairs: [(Op, Expr); 4] = [
        (OpOf::BroadcastAdd { input_shapes: vec![] }, Expr::Add(input(0), input(1))),
        (OpOf::BroadcastMul { input_shapes: vec![] }, Expr::Mul(input(0), input(1))),
        (OpOf::BroadcastSub { input_shapes: vec![] }, Expr::Sub(input(0), input(1))),
        (OpOf::BroadcastDiv { input_shapes: vec![] }, Expr::Div(input(0), input(1))),
    ];
    let shapes = [Shape::new(vec![2, 3]), Shape::new(vec![2, 1])];
    for (op, e) in pairs.iter() {
        let t = b.execute(op, &[&x, &y]).unwrap();
        for i in 0..6 {
            let v = evaluate_ast(&Host, e, &[x.data(), y.data()], &shapes, &t.shape, i);
            assert_eq!(v, t.data()[i]);
        }
    }
}

#[test]
fn expressions_read_what_is_there() {
    let a = words(&[1.0, 2.0]);
    let shapes = [Shape::new(vec![7])];
    let out = Shape::new(vec![2]);
    let got: Vec<f32> = (0..4)
        .map(|i| num(evaluate_ast(&Host, &Expr::Input(0), &[&a], &shapes, &out, i)))
        .collect();
    assert_eq!(got, vec![1.0, 2.0, 1.0, 2.0]);
}

#[test]
fn keys_tell_shapes_and_types_apart() {
    let e = Expr::Add(input(0), input(1));
    let key = |shapes: &[&[usize]], d: Dtype| {
        let s: Vec<Shape> = shapes.iter().map(|x| Shape::new(x.to_vec())).collect();
        hash_ast(&Texts, &e, &s, d)
    };
    let all = [
        key(&[&[2, 3], &[3]], Dtype::F32),
        key(&[&[3], &[2, 3]], Dtype::F32),
        key(&[&[2, 33], &[]], Dtype::F32),
        key(&[&[2, 3, 3]], Dtype::F32),
        key(&[&[2, 3], &[3]], Dtype::F16),
        key(&[], Dtype::BF16),
    ];
    for (i, a) in all.iter().enumerate() {
        for b in all[..i].iter() {
            assert_ne!(a, b);
        }
    }
}

#[test]
fn elementwise_kernels_have_their_text() {
    let b = WgslKernelBuilder {
        num_inputs: 2,
        output_shape: Shape::new(vec![4]),
        input_shapes: vec![Shape::new(vec![4]), Shape::new(vec![4])],
        expr: Expr::Add(input(0), input(1)),
    };
    let want = "@group(0) @binding(0) var<storage, read> in0: array<f32>;\n\
        @group(0) @binding(1) var<storage, read> in1: array<f32>;\n\
        @group(0) @binding(2) var<storage, read_write> out: array<f32>;\n\
        @group(0) @binding(3) var<uniform> num_elements: u32;\n\n\
        @compute @workgroup_size(256)\n\
        fn main(@builtin(global_invocation_id) global_id: vec3<u32>) {\n\
        \tlet global_idx = global_id.x;\n\
        \tif (global_idx >= num_elements) { return; }\n\
        \tout[global_idx] = (in0[global_idx] + in1[global_idx]);\n}\n";
    assert_eq!(b.build_elementwise(&Texts), want);
}

#[test]
fn broadcast_kernels_have_their_text() {
    let b = WgslKernelBuilder {
        num_inputs: 1,
        output_shape: Shape::new(vec![2, 3]),
        input_shapes: vec![Shape::new(vec![3])],
        expr: Expr::Neg(input(0)),
    };
    let want = "@group(0) @binding(0) var<storage, read> in0: array<f32>;\n\
        @group(0) @binding(1) var<storage, read_write> out: array<f32>;\n\
        struct BroadcastParams {\n\
        \tinfo: vec4<u32>,\n\
        \toutput_shape: vec4<u32>,\n\
        \tstride_0: vec4<u32>,\n\
        \tstride_1: vec4<u32>,\n\
        };\n\n\
        @group(0) @binding(2) var<uniform> params: BroadcastParams;\n\n\
        @compute @workgroup_size(256)\n\
        fn main(@builtin(global_invocation_id) global_id: vec3<u32>) {\n\
        \tlet global_idx = global_id.x;\n\
        \tif (global_idx >= params.info[0]) { return; }\n\n\
        \tlet c3 = global_idx % params.output_shape[3];\n\
        \tlet c2 = (global_idx / params.output_shape[3]) % params.output_shape[2];\n\
        \tlet c1 = (global_idx / (params.output_shape[2] * params.output_shape[3])) % params.output_shape[1];\n\
        \tlet c0 = global_idx / (params.output_shape[1] * params.output_shape[2] * params.output_shape[3]);\n\n\
        \tlet input_idx_0 = (c0 * params.stride_0[0]) + (c1 * params.stride_0[1]) + (c2 * params.stride_0[2]) + (c3 * params.stride_0[3]);\n\
        \n\tout[global_idx] = (-(in0[input_idx_0]));\n}\n";
    assert_eq!(b.build_broadcast(&Texts), want);
}

#[test]
fn a_pipeline_is_compiled_by_the_first_who_asks() {
    let mut c = PipelineCache::new();
    let key = format!("a");
    let other = format!("b");
    assert_eq!(c.probe(&key), CacheAction::Compile);
    assert_eq!(c.claim(&key), CacheAction::Compile);
    assert_eq!(c.claim(&key), CacheAction::Wait);
    assert_eq!(c.probe(&key), CacheAction::Wait);
    assert_eq!(c.claim(&other), CacheAction::Compile);
    c.complete(&key, 7);
    assert_eq!(c.claim(&key), CacheAction::Use(7));
    assert_eq!(c.probe(&key), CacheAction::Use(7));
    assert_eq!(c.probe(&other), CacheAction::Wait);
}
