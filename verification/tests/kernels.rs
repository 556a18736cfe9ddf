use aether::backend::cpu::CpuBackend;
use aether::backend::cuda::CudaBackend;
use aether::backend::Backend;
use aether::blas::{matmul, sgemm};
use aether::codegen::ast::{Expr, ScalarText};
use aether::error::Error;
use aether::float::Float;
use aether::gradcheck::{gradcheck, gradients_of, Gradient};
use aether::kernels::movement::transpose_data;
use aether::op::{Op, OpOf};
use aether::shape::Shape;
use aether::tensor::{AnyData, Dtype, Tensor};

/// The host's arithmetic.
struct Host;

fn num(b: u32) -> f32 {
    f32::from_bits(b)
}

impl Float for Host {
    fn plus(&self, a: u32, b: u32) -> u32 {
        (num(a) + num(b)).to_bits()
    }
    fn minus(&self, a: u32, b: u32) -> u32 {
        (num(a) - num(b)).to_bits()
    }
    fn times(&self, a: u32, b: u32) -> u32 {
        (num(a) * num(b)).to_bits()
    }
    fn over(&self, a: u32, b: u32) -> u32 {
        (num(a) / num(b)).to_bits()
    }
    fn exp(&self, a: u32) -> u32 {
        num(a).exp().to_bits()
    }
    fn tanh(&self, a: u32) -> u32 {
        num(a).tanh().to_bits()
    }
    fn sqrt(&self, a: u32) -> u32 {
        num(a).sqrt().to_bits()
    }
    fn square(&self, a: u32) -> u32 {
        num(a).powi(2).to_bits()
    }
    fn from_count(&self, n: usize) -> u32 {
        (n as f32).to_bits()
    }
    fn from_whole(&self, n: i32) -> u32 {
        (n as f32).to_bits()
    }
    fn from_double(&self, bits: u64) -> u32 {
        (f64::from_bits(bits) as f32).to_bits()
    }
    fn dot(&self, m: usize, k: usize, n: usize, a: &Vec<u32>, b: &Vec<u32>) -> Vec<u32> {
        let x: Vec<f32> = a.iter().map(|v| num(*v)).collect();
        let y: Vec<f32> = b.iter().map(|v| num(*v)).collect();
        let l = ndarray::ArrayView2::from_shape((m, k), &x).unwrap();
        let r = ndarray::ArrayView2::from_shape((k, n), &y).unwrap();
        l.dot(&r).iter().map(|v| v.to_bits()).collect()
    }
    fn to_half(&self, a: u32) -> u16 {
        half::f16::from_f32(num(a)).to_bits()
    }
    fn from_half(&self, h: u16) -> u32 {
        half::f16::from_bits(h).to_f32().to_bits()
    }
    fn round_brain(&self, a: u32) -> u32 {
        half::bf16::from_f32(num(a)).to_f32().to_bits()
    }
    fn mul_add(&self, a: u32, b: u32, c: u32) -> u32 {
        num(a).mul_add(num(b), num(c)).to_bits()
    }
    fn pow(&self, a: u32, b: u32) -> u32 {
        num(a).powf(num(b)).to_bits()
    }
    fn sin(&self, a: u32) -> u32 {
        num(a).sin().to_bits()
    }
    fn cos(&self, a: u32) -> u32 {
        num(a).cos().to_bits()
    }
    fn stored_product(&self, matrix: usize, x: &Vec<u32>) -> Vec<u32> {
        x.iter().map(|v| (num(*v) * matrix as f32).to_bits()).collect()
    }
}

fn words(v: &[f32]) -> Vec<u32> {
    v.iter().map(|x| x.to_bits()).collect()
}

fn floats(v: &[u32]) -> Vec<f32> {
    v.iter().map(|x| num(*x)).collect()
}

fn cpu() -> CpuBackend<Host> {
    CpuBackend::new(Host)
}

fn shape(dims: &[usize]) -> Shape {
    Shape::new(dims.to_vec())
}

fn t(v: &[f32], dims: &[usize]) -> Tensor {
    Tensor::new(words(v), shape(dims))
}

fn ramp(dims: &[usize]) -> Tensor {
    let n: usize = dims.iter().product();
    let v: Vec<f32> = (0..n).map(|i| (i * 5 % 13) as f32 * 0.25 - 1.5).collect();
    t(&v, dims)
}

fn vals(r: Result<Tensor, Error>) -> Vec<f32> {
    floats(r.unwrap().data())
}

fn message<T: std::fmt::Debug>(r: Result<T, Error>) -> String {
    match r {
        Err(Error::ExecutionError(m)) => m,
        Err(Error::ShapeMismatch(m)) => m,
        other => panic!("{:?}", other),
    }
}

fn close(a: &[f32], b: &[f32]) {
    assert_eq!(a.len(), b.len());
    for (x, y) in a.iter().zip(b) {
        assert!((x - y).abs() < 1e-5, "{} and {}", x, y);
    }
}

#[test]
fn operations_element_by_element() {
    let b = cpu();
    let x = t(&[-1.0, 0.0, 2.0], &[3]);
    assert_eq!(vals(b.relu(&x)), vec![0.0, 0.0, 2.0]);
    assert_eq!(vals(b.step(&x)), vec![0.0, 1.0, 1.0]);
    assert_eq!(vals(b.neg(&x)), vec![1.0, -0.0, -2.0]);
    assert_eq!(vals(b.tanh(&x))[2], 2.0f32.tanh());
    assert_eq!(vals(b.exp(&x))[2], 2.0f32.exp());
    assert_eq!(vals(b.sqrt(&t(&[9.0], &[1]))), vec![3.0]);
    assert_eq!(vals(b.sigmoid(&x))[1], 0.5);
    let y = t(&[4.0, 5.0, 8.0], &[3]);
    assert_eq!(vals(b.add(&x, &y)), vec![3.0, 5.0, 10.0]);
    assert_eq!(vals(b.sub(&x, &y)), vec![-5.0, -5.0, -6.0]);
    assert_eq!(vals(b.mul(&x, &y)), vec![-4.0, 0.0, 16.0]);
    assert_eq!(vals(b.div(&x, &y)), vec![-0.25, 0.0, 0.25]);
}

#[test]
fn sums_need_equal_shapes() {
    let b = cpu();
    let x = t(&[1.0, 2.0], &[2]);
    let y = t(&[1.0, 2.0], &[2, 1]);
    assert!(matches!(b.add(&x, &y), Err(Error::ShapeMismatch(_))));
    assert_eq!(message(b.add(&x, &y)), "Add shape mismatch: [2] and [2, 1]");
    assert_eq!(vals(b.mul(&x, &y)), vec![1.0, 4.0]);
    assert_eq!(message(b.execute(&OpOf::Relu, &[&x, &y])), "Relu requires exactly 1 input");
    assert_eq!(message(b.execute(&OpOf::Add, &[&x])), "Add requires exactly 2 inputs");
}

#[test]
fn halves_are_not_computed_with() {
    let b = cpu();
    let h = Tensor::new_with_data(AnyData::F16(vec![0x3c00]), shape(&[1]), Dtype::F16);
    assert_eq!(message(b.relu(&h)), "Operand is not single precision");
}

#[test]
fn operands_are_broadcast() {
    let b = cpu();
    let x = t(&[1.0, 2.0, 3.0, 4.0, 5.0, 6.0], &[2, 3]);
    let row = t(&[10.0, 20.0, 30.0], &[3]);
    let col = t(&[1.0, 2.0], &[2, 1]);
    let shapes = || vec![shape(&[2, 3]), shape(&[3])];
    assert_eq!(
        vals(b.broadcast_add(&x, &row, shapes())),
        vec![11.0, 22.0, 33.0, 14.0, 25.0, 36.0]
    );
    assert_eq!(
        vals(b.broadcast_mul(&x, &col, shapes())),
        vec![1.0, 2.0, 3.0, 8.0, 10.0, 12.0]
    );
    assert_eq!(vals(b.broadcast_sub(&col, &row, shapes())).len(), 6);
    assert_eq!(vals(b.broadcast_div(&row, &col, shapes()))[3..], [5.0, 10.0, 15.0]);
    assert!(message(b.broadcast_add(&x, &t(&[1.0, 2.0], &[2]), shapes())).contains("broadcast"));
}

#[test]
fn matrix_products() {
    let b = cpu();
    let x = t(&[1.0, 2.0, 3.0, 4.0], &[2, 2]);
    let y = t(&[5.0, 6.0, 7.0, 8.0], &[2, 2]);
    assert_eq!(vals(b.matmul(&x, &y)), vec![19.0, 22.0, 43.0, 50.0]);
    assert_eq!(vals(matmul(&Host, &x, &y)), vec![19.0, 22.0, 43.0, 50.0]);
    assert!(b.matmul(&x, &t(&[1.0, 2.0, 3.0], &[3, 1])).is_err());
    assert!(b.matmul(&x, &t(&[1.0, 2.0], &[2])).is_err());
    assert_eq!(vals(b.transpose(&t(&[1.0, 2.0, 3.0], &[1, 3]))), vec![1.0, 2.0, 3.0]);
    assert_eq!(vals(b.transpose(&x)), vec![1.0, 3.0, 2.0, 4.0]);
    let p = t(&[1.0, 0.0, 0.0, 1.0, 2.0, 0.0, 0.0, 2.0], &[2, 2, 2]);
    let q = t(&[1.0, 2.0, 3.0, 4.0, 1.0, 2.0, 3.0, 4.0], &[2, 2, 2]);
    assert_eq!(
        vals(b.batched_matmul(&p, &q)),
        vec![1.0, 2.0, 3.0, 4.0, 2.0, 4.0, 6.0, 8.0]
    );
    assert_eq!(
        vals(b.batched_transpose(&q)),
        vec![1.0, 3.0, 2.0, 4.0, 1.0, 3.0, 2.0, 4.0]
    );
}

#[test]
fn transposing_twice_gives_the_matrix_back() {
    let v: Vec<u32> = (0..12).collect();
    assert_eq!(transpose_data(&transpose_data(&v, 3, 4), 4, 3), v);
    assert_eq!(transpose_data(&v, 3, 4)[1], 4);
}

#[test]
fn general_matrix_products() {
    let a = words(&[1.0, 2.0, 3.0, 4.0, 5.0, 6.0]);
    let b = words(&[1.0, 0.0, 0.0, 1.0, 1.0, 1.0]);
    let mut c = words(&[10.0, 20.0, 30.0, 40.0]);
    let two = 2.0f32.to_bits();
    let one = 1.0f32.to_bits();
    sgemm(&Host, false, false, 2, 2, 3, two, &a, 3, &b, 2, one, &mut c, 2);
    assert_eq!(floats(&c), vec![18.0, 30.0, 50.0, 62.0]);
    let mut d = vec![f32::NAN.to_bits(); 4];
    sgemm(&Host, true, true, 2, 2, 3, one, &a, 2, &b, 3, 0, &mut d, 2);
    assert_eq!(floats(&d), vec![1.0, 9.0, 2.0, 12.0]);
}

#[test]
fn sums_and_softmax() {
    let b = cpu();
    let x = t(&[1.0, 2.0, 3.0, 4.0, 5.0, 6.0], &[2, 3]);
    assert_eq!(vals(b.sum_all(&x)), vec![21.0]);
    assert_eq!(vals(b.sum_dim(&x, 0)), vec![5.0, 7.0, 9.0]);
    assert_eq!(vals(b.sum_dim(&x, 1)), vec![6.0, 15.0]);
    assert!(b.sum_dim(&x, 2).is_err());
    let s = vals(b.softmax(&x));
    let e: Vec<f32> = [-2.0f32, -1.0, 0.0].iter().map(|v| v.exp()).collect();
    let sum = 0.0 + e[0] + e[1] + e[2];
    assert_eq!(s[..3], [e[0] / sum, e[1] / sum, e[2] / sum]);
    let p = t(&[0.5, 0.25, 0.25], &[1, 3]);
    let d = t(&[1.0, 0.0, 0.0], &[1, 3]);
    close(&vals(b.softmax_grad(&p, &d)), &[0.25, -0.125, -0.125]);
}

#[test]
fn normalizations() {
    let b = cpu();
    let x = t(&[1.0, 3.0], &[1, 2]);
    let one = t(&[1.0, 1.0], &[2]);
    let zero = t(&[0.0, 0.0], &[2]);
    let eps = 0.0f32.to_bits();
    assert_eq!(vals(b.layer_norm(&x, &one, &zero, eps)), vec![-1.0, 1.0]);
    close(
        &vals(b.rms_norm(&x, &one, eps)),
        &[1.0 / 5.0f32.sqrt(), 3.0 / 5.0f32.sqrt()],
    );
    let dy = t(&[1.0, 2.0], &[1, 2]);
    assert_eq!(vals(b.layer_norm_grad_b(&dy)), vec![1.0, 2.0]);
    let w = b.execute(&OpOf::LayerNormGradW { epsilon: eps }, &[&x, &dy]);
    assert_eq!(vals(w), vec![-1.0, 2.0]);
    let g = b.execute(&OpOf::LayerNormGradX { epsilon: eps }, &[&x, &one, &dy]);
    close(&vals(g), &[0.0, 0.0]);
}

#[test]
fn shapes_are_changed() {
    let b = cpu();
    let x = t(&[1.0, 2.0, 3.0, 4.0, 5.0, 6.0], &[2, 3]);
    let r = b.reshape(&x, shape(&[3, 2])).unwrap();
    assert_eq!((floats(r.data()), r.shape.dims.clone()), (floats(x.data()), vec![3, 2]));
    assert!(b.reshape(&x, shape(&[4, 2])).is_err());
    assert_eq!(vals(b.slice(&x, 1, 1, 3)), vec![2.0, 3.0, 5.0, 6.0]);
    assert_eq!(vals(b.slice(&x, 0, 1, 2)), vec![4.0, 5.0, 6.0]);
    assert!(b.slice(&x, 2, 0, 1).is_err());
    let y = t(&[7.0, 8.0], &[2, 1]);
    assert_eq!(
        vals(b.concat(&[&x, &y], 1)),
        vec![1.0, 2.0, 3.0, 7.0, 4.0, 5.0, 6.0, 8.0]
    );
    assert!(b.concat(&[], 0).is_err());
}

fn conv_reference(x: &Tensor, w: &Tensor, stride: usize, pad: usize) -> Vec<f32> {
    let (xd, wd) = (&x.shape.dims, &w.shape.dims);
    let (xv, wv) = (floats(x.data()), floats(w.data()));
    let oh = (xd[2] + 2 * pad - wd[2]) / stride + 1;
    let ow = (xd[3] + 2 * pad - wd[3]) / stride + 1;
    let mut out = Vec::new();
    for n in 0..xd[0] {
        for o in 0..wd[0] {
            for i in 0..oh {
                for j in 0..ow {
                    let mut sum = 0.0f32;
                    for c in 0..xd[1] {
                        for a in 0..wd[2] {
                            for b in 0..wd[3] {
                                let (r, s) = (i * stride + a, j * stride + b);
                                if r >= pad && s >= pad && r - pad < xd[2] && s - pad < xd[3] {
                                    let p = ((n * xd[1] + c) * xd[2] + r - pad) * xd[3] + s - pad;
                                    let q = ((o * wd[1] + c) * wd[2] + a) * wd[3] + b;
                                    sum += xv[p] * wv[q];
                                }
                            }
                        }
                    }
                    out.push(sum);
                }
            }
        }
    }
    out
}

#[test]
fn convolutions() {
    let b = cpu();
    let x = ramp(&[2, 2, 4, 3]);
    let w = ramp(&[3, 2, 2, 2]);
    for (stride, pad) in [(1, 0), (2, 1), (1, 1)] {
        close(&vals(b.conv2d(&x, &w, stride, pad)), &conv_reference(&x, &w, stride, pad));
    }
    assert!(b.conv2d(&x, &ramp(&[3, 2, 9, 9]), 1, 0).is_err());
}

#[test]
fn pools() {
    let b = cpu();
    let x = t(&[1.0, 2.0, 3.0, 4.0, 5.0, 6.0, 7.0, 8.0, 9.0], &[1, 1, 3, 3]);
    assert_eq!(vals(b.max_pool2d(&x, 2, 1, 0)), vec![5.0, 6.0, 8.0, 9.0]);
    assert_eq!(vals(b.avg_pool2d(&x, 2, 1, 0)), vec![3.0, 4.0, 6.0, 7.0]);
    let dy = t(&[1.0, 2.0, 3.0, 4.0], &[1, 1, 2, 2]);
    assert_eq!(
        vals(b.max_pool2d_grad(&dy, &x, 2, 1, 0)),
        vec![0.0, 0.0, 0.0, 0.0, 1.0, 2.0, 0.0, 3.0, 4.0]
    );
    assert_eq!(
        vals(b.avg_pool2d_grad(&dy, &x, 2, 1, 0)),
        vec![0.25, 0.75, 0.5, 1.0, 2.5, 1.5, 0.75, 1.75, 1.0]
    );
}

fn attend_reference(q: &[f32], k: &[f32], v: &[f32], n: usize, d: usize, causal: bool) -> Vec<f32> {
    let mut out = Vec::new();
    for i in 0..n {
        let last = if causal { i + 1 } else { n };
        let s: Vec<f32> =
            (0..last).map(|j| (0..d).map(|e| q[i * d + e] * k[j * d + e]).sum::<f32>() * 0.5).collect();
        let top = s.iter().cloned().fold(f32::NEG_INFINITY, f32::max);
        let e: Vec<f32> = s.iter().map(|x| (x - top).exp()).collect();
        let sum: f32 = e.iter().sum();
        for c in 0..d {
            out.push((0..last).map(|j| e[j] / sum * v[j * d + c]).sum());
        }
    }
    out
}

#[test]
fn attentions_agree_with_the_formula() {
    let b = cpu();
    let (n, d) = (5, 4);
    let q = ramp(&[1, n, d]);
    let k = t(&floats(ramp(&[n * d]).data()).iter().rev().cloned().collect::<Vec<f32>>(), &[1, n, d]);
    let v = t(&(0..n * d).map(|i| i as f32 * 0.1).collect::<Vec<f32>>(), &[1, n, d]);
    let half = 0.5f32.to_bits();
    let (qv, kv, vv) = (floats(q.data()), floats(k.data()), floats(v.data()));
    let all = attend_reference(&qv, &kv, &vv, n, d, false);
    let past = attend_reference(&qv, &kv, &vv, n, d, true);
    close(&vals(b.causal_attention(&q, &k, &v, half, 1)), &past);
    close(&vals(b.multi_head_attention(&q, &k, &v, half, 1)), &all);
    close(&vals(b.attention(&q, &k, &v, half)), &all);
    close(&vals(b.flash_attention(&q, &k, &v, half, false)), &all);
    close(&vals(b.flash_attention(&q, &k, &v, half, true)), &past);
    let flat = t(&qv, &[n, d]);
    assert_eq!(
        message(b.causal_attention(&flat, &k, &v, half, 1)),
        "CausalAttention Q, K, V must be 3D [B, S, D]"
    );
}

struct Texts;

impl ScalarText for Texts {
    fn debug(&self, b: u32) -> String {
        format!("{:?}", num(b))
    }
    fn display(&self, b: u32) -> String {
        format!("{}", num(b))
    }
}

/// The product of the results of an operation with weights, summed.
fn loss(op: &Op, xs: &Vec<Tensor>, dy: &Tensor) -> Result<u32, String> {
    let refs: Vec<&Tensor> = xs.iter().collect();
    let out = cpu().execute(op, &refs).map_err(|e| format!("{:?}", e))?;
    let sum: f64 =
        floats(out.data()).iter().zip(floats(dy.data())).map(|(a, b)| *a as f64 * b as f64).sum();
    Ok((sum as f32).to_bits())
}

fn check_gradients(op: Op, xs: Vec<Tensor>, dy: Tensor, gradients: Vec<Result<Tensor, Error>>) {
    let g = Ok(gradients.into_iter().map(|r| Gradient::Found(words(&vals(r)))).collect());
    let eval = |v: &Vec<Tensor>| loss(&op, v, &dy);
    let eps = 0.03f32.to_bits();
    let tol = 0.02f32.to_bits();
    assert_eq!(gradcheck(&Host, &Texts, &eval, &xs, &g, eps, tol), Ok(()));
}

#[test]
fn gradients_are_near_finite_differences() {
    let b = cpu();
    let x = ramp(&[1, 2, 4, 3]);
    let w = ramp(&[2, 2, 2, 2]);
    let dy = ramp(&[1, 2, 3, 2]);
    let gx = b.execute(&OpOf::Conv2dGradX { stride: 1, padding: 0 }, &[&x, &w, &dy]);
    let gw = b.execute(&OpOf::Conv2dGradW { stride: 1, padding: 0 }, &[&x, &w, &dy]);
    check_gradients(OpOf::Conv2d { stride: 1, padding: 0 }, vec![x, w], dy, vec![gx, gw]);

    let x = ramp(&[2, 3]);
    let dy = t(&[1.0, -2.0, 0.5, 0.0, 3.0, 1.0], &[2, 3]);
    let s = b.softmax(&x).unwrap();
    let g = b.execute(&OpOf::SoftmaxGrad, &[&s, &dy]);
    check_gradients(OpOf::Softmax, vec![x], dy, vec![g]);

    let (q, k, v) = (ramp(&[1, 3, 2]), ramp(&[1, 3, 2]), ramp(&[1, 3, 2]));
    let dy = t(&[1.0, -2.0, 0.5, 0.0, 3.0, 1.0], &[1, 3, 2]);
    let scale = 0.5f32.to_bits();
    let gq = b.attention_grad_q(&dy, &q, &k, &v, scale);
    let gk = b.attention_grad_k(&dy, &q, &k, &v, scale);
    let gv = b.attention_grad_v(&dy, &q, &k, &v, scale);
    check_gradients(OpOf::Attention { scale }, vec![q, k, v], dy, vec![gq, gk, gv]);

    let x = ramp(&[3, 4]);
    let dy = t(&[1.0, -2.0, 0.5, 0.0, 3.0, 1.0], &[3, 2]);
    let op = OpOf::SliceGrad { axis: 1, start: 1, end: 3 };
    let g = b.execute(&op, &[&x, &dy]);
    check_gradients(OpOf::Slice { axis: 1, start: 1, end: 3 }, vec![x], dy, vec![g]);
}

#[test]
fn wrong_gradients_are_reported() {
    let x = vec![t(&[1.0, 3.0], &[2])];
    let eval = |v: &Vec<Tensor>| {
        let d = floats(v[0].data());
        Ok((d[0] * d[0] + d[1] * d[1]).to_bits())
    };
    let eps = 0.5f32.to_bits();
    let tol = 0.01f32.to_bits();
    let right = Ok(vec![Gradient::Found(words(&[2.0, 6.0]))]);
    assert_eq!(gradcheck(&Host, &Texts, &eval, &x, &right, eps, tol), Ok(()));
    let wrong = Ok(vec![Gradient::Found(words(&[2.0, 5.0]))]);
    assert_eq!(
        gradcheck(&Host, &Texts, &eval, &x, &wrong, eps, tol),
        Err("Gradient mismatch at tensor 0, element 1 / 2.\nShape: [2]\nAnalytical: 5\nNumerical: 6\nAbsolute diff: 1\nRelative diff: 0.16666667"
            .to_owned())
    );
    let lost = |_: &Vec<Tensor>| Err("gone".to_owned());
    assert_eq!(
        gradcheck(&Host, &Texts, &lost, &x, &right, eps, tol),
        Err("Failed to run output_plus: gone".to_owned())
    );
}

#[test]
fn missing_gradients_are_reported() {
    let x = vec![t(&[1.0], &[1]), t(&[2.0], &[1])];
    let eval = |v: &Vec<Tensor>| Ok((num(v[0].data()[0]) + num(v[1].data()[0])).to_bits());
    let one = || Gradient::Found(words(&[1.0]));
    let check = |found| gradcheck(&Host, &Texts, &eval, &x, &found, 0.5f32.to_bits(), 0);
    assert_eq!(check(Ok(vec![one(), one()])), Ok(()));
    assert_eq!(
        check(Ok(vec![one(), Gradient::Missing])),
        Err("No gradient computed for input tensor 1".to_owned())
    );
    assert_eq!(
        check(Ok(vec![Gradient::Failed("gone".to_owned()), Gradient::Missing])),
        Err("Failed to run analytical gradient: gone".to_owned())
    );
    assert_eq!(check(Err("gone".to_owned())), Err("Backward pass failed: gone".to_owned()));
    assert_eq!(gradients_of(&Ok(vec![one(), one()])), Ok(vec![words(&[1.0]), words(&[1.0])]));
}

fn half(dims: &[usize]) -> Tensor {
    let n = dims.iter().product();
    Tensor::new_with_data(AnyData::F16(vec![0x3c00; n]), shape(dims), Dtype::F16)
}

#[test]
fn half_precision_matters_where_it_is_read() {
    let b = cpu();
    let x = ramp(&[2, 3]);
    let dims = |r: Result<Tensor, Error>| r.unwrap().shape.dims;
    assert_eq!(dims(b.execute(&OpOf::Slice { axis: 1, start: 1, end: 1 }, &[&half(&[2, 3])])), vec![2, 0]);
    assert!(b.execute(&OpOf::Slice { axis: 1, start: 1, end: 2 }, &[&half(&[2, 3])]).is_err());
    let grad = OpOf::SliceGrad { axis: 1, start: 0, end: 0 };
    assert_eq!(vals(b.execute(&grad, &[&x, &half(&[2, 0])])), vec![0.0; 6]);
    assert!(b.execute(&grad, &[&x, &half(&[2, 1])]).is_err());
    let joined = b.execute(&OpOf::Concat { axis: 1 }, &[&half(&[2, 0]), &x]);
    assert_eq!(vals(joined), floats(x.data()));
    assert!(b.execute(&OpOf::Concat { axis: 1 }, &[&half(&[2, 1]), &x]).is_err());
    let none = half(&[0, 2, 3]);
    assert_eq!(dims(b.execute(&OpOf::BatchedMatMul, &[&none, &half(&[0, 3, 4])])), vec![0, 2, 4]);
    assert!(b.execute(&OpOf::BatchedMatMul, &[&half(&[1, 2, 3]), &ramp(&[1, 3, 4])]).is_err());
    assert_eq!(dims(b.attention(&none, &none, &none, 0)), vec![0, 2, 3]);
    assert_eq!(dims(b.broadcast_add(&none, &half(&[3]), vec![])), vec![0, 2, 3]);
    assert!(b.broadcast_add(&half(&[3]), &half(&[3]), vec![]).is_err());
}

#[test]
fn heads_read_no_further_than_they_go() {
    let b = cpu();
    let q = ramp(&[1, 2, 3]);
    let k = ramp(&[1, 2, 3]);
    let short = t(&floats(k.data())[..5], &[5]);
    let one = 1.0f32.to_bits();
    let whole = vals(b.multi_head_attention(&q, &k, &k, one, 2));
    assert_eq!((whole[2], whole[5]), (0.0, 0.0));
    assert_eq!(vals(b.multi_head_attention(&q, &short, &short, one, 2)), whole);
    let shorter = t(&floats(k.data())[..4], &[4]);
    assert!(b.multi_head_attention(&q, &shorter, &k, one, 2).is_err());
    assert!(b.multi_head_attention(&q, &k, &shorter, one, 2).is_err());
    let nothing = t(&[], &[0]);
    assert_eq!(vals(b.multi_head_attention(&q, &nothing, &nothing, one, 4)), vec![0.0; 6]);
}

#[test]
fn gradients_do_not_read_what_they_do_not_depend_on() {
    let b = cpu();
    let pool = OpOf::AvgPool2dGrad { pool_size: 2, stride: 2, padding: 0 };
    let dy = t(&[4.0], &[1, 1, 1, 1]);
    let x = half(&[1, 1, 2, 2]);
    assert_eq!(vals(b.execute(&pool, &[&dy, &x])), vec![1.0, 1.0, 1.0, 1.0]);
    assert!(b.execute(&pool, &[&half(&[1, 1, 1, 1]), &ramp(&[1, 1, 2, 2])]).is_err());
    let q = ramp(&[1, 3, 2]);
    let one = 1.0f32.to_bits();
    let plain = vals(b.attention_grad_v(&q, &q, &q, &q, one));
    assert_eq!(vals(b.attention_grad_v(&q, &q, &q, &half(&[1, 3, 2]), one)), plain);
    assert!(b.attention_grad_k(&q, &q, &q, &half(&[1, 3, 2]), one).is_err());
}

#[test]
fn causal_attention_ignores_later_rows() {
    let b = cpu();
    let q = ramp(&[1, 3, 2]);
    let k1 = ramp(&[1, 3, 2]);
    let mut other = floats(k1.data());
    other[4] = 9.0;
    other[5] = -9.0;
    let k2 = t(&other, &[1, 3, 2]);
    let one = 1.0f32.to_bits();
    let a = vals(b.causal_attention(&q, &k1, &k1, one, 1));
    let c = vals(b.causal_attention(&q, &k2, &k2, one, 1));
    assert_eq!(a[..4], c[..4]);
    assert_ne!(a[4..], c[4..]);
}

#[test]
fn casts_round_to_fewer_bits() {
    let b = cpu();
    let x = t(&[1.0, 0.1, -2.5], &[3]);
    let h = b.cast_f32_to_f16(&x).unwrap();
    let want: Vec<u16> = [1.0f32, 0.1, -2.5].iter().map(|v| half::f16::from_f32(*v).to_bits()).collect();
    assert!(matches!(&h.data, AnyData::F16(v) if *v == want));
    let back = vals(b.cast_f16_to_f32(&h));
    assert_eq!(back[1], half::f16::from_f32(0.1).to_f32());
    assert!(b.cast_f32_to_bf16(&x).is_ok());
    assert!(b.cast_f16_to_f32(&x).is_err());
}

#[test]
fn fused_products_are_products_then_more() {
    let b = cpu();
    let x = t(&[1.0, -2.0], &[1, 2]);
    let y = t(&[3.0, 1.0, 4.0, 1.0], &[2, 2]);
    let bias = t(&[10.0, -10.0], &[1, 2]);
    assert_eq!(vals(b.execute_matmul_relu(&x, &y)), vec![0.0, 0.0]);
    assert_eq!(vals(b.execute_matmul_add(&x, &y, &bias)), vec![5.0, -11.0]);
    assert_eq!(vals(b.execute_matmul_add_relu(&x, &y, &bias)), vec![5.0, 0.0]);
}

#[test]
fn the_cuda_backend_falls_back() {
    let c = CudaBackend::new(Host);
    assert!(!CudaBackend::<Host>::is_available());
    let x = t(&[-1.0, 2.0], &[2]);
    assert_eq!(vals(c.relu(&x)), vec![0.0, 2.0]);
}

/// A backend that hands its first operand back.
struct Echo;

impl Backend for Echo {
    fn execute(&self, _op: &Op, inputs: &[&Tensor]) -> Result<Tensor, Error> {
        Ok(inputs[0].copy())
    }
}

#[test]
fn other_backends_inherit_the_operations() {
    let x = t(&[-1.0, 2.0], &[2]);
    assert_eq!(vals(Echo.relu(&x)), vec![-1.0, 2.0]);
    assert_eq!(vals(Echo.execute_matmul_relu(&x, &x)), vec![-1.0, 2.0]);
}

fn on_slices(op: Op, xs: &[(&[f32], &[usize])], out: &[usize]) -> Result<Vec<f32>, Error> {
    let data: Vec<Vec<u32>> = xs.iter().map(|x| words(x.0)).collect();
    let refs: Vec<&Vec<u32>> = data.iter().collect();
    let shapes: Vec<Shape> = xs.iter().map(|x| shape(x.1)).collect();
    let mut output = vec![0u32; out.iter().product()];
    cpu().execute_slices(&op, &refs, &shapes, &mut output, &shape(out))?;
    Ok(floats(&output))
}

#[test]
fn buffers_are_computed_in_place() {
    let x: (&[f32], &[usize]) = (&[1.0, -2.0, 3.0, -4.0], &[2, 2]);
    let y: (&[f32], &[usize]) = (&[1.0, 1.0, 2.0, 2.0], &[2, 2]);
    assert_eq!(on_slices(OpOf::Relu, &[x], &[2, 2]).unwrap(), vec![1.0, 0.0, 3.0, 0.0]);
    assert_eq!(on_slices(OpOf::Add, &[x, y], &[2, 2]).unwrap(), vec![2.0, -1.0, 5.0, -2.0]);
    assert_eq!(on_slices(OpOf::MatMul, &[x, y], &[2, 2]).unwrap(), vec![-3.0, -3.0, -5.0, -5.0]);
    assert!(on_slices(OpOf::Add, &[x], &[2, 2]).is_err());
}

#[test]
fn buffers_are_read_where_they_go_far_enough() {
    let sum = |xs: &[(&[f32], &[usize])], out: &[usize]| {
        let op = OpOf::BroadcastAdd { input_shapes: vec![] };
        on_slices(op, xs, out)
    };
    let x: (&[f32], &[usize]) = (&[1.0, 2.0], &[2]);
    let y: (&[f32], &[usize]) = (&[10.0, 20.0, 30.0], &[3]);
    assert_eq!(sum(&[x, x], &[1]).unwrap(), vec![2.0]);
    assert_eq!(sum(&[x, y], &[2]).unwrap(), vec![11.0, 22.0]);
    assert!(sum(&[x, y], &[3]).is_err());
    assert!(sum(&[(&[1.0, 2.0], &[1, 2]), x], &[2]).is_err());
    assert_eq!(sum(&[(&[1.0, 2.0], &[1, 2]), x], &[0]).unwrap(), Vec::<f32>::new());
    let long: (&[f32], &[usize]) = (&[5.0, 6.0, 7.0], &[1]);
    assert_eq!(sum(&[long, y], &[3]).unwrap(), vec![15.0, 25.0, 35.0]);
    let e = Expr::Neg(Box::new(Expr::Input(0)));
    let mut out = vec![0; 4];
    let b = cpu();
    let r = b.execute_elementwise_chain_slices(&e, &words(x.0), &shape(&[5]), &mut out, &shape(&[2]));
    assert!(r.is_ok());
    assert_eq!(floats(&out), vec![-1.0, -2.0, -1.0, -2.0]);
    let r = b.execute_elementwise_chain_slices(&e, &words(x.0), &shape(&[5]), &mut out, &shape(&[3]));
    assert!(r.is_err());
    assert_eq!(floats(&out), vec![-1.0, -2.0, -1.0, -2.0]);
}

#[test]
fn fused_buffers() {
    let b = cpu();
    let x = words(&[1.0, 2.0, -3.0, -4.0]);
    let y = words(&[1.0, 0.0, 0.0, 1.0]);
    let bias = words(&[10.0, 20.0]);
    let s = shape(&[2, 2]);
    let mut out = vec![0u32; 4];
    b.execute_matmul_relu_slices(&x, &s, &y, &s, &mut out).unwrap();
    assert_eq!(floats(&out), vec![1.0, 2.0, 0.0, 0.0]);
    b.execute_matmul_add_slices(&x, &s, &y, &s, &bias, &mut out).unwrap();
    assert_eq!(floats(&out), vec![11.0, 22.0, 7.0, 16.0]);
    let e = Expr::Relu(Box::new(Expr::Neg(Box::new(Expr::Input(0)))));
    b.execute_elementwise_chain_slices(&e, &x, &s, &mut out, &s).unwrap();
    assert_eq!(floats(&out), vec![0.0, 0.0, 3.0, 4.0]);
}

#[test]
fn totals_begin_with_negative_zero() {
    let b = cpu();
    let bits = |r: Result<Tensor, Error>| r.unwrap().data()[0];
    assert_eq!(bits(b.sum_all(&t(&[-0.0, -0.0], &[2]))), (-0.0f32).to_bits());
    assert_eq!(bits(b.sum_all(&t(&[], &[0]))), (-0.0f32).to_bits());
    assert_eq!(bits(b.sum_all(&t(&[-0.0, 0.0], &[2]))), 0.0f32.to_bits());
    assert_eq!(bits(b.sum_dim(&t(&[-0.0], &[1]), 0)), 0.0f32.to_bits());
}

#[test]
fn concatenation_skips_operands_without_extent() {
    let b = cpu();
    let x = t(&[1.0, 2.0, 3.0, 4.0], &[2, 2]);
    let none = t(&[], &[0]);
    assert_eq!(vals(b.concat(&[&x, &none], 0)), vec![1.0, 2.0, 3.0, 4.0]);
    assert!(b.concat(&[&x, &none], 1).is_err());
    assert!(b.concat(&[&x, &t(&[5.0], &[1])], 0).is_err());
}

#[test]
fn buffers_without_a_shape_are_left_out() {
    let (x, y) = (words(&[1.0, 2.0]), words(&[3.0]));
    let mut out = vec![0; 2];
    let r = cpu().execute_slices(&OpOf::Step, &[&x, &y], &[shape(&[2])], &mut out, &shape(&[2]));
    assert!(r.is_ok());
    assert_eq!(floats(&out), vec![1.0, 1.0]);
}

#[test]
fn gradients_look_at_the_first_axes() {
    let b = cpu();
    let x = ramp(&[1, 1, 3, 3]);
    let w = ramp(&[1, 1, 2, 2]);
    let dy = ramp(&[1, 1, 2, 2]);
    let deep_x = ramp(&[1, 1, 3, 3, 1]);
    let deep_w = ramp(&[1, 1, 2, 2, 1]);
    let deep_dy = ramp(&[1, 1, 2, 2, 1]);
    for op in [
        OpOf::Conv2dGradX { stride: 1, padding: 0 },
        OpOf::Conv2dGradW { stride: 1, padding: 0 },
    ] {
        let flat = b.execute(&op, &[&x, &w, &dy]).unwrap();
        let deep = b.execute(&op, &[&deep_x, &deep_w, &deep_dy]).unwrap();
        assert_eq!(flat.data(), deep.data());
        assert_eq!(deep.shape.dims.len(), 5);
    }
    let pool = OpOf::MaxPool2dGrad { pool_size: 2, stride: 1, padding: 0 };
    let flat = b.execute(&pool, &[&dy, &x]).unwrap();
    let deep = b.execute(&pool, &[&deep_dy, &deep_x]).unwrap();
    assert_eq!(flat.data(), deep.data());
    let pool = OpOf::AvgPool2dGrad { pool_size: 2, stride: 1, padding: 0 };
    let flat = b.execute(&pool, &[&dy, &x]).unwrap();
    let deep = b.execute(&pool, &[&deep_dy, &deep_x]).unwrap();
    assert_eq!(flat.data(), deep.data());
    let sums = b.execute(&OpOf::Conv2dGradB, &[&ramp(&[1, 2, 1, 2, 2])]).unwrap();
    let two = b.execute(&OpOf::Conv2dGradB, &[&ramp(&[1, 2, 1, 2])]).unwrap();
    assert_eq!(sums.data(), two.data());
    assert!(b.execute(&OpOf::Conv2dGradB, &[&ramp(&[1, 2, 1])]).is_err());
}

#[test]
fn weights_that_no_window_reaches_may_be_missing() {
    let b = cpu();
    let op = OpOf::Conv2d { stride: 1, padding: 1 };
    let x = t(&[3.0], &[1, 1, 1, 1]);
    let w = t(&[], &[2, 0, 3, 3]);
    assert!(b.execute(&op, &[&x, &w]).is_err());
    let none = t(&[], &[0, 1, 1, 1]);
    let y = b.execute(&op, &[&none, &w]).unwrap();
    assert_eq!(y.shape.dims, vec![0, 2, 1, 1]);
    let bias = t(&[1.0], &[1]);
    assert!(b.execute(&op, &[&none, &w, &bias]).is_ok());
}

#[test]
fn gradients_of_nothing_are_zero() {
    let b = cpu();
    let x = ramp(&[2, 2]);
    let nothing = t(&[], &[0]);
    let op = OpOf::SliceGrad { axis: 7, start: 0, end: 0 };
    let g = b.execute(&op, &[&x, &nothing]).unwrap();
    assert_eq!(floats(g.data()), vec![0.0, 0.0, 0.0, 0.0]);
    let op = OpOf::SliceGrad { axis: 1, start: 1, end: 2 };
    let dy = t(&[5.0, 6.0], &[2, 1, 1]);
    let g = b.execute(&op, &[&x, &dy]).unwrap();
    assert_eq!(floats(g.data()), vec![0.0, 5.0, 0.0, 6.0]);
    let op = OpOf::LayerNormGradX { epsilon: 0 };
    let empty = t(&[], &[0, 4]);
    let g = b.execute(&op, &[&empty, &nothing, &nothing]).unwrap();
    assert_eq!(g.shape.dims, vec![0, 4]);
}

#[test]
fn attention_gradients_look_at_three_axes() {
    let b = cpu();
    let flat = ramp(&[1, 2, 2]);
    let deep = ramp(&[1, 2, 2, 1]);
    let op = OpOf::AttentionGradQ { scale: 1.0f32.to_bits() };
    let a = b.execute(&op, &[&flat, &flat, &flat, &flat]).unwrap();
    let c = b.execute(&op, &[&deep, &deep, &deep, &deep]).unwrap();
    assert_eq!(a.data(), c.data());
    assert_eq!(c.shape.dims, vec![1, 2, 2, 1]);
}

#[test]
fn slices_undo_concatenations() {
    let b = cpu();
    let parts = [ramp(&[2, 1, 3]), ramp(&[2, 4, 3]), ramp(&[2, 0, 3]), ramp(&[2, 2, 3])];
    let refs: Vec<&Tensor> = parts.iter().collect();
    let whole = b.execute(&OpOf::Concat { axis: 1 }, &refs).unwrap();
    assert_eq!(whole.shape.dims, vec![2, 7, 3]);
    let mut start = 0;
    for p in &parts {
        let end = start + p.shape.dims[1];
        let cut = b.execute(&OpOf::Slice { axis: 1, start, end }, &[&whole]).unwrap();
        assert_eq!(cut.shape.dims, p.shape.dims);
        assert_eq!(cut.data(), p.data());
        start = end;
    }
}

#[test]
fn causal_attention_does_not_look_ahead() {
    let b = cpu();
    let op = OpOf::CausalAttention { scale: 0.5f32.to_bits(), num_heads: 2 };
    let x = ramp(&[2, 3, 4]);
    let mut later = floats(x.data());
    for (e, v) in later.iter_mut().enumerate() {
        if (e / 4) % 3 == 2 {
            *v += 10.0;
        }
    }
    let y = t(&later, &[2, 3, 4]);
    let one = b.execute(&op, &[&x, &x, &x]).unwrap();
    let two = b.execute(&op, &[&y, &y, &y]).unwrap();
    assert_eq!(one.shape.dims, vec![2, 3, 4]);
    for e in 0..24 {
        if (e / 4) % 3 < 2 {
            assert_eq!(one.data()[e], two.data()[e]);
        }
        if (e / 4) % 3 == 0 {
            assert_eq!(num(one.data()[e]), num(x.data()[e]));
        }
    }
    assert_ne!(one.data(), two.data());
}
