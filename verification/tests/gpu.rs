use aether::codegen::ast::{Expr, ScalarText};
use aether::error::Error;
use aether::gpu::data::{pad_to_words, plan_concat, plan_conv2d, plan_dequantize};
use aether::gpu::plan::{
    div_up, plan_add, plan_attention, plan_batched_matmul, plan_batched_transpose, plan_fused,
    plan_matmul, plan_relu, plan_rope, plan_rows, plan_silu_mul, plan_sum_all, plan_sum_dim,
    plan_transpose, small, Kernel,
};
use aether::gpu::select::{gpu_step, GpuStep};
use aether::gpu::shader::{attention_key, attention_shader_src};
use aether::float::{eq, gt, max, min, nan, neg, relu, step};
use aether::op::OpOf;
use aether::shape::{
    broadcast_shapes, checked_numel, get_strides, ravel_index, unravel, Shape,
};
use aether::tensor::{Dtype, Tensor};
use aether::text::{push_bracketed, push_decimal, push_hex, same_text, strip_prefix};

struct Texts;

impl ScalarText for Texts {
    fn debug(&self, b: u32) -> String {
        format!("{:?}", f32::from_bits(b))
    }
    fn display(&self, b: u32) -> String {
        format!("{}", f32::from_bits(b))
    }
}

fn shape(dims: &[usize]) -> Shape {
    Shape::new(dims.to_vec())
}

fn tensor(dims: &[usize]) -> Tensor {
    let n: usize = dims.iter().product();
    Tensor::new(vec![0; n], shape(dims))
}

#[test]
fn groups_cover_all_items() {
    assert_eq!(div_up(0, 256), 0);
    assert_eq!(div_up(1, 256), 1);
    assert_eq!(div_up(256, 256), 1);
    assert_eq!(div_up(257, 256), 2);
    assert_eq!(div_up(u32::MAX, 256), 16777216);
    assert_eq!(small(usize::MAX), None);
    assert_eq!(small(7), Some(7));
}

#[test]
fn launches_have_parameters_and_groups() {
    let d = plan_relu(1000).unwrap();
    assert_eq!((d.kernel, d.groups, d.output), (Kernel::Relu, (4, 1, 1), 1000));
    let d = plan_add(1).unwrap();
    assert_eq!((d.kernel, d.groups, d.output), (Kernel::Add, (1, 1, 1), 1));
    let d = plan_sum_all();
    assert_eq!((d.kernel, d.output), (Kernel::SumAll, 1));
    let d = plan_transpose(3, 5).unwrap();
    assert_eq!((d.kernel, d.output), (Kernel::Transpose, 15));
    assert_eq!(d.params[..2], [3, 5]);
    assert!(plan_silu_mul(2, 3).is_some());
    assert!(plan_silu_mul(u32::MAX, 2).is_none());
    assert!(plan_rope(1, 2, 4, 0).is_some());
    assert!(plan_attention(1, 2, 1, 4, 8, 0x3f00_0000, 0).is_some());
    assert_eq!(plan_batched_matmul(2, 3, 4, 5).unwrap().output, 24);
    assert_eq!(plan_batched_transpose(2, 3, 4).unwrap().output, 24);
}

#[test]
fn small_products_use_one_thread_per_entry() {
    assert_eq!(plan_matmul(1, 64, 64).unwrap().kernel, Kernel::TinyMatMul);
    assert_eq!(plan_matmul(64, 64, 64).unwrap().kernel, Kernel::MatMul);
}

#[test]
fn sums_along_an_axis() {
    let d = plan_sum_dim(&vec![2, 3, 4], 1).unwrap();
    assert_eq!((d.kernel, d.output), (Kernel::SumDim, 8));
    assert!(plan_sum_dim(&vec![2, 3], 2).is_none());
    let d = plan_rows(Kernel::Softmax, &vec![4, 8], &vec![]).unwrap();
    assert_eq!((d.kernel, d.output), (Kernel::Softmax, 32));
}

#[test]
fn fused_kernels_are_told_how_to_broadcast() {
    let same = plan_fused(&vec![shape(&[2, 3]), shape(&[2, 3])], &shape(&[2, 3])).unwrap();
    assert_eq!((same.kernel, same.params.clone()), (Kernel::Elementwise, vec![6]));
    let d = plan_fused(&vec![shape(&[2, 3]), shape(&[3])], &shape(&[2, 3])).unwrap();
    assert_eq!(d.kernel, Kernel::Broadcast);
    assert_eq!(
        d.params,
        vec![6, 2, 0, 0, 1, 1, 2, 3, 0, 0, 3, 1, 0, 0, 0, 1]
    );
    assert!(plan_fused(&vec![shape(&[1])], &shape(&[1, 1, 1, 1, 2])).is_none());
}

#[test]
fn data_moves() {
    let steps = plan_concat(&vec![shape(&[2, 3]), shape(&[2, 1])], 1, &shape(&[2, 4])).unwrap();
    assert_eq!(steps.len(), 2);
    assert_eq!(steps[0].params[..4], [3, 4, 1, 0]);
    assert_eq!(steps[1].params[..4], [1, 4, 1, 3]);
    let c = plan_conv2d(&shape(&[1, 2, 5, 5]), &shape(&[3, 2, 3, 3]), 1, 0).unwrap();
    assert_eq!((c.kernel, c.output), (Kernel::Conv2d, 27));
    let q = plan_dequantize(Dtype::Q4_K, &vec![2, 256]).unwrap().unwrap();
    assert_eq!((q.kernel, q.groups.0, q.output), (Kernel::DequantQ4_K, 2, 512));
    assert!(matches!(
        plan_dequantize(Dtype::F16, &vec![1]),
        Err(Error::ExecutionError(m)) if m == "Unsupported GPU dequantization dtype: F16"
    ));
    assert_eq!(pad_to_words(&vec![1, 2, 3, 4, 5]), vec![1, 2, 3, 4, 5, 0, 0, 0]);
    assert_eq!(pad_to_words(&vec![1, 2, 3, 4]), vec![1, 2, 3, 4]);
}

#[test]
fn uniform_blocks_are_words_in_memory() {
    let d = plan_transpose(3, 258).unwrap();
    let bytes = d.uniform_bytes();
    let want: Vec<u8> = d.params.iter().flat_map(|w| w.to_ne_bytes()).collect();
    assert_eq!(bytes, want);
    assert_eq!(bytes.len(), 4 * d.params.len());
}

#[test]
fn the_device_is_told_what_to_do() {
    let x = tensor(&[2, 3]);
    let y = tensor(&[3, 4]);
    match gpu_step(&Texts, &OpOf::MatMul, &[&x, &y]).unwrap() {
        GpuStep::Run { dispatch, operands, shape } => {
            assert_eq!((operands, shape.dims, dispatch.output), (2, vec![2, 4], 8));
        }
        other => panic!("{:?}", other),
    }
    match gpu_step(&Texts, &OpOf::Relu, &[&x]).unwrap() {
        GpuStep::Fused { expr, dispatch, shape } => {
            assert!(matches!(expr, Expr::Relu(_)));
            assert_eq!((dispatch.output, shape.dims), (6, vec![2, 3]));
        }
        other => panic!("{:?}", other),
    }
    match gpu_step(&Texts, &OpOf::Input(tensor(&[1])), &[]).unwrap() {
        GpuStep::Ready(t) => assert_eq!(t.shape.dims, vec![1]),
        other => panic!("{:?}", other),
    }
    match gpu_step(&Texts, &OpOf::Transpose, &[&tensor(&[2, 3, 4])]).unwrap() {
        GpuStep::Run { dispatch, operands, shape } => {
            assert_eq!((operands, shape.dims, dispatch.output), (1, vec![3, 2], 6));
            assert_eq!(dispatch.params[..2], [2, 3]);
        }
        other => panic!("{:?}", other),
    }
    assert!(gpu_step(&Texts, &OpOf::Transpose, &[&tensor(&[2])]).is_err());
    assert!(gpu_step(&Texts, &OpOf::MatMul, &[&x, &x]).is_err());
    match gpu_step(&Texts, &OpOf::Conv2dGradB, &[&x]) {
        Err(Error::ExecutionError(m)) => assert!(m.contains("Conv2dGradB")),
        other => panic!("{:?}", other),
    }
}

#[test]
fn attention_kernels_are_keyed_by_length() {
    assert_eq!(attention_key(512), "attention_pipeline_512");
    assert_ne!(attention_key(51), attention_key(512));
    let src = attention_shader_src(640);
    assert!(src.contains("640"));
    assert_ne!(src, attention_shader_src(64));
}

#[test]
fn places_and_coordinates_belong_together() {
    let dims = vec![2, 3, 4];
    let strides = get_strides(&dims);
    assert_eq!(strides, vec![12, 4, 1]);
    assert_eq!(get_strides(&vec![usize::MAX, 3, 4]), vec![12, 4, 1]);
    assert_eq!(get_strides(&vec![]), vec![]);
    for i in 0..24 {
        assert_eq!(ravel_index(&unravel(i, &dims), &dims, &strides), i);
    }
    assert_eq!(unravel(17, &dims), vec![1, 1, 1]);
    assert_eq!(checked_numel(&vec![usize::MAX, 2]), None);
    assert_eq!(checked_numel(&vec![]), Some(1));
    assert_eq!(broadcast_shapes(&vec![2, 1], &vec![3]), Some(vec![2, 3]));
    assert_eq!(broadcast_shapes(&vec![2], &vec![3]), None);
}

#[test]
fn bits_are_ordered_as_numbers() {
    let b = |x: f32| x.to_bits();
    let list = [0.0f32, -0.0, 1.0, -1.0, f32::INFINITY, f32::NEG_INFINITY, 1e-40, f32::NAN];
    for x in list {
        for y in list {
            assert_eq!(gt(b(x), b(y)), x > y);
            assert_eq!(eq(b(x), b(y)), x == y);
            if x != y && !x.is_nan() && !y.is_nan() {
                assert_eq!(max(b(x), b(y)), b(x.max(y)));
                assert_eq!(min(b(x), b(y)), b(x.min(y)));
            }
        }
        assert_eq!(nan(b(x)), x.is_nan());
        assert_eq!(neg(neg(b(x))), b(x));
        assert_eq!(relu(relu(b(x))), relu(b(x)));
        assert_eq!(f32::from_bits(step(b(x))), if x >= 0.0 { 1.0 } else { 0.0 });
    }
    assert_eq!(max(b(f32::NAN), b(2.0)), b(2.0));
    assert_eq!(min(b(2.0), b(f32::NAN)), b(2.0));
}

#[test]
fn texts_are_built_character_by_character() {
    let mut s = String::new();
    push_decimal(&mut s, 1203);
    push_hex(&mut s, 0xbeef, 6);
    push_bracketed(&mut s, &vec![2, 30]);
    push_bracketed(&mut s, &vec![]);
    assert_eq!(s, "120300beef[2, 30][]");
    assert!(same_text("ab", "ab"));
    assert!(!same_text("ab", "ac"));
    assert_eq!(strip_prefix("Bearer x", "Bearer "), Some("x"));
    assert_eq!(strip_prefix("B", "Bearer "), None);
}

/// The coordinates that a shader computes from four extents.
fn coordinates(out: &[u32], g: u32) -> [u32; 4] {
    [
        g / (out[1] * out[2] * out[3]),
        (g / (out[2] * out[3])) % out[1],
        (g / out[3]) % out[2],
        g % out[3],
    ]
}

fn position(c: [u32; 4], strides: &[u32]) -> u32 {
    c[0] * strides[0] + c[1] * strides[1] + c[2] * strides[2] + c[3] * strides[3]
}

#[test]
fn broadcast_shaders_read_their_operands() {
    let d = plan_fused(&vec![shape(&[2, 1]), shape(&[3])], &shape(&[2, 3])).unwrap();
    assert_eq!(d.kernel, Kernel::Broadcast);
    let read = |first: usize| -> Vec<u32> {
        (0..6)
            .map(|g| position(coordinates(&d.params[4..8], g), &d.params[first..first + 4]))
            .collect()
    };
    assert_eq!(read(8), vec![0, 0, 0, 1, 1, 1]);
    assert_eq!(read(12), vec![0, 1, 2, 0, 1, 2]);
}

#[test]
fn concatenation_shaders_write_every_place_once() {
    let steps = plan_concat(&vec![shape(&[2, 3]), shape(&[2, 1])], 1, &shape(&[2, 4])).unwrap();
    let targets = |t: usize| -> Vec<u32> {
        let p = &steps[t].params;
        (0..p[4])
            .map(|i| (i / p[0]) * p[1] + (p[3] + (i % p[0]) / p[2]) * p[2] + (i % p[0]) % p[2])
            .collect()
    };
    assert_eq!(targets(0), vec![0, 1, 2, 4, 5, 6]);
    assert_eq!(targets(1), vec![3, 7]);
}

#[test]
fn sum_shaders_read_their_elements() {
    let d = plan_sum_dim(&vec![2, 3, 4], 1).unwrap();
    let read = |j: u32| -> Vec<u32> {
        (0..3)
            .map(|k| {
                let mut c = coordinates(&d.params[4..8], j);
                c[d.params[2] as usize] = k;
                position(c, &d.params[12..16])
            })
            .collect()
    };
    assert_eq!(read(0), vec![0, 4, 8]);
    assert_eq!(read(3), vec![3, 7, 11]);
    assert_eq!(read(5), vec![13, 17, 21]);
}
