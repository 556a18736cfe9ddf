//! Code generation for fused elementwise computations.

use crate::codegen::ast::{given_by, lemma_renders_more, renders, Expr, ScalarText};
use crate::shape::Shape;
use crate::text::{decimal, push_decimal};
use vstd::prelude::*;
use vstd::string::*;

pub mod ast;
pub mod cache;
pub mod keys;

verus! {

/// What a fused kernel computes.
#[derive(Debug)]
pub struct WgslKernelBuilder {
    pub num_inputs: usize,
    pub output_shape: Shape,
    pub input_shapes: Vec<Shape>,
    pub expr: Expr,
}

/// The uniform block of a broadcast kernel: element count and number of axes,
/// then the output's extents and the strides of both inputs.
#[derive(Debug, Clone, Copy)]
pub struct BroadcastParams {
    pub info: [u32; 4],
    pub output_shape: [u32; 4],
    pub stride_0: [u32; 4],
    pub stride_1: [u32; 4],
}

/// The declaration of input buffer `i`.
pub open spec fn input_line(i: nat) -> Seq<char> {
    "@group(0) @binding("@ + decimal(i) + ") var<storage, read> in"@ + decimal(i)
        + ": array<f32>;\n"@
}

/// The declarations of the first `n` input buffers.
pub open spec fn input_lines(n: nat) -> Seq<char>
    decreases n,
{
    if n == 0 {
        Seq::empty()
    } else {
        input_lines((n - 1) as nat) + input_line((n - 1) as nat)
    }
}

/// The declaration of the output buffer behind `n` inputs.
pub open spec fn output_line(n: nat) -> Seq<char> {
    "@group(0) @binding("@ + decimal(n) + ") var<storage, read_write> out: array<f32>;\n"@
}

/// The declaration of the element count behind `n` inputs and the output.
pub open spec fn count_line(n: nat) -> Seq<char> {
    "@group(0) @binding("@ + decimal(n + 1) + ") var<uniform> num_elements: u32;\n\n"@
}

/// The declaration of the broadcast parameters behind `n` inputs and the
/// output.
pub open spec fn params_lines(n: nat) -> Seq<char> {
    "struct BroadcastParams {\n\tinfo: vec4<u32>,\n\toutput_shape: vec4<u32>,\n\tstride_0: vec4<u32>,\n\tstride_1: vec4<u32>,\n};\n\n@group(0) @binding("@
        + decimal(n + 1) + ") var<uniform> params: BroadcastParams;\n\n"@
}

/// The head of an elementwise kernel's entry point.
pub open spec fn elementwise_head() -> Seq<char> {
    "@compute @workgroup_size(256)\nfn main(@builtin(global_invocation_id) global_id: vec3<u32>) {\n\tlet global_idx = global_id.x;\n\tif (global_idx >= num_elements) { return; }\n\tout[global_idx] = "@
}

/// The head of a broadcast kernel's entry point.
pub open spec fn broadcast_head() -> Seq<char> {
    "@compute @workgroup_size(256)\nfn main(@builtin(global_invocation_id) global_id: vec3<u32>) {\n\tlet global_idx = global_id.x;\n\tif (global_idx >= params.info[0]) { return; }\n\n\tlet c3 = global_idx % params.output_shape[3];\n\tlet c2 = (global_idx / params.output_shape[3]) % params.output_shape[2];\n\tlet c1 = (global_idx / (params.output_shape[2] * params.output_shape[3])) % params.output_shape[1];\n\tlet c0 = global_idx / (params.output_shape[1] * params.output_shape[2] * params.output_shape[3]);\n\n"@
}

/// Where input `i` is read in a broadcast kernel.
pub open spec fn index_line(i: nat) -> Seq<char> {
    "\tlet input_idx_"@ + decimal(i) + " = (c0 * params.stride_"@ + decimal(i)
        + "[0]) + (c1 * params.stride_"@ + decimal(i) + "[1]) + (c2 * params.stride_"@ + decimal(i)
        + "[2]) + (c3 * params.stride_"@ + decimal(i) + "[3]);\n"@
}

/// Where the first `n` inputs are read in a broadcast kernel.
pub open spec fn index_lines(n: nat) -> Seq<char>
    decreases n,
{
    if n == 0 {
        Seq::empty()
    } else {
        index_lines((n - 1) as nat) + index_line((n - 1) as nat)
    }
}

/// Input `i` at the position of the output.
pub open spec fn elementwise_name(i: nat) -> Seq<char> {
    "in"@ + decimal(i) + "[global_idx]"@
}

/// Input `i` at its own position.
pub open spec fn broadcast_name(i: nat) -> Seq<char> {
    "in"@ + decimal(i) + "[input_idx_"@ + decimal(i) + "]"@
}

/// The one text of an input in an elementwise kernel.
pub open spec fn elementwise_names() -> spec_fn(usize, Seq<char>) -> bool {
    |i: usize, s: Seq<char>| s == elementwise_name(i as nat)
}

/// The one text of an input in a broadcast kernel.
pub open spec fn broadcast_names() -> spec_fn(usize, Seq<char>) -> bool {
    |i: usize, s: Seq<char>| s == broadcast_name(i as nat)
}

/// An elementwise kernel whose expression has the text `x`.
pub open spec fn elementwise_kernel(n: nat, x: Seq<char>) -> Seq<char> {
    input_lines(n) + output_line(n) + count_line(n) + elementwise_head() + x + ";\n}\n"@
}

/// A broadcast kernel whose expression has the text `x`.
pub open spec fn broadcast_kernel(n: nat, x: Seq<char>) -> Seq<char> {
    input_lines(n) + output_line(n) + params_lines(n) + broadcast_head() + index_lines(n)
        + "\n\tout[global_idx] = "@ + x + ";\n}\n"@
}

/// Appends the declarations of `n` input buffers and of the output buffer.
fn push_buffers(s: &mut String, n: usize)
    ensures
        final(s)@ == old(s)@ + input_lines(n as nat) + output_line(n as nat),
{
    let ghost start = s@;
    proof {
        assert(start + input_lines(0) =~= start);
    }
    for i in 0..n
        invariant
            s@ == start + input_lines(i as nat),
    {
        s.append("@group(0) @binding(");
        push_decimal(s, i as u64);
        s.append(") var<storage, read> in");
        push_decimal(s, i as u64);
        s.append(": array<f32>;\n");
        proof {
            assert(s@ =~= start + input_lines((i + 1) as nat));
        }
    }
    s.append("@group(0) @binding(");
    push_decimal(s, n as u64);
    s.append(") var<storage, read_write> out: array<f32>;\n");
    proof {
        assert(s@ =~= start + input_lines(n as nat) + output_line(n as nat));
    }
}

/// Input `i` at the position of the output.
fn elementwise_name_text(i: usize) -> (s: String)
    ensures
        s@ == elementwise_name(i as nat),
{
    let mut s = String::from_str("in");
    push_decimal(&mut s, i as u64);
    s.append("[global_idx]");
    s
}

/// Input `i` at its own position.
fn broadcast_name_text(i: usize) -> (s: String)
    ensures
        s@ == broadcast_name(i as nat),
{
    let mut s = String::from_str("in");
    push_decimal(&mut s, i as u64);
    s.append("[input_idx_");
    push_decimal(&mut s, i as u64);
    s.append("]");
    s
}

impl WgslKernelBuilder {
    /// The shader of a kernel whose inputs all have the shape of the output.
    pub fn build_elementwise<T: ScalarText>(&self, t: &T) -> (s: String)
        requires
            self.num_inputs < usize::MAX,
        ensures
            exists|x: Seq<char>| #[trigger]
                renders(*t, elementwise_names(), self.expr, x) && s@ == elementwise_kernel(
                    self.num_inputs as nat,
                    x,
                ),
    {
        let n: usize = self.num_inputs;
        let mut s = String::new();
        push_buffers(&mut s, n);
        s.append("@group(0) @binding(");
        push_decimal(&mut s, (n + 1) as u64);
        s.append(") var<uniform> num_elements: u32;\n\n");
        let indexer = |i: usize| -> (x: String)
            ensures
                x@ == elementwise_name(i as nat),
            { elementwise_name_text(i) };
        let text = self.expr.to_wgsl(t, &indexer);
        proof {
            lemma_renders_more(*t, given_by(&indexer), elementwise_names(), self.expr, text@);
        }
        s.append(
            "@compute @workgroup_size(256)\nfn main(@builtin(global_invocation_id) global_id: vec3<u32>) {\n\tlet global_idx = global_id.x;\n\tif (global_idx >= num_elements) { return; }\n\tout[global_idx] = ",
        );
        s.append(text.as_str());
        s.append(";\n}\n");
        proof {
            assert(s@ =~= elementwise_kernel(n as nat, text@));
        }
        s
    }

    /// The shader of a kernel that broadcasts its inputs.
    pub fn build_broadcast<T: ScalarText>(&self, t: &T) -> (s: String)
        requires
            self.num_inputs < usize::MAX,
        ensures
            exists|x: Seq<char>| #[trigger]
                renders(*t, broadcast_names(), self.expr, x) && s@ == broadcast_kernel(
                    self.num_inputs as nat,
                    x,
                ),
    {
        let n: usize = self.num_inputs;
        let mut s = String::new();
        push_buffers(&mut s, n);
        s.append(
            "struct BroadcastParams {\n\tinfo: vec4<u32>,\n\toutput_shape: vec4<u32>,\n\tstride_0: vec4<u32>,\n\tstride_1: vec4<u32>,\n};\n\n@group(0) @binding(",
        );
        push_decimal(&mut s, (n + 1) as u64);
        s.append(") var<uniform> params: BroadcastParams;\n\n");
        let indexer = |i: usize| -> (x: String)
            ensures
                x@ == broadcast_name(i as nat),
            { broadcast_name_text(i) };
        let text = self.expr.to_wgsl(t, &indexer);
        proof {
            lemma_renders_more(*t, given_by(&indexer), broadcast_names(), self.expr, text@);
        }
        s.append(
            "@compute @workgroup_size(256)\nfn main(@builtin(global_invocation_id) global_id: vec3<u32>) {\n\tlet global_idx = global_id.x;\n\tif (global_idx >= params.info[0]) { return; }\n\n\tlet c3 = global_idx % params.output_shape[3];\n\tlet c2 = (global_idx / params.output_shape[3]) % params.output_shape[2];\n\tlet c1 = (global_idx / (params.output_shape[2] * params.output_shape[3])) % params.output_shape[1];\n\tlet c0 = global_idx / (params.output_shape[1] * params.output_shape[2] * params.output_shape[3]);\n\n",
        );
        let ghost start = s@;
        proof {
            assert(start + index_lines(0) =~= start);
        }
        for i in 0..n
            invariant
                s@ == start + index_lines(i as nat),
        {
            s.append("\tlet input_idx_");
            push_decimal(&mut s, i as u64);
            s.append(" = (c0 * params.stride_");
            push_decimal(&mut s, i as u64);
            s.append("[0]) + (c1 * params.stride_");
            push_decimal(&mut s, i as u64);
            s.append("[1]) + (c2 * params.stride_");
            push_decimal(&mut s, i as u64);
            s.append("[2]) + (c3 * params.stride_");
            push_decimal(&mut s, i as u64);
            s.append("[3]);\n");
            proof {
                assert(s@ =~= start + index_lines((i + 1) as nat));
            }
        }
        s.append("\n\tout[global_idx] = ");
        s.append(text.as_str());
        s.append(";\n}\n");
        proof {
            assert(s@ =~= broadcast_kernel(n as nat, text@));
        }
        s
    }
}

} // verus!
