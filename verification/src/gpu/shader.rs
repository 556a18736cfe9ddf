//! Shader text that depends on sizes.

use crate::text::{decimal, law_decimal_injective, push_decimal};
use vstd::prelude::*;
use vstd::string::*;

verus! {

/// The text of the attention kernel before the length of its score buffer.
pub const ATTENTION_HEAD: &'static str = "
        struct AttentionParams {
            n_tokens: u32,
            n_heads: u32,
            n_kv_heads: u32,
            head_dim: u32,
            seq_len: u32,
            kv_groups: u32,
            scale: f32,
            cache_offset: u32,
        }

        @group(0) @binding(0) var<storage, read> q: array<f32>;
        @group(0) @binding(1) var<storage, read> k_cache: array<f32>;
        @group(0) @binding(2) var<storage, read> v_cache: array<f32>;
        @group(0) @binding(3) var<storage, read_write> output: array<f32>;
        @group(0) @binding(4) var<uniform> params: AttentionParams;

        var<workgroup> shared_q: array<f32, 128>;
        var<workgroup> shared_partial: array<f32, 128>;
        var<workgroup> shared_scores: array<f32, ";

/// The text of the attention kernel behind the length of its score buffer.
pub const ATTENTION_TAIL: &'static str = ">;

        @compute @workgroup_size(128)
        fn main(
            @builtin(local_invocation_id) lid: vec3<u32>,
            @builtin(workgroup_id) wgid: vec3<u32>,
        ) {
            let token_idx = wgid.x;
            let head_idx = wgid.y;

            if (token_idx >= params.n_tokens || head_idx >= params.n_heads) {
                return;
            }

            let kv_head_idx = head_idx / params.kv_groups;
            let dim = lid.x;
            let hd = params.head_dim;
            let seq = params.seq_len;
            let pos_stride = params.n_kv_heads * hd;
            let cache_base = params.cache_offset;

            // 1. Load Q vector into shared memory
            let q_base = token_idx * params.n_heads * hd + head_idx * hd;
            if (dim < hd) {
                shared_q[dim] = q[q_base + dim];
            }
            workgroupBarrier();

            // Causal position: cache_offset is the absolute sequence position
            // of the first token in the current batch. For decode (1 token),
            // cache_offset = pos, token_idx = 0 → causal_pos = pos, attending
            // to all seq positions. For prefill batch, each token at batch
            // index t attends to positions 0..=(cache_offset + t).
            let causal_pos = cache_base + token_idx;

            // 2. Compute Q·K scores for each KV position
            var i = 0u;
            while (i < seq && i <= causal_pos) {
                let k_idx = i * pos_stride + kv_head_idx * hd + dim;
                if (dim < hd) {
                    shared_partial[dim] = shared_q[dim] * k_cache[k_idx];
                } else {
                    shared_partial[dim] = 0.0;
                }
                workgroupBarrier();

                // Tree reduction: sum partial products (128 → 64 → ... → 1)
                var offset = 64u;
                while (offset > 0u) {
                    if (dim < offset) {
                        shared_partial[dim] += shared_partial[dim + offset];
                    }
                    workgroupBarrier();
                    offset /= 2u;
                }

                if (dim == 0u) {
                    shared_scores[i] = shared_partial[0] * params.scale;
                }
                workgroupBarrier();

                i++;
            }

            // 3. Softmax: distributed across all 128 threads via tree reduction
            // Each thread processes a strided chunk of shared_scores
            var local_max: f32 = -3.402823e+38;
            var j = dim;
            while (j < seq && j <= causal_pos) {
                let s = shared_scores[j];
                if (s > local_max) { local_max = s; }
                j += 128u;
            }
            shared_partial[dim] = local_max;
            workgroupBarrier();

            // Tree reduction: find global max
            var offset = 64u;
            while (offset > 0u) {
                if (dim < offset) {
                    let other = shared_partial[dim + offset];
                    if (other > shared_partial[dim]) {
                        shared_partial[dim] = other;
                    }
                }
                workgroupBarrier();
                offset /= 2u;
            }
            let max_val = shared_partial[0];
            workgroupBarrier();

            // Compute exp and partial sum
            var local_sum = 0.0;
            j = dim;
            while (j < seq && j <= causal_pos) {
                let e = exp(shared_scores[j] - max_val);
                shared_scores[j] = e;
                local_sum += e;
                j += 128u;
            }
            shared_partial[dim] = local_sum;
            workgroupBarrier();

            // Tree reduction: sum
            offset = 64u;
            while (offset > 0u) {
                if (dim < offset) {
                    shared_partial[dim] += shared_partial[dim + offset];
                }
                workgroupBarrier();
                offset /= 2u;
            }
            let sum_val = shared_partial[0];
            let inv_sum = select(1.0 / sum_val, 0.0, sum_val == 0.0);
            workgroupBarrier();

            // Normalize
            j = dim;
            while (j < seq && j <= causal_pos) {
                shared_scores[j] = shared_scores[j] * inv_sum;
                j += 128u;
            }
            workgroupBarrier();

            // 4. Weighted sum of V values
            var output_val = 0.0;
            for (var p = 0u; p < seq && p <= causal_pos; p++) {
                let v_idx = p * pos_stride + kv_head_idx * hd + dim;
                if (dim < hd) {
                    output_val += shared_scores[p] * v_cache[v_idx];
                }
            }

            // 5. Write output
            if (dim < hd) {
                let out_base = token_idx * params.n_heads * hd + head_idx * hd;
                output[out_base + dim] = output_val;
            }
        }
    ";

/// The attention kernel for at most `max_seq` positions.
pub open spec fn attention_shader(max_seq: nat) -> Seq<char> {
    ATTENTION_HEAD@ + decimal(max_seq) + ATTENTION_TAIL@
}

/// The shader of the attention kernel for at most `max_seq` positions.
pub fn attention_shader_src(max_seq: u32) -> (s: String)
    ensures
        s@ == attention_shader(max_seq as nat),
{
    let mut s = String::from_str(ATTENTION_HEAD);
    push_decimal(&mut s, max_seq as u64);
    s.append(ATTENTION_TAIL);
    s
}

/// The cache key of the attention kernel for at most `max_seq` positions.
pub open spec fn attention_cache_key(max_seq: nat) -> Seq<char> {
    "attention_pipeline_"@ + decimal(max_seq)
}

/// Kernels for different lengths have different cache keys.
pub proof fn law_attention_keys_differ(a: nat, b: nat)
    requires
        attention_cache_key(a) == attention_cache_key(b),
    ensures
        a == b,
{
    let head = "attention_pipeline_"@;
    let n = head.len() as int;
    assert(attention_cache_key(a).skip(n) =~= decimal(a));
    assert(attention_cache_key(b).skip(n) =~= decimal(b));
    law_decimal_injective(a, b);
}

/// The cache key of the attention kernel for at most `max_seq` positions.
pub fn attention_key(max_seq: u32) -> (s: String)
    ensures
        s@ == attention_cache_key(max_seq as nat),
{
    let mut s = String::from_str("attention_pipeline_");
    push_decimal(&mut s, max_seq as u64);
    s
}

} // verus!
