//! Named values of a model file: its metadata and its tensors.

use crate::float::Float;
use crate::llama::attend::Heads;
use crate::llama::model::{Layer, Llama, LlamaDims, Weight, WeightView};
use crate::named::Named;
use crate::text::{decimal, push_decimal};
use vstd::prelude::*;
use vstd::string::*;

verus! {

/// A value of a model file's metadata.
#[derive(Debug, Clone, Copy)]
pub enum GGUFValue {
    Uint32(u32),
    Uint64(u64),
    Int32(i32),
    Int64(i64),
    /// A single-precision number, as bits.
    Float32(u32),
    /// A double-precision number, as bits.
    Float64(u64),
    /// Anything that is not a number.
    Other,
}

/// The whole number that a value says, wrapped into a machine number.
pub open spec fn whole_value(v: Option<GGUFValue>) -> Option<usize> {
    match v {
        Some(GGUFValue::Uint32(n)) => Some(n as usize),
        Some(GGUFValue::Uint64(n)) => Some(n as usize),
        Some(GGUFValue::Int32(n)) => Some(n as usize),
        Some(GGUFValue::Int64(n)) => Some(n as usize),
        _ => None,
    }
}

/// The whole number under a key.
pub fn gguf_usize(meta: &Named<GGUFValue>, key: &str) -> (r: Option<usize>)
    requires
        meta.wf(),
    ensures
        r == whole_value(meta.value(key@)),
{
    match meta.get(key) {
        Some(GGUFValue::Uint32(n)) => Some(*n as usize),
        Some(GGUFValue::Uint64(n)) => Some(#[verifier::truncate] (*n as usize)),
        Some(GGUFValue::Int32(n)) => Some(#[verifier::truncate] (*n as usize)),
        Some(GGUFValue::Int64(n)) => Some(#[verifier::truncate] (*n as usize)),
        _ => None,
    }
}

/// The single-precision number under a key.
pub fn gguf_f32<F: Float>(f: &F, meta: &Named<GGUFValue>, key: &str) -> (r: Option<u32>)
    requires
        meta.wf(),
    ensures
        match meta.value(key@) {
            Some(GGUFValue::Float32(b)) => r == Some(b),
            Some(GGUFValue::Float64(b)) => r is Some && call_ensures(
                F::from_double,
                (f, b),
                r->Some_0,
            ),
            _ => r is None,
        },
{
    match meta.get(key) {
        Some(GGUFValue::Float32(b)) => Some(*b),
        Some(GGUFValue::Float64(b)) => Some(f.from_double(*b)),
        _ => None,
    }
}

/// The value, or another where there is none.
pub open spec fn or_else(v: Option<usize>, other: usize) -> usize {
    match v {
        Some(n) => n,
        None => other,
    }
}

fn value_or(v: Option<usize>, other: usize) -> (n: usize)
    ensures
        n == or_else(v, other),
{
    match v {
        Some(n) => n,
        None => other,
    }
}

/// The sizes that a model file states; what it leaves out is as in TinyLlama.
/// There are none where it states that there are no heads.
pub fn stated_sizes(meta: &Named<GGUFValue>) -> (r: Option<(Heads, usize)>)
    requires
        meta.wf(),
    ensures
        ({
            let model = or_else(whole_value(meta.value("llama.embedding_length"@)), 2048);
            let heads = or_else(whole_value(meta.value("llama.attention.head_count"@)), 32);
            let keys = or_else(whole_value(meta.value("llama.attention.head_count_kv"@)), 4);
            let inner = or_else(whole_value(meta.value("llama.feed_forward_length"@)), 5632);
            match r {
                Some((h, n)) => heads != 0 && h.queries == heads && h.keys == keys && h.width
                    == model as int / heads as int && n == inner,
                None => heads == 0,
            }
        }),
{
    let model: usize = value_or(gguf_usize(meta, "llama.embedding_length"), 2048);
    let queries: usize = value_or(gguf_usize(meta, "llama.attention.head_count"), 32);
    let keys: usize = value_or(gguf_usize(meta, "llama.attention.head_count_kv"), 4);
    let inner: usize = value_or(gguf_usize(meta, "llama.feed_forward_length"), 5632);
    if queries == 0 {
        return None;
    }
    Some((Heads { queries, keys, width: model / queries }, inner))
}

/// The name of a tensor of a layer.
pub open spec fn layer_name(layer: nat, part: Seq<char>) -> Seq<char> {
    "blk."@ + decimal(layer) + "."@ + part
}

/// The name of a tensor of a layer.
pub fn tensor_name(layer: usize, part: &str) -> (s: String)
    ensures
        s@ == layer_name(layer as nat, part@),
{
    let mut s = String::from_str("blk.");
    push_decimal(&mut s, layer as u64);
    s.append(".");
    s.append(part);
    s
}

impl Weight {
    /// The same weights again.
    pub fn copy(&self) -> (w: Weight)
        ensures
            w@ == self@,
    {
        match self {
            Weight::Plain(v) => {
                let c = v.clone();
                proof {
                    assert(c@ =~= v@);
                }
                Weight::Plain(c)
            },
            Weight::Stored(id) => Weight::Stored(*id),
        }
    }
}

/// The weights under a name.
pub open spec fn weights(tensors: &Named<Weight>, name: Seq<char>) -> Option<WeightView> {
    match tensors.value(name) {
        Some(w) => Some(w@),
        None => None,
    }
}

/// The numbers under a name; stored weights are not numbers.
pub open spec fn numbers_under(tensors: &Named<Weight>, name: Seq<char>) -> Option<Seq<u32>> {
    match weights(tensors, name) {
        Some(WeightView::Plain(v)) => Some(v),
        _ => None,
    }
}

fn take_weights(tensors: &Named<Weight>, name: &str) -> (w: Option<Weight>)
    requires
        tensors.wf(),
    ensures
        match w {
            Some(x) => weights(tensors, name@) == Some(x@),
            None => weights(tensors, name@) is None,
        },
{
    match tensors.get(name) {
        Some(w) => Some(w.copy()),
        None => None,
    }
}

fn take_numbers(tensors: &Named<Weight>, name: &str) -> (v: Option<Vec<u32>>)
    requires
        tensors.wf(),
    ensures
        match v {
            Some(x) => numbers_under(tensors, name@) == Some(x@),
            None => numbers_under(tensors, name@) is None,
        },
{
    match take_weights(tensors, name) {
        Some(Weight::Plain(v)) => Some(v),
        _ => None,
    }
}

/// The weights of a layer are those under its names.
pub open spec fn layer_of(tensors: &Named<Weight>, n: nat, l: Layer) -> bool {
    &&& numbers_under(tensors, layer_name(n, "attn_norm.weight"@)) == Some(l.attn_norm@)
    &&& numbers_under(tensors, layer_name(n, "ffn_norm.weight"@)) == Some(l.ffn_norm@)
    &&& weights(tensors, layer_name(n, "attn_q.weight"@)) == Some(l.q@)
    &&& weights(tensors, layer_name(n, "attn_k.weight"@)) == Some(l.k@)
    &&& weights(tensors, layer_name(n, "attn_v.weight"@)) == Some(l.v@)
    &&& weights(tensors, layer_name(n, "attn_output.weight"@)) == Some(l.output@)
    &&& weights(tensors, layer_name(n, "ffn_gate.weight"@)) == Some(l.gate@)
    &&& weights(tensors, layer_name(n, "ffn_up.weight"@)) == Some(l.up@)
    &&& weights(tensors, layer_name(n, "ffn_down.weight"@)) == Some(l.down@)
}

/// All weights of a layer are there.
pub open spec fn has_layer(tensors: &Named<Weight>, n: nat) -> bool {
    &&& numbers_under(tensors, layer_name(n, "attn_norm.weight"@)) is Some
    &&& numbers_under(tensors, layer_name(n, "ffn_norm.weight"@)) is Some
    &&& weights(tensors, layer_name(n, "attn_q.weight"@)) is Some
    &&& weights(tensors, layer_name(n, "attn_k.weight"@)) is Some
    &&& weights(tensors, layer_name(n, "attn_v.weight"@)) is Some
    &&& weights(tensors, layer_name(n, "attn_output.weight"@)) is Some
    &&& weights(tensors, layer_name(n, "ffn_gate.weight"@)) is Some
    &&& weights(tensors, layer_name(n, "ffn_up.weight"@)) is Some
    &&& weights(tensors, layer_name(n, "ffn_down.weight"@)) is Some
}

/// All weights of a model with `n` layers are there.
pub open spec fn has_model(tensors: &Named<Weight>, n: nat) -> bool {
    &&& numbers_under(tensors, "token_embd.weight"@) is Some
    &&& numbers_under(tensors, "output_norm.weight"@) is Some
    &&& weights(tensors, "output.weight"@) is Some
    &&& forall|l: nat| l < n ==> #[trigger] has_layer(tensors, l)
}

/// A layer from the tensors under its names.
pub fn read_layer(tensors: &Named<Weight>, n: usize) -> (r: Option<Layer>)
    requires
        tensors.wf(),
    ensures
        match r {
            Some(l) => layer_of(tensors, n as nat, l),
            None => !has_layer(tensors, n as nat),
        },
{
    let attn_norm = match take_numbers(tensors, tensor_name(n, "attn_norm.weight").as_str()) {
        Some(v) => v,
        None => {
            return None;
        },
    };
    let ffn_norm = match take_numbers(tensors, tensor_name(n, "ffn_norm.weight").as_str()) {
        Some(v) => v,
        None => {
            return None;
        },
    };
    let q = match take_weights(tensors, tensor_name(n, "attn_q.weight").as_str()) {
        Some(v) => v,
        None => {
            return None;
        },
    };
    let k = match take_weights(tensors, tensor_name(n, "attn_k.weight").as_str()) {
        Some(v) => v,
        None => {
            return None;
        },
    };
    let v = match take_weights(tensors, tensor_name(n, "attn_v.weight").as_str()) {
        Some(v) => v,
        None => {
            return None;
        },
    };
    let output = match take_weights(tensors, tensor_name(n, "attn_output.weight").as_str()) {
        Some(v) => v,
        None => {
            return None;
        },
    };
    let gate = match take_weights(tensors, tensor_name(n, "ffn_gate.weight").as_str()) {
        Some(v) => v,
        None => {
            return None;
        },
    };
    let up = match take_weights(tensors, tensor_name(n, "ffn_up.weight").as_str()) {
        Some(v) => v,
        None => {
            return None;
        },
    };
    let down = match take_weights(tensors, tensor_name(n, "ffn_down.weight").as_str()) {
        Some(v) => v,
        None => {
            return None;
        },
    };
    Some(Layer { attn_norm, q, k, v, output, ffn_norm, gate, up, down })
}

/// A model with `n` layers from its tensors. There is none where one is
/// missing, or where the embedding or a norm is not given as numbers.
pub fn read_model(tensors: &Named<Weight>, dims: LlamaDims, n: usize) -> (r: Option<Llama>)
    requires
        tensors.wf(),
    ensures
        match r {
            Some(m) => {
                &&& m.dims == dims
                &&& numbers_under(tensors, "token_embd.weight"@) == Some(m.embed@)
                &&& numbers_under(tensors, "output_norm.weight"@) == Some(m.output_norm@)
                &&& weights(tensors, "output.weight"@) == Some(m.output@)
                &&& m.layers@.len() == n
                &&& forall|l: int|
                    0 <= l < n ==> layer_of(tensors, l as nat, #[trigger] m.layers@[l])
            },
            None => !has_model(tensors, n as nat),
        },
{
    let embed = match take_numbers(tensors, "token_embd.weight") {
        Some(v) => v,
        None => {
            return None;
        },
    };
    let output_norm = match take_numbers(tensors, "output_norm.weight") {
        Some(v) => v,
        None => {
            return None;
        },
    };
    let output = match take_weights(tensors, "output.weight") {
        Some(v) => v,
        None => {
            return None;
        },
    };
    let mut layers: Vec<Layer> = Vec::new();
    for l in 0..n
        invariant
            tensors.wf(),
            layers@.len() == l,
            forall|j: int| 0 <= j < l ==> layer_of(tensors, j as nat, #[trigger] layers@[j]),
    {
        match read_layer(tensors, l) {
            Some(x) => layers.push(x),
            None => {
                return None;
            },
        }
    }
    Some(Llama { dims, embed, layers, output_norm, output })
}

} // verus!
