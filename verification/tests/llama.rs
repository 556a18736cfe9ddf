use aether::float::Float;
use aether::llama::attend::Heads;
use aether::llama::logits::{argmax, max_diff, top_k};
use aether::llama::model::{tiny_llama, Layer, Llama, LlamaDims, Weight};
use aether::llama::quant::{decode_d, dequant_q6k_one_block};
use aether::llama::steps::rope_tables;
use aether::llama::store::{
    gguf_f32, gguf_usize, read_model, stated_sizes, tensor_name, GGUFValue,
};
use aether::named::Named;

/// The host's arithmetic.
struct Host;

fn num(b: u32) -> f32 {
    f32::from_bits(b)
}

impl Float for Host {
    fn plus(&self, a: u32, b: u32) -> u32 {
        (num(a) + num(b)).to_bits()
    }
    fn minus(&self, a: u32, b: u32) -> u32 {
        (num(a) - num(b)).to_bits()
    }
    fn times(&self, a: u32, b: u32) -> u32 {
        (num(a) * num(b)).to_bits()
    }
    fn over(&self, a: u32, b: u32) -> u32 {
        (num(a) / num(b)).to_bits()
    }
    fn exp(&self, a: u32) -> u32 {
        num(a).exp().to_bits()
    }
    fn tanh(&self, a: u32) -> u32 {
        num(a).tanh().to_bits()
    }
    fn sqrt(&self, a: u32) -> u32 {
        num(a).sqrt().to_bits()
    }
    fn square(&self, a: u32) -> u32 {
        num(a).powi(2).to_bits()
    }
    fn from_count(&self, n: usize) -> u32 {
        (n as f32).to_bits()
    }
    fn from_whole(&self, n: i32) -> u32 {
        (n as f32).to_bits()
    }
    fn from_double(&self, bits: u64) -> u32 {
        (f64::from_bits(bits) as f32).to_bits()
    }
    fn dot(&self, m: usize, k: usize, n: usize, a: &Vec<u32>, b: &Vec<u32>) -> Vec<u32> {
        let x: Vec<f32> = a.iter().map(|v| num(*v)).collect();
        let y: Vec<f32> = b.iter().map(|v| num(*v)).collect();
        let l = ndarray::ArrayView2::from_shape((m, k), &x).unwrap();
        let r = ndarray::ArrayView2::from_shape((k, n), &y).unwrap();
        l.dot(&r).iter().map(|v| v.to_bits()).collect()
    }
    fn to_half(&self, a: u32) -> u16 {
        half::f16::from_f32(num(a)).to_bits()
    }
    fn from_half(&self, h: u16) -> u32 {
        half::f16::from_bits(h).to_f32().to_bits()
    }
    fn round_brain(&self, a: u32) -> u32 {
        half::bf16::from_f32(num(a)).to_f32().to_bits()
    }
    fn mul_add(&self, a: u32, b: u32, c: u32) -> u32 {
        num(a).mul_add(num(b), num(c)).to_bits()
    }
    fn pow(&self, a: u32, b: u32) -> u32 {
        num(a).powf(num(b)).to_bits()
    }
    fn sin(&self, a: u32) -> u32 {
        num(a).sin().to_bits()
    }
    fn cos(&self, a: u32) -> u32 {
        num(a).cos().to_bits()
    }
    fn stored_product(&self, matrix: usize, x: &Vec<u32>) -> Vec<u32> {
        x.iter().map(|v| (num(*v) * matrix as f32).to_bits()).collect()
    }
}

fn words(v: &[f32]) -> Vec<u32> {
    v.iter().map(|x| x.to_bits()).collect()
}

fn floats(v: &[u32]) -> Vec<f32> {
    v.iter().map(|x| num(*x)).collect()
}

fn ramp(n: usize, scale: f32) -> Vec<f32> {
    (0..n).map(|i| ((i * 7 % 11) as f32 - 5.0) * scale).collect()
}

const D: usize = 4;
const NH: usize = 2;
const NKV: usize = 1;
const HD: usize = 2;
const DFF: usize = 3;
const VOCAB: usize = 5;
const EPS: f32 = 1e-5;

fn dims() -> LlamaDims {
    LlamaDims {
        heads: Heads { queries: NH, keys: NKV, width: HD },
        inner: DFF,
        vocab: VOCAB,
        eps: EPS.to_bits(),
        base: 10000.0f32.to_bits(),
    }
}

fn tensors() -> Named<Weight> {
    let mut t: Named<Weight> = Named::new();
    let mut put = |name: String, v: Vec<f32>| t.insert(name, Weight::Plain(words(&v)));
    put("token_embd.weight".to_owned(), ramp(VOCAB * D, 0.1));
    put("output_norm.weight".to_owned(), ramp(D, 0.3));
    put("output.weight".to_owned(), ramp(D * VOCAB, 0.2));
    for l in 0..2 {
        let s = 0.05 * (l + 1) as f32;
        put(tensor_name(l, "attn_norm.weight"), ramp(D, 0.5));
        put(tensor_name(l, "ffn_norm.weight"), ramp(D, 0.4));
        put(tensor_name(l, "attn_q.weight"), ramp(D * D, s));
        put(tensor_name(l, "attn_k.weight"), ramp(D * NKV * HD, s));
        put(tensor_name(l, "attn_v.weight"), ramp(D * NKV * HD, s * 2.0));
        put(tensor_name(l, "attn_output.weight"), ramp(D * D, s * 3.0));
        put(tensor_name(l, "ffn_gate.weight"), ramp(D * DFF, s));
        put(tensor_name(l, "ffn_up.weight"), ramp(D * DFF, s * 2.0));
        put(tensor_name(l, "ffn_down.weight"), ramp(DFF * D, s));
    }
    t
}

fn rms(x: &[f32], w: &[f32]) -> Vec<f32> {
    let mut ss = 0.0f32;
    for v in x {
        ss += v * v;
    }
    let r = (ss / x.len() as f32 + EPS).sqrt();
    x.iter().zip(w).map(|(a, b)| a / r * b).collect()
}

fn mat(a: &[f32], b: &[f32], n: usize) -> Vec<f32> {
    let mut c = vec![0.0f32; n];
    for i in 0..a.len() {
        if a[i] != 0.0 {
            for j in 0..n {
                c[j] = a[i].mul_add(b[i * n + j], c[j]);
            }
        }
    }
    c
}

fn rope(x: &mut [f32], nh: usize, pos: usize) {
    let h = HD / 2;
    for hh in 0..nh {
        for i in 0..h {
            let t = (pos as f32) * 10000.0f32.powf(-2.0 * i as f32 / HD as f32);
            let (s, c) = (t.sin(), t.cos());
            let (x0, x1) = (x[hh * HD + i], x[hh * HD + i + h]);
            x[hh * HD + i] = x0 * c - x1 * s;
            x[hh * HD + i + h] = x0 * s + x1 * c;
        }
    }
}

fn attention(q: &[Vec<f32>], k: &[Vec<f32>], v: &[Vec<f32>]) -> Vec<Vec<f32>> {
    let n = q.len();
    let scale = 1.0 / (HD as f32).sqrt();
    let mut out = vec![vec![0.0f32; NH * HD]; n];
    for h in 0..NH {
        let kv = h / (NH / NKV);
        for i in 0..n {
            let mut sr = vec![f32::NEG_INFINITY; n];
            for j in 0..=i {
                let mut dot = 0.0f32;
                for d in 0..HD {
                    dot += q[i][h * HD + d] * k[j][kv * HD + d];
                }
                sr[j] = dot * scale;
            }
            let top = sr.iter().cloned().fold(f32::NEG_INFINITY, f32::max);
            let mut sum = 0.0f32;
            for s in sr.iter_mut() {
                if *s > f32::NEG_INFINITY {
                    *s = (*s - top).exp();
                    sum += *s;
                }
            }
            for s in sr.iter_mut() {
                if *s > 0.0 {
                    *s /= sum;
                }
            }
            for j in 0..=i {
                for d in 0..HD {
                    out[i][h * HD + d] += sr[j] * v[j][kv * HD + d];
                }
            }
        }
    }
    out
}

fn reference(t: &Named<Weight>, tokens: &[u32]) -> (Vec<f32>, Vec<Vec<f32>>) {
    let get = |name: &str| match t.get(name) {
        Some(Weight::Plain(v)) => floats(v),
        _ => panic!("{}", name),
    };
    let emb = get("token_embd.weight");
    let mut x: Vec<Vec<f32>> =
        tokens.iter().map(|t| emb[*t as usize * D..(*t as usize + 1) * D].to_vec()).collect();
    for l in 0..2 {
        let w = |part: &str| get(&format!("blk.{}.{}", l, part));
        let y: Vec<Vec<f32>> = x.iter().map(|r| rms(r, &w("attn_norm.weight"))).collect();
        let mut q: Vec<Vec<f32>> = y.iter().map(|r| mat(r, &w("attn_q.weight"), D)).collect();
        let mut k: Vec<Vec<f32>> =
            y.iter().map(|r| mat(r, &w("attn_k.weight"), NKV * HD)).collect();
        let v: Vec<Vec<f32>> = y.iter().map(|r| mat(r, &w("attn_v.weight"), NKV * HD)).collect();
        for (i, r) in q.iter_mut().enumerate() {
            rope(r, NH, i);
        }
        for (i, r) in k.iter_mut().enumerate() {
            rope(r, NKV, i);
        }
        let a = attention(&q, &k, &v);
        for i in 0..x.len() {
            let o = mat(&a[i], &w("attn_output.weight"), D);
            for j in 0..D {
                x[i][j] += o[j];
            }
        }
        for i in 0..x.len() {
            let z = rms(&x[i], &w("ffn_norm.weight"));
            let mut g = mat(&z, &w("ffn_gate.weight"), DFF);
            let u = mat(&z, &w("ffn_up.weight"), DFF);
            for j in 0..DFF {
                g[j] = g[j] * (1.0 / (1.0 + (-g[j]).exp())) * u[j];
            }
            let m = mat(&g, &w("ffn_down.weight"), D);
            for j in 0..D {
                x[i][j] += m[j];
            }
        }
    }
    let last = rms(&x[x.len() - 1], &get("output_norm.weight"));
    (mat(&last, &get("output.weight"), VOCAB), x)
}

#[test]
fn prefill_computes_the_formulas() {
    let t = tensors();
    let model = read_model(&t, dims(), 2).unwrap();
    let tokens = vec![1u32, 4, 0, 3];
    let (logits, rows) = model.prefill(&Host, &tokens).unwrap();
    let (want, want_rows) = reference(&t, &tokens);
    assert_eq!(floats(&logits), want);
    let got: Vec<Vec<f32>> = rows.iter().map(|r| floats(r)).collect();
    assert_eq!(got, want_rows);
}

#[test]
fn rows_do_not_see_later_tokens() {
    let model = read_model(&tensors(), dims(), 2).unwrap();
    let (_, a) = model.prefill(&Host, &vec![1, 4, 0, 3]).unwrap();
    let (_, b) = model.prefill(&Host, &vec![1, 4, 2, 2]).unwrap();
    assert_eq!(a[0], b[0]);
    assert_eq!(a[1], b[1]);
    assert_ne!(a[2], b[2]);
}

#[test]
fn models_need_all_their_tensors() {
    let t = tensors();
    assert!(read_model(&t, dims(), 3).is_none());
    assert!(read_model(&Named::new(), dims(), 0).is_none());
    let mut stored = tensors();
    stored.insert(tensor_name(0, "attn_norm.weight"), Weight::Stored(1));
    assert!(read_model(&stored, dims(), 2).is_none());
}

#[test]
fn stored_products_are_checked() {
    let one = || Weight::Stored(1);
    let layer = Layer {
        attn_norm: words(&[1.0, 1.0]),
        q: one(),
        k: one(),
        v: one(),
        output: one(),
        ffn_norm: words(&[1.0, 1.0]),
        gate: one(),
        up: one(),
        down: one(),
    };
    let model = |vocab: usize| Llama {
        dims: LlamaDims {
            heads: Heads { queries: 1, keys: 1, width: 2 },
            inner: 2,
            vocab,
            eps: 0,
            base: 10000.0f32.to_bits(),
        },
        embed: words(&[3.0, 4.0]),
        layers: vec![],
        output_norm: words(&[1.0, 1.0]),
        output: Weight::Stored(2),
    };
    let (logits, _) = model(2).prefill(&Host, &vec![0]).unwrap();
    let r = 12.5f32.sqrt();
    assert_eq!(floats(&logits), vec![3.0 / r * 2.0, 4.0 / r * 2.0]);
    assert!(model(3).prefill(&Host, &vec![0]).is_none());
    let mut with_layer = model(2);
    with_layer.layers.push(layer);
    assert!(with_layer.prefill(&Host, &vec![0, 0]).is_some());
}

#[test]
fn angles_turn_with_the_position() {
    let (s, c) = rope_tables(&Host, 3, 4, 10000.0f32.to_bits());
    assert_eq!((s.len(), s[0].len()), (3, 2));
    assert_eq!(floats(&s[0]), vec![0.0, 0.0]);
    assert_eq!(floats(&c[0]), vec![1.0, 1.0]);
    assert_eq!(num(s[2][1]), (2.0 * 10000.0f32.powf(-0.5)).sin());
    assert_eq!(num(c[2][0]), 2.0f32.cos());
}

#[test]
fn tensors_of_layers_have_names() {
    assert_eq!(tensor_name(21, "attn_q.weight"), "blk.21.attn_q.weight");
    let d = tiny_llama();
    assert_eq!(d.heads.queries * d.heads.width, 2048);
    assert_eq!(num(d.eps), 1e-5);
    assert_eq!(num(d.base), 10000.0);
}

#[test]
fn metadata_is_read_by_type() {
    let mut m: Named<GGUFValue> = Named::new();
    m.insert("a".to_owned(), GGUFValue::Uint32(7));
    m.insert("b".to_owned(), GGUFValue::Int64(-1));
    m.insert("c".to_owned(), GGUFValue::Float32(1.5f32.to_bits()));
    m.insert("d".to_owned(), GGUFValue::Float64(2.5f64.to_bits()));
    m.insert("e".to_owned(), GGUFValue::Other);
    m.insert("a".to_owned(), GGUFValue::Uint64(8));
    m.insert("f".to_owned(), GGUFValue::Int32(3));
    assert_eq!(gguf_usize(&m, "a"), Some(8));
    assert_eq!(gguf_usize(&m, "b"), Some(usize::MAX));
    assert_eq!(gguf_usize(&m, "c"), None);
    assert_eq!(gguf_usize(&m, "f"), Some(3));
    assert_eq!(gguf_usize(&m, "none"), None);
    assert_eq!(gguf_f32(&Host, &m, "c"), Some(1.5f32.to_bits()));
    assert_eq!(gguf_f32(&Host, &m, "d"), Some(2.5f32.to_bits()));
    assert_eq!(gguf_f32(&Host, &m, "e"), None);
    let (h, inner) = stated_sizes(&m).unwrap();
    assert_eq!((h.queries, h.keys, h.width, inner), (32, 4, 64, 5632));
    m.insert("llama.attention.head_count".to_owned(), GGUFValue::Uint32(0));
    assert!(stated_sizes(&m).is_none());
}

#[test]
fn the_last_of_the_largest_scores_wins() {
    assert_eq!(argmax(&words(&[1.0, 3.0, 2.0, 3.0])), 3);
    assert_eq!(argmax(&words(&[-1.0, -2.0])), 0);
    assert_eq!(argmax(&vec![]), 0);
    assert_eq!(argmax(&words(&[1.0, f32::NAN])), 1);
}

#[test]
fn the_top_scores_come_in_falling_order() {
    let v = words(&[0.5, 2.0, -1.0, 3.0, 2.5]);
    let top: Vec<(usize, f32)> = top_k(&v, 3).iter().map(|s| (s.place, num(s.score))).collect();
    assert_eq!(top, vec![(3, 3.0), (4, 2.5), (1, 2.0)]);
    assert_eq!(top_k(&v, 9).len(), 5);
    assert_eq!(num(max_diff(&Host, &words(&[1.0, 5.0]), &words(&[2.0, 2.0, 9.0]))), 3.0);
    assert_eq!(max_diff(&Host, &vec![], &v), 0);
}

#[test]
fn blocks_of_six_bits_are_unpacked() {
    let mut data: Vec<u8> = (0..213u32).map(|i| (i * 37 % 251) as u8).collect();
    let bo = 3;
    let d = half::f16::from_f32(0.125).to_bits().to_le_bytes();
    data[bo + 208] = d[0];
    data[bo + 209] = d[1];
    let ql = &data[bo..bo + 128];
    let qh = &data[bo + 128..bo + 192];
    let sc = &data[bo + 192..bo + 208];
    let mut want = vec![0.0f32; 256];
    for h in 0..2 {
        for l in 0..32 {
            let is = l / 16;
            let a = ql[h * 64 + l] as u32;
            let b = ql[h * 64 + l + 32] as u32;
            let q = qh[h * 32 + l] as u32;
            let vals = [
                (a & 0x0F) | ((q & 0x03) << 4),
                (b & 0x0F) | ((q & 0x0C) << 2),
                (a >> 4) | (q & 0x30),
                (b >> 4) | ((q & 0xC0) >> 2),
            ];
            for (k, v) in vals.iter().enumerate() {
                let s = sc[h * 8 + is + 2 * k] as i8 as f32;
                want[h * 128 + l + 32 * k] = 0.125 * s * (*v as i32 - 32) as f32;
            }
        }
    }
    assert_eq!(floats(&dequant_q6k_one_block(&Host, &data, bo)), want);
}

#[test]
fn scales_that_are_no_numbers_are_read_as_bits() {
    assert_eq!(num(decode_d(&Host, 0x00, 0x3c)), 1.0);
    assert_eq!(num(decode_d(&Host, 0x00, 0x7c)), 0x7c00 as f32 / 65536.0);
    assert_eq!(num(decode_d(&Host, 0x01, 0x7e)), 0x7e01 as f32 / 65536.0);
}

#[test]
fn models_are_held_against_their_sizes() {
    let m = read_model(&tensors(), dims(), 2).unwrap();
    assert!(m.check());
    assert!(m.reads(&vec![0, 1]));
    assert!(!m.reads(&vec![]));
    assert!(!m.reads(&vec![0; 513]));
    assert!(m.reads(&vec![0; 512]));
    assert!(!m.reads(&vec![u32::MAX]));
    let mut short = tensors();
    short.insert(tensor_name(1, "ffn_norm.weight"), Weight::Plain(vec![]));
    assert!(!read_model(&short, dims(), 2).unwrap().check());
    let mut thin = tensors();
    thin.insert("output.weight".to_string(), Weight::Plain(words(&[1.0])));
    assert!(!read_model(&thin, dims(), 2).unwrap().check());
    let odd = LlamaDims { heads: Heads { queries: 3, keys: 2, width: 2 }, ..dims() };
    assert!(!read_model(&tensors(), odd, 2).unwrap().check());
    assert!(Weight::Plain(vec![0; 6]).holds(2, 3));
    assert!(!Weight::Plain(vec![0; 6]).holds(2, 4));
    assert!(!Weight::Plain(vec![0; 6]).holds(usize::MAX, 2));
    assert!(Weight::Stored(1).holds(usize::MAX, 2));
}

#[test]
fn a_single_score_is_not_compared() {
    let top = top_k(&words(&[f32::NAN]), 3);
    assert_eq!(top.len(), 1);
    assert_eq!(top[0].place, 0);
    assert!(num(top[0].score).is_nan());
    assert!(top_k(&words(&[1.0]), 0).is_empty());
    assert!(top_k(&vec![], 2).is_empty());
}
