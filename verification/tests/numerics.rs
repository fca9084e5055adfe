//! Evaluates tensor descriptions on the CPU and compares them with direct computations.

use std::collections::HashMap;
use std::sync::Arc;

use xn::models::kv_cache::{IndicesAndMask, ScatteredCacheBuilder, ScatteredKvCache};
use xn::streaming::StreamMask;
use xn::{CpuDevice, CPU};
use xn_moshi::checkpoint::{Checkpoint, Entry, Format, Weights};
use xn_moshi::conv::{
    get_extra_padding_for_conv1d, pad1d, unpad1d, ConvDownsample1d, ConvTrUpsample1d, Norm,
    PadMode, StreamableConv1d, StreamableConvTranspose1d,
};
use xn_moshi::error::Error;
use xn_moshi::kv_cache::CachePositions;
use xn_moshi::list::List;
use xn_moshi::lm::LayerMixer;
use xn_moshi::quantization::{
    EuclideanCodebook, ResidualVectorQuantization, SplitResidualVectorQuantizer,
};
use xn_moshi::sampling::gumbel_max;
use xn_moshi::seanet::{Activation, Config as SeaNetConfig, SeaNetDecoder, SeaNetEncoder};
use xn_moshi::shape::Shape;
use xn_moshi::tensor::{BinaryOp, CachePart, Op, Scalar, Tensor as Term, UnaryOp};
use xn_moshi::transformer::{
    BatchedTransformer, BatchedTransformerState, Config as TransformerConfig, PositionalEmbedding,
};
use xn_moshi::transformer_with_ca::{CaSrc, Transformer};
use xn_moshi::NormType;

type T = xn::Tensor<f32, CpuDevice>;
type I = xn::Tensor<i64, CpuDevice>;

#[derive(Clone)]
enum Value {
    F(T),
    I(I),
}

impl Value {
    fn f(&self) -> T {
        match self {
            Value::F(t) => t.clone(),
            Value::I(_) => panic!("integers"),
        }
    }
    fn i(&self) -> I {
        match self {
            Value::I(t) => t.clone(),
            Value::F(_) => panic!("floats"),
        }
    }
}

fn items<A: Clone>(l: &List<A>) -> Vec<A> {
    let mut out = vec![];
    let mut cur = l;
    while let List::Cons(x, rest) = cur {
        out.push(x.clone());
        cur = rest;
    }
    out
}

/// Weights whose values follow from their name and index, of the shapes that a model asks for.
struct Bench {
    checkpoint: Checkpoint,
    inputs: Vec<Value>,
    builder: Option<ScatteredCacheBuilder<CpuDevice>>,
    caches: Vec<ScatteredKvCache<f32, CpuDevice>>,
    iam: Option<IndicesAndMask<f32, CpuDevice>>,
    memo: HashMap<usize, Value>,
    appended: HashMap<usize, (T, T)>,
    kept: Vec<Term>,
    given: HashMap<usize, Vec<f32>>,
}

fn noise(seed: usize, n: usize) -> Vec<f32> {
    let mut s = seed as u64 * 7919 + 13;
    (0..n)
        .map(|_| {
            s = s.wrapping_mul(6364136223846793005).wrapping_add(1442695040888963407);
            ((s >> 40) as f32 / (1u64 << 24) as f32) - 0.5
        })
        .collect()
}

impl Bench {
    fn new(entries: &[(&str, &[usize])]) -> Bench {
        let entries = entries
            .iter()
            .map(|(name, dims)| Entry {
                name: name.to_string(),
                shape: Shape::from_dims(&dims.to_vec()),
            })
            .collect();
        Bench {
            checkpoint: Checkpoint { format: Format::Safetensors, entries },
            inputs: vec![],
            builder: None,
            caches: vec![],
            iam: None,
            memo: HashMap::new(),
            appended: HashMap::new(),
            kept: vec![],
            given: HashMap::new(),
        }
    }

    fn input(&mut self, data: Vec<f32>, dims: &[usize]) -> Term {
        let t: T = xn::Tensor::from_vec(data, dims.to_vec(), &CPU).unwrap();
        self.inputs.push(Value::F(t));
        Term::input(self.inputs.len() - 1, Shape::from_dims(&dims.to_vec())).unwrap()
    }

    fn weight(&self, i: usize, dims: &[usize]) -> T {
        let n: usize = dims.iter().product();
        let mut data = match self.given.get(&i) {
            Some(data) => data.clone(),
            None => noise(i + 100, n),
        };
        if self.checkpoint.entries[i].name.ends_with("cluster_usage") {
            data.iter_mut().for_each(|v| *v = v.abs() + 1.0);
        }
        xn::Tensor::from_vec(data, dims.to_vec(), &CPU).unwrap()
    }

    fn f(&mut self, t: &Term) -> T {
        self.eval(t).f()
    }

    fn eval(&mut self, t: &Term) -> Value {
        let key = Arc::as_ptr(&t.0) as usize;
        if let Some(v) = self.memo.get(&key) {
            return v.clone();
        }
        let v = self.compute(t);
        match &v {
            Value::F(x) => assert_eq!(x.dims().to_vec(), t.shape().to_vec(), "{:?}", t.shape()),
            Value::I(x) => assert_eq!(x.dims().to_vec(), t.shape().to_vec(), "{:?}", t.shape()),
        }
        self.memo.insert(key, v.clone());
        self.kept.push(t.clone());
        v
    }

    fn opt(&mut self, t: &Option<Term>) -> Option<T> {
        t.as_ref().map(|t| self.f(t))
    }

    fn compute(&mut self, t: &Term) -> Value {
        let dims = t.shape().to_vec();
        let r = match &t.0.op {
            Op::Weight(i) => Ok(self.weight(*i, &dims)),
            Op::Input(i) => return self.inputs[*i].clone(),
            Op::Full(bits) => xn::Tensor::full(f32::from_bits(*bits), dims, &CPU),
            Op::Zeros => xn::Tensor::zeros(dims, &CPU),
            Op::Ids(l) => return Value::I(xn::Tensor::from_vec(items(l), dims, &CPU).unwrap()),
            Op::InvFreq(period) => {
                let half = dims[2];
                let p = f64::from_bits(*period) as f32;
                let f: Vec<f32> = (0..half).map(|i| 1.0 / p.powf(i as f32 / half as f32)).collect();
                xn::Tensor::from_vec(f, dims, &CPU)
            }
            Op::SinFreq(_) | Op::Steps => panic!("not used here"),
            Op::CacheMask { .. } => Ok(self.iam.as_ref().unwrap().mask().clone()),
            Op::Cached { slot, part, keys, values, .. } => {
                if !self.appended.contains_key(slot) {
                    let (k, v) = (self.f(keys), self.f(values));
                    let iam = self.iam.clone().unwrap();
                    let kv = self.caches[*slot].append(&k, &v, &iam).unwrap();
                    self.appended.insert(*slot, kv);
                }
                let (k, v) = &self.appended[slot];
                Ok(if *part == CachePart::Keys { k.clone() } else { v.clone() })
            }
            Op::Unary(op, x) => {
                let x = match self.eval(x) {
                    Value::I(x) => x.to::<f32>().unwrap(),
                    Value::F(x) => x,
                };
                match op {
                    UnaryOp::Cos => x.cos(),
                    UnaryOp::Sin => x.sin(),
                    UnaryOp::Neg => x.neg(),
                    UnaryOp::Log => x.log(),
                    UnaryOp::Sqr => x.sqr(),
                    UnaryOp::Sqrt => x.sqrt(),
                    UnaryOp::GeluErf => x.gelu_erf(),
                    UnaryOp::Relu => x.relu(),
                    UnaryOp::Silu => x.silu(),
                    UnaryOp::Tanh => x.tanh(),
                    UnaryOp::Sigmoid => x.sigmoid(),
                    UnaryOp::Elu(a) => x.elu(f32::from_bits(*a)),
                    UnaryOp::Scale(Scalar::Const(c)) => x.scale(f32::from_bits(*c)),
                    UnaryOp::Scale(Scalar::InvSqrt(n)) => x.scale(1.0 / (*n as f32).sqrt()),
                    UnaryOp::ToSingle | UnaryOp::ToModel => Ok(x),
                    UnaryOp::UniformLike(lo, up) => {
                        x.rand_uniform_like(f32::from_bits(*lo), f32::from_bits(*up))
                    }
                }
            }
            Op::Binary(op, a, b) => {
                let (a, b) = (self.f(a), self.f(b));
                match op {
                    BinaryOp::Add => a.add(&b),
                    BinaryOp::Sub => a.sub(&b),
                    BinaryOp::Mul => a.mul(&b),
                    BinaryOp::Div => a.div(&b),
                    BinaryOp::Maximum => a.maximum(&b),
                }
            }
            Op::Broadcast(op, a, b) => {
                let (a, b) = (self.f(a), self.f(b));
                match op {
                    BinaryOp::Add => a.broadcast_add(&b),
                    BinaryOp::Sub => a.broadcast_sub(&b),
                    BinaryOp::Mul => a.broadcast_mul(&b),
                    BinaryOp::Div => a.broadcast_div(&b),
                    BinaryOp::Maximum => a.broadcast_maximum(&b),
                }
            }
            Op::Softmax(x) => self.f(x).softmax(),
            Op::Narrow { xs, dim, start, end } => match self.eval(xs) {
                Value::F(x) => x.narrow(*dim, *start..*end).unwrap().contiguous(),
                Value::I(x) => {
                    return Value::I(x.narrow(*dim, *start..*end).unwrap().contiguous().unwrap())
                }
            },
            Op::Transpose(x, a, b) => match self.eval(x) {
                Value::F(x) => x.transpose(*a, *b).unwrap().contiguous(),
                Value::I(x) => {
                    return Value::I(x.transpose(*a, *b).unwrap().contiguous().unwrap())
                }
            },
            Op::Reshape(x) => match self.eval(x) {
                Value::F(x) => x.reshape(dims),
                Value::I(x) => return Value::I(x.reshape(dims).unwrap()),
            },
            Op::Unsqueeze(x, dim) => self.f(x).unsqueeze(*dim),
            Op::Expand(x) => self.f(x).expand(dims).unwrap().contiguous(),
            Op::Cat(l, dim) | Op::Stack(l, dim) => {
                let stack = matches!(&t.0.op, Op::Stack(..));
                let vs: Vec<Value> = items(l).iter().map(|p| self.eval(p)).collect();
                if matches!(vs[0], Value::I(_)) {
                    let xs: Vec<I> = vs.iter().map(|v| v.i()).collect();
                    let refs: Vec<&I> = xs.iter().collect();
                    let r = if stack {
                        xn::Tensor::stack(&refs, *dim)
                    } else {
                        xn::Tensor::cat(&refs, *dim)
                    };
                    return Value::I(r.unwrap());
                }
                let xs: Vec<T> = vs.iter().map(|v| v.f()).collect();
                let refs: Vec<&T> = xs.iter().collect();
                if stack { xn::Tensor::stack(&refs, *dim) } else { xn::Tensor::cat(&refs, *dim) }
            }
            Op::PadZeros { xs, dim, left, right } => self.f(xs).pad_with_zeros(*dim, *left, *right),
            Op::PadSame { xs, dim, left, right } => self.f(xs).pad_with_same(*dim, *left, *right),
            Op::SliceSet { dst, src, dim, offset } => {
                let dst = self.f(dst).copy().unwrap();
                let src = self.f(src);
                dst.slice_set(&src, *dim, *offset).unwrap();
                Ok(dst)
            }
            Op::Conv1d { xs, kernel, bias, stride, dilation, groups } => {
                let (x, k, b) = (self.f(xs), self.f(kernel), self.opt(bias));
                x.conv1d(&k, b.as_ref(), *stride, 0, *dilation, *groups)
            }
            Op::ConvTranspose1d { xs, kernel, bias, stride, groups } => {
                let (x, k, b) = (self.f(xs), self.f(kernel), self.opt(bias));
                x.conv_transpose1d(&k, b.as_ref(), *stride, 0, 0, *groups)
            }
            Op::Matmul(a, b) => self.f(a).matmul(&self.f(b)),
            Op::MatmulT(a, b) => self.f(a).matmul_t(&self.f(b)),
            Op::Linear { xs, weight, bias, .. } => {
                let y = self.f(xs).matmul_t(&self.f(weight)).unwrap();
                match self.opt(bias) {
                    None => Ok(y),
                    Some(b) => y.broadcast_add(&b),
                }
            }
            Op::IndexSelect { xs, ids, dim } => {
                let ids = self.eval(ids).i();
                self.f(xs).index_select(&ids, *dim)
            }
            Op::LayerNorm { xs, weight, bias, eps } => {
                let (x, w, b) = (self.f(xs), self.f(weight), self.opt(bias).unwrap());
                x.layer_norm(&w, &b, f32::from_bits(*eps))
            }
            Op::RmsNorm { xs, alpha, eps } => {
                let (x, a) = (self.f(xs), self.f(alpha));
                x.rms_norm(&a, f32::from_bits(*eps))
            }
            Op::SumKeepdim { xs, from, to } => {
                let dims: Vec<usize> = (*from..=*to).collect();
                self.f(xs).sum_keepdim(dims)
            }
            Op::Argmin(x, dim) => return Value::I(self.f(x).argmin(*dim).unwrap()),
            Op::Argmax(x, dim) => return Value::I(self.f(x).argmax(*dim).unwrap()),
            Op::RopeI { xs, cos, sin } => {
                let (x, c, s) = (self.f(xs), self.f(cos), self.f(sin));
                x.rope_i(&c, &s, 0)
            }
            Op::Lanes { new, old, active } => {
                let old = self.opt(old);
                let new = Some(self.f(new));
                let mask = StreamMask::new(items(active));
                Ok(xn::streaming::apply_state_mask(&new, &old, &mask).unwrap().unwrap())
            }
        };
        Value::F(r.unwrap())
    }

    fn caches_for(&mut self, state: &BatchedTransformerState) {
        let b =
            ScatteredCacheBuilder::new(state.batch_size(), state.builder.context, &CPU).unwrap();
        self.caches = state
            .kv_caches
            .iter()
            .map(|c| b.make_cache(c.num_heads, c.head_dim).unwrap())
            .collect();
        self.builder = Some(b);
    }

    fn begin(&mut self, t: usize, lanes: &[bool]) {
        self.iam = Some(self.builder.as_mut().unwrap().indices_and_mask(t, lanes).unwrap());
        self.appended.clear();
    }
}

fn close(a: &T, b: &T) {
    assert_eq!(a.dims(), b.dims());
    let (a, b) = (a.to_vec().unwrap(), b.to_vec().unwrap());
    for (x, y) in a.iter().zip(b.iter()) {
        assert!((x - y).abs() <= 1e-4 * (1.0 + y.abs()), "{x} != {y}");
    }
}

fn columns(x: &T, from: usize, to: usize) -> T {
    x.narrow(2usize, from..to).unwrap().contiguous().unwrap()
}

fn join(parts: &[T]) -> T {
    let refs: Vec<&T> = parts.iter().collect();
    xn::Tensor::cat(&refs, 2usize).unwrap()
}

#[test]
fn streaming_conv_equals_whole_conv() {
    for mode in [PadMode::Constant, PadMode::Replicate] {
        for (k, stride, dilation) in [(4usize, 2usize, 1usize), (3, 1, 2), (6, 3, 1), (1, 1, 1)] {
            let mut b = Bench::new(&[("conv.conv.weight", &[5, 3, k]), ("conv.conv.bias", &[5])]);
            let conv = StreamableConv1d::load(
                &Weights::root(&b.checkpoint),
                3,
                5,
                k,
                stride,
                dilation,
                1,
                true,
                true,
                None,
                mode,
            )
            .unwrap();
            let data = noise(1, 2 * 3 * 24);
            let x = b.input(data, &[2, 3, 24]);
            let whole = conv.forward(&x).unwrap();
            let whole = b.f(&whole);
            let xs = b.f(&x);
            for cuts in [vec![24], vec![1, 5, 2, 7, 9], vec![12, 12], vec![3, 3, 3, 3, 3, 3, 3, 3]] {
                let mut state = conv.init_state();
                let mut outs = vec![];
                let mut at = 0;
                for n in cuts {
                    let c = columns(&xs, at, at + n).to_vec().unwrap();
                    let chunk = b.input(c, &[2, 3, n]);
                    at += n;
                    let out = conv.step(&Some(chunk), &mut state, &StreamMask::empty()).unwrap();
                    if let Some(y) = out {
                        outs.push(b.f(&y));
                    }
                }
                close(&join(&outs), &columns(&whole, 0, 24 / stride));
            }
        }
    }
}

#[test]
fn streaming_transposed_conv_equals_whole_conv() {
    for (k, stride) in [(4usize, 2usize), (6, 3), (5, 2), (3, 3)] {
        let mut b =
            Bench::new(&[("convtr.convtr.weight", &[3, 5, k]), ("convtr.convtr.bias", &[5])]);
        let conv = StreamableConvTranspose1d::load(
            &Weights::root(&b.checkpoint),
            3,
            5,
            k,
            stride,
            1,
            true,
            true,
            None,
        )
        .unwrap();
        let x = b.input(noise(2, 2 * 3 * 10), &[2, 3, 10]);
        let whole = conv.forward(&x).unwrap();
        let whole = b.f(&whole);
        assert_eq!(whole.dims(), [2, 5, 10 * stride]);
        let xs = b.f(&x);
        for cuts in [vec![10], vec![1, 2, 3, 4], vec![1; 10]] {
            let mut state = conv.init_state();
            let mut outs = vec![];
            let mut at = 0;
            for n in cuts {
                let c = columns(&xs, at, at + n).to_vec().unwrap();
                let chunk = b.input(c, &[2, 3, n]);
                at += n;
                let out = conv.step(&Some(chunk), &mut state, &StreamMask::empty()).unwrap();
                if let Some(y) = out {
                    outs.push(b.f(&y));
                }
            }
            close(&join(&outs), &whole);
        }
    }
}

#[test]
fn masked_lane_keeps_its_state() {
    let mut b = Bench::new(&[("conv.conv.weight", &[2, 2, 4])]);
    let conv = StreamableConv1d::load(
        &Weights::root(&b.checkpoint),
        2,
        2,
        4,
        2,
        1,
        1,
        false,
        true,
        None,
        PadMode::Constant,
    )
    .unwrap();
    let mut state = conv.init_state();
    let x0 = b.input(noise(3, 2 * 2 * 2), &[2, 2, 2]);
    let _ = conv.step(&Some(x0), &mut state, &StreamMask::all_active(2)).unwrap();
    let before = state.prev_xs.as_ref().map(|t| b.f(t)).unwrap().to_vec().unwrap();
    let x1 = b.input(noise(4, 2 * 2 * 2), &[2, 2, 2]);
    let _ = conv.step(&Some(x1), &mut state, &StreamMask::new(vec![true, false])).unwrap();
    let after = state.prev_xs.as_ref().map(|t| b.f(t)).unwrap().to_vec().unwrap();
    assert_ne!(before[..4], after[..4]);
    assert_eq!(before[4..], after[4..]);
    state.reset_batch_idx(1).unwrap();
    let reset = state.prev_xs.as_ref().map(|t| b.f(t)).unwrap().to_vec().unwrap();
    assert_eq!(after[..4], reset[..4]);
    assert_eq!(reset[4..], [0.0; 4]);
}

#[test]
fn weight_norm_scales_each_row() {
    let entries: [(&str, &[usize]); 2] =
        [("conv.conv.weight_g", &[2, 1, 1]), ("conv.conv.weight_v", &[2, 3, 2])];
    let mut b = Bench::new(&entries);
    let conv = StreamableConv1d::load(
        &Weights::root(&b.checkpoint),
        3,
        2,
        2,
        1,
        1,
        1,
        false,
        true,
        Some(Norm::WeightNorm),
        PadMode::Constant,
    )
    .unwrap();
    let w = b.f(&conv.conv.weight).to_vec().unwrap();
    let g = b.weight(0, &[2, 1, 1]).to_vec().unwrap();
    let v = b.weight(1, &[2, 3, 2]).to_vec().unwrap();
    for row in 0..2 {
        let norm: f32 = v[row * 6..row * 6 + 6].iter().map(|x| x * x).sum::<f32>().sqrt();
        for i in 0..6 {
            assert!((w[row * 6 + i] - v[row * 6 + i] * g[row] / norm).abs() < 1e-5);
        }
    }
}

#[test]
fn down_and_up_sampling() {
    let mut b = Bench::new(&[
        ("conv.conv.conv.weight", &[4, 4, 4]),
        ("convtr.convtr.convtr.weight", &[4, 1, 4]),
    ]);
    let down = ConvDownsample1d::load(&Weights::root(&b.checkpoint), 2, 4, true, false).unwrap();
    let up = ConvTrUpsample1d::load(&Weights::root(&b.checkpoint), 2, 4, true, false).unwrap();
    let x = b.input(noise(5, 4 * 6), &[1, 4, 6]);
    let d = down.forward(&x).unwrap();
    assert_eq!(d.shape(), Shape::D3(1, 4, 3));
    let u = up.forward(&d).unwrap();
    assert_eq!(u.shape(), Shape::D3(1, 4, 6));
    assert_eq!(b.f(&u).dims(), [1, 4, 6]);
    let mut state = down.init_state();
    let s = down.step(&Some(x), &mut state, &StreamMask::empty()).unwrap().unwrap();
    let (s, d) = (b.f(&s), b.f(&d));
    close(&s, &d);
}

fn seanet_config() -> SeaNetConfig {
    SeaNetConfig {
        dimension: 6,
        channels: 1,
        causal: true,
        n_filters: 2,
        n_residual_layers: 1,
        ratios: vec![3, 2],
        activation: Activation::Elu(1f32.to_bits()),
        norm: Norm::NoNorm,
        kernel_size: 7,
        residual_kernel_size: 3,
        last_kernel_size: 3,
        dilation_base: 2,
        pad_mode: PadMode::Constant,
        true_skip: true,
        compress: 2,
        lstm: None,
        disable_norm_outer_blocks: 0,
        final_activation: None,
    }
}

fn encoder_entries() -> Vec<(&'static str, &'static [usize])> {
    vec![
        ("model.0.conv.conv.weight", &[2, 1, 7]),
        ("model.0.conv.conv.bias", &[2]),
        ("model.1.block.1.conv.conv.weight", &[1, 2, 3]),
        ("model.1.block.1.conv.conv.bias", &[1]),
        ("model.1.block.3.conv.conv.weight", &[2, 1, 1]),
        ("model.1.block.3.conv.conv.bias", &[2]),
        ("model.3.conv.conv.weight", &[4, 2, 4]),
        ("model.3.conv.conv.bias", &[4]),
        ("model.4.block.1.conv.conv.weight", &[2, 4, 3]),
        ("model.4.block.1.conv.conv.bias", &[2]),
        ("model.4.block.3.conv.conv.weight", &[4, 2, 1]),
        ("model.4.block.3.conv.conv.bias", &[4]),
        ("model.6.conv.conv.weight", &[8, 4, 6]),
        ("model.6.conv.conv.bias", &[8]),
        ("model.8.conv.conv.weight", &[6, 8, 3]),
        ("model.8.conv.conv.bias", &[6]),
    ]
}

#[test]
fn encoder_streams_as_a_whole() {
    let mut b = Bench::new(&encoder_entries());
    let enc = SeaNetEncoder::load(&Weights::root(&b.checkpoint), &seanet_config()).unwrap();
    let x = b.input(noise(6, 36), &[1, 1, 36]);
    let whole = enc.forward(&x).unwrap();
    assert_eq!(whole.shape(), Shape::D3(1, 6, 6));
    let whole = b.f(&whole);
    let xs = b.f(&x);
    for cuts in [vec![36], vec![6, 12, 18], vec![5, 7, 11, 13]] {
        let mut state = enc.init_state();
        let mut outs = vec![];
        let (mut at, mut frames) = (0, 0);
        for n in cuts {
            let c = columns(&xs, at, at + n).to_vec().unwrap();
            let chunk = b.input(c, &[1, 1, n]);
            at += n;
            let out = enc.step(&Some(chunk), &mut state, &StreamMask::empty()).unwrap();
            let done = at / 6 - frames;
            frames = at / 6;
            match out {
                Some(y) => {
                    assert_eq!(y.shape(), Shape::D3(1, 6, done));
                    outs.push(b.f(&y));
                }
                None => assert_eq!(done, 0),
            }
        }
        close(&join(&outs), &whole);
    }
}

#[test]
fn decoder_streams_as_a_whole() {
    let mut b = Bench::new(&[
        ("model.0.conv.conv.weight", &[8, 6, 7]),
        ("model.0.conv.conv.bias", &[8]),
        ("model.2.convtr.convtr.weight", &[8, 4, 6]),
        ("model.2.convtr.convtr.bias", &[4]),
        ("model.3.block.1.conv.conv.weight", &[2, 4, 3]),
        ("model.3.block.1.conv.conv.bias", &[2]),
        ("model.3.block.3.conv.conv.weight", &[4, 2, 1]),
        ("model.3.block.3.conv.conv.bias", &[4]),
        ("model.5.convtr.convtr.weight", &[4, 2, 4]),
        ("model.5.convtr.convtr.bias", &[2]),
        ("model.6.block.1.conv.conv.weight", &[1, 2, 3]),
        ("model.6.block.1.conv.conv.bias", &[1]),
        ("model.6.block.3.conv.conv.weight", &[2, 1, 1]),
        ("model.6.block.3.conv.conv.bias", &[2]),
        ("model.8.conv.conv.weight", &[1, 2, 3]),
        ("model.8.conv.conv.bias", &[1]),
    ]);
    let dec = SeaNetDecoder::load(&Weights::root(&b.checkpoint), &seanet_config()).unwrap();
    let x = b.input(noise(7, 6 * 5), &[1, 6, 5]);
    let whole = dec.forward(&x).unwrap();
    assert_eq!(whole.shape(), Shape::D3(1, 1, 30));
    let whole = b.f(&whole);
    let xs = b.f(&x);
    for cuts in [vec![5], vec![1, 1, 1, 1, 1], vec![2, 3]] {
        let mut state = dec.init_state();
        let mut outs = vec![];
        let mut at = 0;
        for n in cuts {
            let c = columns(&xs, at, at + n).to_vec().unwrap();
            let chunk = b.input(c, &[1, 6, n]);
            at += n;
            let y = dec.step(&Some(chunk), &mut state, &StreamMask::empty()).unwrap().unwrap();
            assert_eq!(y.shape(), Shape::D3(1, 1, 6 * n));
            outs.push(b.f(&y));
        }
        close(&join(&outs), &whole);
    }
}

fn lane(x: &T, b: usize) -> T {
    x.narrow(0usize, b..b + 1).unwrap().contiguous().unwrap()
}

#[test]
fn lanes_of_the_encoder_pause_and_restart() {
    let mut b = Bench::new(&encoder_entries());
    let enc = SeaNetEncoder::load(&Weights::root(&b.checkpoint), &seanet_config()).unwrap();
    let mut state = enc.init_state();
    let mut seed = 20;
    for round in 0..2 {
        if round == 1 {
            state.reset_batch_idx(1).unwrap();
        }
        let (mut fed, mut heard) = (vec![], vec![]);
        for active in [false, true, true, false, true, false] {
            seed += 1;
            let chunk = b.input(noise(seed, 24), &[2, 1, 12]);
            let mask = StreamMask::new(vec![true, active]);
            let y = enc.step(&Some(chunk.clone()), &mut state, &mask).unwrap().unwrap();
            assert_eq!(y.shape(), Shape::D3(2, 6, 2));
            if active {
                fed.push(lane(&b.f(&chunk), 1));
                heard.push(lane(&b.f(&y), 1));
            }
        }
        let fed = join(&fed).to_vec().unwrap();
        let x = b.input(fed, &[1, 1, 36]);
        let whole = enc.forward(&x).unwrap();
        close(&join(&heard), &b.f(&whole));
    }
}

#[test]
fn a_masked_stream_keeps_its_chunk_size() {
    let b = Bench::new(&encoder_entries());
    let enc = SeaNetEncoder::load(&Weights::root(&b.checkpoint), &seanet_config()).unwrap();
    let mut state = enc.init_state();
    let chunk = |n| Some(Term::input(0, Shape::D3(2, 1, n)).unwrap());
    let mask = StreamMask::all_active(2);
    assert!(enc.step(&chunk(6), &mut state, &mask).is_ok());
    assert!(matches!(
        enc.step(&chunk(7), &mut state, &mask),
        Err(xn_moshi::error::Error::ShapeMismatch { .. })
    ));
}

#[test]
fn lanes_of_a_transposed_conv_pause() {
    let mut b = Bench::new(&[("convtr.convtr.weight", &[3, 5, 4]), ("convtr.convtr.bias", &[5])]);
    let conv = StreamableConvTranspose1d::load(
        &Weights::root(&b.checkpoint),
        3,
        5,
        4,
        2,
        1,
        true,
        true,
        None,
    )
    .unwrap();
    let mut state = conv.init_state();
    let (mut fed, mut heard) = (vec![], vec![]);
    for (i, active) in [true, false, true, true, false].into_iter().enumerate() {
        let chunk = b.input(noise(40 + i, 2 * 3 * 2), &[2, 3, 2]);
        let mask = StreamMask::new(vec![active, true]);
        let y = conv.step(&Some(chunk.clone()), &mut state, &mask).unwrap().unwrap();
        if active {
            fed.push(lane(&b.f(&chunk), 0));
            heard.push(lane(&b.f(&y), 0));
        }
    }
    let fed = join(&fed).to_vec().unwrap();
    let x = b.input(fed, &[1, 3, 6]);
    let whole = conv.forward(&x).unwrap();
    close(&join(&heard), &b.f(&whole));

    // A lane that was reset lacks the bias until the first column has passed.
    state.reset_batch_idx(0).unwrap();
    let chunk = b.input(noise(50, 2 * 3), &[2, 3, 1]);
    let y = conv.step(&Some(chunk.clone()), &mut state, &StreamMask::all_active(2)).unwrap();
    let y = lane(&b.f(&y.unwrap()), 0).to_vec().unwrap();
    let first = lane(&b.f(&chunk), 0).to_vec().unwrap();
    let x = b.input(first, &[1, 3, 1]);
    let whole = conv.forward(&x).unwrap();
    let whole = b.f(&whole).to_vec().unwrap();
    let bias = b.weight(1, &[5]).to_vec().unwrap();
    for i in 0..10 {
        assert!((y[i] - (whole[i] - bias[i / 2])).abs() < 1e-4);
    }
}

#[test]
fn fewer_codebooks_give_the_first_codes() {
    let mut b = Bench::new(&quantizer_entries());
    let x = b.input(noise(9, 2 * 6 * 5), &[2, 6, 5]);
    let mut all = vec![];
    for n_q in [3, 2, 1] {
        let vb = Weights::root(&b.checkpoint);
        let q = SplitResidualVectorQuantizer::load(&vb, 4, Some(6), Some(6), n_q, 8).unwrap();
        let codes = q.encode(&x).unwrap();
        assert_eq!(codes.shape(), Shape::D3(2, n_q, 5));
        all.push(b.eval(&codes).i().to_vec().unwrap());
    }
    for lane in 0..2 {
        assert_eq!(all[1][lane * 10..lane * 10 + 10], all[0][lane * 15..lane * 15 + 10]);
        assert_eq!(all[2][lane * 5..lane * 5 + 5], all[0][lane * 15..lane * 15 + 5]);
    }
}

fn quantizer_entries() -> Vec<(&'static str, &'static [usize])> {
    vec![
        ("rvq_first.input_proj.weight", &[4, 6, 1]),
        ("rvq_first.output_proj.weight", &[6, 4, 1]),
        ("rvq_first.vq.layers.0._codebook.cluster_usage", &[8]),
        ("rvq_first.vq.layers.0._codebook.embedding_sum", &[8, 4]),
        ("rvq_rest.input_proj.weight", &[4, 6, 1]),
        ("rvq_rest.output_proj.weight", &[6, 4, 1]),
        ("rvq_rest.vq.layers.0._codebook.cluster_usage", &[8]),
        ("rvq_rest.vq.layers.0._codebook.embedding_sum", &[8, 4]),
        ("rvq_rest.vq.layers.1._codebook.cluster_usage", &[8]),
        ("rvq_rest.vq.layers.1._codebook.embedding_sum", &[8, 4]),
    ]
}

#[test]
fn split_quantizer_round_trip() {
    let mut b = Bench::new(&quantizer_entries());
    let q = SplitResidualVectorQuantizer::load(
        &Weights::root(&b.checkpoint),
        4,
        Some(6),
        Some(6),
        3,
        8,
    )
    .unwrap();
    let x = b.input(noise(8, 2 * 6 * 5), &[2, 6, 5]);
    let codes = q.encode(&x).unwrap();
    assert_eq!(codes.shape(), Shape::D3(2, 3, 5));
    let c = b.eval(&codes).i().to_vec().unwrap();
    assert!(c.iter().all(|&c| (0..8).contains(&c)));
    // The nearest vector of the first codebook, worked out directly.
    let xs = b.f(&x);
    let proj = b.weight(0, &[4, 6, 1]);
    let y = xs.conv1d(&proj, None, 1, 0, 1, 1).unwrap().to_vec().unwrap();
    let usage = b.weight(2, &[8]).to_vec().unwrap();
    let sum = b.weight(3, &[8, 4]).to_vec().unwrap();
    for lane in 0..2 {
        for t in 0..5 {
            let dist = |code: usize| -> f32 {
                (0..4)
                    .map(|d| {
                        let e = sum[code * 4 + d] / usage[code].max(1e-5);
                        let v = y[lane * 20 + d * 5 + t];
                        (v - e) * (v - e)
                    })
                    .sum()
            };
            let best = (0..8).map(dist).fold(f32::INFINITY, f32::min);
            assert!(dist(c[lane * 15 + t] as usize) <= best + 1e-5);
        }
    }
    let back = q.decode(&codes).unwrap();
    assert_eq!(back.shape(), Shape::D3(2, 6, 5));
    assert_eq!(b.f(&back).dims(), [2, 6, 5]);
}

fn transformer_config() -> TransformerConfig {
    TransformerConfig {
        d_model: 8,
        num_heads: 2,
        num_layers: 2,
        causal: true,
        norm_first: true,
        bias_ff: false,
        bias_attn: false,
        layer_scale: None,
        positional_embedding: PositionalEmbedding::Rope,
        use_conv_block: false,
        gating: Some(Activation::Silu),
        norm: NormType::RmsNormF32,
        context: 10,
        max_period: 10_000f64.to_bits(),
        kv_repeat: 1,
        dim_feedforward: 32,
        conv_layout: false,
    }
}

fn transformer_entries() -> Vec<(&'static str, &'static [usize])> {
    vec![
        ("layers.0.self_attn.in_proj_weight", &[24, 8]),
        ("layers.0.self_attn.out_proj.weight", &[8, 8]),
        ("layers.0.gating.linear_in.weight", &[44, 8]),
        ("layers.0.gating.linear_out.weight", &[8, 22]),
        ("layers.0.norm1.alpha", &[1, 1, 8]),
        ("layers.0.norm2.alpha", &[1, 1, 8]),
        ("layers.1.self_attn.in_proj_weight", &[24, 8]),
        ("layers.1.self_attn.out_proj.weight", &[8, 8]),
        ("layers.1.gating.linear_in.weight", &[44, 8]),
        ("layers.1.gating.linear_out.weight", &[8, 22]),
        ("layers.1.norm1.alpha", &[1, 1, 8]),
        ("layers.1.norm2.alpha", &[1, 1, 8]),
    ]
}

#[test]
fn transformer_steps_one_by_one_or_together() {
    let mut b = Bench::new(&transformer_entries());
    let m = BatchedTransformer::load(&Weights::root(&b.checkpoint), &transformer_config()).unwrap();
    let x = b.input(noise(9, 2 * 4 * 8), &[2, 4, 8]);
    let mask = StreamMask::all_active(2);

    let mut state = m.init_state(2).unwrap();
    b.caches_for(&state);
    let together = m.forward(&x, &mut state, &mask).unwrap();
    b.begin(4, &[true, true]);
    let together = b.f(&together);
    assert_eq!(state.builder.positions, vec![4, 4]);

    let xs = b.f(&x);
    let mut state = m.init_state(2).unwrap();
    b.caches_for(&state);
    let mut outs = vec![];
    for t in 0..4 {
        let step = xs.narrow(1usize, t..t + 1).unwrap().contiguous().unwrap().to_vec().unwrap();
        let step = b.input(step, &[2, 1, 8]);
        let y = m.forward(&step, &mut state, &mask).unwrap();
        b.begin(1, &[true, true]);
        outs.push(b.f(&y));
    }
    let refs: Vec<&T> = outs.iter().collect();
    close(&xn::Tensor::cat(&refs, 1usize).unwrap(), &together);
}

#[test]
fn both_layouts_compute_the_same() {
    let mut config = transformer_config();
    config.num_layers = 1;
    let mut common = transformer_entries();
    common.truncate(6);
    common.push(("layers.0.norm_cross.weight", &[8]));
    common.push(("layers.0.norm_cross.bias", &[8]));
    common.push(("layers.0.cross_attention.out_proj.weight", &[8, 8]));
    let n = common.len();
    let all = noise(n + 100, 24 * 8);
    let mut outs = vec![];
    for combined in [true, false] {
        let mut entries = common.clone();
        if combined {
            entries.push(("layers.0.cross_attention.in_proj_weight", &[24, 8]));
        } else {
            entries.push(("layers.0.cross_attention.in_proj_weight_q", &[8, 8]));
            entries.push(("layers.0.cross_attention.in_proj_weight_kv", &[16, 8]));
        }
        let mut b = Bench::new(&entries);
        if !combined {
            b.given.insert(n, all[..64].to_vec());
            b.given.insert(n + 1, all[64..].to_vec());
        }
        let m = Transformer::load(&Weights::root(&b.checkpoint), &config).unwrap();
        let x = b.input(noise(11, 2 * 3 * 8), &[2, 3, 8]);
        let src = b.input(noise(12, 2 * 5 * 8), &[2, 5, 8]);
        let kv = m.compute_cross_kv(&src).unwrap();
        let mut state = m.init_state(2).unwrap();
        b.caches_for(&state);
        let mask = StreamMask::all_active(2);
        let y = m.forward(&x, &[CaSrc::Tokens(src)], &mut state, &mask).unwrap();
        b.begin(3, &[true, true]);
        outs.push((b.f(&kv[0].0), b.f(&kv[0].1), b.f(&y)));
    }
    close(&outs[0].0, &outs[1].0);
    close(&outs[0].1, &outs[1].1);
    close(&outs[0].2, &outs[1].2);
}

#[test]
fn positions_follow_the_cache_builder() {
    let mut b = Bench::new(&transformer_entries());
    let m = BatchedTransformer::load(&Weights::root(&b.checkpoint), &transformer_config()).unwrap();
    let mut state = m.init_state(3).unwrap();
    b.caches_for(&state);
    for lanes in [[true, false, true], [true, true, false], [false, false, true]] {
        let x = b.input(noise(10, 3 * 2 * 8), &[3, 2, 8]);
        m.forward(&x, &mut state, &StreamMask::new(lanes.to_vec())).unwrap();
        b.begin(2, &lanes);
        let real = b.builder.as_ref().unwrap().positions().to_vec();
        assert_eq!(state.builder.positions, real);
    }
    assert_eq!(state.builder.positions, vec![4, 2, 4]);
    state.reset_batch_idx(0).unwrap();
    assert_eq!(state.builder.positions, vec![0, 2, 4]);
    state.reset();
    assert_eq!(state.builder.positions, vec![0, 0, 0]);
}

#[test]
fn gumbel_max_is_greedy_at_temperature_zero() {
    let mut b = Bench::new(&[]);
    let logits = b.input(vec![0.1, 0.9, -0.3, 0.5, -0.2, 0.4], &[2, 3]);
    let temperature = b.input(vec![0.0, 0.0], &[2, 1]);
    let sampled = gumbel_max(&logits, &temperature).unwrap();
    assert_eq!(sampled.shape(), Shape::D1(2));
    assert_eq!(b.eval(&sampled).i().to_vec().unwrap(), vec![1, 0]);
}

/// Whether a step attends to what stands at `k`, by the positions before it and the lanes in it.
fn opens(context: usize, position: usize, active: bool, t: usize, step: usize, k: usize) -> bool {
    if context <= t {
        return k <= step && step <= k + context;
    }
    if !active {
        return true;
    }
    // The last position that was written into the slot.
    let held = (0..position + t).filter(|q| q % context == k).last();
    held.is_some_and(|q| q <= position + step)
}

#[test]
fn masks_leave_open_the_positions_in_reach() {
    let lanes = [[true, false, true], [true, true, false], [false, true, true], [true, true, true]];
    for context in [3usize, 5, 8] {
        for t in 1..context.min(4) {
            let mut ours = CachePositions::new(3, context);
            let mut real = ScatteredCacheBuilder::new(3, context, &CPU).unwrap();
            for round in 0..8usize {
                let active = lanes[round % 4];
                let mask = ours.indices_and_mask(t, &active.to_vec()).unwrap();
                let iam: IndicesAndMask<f32, CpuDevice> =
                    real.indices_and_mask(t, &active).unwrap();
                let (positions, marked) = match &mask.0.op {
                    Op::CacheMask { context: c, positions, active } if *c == context => {
                        (items(positions), items(active))
                    }
                    _ => panic!("not a mask"),
                };
                assert_eq!(marked, active.to_vec());
                assert_eq!(mask.shape().to_vec(), iam.mask().dims().to_vec());
                let values = iam.mask().to_vec().unwrap();
                for (b, &position) in positions.iter().enumerate() {
                    for step in 0..t {
                        for k in 0..context {
                            let at = (b * t + step) * context + k;
                            let open = opens(context, position, marked[b], t, step, k);
                            assert_eq!(values[at] == 0.0, open, "{context} {t} {round} {b} {k}");
                        }
                    }
                }
                assert_eq!(ours.positions, real.positions().to_vec());
            }
        }
    }
}

#[test]
fn masks_of_steps_that_fill_the_context() {
    let mut ours = CachePositions::new(1, 2);
    let mut real = ScatteredCacheBuilder::new(1, 2, &CPU).unwrap();
    for t in [4usize, 2, 1, 5] {
        let mask = ours.indices_and_mask(t, &vec![true]).unwrap();
        let iam: IndicesAndMask<f32, CpuDevice> = real.indices_and_mask(t, &[true]).unwrap();
        assert_eq!(mask.shape().to_vec(), iam.mask().dims().to_vec());
        let (position, width) = match &mask.0.op {
            Op::CacheMask { positions, .. } => (items(positions)[0], t.max(2)),
            _ => panic!("not a mask"),
        };
        let values = iam.mask().to_vec().unwrap();
        for step in 0..t {
            for k in 0..width {
                let open = opens(2, position, true, t, step, k);
                assert_eq!(values[step * width + k] == 0.0, open, "{t} {step} {k}");
            }
        }
        assert_eq!(ours.positions, real.positions().to_vec());
    }
}

#[test]
fn codes_are_those_of_nearest_vectors_and_are_found_again() {
    let mut b = Bench::new(&[("cluster_usage", &[8]), ("embedding_sum", &[8, 4])]);
    let book = EuclideanCodebook::load(&Weights::root(&b.checkpoint), 4, 8).unwrap();
    let e = b.f(&book.embedding).to_vec().unwrap();
    let x = b.input(noise(21, 2 * 5 * 4), &[2, 5, 4]);
    let codes = book.encode(&x).unwrap();
    assert_eq!(codes.shape(), Shape::D2(2, 5));
    let c = b.eval(&codes).i().to_vec().unwrap();
    let xs = b.f(&x).to_vec().unwrap();
    for (i, &c) in c.iter().enumerate() {
        let distance = |j: usize| -> f32 {
            (0..4).map(|d| (xs[i * 4 + d] - e[j * 4 + d]).powi(2)).sum()
        };
        let best = (0..8).map(distance).fold(f32::INFINITY, f32::min);
        assert!(distance(c as usize) <= best + 1e-5);
    }

    let all = Term::from_ids(&vec![3, 0, 7, 5, 1, 6, 2, 4], Shape::D2(4, 2)).unwrap();
    let frames = book.decode(&all).unwrap();
    assert_eq!(frames.shape(), Shape::D3(4, 2, 4));
    let v = b.f(&frames).to_vec().unwrap();
    assert_eq!(v[..4], e[12..16]);
    let again = book.encode(&frames).unwrap();
    assert_eq!(again.shape(), Shape::D2(4, 2));
    assert_eq!(b.eval(&again).i().to_vec().unwrap(), vec![3, 0, 7, 5, 1, 6, 2, 4]);
}

#[test]
fn unpadding_undoes_padding() {
    let mut b = Bench::new(&[]);
    let x = b.input(noise(22, 2 * 3 * 5), &[2, 3, 5]);
    for mode in [PadMode::Constant, PadMode::Replicate] {
        let padded = pad1d(&x, 2, 4, mode).unwrap();
        assert_eq!(padded.shape(), Shape::D3(2, 3, 11));
        let back = unpad1d(&padded, 2, 4).unwrap();
        assert_eq!(b.f(&back).to_vec().unwrap(), b.f(&x).to_vec().unwrap());
    }
    let r = pad1d(&x, 2, 4, PadMode::Reflect);
    assert!(matches!(r, Err(Error::ReflectPadding)));
    let r = unpad1d(&x, 3, 3);
    assert!(matches!(r, Err(Error::Unpad { len: 5, left: 3, right: 3 })));
    // Windows of four samples, three apart: the last one starts at the sixth of nine samples.
    assert_eq!(get_extra_padding_for_conv1d(&x, 4, 3, 4).unwrap(), 1);
    assert_eq!(get_extra_padding_for_conv1d(&x, 3, 1, 2).unwrap(), 0);
}

#[test]
fn layers_are_summed_by_their_weights() {
    let mut b = Bench::new(&[
        ("norms.0.weight", &[8]),
        ("norms.0.bias", &[8]),
        ("norms.1.weight", &[8]),
        ("norms.1.bias", &[8]),
        ("weights", &[2]),
        ("scorer.0.weight", &[32, 8]),
        ("scorer.0.bias", &[32]),
        ("scorer.2.weight", &[1, 32]),
    ]);
    let mixer = LayerMixer::load(&Weights::root(&b.checkpoint), 2, 8, true).unwrap();
    let inputs =
        vec![b.input(noise(31, 2 * 3 * 8), &[2, 3, 8]), b.input(noise(32, 2 * 3 * 8), &[2, 3, 8])];
    let mixed = mixer.forward(&inputs).unwrap();
    assert_eq!(mixed.shape(), Shape::D3(2, 3, 8));
    let weights = match &mixed.0.op {
        Op::Reshape(ys) => match &ys.0.op {
            Op::Matmul(row, _) => b.f(row).to_vec().unwrap(),
            _ => panic!("not a product"),
        },
        _ => panic!("not reshaped"),
    };
    let got = b.f(&mixed).to_vec().unwrap();
    let mut normed = vec![];
    for (norm, xs) in mixer.norms.iter().zip(inputs.iter()) {
        normed.push(b.f(&norm.forward(xs).unwrap()).to_vec().unwrap());
    }
    for frame in 0..6 {
        let (a, c) = (weights[frame * 2], weights[frame * 2 + 1]);
        assert!((a + c - 1.0).abs() < 1e-5);
        for at in frame * 8..frame * 8 + 8 {
            assert!((got[at] - (a * normed[0][at] + c * normed[1][at])).abs() < 1e-4);
        }
    }
    let r = mixer.forward(&inputs[..1].to_vec());
    assert!(matches!(r, Err(Error::MixerInputs { got: 1, expected: 2 })));
}

#[test]
fn quantizers_encode_what_is_left_over() {
    let mut b = Bench::new(&[
        ("layers.0.project_in.weight", &[4, 6]),
        ("layers.0.project_out.weight", &[6, 4]),
        ("layers.0._codebook.cluster_usage", &[8]),
        ("layers.0._codebook.embedding_sum", &[8, 4]),
        ("layers.1.project_in.weight", &[4, 6]),
        ("layers.1.project_out.weight", &[6, 4]),
        ("layers.1._codebook.cluster_usage", &[8]),
        ("layers.1._codebook.embedding_sum", &[8, 4]),
    ]);
    let vb = Weights::root(&b.checkpoint);
    let q = ResidualVectorQuantization::load(&vb, 2, 6, 8, Some(4)).unwrap();
    let x = b.input(noise(41, 2 * 6 * 5), &[2, 6, 5]);
    let codes = q.encode(&x).unwrap();
    assert_eq!(codes.shape(), Shape::D3(2, 2, 5));
    let all = b.eval(&codes).i().to_vec().unwrap();
    let mut rest = x.clone();
    let mut rows = vec![];
    for layer in &q.layers {
        let c = layer.encode(&rest).unwrap();
        rows.extend(b.eval(&c).i().to_vec().unwrap());
        rest = rest.sub(&layer.decode(&c).unwrap()).unwrap();
    }
    assert_eq!(all, rows);
    let back = q.decode(&codes).unwrap();
    assert_eq!(back.shape(), Shape::D3(2, 6, 5));
    let sum = b.f(&back).add(&b.f(&rest)).unwrap();
    close(&sum, &b.f(&x));
}
