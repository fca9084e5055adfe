//! The shape rules against those of the backend, and the errors that they give.

use xn::{CpuDevice, CPU};
use xn_moshi::checkpoint::{Checkpoint, Entry, Format, Weights};
use xn_moshi::conv::{
    NormConv1d, NormConvTranspose1d, Norm, PadMode, StreamableConv1d, StreamableConvTranspose1d,
};
use xn_moshi::error::Error;
use xn_moshi::kv_cache::{CachePositions, KvCache};
use xn_moshi::list::{list_from_bools, list_from_ints, List};
use xn_moshi::nn::{Embedding, LayerNorm, Linear};
use xn_moshi::path::Path;
use xn_moshi::quantization::{EuclideanCodebook, ResidualVectorQuantization, VectorQuantization};
use xn_moshi::seanet::{Activation, Config as SeaNetConfig, SeaNetDecoder, SeaNetEncoder};
use xn_moshi::shape::Shape;
use xn_moshi::streaming::apply_state_mask;
use xn_moshi::tensor::{BinaryOp, LinearKind, Op, Tensor, UnaryOp};
use xn_moshi::transformer::{
    BatchedProjectedTransformer, BatchedTransformer, Config as TransformerConfig, KvCacheState,
    PositionalEmbedding,
};
use xn_moshi::NormType;

type X = xn::Tensor<f32, CpuDevice>;

fn shape(d: &[usize]) -> Shape {
    Shape::from_dims(&d.to_vec())
}

fn ours(d: &[usize]) -> Tensor {
    Tensor::input(0, shape(d)).unwrap()
}

fn theirs(d: &[usize]) -> X {
    xn::Tensor::full(1.0, d.to_vec(), &CPU).unwrap()
}

fn same(a: Result<Tensor, Error>, b: xn::Result<X>) {
    match (a, b) {
        (Ok(a), Ok(b)) => assert_eq!(a.shape().to_vec(), b.dims().to_vec()),
        (Err(_), Err(_)) => {}
        (a, b) => panic!("{a:?} but {}", b.is_ok()),
    }
}

fn shapes() -> Vec<Vec<usize>> {
    let mut out: Vec<Vec<usize>> = vec![vec![]];
    for a in 1..4 {
        out.push(vec![a]);
        for b in 1..4 {
            out.push(vec![a, b]);
            for c in 1..4 {
                out.push(vec![a, b, c]);
            }
        }
    }
    out
}

#[test]
fn binary_and_broadcast_rules() {
    for a in shapes() {
        for b in shapes() {
            let (x, y) = (ours(&a), ours(&b));
            let (u, v) = (theirs(&a), theirs(&b));
            same(x.add(&y), u.add(&v));
            same(x.broadcast(BinaryOp::Mul, &y), u.broadcast_mul(&v));
            same(x.matmul(&y), u.matmul(&v));
            same(x.matmul_t(&y), u.matmul_t(&v));
            for dim in 0..3 {
                same(Tensor::cat2(&x, &y, dim), xn::Tensor::cat(&[&u, &v], dim));
                let pair = vec![ours(&a), ours(&b)];
                same(Tensor::stack(&pair, dim), xn::Tensor::stack(&[&u, &v], dim));
                for offset in 0..2 {
                    let dst = u.copy().unwrap();
                    let r = dst.slice_set(&v, dim, offset).map(|_| dst);
                    same(x.slice_set(&y, dim, offset), r);
                }
            }
            let n: usize = b.iter().product();
            let m: usize = a.iter().product();
            let r = x.reshape(shape(&b));
            assert_eq!(r.is_ok(), n == m);
            let mut hole = b.clone();
            hole.push(if n > 0 && m % n == 0 { m / n } else { 0 });
            let r = x.reshape_infer(shape(&b));
            assert_eq!(r.is_ok(), m % n == 0);
            if let Ok(r) = r {
                assert_eq!(r.shape().to_vec(), hole);
            }
        }
    }
}

#[test]
fn moving_rules() {
    for a in shapes() {
        let (x, u) = (ours(&a), theirs(&a));
        for d in 0..4 {
            same(x.unsqueeze(d), u.unsqueeze(d));
            same(x.pad_with_zeros(d, 2, 1), u.pad_with_zeros(d, 2, 1));
            same(x.pad_with_same(d, 2, 1), u.pad_with_same(d, 2, 1));
            same(x.flatten(d), u.flatten(0usize, d));
            for e in 0..4 {
                same(x.transpose(d, e), u.transpose(d, e).and_then(|t| t.contiguous()));
                for f in 0..4 {
                    let ok = x.narrow(d, e, f).map(|t| t.shape().to_vec()).ok();
                    assert_eq!(ok, u.narrow(d, e..f).map(|t| t.dims().to_vec()).ok());
                }
            }
            if d < a.len() {
                same(x.sum_keepdim(d, d), u.sum_keepdim(vec![d]));
            }
            let ok = x.argmin(d).map(|t| t.shape().to_vec()).ok();
            assert_eq!(ok, u.argmin(d).map(|t| t.dims().to_vec()).ok());
        }
        same(x.t(), u.t().and_then(|t| t.contiguous()));
        same(x.softmax(), u.softmax());
        let ok = x.argmax_last().map(|t| t.shape().to_vec()).ok();
        assert_eq!(ok, u.argmax(xn::D::Minus1).map(|t| t.dims().to_vec()).ok());
        for b in shapes() {
            same(x.expand(shape(&b)), u.expand(b.clone()).and_then(|t| t.contiguous()));
            same(x.rms_norm(&ours(&b), 1), u.rms_norm(&theirs(&b), 1e-5));
        }
    }
}

fn deep_shapes() -> Vec<Vec<usize>> {
    vec![
        vec![2, 3],
        vec![3, 2, 2],
        vec![2, 1, 3, 2],
        vec![2, 1, 3, 2, 3],
        vec![1, 2, 1, 3, 2],
        vec![2, 1, 3, 3, 2],
        vec![2, 2, 1, 1, 3, 2],
        vec![1, 1, 2, 1, 3, 1, 2],
    ]
}

#[test]
fn rules_of_many_dimensions() {
    for a in deep_shapes() {
        assert_eq!(shape(&a).to_vec(), a);
        assert_eq!(shape(&a).rank(), a.len());
        let (x, u) = (ours(&a), theirs(&a));
        for b in deep_shapes() {
            assert_eq!(shape(&a) == shape(&b), a == b);
            let (y, v) = (ours(&b), theirs(&b));
            same(x.add(&y), u.add(&v));
            same(x.broadcast(BinaryOp::Add, &y), u.broadcast_add(&v));
            same(x.matmul(&y), u.matmul(&v));
            same(x.matmul_t(&y), u.matmul_t(&v));
            same(x.expand(shape(&b)), u.expand(b.clone()).and_then(|t| t.contiguous()));
            for dim in 0..8 {
                same(Tensor::cat2(&x, &y, dim), xn::Tensor::cat(&[&u, &v], dim));
                let pair = vec![ours(&a), ours(&b)];
                same(Tensor::stack(&pair, dim), xn::Tensor::stack(&[&u, &v], dim));
            }
        }
        for d in 0..8 {
            same(x.unsqueeze(d), u.unsqueeze(d));
            same(x.pad_with_zeros(d, 2, 1), u.pad_with_zeros(d, 2, 1));
            same(x.pad_with_same(d, 2, 1), u.pad_with_same(d, 2, 1));
            same(x.flatten(d), u.flatten(0usize, d));
            for e in 0..8 {
                same(x.transpose(d, e), u.transpose(d, e).and_then(|t| t.contiguous()));
            }
            let ok = x.narrow(d, 0, 1).map(|t| t.shape().to_vec()).ok();
            assert_eq!(ok, u.narrow(d, 0..1).map(|t| t.dims().to_vec()).ok());
            if d < a.len() {
                same(x.sum_keepdim(d, d), u.sum_keepdim(vec![d]));
            }
            let ok = x.argmin(d).map(|t| t.shape().to_vec()).ok();
            assert_eq!(ok, u.argmin(d).map(|t| t.dims().to_vec()).ok());
        }
        same(x.t(), u.t().and_then(|t| t.contiguous()));
        same(x.softmax(), u.softmax());
        same(x.rms_norm(&ours(&[2]), 1), u.rms_norm(&theirs(&[2]), 1e-5));
        let ok = x.argmax_last().map(|t| t.shape().to_vec()).ok();
        assert_eq!(ok, u.argmax(xn::D::Minus1).map(|t| t.dims().to_vec()).ok());
    }
}

#[test]
fn conv_rules() {
    for groups in 1..3 {
        for cin in 1..4 {
            for cout in 1..4 {
                for kin in 1..3 {
                    let (x, u) = (ours(&[2, cin, 9]), theirs(&[2, cin, 9]));
                    let (k, w) = (ours(&[cout, kin, 3]), theirs(&[cout, kin, 3]));
                    for (stride, dilation) in [(1, 1), (2, 1), (3, 2)] {
                        let a = x.conv1d(&k, &None, stride, dilation, groups);
                        same(a, u.conv1d(&w, None, stride, 0, dilation, groups));
                    }
                    let (b, v) = (ours(&[2]), theirs(&[2]));
                    let a = x.conv1d(&k, &Some(b), 1, 1, groups);
                    same(a, u.conv1d(&w, Some(&v), 1, 0, 1, groups));
                    let (k, w) = (ours(&[cout, kin, 4]), theirs(&[cout, kin, 4]));
                    let a = x.conv_transpose1d(&k, &None, 2, groups);
                    same(a, u.conv_transpose1d(&w, None, 2, 0, 0, groups));
                }
            }
        }
    }
    let k = ours(&[1, 1, 3]);
    assert!(matches!(ours(&[1, 1, 2]).conv1d(&k, &None, 1, 1, 1), Err(Error::ConvLength { .. })));
    assert!(matches!(ours(&[1, 1, 9]).conv1d(&k, &None, 0, 1, 1), Err(Error::ConvLength { .. })));
    assert!(matches!(ours(&[1, 1, 9]).conv1d(&k, &None, 1, 1, 0), Err(Error::ConvChannels { .. })));
    assert!(matches!(ours(&[1, 1]).conv1d(&k, &None, 1, 1, 1), Err(Error::UnexpectedRank { .. })));
    let r = ours(&[1, 1, 0]).conv_transpose1d(&k, &None, 1, 1);
    assert!(matches!(r, Err(Error::ConvLength { .. })));
}

#[test]
fn rope_rules() {
    for (t, d, table) in [
        (3, 4, vec![3, 2]),
        (3, 4, vec![5, 2]),
        (3, 4, vec![2, 2]),
        (3, 4, vec![2, 3, 2]),
        (3, 4, vec![1, 3, 2]),
        (3, 5, vec![3, 2]),
        (3, 4, vec![3, 1]),
    ] {
        let (x, u) = (ours(&[2, 1, t, d]), theirs(&[2, 1, t, d]));
        let (c, s) = (ours(&table), ours(&table));
        same(x.rope_i(&c, &s), u.rope_i(&theirs(&table), &theirs(&table), 0));
    }
    let r = ours(&[1, 1, 2, 4]).rope_i(&ours(&[2, 2]), &ours(&[3, 2]));
    assert!(matches!(r, Err(Error::ShapeMismatch { .. })));
}

#[test]
fn linear_embedding_and_norms() {
    let l = Linear { kind: LinearKind::Plain, weight: ours(&[5, 3]), bias: Some(ours(&[5])) };
    assert_eq!(l.forward(&ours(&[2, 4, 3])).unwrap().shape(), shape(&[2, 4, 5]));
    assert!(matches!(l.forward(&ours(&[2, 4, 5])), Err(Error::Matmul { .. })));
    let e = Embedding { weight: ours(&[7, 3]), hidden_size: 3 };
    assert_eq!(e.hidden_size(), 3);
    let ids = Tensor::from_ids(&vec![1, 2, 3, 4, 5, 6], shape(&[2, 3])).unwrap();
    assert_eq!(e.forward(&ids).unwrap().shape(), shape(&[2, 3, 3]));
    let n = LayerNorm::new(ours(&[3]), ours(&[3]), 1).unwrap();
    assert_eq!(n.forward(&ours(&[2, 3])).unwrap().shape(), shape(&[2, 3]));
    assert!(matches!(n.forward(&ours(&[2, 4])), Err(Error::ShapeMismatch { .. })));
    let r = LayerNorm::new(ours(&[3, 1]), ours(&[3]), 1);
    assert!(matches!(r, Err(Error::UnexpectedRank { expected: 1, .. })));
    let r = Tensor::from_ids(&vec![1, 2], shape(&[3]));
    assert!(matches!(r, Err(Error::Reshape { .. })));
}

#[test]
fn sizes_that_do_not_fit() {
    let big = usize::MAX / 2;
    assert!(matches!(Tensor::zeros(Shape::D2(big, 3)), Err(Error::TooLarge)));
    assert!(Tensor::zeros(Shape::D3(big, 3, 0)).is_ok());
    assert!(Tensor::zeros(Shape::D4(big, 0, 5, 7)).is_ok());
    assert!(matches!(Tensor::zeros(Shape::D4(big, 1, 5, 7)), Err(Error::TooLarge)));
    assert_eq!(Shape::D4(2, 3, 4, 5).elem_count(), Some(120));
    assert_eq!(Shape::D0.elem_count(), Some(1));
    assert_eq!(shape(&[2, 3, 1, 5, 2, 7]).elem_count(), Some(420));
    assert_eq!(shape(&[big, big, 0, big, 1, 3]).elem_count(), Some(0));
    assert_eq!(shape(&[big, 1, 1, 1, 3]).elem_count(), None);
    let far = Tensor::zeros(Shape::D3(0, 1, big)).unwrap();
    assert!(matches!(Tensor::cat2(&far, &far, 2), Ok(_)));
    let r = far.pad_with_zeros(2, usize::MAX, 0);
    assert!(matches!(r, Err(Error::TooLarge)));
    assert!(matches!(Tensor::cat(&vec![], 0), Err(Error::EmptyList)));
    assert!(matches!(Tensor::stack(&vec![], 0), Err(Error::EmptyList)));
    let empty = Tensor::zeros(shape(&[2, 0])).unwrap();
    assert!(matches!(empty.softmax(), Err(Error::EmptyDim { .. })));
    assert!(matches!(empty.pad_with_same(1, 1, 1), Err(Error::EmptyDim { .. })));
}

#[test]
fn names_of_tensors() {
    let root = Path::root();
    assert_eq!(root.tensor_name("weight"), "weight");
    let p = root.pp("layers").pi(120).pp("self_attn");
    assert_eq!(p.tensor_name("in_proj_weight"), "layers.120.self_attn.in_proj_weight");
    assert_eq!(root.pi(0).tensor_name("x"), "0.x");
    assert_eq!(root.pi(1234567890).tensor_name("x"), "1234567890.x");
    assert_eq!(root.pp("").tensor_name("x"), ".x");
}

fn checkpoint(format: Format, entries: &[(&str, &[usize])]) -> Checkpoint {
    let entries = entries
        .iter()
        .map(|(n, d)| Entry { name: n.to_string(), shape: Shape::from_dims(&d.to_vec()) })
        .collect();
    Checkpoint { format, entries }
}

#[test]
fn lookups_in_a_checkpoint() {
    let entries: [(&str, &[usize]); 3] =
        [("a.weight", &[2, 3]), ("a.bias", &[2]), ("b.0.deep", &[1, 1, 1, 1, 1])];
    let c = checkpoint(Format::Safetensors, &entries);
    let a = Weights::root(&c).pp("a");
    assert!(a.contains("weight") && !a.contains("alpha"));
    let t = a.tensor("bias", shape(&[2])).unwrap();
    assert!(matches!(&t.0.op, Op::Weight(1)));
    assert!(matches!(a.tensor("alpha", shape(&[2])), Err(Error::MissingTensor { name: "alpha", .. })));
    let r = a.tensor("weight", shape(&[3, 2]));
    assert!(matches!(r, Err(Error::WeightShape { shape: Shape::D2(2, 3), .. })));
    let b = Weights::root(&c).pp("b").pi(0);
    let r = b.tensor("deep", shape(&[1]));
    assert!(matches!(r, Err(Error::WeightShape { name: "deep", .. })));
    let deep = b.tensor("deep", shape(&[1, 1, 1, 1, 1])).unwrap();
    assert_eq!(deep.shape().rank(), 5);
    let c = checkpoint(Format::Gguf, &entries);
    let t = Weights::root(&c).pp("a").tensor("weight", shape(&[3, 2])).unwrap();
    assert_eq!(t.shape(), shape(&[2, 3]));
}

#[test]
fn lists_keep_their_items() {
    let mut l = &list_from_ints(&vec![3, -1, 4]);
    let mut out = vec![];
    while let List::Cons(x, rest) = l {
        out.push(*x);
        l = rest;
    }
    assert_eq!(out, vec![3, -1, 4]);
    assert!(matches!(list_from_bools(&vec![]), List::Nil));
}

fn conv(norm: Option<Norm>, k: usize, stride: usize, mode: PadMode) -> Result<StreamableConv1d, Error> {
    let dims = [1, 1, k];
    let c = checkpoint(Format::Safetensors, &[("conv.conv.weight", &dims)]);
    StreamableConv1d::load(&Weights::root(&c), 1, 1, k, stride, 1, 1, false, true, norm, mode)
}

#[test]
fn convolutions_that_are_refused() {
    let m = PadMode::Constant;
    assert!(matches!(conv(Some(Norm::SpectralNorm), 3, 1, m), Err(Error::SpectralNorm)));
    assert!(matches!(conv(Some(Norm::TimeGroupNorm), 3, 1, m), Err(Error::TimeGroupNorm)));
    assert!(matches!(conv(None, 2, 3, m), Err(Error::KernelBelowStride { k_size: 2, stride: 3 })));
    let c = conv(Some(Norm::NoNorm), 3, 1, PadMode::Reflect).unwrap();
    assert_eq!((c.conv.kernel_size(), c.conv.stride(), c.conv.dilation()), (3, 1, 1));
    let x = ours(&[1, 1, 5]);
    assert!(matches!(c.forward(&x), Err(Error::ReflectPadding)));
    let mut s = c.init_state();
    let none = xn::streaming::StreamMask::empty();
    assert!(matches!(c.step(&Some(x.clone()), &mut s, &none), Err(Error::ReflectPadding)));
    assert!(matches!(c.step(&None, &mut s, &none), Ok(None)));
    let c = checkpoint(Format::Safetensors, &[]);
    let vb = Weights::root(&c);
    let r = NormConv1d::load(&vb, 1, 1, 1, true, None, false, 1, 1, 0);
    assert!(matches!(r, Err(Error::ConvGeometry)));
    let r = NormConvTranspose1d::load(&vb, 1, 1, 1, true, None, false, 1, 0);
    assert!(matches!(r, Err(Error::ConvGeometry)));
    let dims = [1, 1, 4];
    let c = checkpoint(Format::Safetensors, &[("convtr.convtr.weight", &dims)]);
    let vb = Weights::root(&c);
    let tr = StreamableConvTranspose1d::load(&vb, 1, 1, 4, 0, 1, false, false, None).unwrap();
    assert_eq!(tr.forward(&x).unwrap().shape(), shape(&[1, 1, 0]));
    let tr = StreamableConvTranspose1d::load(&vb, 1, 1, 9, 2, 1, false, true, None);
    assert!(matches!(tr, Err(Error::WeightShape { .. })));
}

#[test]
fn whole_convolutions_cover_every_sample() {
    // One output for each started step.
    for (k, stride) in [(4usize, 2usize), (7, 3), (3, 1)] {
        let c = conv(None, k, stride, PadMode::Constant).unwrap();
        for n in 1..20 {
            let y = c.forward(&ours(&[1, 1, n])).unwrap();
            assert_eq!(y.shape(), shape(&[1, 1, n.div_ceil(stride)]));
        }
    }
}

#[test]
fn masked_states_cannot_vanish() {
    let mask = xn::streaming::StreamMask::new(vec![true, false]);
    let none = xn::streaming::StreamMask::empty();
    let t = Some(ours(&[2, 3, 4]));
    assert!(matches!(apply_state_mask(&None, &t, &mask), Err(Error::VariableSteps)));
    assert!(matches!(apply_state_mask(&None, &t, &none), Ok(None)));
    assert!(matches!(apply_state_mask(&None, &None, &mask), Ok(None)));
    assert!(matches!(apply_state_mask(&t, &None, &mask), Ok(Some(_))));
    let other = Some(ours(&[2, 3, 5]));
    assert!(matches!(apply_state_mask(&t, &other, &mask), Err(Error::ShapeMismatch { .. })));
    let three = xn::streaming::StreamMask::new(vec![true, false, true]);
    assert!(matches!(apply_state_mask(&t, &t, &three), Err(Error::Broadcast { .. })));
}

#[test]
fn positions_of_a_batch() {
    let mut p = CachePositions::new(2, 5);
    assert_eq!(p.next_positions(3), Some(vec![0, 1, 2, 0, 1, 2]));
    p.indices_and_mask(3, &vec![true, false]).unwrap();
    assert_eq!(p.next_positions(2), Some(vec![3, 4, 0, 1]));
    assert_eq!(p.batch_size(), 2);
    // A step that fills the context takes a single lane.
    assert!(matches!(p.indices_and_mask(5, &vec![true, true]), Err(Error::Reshape { .. })));
    assert_eq!(p.positions, vec![3, 0]);
    let r = p.indices_and_mask(1, &vec![true, true, true]);
    assert!(matches!(r, Err(Error::MaskLanes { lanes: 3, batch: 2 })));
    assert_eq!(p.positions, vec![3, 0]);
    let r = p.indices_and_mask(1, &vec![true]);
    assert!(matches!(r, Err(Error::MaskLanes { lanes: 1, batch: 2 })));
    assert_eq!(p.positions, vec![4, 0]);
    p.positions[0] = usize::MAX - 1;
    assert_eq!(p.next_positions(1), None);
    assert!(matches!(p.indices_and_mask(1, &vec![true, true]), Err(Error::TooLarge)));
    let mut one = CachePositions::new(1, 2);
    let m = one.indices_and_mask(4, &vec![true]).unwrap();
    assert_eq!(m.shape(), shape(&[1, 1, 4, 4]));
}

#[test]
fn caches_take_what_is_theirs() {
    let c = KvCache::new(0, 2, 3, 5, 4).unwrap();
    let k = ours(&[2, 3, 1, 4]);
    let mask = CachePositions::new(2, 5).indices_and_mask(1, &vec![true, true]).unwrap();
    let (a, b) = c.append(&k, &k, &mask).unwrap();
    assert_eq!((a.shape(), b.shape()), (shape(&[2, 3, 5, 4]), shape(&[2, 3, 5, 4])));
    let long = ours(&[2, 3, 5, 4]);
    let (a, _) = c.append(&long, &long, &mask).unwrap();
    assert!(matches!(&a.0.op, Op::Input(0)));
    let wrong = ours(&[1, 3, 1, 4]);
    assert!(matches!(c.append(&wrong, &wrong, &mask), Err(Error::ShapeMismatch { .. })));
    assert!(matches!(KvCache::new(0, usize::MAX, 3, 5, 4), Err(Error::TooLarge)));
    let mut s = KvCacheState::new();
    assert_eq!(s.current_seq_len(), 0);
    s.k = Some(k);
    assert_eq!(s.current_seq_len(), 1);
    assert!(KvCacheState::default().v.is_none());
}

fn transformer() -> TransformerConfig {
    TransformerConfig {
        d_model: 4,
        num_heads: 2,
        num_layers: 1,
        causal: true,
        norm_first: true,
        bias_ff: true,
        bias_attn: true,
        layer_scale: Some(0),
        positional_embedding: PositionalEmbedding::NoEmbedding,
        use_conv_block: false,
        gating: None,
        norm: NormType::LayerNorm,
        context: 6,
        max_period: 0,
        kv_repeat: 1,
        dim_feedforward: 8,
        conv_layout: true,
    }
}

fn transformer_checkpoint() -> Checkpoint {
    checkpoint(
        Format::Safetensors,
        &[
            ("input_proj.weight", &[4, 3]),
            ("output_proj.0.weight", &[3, 4]),
            ("transformer.layers.0.self_attn.in_proj_weight", &[12, 4]),
            ("transformer.layers.0.self_attn.in_proj_bias", &[12]),
            ("transformer.layers.0.self_attn.out_proj.weight", &[4, 4]),
            ("transformer.layers.0.self_attn.out_proj.bias", &[4]),
            ("transformer.layers.0.linear1.weight", &[8, 4]),
            ("transformer.layers.0.linear1.bias", &[8]),
            ("transformer.layers.0.linear2.weight", &[4, 8]),
            ("transformer.layers.0.linear2.bias", &[4]),
            ("transformer.layers.0.norm1.weight", &[4]),
            ("transformer.layers.0.norm1.bias", &[4]),
            ("transformer.layers.0.norm2.alpha", &[1, 1, 4]),
            ("transformer.layers.0.norm2.bias", &[4]),
            ("transformer.layers.0.layer_scale_1.scale", &[4]),
            ("transformer.layers.0.layer_scale_2.scale", &[4]),
        ],
    )
}

#[test]
fn projected_transformer() {
    let c = transformer_checkpoint();
    let m = BatchedProjectedTransformer::load(&Weights::root(&c), 3, &transformer()).unwrap();
    let mut s = m.init_state(2).unwrap();
    let mask = xn::streaming::StreamMask::all_active(2);
    let x = ours(&[2, 3, 2]);
    let ys = m.forward(&x, &mut s, &mask).unwrap();
    assert_eq!(ys.len(), 1);
    assert_eq!(ys[0].shape(), shape(&[2, 3, 2]));
    let y = m.step(&Some(x), &mut s, &mask).unwrap().unwrap();
    assert_eq!(y.shape(), shape(&[2, 3, 2]));
    assert_eq!(s.builder.positions, vec![4, 4]);
    assert!(matches!(m.step(&None, &mut s, &mask), Ok(None)));
    let r = m.forward(&ours(&[1, 3, 2]), &mut s, &mask);
    assert!(matches!(r, Err(Error::BatchSize { got: 1, expected: 2 })));
    assert!(matches!(s.reset_batch_idx(2), Err(Error::BatchIndex { batch_idx: 2 })));
}

#[test]
fn transformers_that_are_refused() {
    let c = transformer_checkpoint();
    let vb = Weights::root(&c).pp("transformer");
    let load = |cfg: &TransformerConfig| BatchedTransformer::load(&vb, cfg);
    let ok = transformer();
    assert!(load(&ok).is_ok());
    assert!(matches!(load(&TransformerConfig { causal: false, ..ok }), Err(Error::NotCausal)));
    let r = load(&TransformerConfig { norm_first: false, ..ok });
    assert!(matches!(r, Err(Error::NotNormFirst)));
    assert!(matches!(load(&TransformerConfig { kv_repeat: 2, ..ok }), Err(Error::KvRepeat)));
    let r = load(&TransformerConfig { use_conv_block: true, ..ok });
    assert!(matches!(r, Err(Error::ConvBlock)));
    assert!(matches!(load(&TransformerConfig { num_heads: 0, ..ok }), Err(Error::NoHeads)));
    let sin = TransformerConfig { positional_embedding: PositionalEmbedding::Sin, ..ok };
    let m = load(&sin).unwrap();
    let mut s = m.init_state(1).unwrap();
    let mask = xn::streaming::StreamMask::all_active(1);
    let r = m.forward(&ours(&[1, 1, 4]), &mut s, &mask);
    assert!(matches!(r, Err(Error::SinEmbedding)));
    let (y, all) =
        load(&ok).unwrap().forward_with_intermediates(&ours(&[1, 1, 4]), &mut s, &mask).unwrap();
    assert_eq!((y.shape(), all.len()), (shape(&[1, 1, 4]), 1));
}

#[test]
fn seanet_refuses_recurrent_layers() {
    let cfg = SeaNetConfig {
        dimension: 1,
        channels: 1,
        causal: true,
        n_filters: 1,
        n_residual_layers: 0,
        ratios: vec![],
        activation: Activation::Gelu,
        norm: Norm::NoNorm,
        kernel_size: 1,
        residual_kernel_size: 1,
        last_kernel_size: 1,
        dilation_base: 1,
        pad_mode: PadMode::Constant,
        true_skip: true,
        compress: 1,
        lstm: Some(2),
        disable_norm_outer_blocks: 0,
        final_activation: Some(Activation::Tanh),
    };
    let c = checkpoint(Format::Safetensors, &[]);
    assert!(matches!(SeaNetEncoder::load(&Weights::root(&c), &cfg), Err(Error::SeaNetLstm)));
    assert!(matches!(SeaNetDecoder::load(&Weights::root(&c), &cfg), Err(Error::SeaNetLstm)));
    let dims = [1, 1, 1];
    let c = checkpoint(
        Format::Safetensors,
        &[
            ("model.0.conv.conv.weight", &dims),
            ("model.0.conv.conv.bias", &[1]),
            ("model.2.conv.conv.weight", &dims),
            ("model.2.conv.conv.bias", &[1]),
        ],
    );
    let cfg = SeaNetConfig { lstm: Some(0), ..cfg };
    let m = SeaNetDecoder::load(&Weights::root(&c), &cfg).unwrap();
    let y = m.forward(&ours(&[1, 1, 3])).unwrap();
    assert!(matches!(&y.0.op, Op::Unary(UnaryOp::Tanh, _)));
    let mut s = m.init_state();
    s.reset_batch_idx(0).unwrap();
}

#[test]
fn quantizers_on_their_own() {
    let c = checkpoint(
        Format::Safetensors,
        &[
            ("_codebook.cluster_usage", &[7]),
            ("_codebook.embedding_sum", &[7, 2]),
            ("project_in.weight", &[2, 4]),
            ("project_out.weight", &[4, 2]),
        ],
    );
    let vb = Weights::root(&c);
    let q = VectorQuantization::load(&vb, 4, 7, Some(2)).unwrap();
    let codes = q.encode(&ours(&[3, 4, 5])).unwrap();
    assert_eq!(codes.shape(), shape(&[3, 5]));
    assert_eq!(q.decode(&codes).unwrap().shape(), shape(&[3, 4, 5]));
    let book = EuclideanCodebook::load(&vb.pp("_codebook"), 2, 7).unwrap();
    assert_eq!(book.encode(&ours(&[6, 2])).unwrap().shape(), shape(&[6]));
    assert!(matches!(book.encode(&ours(&[2])), Err(Error::Matmul { .. })));
    // Codes of any rank have vectors of one rank more, and those have codes of the same shape.
    for d in [vec![6], vec![2, 3], vec![2, 1, 3, 2], vec![1, 2, 1, 3, 2], vec![2, 1, 1, 2, 1, 2]] {
        let ids = Tensor::from_ids(&vec![0; d.iter().product()], shape(&d)).unwrap();
        let frames = book.decode(&ids).unwrap();
        let mut wide = d.clone();
        wide.push(2);
        assert_eq!(frames.shape().to_vec(), wide);
        assert_eq!(book.encode(&frames).unwrap().shape().to_vec(), d);
    }
    let none = ResidualVectorQuantization::load(&vb, 0, 4, 7, None).unwrap();
    assert!(matches!(none.decode(&ours(&[1, 2, 3])), Err(Error::EmptyRvq)));
    assert!(matches!(none.encode(&ours(&[1, 2, 3])), Err(Error::EmptyList)));
}
