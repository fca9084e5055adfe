use std::sync::Arc;

use xn::streaming::StreamMask;
use xn_moshi::checkpoint::{Checkpoint, Entry, Format, Weights};
use xn_moshi::error::Error;
use xn_moshi::list::List;
use xn_moshi::s2s::{add_sin_embeddings, Config, DepformerConfig, Model, PerBatch, State, StepRun};
use xn_moshi::seanet::Activation;
use xn_moshi::shape::Shape;
use xn_moshi::tensor::{Op, Tensor};
use xn_moshi::transformer::{Config as TransformerConfig, PositionalEmbedding};
use xn_moshi::transformer_with_ca::{CaSrc, Transformer};
use xn_moshi::NormType;

fn entry(name: &str, dims: &[usize]) -> Entry {
    Entry { name: name.to_string(), shape: Shape::from_dims(&dims.to_vec()) }
}

fn config(delays: Vec<usize>, n_q: usize) -> Config {
    Config {
        transformer: TransformerConfig {
            d_model: 8,
            num_heads: 2,
            num_layers: 1,
            causal: true,
            norm_first: true,
            bias_ff: false,
            bias_attn: false,
            layer_scale: None,
            positional_embedding: PositionalEmbedding::Rope,
            use_conv_block: false,
            gating: Some(Activation::Silu),
            norm: NormType::RmsNorm,
            context: 10,
            max_period: 10_000f64.to_bits(),
            kv_repeat: 1,
            dim_feedforward: 32,
            conv_layout: false,
        },
        moshi_name: "moshi".to_string(),
        mimi_name: "mimi".to_string(),
        speaker_wavs_mimi_name: "speaker".to_string(),
        delays,
        depformer: DepformerConfig {
            num_layers: 1,
            dim: 4,
            num_heads: 2,
            dim_feedforward: 12,
            low_rank_embeddings: Some(2),
            norm: NormType::LayerNorm,
            weights_per_step_schedule: vec![0; n_q],
        },
        text_card: 5,
        audio_card: 6,
        text_card_out: 7,
        conditioners: vec![],
        max_speakers: 3,
    }
}

fn layer(entries: &mut Vec<Entry>, p: &str, d: usize, hidden: usize) {
    entries.push(entry(&format!("{p}.self_attn.in_proj_weight"), &[3 * d, d]));
    entries.push(entry(&format!("{p}.self_attn.out_proj.weight"), &[d, d]));
    entries.push(entry(&format!("{p}.gating.linear_in.weight"), &[2 * hidden, d]));
    entries.push(entry(&format!("{p}.gating.linear_out.weight"), &[d, hidden]));
    entries.push(entry(&format!("{p}.norm1.alpha"), &[1, 1, d]));
    entries.push(entry(&format!("{p}.norm2.alpha"), &[1, 1, d]));
}

fn checkpoint(n_q: usize, combined: bool) -> Checkpoint {
    let mut e = vec![];
    layer(&mut e, "transformer.layers.0", 8, 22);
    let p = "transformer.layers.0";
    e.push(entry(&format!("{p}.norm_cross.weight"), &[8]));
    e.push(entry(&format!("{p}.norm_cross.bias"), &[8]));
    if combined {
        e.push(entry(&format!("{p}.cross_attention.in_proj_weight"), &[24, 8]));
    } else {
        e.push(entry(&format!("{p}.cross_attention.in_proj_weight_q"), &[8, 8]));
        e.push(entry(&format!("{p}.cross_attention.in_proj_weight_kv"), &[16, 8]));
    }
    e.push(entry(&format!("{p}.cross_attention.out_proj.weight"), &[8, 8]));
    for i in 0..n_q {
        let p = format!("depformer.{i}");
        // 2 * 12 / 3
        layer(&mut e, &format!("{p}.transformer.layers.0"), 4, 8);
        e.push(entry(&format!("{p}.emb.low_rank.weight"), &[4, 2]));
        e.push(entry(&format!("{p}.emb.weight"), &[if i == 0 { 6 } else { 7 }, 2]));
        e.push(entry(&format!("{p}.linear_in.weight"), &[4, 8]));
        e.push(entry(&format!("{p}.linear_out.weight"), &[6, 4]));
        e.push(entry(&format!("{p}.norm.weight"), &[4]));
        e.push(entry(&format!("{p}.norm.bias"), &[4]));
        e.push(entry(&format!("emb.{i}.weight"), &[7, 8]));
    }
    e.push(entry("text_emb.weight", &[6, 8]));
    e.push(entry("text_linear.weight", &[7, 8]));
    e.push(entry("out_norm.alpha", &[1, 1, 8]));
    let p = "condition_provider.conditioners.speaker_wavs";
    e.push(entry(&format!("{p}.output_proj.weight"), &[8, 512]));
    e.push(entry(&format!("{p}.learnt_padding"), &[1, 1, 8]));
    Checkpoint { format: Format::Safetensors, entries: e }
}

fn model(delays: Vec<usize>, n_q: usize) -> Arc<Model> {
    let ckpt = checkpoint(n_q, true);
    Arc::new(Model::load(&Weights::root(&ckpt), &config(delays, n_q), None).unwrap())
}

fn source() -> CaSrc {
    CaSrc::Tokens(Tensor::input(1, Shape::D3(2, 5, 8)).unwrap())
}

/// One step in which codebook `cb` gets the token `100 * cb + step`.
fn step(s: &mut State, n: i64) -> StepRun {
    let mask = StreamMask::all_active(2);
    let (mut run, first) = s.begin_step(&source(), &mask, &None, &vec![n, n]).unwrap();
    assert_eq!(first.shape(), Shape::D1(2));
    let mut cb = 0;
    loop {
        let sampled = vec![100 * cb + n, 100 * cb + n];
        match s.step(&mut run, sampled).unwrap() {
            None => return run,
            Some(t) => assert_eq!(t.shape(), Shape::D1(2)),
        }
        cb += 1;
    }
}

#[test]
fn delays_of_the_codebooks() {
    assert_eq!(model(vec![9, 1, 2], 4).audio_delays, vec![1, 2, 2, 2]);
    assert_eq!(model(vec![3], 2).audio_delays, vec![3, 3]);
    let ckpt = checkpoint(2, true);
    let r = Model::load(&Weights::root(&ckpt), &config(vec![], 2), None);
    assert!(matches!(r, Err(Error::NoDelays)));
}

#[test]
fn frames_line_up_by_the_delays() {
    let m = model(vec![0, 0, 2, 1], 3);
    assert_eq!(m.n_slices(), 3);
    assert_eq!(m.max_speakers(), 3);
    let mut s = Model::init_state(&m, 2, 0).unwrap();
    assert_eq!((s.batch_size(), s.n_slices()), (2, 3));
    assert!(s.last_audio_tokens().is_none());
    for n in 0..5 {
        step(&mut s, n);
        assert_eq!(s.frames_processed(1), n as usize + 1);
        match s.last_audio_tokens() {
            None => assert!(n < 2),
            // The codebooks are delayed by 0, 2 and 1 steps.
            Some(frames) => {
                let t = n - 2;
                assert_eq!(frames, vec![vec![t, 100 + t + 2, 200 + t + 1]; 2]);
            }
        }
    }
    s.reset_batch_idx(0, None).unwrap();
    assert!(s.last_audio_tokens().is_none());
    assert_eq!((s.frames_processed(0), s.frames_processed(1)), (0, 5));
}

#[test]
fn tokens_are_fed_once_their_delay_has_passed() {
    let m = model(vec![0, 0, 2, 1], 3);
    let mut s = Model::init_state(&m, 2, 0).unwrap();
    for n in 0..2 {
        step(&mut s, n);
    }
    let mask = StreamMask::all_active(2);
    let before = s.transformer.builder.positions.clone();
    let (run, _) = s.begin_step(&source(), &mask, &None, &vec![0, 0]).unwrap();
    assert_eq!(before, vec![2, 2]);
    assert_eq!(s.transformer.builder.positions, vec![3, 3]);
    assert_eq!(run.ys.shape(), Shape::D3(2, 1, 8));
    assert!(run.tokens.is_empty());
}

#[test]
fn source_is_projected_once() {
    let m = model(vec![0], 2);
    let mut s = Model::init_state(&m, 2, 0).unwrap();
    assert!(s.cross_kv.is_none());
    step(&mut s, 0);
    let kv = s.cross_kv.as_ref().unwrap();
    assert_eq!(kv.len(), 1);
    let shape = match &kv[0] {
        CaSrc::KeysValues(k, v) => {
            assert_eq!(k.shape(), v.shape());
            k.shape()
        }
        CaSrc::Tokens(_) => Shape::D0,
    };
    assert_eq!(shape, Shape::D4(2, 2, 5, 4));
    s.reset_batch_idx(1, Some(3)).unwrap();
    assert!(s.cross_kv.is_none());
    assert!(matches!(&s.temperature.0.op, Op::SliceSet { offset: 1, .. }));
    assert!(matches!(s.reset_batch_idx(2, None), Err(Error::BatchIndex { batch_idx: 2 })));
}

#[test]
fn steps_check_their_tokens() {
    let m = model(vec![0], 2);
    let mut s = Model::init_state(&m, 2, 0).unwrap();
    let mask = StreamMask::all_active(2);
    let r = s.begin_step(&source(), &mask, &None, &vec![1]);
    assert!(matches!(r, Err(Error::SemanticTokens { got: 1, batch: 2 })));
    let (mut run, _) = s.begin_step(&source(), &mask, &None, &vec![1, 2]).unwrap();
    let r = s.step(&mut run, vec![1]);
    assert!(matches!(r, Err(Error::SampledTokens { got: 1, batch: 2 })));
    assert!(s.step(&mut run, vec![8, 9]).unwrap().is_some());
    assert!(s.step(&mut run, vec![3, 4]).unwrap().is_none());
    // The first codebook has the semantic tokens in place of those sampled.
    assert_eq!(run.tokens, vec![vec![1, 2], vec![3, 4]]);
    assert_eq!(s.last_audio_tokens(), Some(vec![vec![1, 3], vec![2, 4]]));
    assert!(matches!(s.step(&mut run, vec![3, 4]), Err(Error::StepDone)));
    let r = s.begin_step(&source(), &StreamMask::empty(), &None, &vec![1, 2]);
    assert!(matches!(r, Err(Error::MaskRequired)));
}

#[test]
fn depformer_needs_layer_norms_and_slices() {
    let ckpt = checkpoint(2, true);
    let mut cfg = config(vec![0], 2);
    cfg.depformer.norm = NormType::RmsNorm;
    assert!(matches!(Model::load(&Weights::root(&ckpt), &cfg, None), Err(Error::DepformerNorm)));
    let m = model(vec![0], 0);
    let mut s = Model::init_state(&m, 2, 0).unwrap();
    let r = s.begin_step(&source(), &StreamMask::all_active(2), &None, &vec![1, 2]);
    assert!(matches!(r, Err(Error::NoSlices)));
}

#[test]
fn cross_attention_weights_in_both_layouts() {
    let cfg = config(vec![0], 1).transformer;
    for combined in [true, false] {
        let ckpt = checkpoint(1, combined);
        let vb = Weights::root(&ckpt).pp("transformer");
        let t = Transformer::load(&vb, &cfg).unwrap();
        let q = &t.layers[0].cross_attn.in_proj_q.weight;
        let kv = &t.layers[0].cross_attn.in_proj_kv.weight;
        assert_eq!((q.shape(), kv.shape()), (Shape::D2(8, 8), Shape::D2(16, 8)));
        assert_eq!(matches!(&q.0.op, Op::Narrow { .. }), combined);
        let xs = Tensor::input(0, Shape::D3(1, 1, 8)).unwrap();
        let src = Tensor::input(1, Shape::D3(1, 5, 8)).unwrap();
        let kvs = t.compute_cross_kv(&src).unwrap();
        assert_eq!(kvs[0].0.shape(), Shape::D4(1, 2, 5, 4));
        let mut state = t.init_state(1).unwrap();
        let mask = StreamMask::all_active(1);
        let tokens = vec![CaSrc::Tokens(src)];
        let y = t.forward(&xs, &tokens, &mut state, &mask).unwrap();
        assert_eq!(y.shape(), Shape::D3(1, 1, 8));
        let r = t.forward(&xs, &vec![], &mut state, &mask);
        assert!(matches!(r, Err(Error::CrossKv { got: 0, layers: 1 })));
    }
}

#[test]
fn speaker_source_is_padded_to_all_speakers() {
    let m = model(vec![0], 1);
    let wavs = Tensor::input(0, Shape::D3(1, 512, 5)).unwrap();
    assert_eq!(m.speaker_wavs_ca_src(&wavs).unwrap().shape(), Shape::D3(1, 15, 8));
}

#[test]
fn sinusoidal_embedding_keeps_the_shape() {
    let x = Tensor::input(0, Shape::D3(2, 3, 8)).unwrap();
    assert_eq!(add_sin_embeddings(&x).unwrap().shape(), Shape::D3(2, 3, 8));
    let odd = Tensor::input(0, Shape::D3(2, 3, 7)).unwrap();
    assert!(matches!(add_sin_embeddings(&odd), Err(Error::Broadcast { .. })));
}

#[test]
fn lanes_start_empty_and_can_be_reset() {
    let mut b = PerBatch::new(2);
    assert_eq!((b.index, b.audio_tokens.len()), (0, 2));
    b.index = 3;
    b.audio_tokens[1].push(5);
    b.reset();
    assert_eq!(b.index, 0);
    assert_eq!(b.audio_tokens, vec![Vec::<i64>::new(), vec![]]);
}

#[test]
fn source_worked_out_beforehand() {
    let cfg = config(vec![0], 1).transformer;
    let ckpt = checkpoint(1, true);
    let t = Transformer::load(&Weights::root(&ckpt).pp("transformer"), &cfg).unwrap();
    let xs = Tensor::input(0, Shape::D3(1, 2, 8)).unwrap();
    let src = CaSrc::Tokens(Tensor::input(1, Shape::D3(1, 5, 8)).unwrap());
    let kvs = t.compute_cross_kv_ca_src(&src).unwrap();
    assert!(matches!(&kvs[0], CaSrc::KeysValues(..)));
    let mask = StreamMask::all_active(1);
    let mut s1 = t.init_state(1).unwrap();
    let mut s2 = t.init_state(1).unwrap();
    let a = t.forward(&xs, &kvs, &mut s1, &mask).unwrap();
    let b = t.forward(&xs, &[src], &mut s2, &mask).unwrap();
    assert_eq!(format!("{a:?}"), format!("{b:?}"));
    assert_eq!(a.shape(), Shape::D3(1, 2, 8));
    assert_eq!(s1.builder.positions, vec![2]);
    assert_eq!(s2.builder.positions, vec![2]);
}

#[test]
fn default_conditions_are_kept() {
    let ckpt = checkpoint(1, true);
    let cond = Tensor::input(7, Shape::D3(1, 1, 8)).unwrap();
    let vb = Weights::root(&ckpt);
    let m = Model::load(&vb, &config(vec![0], 1), Some(cond)).unwrap();
    assert!(matches!(&m.default_conditions.unwrap().0.op, Op::Input(7)));
}

#[test]
fn newest_tokens_are_fed() {
    let m = model(vec![0, 0, 2, 1], 3);
    let mut s = Model::init_state(&m, 2, 0).unwrap();
    let mask = StreamMask::all_active(2);
    let pad = m.audio_card as i64;
    for n in 0..4i64 {
        let want: Vec<Vec<i64>> = [0, 2, 1]
            .iter()
            .zip([0, 100, 200])
            .map(|(delay, base)| vec![if n > *delay { base + n - 1 } else { pad }; 2])
            .collect();
        assert_eq!(s.audio_tokens_for_current_step(), want);
        let mut probe = Model::init_state(&m, 2, 0).unwrap();
        probe.per_batch = s.per_batch.clone();
        let (run, _) = probe.begin_step(&source(), &mask, &None, &[0, 0]).unwrap();
        let mut got = vec![];
        first_input(&run.ys, &mut |t| {
            if got.is_empty() {
                ids(t, &mut got);
            }
        });
        assert_eq!(got, want);
        step(&mut s, n);
    }
}

/// Walks down the first operands of a description and shows each sum on the way.
fn first_input(t: &Tensor, f: &mut dyn FnMut(&Tensor)) {
    match &t.0.op {
        Op::Binary(_, a, b) => {
            if matches!(&b.0.op, Op::Unsqueeze(..)) {
                f(t);
            } else {
                first_input(a, f);
            }
        }
        Op::LayerNorm { xs, .. } | Op::RmsNorm { xs, .. } => first_input(xs, f),
        _ => {}
    }
}

/// The tokens that a sum of embeddings looks up, in order.
fn ids(t: &Tensor, out: &mut Vec<Vec<i64>>) {
    match &t.0.op {
        Op::Binary(_, a, b) => {
            ids(a, out);
            ids(b, out);
        }
        Op::Unsqueeze(a, _) | Op::Reshape(a) => ids(a, out),
        Op::IndexSelect { ids: tokens, .. } => ids(tokens, out),
        Op::Ids(l) => {
            let mut row = vec![];
            let mut cur = l;
            while let List::Cons(x, rest) = cur {
                row.push(*x);
                cur = rest;
            }
            out.push(row);
        }
        _ => {}
    }
}

#[test]
fn a_whole_step_adds_one_token_of_each_codebook() {
    let m = model(vec![0, 0, 2, 1], 3);
    let mut s = Model::init_state(&m, 2, 0).unwrap();
    for n in 0..3i64 {
        let mask = StreamMask::all_active(2);
        let semantic = vec![50 + n, 60 + n];
        let (mut run, _) = s.begin_step(&source(), &mask, &None, &semantic).unwrap();
        for cb in 0..3i64 {
            let next = s.step(&mut run, vec![100 * cb + n, 100 * cb + n + 10]).unwrap();
            assert_eq!(next.is_none(), cb == 2);
            assert_eq!(run.tokens[0], semantic);
        }
        for (lane, p) in s.per_batch.iter().enumerate() {
            let lane = lane as i64;
            assert_eq!(p.index, n as usize + 1);
            let newest: Vec<i64> = p.audio_tokens.iter().map(|row| row[n as usize]).collect();
            assert_eq!(newest, vec![50 + 10 * lane + n, 100 + n + 10 * lane, 200 + n + 10 * lane]);
            assert!(p.audio_tokens.iter().all(|row| row.len() == n as usize + 1));
        }
    }
}
