use std::sync::Arc;

use xn::streaming::StreamMask;
use xn_moshi::asr::{
    condition_values, first_probabilities, lm_config, lm_weight_ignored, tokenizer_weight_ignored,
    Asr, AsrState, AsrWord, AudioTokens, ItemState, StepInputs, TOKEN_EOP, TOKEN_EOS, TOKEN_PAD,
    TOKEN_SILENCE_PAD,
};
use xn_moshi::checkpoint::{Checkpoint, Entry, Format, Weights};
use xn_moshi::error::Error;
use xn_moshi::lm;
use xn_moshi::moshi;
use xn_moshi::seanet::Activation;
use xn_moshi::shape::Shape;
use xn_moshi::tensor::{Op, Tensor};
use xn_moshi::transformer::{Config as TransformerConfig, PositionalEmbedding};
use xn_moshi::NormType;

fn entry(name: &str, dims: &[usize]) -> Entry {
    Entry { name: name.to_string(), shape: Shape::from_dims(&dims.to_vec()) }
}

fn transformer_config() -> TransformerConfig {
    TransformerConfig {
        d_model: 8,
        num_heads: 2,
        num_layers: 2,
        causal: true,
        norm_first: true,
        bias_ff: false,
        bias_attn: false,
        layer_scale: None,
        positional_embedding: PositionalEmbedding::Rope,
        use_conv_block: false,
        gating: Some(Activation::Silu),
        norm: NormType::RmsNormF32,
        context: 10,
        max_period: 10_000f64.to_bits(),
        kv_repeat: 1,
        dim_feedforward: 32,
        conv_layout: false,
    }
}

fn config(extra_heads: Option<lm::ExtraHeadsConfig>) -> lm::Config {
    lm::Config {
        transformer: transformer_config(),
        text_in_vocab_size: 11,
        text_out_vocab_size: 10,
        audio_vocab_size: 21,
        audio_codebooks: 2,
        extra_heads,
    }
}

fn checkpoint() -> Checkpoint {
    let mut entries = vec![
        entry("text_emb.weight", &[11, 8]),
        entry("out_norm.alpha", &[1, 1, 8]),
        entry("text_linear.weight", &[10, 8]),
        entry("emb.0.weight", &[21, 8]),
        entry("emb.1.weight", &[21, 8]),
        entry("extra_heads.0.weight", &[3, 8]),
        entry("extra_heads_mixer.norms.0.weight", &[8]),
        entry("extra_heads_mixer.norms.0.bias", &[8]),
        entry("extra_heads_mixer.norms.1.weight", &[8]),
        entry("extra_heads_mixer.norms.1.bias", &[8]),
        entry("extra_heads_mixer.weights", &[2]),
        entry("extra_heads_mixer.scorer.0.weight", &[32, 8]),
        entry("extra_heads_mixer.scorer.0.bias", &[32]),
        entry("extra_heads_mixer.scorer.2.weight", &[1, 32]),
    ];
    for i in 0..2 {
        let p = format!("transformer.layers.{i}");
        entries.push(entry(&format!("{p}.self_attn.in_proj_weight"), &[24, 8]));
        entries.push(entry(&format!("{p}.self_attn.out_proj.weight"), &[8, 8]));
        entries.push(entry(&format!("{p}.gating.linear_in.weight"), &[44, 8]));
        entries.push(entry(&format!("{p}.gating.linear_out.weight"), &[8, 22]));
        entries.push(entry(&format!("{p}.norm1.alpha"), &[1, 1, 8]));
        entries.push(entry(&format!("{p}.norm2.alpha"), &[1, 1, 8]));
    }
    Checkpoint { format: Format::Safetensors, entries }
}

fn heads(from_layer: Option<Vec<usize>>) -> lm::ExtraHeadsConfig {
    lm::ExtraHeadsConfig {
        num_heads: 1,
        dim: 3,
        from_layer,
        hidden_dim: None,
        mixer_affine: true,
        residual_blocks: 0,
    }
}

fn asr(delay: usize, extra_heads: Option<lm::ExtraHeadsConfig>) -> Asr {
    let ckpt = checkpoint();
    let model = lm::LmModel::load(&Weights::root(&ckpt), &config(extra_heads)).unwrap();
    Asr::new(delay, 0.5f32.to_bits(), model)
}

fn state(delay: usize, batch_size: usize) -> AsrState {
    asr(delay, None).init_state(batch_size).unwrap()
}

fn feed(item: &mut ItemState, tokens: &[u32], delay: usize) -> Vec<AsrWord> {
    let mut words = vec![];
    for &t in tokens {
        item.on_text_token(t, delay, &mut words);
    }
    words
}

#[test]
fn words_are_reported_with_their_times() {
    let mut item = ItemState::new(3, 10);
    let words = feed(&mut item, &[7, TOKEN_PAD, 8, 9, TOKEN_PAD, TOKEN_EOP, 6, TOKEN_EOS], 2);
    // The first token comes before the delay and is dropped.
    assert_eq!(words.len(), 5);
    assert!(matches!(
        &words[0],
        AsrWord::Word { tokens, start_time: 0, batch_idx: 3 } if tokens == &vec![8, 9]
    ));
    assert!(matches!(&words[1], AsrWord::EndWord { stop_time: 4, batch_idx: 3 }));
    assert!(matches!(
        &words[2],
        AsrWord::Word { tokens, start_time: 4, batch_idx: 3 } if tokens == &vec![6]
    ));
    assert!(matches!(&words[3], AsrWord::EndWord { stop_time: 6, batch_idx: 3 }));
    assert!(matches!(&words[4], AsrWord::EndOfStream { batch_idx: 3 }));
    assert!(words.iter().all(|w| w.batch_idx() == 3));
}

#[test]
fn nothing_is_reported_before_the_delay() {
    let mut item = ItemState::new(0, 10);
    assert!(feed(&mut item, &[7, 8, TOKEN_EOS], 5).is_empty());
    assert_eq!(item.step_idx, 3);
    assert_eq!(item.text_token(), TOKEN_EOS);
    assert!(item.flush_tokens().is_none());
}

#[test]
fn silence_ends_a_word_without_a_stop_time() {
    let mut item = ItemState::new(0, 10);
    let words = feed(&mut item, &[7, TOKEN_SILENCE_PAD, TOKEN_SILENCE_PAD], 0);
    assert_eq!(words.len(), 1);
    assert!(matches!(&words[0], AsrWord::Word { tokens, .. } if tokens == &vec![7]));
    assert!(item.unended_word);
    // The end of a word is reported once.
    let words = feed(&mut item, &[TOKEN_EOP, TOKEN_EOP], 0);
    assert_eq!(words.len(), 1);
    assert!(matches!(&words[0], AsrWord::EndWord { stop_time: 4, .. }));
}

#[test]
fn no_token_is_lost() {
    let tokens = [5, 6, TOKEN_PAD, 7, TOKEN_EOP, 8, 9, TOKEN_PAD, TOKEN_PAD, 5];
    for delay in 0..4usize {
        let mut item = ItemState::new(0, 10);
        let words = feed(&mut item, &tokens, delay);
        let mut spelled: Vec<u32> = vec![];
        for w in &words {
            if let AsrWord::Word { tokens, .. } = w {
                spelled.extend(tokens);
            }
        }
        spelled.extend(&item.word_tokens);
        let first = delay.saturating_sub(1);
        let want: Vec<u32> =
            tokens[first..].iter().copied().filter(|t| ![0, 2, 3, 4].contains(t)).collect();
        assert_eq!(spelled, want);
    }
}

#[test]
fn flush_reports_the_pending_word() {
    let mut s = state(0, 2);
    let mut words = vec![];
    s.batch[1].on_text_token(7, 0, &mut words);
    s.batch[1].on_text_token(8, 0, &mut words);
    assert!(words.is_empty());
    assert!(s.flush_tokens(0).unwrap().is_none());
    let w = s.flush_tokens(1).unwrap().unwrap();
    assert!(matches!(w, AsrWord::Word { tokens, start_time: 0, batch_idx: 1 } if tokens == vec![7, 8]));
    assert!(s.flush_tokens(1).unwrap().is_none());
    assert!(matches!(s.flush_tokens(2), Err(Error::BatchIndex { batch_idx: 2 })));
}

#[test]
fn reset_starts_a_lane_anew() {
    let mut item = ItemState::new(4, 10);
    feed(&mut item, &[7, TOKEN_EOP, 8], 0);
    item.on_explicit_audio_eos();
    item.reset(true);
    assert!(item.is_first_step());
    assert!(item.with_text_bias());
    assert!(!item.use_audio_pad());
    assert_eq!((item.batch_idx, item.text_token, item.last_stop_time), (4, 0, 0));
    assert!(item.word_tokens.is_empty() && !item.unended_word);
}

fn audio(batch_size: usize, steps: usize) -> AudioTokens {
    let n = batch_size * 2 * steps;
    AudioTokens::new((0..n as i64).collect(), batch_size, 2, steps).unwrap()
}

#[test]
fn audio_tokens_must_fill_their_shape() {
    assert!(matches!(AudioTokens::new(vec![1, 2, 3], 1, 2, 2), Err(Error::Reshape { .. })));
}

#[test]
fn first_step_drops_its_audio() {
    let mut s = state(0, 3);
    let a = audio(3, 2);
    let mask = StreamMask::new(vec![true, true, false]);
    let i = s.step_tokens(&a, 1, &mask).unwrap();
    assert_eq!(i.audio_tokens, vec![vec![1, 3], vec![5, 7], vec![9, 11]]);
    assert_eq!(i.text_tokens, vec![10, 10, 10]);
    assert_eq!(i.audio_ids, vec![vec![20, 20, 0], vec![20, 20, 0]]);
    let mut words = vec![];
    s.batch[0].on_text_token(7, 0, &mut words);
    s.batch[1].on_text_token(8, 0, &mut words);
    s.explicit_audio_eos_for_batch_idx(1).unwrap();
    let i = s.step_tokens(&a, 1, &mask).unwrap();
    assert_eq!(i.text_tokens, vec![7, 8, 10]);
    assert_eq!(i.audio_ids, vec![vec![1, 20, 0], vec![3, 20, 0]]);
    let err = s.explicit_audio_eos_for_batch_idx(3);
    assert!(matches!(err, Err(Error::BatchIndex { batch_idx: 3 })));
}

#[test]
fn steps_check_their_lanes() {
    let s = state(0, 3);
    let mask = StreamMask::empty();
    let r = s.step_tokens(&audio(2, 1), 0, &mask);
    assert!(matches!(r, Err(Error::BatchSize { got: 2, expected: 3 })));
    let r = s.step_tokens(&audio(3, 1), 0, &StreamMask::new(vec![true]));
    assert!(matches!(r, Err(Error::MaskLanes { lanes: 1, batch: 3 })));
    let i = s.step_tokens(&audio(3, 1), 0, &mask).unwrap();
    assert_eq!(i.audio_ids[0], vec![20, 20, 20]);
}

#[test]
fn a_step_runs_the_model() {
    let mut s = asr(0, Some(heads(None))).init_state(2).unwrap();
    let mask = StreamMask::new(vec![true, false]);
    let i = s.step_tokens(&audio(2, 1), 0, &mask).unwrap();
    let out = s.forward_step(&i, &mask).unwrap();
    assert_eq!(s.model_step_idx(), 1);
    assert_eq!(out.sampled.shape(), Shape::D1(2));
    assert_eq!(out.heads.len(), 1);
    assert_eq!(out.heads[0].shape(), Shape::D3(2, 1, 3));
    assert_eq!(s.lm.transformer.builder.positions, vec![1, 0]);
    let (r, heard) = s.finish_step(i, &vec![7, 8], vec![vec![0, 0]], &mask).unwrap();
    assert!(r.words.is_empty() && heard.is_empty());
    assert_eq!(r.text_tokens, vec![10, 10]);
    assert_eq!((s.batch[0].text_token, s.batch[0].step_idx), (7, 1));
    assert_eq!((s.batch[1].text_token, s.batch[1].step_idx), (10, 0));
}

#[test]
fn the_model_needs_a_mask() {
    let mut s = state(0, 1);
    let mask = StreamMask::empty();
    let i = s.step_tokens(&audio(1, 1), 0, &mask).unwrap();
    assert!(matches!(s.forward_step(&i, &mask), Err(Error::MaskRequired)));
    assert_eq!(s.model_step_idx(), 0);
}

#[test]
fn listeners_hear_active_lanes_past_the_delay() {
    let mut s = state(2, 3);
    s.reset_batch_idx(0, None, &None, true).unwrap();
    s.reset_batch_idx(1, None, &None, true).unwrap();
    let mask = StreamMask::new(vec![true, false, true]);
    let inputs = || StepInputs { audio_tokens: vec![], audio_ids: vec![], text_tokens: vec![] };
    let (_, heard) = s.finish_step(inputs(), &vec![7, 7, 7], vec![], &mask).unwrap();
    assert!(heard.is_empty());
    let (_, heard) = s.finish_step(inputs(), &vec![8, 8, 8], vec![], &mask).unwrap();
    assert_eq!(heard, vec![0]);
    let r = s.finish_step(inputs(), &vec![8, 8, 8], vec![], &StreamMask::new(vec![true]));
    assert!(matches!(r, Err(Error::MaskLanes { lanes: 1, batch: 3 })));
}

#[test]
fn biases_of_boosted_lanes() {
    let mut s = state(1, 2);
    assert!(s.text_bias(&vec![]).is_none());
    s.reset_batch_idx(1, None, &None, true).unwrap();
    let lists = vec![vec![(1, 5)], vec![(2, 6), (9, 7), (2, 8), (10, 9)]];
    // Before the delay no bias counts.
    assert_eq!(s.text_bias(&lists), Some(vec![0; 20]));
    let mut words = vec![];
    s.batch[1].on_text_token(7, 1, &mut words);
    let mut want = vec![0; 20];
    want[12] = 8;
    want[19] = 7;
    assert_eq!(s.text_bias(&lists), Some(want));
    assert_eq!(s.text_bias(&vec![]), Some(vec![0; 20]));
}

#[test]
fn biases_count_once_the_delay_has_passed() {
    let mut item = ItemState::new(0, 10);
    let biases = [(4, 5), (6, 7)];
    assert!(item.text_biases(0, &biases).is_empty());
    item.reset(true);
    assert_eq!(item.text_biases(0, &biases), biases.to_vec());
    assert!(item.text_biases(1, &biases).is_empty());
    feed(&mut item, &[9], 1);
    assert_eq!(item.text_biases(1, &biases), biases.to_vec());
}

#[test]
fn temperature_of_a_lane() {
    let mut s = state(0, 2);
    assert!(matches!(&s.temperature.0.op, Op::Full(b) if *b == 0.5f32.to_bits()));
    s.reset_batch_idx(1, Some(0.25f32.to_bits()), &None, false).unwrap();
    let ok = match &s.temperature.0.op {
        Op::SliceSet { src, dim: 0, offset: 1, .. } => {
            matches!(&src.0.op, Op::Full(b) if *b == 0.25f32.to_bits())
        }
        _ => false,
    };
    assert!(ok);
    let r = s.reset_batch_idx(2, None, &None, false);
    assert!(matches!(r, Err(Error::BatchIndex { batch_idx: 2 })));
}

#[test]
fn conditions_of_the_lanes() {
    let cond = Tensor::input(1, Shape::D3(1, 1, 8)).unwrap();
    let model = asr(0, None).with_default_condition(Some(cond));
    assert_eq!(model.asr_delay_in_tokens(), 0);
    let mut s = model.init_state(3).unwrap();
    assert_eq!(s.condition.as_ref().unwrap().shape(), Shape::D3(3, 1, 8));
    let own = Tensor::input(2, Shape::D3(1, 1, 8)).unwrap();
    s.reset_batch_idx(2, None, &Some(own), false).unwrap();
    let c = s.condition.as_ref().unwrap();
    let slot = match &c.0.op {
        Op::SliceSet { src, offset: 2, .. } => match &src.0.op {
            Op::Input(slot) => *slot,
            _ => 99,
        },
        _ => 99,
    };
    assert_eq!(slot, 2);
    let wrong = Tensor::input(2, Shape::D2(8, 8)).unwrap();
    let r = asr(0, None).with_default_condition(Some(wrong)).init_state(3);
    assert!(matches!(r, Err(Error::Broadcast { .. })));
}

#[test]
fn reset_state_keeps_temperatures() {
    let mut s = state(0, 2);
    s.reset_batch_idx(0, Some(1), &None, true).unwrap();
    let mask = StreamMask::all_active(2);
    let i = s.step_tokens(&audio(2, 1), 0, &mask).unwrap();
    s.forward_step(&i, &mask).unwrap();
    s.finish_step(i, &vec![7, 8], vec![], &mask).unwrap();
    s.reset_state().unwrap();
    assert_eq!(s.model_step_idx(), 0);
    assert!(s.batch.iter().all(|i| i.is_first_step() && !i.with_text_bias()));
    assert_eq!(s.lm.transformer.builder.positions, vec![0, 0]);
    assert!(matches!(&s.temperature.0.op, Op::SliceSet { .. }));
}

#[test]
fn extra_heads_read_layers() {
    let ckpt = checkpoint();
    let vb = Weights::root(&ckpt);
    let m = Arc::new(lm::LmModel::load(&vb, &config(Some(heads(Some(vec![0, 1]))))).unwrap());
    let mut s = lm::LmModel::init_state(&m, 1).unwrap();
    let mask = StreamMask::all_active(1);
    let one = [1u32];
    let ids = [Some(&one[..]), None];
    let (logits, head) = s.forward(Some(&[10]), &ids, &mask, &None).unwrap();
    assert_eq!(logits.shape(), Shape::D3(1, 1, 10));
    assert_eq!(head.shape(), Shape::D3(1, 1, 8));
    assert!(matches!(&head.0.op, Op::Reshape(_)));
    assert_eq!(s.extra_heads(&head).unwrap()[0].shape(), Shape::D3(1, 1, 3));
    let last = lm::LmModel::load(&vb, &config(Some(heads(Some(vec![1]))))).unwrap();
    let mut s = lm::LmModel::init_state(&Arc::new(last), 1).unwrap();
    let (_, head) = s.forward(None, &ids, &mask, &None).unwrap();
    assert!(matches!(&head.0.op, Op::Binary(..)));
    s.reset_batch_idx(0).unwrap();
    assert!(matches!(s.reset_batch_idx(1), Err(Error::BatchIndex { batch_idx: 1 })));

    let bad = |h| lm::LmModel::load(&vb, &config(Some(h)));
    assert!(matches!(bad(heads(Some(vec![]))), Err(Error::ExtraHeadsNoLayer)));
    assert!(matches!(
        bad(heads(Some(vec![1, 2]))),
        Err(Error::ExtraHeadsLayer { layer: 2, num_layers: 2 })
    ));
    let mut h = heads(None);
    h.hidden_dim = Some(4);
    assert!(matches!(bad(h), Err(Error::ExtraHeadsHidden)));
}

#[test]
fn special_tokens_of_the_model() {
    let ckpt = checkpoint();
    let m = lm::LmModel::load(&Weights::root(&ckpt), &config(None)).unwrap();
    assert_eq!(m.audio_pad_token(), 20);
    assert_eq!(m.text_start_token(), 10);
    assert_eq!(m.text_out_vocab_size(), 10);
    assert_eq!(m.in_audio_codebooks(), 2);
}

#[test]
fn default_language_model() {
    let c = lm_config(None, 0);
    assert_eq!((c.transformer.num_layers, c.text_in_vocab_size, c.audio_codebooks), (48, 4001, 32));
}

#[test]
fn first_probability_of_each_lane() {
    assert_eq!(first_probabilities(&vec![1, 2, 3, 4, 5, 6], 2, 3).unwrap(), vec![1, 4]);
    assert!(matches!(first_probabilities(&vec![1, 2, 3], 2, 3), Err(Error::Reshape { .. })));
}

#[test]
fn weights_that_may_be_unused() {
    assert!(lm_weight_ignored("linears.0.weight"));
    assert!(!lm_weight_ignored("text_linear.weight"));
    assert!(!lm_weight_ignored("lin"));
    assert!(tokenizer_weight_ignored("a._codebook._initialized"));
    assert!(tokenizer_weight_ignored("a._codebook.cluster_usage"));
    assert!(tokenizer_weight_ignored("_codebook.embedding_sum"));
    assert!(!tokenizer_weight_ignored("_codebook.embedding_sum.x"));
}

#[test]
fn conditions_by_name() {
    let pair = |a: &str, b: &str| (a.to_string(), b.to_string());
    assert!(condition_values(None, None).is_empty());
    assert_eq!(
        condition_values(Some("en"), Some("fr")),
        vec![pair("lang", "en"), pair("languages_in_segment", "en"), pair("target_language", "fr")]
    );
    assert_eq!(condition_values(None, Some("fr")), vec![pair("target_language", "fr")]);
}

#[test]
fn conditions_come_with_a_configuration() {
    let ckpt = checkpoint();
    let cfg = moshi::Config {
        card: 20,
        n_q: 2,
        dep_q: 0,
        delays: vec![],
        dim: 8,
        text_card: 10,
        existing_text_padding_id: 3,
        num_heads: 2,
        num_layers: 2,
        hidden_scale: 4f64.to_bits(),
        causal: true,
        context: 10,
        max_period: 10_000f64.to_bits(),
        gating: moshi::Gating::Silu,
        extra_heads_num_heads: None,
        extra_heads_dim: None,
        extra_heads_from_layer: None,
        extra_heads_hidden_dim: None,
        extra_heads_mixer_affine: None,
        extra_heads_residual_blocks: None,
        conditioners: vec![],
        stt_delay: moshi::SttDelayConfig::default(),
    };
    let cond = Tensor::input(1, Shape::D3(1, 1, 8)).unwrap();
    let vb = Weights::root(&ckpt);
    let asr = Asr::load(&vb, Some(&cfg), 32, 6, 0, Some(cond)).unwrap();
    let state = asr.init_state(3).unwrap();
    assert_eq!(state.condition.unwrap().shape(), Shape::D3(3, 1, 8));
    let asr = Asr::load(&vb, Some(&cfg), 32, 6, 0, None).unwrap();
    assert!(asr.init_state(3).unwrap().condition.is_none());
}

#[test]
fn listeners_hear_once_and_in_order() {
    let mut s = state(1, 4);
    for b in [3, 0, 2] {
        s.reset_batch_idx(b, None, &None, true).unwrap();
    }
    let inputs = || StepInputs { audio_tokens: vec![], audio_ids: vec![], text_tokens: vec![] };
    let mask = StreamMask::all_active(4);
    let (_, heard) = s.finish_step(inputs(), &vec![7, 7, 7, 7], vec![], &mask).unwrap();
    assert_eq!(heard, vec![0, 2, 3]);
    let mask = StreamMask::new(vec![true, true, false, true]);
    let (_, heard) = s.finish_step(inputs(), &vec![7, 7, 7, 7], vec![], &mask).unwrap();
    assert_eq!(heard, vec![0, 3]);
}

#[test]
fn ends_of_words_increase() {
    let mut item = ItemState::new(0, 10);
    let (e, p) = (TOKEN_EOP, TOKEN_PAD);
    let tokens = [7, e, 8, e, e, 9, p, p, e, 5, TOKEN_EOS, 6, e];
    let (mut ends, mut starts) = (vec![], vec![]);
    for w in feed(&mut item, &tokens, 1) {
        match w {
            AsrWord::EndWord { stop_time, .. } => ends.push(stop_time),
            AsrWord::Word { start_time, .. } => starts.push(start_time),
            AsrWord::EndOfStream { .. } => {}
        }
    }
    assert_eq!(ends, vec![1, 3, 8, 10, 12]);
    // A word starts at the last token that ends one, also where no word was open.
    assert_eq!(starts, vec![0, 1, 4, 8, 10]);
}

#[test]
fn lanes_are_checked_without_steps() {
    let s = state(0, 2);
    assert!(s.check_batch(&audio(2, 0)).is_ok());
    let r = s.check_batch(&audio(3, 0));
    assert!(matches!(r, Err(Error::BatchSize { got: 3, expected: 2 })));
}

#[test]
fn loading_a_recognizer_needs_its_weights() {
    let ckpt = checkpoint();
    let r = Asr::load(&Weights::root(&ckpt), None, 0, 3, 0, None);
    assert!(matches!(r, Err(Error::WeightShape { name: "weight", .. })));
}

#[test]
fn each_step_gives_a_result() {
    let mut s = state(0, 3);
    let a = audio(3, 4);
    let mask = StreamMask::new(vec![true, false, true]);
    let sampled = [[7, 7, 7], [8, 8, TOKEN_PAD as i64], [TOKEN_PAD as i64, 3, 9], [6, 6, 0]];
    let mut results = vec![];
    for step in 0..a.steps {
        let i = s.step_tokens(&a, step, &mask).unwrap();
        s.forward_step(&i, &mask).unwrap();
        let prs = vec![vec![step as u32; 3]];
        let (r, _) = s.finish_step(i, &sampled[step].to_vec(), prs, &mask).unwrap();
        results.push(r);
    }
    assert_eq!(results.len(), 4);
    assert_eq!(s.model_step_idx(), 4);
    let steps: Vec<usize> = s.batch.iter().map(|i| i.step_idx).collect();
    assert_eq!(steps, vec![4, 0, 4]);
    for (step, r) in results.iter().enumerate() {
        let n = step as u32;
        let row = |b: u32| vec![8 * b + n, 8 * b + 4 + n];
        assert_eq!(r.audio_tokens, vec![row(0), row(1), row(2)]);
        assert_eq!(r.prs, vec![vec![n; 3]]);
        // A lane that is left out is fed its start token throughout.
        assert_eq!(r.text_tokens[1], 10);
    }
    let fed: Vec<u32> = results.iter().map(|r| r.text_tokens[0]).collect();
    assert_eq!(fed, vec![10, 7, 8, TOKEN_PAD]);
    // And no word is its own.
    let mut named = vec![];
    for r in &results {
        named.extend(r.words.iter().map(|w| w.batch_idx()));
    }
    assert_eq!(named, vec![2, 0, 2, 2]);
    let indices: Vec<usize> = s.batch.iter().map(|i| i.batch_idx).collect();
    assert_eq!(indices, vec![0, 1, 2]);
}
