//! The speech-to-speech model: a transformer over audio tokens, and a depformer that samples the
//! codebooks of a frame one after the other.
use crate::checkpoint::{weight_of, Format, Weights};
use crate::error::{viewed, Error};
use crate::nn::{Embedding, Linear};
use crate::ops::{
    binary_of, broadcast_of, cat2_of, dims3_of, expand_of, ids_of, linear_keeps_lanes_and_steps,
    reshape_of, slice_set_of, t_of, unary_of, unsqueeze_of,
};
use crate::sampling::{gumbel_max, gumbel_max_of};
use crate::seanet::Activation;
use crate::shape::{add_dims, broadcast_shape, mul_dims, word, Shape};
use crate::streaming::{all_active, flags};
use crate::tensor::{
    node, output, BinaryOp, LinearKind, Op, SingleBits, Tensor, TensorResult, UnaryOp,
};
use crate::transformer;
use crate::transformer::{
    BatchedTransformer, BatchedTransformerState, Norm, PositionalEmbedding, StateModel,
    TransformerModel,
};
use crate::transformer_with_ca::{
    ca_step_keeps_the_shape, kv_sources, CaSrc, CaTransformerModel, Transformer,
};
use crate::NormType;
use std::sync::Arc;
use vstd::prelude::*;
use xn::streaming::StreamMask;

verus! {

/// `10_000.0`
pub const SHORT_PERIOD: u64 = 0x40c3_8800_0000_0000u64;

/// The width of the latent frames of the speaker recordings.
pub const SPEAKER_DIM: usize = 512usize;

/// `xs` plus, at each step, the cosines and sines of the step times the inverse frequencies.
pub open spec fn sin_embedded(xs: TensorResult) -> TensorResult {
    match dims3_of(xs) {
        Err(e) => Err(e),
        Ok((_, seq_len, dim)) => {
            let freqs = match node(Shape::D2(seq_len, 1), Op::Steps) {
                Err(e) => Err(e),
                Ok(steps) => broadcast_of(
                    BinaryOp::Mul,
                    Ok(steps),
                    node(Shape::D2(1, dim / 2), Op::SinFreq(SHORT_PERIOD)),
                ),
            };
            let pos_emb = cat2_of(
                unary_of(UnaryOp::Cos, freqs),
                unary_of(UnaryOp::Sin, freqs),
                1,
            );
            match pos_emb {
                Err(e) => Err(e),
                Ok(pos_emb) => unary_of(
                    UnaryOp::ToModel,
                    broadcast_of(BinaryOp::Add, unary_of(UnaryOp::ToSingle, xs), Ok(pos_emb)),
                ),
            }
        },
    }
}

/// Adds a sinusoidal embedding of the steps.
pub fn add_sin_embeddings(xs: &Tensor) -> (r: TensorResult)
    ensures
        r == sin_embedded(Ok(*xs)),
{
    let (_, seq_len, dim) = xs.dims3()?;
    let half_dim: usize = dim / 2;
    let positions = Tensor::steps(seq_len)?;
    let inv_freq = Tensor::sin_freq(SHORT_PERIOD, half_dim)?;
    let freqs = positions.broadcast(BinaryOp::Mul, &inv_freq)?;
    let cos = freqs.unary(UnaryOp::Cos)?;
    let sin = freqs.unary(UnaryOp::Sin)?;
    let pos_emb = Tensor::cat2(&cos, &sin, 1)?;
    xs.unary(UnaryOp::ToSingle)?.broadcast(BinaryOp::Add, &pos_emb)?.unary(UnaryOp::ToModel)
}

/// The layout of a depformer.
#[derive(Clone, Debug)]
pub struct DepformerConfig {
    pub num_layers: usize,
    pub dim: usize,
    pub num_heads: usize,
    pub dim_feedforward: usize,
    pub low_rank_embeddings: Option<usize>,
    pub norm: NormType,
    pub weights_per_step_schedule: Vec<usize>,
}

/// A conditioner by name, with its settings as they stand in the configuration.
#[derive(Clone, Debug)]
pub struct ConditionerConfig {
    pub name: String,
    pub inner: String,
}

/// The layout of a speech-to-speech model.
#[derive(Clone, Debug)]
pub struct Config {
    pub transformer: transformer::Config,
    pub moshi_name: String,
    pub mimi_name: String,
    pub speaker_wavs_mimi_name: String,
    pub delays: Vec<usize>,
    pub depformer: DepformerConfig,
    pub text_card: usize,
    pub audio_card: usize,
    pub text_card_out: usize,
    pub conditioners: Vec<ConditionerConfig>,
    pub max_speakers: usize,
}

impl Config {
    /// The number of codebooks.
    pub open spec fn n_q(self) -> nat {
        self.depformer.weights_per_step_schedule@.len()
    }

    /// The transformer of each slice of the depformer.
    pub open spec fn slice_config(self) -> transformer::Config {
        transformer::Config {
            d_model: self.depformer.dim,
            num_heads: self.depformer.num_heads,
            num_layers: self.depformer.num_layers,
            causal: true,
            norm_first: true,
            bias_ff: false,
            bias_attn: false,
            layer_scale: None,
            positional_embedding: PositionalEmbedding::NoEmbedding,
            use_conv_block: false,
            gating: Some(Activation::Silu),
            norm: NormType::RmsNorm,
            context: self.n_q() as usize,
            max_period: SHORT_PERIOD,
            kv_repeat: 1,
            dim_feedforward: self.depformer.dim_feedforward,
            conv_layout: false,
        }
    }

    fn depformer_config(&self) -> (r: transformer::Config)
        ensures
            r == self.slice_config(),
    {
        transformer::Config {
            d_model: self.depformer.dim,
            num_heads: self.depformer.num_heads,
            num_layers: self.depformer.num_layers,
            causal: true,
            norm_first: true,
            bias_ff: false,
            bias_attn: false,
            layer_scale: None,
            positional_embedding: PositionalEmbedding::NoEmbedding,
            use_conv_block: false,
            gating: Some(Activation::Silu),
            norm: NormType::RmsNorm,
            context: self.depformer.weights_per_step_schedule.len(),
            max_period: SHORT_PERIOD,
            kv_repeat: 1,
            dim_feedforward: self.depformer.dim_feedforward,
            conv_layout: false,
        }
    }
}

/// An embedding, widened by a linear map where it is of low rank.
pub struct LowRankEmbeddings {
    pub embeddings: Embedding,
    pub low_rank: Option<Linear>,
}

impl LowRankEmbeddings {
    pub open spec fn loaded(
        vb: Weights,
        in_vocab_size: usize,
        dim: usize,
        low_rank_dim: Option<usize>,
    ) -> Result<LowRankEmbeddings, Error> {
        match low_rank_dim {
            None => match Embedding::loaded(vb, in_vocab_size, dim) {
                Err(e) => Err(e),
                Ok(embeddings) => Ok(LowRankEmbeddings { embeddings, low_rank: None }),
            },
            Some(rank) => match (
                Linear::loaded(LinearKind::Quantized, vb.at("low_rank"), rank, dim, false),
                Embedding::loaded(vb, in_vocab_size, rank),
            ) {
                (Err(e), _) => Err(e),
                (Ok(_), Err(e)) => Err(e),
                (Ok(low_rank), Ok(embeddings)) => Ok(
                    LowRankEmbeddings { embeddings, low_rank: Some(low_rank) },
                ),
            },
        }
    }

    pub open spec fn forwarded(self, ids: TensorResult) -> TensorResult {
        match self.low_rank {
            None => self.embeddings.forwarded(ids),
            Some(lr) => lr.forwarded(self.embeddings.forwarded(ids)),
        }
    }

    pub fn load(vb: &Weights, in_vocab_size: usize, dim: usize, low_rank_dim: Option<usize>) -> (r:
        Result<LowRankEmbeddings, Error>)
        ensures
            r == LowRankEmbeddings::loaded(*vb, in_vocab_size, dim, low_rank_dim),
    {
        match low_rank_dim {
            None => {
                let embeddings = Embedding::load(vb, in_vocab_size, dim)?;
                Ok(LowRankEmbeddings { embeddings, low_rank: None })
            },
            Some(rank) => {
                let low_rank = Linear::load_o(
                    LinearKind::Quantized,
                    &vb.pp("low_rank"),
                    rank,
                    dim,
                    false,
                )?;
                let embeddings = Embedding::load(vb, in_vocab_size, rank)?;
                Ok(LowRankEmbeddings { embeddings, low_rank: Some(low_rank) })
            },
        }
    }

    pub fn forward(&self, ids: &Tensor) -> (r: TensorResult)
        ensures
            r == self.forwarded(Ok(*ids)),
    {
        let embs = self.embeddings.forward(ids)?;
        match &self.low_rank {
            None => Ok(embs),
            Some(lr) => lr.forward(&embs),
        }
    }
}

/// The part of the depformer that samples one codebook.
pub struct DepformerSlice {
    pub transformer: BatchedTransformer,
    pub emb: LowRankEmbeddings,
    pub linear_in: Linear,
    pub linear_out: Linear,
    pub norm: Norm,
}

#[verifier::ext_equal]
pub struct SliceModel {
    pub transformer: TransformerModel,
    pub emb: LowRankEmbeddings,
    pub linear_in: Linear,
    pub linear_out: Linear,
    pub norm: Norm,
}

impl View for DepformerSlice {
    type V = SliceModel;

    open spec fn view(&self) -> SliceModel {
        SliceModel {
            transformer: self.transformer@,
            emb: self.emb,
            linear_in: self.linear_in,
            linear_out: self.linear_out,
            norm: self.norm,
        }
    }
}

impl SliceModel {
    /// Slice `i`: the first one reads a text token, the others the audio token before.
    pub open spec fn loaded(vb: Weights, cfg: Config, i: int) -> Result<SliceModel, Error> {
        let vocab = if i == 0 {
            cfg.text_card
        } else {
            cfg.audio_card
        };
        let dim = cfg.depformer.dim;
        match (TransformerModel::loaded(vb.at("transformer"), cfg.slice_config()), word(vocab + 1)) {
            (Err(e), _) => Err(e),
            (Ok(_), Err(e)) => Err(e),
            (Ok(transformer), Ok(vocab)) => match (
                LowRankEmbeddings::loaded(
                    vb.at("emb"),
                    vocab,
                    dim,
                    cfg.depformer.low_rank_embeddings,
                ),
                Linear::loaded(
                    LinearKind::Quantized,
                    vb.at("linear_in"),
                    cfg.transformer.d_model,
                    dim,
                    false,
                ),
                Linear::loaded(
                    LinearKind::Quantized,
                    vb.at("linear_out"),
                    dim,
                    cfg.audio_card,
                    false,
                ),
                Norm::loaded(vb.at("norm"), dim, cfg.depformer.norm),
            ) {
                (Err(e), _, _, _) => Err(e),
                (_, Err(e), _, _) => Err(e),
                (_, _, Err(e), _) => Err(e),
                (_, _, _, Err(e)) => Err(e),
                (Ok(emb), Ok(linear_in), Ok(linear_out), Ok(norm)) => Ok(
                    SliceModel { transformer, emb, linear_in, linear_out, norm },
                ),
            },
        }
    }

    /// What goes into the transformer of the slice: the output `ys` of the main transformer, and
    /// the tokens that the slice before sampled.
    pub open spec fn input(self, ys: Tensor, prev: Option<Seq<i64>>, batch_size: usize) -> TensorResult {
        let xs = self.linear_in.forwarded(Ok(ys));
        match (xs, prev) {
            (Err(e), _) => Err(e),
            (Ok(_), None) => xs,
            (Ok(_), Some(tokens)) => binary_of(
                BinaryOp::Add,
                xs,
                unsqueeze_of(self.emb.forwarded(ids_of(tokens, Shape::D1(batch_size))), 1),
            ),
        }
    }

    /// The tokens to sample from the output `xs` of the transformer of the slice.
    pub open spec fn sampled(self, xs: Tensor, temperature: Tensor) -> TensorResult {
        let logits = self.linear_out.forwarded(self.norm.forwarded(Ok(xs)));
        match dims3_of(logits) {
            Err(e) => Err(e),
            Ok((b, _, vocab)) => gumbel_max_of(reshape_of(logits, Shape::D2(b, vocab)), temperature),
        }
    }

    /// The caches after the slice, and the tokens to sample.
    #[verifier::opaque]
    pub open spec fn stepped(
        self,
        ys: Tensor,
        prev: Option<Seq<i64>>,
        batch_size: usize,
        state: StateModel,
        temperature: Tensor,
    ) -> (StateModel, TensorResult) {
        match self.input(ys, prev, batch_size) {
            Err(e) => (state, Err(e)),
            Ok(xs) => {
                let active = Some(Seq::new(batch_size as nat, |i: int| true));
                let (next, r) = self.transformer.forwarded(xs, state, active);
                match r {
                    Err(e) => (next, Err(e)),
                    Ok(xs) => (next, self.sampled(xs, temperature)),
                }
            },
        }
    }
}

impl DepformerSlice {
    pub fn load(vb: &Weights, cfg: &Config, i: usize) -> (r: Result<DepformerSlice, Error>)
        ensures
            viewed(r) == SliceModel::loaded(*vb, *cfg, i as int),
    {
        let kind = LinearKind::Quantized;
        let dim: usize = cfg.depformer.dim;
        let transformer = BatchedTransformer::load(
            &vb.pp("transformer"),
            &cfg.depformer_config(),
        )?;
        let in_vocab_size: usize = if i == 0 {
            cfg.text_card
        } else {
            cfg.audio_card
        };
        let in_vocab_size: usize = add_dims(in_vocab_size, 1)?;
        let emb = LowRankEmbeddings::load(
            &vb.pp("emb"),
            in_vocab_size,
            dim,
            cfg.depformer.low_rank_embeddings,
        )?;
        let linear_in = Linear::load_o(
            kind,
            &vb.pp("linear_in"),
            cfg.transformer.d_model,
            dim,
            false,
        )?;
        let linear_out = Linear::load_o(kind, &vb.pp("linear_out"), dim, cfg.audio_card, false)?;
        let norm = Norm::load(&vb.pp("norm"), dim, cfg.depformer.norm)?;
        Ok(DepformerSlice { transformer, emb, linear_in, linear_out, norm })
    }

    pub fn step(
        &self,
        ys: &Tensor,
        prev: Option<&Vec<i64>>,
        batch_size: usize,
        state: &mut BatchedTransformerState,
        temperature: &Tensor,
    ) -> (r: TensorResult)
        ensures
            (final(state)@, r) == self@.stepped(
                *ys,
                match prev {
                    Some(v) => Some(v@),
                    None => None,
                },
                batch_size,
                old(state)@,
                *temperature,
            ),
    {
        proof {
            reveal(SliceModel::stepped);
        }
        let mask = all_active(batch_size);
        let xs = self.linear_in.forward(ys)?;
        let xs = match prev {
            None => xs,
            Some(tokens) => {
                let token_id = Tensor::from_ids(tokens, Shape::D1(batch_size))?;
                let token_emb = self.emb.forward(&token_id)?.unsqueeze(1)?;
                xs.add(&token_emb)?
            },
        };
        let xs = self.transformer.forward(&xs, state, &mask)?;
        let xs = self.norm.forward(&xs)?;
        let logits = self.linear_out.forward(&xs)?;
        let (b, _, vocab) = logits.dims3()?;
        let logits_2d = logits.reshape(Shape::D2(b, vocab))?;
        gumbel_max(&logits_2d, temperature)
    }
}

/// The speech-to-speech model. Of its conditioners it holds what they make of no values at all.
pub struct Model {
    pub text_emb: Embedding,
    pub audio_embs: Vec<Embedding>,
    pub transformer: Transformer,
    pub depformer: Vec<DepformerSlice>,
    pub out_norm: Norm,
    pub text_linear: Linear,
    pub audio_card: usize,
    pub audio_delays: Vec<usize>,
    pub speaker_wavs_output_proj: Linear,
    pub speaker_wavs_learnt_padding: Tensor,
    /// What the conditioners make of no values at all.
    pub default_conditions: Option<Tensor>,
    pub max_speakers: usize,
}

#[verifier::ext_equal]
pub struct ModelParts {
    pub text_emb: Embedding,
    pub audio_embs: Seq<Embedding>,
    pub transformer: CaTransformerModel,
    pub depformer: Seq<SliceModel>,
    pub out_norm: Norm,
    pub text_linear: Linear,
    pub audio_card: usize,
    pub audio_delays: Seq<usize>,
    pub speaker_wavs_output_proj: Linear,
    pub speaker_wavs_learnt_padding: Tensor,
    /// What the conditioners make of no values at all.
    pub default_conditions: Option<Tensor>,
    pub max_speakers: usize,
}

pub open spec fn slice_models(slices: Seq<DepformerSlice>) -> Seq<SliceModel> {
    slices.map_values(|s: DepformerSlice| s@)
}

impl View for Model {
    type V = ModelParts;

    open spec fn view(&self) -> ModelParts {
        ModelParts {
            text_emb: self.text_emb,
            audio_embs: self.audio_embs@,
            transformer: self.transformer@,
            depformer: slice_models(self.depformer@),
            out_norm: self.out_norm,
            text_linear: self.text_linear,
            audio_card: self.audio_card,
            audio_delays: self.audio_delays@,
            speaker_wavs_output_proj: self.speaker_wavs_output_proj,
            speaker_wavs_learnt_padding: self.speaker_wavs_learnt_padding,
            default_conditions: self.default_conditions,
            max_speakers: self.max_speakers,
        }
    }
}

/// The delays of the codebooks. The first delay is that of the text, and the last one holds for
/// the codebooks that have none of their own.
pub open spec fn codebook_delays(delays: Seq<usize>, n_q: nat) -> Seq<usize> {
    Seq::new(
        n_q,
        |i: int|
            if i + 1 < delays.len() {
                delays[i + 1]
            } else {
                delays.last()
            },
    )
}

pub fn make_codebook_delays(delays: &Vec<usize>, n_q: usize) -> (r: Result<Vec<usize>, Error>)
    ensures
        delays@.len() == 0 ==> r == Err::<Vec<usize>, Error>(Error::NoDelays),
        delays@.len() > 0 ==> r is Ok && r->Ok_0@ == codebook_delays(delays@, n_q as nat),
{
    if delays.len() == 0 {
        return Err(Error::NoDelays);
    }
    let last_delay: usize = delays[delays.len() - 1];
    let mut out: Vec<usize> = Vec::new();
    let mut i: usize = 0;
    while i < n_q
        invariant
            i <= n_q,
            delays.len() > 0,
            last_delay == delays@.last(),
            out.len() == i,
            forall|j: int|
                0 <= j < i ==> out[j] == if j + 1 < delays@.len() {
                    delays[j + 1]
                } else {
                    delays@.last()
                },
        decreases n_q - i,
    {
        let d: usize = if i < delays.len() - 1 {
            delays[i + 1]
        } else {
            last_delay
        };
        out.push(d);
        i += 1;
    }
    assert(out@ =~= codebook_delays(delays@, n_q as nat));
    Ok(out)
}

impl ModelParts {
    /// Every codebook has a delay.
    pub open spec fn wf(self) -> bool {
        self.audio_delays.len() == self.depformer.len()
    }

    /// The slices and audio embeddings from `i` on, loaded after those in `slices` and `embs`.
    pub open spec fn slices_loaded(
        vb: Weights,
        cfg: Config,
        i: int,
        slices: Seq<SliceModel>,
        embs: Seq<Embedding>,
    ) -> Result<(Seq<SliceModel>, Seq<Embedding>), Error>
        decreases cfg.n_q() - i,
    {
        if i < 0 || i >= cfg.n_q() {
            Ok((slices, embs))
        } else {
            match (
                SliceModel::loaded(vb.at("depformer").nth(i), cfg, i),
                word(cfg.audio_card + 1),
            ) {
                (Err(e), _) => Err(e),
                (Ok(_), Err(e)) => Err(e),
                (Ok(slice), Ok(vocab)) => match Embedding::loaded(
                    vb.at("emb").nth(i),
                    vocab,
                    cfg.transformer.d_model,
                ) {
                    Err(e) => Err(e),
                    Ok(emb) => ModelParts::slices_loaded(
                        vb,
                        cfg,
                        i + 1,
                        slices.push(slice),
                        embs.push(emb),
                    ),
                },
            }
        }
    }

    pub open spec fn loaded(vb: Weights, cfg: Config, default_conditions: Option<Tensor>) -> Result<
        ModelParts,
        Error,
    > {
        let d = cfg.transformer.d_model;
        match CaTransformerModel::loaded(vb.at("transformer"), cfg.transformer) {
            Err(e) => Err(e),
            Ok(transformer) => if cfg.depformer.norm != NormType::LayerNorm {
                Err(Error::DepformerNorm)
            } else {
                match (
                    ModelParts::slices_loaded(vb, cfg, 0, seq![], seq![]),
                    word(cfg.text_card + 1),
                ) {
                    (Err(e), _) => Err(e),
                    (Ok(_), Err(e)) => Err(e),
                    (Ok((depformer, audio_embs)), Ok(vocab)) => match (
                        Embedding::loaded(vb.at("text_emb"), vocab, d),
                        Linear::loaded(
                            LinearKind::Quantized,
                            vb.at("text_linear"),
                            d,
                            cfg.text_card_out,
                            false,
                        ),
                        Norm::loaded(vb.at("out_norm"), d, cfg.transformer.norm),
                    ) {
                        (Err(e), _, _) => Err(e),
                        (_, Err(e), _) => Err(e),
                        (_, _, Err(e)) => Err(e),
                        (Ok(text_emb), Ok(text_linear), Ok(out_norm)) => if cfg.delays@.len()
                            == 0 {
                            Err(Error::NoDelays)
                        } else {
                            match (
                                Linear::loaded(
                                    LinearKind::Quantized,
                                    vb.at(
                                        "condition_provider.conditioners.speaker_wavs.output_proj",
                                    ),
                                    SPEAKER_DIM,
                                    d,
                                    false,
                                ),
                                weight_of(
                                    vb,
                                    "condition_provider.conditioners.speaker_wavs.learnt_padding",
                                    Shape::D3(1, 1, d),
                                ),
                            ) {
                                (Err(e), _) => Err(e),
                                (Ok(_), Err(e)) => Err(e),
                                (Ok(proj), Ok(padding)) => Ok(
                                    ModelParts {
                                        text_emb,
                                        audio_embs,
                                        transformer,
                                        depformer,
                                        out_norm,
                                        text_linear,
                                        audio_card: cfg.audio_card,
                                        audio_delays: codebook_delays(
                                            cfg.delays@,
                                            depformer.len(),
                                        ),
                                        speaker_wavs_output_proj: proj,
                                        speaker_wavs_learnt_padding: padding,
                                        default_conditions,
                                        max_speakers: cfg.max_speakers,
                                    },
                                ),
                            }
                        },
                    },
                }
            },
        }
    }

    /// The cross-attention source of the frames of speaker recordings: those of one speaker, and
    /// learnt padding in place of the others.
    pub open spec fn speaker_source(self, speaker_wavs: TensorResult) -> TensorResult {
        let projected = self.speaker_wavs_output_proj.forwarded(t_of(speaker_wavs));
        match dims3_of(projected) {
            Err(e) => Err(e),
            Ok((_, embs, dim)) => if self.max_speakers > 1 {
                match word((self.max_speakers - 1) * embs) {
                    Err(e) => Err(e),
                    Ok(n) => match expand_of(
                        Ok(self.speaker_wavs_learnt_padding),
                        Shape::D3(1, n, dim),
                    ) {
                        Err(e) => Err(e),
                        Ok(padding) => sin_embedded(cat2_of(projected, Ok(padding), 1)),
                    },
                }
            } else {
                sin_embedded(projected)
            },
        }
    }

    /// The sum of the embeddings of the audio tokens of the codebooks from `i` on and `emb`.
    pub open spec fn audio_added(self, tokens: Seq<Seq<i64>>, emb: Tensor, i: int) -> TensorResult
        decreases self.audio_embs.len() - i,
    {
        if i < 0 || i >= self.audio_embs.len() || i >= tokens.len() {
            Ok(emb)
        } else {
            match unsqueeze_of(
                self.audio_embs[i].forwarded(
                    ids_of(tokens[i], Shape::D1(tokens[i].len() as usize)),
                ),
                1,
            ) {
                Err(e) => Err(e),
                Ok(e) => match binary_of(BinaryOp::Add, Ok(emb), Ok(e)) {
                    Err(e) => Err(e),
                    Ok(sum) => self.audio_added(tokens, sum, i + 1),
                },
            }
        }
    }

    /// What goes into the main transformer.
    pub open spec fn embedded(
        self,
        tokens: Seq<Seq<i64>>,
        condition: Option<Tensor>,
        batch_size: nat,
    ) -> TensorResult {
        match node(Shape::D3(batch_size as usize, 1, self.text_emb.hidden_size), Op::Zeros) {
            Err(e) => Err(e),
            Ok(emb) => match (self.audio_added(tokens, emb, 0), condition) {
                (Err(e), _) => Err(e),
                (Ok(emb), None) => Ok(emb),
                (Ok(emb), Some(c)) => broadcast_of(BinaryOp::Add, Ok(emb), Ok(c)),
            },
        }
    }

    /// The text logits and the normalized output, of the output `ys` of the main transformer.
    pub open spec fn read_out(self, ys: Tensor) -> Result<(Tensor, Tensor), Error> {
        match self.out_norm.forwarded(Ok(ys)) {
            Err(e) => Err(e),
            Ok(ys) => match self.text_linear.forwarded(Ok(ys)) {
                Err(e) => Err(e),
                Ok(logits) => Ok((logits, ys)),
            },
        }
    }
}

impl Model {
    fn load_slices(vb: &Weights, cfg: &Config) -> (r: Result<
        (Vec<DepformerSlice>, Vec<Embedding>),
        Error,
    >)
        ensures
            (match r {
                Err(e) => Err(e),
                Ok((slices, embs)) => Ok((slice_models(slices@), embs@)),
            }) == ModelParts::slices_loaded(*vb, *cfg, 0, seq![], seq![]),
    {
        let df_vb = vb.pp("depformer");
        let emb_vb = vb.pp("emb");
        let n_q: usize = cfg.depformer.weights_per_step_schedule.len();
        let mut slices: Vec<DepformerSlice> = Vec::new();
        let mut embs: Vec<Embedding> = Vec::new();
        let mut i: usize = 0;
        assert(slice_models(slices@) =~= seq![]);
        while i < n_q
            invariant
                i <= n_q,
                n_q == cfg.n_q(),
                df_vb == vb.at("depformer"),
                emb_vb == vb.at("emb"),
                ModelParts::slices_loaded(*vb, *cfg, 0, seq![], seq![])
                    == ModelParts::slices_loaded(
                    *vb,
                    *cfg,
                    i as int,
                    slice_models(slices@),
                    embs@,
                ),
            decreases n_q - i,
        {
            let slice = DepformerSlice::load(&df_vb.pi(i), cfg, i)?;
            let vocab: usize = add_dims(cfg.audio_card, 1)?;
            let emb = Embedding::load(&emb_vb.pi(i), vocab, cfg.transformer.d_model)?;
            let ghost before = slice_models(slices@);
            let ghost model = slice@;
            slices.push(slice);
            proof {
                assert(slice_models(slices@) =~= before.push(model));
            }
            embs.push(emb);
            i += 1;
        }
        Ok((slices, embs))
    }

    /// Loads the model. `default_conditions` is what the conditioners of the configuration make of
    /// no values at all.
    pub fn load(vb: &Weights, cfg: &Config, default_conditions: Option<Tensor>) -> (r: Result<
        Model,
        Error,
    >)
        ensures
            viewed(r) == ModelParts::loaded(*vb, *cfg, default_conditions),
            r matches Ok(m) ==> m@.wf(),
    {
        let kind = LinearKind::Quantized;
        let d_model: usize = cfg.transformer.d_model;
        let transformer = Transformer::load(&vb.pp("transformer"), &cfg.transformer)?;
        if cfg.depformer.norm != NormType::LayerNorm {
            return Err(Error::DepformerNorm);
        }
        let (depformer, audio_embs) = Model::load_slices(vb, cfg)?;
        let text_vocab: usize = add_dims(cfg.text_card, 1)?;
        let text_emb = Embedding::load(&vb.pp("text_emb"), text_vocab, d_model)?;
        let text_linear = Linear::load_o(
            kind,
            &vb.pp("text_linear"),
            d_model,
            cfg.text_card_out,
            false,
        )?;
        let out_norm = Norm::load(&vb.pp("out_norm"), d_model, cfg.transformer.norm)?;
        let audio_delays = make_codebook_delays(&cfg.delays, depformer.len())?;
        let speaker_wavs_output_proj = Linear::load_o(
            kind,
            &vb.pp("condition_provider.conditioners.speaker_wavs.output_proj"),
            SPEAKER_DIM,
            d_model,
            false,
        )?;
        let speaker_wavs_learnt_padding = vb.tensor(
            "condition_provider.conditioners.speaker_wavs.learnt_padding",
            Shape::D3(1, 1, d_model),
        )?;
        Ok(
            Model {
                text_emb,
                audio_embs,
                transformer,
                depformer,
                out_norm,
                text_linear,
                audio_card: cfg.audio_card,
                audio_delays,
                speaker_wavs_output_proj,
                speaker_wavs_learnt_padding,
                default_conditions,
                max_speakers: cfg.max_speakers,
            },
        )
    }

    /// The cross-attention source of the latent frames of a speaker recording.
    pub fn speaker_wavs_ca_src(&self, speaker_wavs: &Tensor) -> (r: TensorResult)
        ensures
            r == self@.speaker_source(Ok(*speaker_wavs)),
    {
        let speaker_wavs = speaker_wavs.t()?;
        let projected = self.speaker_wavs_output_proj.forward(&speaker_wavs)?;
        let (_, embs, dim) = projected.dims3()?;
        let projected = if self.max_speakers > 1 {
            let n: usize = mul_dims(self.max_speakers - 1, embs)?;
            let learnt_padding = self.speaker_wavs_learnt_padding.expand(Shape::D3(1, n, dim))?;
            Tensor::cat2(&projected, &learnt_padding, 1)?
        } else {
            projected
        };
        add_sin_embeddings(&projected)
    }

    pub fn n_slices(&self) -> (r: usize)
        ensures
            r == self@.depformer.len(),
    {
        self.depformer.len()
    }

    pub fn max_speakers(&self) -> (r: usize)
        ensures
            r == self.max_speakers,
    {
        self.max_speakers
    }
}

/// What one lane has generated.
#[derive(Clone, Debug)]
pub struct PerBatch {
    /// The number of steps.
    pub index: usize,
    /// The tokens of each codebook, one for each step.
    pub audio_tokens: Vec<Vec<i64>>,
}

#[verifier::ext_equal]
pub struct LaneModel {
    pub index: usize,
    pub audio_tokens: Seq<Seq<i64>>,
}

pub open spec fn token_rows(v: Seq<Vec<i64>>) -> Seq<Seq<i64>> {
    v.map_values(|r: Vec<i64>| r@)
}

impl View for PerBatch {
    type V = LaneModel;

    open spec fn view(&self) -> LaneModel {
        LaneModel { index: self.index, audio_tokens: token_rows(self.audio_tokens@) }
    }
}

impl LaneModel {
    /// A lane before its first step.
    pub open spec fn fresh(n_slices: nat) -> LaneModel {
        LaneModel { index: 0, audio_tokens: Seq::new(n_slices, |i: int| Seq::<i64>::empty()) }
    }

    /// Each of the codebooks has one token for each step.
    pub open spec fn wf(self, n_slices: nat) -> bool {
        &&& self.audio_tokens.len() == n_slices
        &&& forall|cb: int|
            0 <= cb < n_slices ==> (#[trigger] self.audio_tokens[cb]).len() == self.index
    }

    /// The lane after one more step, in which codebook `cb` got `tokens[cb][lane]`.
    pub open spec fn extended(self, tokens: Seq<Seq<i64>>, lane: int) -> LaneModel {
        LaneModel {
            index: (self.index + 1) as usize,
            audio_tokens: Seq::new(
                self.audio_tokens.len(),
                |cb: int|
                    if cb < tokens.len() {
                        self.audio_tokens[cb].push(tokens[cb][lane])
                    } else {
                        self.audio_tokens[cb]
                    },
            ),
        }
    }
}

impl PerBatch {
    pub fn new(n_slices: usize) -> (r: PerBatch)
        ensures
            r@ == LaneModel::fresh(n_slices as nat),
            r@.wf(n_slices as nat),
    {
        let mut audio_tokens: Vec<Vec<i64>> = Vec::new();
        let mut i: usize = 0;
        while i < n_slices
            invariant
                i <= n_slices,
                audio_tokens.len() == i,
                forall|j: int| 0 <= j < i ==> (#[trigger] audio_tokens[j])@.len() == 0,
            decreases n_slices - i,
        {
            audio_tokens.push(Vec::new());
            i += 1;
        }
        proof {
            assert forall|j: int| 0 <= j < n_slices implies audio_tokens[j]@ == Seq::<i64>::empty() by {
                assert(audio_tokens[j]@ =~= Seq::<i64>::empty());
            }
            assert(token_rows(audio_tokens@) =~= LaneModel::fresh(n_slices as nat).audio_tokens);
        }
        PerBatch { index: 0, audio_tokens }
    }

    /// Forgets all steps.
    pub fn reset(&mut self)
        ensures
            final(self)@ == LaneModel::fresh(old(self)@.audio_tokens.len()),
    {
        self.index = 0;
        let mut i: usize = 0;
        while i < self.audio_tokens.len()
            invariant
                i <= self.audio_tokens.len(),
                self.index == 0,
                self.audio_tokens.len() == old(self).audio_tokens.len(),
                forall|j: int| 0 <= j < i ==> (#[trigger] self.audio_tokens[j])@.len() == 0,
            decreases self.audio_tokens.len() - i,
        {
            self.audio_tokens.set(i, Vec::new());
            i += 1;
        }
        proof {
            let n = old(self)@.audio_tokens.len();
            assert forall|j: int| 0 <= j < n implies self.audio_tokens[j]@ == Seq::<i64>::empty() by {
                assert(self.audio_tokens[j]@ =~= Seq::<i64>::empty());
            }
            assert(token_rows(self.audio_tokens@) =~= LaneModel::fresh(n).audio_tokens);
        }
    }

    fn extend(&mut self, tokens: &Vec<Vec<i64>>, lane: usize)
        requires
            old(self).index < usize::MAX,
            forall|cb: int| 0 <= cb < tokens.len() ==> lane < (#[trigger] tokens[cb])@.len(),
        ensures
            final(self)@ == old(self)@.extended(token_rows(tokens@), lane as int),
    {
        self.index += 1;
        let mut cb: usize = 0;
        while cb < self.audio_tokens.len() && cb < tokens.len()
            invariant
                cb <= self.audio_tokens.len(),
                self.index == old(self).index + 1,
                self.audio_tokens.len() == old(self).audio_tokens.len(),
                forall|j: int| 0 <= j < tokens.len() ==> lane < (#[trigger] tokens[j])@.len(),
                cb <= tokens.len(),
                forall|j: int|
                    0 <= j < cb ==> (#[trigger] self.audio_tokens[j])@ == old(
                        self,
                    ).audio_tokens[j]@.push(tokens[j]@[lane as int]),
                forall|j: int|
                    cb <= j < self.audio_tokens.len() ==> (#[trigger] self.audio_tokens[j])@
                        == old(self).audio_tokens[j]@,
            decreases self.audio_tokens.len() - cb,
        {
            let t: i64 = tokens[cb][lane];
            self.audio_tokens[cb].push(t);
            cb += 1;
        }
        proof {
            assert(token_rows(self.audio_tokens@) =~= old(self)@.extended(
                token_rows(tokens@),
                lane as int,
            ).audio_tokens);
        }
    }
}

/// The speech-to-speech model and what it keeps between steps.
pub struct State {
    pub model: Arc<Model>,
    pub transformer: BatchedTransformerState,
    /// The keys and values of the cross-attention source for every layer, worked out on the first
    /// step and reused.
    pub cross_kv: Option<Vec<CaSrc>>,
    pub temperature: Tensor,
    pub default_temperature: SingleBits,
    pub per_batch: Vec<PerBatch>,
}

#[verifier::ext_equal]
pub struct StateParts {
    pub transformer: StateModel,
    pub cross_kv: Option<Seq<CaSrc>>,
    pub temperature: Tensor,
    pub default_temperature: SingleBits,
    pub per_batch: Seq<LaneModel>,
}

pub open spec fn lane_models(v: Seq<PerBatch>) -> Seq<LaneModel> {
    v.map_values(|b: PerBatch| b@)
}

impl View for State {
    type V = StateParts;

    open spec fn view(&self) -> StateParts {
        StateParts {
            transformer: self.transformer@,
            cross_kv: match self.cross_kv {
                Some(v) => Some(v@),
                None => None,
            },
            temperature: self.temperature,
            default_temperature: self.default_temperature,
            per_batch: lane_models(self.per_batch@),
        }
    }
}

impl StateParts {
    /// Every lane has, of every codebook, one token for each of its steps.
    pub open spec fn wf(self, n_slices: nat) -> bool {
        forall|b: int|
            0 <= b < self.per_batch.len() ==> (#[trigger] self.per_batch[b]).wf(n_slices)
    }

    pub open spec fn batch_size(self) -> nat {
        self.per_batch.len()
    }

    /// The state once lane `batch_idx` starts anew, and whether that succeeded.
    pub open spec fn lane_reset(self, batch_idx: usize, temp: Option<SingleBits>) -> (
        StateParts,
        Result<(), Error>,
    ) {
        let t = match temp {
            Some(t) => t,
            None => self.default_temperature,
        };
        if batch_idx >= self.batch_size() {
            (self, Err(Error::BatchIndex { batch_idx }))
        } else {
            match slice_set_of(
                Ok(self.temperature),
                node(Shape::D2(1, 1), Op::Full(t)),
                0,
                batch_idx,
            ) {
                Err(e) => (self, Err(e)),
                Ok(temperature) => {
                    let (transformer, r) = self.transformer.lane_reset(batch_idx);
                    match r {
                        Err(e) => (StateParts { temperature, ..self }, Err(e)),
                        Ok(_) => (
                            StateParts {
                                transformer,
                                cross_kv: None,
                                temperature,
                                default_temperature: self.default_temperature,
                                per_batch: self.per_batch.update(
                                    batch_idx as int,
                                    LaneModel::fresh(
                                        self.per_batch[batch_idx as int].audio_tokens.len(),
                                    ),
                                ),
                            },
                            Ok(()),
                        ),
                    }
                },
            }
        }
    }

    /// The token of codebook `cb` that lane `b` feeds to the next step: the one sampled last, or
    /// the one that stands for no audio until the delay of the codebook has passed.
    pub open spec fn token_to_feed(self, model: ModelParts, cb: int, b: int) -> i64 {
        if self.per_batch[b].index > model.audio_delays[cb] {
            self.per_batch[b].audio_tokens[cb].last()
        } else {
            model.audio_card as i64
        }
    }

    /// The tokens that all lanes feed to the next step, by codebook.
    pub open spec fn tokens_to_feed(self, model: ModelParts) -> Seq<Seq<i64>> {
        Seq::new(
            model.audio_delays.len(),
            |cb: int| Seq::new(self.per_batch.len(), |b: int| self.token_to_feed(model, cb, b)),
        )
    }

    /// The state after the main transformer took in `tokens`, and its text logits and output.
    pub open spec fn forwarded(
        self,
        model: ModelParts,
        tokens: Seq<Seq<i64>>,
        ca_src: CaSrc,
        mask: Option<Seq<bool>>,
        condition: Option<Tensor>,
    ) -> (StateParts, Result<(Tensor, Tensor), Error>) {
        let kvs: Result<Seq<CaSrc>, Error> = match self.cross_kv {
            Some(kvs) => Ok(kvs),
            None => match model.transformer.cross_kv(ca_src, 0, seq![]) {
                Err(e) => Err(e),
                Ok(kvs) => Ok(kv_sources(kvs)),
            },
        };
        match kvs {
            Err(e) => (self, Err(e)),
            Ok(kvs) => {
                let cached = StateParts { cross_kv: Some(kvs), ..self };
                match model.embedded(tokens, condition, self.batch_size()) {
                    Err(e) => (cached, Err(e)),
                    Ok(emb) => {
                        let (next, r) = model.transformer.forwarded(
                            emb,
                            kvs,
                            self.transformer,
                            mask,
                        );
                        let after = StateParts { transformer: next, ..cached };
                        match r {
                            Err(e) => (after, Err(e)),
                            Ok(ys) => (after, model.read_out(ys)),
                        }
                    },
                }
            },
        }
    }
}

/// The samples of a step, taken slice by slice.
pub struct StepRun {
    /// The output of the main transformer.
    pub ys: Tensor,
    /// The caches of the depformer, which start empty in each step.
    pub state: BatchedTransformerState,
    pub semantic_tokens: Vec<i64>,
    /// The tokens of the slices so far.
    pub tokens: Vec<Vec<i64>>,
}

#[verifier::ext_equal]
pub struct RunModel {
    pub ys: Tensor,
    pub state: StateModel,
    pub semantic_tokens: Seq<i64>,
    pub tokens: Seq<Seq<i64>>,
}

impl View for StepRun {
    type V = RunModel;

    open spec fn view(&self) -> RunModel {
        RunModel {
            ys: self.ys,
            state: self.state@,
            semantic_tokens: self.semantic_tokens@,
            tokens: token_rows(self.tokens@),
        }
    }
}

impl RunModel {
    /// Every slice so far has one token for each lane, and the first one has the semantic tokens.
    pub open spec fn wf(self, batch_size: nat) -> bool {
        &&& self.semantic_tokens.len() == batch_size
        &&& self.tokens.len() > 0 ==> self.tokens[0] == self.semantic_tokens
        &&& forall|i: int|
            0 <= i < self.tokens.len() ==> (#[trigger] self.tokens[i]).len() == batch_size
    }

    /// The depformer before its first slice.
    pub open spec fn begun(model: ModelParts, batch_size: nat, ys: Tensor, semantic: Seq<i64>) -> Result<
        RunModel,
        Error,
    > {
        if semantic.len() != batch_size {
            Err(
                Error::SemanticTokens { got: semantic.len() as usize, batch: batch_size as usize },
            )
        } else if model.depformer.len() == 0 {
            Err(Error::NoSlices)
        } else {
            let t = model.depformer[0].transformer;
            match StateModel::fresh(
                batch_size as usize,
                t.num_kv,
                t.context,
                t.head_dim,
                t.layers.len(),
            ) {
                Err(e) => Err(e),
                Ok(state) => Ok(
                    RunModel { ys, state, semantic_tokens: semantic, tokens: seq![] },
                ),
            }
        }
    }

    /// The tokens that the next slice reads: those of the slice before.
    pub open spec fn previous(self) -> Option<Seq<i64>> {
        if self.tokens.len() == 0 {
            None
        } else {
            Some(self.tokens.last())
        }
    }

    /// The run after the transformer of the next slice, and what to sample.
    pub open spec fn sliced(self, model: ModelParts, batch_size: nat, temperature: Tensor) -> (
        RunModel,
        TensorResult,
    ) {
        let (state, r) = model.depformer[self.tokens.len() as int].stepped(
            self.ys,
            self.previous(),
            batch_size as usize,
            self.state,
            temperature,
        );
        (RunModel { state, ..self }, r)
    }

    /// The run with the tokens of the current slice: those of the first slice are given.
    pub open spec fn accepted(self, sampled: Seq<i64>) -> RunModel {
        let row = if self.tokens.len() == 0 {
            self.semantic_tokens
        } else {
            sampled
        };
        RunModel { tokens: self.tokens.push(row), ..self }
    }
}

/// The state and the run once the samples of a codebook were taken, and the next tensor to sample
/// from.
pub open spec fn step_outcome(
    model: ModelParts,
    state: StateParts,
    run: RunModel,
    sampled: Seq<i64>,
) -> (StateParts, RunModel, Result<Option<Tensor>, Error>) {
    let n = state.batch_size();
    let accepted = run.accepted(sampled);
    if run.tokens.len() >= model.depformer.len() {
        (state, run, Err(Error::StepDone))
    } else if sampled.len() != n {
        (state, run, Err(Error::SampledTokens { got: sampled.len() as usize, batch: n as usize }))
    } else if accepted.tokens.len() < model.depformer.len() {
        let (after, t) = accepted.sliced(model, n, state.temperature);
        (state, after, output(t))
    } else if !state.has_room() {
        (state, accepted, Err(Error::TooLarge))
    } else {
        (state.extended(accepted.tokens), accepted, Ok(None))
    }
}

impl StepRun {
    fn accept(&mut self, sampled: Vec<i64>)
        ensures
            final(self)@ == old(self)@.accepted(sampled@),
            old(self)@.wf(sampled@.len()) ==> final(self)@.wf(sampled@.len()),
    {
        let row = if self.tokens.len() == 0 {
            copy_tokens(&self.semantic_tokens)
        } else {
            sampled
        };
        let ghost before = self@;
        let ghost given = row@;
        self.tokens.push(row);
        proof {
            assert(self@.tokens =~= before.tokens.push(given));
        }
    }
}

fn copy_tokens(v: &[i64]) -> (r: Vec<i64>)
    ensures
        r@ == v@,
{
    let mut out: Vec<i64> = Vec::new();
    let mut i: usize = 0;
    while i < v.len()
        invariant
            i <= v.len(),
            out@ == v@.take(i as int),
        decreases v.len() - i,
    {
        out.push(v[i]);
        i += 1;
        assert(out@ =~= v@.take(i as int));
    }
    assert(v@.take(i as int) =~= v@);
    out
}

impl Model {
    /// A state for `batch_size` lanes before their first step.
    pub fn init_state(self: &Arc<Self>, batch_size: usize, default_temperature: SingleBits) -> (r:
        Result<State, Error>)
        ensures
            match (
                node(Shape::D2(batch_size, 1), Op::Full(default_temperature)),
                StateModel::fresh(
                    batch_size,
                    self@.transformer.num_kv,
                    self@.transformer.context,
                    self@.transformer.head_dim,
                    self@.transformer.layers.len(),
                ),
            ) {
                (Err(e), _) => r == Err::<State, Error>(e),
                (Ok(_), Err(e)) => r == Err::<State, Error>(e),
                (Ok(temperature), Ok(transformer)) => r matches Ok(s) && s.model == *self && s@
                    == (StateParts {
                    transformer,
                    cross_kv: None,
                    temperature,
                    default_temperature,
                    per_batch: Seq::new(
                        batch_size as nat,
                        |b: int| LaneModel::fresh(self@.depformer.len()),
                    ),
                }) && s@.wf(self@.depformer.len()),
            },
    {
        let temperature = Tensor::full(default_temperature, Shape::D2(batch_size, 1))?;
        let transformer = self.transformer.init_state(batch_size)?;
        let n_slices: usize = self.depformer.len();
        let mut per_batch: Vec<PerBatch> = Vec::new();
        let mut i: usize = 0;
        while i < batch_size
            invariant
                i <= batch_size,
                n_slices == self@.depformer.len(),
                per_batch.len() == i,
                forall|b: int|
                    0 <= b < i ==> (#[trigger] per_batch[b])@ == LaneModel::fresh(n_slices as nat),
            decreases batch_size - i,
        {
            per_batch.push(PerBatch::new(n_slices));
            i += 1;
        }
        proof {
            assert(lane_models(per_batch@) =~= Seq::new(
                batch_size as nat,
                |b: int| LaneModel::fresh(self@.depformer.len()),
            ));
        }
        Ok(
            State {
                model: self.clone(),
                transformer,
                cross_kv: None,
                temperature,
                default_temperature,
                per_batch,
            },
        )
    }
}

impl State {
    pub fn batch_size(&self) -> (r: usize)
        ensures
            r == self@.batch_size(),
    {
        self.per_batch.len()
    }

    pub fn n_slices(&self) -> (r: usize)
        ensures
            r == self.model@.depformer.len(),
    {
        self.model.n_slices()
    }

    /// Starts lane `batch_idx` anew, at the given temperature or the default one. The
    /// cross-attention source is read anew on the next step, as it may belong to another voice.
    pub fn reset_batch_idx(&mut self, batch_idx: usize, temp: Option<SingleBits>) -> (r: Result<
        (),
        Error,
    >)
        ensures
            final(self).model == old(self).model,
            (final(self)@, r) == old(self)@.lane_reset(batch_idx, temp),
            old(self).wf() ==> final(self).wf(),
    {
        if batch_idx >= self.batch_size() {
            return Err(Error::BatchIndex { batch_idx });
        }
        let temp: SingleBits = match temp {
            Some(t) => t,
            None => self.default_temperature,
        };
        let temp = Tensor::full(temp, Shape::D2(1, 1))?;
        self.temperature = self.temperature.slice_set(&temp, 0, batch_idx)?;
        self.transformer.reset_batch_idx(batch_idx)?;
        let ghost before = lane_models(self.per_batch@);
        self.per_batch[batch_idx].reset();
        proof {
            assert(lane_models(self.per_batch@) =~= before.update(
                batch_idx as int,
                LaneModel::fresh(before[batch_idx as int].audio_tokens.len()),
            ));
        }
        self.cross_kv = None;
        Ok(())
    }

    /// The number of steps of a lane.
    pub fn frames_processed(&self, batch_idx: usize) -> (r: usize)
        requires
            batch_idx < self@.batch_size(),
        ensures
            r == self@.per_batch[batch_idx as int].index,
    {
        self.per_batch[batch_idx].index
    }
}

/// The largest of the delays.
pub open spec fn max_delay(delays: Seq<usize>) -> usize
    decreases delays.len(),
{
    if delays.len() == 0 {
        0
    } else {
        let m = max_delay(delays.drop_last());
        if delays.last() > m {
            delays.last()
        } else {
            m
        }
    }
}

/// No delay is larger than the largest one, and it is one of them.
pub proof fn lemma_max_delay(delays: Seq<usize>)
    ensures
        forall|i: int| 0 <= i < delays.len() ==> #[trigger] delays[i] <= max_delay(delays),
        delays.len() > 0 ==> exists|i: int|
            0 <= i < delays.len() && #[trigger] delays[i] == max_delay(delays),
    decreases delays.len(),
{
    if delays.len() > 0 {
        let rest = delays.drop_last();
        lemma_max_delay(rest);
        assert forall|i: int| 0 <= i < delays.len() implies #[trigger] delays[i] <= max_delay(
            delays,
        ) by {
            if i < rest.len() {
                assert(rest[i] <= max_delay(rest));
            }
        }
        if delays.last() > max_delay(rest) || rest.len() == 0 {
            assert(delays[delays.len() - 1] == max_delay(delays));
        } else {
            let i = choose|i: int| 0 <= i < rest.len() && #[trigger] rest[i] == max_delay(rest);
            assert(delays[i] == max_delay(delays));
        }
    }
}

fn find_max_delay(delays: &Vec<usize>) -> (r: usize)
    ensures
        r == max_delay(delays@),
{
    let mut m: usize = 0;
    let mut i: usize = 0;
    while i < delays.len()
        invariant
            i <= delays.len(),
            m == max_delay(delays@.take(i as int)),
        decreases delays.len() - i,
    {
        proof {
            assert(delays@.take(i + 1).drop_last() =~= delays@.take(i as int));
        }
        if delays[i] > m {
            m = delays[i];
        }
        i += 1;
    }
    assert(delays@.take(i as int) =~= delays@);
    m
}

impl LaneModel {
    /// Whether the lane has a frame in which every codebook has its token.
    pub open spec fn has_frame(self, delays: Seq<usize>) -> bool {
        self.index > max_delay(delays)
    }

    /// Whether the tokens of every codebook reach back far enough for the last whole frame.
    pub open spec fn covers(self, delays: Seq<usize>) -> bool {
        forall|cb: int|
            0 <= cb < delays.len() ==> self.index + #[trigger] delays[cb] > max_delay(delays)
    }

    /// The last frame in which every codebook has its token: each codebook is read as many steps
    /// back as its delay falls short of the largest one.
    pub open spec fn last_frame(self, delays: Seq<usize>) -> Seq<i64> {
        Seq::new(
            delays.len(),
            |cb: int|
                self.audio_tokens[cb][self.index + delays[cb] - max_delay(delays) - 1],
        )
    }
}

impl StateParts {
    /// The last whole frame of every lane, where every lane has one and the model has codebooks.
    pub open spec fn last_frames(self, delays: Seq<usize>) -> Option<Seq<Seq<i64>>> {
        if delays.len() > 0 && forall|b: int|
            0 <= b < self.per_batch.len() ==> (#[trigger] self.per_batch[b]).covers(delays) {
            Some(Seq::new(self.per_batch.len(), |b: int| self.per_batch[b].last_frame(delays)))
        } else {
            None
        }
    }

    /// Every lane after one more step.
    pub open spec fn extended(self, tokens: Seq<Seq<i64>>) -> StateParts {
        StateParts {
            per_batch: Seq::new(
                self.per_batch.len(),
                |b: int| self.per_batch[b].extended(tokens, b),
            ),
            ..self
        }
    }

    /// Whether every lane can count one more step.
    pub open spec fn has_room(self) -> bool {
        forall|b: int|
            0 <= b < self.per_batch.len() ==> (#[trigger] self.per_batch[b]).index < usize::MAX
    }
}

impl State {
    /// Every codebook has a delay, and every lane has one token for each codebook and step.
    pub open spec fn wf(self) -> bool {
        &&& self.model@.wf()
        &&& self@.wf(self.model@.depformer.len())
    }

    /// The tokens that the lanes feed to the next step, by codebook: the newest one of a lane that
    /// has made more steps than the delay of the codebook, and else the one that stands for no audio.
    pub fn audio_tokens_for_current_step(&self) -> (r: Vec<Vec<i64>>)
        requires
            self.wf(),
        ensures
            token_rows(r@) == self@.tokens_to_feed(self.model@),
            r@.len() == self.model@.audio_delays.len(),
            forall|cb: int, b: int|
                0 <= cb < r@.len() && 0 <= b < self@.batch_size() ==> r@[cb]@.len()
                    == self@.batch_size() && #[trigger] r@[cb]@[b]
                    == if self@.per_batch[b].index > self.model@.audio_delays[cb] {
                    self@.per_batch[b].audio_tokens[cb].last()
                } else {
                    self.model@.audio_card as i64
                },
    {
        let mut audio_tokens: Vec<Vec<i64>> = Vec::new();
        let mut cb: usize = 0;
        while cb < self.model.audio_delays.len()
            invariant
                self.wf(),
                cb <= self.model.audio_delays.len(),
                audio_tokens.len() == cb,
                forall|j: int|
                    0 <= j < cb ==> (#[trigger] audio_tokens[j])@ == self@.tokens_to_feed(
                        self.model@,
                    )[j],
            decreases self.model.audio_delays.len() - cb,
        {
            let delay: usize = self.model.audio_delays[cb];
            let mut tokens: Vec<i64> = Vec::new();
            let mut b: usize = 0;
            while b < self.per_batch.len()
                invariant
                    self.wf(),
                    cb < self.model.audio_delays.len(),
                    delay == self.model.audio_delays[cb as int],
                    b <= self.per_batch.len(),
                    tokens.len() == b,
                    forall|j: int|
                        0 <= j < b ==> tokens[j] == self@.token_to_feed(
                            self.model@,
                            cb as int,
                            j,
                        ),
                decreases self.per_batch.len() - b,
            {
                let token: i64 = if self.per_batch[b].index > delay {
                    proof {
                        assert(self@.per_batch[b as int].wf(self.model@.depformer.len()));
                        assert(self@.per_batch[b as int].audio_tokens[cb as int].len() > 0);
                    }
                    let row = &self.per_batch[b].audio_tokens[cb];
                    row[row.len() - 1]
                } else {
                    #[verifier::truncate]
                    (self.model.audio_card as i64)
                };
                tokens.push(token);
                b += 1;
            }
            proof {
                assert(tokens@ =~= self@.tokens_to_feed(self.model@)[cb as int]);
            }
            audio_tokens.push(tokens);
            cb += 1;
        }
        proof {
            assert(token_rows(audio_tokens@) =~= self@.tokens_to_feed(self.model@));
            assert forall|cb: int, b: int|
                0 <= cb < audio_tokens@.len() && 0 <= b < self@.batch_size() implies
                audio_tokens@[cb]@.len() == self@.batch_size() && #[trigger] audio_tokens@[cb]@[b]
                == self@.token_to_feed(self.model@, cb, b) by {
                assert(audio_tokens[cb]@ == self@.tokens_to_feed(self.model@)[cb]);
            }
        }
        audio_tokens
    }

    fn embed(&self, audio_tokens: &Vec<Vec<i64>>, condition: &Option<Tensor>) -> (r: TensorResult)
        ensures
            r == self.model@.embedded(
                token_rows(audio_tokens@),
                *condition,
                self@.batch_size(),
            ),
    {
        let d_model: usize = self.model.text_emb.hidden_size();
        let start = Tensor::zeros(Shape::D3(self.batch_size(), 1, d_model))?;
        let mut emb = start.clone();
        let ghost rows = token_rows(audio_tokens@);
        let mut i: usize = 0;
        while i < self.model.audio_embs.len() && i < audio_tokens.len()
            invariant
                i <= self.model.audio_embs.len(),
                rows == token_rows(audio_tokens@),
                node(
                    Shape::D3(self@.batch_size() as usize, 1, self.model@.text_emb.hidden_size),
                    Op::Zeros,
                ) == Ok::<Tensor, Error>(start),
                self.model@.audio_added(rows, start, 0) == self.model@.audio_added(
                    rows,
                    emb,
                    i as int,
                ),
            decreases self.model.audio_embs.len() - i,
        {
            let ids = &audio_tokens[i];
            let ids_t = Tensor::from_ids(ids, Shape::D1(ids.len()))?;
            let e = self.model.audio_embs[i].forward(&ids_t)?.unsqueeze(1)?;
            emb = emb.add(&e)?;
            i += 1;
        }
        match condition {
            None => Ok(emb),
            Some(cond) => emb.broadcast(BinaryOp::Add, cond),
        }
    }

    /// The text logits and the output of the main transformer for `audio_tokens`, which hold one
    /// token for each codebook and lane.
    pub fn forward(
        &mut self,
        audio_tokens: &Vec<Vec<i64>>,
        ca_src: &CaSrc,
        mask: &StreamMask,
        condition: &Option<Tensor>,
    ) -> (r: Result<(Tensor, Tensor), Error>)
        ensures
            final(self).model == old(self).model,
            old(self).wf() ==> final(self).wf(),
            (final(self)@, r) == old(self)@.forwarded(
                old(self).model@,
                token_rows(audio_tokens@),
                *ca_src,
                flags(*mask),
                *condition,
            ),
    {
        let cross_kv = match self.cross_kv.take() {
            Some(kvs) => kvs,
            None => self.model.transformer.compute_cross_kv_ca_src(ca_src)?,
        };
        let ys = match self.embed(audio_tokens, condition) {
            Err(e) => Err(e),
            Ok(emb) => self.model.transformer.forward(
                &emb,
                &cross_kv,
                &mut self.transformer,
                mask,
            ),
        };
        self.cross_kv = Some(cross_kv);
        let ys = ys?;
        let ys = self.model.out_norm.forward(&ys)?;
        let logits = self.model.text_linear.forward(&ys)?;
        Ok((logits, ys))
    }

    fn begin_depformer(&self, ys: Tensor, semantic_tokens: &[i64]) -> (r: Result<StepRun, Error>)
        ensures
            viewed(r) == RunModel::begun(
                self.model@,
                self@.batch_size(),
                ys,
                semantic_tokens@,
            ),
    {
        let batch_size: usize = self.batch_size();
        if semantic_tokens.len() != batch_size {
            return Err(Error::SemanticTokens { got: semantic_tokens.len(), batch: batch_size });
        }
        if self.model.depformer.len() == 0 {
            return Err(Error::NoSlices);
        }
        let state = self.model.depformer[0].transformer.init_state(batch_size)?;
        let tokens: Vec<Vec<i64>> = Vec::new();
        assert(token_rows(tokens@) =~= seq![]);
        Ok(StepRun { ys, state, semantic_tokens: copy_tokens(semantic_tokens), tokens })
    }

    /// What to sample for the next codebook.
    pub fn depformer_sample(&self, run: &mut StepRun) -> (r: TensorResult)
        requires
            old(run)@.tokens.len() < self.model@.depformer.len(),
        ensures
            (final(run)@, r) == old(run)@.sliced(
                self.model@,
                self@.batch_size(),
                self.temperature,
            ),
    {
        let i: usize = run.tokens.len();
        let batch_size: usize = self.batch_size();
        let prev = if i == 0 {
            None
        } else {
            Some(&run.tokens[i - 1])
        };
        self.model.depformer[i].step(
            &run.ys,
            prev,
            batch_size,
            &mut run.state,
            &self.temperature,
        )
    }

    /// Starts a step: returns the samples to take, and the tensor to take the first ones from.
    /// `semantic_tokens` are the tokens of the first codebook.
    pub fn begin_step(
        &mut self,
        ca_src: &CaSrc,
        mask: &StreamMask,
        condition: &Option<Tensor>,
        semantic_tokens: &[i64],
    ) -> (r: Result<(StepRun, Tensor), Error>)
        requires
            old(self).wf(),
        ensures
            final(self).model == old(self).model,
            final(self).wf(),
            ({
                let model = old(self).model@;
                let (next, out) = old(self)@.forwarded(
                    model,
                    old(self)@.tokens_to_feed(model),
                    *ca_src,
                    flags(*mask),
                    *condition,
                );
                &&& final(self)@ == next
                &&& match out {
                    Err(e) => r == Err::<(StepRun, Tensor), Error>(e),
                    Ok((_, ys)) => match RunModel::begun(
                        model,
                        next.batch_size(),
                        ys,
                        semantic_tokens@,
                    ) {
                        Err(e) => r == Err::<(StepRun, Tensor), Error>(e),
                        Ok(run) => {
                            let (after, t) = run.sliced(
                                model,
                                next.batch_size(),
                                next.temperature,
                            );
                            match (r, t) {
                                (Ok((run, first)), Ok(t)) => run@ == after && first == t && run@.wf(
                                    next.batch_size(),
                                ),
                                (Err(a), Err(b)) => a == b,
                                _ => false,
                            }
                        },
                    },
                }
            }),
    {
        let audio_tokens = self.audio_tokens_for_current_step();
        let (_, ys) = self.forward(&audio_tokens, ca_src, mask, condition)?;
        let mut run = self.begin_depformer(ys, semantic_tokens)?;
        let first = self.depformer_sample(&mut run)?;
        Ok((run, first))
    }

    /// Goes on with a step: takes the tokens sampled from the tensor that came last, and returns
    /// the next tensor to sample from. There is none once every codebook has its tokens; they then
    /// belong to the lanes. In place of what was sampled, the first codebook gets the semantic
    /// tokens.
    pub fn step(&mut self, run: &mut StepRun, sampled: Vec<i64>) -> (r: Result<
        Option<Tensor>,
        Error,
    >)
        requires
            old(self).wf(),
            old(run)@.wf(old(self)@.batch_size()),
        ensures
            final(self).model == old(self).model,
            final(self).wf(),
            final(run)@.wf(final(self)@.batch_size()),
            (final(self)@, final(run)@, r) == step_outcome(
                old(self).model@,
                old(self)@,
                old(run)@,
                sampled@,
            ),
    {
        let n_slices: usize = self.model.depformer.len();
        let batch_size: usize = self.batch_size();
        if run.tokens.len() >= n_slices {
            return Err(Error::StepDone);
        }
        if sampled.len() != batch_size {
            return Err(Error::SampledTokens { got: sampled.len(), batch: batch_size });
        }
        run.accept(sampled);
        let ghost accepted = run@;
        if run.tokens.len() < n_slices {
            let t = self.depformer_sample(run);
            assert(run@.tokens == accepted.tokens);
            assert(run@.semantic_tokens == accepted.semantic_tokens);
            match t {
                Ok(t) => Ok(Some(t)),
                Err(e) => Err(e),
            }
        } else {
            proof {
                assert forall|cb: int| 0 <= cb < run.tokens.len() implies (
                #[trigger] run.tokens[cb])@.len() == batch_size by {
                    assert(run@.tokens[cb].len() == batch_size);
                }
            }
            match self.finish_step(&run.tokens) {
                Ok(_) => Ok(None),
                Err(e) => Err(e),
            }
        }
    }

    fn finish_step(&mut self, tokens: &Vec<Vec<i64>>) -> (r: Result<(), Error>)
        requires
            old(self).wf(),
            tokens@.len() == old(self).model@.depformer.len(),
            forall|cb: int|
                0 <= cb < tokens.len() ==> (#[trigger] tokens[cb])@.len()
                    == old(self)@.batch_size(),
        ensures
            final(self).model == old(self).model,
            final(self).wf(),
            old(self)@.has_room() ==> r == Ok::<(), Error>(()) && final(self)@
                == old(self)@.extended(token_rows(tokens@)),
            !old(self)@.has_room() ==> r == Err::<(), Error>(Error::TooLarge) && final(self)@
                == old(self)@,
    {
        let mut b: usize = 0;
        while b < self.per_batch.len()
            invariant
                b <= self.per_batch.len(),
                self@ == old(self)@,
                self.model == old(self).model,
                old(self).wf(),
                forall|j: int| 0 <= j < b ==> (#[trigger] self@.per_batch[j]).index < usize::MAX,
            decreases self.per_batch.len() - b,
        {
            if self.per_batch[b].index == usize::MAX {
                assert(self@.per_batch[b as int].index == usize::MAX);
                return Err(Error::TooLarge);
            }
            b += 1;
        }
        let ghost rows = token_rows(tokens@);
        let ghost n_slices = self.model@.depformer.len();
        let mut b: usize = 0;
        while b < self.per_batch.len()
            invariant
                b <= self.per_batch.len(),
                old(self).wf(),
                old(self)@.has_room(),
                n_slices == old(self).model@.depformer.len(),
                tokens@.len() == n_slices,
                rows == token_rows(tokens@),
                forall|cb: int|
                    0 <= cb < tokens.len() ==> (#[trigger] tokens[cb])@.len()
                        == old(self)@.batch_size(),
                self.per_batch.len() == old(self)@.batch_size(),
                self.model == old(self).model,
                self.transformer == old(self).transformer,
                self.cross_kv == old(self).cross_kv,
                self.temperature == old(self).temperature,
                self.default_temperature == old(self).default_temperature,
                forall|j: int|
                    0 <= j < b ==> (#[trigger] self.per_batch[j])@ == old(
                        self,
                    )@.per_batch[j].extended(rows, j),
                forall|j: int|
                    b <= j < self.per_batch.len() ==> (#[trigger] self.per_batch[j])@ == old(
                        self,
                    )@.per_batch[j],
            decreases self.per_batch.len() - b,
        {
            proof {
                assert(old(self)@.per_batch[b as int].index < usize::MAX);
                assert(self.per_batch[b as int]@ == old(self)@.per_batch[b as int]);
            }
            self.per_batch[b].extend(tokens, b);
            b += 1;
        }
        proof {
            assert(lane_models(self.per_batch@) =~= old(self)@.extended(rows).per_batch);
            assert forall|j: int| 0 <= j < self@.per_batch.len() implies (
            #[trigger] self@.per_batch[j]).wf(n_slices) by {
                assert(old(self)@.per_batch[j].wf(n_slices));
            }
        }
        Ok(())
    }

    /// The last frame of every lane in which every codebook has its token, lane by lane; none
    /// while some lane has no such frame.
    pub fn last_audio_tokens(&self) -> (r: Option<Vec<Vec<i64>>>)
        requires
            self.wf(),
        ensures
            (match r {
                Some(v) => Some(token_rows(v@)),
                None => None,
            }) == self@.last_frames(self.model@.audio_delays),
    {
        let delays = &self.model.audio_delays;
        if delays.len() == 0 {
            return None;
        }
        let max: usize = find_max_delay(delays);
        proof {
            lemma_max_delay(delays@);
        }
        let mut last_tokens: Vec<Vec<i64>> = Vec::new();
        let mut b: usize = 0;
        while b < self.per_batch.len()
            invariant
                self.wf(),
                delays@ == self.model@.audio_delays,
                delays.len() > 0,
                max == max_delay(delays@),
                forall|i: int| 0 <= i < delays.len() ==> #[trigger] delays@[i] <= max,
                b <= self.per_batch.len(),
                last_tokens.len() == b,
                forall|j: int| 0 <= j < b ==> (#[trigger] self@.per_batch[j]).covers(delays@),
                forall|j: int|
                    0 <= j < b ==> (#[trigger] last_tokens[j])@ == self@.per_batch[j].last_frame(
                        delays@,
                    ),
            decreases self.per_batch.len() - b,
        {
            let ghost lane = self@.per_batch[b as int];
            let index: usize = self.per_batch[b].index;
            let mut tokens: Vec<i64> = Vec::new();
            let mut cb: usize = 0;
            while cb < delays.len()
                invariant
                    self.wf(),
                    delays@ == self.model@.audio_delays,
                    delays.len() > 0,
                    max == max_delay(delays@),
                    forall|i: int| 0 <= i < delays.len() ==> #[trigger] delays@[i] <= max,
                    b < self.per_batch.len(),
                    lane == self@.per_batch[b as int],
                    index == lane.index,
                    cb <= delays.len(),
                    tokens.len() == cb,
                    forall|j: int| 0 <= j < cb ==> index + #[trigger] delays@[j] > max,
                    forall|j: int|
                        0 <= j < cb ==> tokens[j] == #[trigger] lane.last_frame(delays@)[j],
                decreases delays.len() - cb,
            {
                let delay: usize = delays[cb];
                assert(delays@[cb as int] <= max);
                if index > max - delay {
                    let step_idx: usize = index - (max - delay) - 1;
                    proof {
                        assert(lane.wf(self.model@.depformer.len()));
                        assert(lane.audio_tokens[cb as int].len() == index);
                    }
                    tokens.push(self.per_batch[b].audio_tokens[cb][step_idx]);
                } else {
                    proof {
                        assert(!(lane.index + delays@[cb as int] > max_delay(delays@)));
                        assert(!self@.per_batch[b as int].covers(delays@));
                    }
                    return None;
                }
                cb += 1;
            }
            proof {
                assert(lane.covers(delays@));
                assert(tokens@ =~= lane.last_frame(delays@));
            }
            last_tokens.push(tokens);
            b += 1;
        }
        proof {
            assert(token_rows(last_tokens@) =~= Seq::new(
                self@.per_batch.len(),
                |b: int| self@.per_batch[b].last_frame(delays@),
            ));
        }
        Some(last_tokens)
    }
}

/// The tokens of a frame belong to one moment: that of codebook `cb` was sampled as many steps
/// after the moment as the delay of the codebook says.
pub proof fn frame_is_one_moment(lane: LaneModel, delays: Seq<usize>, cb: int)
    requires
        0 <= cb < delays.len(),
    ensures
        ({
            let moment = lane.index - 1 - max_delay(delays);
            lane.last_frame(delays)[cb] == lane.audio_tokens[cb][moment + delays[cb]]
        }),
{
}

/// Every step moves the last frame on by one: the codebook with the largest delay gets the token
/// just sampled, and any other the token after the one that it had.
pub proof fn step_moves_the_frame(
    lane: LaneModel,
    tokens: Seq<Seq<i64>>,
    b: int,
    delays: Seq<usize>,
    cb: int,
)
    requires
        lane.wf(tokens.len()),
        delays.len() == tokens.len(),
        lane.index < usize::MAX,
        lane.index + delays[cb] >= max_delay(delays),
        0 <= cb < delays.len(),
    ensures
        ({
            let next = lane.extended(tokens, b);
            let step = lane.index + delays[cb] - max_delay(delays);
            &&& next.wf(tokens.len())
            &&& delays[cb] == max_delay(delays) ==> next.last_frame(delays)[cb] == tokens[cb][b]
            &&& delays[cb] < max_delay(delays) ==> next.last_frame(delays)[cb]
                == lane.audio_tokens[cb][step]
        }),
{
    let next = lane.extended(tokens, b);
    assert(lane.audio_tokens[cb].len() == lane.index);
    assert forall|i: int| 0 <= i < tokens.len() implies (#[trigger] next.audio_tokens[i]).len()
        == next.index by {
        assert(lane.audio_tokens[i].len() == lane.index);
    }
}

/// A lane has a whole frame once the largest delay has passed.
pub proof fn frames_come_after_the_delay(lane: LaneModel, delays: Seq<usize>)
    requires
        delays.len() > 0,
        lane.has_frame(delays),
    ensures
        lane.covers(delays),
{
}

/// The source of the cross-attention is read on the first step alone: a later step does the same
/// whatever source it is given.
pub proof fn source_is_read_once(
    state: StateParts,
    model: ModelParts,
    tokens: Seq<Seq<i64>>,
    a: CaSrc,
    b: CaSrc,
    mask: Option<Seq<bool>>,
    condition: Option<Tensor>,
)
    requires
        state.cross_kv is Some,
    ensures
        state.forwarded(model, tokens, a, mask, condition) == state.forwarded(
            model,
            tokens,
            b,
            mask,
            condition,
        ),
{
}

/// After a step the source has been read.
pub proof fn step_reads_the_source(
    state: StateParts,
    model: ModelParts,
    tokens: Seq<Seq<i64>>,
    ca_src: CaSrc,
    mask: Option<Seq<bool>>,
    condition: Option<Tensor>,
)
    requires
        state.forwarded(model, tokens, ca_src, mask, condition).1 is Ok,
    ensures
        state.forwarded(model, tokens, ca_src, mask, condition).0.cross_kv is Some,
        state.forwarded(model, tokens, ca_src, mask, condition).0.per_batch == state.per_batch,
        state.forwarded(model, tokens, ca_src, mask, condition).0.temperature == state.temperature,
{
}

/// The main transformer leaves the tokens of the lanes, their steps and their temperatures alone.
pub proof fn forward_keeps_the_tokens(
    state: StateParts,
    model: ModelParts,
    tokens: Seq<Seq<i64>>,
    ca_src: CaSrc,
    mask: Option<Seq<bool>>,
    condition: Option<Tensor>,
)
    ensures
        ({
            let next = state.forwarded(model, tokens, ca_src, mask, condition).0;
            &&& next.per_batch == state.per_batch
            &&& next.temperature == state.temperature
            &&& next.default_temperature == state.default_temperature
        }),
{
}

/// A lane that starts anew forgets its tokens and its position, and has the source read anew; the
/// tokens and positions of the other lanes stay.
pub proof fn reset_starts_one_lane(
    state: StateParts,
    batch_idx: usize,
    temp: Option<SingleBits>,
    b: int,
)
    requires
        state.lane_reset(batch_idx, temp).1 is Ok,
        0 <= b < state.batch_size(),
        state.transformer.batch_size() == state.batch_size(),
    ensures
        ({
            let next = state.lane_reset(batch_idx, temp).0;
            &&& next.cross_kv is None
            &&& next.per_batch.len() == state.per_batch.len()
            &&& b == batch_idx ==> next.per_batch[b] == LaneModel::fresh(
                state.per_batch[b].audio_tokens.len(),
            ) && next.transformer.builder.positions[b] == 0
            &&& b != batch_idx ==> next.per_batch[b] == state.per_batch[b]
                && next.transformer.builder.positions[b] == state.transformer.builder.positions[b]
        }),
{
}

proof fn lemma_slices_loaded(
    vb: Weights,
    cfg: Config,
    from: int,
    slices: Seq<SliceModel>,
    embs: Seq<Embedding>,
    all: Seq<SliceModel>,
    all_embs: Seq<Embedding>,
)
    requires
        0 <= from <= cfg.n_q(),
        slices.len() == from,
        embs.len() == from,
        forall|i: int|
            0 <= i < from ==> SliceModel::loaded(vb.at("depformer").nth(i), cfg, i) == Ok::<
                SliceModel,
                Error,
            >(#[trigger] slices[i]),
        ModelParts::slices_loaded(vb, cfg, from, slices, embs) == Ok::<
            (Seq<SliceModel>, Seq<Embedding>),
            Error,
        >((all, all_embs)),
    ensures
        all.len() == cfg.n_q(),
        all_embs.len() == cfg.n_q(),
        forall|i: int|
            0 <= i < cfg.n_q() ==> SliceModel::loaded(vb.at("depformer").nth(i), cfg, i) == Ok::<
                SliceModel,
                Error,
            >(#[trigger] all[i]),
    decreases cfg.n_q() - from,
{
    if from < cfg.n_q() {
        let slice = SliceModel::loaded(vb.at("depformer").nth(from), cfg, from)->Ok_0;
        let vocab = (cfg.audio_card + 1) as usize;
        let emb = Embedding::loaded(vb.at("emb").nth(from), vocab, cfg.transformer.d_model)->Ok_0;
        lemma_slices_loaded(
            vb,
            cfg,
            from + 1,
            slices.push(slice),
            embs.push(emb),
            all,
            all_embs,
        );
    }
}

/// A loaded model has one slice, one embedding and one delay for each codebook of the schedule.
pub proof fn model_covers_the_codebooks(
    vb: Weights,
    cfg: Config,
    conditions: Option<Tensor>,
    model: ModelParts,
)
    requires
        ModelParts::loaded(vb, cfg, conditions) == Ok::<ModelParts, Error>(model),
    ensures
        model.depformer.len() == cfg.n_q(),
        model.audio_embs.len() == cfg.n_q(),
        model.audio_delays.len() == cfg.n_q(),
        model.wf(),
{
    lemma_slices_loaded(vb, cfg, 0, seq![], seq![], model.depformer, model.audio_embs);
}

/// Each lane feeds one token for each codebook to the next step: the newest one where the lane has
/// made more steps than the delay of the codebook, and else the one that stands for no audio.
pub proof fn newest_tokens_are_fed(state: StateParts, model: ModelParts, cb: int, b: int)
    requires
        model.wf(),
        state.wf(model.depformer.len()),
        0 <= cb < model.audio_delays.len(),
        0 <= b < state.batch_size(),
    ensures
        state.tokens_to_feed(model).len() == model.audio_delays.len(),
        state.tokens_to_feed(model)[cb].len() == state.batch_size(),
        ({
            let lane = state.per_batch[b];
            let fed = state.tokens_to_feed(model)[cb][b];
            &&& lane.index > model.audio_delays[cb] ==> lane.audio_tokens[cb].len() > 0 && fed
                == lane.audio_tokens[cb].last()
            &&& lane.index <= model.audio_delays[cb] ==> fed == model.audio_card as i64
        }),
{
    assert(state.per_batch[b].wf(model.depformer.len()));
    assert(state.per_batch[b].audio_tokens[cb].len() == state.per_batch[b].index);
}

/// A lane that was just made or reset feeds the token that stands for no audio for every codebook.
pub proof fn fresh_lanes_feed_no_audio(state: StateParts, model: ModelParts, cb: int, b: int)
    requires
        0 <= cb < model.audio_delays.len(),
        0 <= b < state.batch_size(),
        state.per_batch[b] == LaneModel::fresh(model.depformer.len()),
    ensures
        state.tokens_to_feed(model)[cb][b] == model.audio_card as i64,
{
}

/// The token that a step sampled is the one that the next step feeds, once the delay has passed.
pub proof fn sampled_tokens_are_fed_next(
    state: StateParts,
    model: ModelParts,
    tokens: Seq<Seq<i64>>,
    cb: int,
    b: int,
)
    requires
        model.wf(),
        state.wf(model.depformer.len()),
        state.has_room(),
        tokens.len() == model.depformer.len(),
        0 <= cb < model.audio_delays.len(),
        0 <= b < state.batch_size(),
    ensures
        state.extended(tokens).tokens_to_feed(model)[cb][b] == if state.per_batch[b].index
            >= model.audio_delays[cb] {
            tokens[cb][b]
        } else {
            model.audio_card as i64
        },
{
    assert(state.per_batch[b].wf(model.depformer.len()));
    assert(state.per_batch[b].index < usize::MAX);
}

/// A model whose text map is from vectors of the width of its embeddings to `vocab` logits.
pub open spec fn reads_out(model: ModelParts, vocab: usize) -> bool {
    &&& model.text_linear.weight.shape_of() == Shape::D2(vocab, model.text_emb.hidden_size)
    &&& model.text_linear.bias is None
}

/// A model loaded from a checkpoint that keeps to the shapes asked for has vectors of the width and
/// as many logits as its configuration says.
pub proof fn loaded_model_reads_out(
    vb: Weights,
    cfg: Config,
    conditions: Option<Tensor>,
    model: ModelParts,
)
    requires
        vb.checkpoint.format == Format::Safetensors,
        ModelParts::loaded(vb, cfg, conditions) == Ok::<ModelParts, Error>(model),
    ensures
        model.text_emb.hidden_size == cfg.transformer.d_model,
        reads_out(model, cfg.text_card_out),
{
}

/// A condition that does not change the shape of what it is added to.
pub open spec fn condition_fits(condition: Option<Tensor>, shape: Shape) -> bool {
    condition matches Some(c) ==> broadcast_shape(shape, c.shape_of()) == Ok::<Shape, Error>(shape)
}

proof fn lemma_audio_added_shape(
    model: ModelParts,
    tokens: Seq<Seq<i64>>,
    emb: Tensor,
    i: int,
    out: Tensor,
)
    requires
        model.audio_added(tokens, emb, i) == Ok::<Tensor, Error>(out),
    ensures
        out.shape_of() == emb.shape_of(),
    decreases model.audio_embs.len() - i,
{
    if !(i < 0 || i >= model.audio_embs.len() || i >= tokens.len()) {
        let e = unsqueeze_of(
            model.audio_embs[i].forwarded(ids_of(tokens[i], Shape::D1(tokens[i].len() as usize))),
            1,
        )->Ok_0;
        let sum = binary_of(BinaryOp::Add, Ok(emb), Ok(e))->Ok_0;
        lemma_audio_added_shape(model, tokens, sum, i + 1, out);
    }
}

proof fn lemma_embedded_shape(
    model: ModelParts,
    tokens: Seq<Seq<i64>>,
    condition: Option<Tensor>,
    batch_size: nat,
    out: Tensor,
)
    requires
        condition_fits(
            condition,
            Shape::D3(batch_size as usize, 1, model.text_emb.hidden_size),
        ),
        model.embedded(tokens, condition, batch_size) == Ok::<Tensor, Error>(out),
    ensures
        out.shape_of() == Shape::D3(batch_size as usize, 1, model.text_emb.hidden_size),
{
    let start = node(
        Shape::D3(batch_size as usize, 1, model.text_emb.hidden_size),
        Op::Zeros,
    )->Ok_0;
    let emb = model.audio_added(tokens, start, 0)->Ok_0;
    lemma_audio_added_shape(model, tokens, start, 0, emb);
}

proof fn lemma_read_out_shape(model: ModelParts, ys: Tensor, vocab: usize, logits: Tensor, out: Tensor)
    requires
        reads_out(model, vocab),
        ys.shape_of() is D3,
        model.read_out(ys) == Ok::<(Tensor, Tensor), Error>((logits, out)),
    ensures
        out.shape_of() == ys.shape_of(),
        logits.shape_of() == Shape::D3(ys.shape_of()->D3_0, ys.shape_of()->D3_1, vocab),
{
    let map = model.text_linear;
    linear_keeps_lanes_and_steps(map.kind, out, map.weight, map.bias, logits);
}

/// The main transformer gives each lane one output of the width of the model, and one logit for
/// each text token.
pub proof fn step_output_shapes(
    state: StateParts,
    model: ModelParts,
    tokens: Seq<Seq<i64>>,
    ca_src: CaSrc,
    mask: Option<Seq<bool>>,
    condition: Option<Tensor>,
    vocab: usize,
    logits: Tensor,
    ys: Tensor,
)
    requires
        reads_out(model, vocab),
        condition_fits(
            condition,
            Shape::D3(state.batch_size() as usize, 1, model.text_emb.hidden_size),
        ),
        state.forwarded(model, tokens, ca_src, mask, condition).1 == Ok::<(Tensor, Tensor), Error>(
            (logits, ys),
        ),
    ensures
        logits.shape_of() == Shape::D3(state.batch_size() as usize, 1, vocab),
        ys.shape_of() == Shape::D3(state.batch_size() as usize, 1, model.text_emb.hidden_size),
{
    let kvs = match state.cross_kv {
        Some(kvs) => kvs,
        None => kv_sources(model.transformer.cross_kv(ca_src, 0, seq![])->Ok_0),
    };
    let emb = model.embedded(tokens, condition, state.batch_size())->Ok_0;
    lemma_embedded_shape(model, tokens, condition, state.batch_size(), emb);
    let out = model.transformer.forwarded(emb, kvs, state.transformer, mask).1->Ok_0;
    ca_step_keeps_the_shape(model.transformer, emb, kvs, state.transformer, mask, out);
    lemma_read_out_shape(model, out, vocab, logits, ys);
}

/// The state and the run once the samples `samples` were taken, one codebook after the other.
pub open spec fn samples_taken(
    model: ModelParts,
    state: StateParts,
    run: RunModel,
    samples: Seq<Seq<i64>>,
) -> Result<(StateParts, RunModel), Error>
    decreases samples.len(),
{
    if samples.len() == 0 {
        Ok((state, run))
    } else {
        match samples_taken(model, state, run, samples.drop_last()) {
            Err(e) => Err(e),
            Ok((state, run)) => {
                let (state, run, out) = step_outcome(model, state, run, samples.last());
                match out {
                    Err(e) => Err(e),
                    Ok(_) => Ok((state, run)),
                }
            },
        }
    }
}

/// The tokens of a step: the semantic tokens for the first codebook, and those sampled for the
/// others.
pub open spec fn step_tokens(semantic: Seq<i64>, samples: Seq<Seq<i64>>) -> Seq<Seq<i64>> {
    if samples.len() == 0 {
        samples
    } else {
        samples.update(0, semantic)
    }
}

proof fn lemma_samples_taken(
    model: ModelParts,
    state: StateParts,
    run: RunModel,
    samples: Seq<Seq<i64>>,
)
    requires
        run.tokens.len() == 0,
        samples.len() <= model.depformer.len(),
        samples_taken(model, state, run, samples) is Ok,
    ensures
        ({
            let (after, done) = samples_taken(model, state, run, samples)->Ok_0;
            &&& done.tokens == step_tokens(run.semantic_tokens, samples)
            &&& done.semantic_tokens == run.semantic_tokens
            &&& after == if samples.len() == model.depformer.len() && samples.len() > 0 {
                state.extended(done.tokens)
            } else {
                state
            }
            &&& samples.len() == model.depformer.len() && samples.len() > 0 ==> state.has_room()
            &&& forall|i: int|
                0 <= i < samples.len() ==> (#[trigger] samples[i]).len() == state.batch_size()
        }),
    decreases samples.len(),
{
    if samples.len() == 0 {
        assert(run.tokens =~= samples);
    } else {
        let rest = samples.drop_last();
        lemma_samples_taken(model, state, run, rest);
        let (before, part) = samples_taken(model, state, run, rest)->Ok_0;
        assert(before == state);
        let accepted = part.accepted(samples.last());
        assert(accepted.tokens =~= step_tokens(run.semantic_tokens, samples));
        assert forall|i: int| 0 <= i < samples.len() implies (#[trigger] samples[i]).len()
            == state.batch_size() by {
            if i < rest.len() {
                assert(rest[i].len() == state.batch_size());
            }
        }
    }
}

/// A step that is begun and run to its end gives every lane exactly one more token for each
/// codebook: the semantic token for the first one, and the sampled ones for the others.
pub proof fn whole_step_adds_one_frame(
    state: StateParts,
    model: ModelParts,
    ca_src: CaSrc,
    mask: Option<Seq<bool>>,
    condition: Option<Tensor>,
    semantic: Seq<i64>,
    logits: Tensor,
    ys: Tensor,
    run: RunModel,
    samples: Seq<Seq<i64>>,
    after: StateParts,
    done: RunModel,
    b: int,
)
    requires
        model.wf(),
        state.wf(model.depformer.len()),
        state.forwarded(model, state.tokens_to_feed(model), ca_src, mask, condition).1 == Ok::<
            (Tensor, Tensor),
            Error,
        >((logits, ys)),
        RunModel::begun(model, state.batch_size(), ys, semantic) == Ok::<RunModel, Error>(run),
        samples.len() == model.depformer.len(),
        ({
            let next = state.forwarded(
                model,
                state.tokens_to_feed(model),
                ca_src,
                mask,
                condition,
            ).0;
            let (started, first) = run.sliced(model, state.batch_size(), next.temperature);
            &&& first is Ok
            &&& samples_taken(model, next, started, samples) == Ok::<
                (StateParts, RunModel),
                Error,
            >((after, done))
        }),
        0 <= b < state.batch_size(),
    ensures
        after.wf(model.depformer.len()),
        after.batch_size() == state.batch_size(),
        done.tokens == step_tokens(semantic, samples),
        after.per_batch[b].index == state.per_batch[b].index + 1,
        forall|cb: int|
            0 <= cb < model.depformer.len() ==> #[trigger] after.per_batch[b].audio_tokens[cb]
                == state.per_batch[b].audio_tokens[cb].push(
                if cb == 0 {
                    semantic[b]
                } else {
                    samples[cb][b]
                },
            ),
{
    forward_keeps_the_tokens(
        state,
        model,
        state.tokens_to_feed(model),
        ca_src,
        mask,
        condition,
    );
    let next = state.forwarded(model, state.tokens_to_feed(model), ca_src, mask, condition).0;
    let started = run.sliced(model, state.batch_size(), next.temperature).0;
    lemma_samples_taken(model, next, started, samples);
    let n = model.depformer.len();
    assert(after == next.extended(done.tokens));
    assert(next.per_batch[b].index < usize::MAX);
    assert(state.per_batch[b].wf(n));
    assert forall|c: int| 0 <= c < after.per_batch.len() implies (#[trigger] after.per_batch[c]).wf(
        n,
    ) by {
        let lane = state.per_batch[c];
        assert(lane.wf(n));
        assert(next.per_batch[c].index < usize::MAX);
        let longer = lane.extended(done.tokens, c);
        assert forall|cb: int| 0 <= cb < n implies (#[trigger] longer.audio_tokens[cb]).len()
            == longer.index by {
            assert(lane.audio_tokens[cb].len() == lane.index);
        }
    }
}

} // verus!
