//! The language model over text and audio tokens.
use crate::checkpoint::{weight_of, Weights};
use crate::error::{viewed, Error};
use crate::moshi::copy_indices;
use crate::nn::{Embedding, LayerNorm, Linear};
use crate::ops::{
    linear_keeps_lanes_and_steps, binary_of, broadcast_of, cat_of, dim_of, dims3_of, ids_of,
    matmul_of, reshape_of, softmax_of, stack_of, unary_of, unsqueeze_of,
};
use crate::seanet::Activation;
use crate::shape::Shape;
use crate::tensor::{
    node, output, BinaryOp, LinearKind, Op, Tensor, TensorResult, UnaryOp, EPS_1E5, ONE,
};
use crate::transformer;
use crate::transformer::{
    last_or, BatchedTransformer, BatchedTransformerState, Norm, StateModel, TransformerModel,
};
use crate::NormType;
use std::sync::Arc;
use crate::streaming::flags;
use vstd::prelude::*;
use xn::streaming::StreamMask;

verus! {

/// `100_000.0`
pub const LONG_PERIOD: u64 = 0x40f8_6a00_0000_0000u64;

/// The layout of a language model.
#[derive(Clone, Debug)]
pub struct Config {
    pub transformer: transformer::Config,
    pub text_in_vocab_size: usize,
    pub text_out_vocab_size: usize,
    pub audio_vocab_size: usize,
    pub audio_codebooks: usize,
    pub extra_heads: Option<ExtraHeadsConfig>,
}

#[verifier::ext_equal]
pub struct ConfigModel {
    pub transformer: transformer::Config,
    pub text_in_vocab_size: usize,
    pub text_out_vocab_size: usize,
    pub audio_vocab_size: usize,
    pub audio_codebooks: usize,
    pub extra_heads: Option<ExtraHeadsModel>,
}

impl View for Config {
    type V = ConfigModel;

    open spec fn view(&self) -> ConfigModel {
        ConfigModel {
            transformer: self.transformer,
            text_in_vocab_size: self.text_in_vocab_size,
            text_out_vocab_size: self.text_out_vocab_size,
            audio_vocab_size: self.audio_vocab_size,
            audio_codebooks: self.audio_codebooks,
            extra_heads: match self.extra_heads {
                Some(c) => Some(c@),
                None => None,
            },
        }
    }
}

/// The layout of the extra heads.
#[derive(Clone, Debug)]
pub struct ExtraHeadsConfig {
    pub num_heads: usize,
    pub dim: usize,
    /// The layers of the main transformer that the heads read, mixed where there are several. The
    /// heads read the normalized output of the transformer where this is absent.
    pub from_layer: Option<Vec<usize>>,
    /// The inner width of the residual blocks, that of the model where absent. There must be
    /// residual blocks for it.
    pub hidden_dim: Option<usize>,
    /// Whether the norms of the mixer have learnt parameters.
    pub mixer_affine: bool,
    /// How many residual blocks stand before the linear map of each head.
    pub residual_blocks: usize,
}

#[verifier::ext_equal]
pub struct ExtraHeadsModel {
    pub num_heads: usize,
    pub dim: usize,
    pub from_layer: Option<Seq<usize>>,
    pub hidden_dim: Option<usize>,
    pub mixer_affine: bool,
    pub residual_blocks: usize,
}

impl View for ExtraHeadsConfig {
    type V = ExtraHeadsModel;

    open spec fn view(&self) -> ExtraHeadsModel {
        ExtraHeadsModel {
            num_heads: self.num_heads,
            dim: self.dim,
            from_layer: match self.from_layer {
                Some(ls) => Some(ls@),
                None => None,
            },
            hidden_dim: self.hidden_dim,
            mixer_affine: self.mixer_affine,
            residual_blocks: self.residual_blocks,
        }
    }
}

/// The transformer that the released speech models share, but for its size.
pub open spec fn speech_transformer(
    d_model: usize,
    num_heads: usize,
    num_layers: usize,
    dim_feedforward: usize,
    context: usize,
) -> transformer::Config {
    transformer::Config {
        d_model,
        num_heads,
        num_layers,
        causal: true,
        norm_first: true,
        bias_ff: false,
        bias_attn: false,
        layer_scale: None,
        positional_embedding: transformer::PositionalEmbedding::Rope,
        use_conv_block: false,
        gating: Some(Activation::Silu),
        norm: NormType::RmsNormF32,
        context,
        max_period: LONG_PERIOD,
        kv_repeat: 1,
        dim_feedforward,
        conv_layout: false,
    }
}

fn make_speech_transformer(
    d_model: usize,
    num_heads: usize,
    num_layers: usize,
    dim_feedforward: usize,
    context: usize,
) -> (r: transformer::Config)
    ensures
        r == speech_transformer(d_model, num_heads, num_layers, dim_feedforward, context),
{
    transformer::Config {
        d_model,
        num_heads,
        num_layers,
        causal: true,
        norm_first: true,
        bias_ff: false,
        bias_attn: false,
        layer_scale: None,
        positional_embedding: transformer::PositionalEmbedding::Rope,
        use_conv_block: false,
        gating: Some(Activation::Silu),
        norm: NormType::RmsNormF32,
        context,
        max_period: LONG_PERIOD,
        kv_repeat: 1,
        dim_feedforward,
        conv_layout: false,
    }
}

impl Config {
    pub fn asr_v0_1_1b() -> (r: Config)
        ensures
            r@ == (ConfigModel {
                transformer: speech_transformer(2048, 16, 16, 8192, 750),
                text_in_vocab_size: 48001,
                text_out_vocab_size: 48000,
                audio_vocab_size: 2049,
                audio_codebooks: 8,
                extra_heads: None,
            }),
    {
        Config {
            transformer: make_speech_transformer(2048, 16, 16, 2048 * 4, 750),
            text_in_vocab_size: 48001,
            text_out_vocab_size: 48000,
            audio_vocab_size: 2049,
            audio_codebooks: 8,
            extra_heads: None,
        }
    }

    pub fn stt_2_6b() -> (r: Config)
        ensures
            r@ == (ConfigModel {
                transformer: speech_transformer(2048, 32, 48, 8448, 375),
                text_in_vocab_size: 4001,
                text_out_vocab_size: 4000,
                audio_vocab_size: 2049,
                audio_codebooks: 32,
                extra_heads: None,
            }),
    {
        Config {
            transformer: make_speech_transformer(2048, 32, 48, 8448, 375),
            text_in_vocab_size: 4001,
            text_out_vocab_size: 4000,
            audio_vocab_size: 2049,
            audio_codebooks: 32,
            extra_heads: None,
        }
    }

    pub fn asr_300m_202501() -> (r: Config)
        ensures
            r@ == (ConfigModel {
                transformer: speech_transformer(1024, 8, 16, 4096, 750),
                text_in_vocab_size: 48001,
                text_out_vocab_size: 48000,
                audio_vocab_size: 2049,
                audio_codebooks: 32,
                extra_heads: None,
            }),
    {
        Config {
            transformer: make_speech_transformer(1024, 8, 16, 1024 * 4, 750),
            text_in_vocab_size: 48001,
            text_out_vocab_size: 48000,
            audio_vocab_size: 2049,
            audio_codebooks: 32,
            extra_heads: None,
        }
    }
}

/// Mixes the outputs of several layers. Each is normalized, a scorer shared by the layers gives
/// it a logit, a learnt bias for each layer is added, and the outputs are summed with the softmax
/// of the logits.
pub struct LayerMixer {
    pub norms: Vec<LayerNorm>,
    pub weights: Tensor,
    pub scorer_in: Linear,
    pub scorer_out: Linear,
}

#[verifier::ext_equal]
pub struct MixerModel {
    pub norms: Seq<LayerNorm>,
    pub weights: Tensor,
    pub scorer_in: Linear,
    pub scorer_out: Linear,
}

impl View for LayerMixer {
    type V = MixerModel;

    open spec fn view(&self) -> MixerModel {
        MixerModel {
            norms: self.norms@,
            weights: self.weights,
            scorer_in: self.scorer_in,
            scorer_out: self.scorer_out,
        }
    }
}

/// A norm of the mixer: learnt, or with unit weight and no bias.
pub open spec fn mixer_norm_loaded(vb: Weights, i: int, dim: usize, affine: bool) -> Result<
    LayerNorm,
    Error,
> {
    if affine {
        LayerNorm::loaded(vb.at("norms").nth(i), dim, EPS_1E5)
    } else {
        match (node(Shape::D1(dim), Op::Full(ONE)), node(Shape::D1(dim), Op::Zeros)) {
            (Err(e), _) => Err(e),
            (Ok(_), Err(e)) => Err(e),
            (Ok(weight), Ok(bias)) => LayerNorm::made(weight, bias, EPS_1E5),
        }
    }
}

/// The width of the scorer.
pub open spec fn scorer_width(dim: usize) -> usize {
    if dim / 32 >= 32 {
        dim / 32
    } else {
        32
    }
}

impl MixerModel {
    /// The norms from `i` on, loaded after those in `acc`.
    pub open spec fn norms_loaded(
        vb: Weights,
        n: usize,
        dim: usize,
        affine: bool,
        i: int,
        acc: Seq<LayerNorm>,
    ) -> Result<Seq<LayerNorm>, Error>
        decreases n - i,
    {
        if i < 0 || i >= n {
            Ok(acc)
        } else {
            match mixer_norm_loaded(vb, i, dim, affine) {
                Err(e) => Err(e),
                Ok(norm) => MixerModel::norms_loaded(vb, n, dim, affine, i + 1, acc.push(norm)),
            }
        }
    }

    pub open spec fn loaded(vb: Weights, n: usize, dim: usize, affine: bool) -> Result<
        MixerModel,
        Error,
    > {
        let hidden = scorer_width(dim);
        match (
            MixerModel::norms_loaded(vb, n, dim, affine, 0, seq![]),
            weight_of(vb, "weights", Shape::D1(n)),
            Linear::loaded(LinearKind::Plain, vb.at("scorer").nth(0), dim, hidden, true),
            Linear::loaded(LinearKind::Plain, vb.at("scorer").nth(2), hidden, 1, false),
        ) {
            (Err(e), _, _, _) => Err(e),
            (_, Err(e), _, _) => Err(e),
            (_, _, Err(e), _) => Err(e),
            (_, _, _, Err(e)) => Err(e),
            (Ok(norms), Ok(weights), Ok(scorer_in), Ok(scorer_out)) => Ok(
                MixerModel { norms, weights, scorer_in, scorer_out },
            ),
        }
    }

    /// The normalized inputs from `i` on and their logits, after those in `normed` and `logits`.
    pub open spec fn scored(
        self,
        inputs: Seq<Tensor>,
        i: int,
        normed: Seq<Tensor>,
        logits: Seq<Tensor>,
    ) -> Result<(Seq<Tensor>, Seq<Tensor>), Error>
        decreases self.norms.len() - i,
    {
        if i < 0 || i >= self.norms.len() {
            Ok((normed, logits))
        } else {
            match self.norms[i].forwarded(Ok(inputs[i])) {
                Err(e) => Err(e),
                Ok(xs) => match self.scorer_out.forwarded(
                    unary_of(UnaryOp::Tanh, self.scorer_in.forwarded(Ok(xs))),
                ) {
                    Err(e) => Err(e),
                    Ok(logit) => self.scored(inputs, i + 1, normed.push(xs), logits.push(logit)),
                },
            }
        }
    }

    /// The sum of the stacked inputs, weighted by `weights`.
    pub open spec fn summed(weights: Tensor, stacked: Tensor) -> TensorResult {
        match dims3_of(Ok(weights)) {
            Err(e) => Err(e),
            Ok((b, t, n)) => {
                let ys = matmul_of(reshape_of(Ok(weights), Shape::D4(b, t, 1, n)), Ok(stacked));
                match (ys, dim_of(Ok(stacked), 3)) {
                    (Err(e), _) => Err(e),
                    (Ok(_), Err(e)) => Err(e),
                    (Ok(_), Ok(c)) => reshape_of(ys, Shape::D3(b, t, c)),
                }
            },
        }
    }

    pub open spec fn mixed(self, inputs: Seq<Tensor>) -> TensorResult {
        if inputs.len() != self.norms.len() {
            Err(
                Error::MixerInputs {
                    got: inputs.len() as usize,
                    expected: self.norms.len() as usize,
                },
            )
        } else {
            match self.scored(inputs, 0, seq![], seq![]) {
                Err(e) => Err(e),
                Ok((normed, logits)) => {
                    let weights = softmax_of(
                        broadcast_of(BinaryOp::Add, cat_of(logits, 2), Ok(self.weights)),
                    );
                    match (weights, stack_of(normed, 2)) {
                        (Err(e), _) => Err(e),
                        (Ok(_), Err(e)) => Err(e),
                        (Ok(weights), Ok(stacked)) => MixerModel::summed(weights, stacked),
                    }
                },
            }
        }
    }
}

impl LayerMixer {
    pub fn load(vb: &Weights, num_inputs: usize, dim: usize, affine_norm: bool) -> (r: Result<
        LayerMixer,
        Error,
    >)
        ensures
            viewed(r) == MixerModel::loaded(*vb, num_inputs, dim, affine_norm),
    {
        let mut norms: Vec<LayerNorm> = Vec::new();
        let mut i: usize = 0;
        while i < num_inputs
            invariant
                i <= num_inputs,
                MixerModel::norms_loaded(*vb, num_inputs, dim, affine_norm, 0, seq![])
                    == MixerModel::norms_loaded(
                    *vb,
                    num_inputs,
                    dim,
                    affine_norm,
                    i as int,
                    norms@,
                ),
            decreases num_inputs - i,
        {
            let norm = if affine_norm {
                LayerNorm::load(&vb.pp("norms").pi(i), dim, EPS_1E5)?
            } else {
                let weight = Tensor::full(ONE, Shape::D1(dim))?;
                let bias = Tensor::zeros(Shape::D1(dim))?;
                LayerNorm::new(weight, bias, EPS_1E5)?
            };
            norms.push(norm);
            i += 1;
        }
        let weights = vb.tensor("weights", Shape::D1(num_inputs))?;
        let hidden: usize = if dim / 32 >= 32 {
            dim / 32
        } else {
            32
        };
        let kind = LinearKind::Plain;
        let scorer_in = Linear::load_o(kind, &vb.pp("scorer").pi(0), dim, hidden, true)?;
        let scorer_out = Linear::load_o(kind, &vb.pp("scorer").pi(2), hidden, 1, false)?;
        Ok(LayerMixer { norms, weights, scorer_in, scorer_out })
    }

    pub fn forward(&self, inputs: &Vec<Tensor>) -> (r: TensorResult)
        ensures
            r == self@.mixed(inputs@),
    {
        if inputs.len() != self.norms.len() {
            return Err(Error::MixerInputs { got: inputs.len(), expected: self.norms.len() });
        }
        let mut normed: Vec<Tensor> = Vec::new();
        let mut logits: Vec<Tensor> = Vec::new();
        let mut i: usize = 0;
        while i < self.norms.len()
            invariant
                i <= self.norms.len(),
                inputs.len() == self.norms.len(),
                self@.scored(inputs@, 0, seq![], seq![]) == self@.scored(
                    inputs@,
                    i as int,
                    normed@,
                    logits@,
                ),
            decreases self.norms.len() - i,
        {
            let xs = self.norms[i].forward(&inputs[i])?;
            let hidden = self.scorer_in.forward(&xs)?.unary(UnaryOp::Tanh)?;
            let logit = self.scorer_out.forward(&hidden)?;
            normed.push(xs);
            logits.push(logit);
            i += 1;
        }
        let logits = Tensor::cat(&logits, 2)?;
        let weights = logits.broadcast(BinaryOp::Add, &self.weights)?.softmax()?;
        let stacked = Tensor::stack(&normed, 2)?;
        let (b, t, n) = weights.dims3()?;
        let ys = weights.reshape(Shape::D4(b, t, 1, n))?.matmul(&stacked)?;
        let c: usize = stacked.dim(3)?;
        ys.reshape(Shape::D3(b, t, c))
    }
}

/// A residual block: `x + linear_out(gelu(linear_in(norm(x))))`.
pub struct ResidualMLPBlock {
    pub norm: LayerNorm,
    pub linear_in: Linear,
    pub linear_out: Linear,
}

impl ResidualMLPBlock {
    pub open spec fn loaded(vb: Weights, dim: usize, hidden: usize) -> Result<
        ResidualMLPBlock,
        Error,
    > {
        match (
            LayerNorm::loaded(vb.at("norm"), dim, EPS_1E5),
            Linear::loaded(LinearKind::Plain, vb.at("mlp").nth(0), dim, hidden, false),
            Linear::loaded(LinearKind::Plain, vb.at("mlp").nth(2), hidden, dim, false),
        ) {
            (Err(e), _, _) => Err(e),
            (_, Err(e), _) => Err(e),
            (_, _, Err(e)) => Err(e),
            (Ok(norm), Ok(linear_in), Ok(linear_out)) => Ok(
                ResidualMLPBlock { norm, linear_in, linear_out },
            ),
        }
    }

    pub open spec fn forwarded(self, xs: TensorResult) -> TensorResult {
        binary_of(
            BinaryOp::Add,
            xs,
            self.linear_out.forwarded(
                unary_of(UnaryOp::GeluErf, self.linear_in.forwarded(self.norm.forwarded(xs))),
            ),
        )
    }

    pub fn load(vb: &Weights, dim: usize, hidden: usize) -> (r: Result<ResidualMLPBlock, Error>)
        ensures
            r == ResidualMLPBlock::loaded(*vb, dim, hidden),
    {
        let kind = LinearKind::Plain;
        let norm = LayerNorm::load(&vb.pp("norm"), dim, EPS_1E5)?;
        let linear_in = Linear::load_o(kind, &vb.pp("mlp").pi(0), dim, hidden, false)?;
        let linear_out = Linear::load_o(kind, &vb.pp("mlp").pi(2), hidden, dim, false)?;
        Ok(ResidualMLPBlock { norm, linear_in, linear_out })
    }

    pub fn forward(&self, xs: &Tensor) -> (r: TensorResult)
        ensures
            r == self.forwarded(Ok(*xs)),
    {
        let ys = self.norm.forward(xs)?;
        let ys = self.linear_in.forward(&ys)?.unary(UnaryOp::GeluErf)?;
        let ys = self.linear_out.forward(&ys)?;
        xs.add(&ys)
    }
}

/// An extra head: a linear map, after residual blocks where there are any.
pub enum ExtraHead {
    Linear(Linear),
    Mlp { blocks: Vec<ResidualMLPBlock>, linear: Linear },
}

pub enum ExtraHeadModel {
    Linear(Linear),
    Mlp { blocks: Seq<ResidualMLPBlock>, linear: Linear },
}

impl View for ExtraHead {
    type V = ExtraHeadModel;

    open spec fn view(&self) -> ExtraHeadModel {
        match self {
            ExtraHead::Linear(l) => ExtraHeadModel::Linear(*l),
            ExtraHead::Mlp { blocks, linear } => ExtraHeadModel::Mlp {
                blocks: blocks@,
                linear: *linear,
            },
        }
    }
}

impl ExtraHeadModel {
    /// The blocks from `i` on, loaded after those in `acc`.
    pub open spec fn blocks_loaded(
        vb: Weights,
        d_model: usize,
        hidden: usize,
        n: usize,
        i: int,
        acc: Seq<ResidualMLPBlock>,
    ) -> Result<Seq<ResidualMLPBlock>, Error>
        decreases n - i,
    {
        if i < 0 || i >= n {
            Ok(acc)
        } else {
            match ResidualMLPBlock::loaded(vb.nth(i), d_model, hidden) {
                Err(e) => Err(e),
                Ok(b) => ExtraHeadModel::blocks_loaded(
                    vb,
                    d_model,
                    hidden,
                    n,
                    i + 1,
                    acc.push(b),
                ),
            }
        }
    }

    pub open spec fn loaded(vb: Weights, d_model: usize, cfg: ExtraHeadsModel) -> Result<
        ExtraHeadModel,
        Error,
    > {
        if cfg.residual_blocks > 0 {
            let hidden = match cfg.hidden_dim {
                Some(h) => h,
                None => d_model,
            };
            match (
                ExtraHeadModel::blocks_loaded(
                    vb,
                    d_model,
                    hidden,
                    cfg.residual_blocks,
                    0,
                    seq![],
                ),
                Linear::loaded(
                    LinearKind::Plain,
                    vb.nth(cfg.residual_blocks as int),
                    d_model,
                    cfg.dim,
                    false,
                ),
            ) {
                (Err(e), _) => Err(e),
                (Ok(_), Err(e)) => Err(e),
                (Ok(blocks), Ok(linear)) => Ok(ExtraHeadModel::Mlp { blocks, linear }),
            }
        } else if cfg.hidden_dim is Some {
            Err(Error::ExtraHeadsHidden)
        } else {
            match Linear::loaded(LinearKind::Plain, vb, d_model, cfg.dim, false) {
                Err(e) => Err(e),
                Ok(l) => Ok(ExtraHeadModel::Linear(l)),
            }
        }
    }

    pub open spec fn blocks_forwarded(
        blocks: Seq<ResidualMLPBlock>,
        xs: TensorResult,
        i: int,
    ) -> TensorResult
        decreases blocks.len() - i,
    {
        if i < 0 || i >= blocks.len() {
            xs
        } else {
            match blocks[i].forwarded(xs) {
                Err(e) => Err(e),
                Ok(ys) => ExtraHeadModel::blocks_forwarded(blocks, Ok(ys), i + 1),
            }
        }
    }

    pub open spec fn forwarded(self, xs: TensorResult) -> TensorResult {
        match self {
            ExtraHeadModel::Linear(l) => l.forwarded(xs),
            ExtraHeadModel::Mlp { blocks, linear } => linear.forwarded(
                ExtraHeadModel::blocks_forwarded(blocks, xs, 0),
            ),
        }
    }
}

impl ExtraHead {
    pub fn load(vb: &Weights, d_model: usize, cfg: &ExtraHeadsConfig) -> (r: Result<ExtraHead, Error>)
        ensures
            viewed(r) == ExtraHeadModel::loaded(*vb, d_model, cfg@),
    {
        if cfg.residual_blocks > 0 {
            let hidden: usize = match cfg.hidden_dim {
                Some(h) => h,
                None => d_model,
            };
            let mut blocks: Vec<ResidualMLPBlock> = Vec::new();
            let mut i: usize = 0;
            while i < cfg.residual_blocks
                invariant
                    i <= cfg.residual_blocks,
                    cfg.residual_blocks > 0,
                    hidden == (match cfg.hidden_dim {
                        Some(h) => h,
                        None => d_model,
                    }),
                    ExtraHeadModel::blocks_loaded(
                        *vb,
                        d_model,
                        hidden,
                        cfg.residual_blocks,
                        0,
                        seq![],
                    ) == ExtraHeadModel::blocks_loaded(
                        *vb,
                        d_model,
                        hidden,
                        cfg.residual_blocks,
                        i as int,
                        blocks@,
                    ),
                decreases cfg.residual_blocks - i,
            {
                let block = ResidualMLPBlock::load(&vb.pi(i), d_model, hidden)?;
                blocks.push(block);
                i += 1;
            }
            let linear = Linear::load_o(
                LinearKind::Plain,
                &vb.pi(cfg.residual_blocks),
                d_model,
                cfg.dim,
                false,
            )?;
            Ok(ExtraHead::Mlp { blocks, linear })
        } else {
            if cfg.hidden_dim.is_some() {
                return Err(Error::ExtraHeadsHidden);
            }
            let linear = Linear::load_o(LinearKind::Plain, vb, d_model, cfg.dim, false)?;
            Ok(ExtraHead::Linear(linear))
        }
    }

    pub fn forward(&self, xs: &Tensor) -> (r: TensorResult)
        ensures
            r == self@.forwarded(Ok(*xs)),
    {
        match self {
            ExtraHead::Linear(linear) => linear.forward(xs),
            ExtraHead::Mlp { blocks, linear } => {
                let mut cur = xs.clone();
                let mut i: usize = 0;
                while i < blocks.len()
                    invariant
                        i <= blocks.len(),
                        self@ == (ExtraHeadModel::Mlp { blocks: blocks@, linear: *linear }),
                        ExtraHeadModel::blocks_forwarded(blocks@, Ok(*xs), 0)
                            == ExtraHeadModel::blocks_forwarded(blocks@, Ok(cur), i as int),
                    decreases blocks.len() - i,
                {
                    cur = blocks[i].forward(&cur)?;
                    i += 1;
                }
                linear.forward(&cur)
            },
        }
    }
}

/// The language model.
pub struct LmModel {
    pub transformer: BatchedTransformer,
    pub text_emb: Embedding,
    pub audio_embs: Vec<Embedding>,
    pub text_linear: Linear,
    pub out_norm: Norm,
    pub extra_heads: Vec<ExtraHead>,
    pub extra_heads_mixer: Option<LayerMixer>,
    pub extra_heads_from_layer: Option<Vec<usize>>,
    pub audio_vocab_size: usize,
    pub text_in_vocab_size: usize,
    pub text_out_vocab_size: usize,
}

#[verifier::ext_equal]
pub struct LmParts {
    pub transformer: TransformerModel,
    pub text_emb: Embedding,
    pub audio_embs: Seq<Embedding>,
    pub text_linear: Linear,
    pub out_norm: Norm,
    pub extra_heads: ExtraHeadsPart,
    pub audio_vocab_size: usize,
    pub text_in_vocab_size: usize,
    pub text_out_vocab_size: usize,
}

/// The extra heads, and what they read.
#[verifier::ext_equal]
pub struct ExtraHeadsPart {
    pub heads: Seq<ExtraHeadModel>,
    pub mixer: Option<MixerModel>,
    pub from_layer: Option<Seq<usize>>,
}

pub open spec fn head_models(heads: Seq<ExtraHead>) -> Seq<ExtraHeadModel> {
    heads.map_values(|h: ExtraHead| h@)
}

pub open spec fn mixer_model(mixer: Option<LayerMixer>) -> Option<MixerModel> {
    match mixer {
        Some(m) => Some(m@),
        None => None,
    }
}

pub open spec fn layers_model(layers: Option<Vec<usize>>) -> Option<Seq<usize>> {
    match layers {
        Some(ls) => Some(ls@),
        None => None,
    }
}

impl View for LmModel {
    type V = LmParts;

    open spec fn view(&self) -> LmParts {
        LmParts {
            transformer: self.transformer@,
            text_emb: self.text_emb,
            audio_embs: self.audio_embs@,
            text_linear: self.text_linear,
            out_norm: self.out_norm,
            extra_heads: ExtraHeadsPart {
                heads: head_models(self.extra_heads@),
                mixer: mixer_model(self.extra_heads_mixer),
                from_layer: layers_model(self.extra_heads_from_layer),
            },
            audio_vocab_size: self.audio_vocab_size,
            text_in_vocab_size: self.text_in_vocab_size,
            text_out_vocab_size: self.text_out_vocab_size,
        }
    }
}

/// The first of the layers from `i` on that a transformer of `n` layers does not have.
pub open spec fn first_out_of_range(layers: Seq<usize>, n: usize, i: int) -> Option<usize>
    decreases layers.len() - i,
{
    if i < 0 || i >= layers.len() {
        None
    } else if layers[i] >= n {
        Some(layers[i])
    } else {
        first_out_of_range(layers, n, i + 1)
    }
}

fn find_out_of_range(layers: &Vec<usize>, n: usize) -> (r: Option<usize>)
    ensures
        r == first_out_of_range(layers@, n, 0),
{
    let mut i: usize = 0;
    while i < layers.len()
        invariant
            i <= layers.len(),
            first_out_of_range(layers@, n, 0) == first_out_of_range(layers@, n, i as int),
        decreases layers.len() - i,
    {
        if layers[i] >= n {
            return Some(layers[i]);
        }
        i += 1;
    }
    None
}

impl ExtraHeadsPart {
    /// The heads from `i` on, loaded after those in `acc`.
    pub open spec fn heads_loaded(
        vb: Weights,
        d_model: usize,
        cfg: ExtraHeadsModel,
        i: int,
        acc: Seq<ExtraHeadModel>,
    ) -> Result<Seq<ExtraHeadModel>, Error>
        decreases cfg.num_heads - i,
    {
        if i < 0 || i >= cfg.num_heads {
            Ok(acc)
        } else {
            match ExtraHeadModel::loaded(vb.nth(i), d_model, cfg) {
                Err(e) => Err(e),
                Ok(h) => ExtraHeadsPart::heads_loaded(vb, d_model, cfg, i + 1, acc.push(h)),
            }
        }
    }

    /// The mixer: there is one where the heads read several layers.
    pub open spec fn mixer_loaded(
        vb: Weights,
        d_model: usize,
        num_layers: usize,
        cfg: ExtraHeadsModel,
    ) -> Result<Option<MixerModel>, Error> {
        match cfg.from_layer {
            None => Ok(None),
            Some(layers) => if layers.len() == 0 {
                Err(Error::ExtraHeadsNoLayer)
            } else if first_out_of_range(layers, num_layers, 0) is Some {
                Err(
                    Error::ExtraHeadsLayer {
                        layer: first_out_of_range(layers, num_layers, 0)->0,
                        num_layers,
                    },
                )
            } else if layers.len() > 1 {
                match MixerModel::loaded(
                    vb.at("extra_heads_mixer"),
                    layers.len() as usize,
                    d_model,
                    cfg.mixer_affine,
                ) {
                    Err(e) => Err(e),
                    Ok(m) => Ok(Some(m)),
                }
            } else {
                Ok(None)
            },
        }
    }

    pub open spec fn loaded(
        vb: Weights,
        d_model: usize,
        num_layers: usize,
        cfg: Option<ExtraHeadsModel>,
    ) -> Result<ExtraHeadsPart, Error> {
        match cfg {
            None => Ok(ExtraHeadsPart { heads: seq![], mixer: None, from_layer: None }),
            Some(cfg) => match (
                ExtraHeadsPart::heads_loaded(vb.at("extra_heads"), d_model, cfg, 0, seq![]),
                ExtraHeadsPart::mixer_loaded(vb, d_model, num_layers, cfg),
            ) {
                (Err(e), _) => Err(e),
                (Ok(_), Err(e)) => Err(e),
                (Ok(heads), Ok(mixer)) => Ok(
                    ExtraHeadsPart { heads, mixer, from_layer: cfg.from_layer },
                ),
            },
        }
    }
}

/// Tokens as the integers of an index tensor.
pub open spec fn token_ids(ids: Seq<u32>) -> Seq<i64> {
    ids.map_values(|t: u32| t as i64)
}

/// Tokens as an index tensor.
pub fn tokens_tensor(ids: &[u32]) -> (r: TensorResult)
    ensures
        r == ids_of(token_ids(ids@), Shape::D1(ids.len())),
{
    let mut v: Vec<i64> = Vec::new();
    let mut i: usize = 0;
    while i < ids.len()
        invariant
            i <= ids.len(),
            v.len() == i,
            forall|j: int| 0 <= j < i ==> v[j] == ids[j] as i64,
        decreases ids.len() - i,
    {
        v.push(ids[i] as i64);
        i += 1;
    }
    assert(v@ =~= token_ids(ids@));
    Tensor::from_ids(&v, Shape::D1(ids.len()))
}

/// The embedding of one token for each lane, as a single step.
pub open spec fn step_embedding(emb: Embedding, ids: Seq<u32>) -> TensorResult {
    unsqueeze_of(emb.forwarded(ids_of(token_ids(ids), Shape::D1(ids.len() as usize))), 1)
}

pub(crate) fn embed_step(emb: &Embedding, ids: &[u32]) -> (r: TensorResult)
    ensures
        r == step_embedding(*emb, ids@),
{
    let ids_t = tokens_tensor(ids)?;
    emb.forward(&ids_t)?.unsqueeze(1)
}

/// The tokens of a codebook, where it has any.
pub open spec fn token_seqs(ids: Seq<Option<&[u32]>>) -> Seq<Option<Seq<u32>>> {
    ids.map_values(
        |o: Option<&[u32]>|
            match o {
                Some(v) => Some(v@),
                None => None,
            },
    )
}

/// `emb` and the embeddings of the codebooks from `i` on that have tokens.
pub open spec fn audio_added(
    embs: Seq<Embedding>,
    audio_ids: Seq<Option<Seq<u32>>>,
    emb: Tensor,
    i: int,
) -> TensorResult
    decreases embs.len() - i,
{
    if i < 0 || i >= embs.len() || i >= audio_ids.len() {
        Ok(emb)
    } else {
        match audio_ids[i] {
            None => audio_added(embs, audio_ids, emb, i + 1),
            Some(ids) => match step_embedding(embs[i], ids) {
                Err(e) => Err(e),
                Ok(e) => match binary_of(BinaryOp::Add, Ok(emb), Ok(e)) {
                    Err(e) => Err(e),
                    Ok(sum) => audio_added(embs, audio_ids, sum, i + 1),
                },
            },
        }
    }
}

pub(crate) fn add_audio(embs: &Vec<Embedding>, audio_ids: &[Option<&[u32]>], emb: Tensor) -> (r:
    TensorResult)
    ensures
        r == audio_added(embs@, token_seqs(audio_ids@), emb, 0),
{
    let ghost seqs = token_seqs(audio_ids@);
    let ghost start = emb;
    let mut sum = emb;
    let mut i: usize = 0;
    while i < embs.len() && i < audio_ids.len()
        invariant
            i <= embs.len(),
            seqs == token_seqs(audio_ids@),
            start == emb,
            audio_added(embs@, seqs, start, 0) == audio_added(embs@, seqs, sum, i as int),
        decreases embs.len() - i,
    {
        if let Some(ids) = audio_ids[i] {
            assert(seqs[i as int] == Some(ids@));
            let e = embed_step(&embs[i], ids)?;
            sum = sum.add(&e)?;
        } else {
            assert(seqs[i as int] is None);
        }
        i += 1;
    }
    Ok(sum)
}

/// The outputs that the layers `layers` name, from the `i`-th on, after those in `acc`.
pub open spec fn picked(outs: Seq<Tensor>, layers: Seq<usize>, i: int, acc: Seq<Tensor>) -> Result<
    Seq<Tensor>,
    Error,
>
    decreases layers.len() - i,
{
    if i < 0 || i >= layers.len() {
        Ok(acc)
    } else if layers[i] >= outs.len() {
        Err(Error::ExtraHeadsLayer { layer: layers[i], num_layers: outs.len() as usize })
    } else {
        picked(outs, layers, i + 1, acc.push(outs[layers[i] as int]))
    }
}

fn pick(outs: &Vec<Tensor>, layers: &Vec<usize>) -> (r: Result<Vec<Tensor>, Error>)
    ensures
        viewed(r) == picked(outs@, layers@, 0, seq![]),
{
    let mut acc: Vec<Tensor> = Vec::new();
    let mut i: usize = 0;
    while i < layers.len()
        invariant
            i <= layers.len(),
            picked(outs@, layers@, 0, seq![]) == picked(outs@, layers@, i as int, acc@),
        decreases layers.len() - i,
    {
        let l: usize = layers[i];
        if l >= outs.len() {
            return Err(Error::ExtraHeadsLayer { layer: l, num_layers: outs.len() });
        }
        acc.push(outs[l].clone());
        i += 1;
    }
    Ok(acc)
}

impl LmParts {
    /// The embeddings of the codebooks from `i` on, loaded after those in `acc`.
    pub open spec fn embs_loaded(
        vb: Weights,
        n: usize,
        vocab: usize,
        dim: usize,
        i: int,
        acc: Seq<Embedding>,
    ) -> Result<Seq<Embedding>, Error>
        decreases n - i,
    {
        if i < 0 || i >= n {
            Ok(acc)
        } else {
            match Embedding::loaded(vb.nth(i), vocab, dim) {
                Err(e) => Err(e),
                Ok(emb) => LmParts::embs_loaded(vb, n, vocab, dim, i + 1, acc.push(emb)),
            }
        }
    }

    pub open spec fn loaded(vb: Weights, cfg: ConfigModel) -> Result<LmParts, Error> {
        let d = cfg.transformer.d_model;
        match (
            Embedding::loaded(vb.at("text_emb"), cfg.text_in_vocab_size, d),
            Norm::loaded(vb.at("out_norm"), d, cfg.transformer.norm),
            Linear::loaded(
                LinearKind::Quantized,
                vb.at("text_linear"),
                d,
                cfg.text_out_vocab_size,
                false,
            ),
            TransformerModel::loaded(vb.at("transformer"), cfg.transformer),
            LmParts::embs_loaded(
                vb.at("emb"),
                cfg.audio_codebooks,
                cfg.audio_vocab_size,
                d,
                0,
                seq![],
            ),
            ExtraHeadsPart::loaded(vb, d, cfg.transformer.num_layers, cfg.extra_heads),
        ) {
            (Err(e), _, _, _, _, _) => Err(e),
            (_, Err(e), _, _, _, _) => Err(e),
            (_, _, Err(e), _, _, _) => Err(e),
            (_, _, _, Err(e), _, _) => Err(e),
            (_, _, _, _, Err(e), _) => Err(e),
            (_, _, _, _, _, Err(e)) => Err(e),
            (
                Ok(text_emb),
                Ok(out_norm),
                Ok(text_linear),
                Ok(transformer),
                Ok(audio_embs),
                Ok(extra_heads),
            ) => Ok(
                LmParts {
                    transformer,
                    text_emb,
                    audio_embs,
                    text_linear,
                    out_norm,
                    extra_heads,
                    audio_vocab_size: cfg.audio_vocab_size,
                    text_in_vocab_size: cfg.text_in_vocab_size,
                    text_out_vocab_size: cfg.text_out_vocab_size,
                },
            ),
        }
    }

    /// What goes into the transformer: the sum of the embeddings of the tokens and of the
    /// condition. Without text tokens the sum starts from zero.
    pub open spec fn embedded(
        self,
        text_ids: Option<Seq<u32>>,
        audio_ids: Seq<Option<Seq<u32>>>,
        condition: Option<Tensor>,
        batch_size: nat,
    ) -> TensorResult {
        let text = match text_ids {
            Some(ids) => step_embedding(self.text_emb, ids),
            None => node(
                Shape::D3(batch_size as usize, 1, self.text_emb.hidden_size),
                Op::Zeros,
            ),
        };
        match text {
            Err(e) => Err(e),
            Ok(emb) => match (audio_added(self.audio_embs, audio_ids, emb, 0), condition) {
                (Err(e), _) => Err(e),
                (Ok(emb), None) => Ok(emb),
                (Ok(emb), Some(c)) => binary_of(BinaryOp::Add, Ok(emb), Ok(c)),
            },
        }
    }

    /// What the extra heads read of the outputs of the layers, where they do not read the
    /// normalized output.
    pub open spec fn head_input(self, outs: Seq<Tensor>) -> Result<Option<Tensor>, Error> {
        match self.extra_heads.from_layer {
            None => Ok(None),
            Some(layers) => match (picked(outs, layers, 0, seq![]), self.extra_heads.mixer) {
                (Err(e), _) => Err(e),
                (Ok(inputs), Some(mixer)) => output(mixer.mixed(inputs)),
                (Ok(inputs), None) => if inputs.len() == 0 {
                    Err(Error::ExtraHeadsNoLayer)
                } else {
                    Ok(Some(inputs[0]))
                },
            },
        }
    }

    /// The logits of the next text token and the input of the extra heads, from the outputs of
    /// the layers on the input `emb`.
    pub open spec fn read_out(self, emb: Tensor, outs: Seq<Tensor>) -> Result<
        (Tensor, Tensor),
        Error,
    > {
        match self.head_input(outs) {
            Err(e) => Err(e),
            Ok(head) => match self.out_norm.forwarded(Ok(last_or(outs, emb))) {
                Err(e) => Err(e),
                Ok(ys) => match self.text_linear.forwarded(Ok(ys)) {
                    Err(e) => Err(e),
                    Ok(logits) => Ok(
                        (
                            logits,
                            match head {
                                Some(h) => h,
                                None => ys,
                            },
                        ),
                    ),
                },
            },
        }
    }

    /// The state after a step, the logits of the next text token and the input of the extra heads.
    pub open spec fn forwarded(
        self,
        text_ids: Option<Seq<u32>>,
        audio_ids: Seq<Option<Seq<u32>>>,
        condition: Option<Tensor>,
        state: StateModel,
        mask: Option<Seq<bool>>,
    ) -> (StateModel, Result<(Tensor, Tensor), Error>) {
        match self.embedded(text_ids, audio_ids, condition, state.batch_size()) {
            Err(e) => (state, Err(e)),
            Ok(emb) => {
                let (next, r) = self.transformer.run(emb, state, mask);
                match r {
                    Err(e) => (next, Err(e)),
                    Ok(outs) => (next, self.read_out(emb, outs)),
                }
            },
        }
    }

    /// The outputs of the extra heads from `i` on, after those in `acc`.
    pub open spec fn heads_run(self, ys: Tensor, i: int, acc: Seq<Tensor>) -> Result<
        Seq<Tensor>,
        Error,
    >
        decreases self.extra_heads.heads.len() - i,
    {
        if i < 0 || i >= self.extra_heads.heads.len() {
            Ok(acc)
        } else {
            match self.extra_heads.heads[i].forwarded(Ok(ys)) {
                Err(e) => Err(e),
                Ok(out) => self.heads_run(ys, i + 1, acc.push(out)),
            }
        }
    }
}

pub(crate) fn load_embeddings(vb: &Weights, n: usize, vocab: usize, dim: usize) -> (r: Result<
    Vec<Embedding>,
    Error,
>)
    ensures
        viewed(r) == LmParts::embs_loaded(*vb, n, vocab, dim, 0, seq![]),
{
    let mut embs: Vec<Embedding> = Vec::new();
    let mut i: usize = 0;
    while i < n
        invariant
            i <= n,
            LmParts::embs_loaded(*vb, n, vocab, dim, 0, seq![]) == LmParts::embs_loaded(
                *vb,
                n,
                vocab,
                dim,
                i as int,
                embs@,
            ),
        decreases n - i,
    {
        let emb = Embedding::load(&vb.pi(i), vocab, dim)?;
        embs.push(emb);
        i += 1;
    }
    Ok(embs)
}

impl LmModel {
    fn load_heads(vb: &Weights, d_model: usize, cfg: &ExtraHeadsConfig) -> (r: Result<
        Vec<ExtraHead>,
        Error,
    >)
        ensures
            (match r {
                Err(e) => Err(e),
                Ok(v) => Ok(head_models(v@)),
            }) == ExtraHeadsPart::heads_loaded(vb.at("extra_heads"), d_model, cfg@, 0, seq![]),
    {
        let vb_heads = vb.pp("extra_heads");
        let mut heads: Vec<ExtraHead> = Vec::new();
        let mut i: usize = 0;
        assert(head_models(heads@) =~= seq![]);
        while i < cfg.num_heads
            invariant
                i <= cfg.num_heads,
                vb_heads == vb.at("extra_heads"),
                ExtraHeadsPart::heads_loaded(vb_heads, d_model, cfg@, 0, seq![])
                    == ExtraHeadsPart::heads_loaded(
                    vb_heads,
                    d_model,
                    cfg@,
                    i as int,
                    head_models(heads@),
                ),
            decreases cfg.num_heads - i,
        {
            let head = ExtraHead::load(&vb_heads.pi(i), d_model, cfg)?;
            let ghost before = head_models(heads@);
            let ghost model = head@;
            heads.push(head);
            proof {
                assert(head_models(heads@) =~= before.push(model));
            }
            i += 1;
        }
        Ok(heads)
    }

    fn load_mixer(vb: &Weights, d_model: usize, num_layers: usize, cfg: &ExtraHeadsConfig) -> (r:
        Result<Option<LayerMixer>, Error>)
        ensures
            (match r {
                Err(e) => Err(e),
                Ok(m) => Ok(mixer_model(m)),
            }) == ExtraHeadsPart::mixer_loaded(*vb, d_model, num_layers, cfg@),
    {
        let layers = match &cfg.from_layer {
            None => {
                return Ok(None);
            },
            Some(layers) => layers,
        };
        if layers.len() == 0 {
            return Err(Error::ExtraHeadsNoLayer);
        }
        if let Some(layer) = find_out_of_range(layers, num_layers) {
            return Err(Error::ExtraHeadsLayer { layer, num_layers });
        }
        if layers.len() > 1 {
            let mixer = LayerMixer::load(
                &vb.pp("extra_heads_mixer"),
                layers.len(),
                d_model,
                cfg.mixer_affine,
            )?;
            Ok(Some(mixer))
        } else {
            Ok(None)
        }
    }

    pub fn load(vb: &Weights, cfg: &Config) -> (r: Result<LmModel, Error>)
        ensures
            viewed(r) == LmParts::loaded(*vb, cfg@),
    {
        let d_model: usize = cfg.transformer.d_model;
        let text_emb = Embedding::load(&vb.pp("text_emb"), cfg.text_in_vocab_size, d_model)?;
        let out_norm = Norm::load(&vb.pp("out_norm"), d_model, cfg.transformer.norm)?;
        let text_linear = Linear::load_o(
            LinearKind::Quantized,
            &vb.pp("text_linear"),
            d_model,
            cfg.text_out_vocab_size,
            false,
        )?;
        let transformer = BatchedTransformer::load(&vb.pp("transformer"), &cfg.transformer)?;
        let audio_embs = load_embeddings(
            &vb.pp("emb"),
            cfg.audio_codebooks,
            cfg.audio_vocab_size,
            d_model,
        )?;

        let (extra_heads, extra_heads_mixer, extra_heads_from_layer) = match &cfg.extra_heads {
            None => {
                let heads: Vec<ExtraHead> = Vec::new();
                assert(head_models(heads@) =~= seq![]);
                (heads, None, None)
            },
            Some(eh_cfg) => {
                let heads = LmModel::load_heads(vb, d_model, eh_cfg)?;
                let mixer = LmModel::load_mixer(
                    vb,
                    d_model,
                    cfg.transformer.num_layers,
                    eh_cfg,
                )?;
                let from_layer = match &eh_cfg.from_layer {
                    Some(layers) => Some(copy_indices(layers)),
                    None => None,
                };
                (heads, mixer, from_layer)
            },
        };
        Ok(
            LmModel {
                transformer,
                text_emb,
                audio_embs,
                text_linear,
                out_norm,
                extra_heads,
                extra_heads_mixer,
                extra_heads_from_layer,
                audio_vocab_size: cfg.audio_vocab_size,
                text_in_vocab_size: cfg.text_in_vocab_size,
                text_out_vocab_size: cfg.text_out_vocab_size,
            },
        )
    }

    /// A state for `batch_size` lanes before their first step.
    pub fn init_state(self: &Arc<Self>, batch_size: usize) -> (r: Result<LmState, Error>)
        ensures
            match (
                r,
                StateModel::fresh(
                    batch_size,
                    self@.transformer.num_kv,
                    self@.transformer.context,
                    self@.transformer.head_dim,
                    self@.transformer.layers.len(),
                ),
            ) {
                (Ok(s), Ok(t)) => s.model == *self && s.transformer@ == t,
                (Err(a), Err(b)) => a == b,
                _ => false,
            },
    {
        let transformer = self.transformer.init_state(batch_size)?;
        Ok(LmState { model: self.clone(), transformer })
    }

    /// The token that stands for no audio.
    pub fn audio_pad_token(&self) -> (r: u32)
        requires
            self.audio_vocab_size as u32 > 0,
        ensures
            r == self.audio_vocab_size as u32 - 1,
    {
        #[verifier::truncate]
        (self.audio_vocab_size as u32) - 1
    }

    /// The token that starts a text.
    pub fn text_start_token(&self) -> (r: u32)
        requires
            self.text_in_vocab_size as u32 > 0,
        ensures
            r == self.text_in_vocab_size as u32 - 1,
    {
        #[verifier::truncate]
        (self.text_in_vocab_size as u32) - 1
    }

    pub fn text_out_vocab_size(&self) -> (r: usize)
        ensures
            r == self.text_out_vocab_size,
    {
        self.text_out_vocab_size
    }

    pub fn in_audio_codebooks(&self) -> (r: usize)
        ensures
            r == self@.audio_embs.len(),
    {
        self.audio_embs.len()
    }
}

/// A language model and what it keeps between steps.
pub struct LmState {
    pub model: Arc<LmModel>,
    pub transformer: BatchedTransformerState,
}

impl LmState {
    fn embed(
        &self,
        text_ids: Option<&[u32]>,
        audio_ids: &[Option<&[u32]>],
        condition: &Option<Tensor>,
    ) -> (r: TensorResult)
        ensures
            r == self.model@.embedded(
                text_seq(text_ids),
                token_seqs(audio_ids@),
                *condition,
                self.transformer@.batch_size(),
            ),
    {
        let emb = match text_ids {
            Some(ids) => embed_step(&self.model.text_emb, ids)?,
            None => {
                let d_model: usize = self.model.text_emb.hidden_size();
                let batch_size: usize = self.transformer.batch_size();
                Tensor::zeros(Shape::D3(batch_size, 1, d_model))?
            },
        };
        let emb = add_audio(&self.model.audio_embs, audio_ids, emb)?;
        match condition {
            None => Ok(emb),
            Some(cond) => emb.add(cond),
        }
    }

    /// Takes in one token for each lane and returns the logits of the next text token and the
    /// input of the extra heads: the layers that they read, mixed where there are several, or the
    /// normalized output.
    ///
    /// `text_ids` holds one token for each lane, or is absent for an embedding of zero. `audio_ids`
    /// holds for each codebook one token for each lane, or is absent to skip the codebook.
    pub fn forward(
        &mut self,
        text_ids: Option<&[u32]>,
        audio_ids: &[Option<&[u32]>],
        mask: &StreamMask,
        condition: &Option<Tensor>,
    ) -> (r: Result<(Tensor, Tensor), Error>)
        ensures
            final(self).model == old(self).model,
            (final(self).transformer@, r) == old(self).model@.forwarded(
                text_seq(text_ids),
                token_seqs(audio_ids@),
                *condition,
                old(self).transformer@,
                flags(*mask),
            ),
    {
        let emb = self.embed(text_ids, audio_ids, condition)?;
        let (ys, outs) = self.model.transformer.forward_with_intermediates(
            &emb,
            &mut self.transformer,
            mask,
        )?;
        let head = match &self.model.extra_heads_from_layer {
            None => None,
            Some(layers) => {
                let inputs = pick(&outs, layers)?;
                match &self.model.extra_heads_mixer {
                    Some(mixer) => Some(mixer.forward(&inputs)?),
                    None => {
                        if inputs.len() == 0 {
                            return Err(Error::ExtraHeadsNoLayer);
                        }
                        Some(inputs[0].clone())
                    },
                }
            },
        };
        let ys = self.model.out_norm.forward(&ys)?;
        let logits = self.model.text_linear.forward(&ys)?;
        let extra_head_input = match head {
            Some(h) => h,
            None => ys,
        };
        Ok((logits, extra_head_input))
    }

    /// The outputs of the extra heads on the input that `forward` returned for them.
    pub fn extra_heads(&self, ys: &Tensor) -> (r: Result<Vec<Tensor>, Error>)
        ensures
            viewed(r) == self.model@.heads_run(*ys, 0, seq![]),
    {
        let mut results: Vec<Tensor> = Vec::new();
        let mut i: usize = 0;
        while i < self.model.extra_heads.len()
            invariant
                i <= self.model.extra_heads.len(),
                self.model@.heads_run(*ys, 0, seq![]) == self.model@.heads_run(
                    *ys,
                    i as int,
                    results@,
                ),
            decreases self.model.extra_heads.len() - i,
        {
            let out = self.model.extra_heads[i].forward(ys)?;
            results.push(out);
            i += 1;
        }
        Ok(results)
    }

    /// One lane back to the start.
    pub fn reset_batch_idx(&mut self, batch_idx: usize) -> (r: Result<(), Error>)
        ensures
            final(self).model == old(self).model,
            (final(self).transformer@, r) == old(self).transformer@.lane_reset(batch_idx),
    {
        self.transformer.reset_batch_idx(batch_idx)
    }
}

/// The tokens, where there are any.
pub open spec fn text_seq(ids: Option<&[u32]>) -> Option<Seq<u32>> {
    match ids {
        Some(v) => Some(v@),
        None => None,
    }
}

proof fn lemma_in_range(layers: Seq<usize>, n: usize, from: int)
    requires
        0 <= from <= layers.len(),
        first_out_of_range(layers, n, from) is None,
    ensures
        forall|i: int| from <= i < layers.len() ==> #[trigger] layers[i] < n,
    decreases layers.len() - from,
{
    if from < layers.len() {
        lemma_in_range(layers, n, from + 1);
    }
}

proof fn lemma_picked(outs: Seq<Tensor>, layers: Seq<usize>, from: int, acc: Seq<Tensor>)
    requires
        0 <= from <= layers.len(),
        acc.len() == from,
        forall|i: int| from <= i < layers.len() ==> #[trigger] layers[i] < outs.len(),
        forall|i: int| 0 <= i < from ==> #[trigger] acc[i] == outs[layers[i] as int],
    ensures
        picked(outs, layers, from, acc) matches Ok(v) && v.len() == layers.len() && forall|i: int|
            0 <= i < layers.len() ==> #[trigger] v[i] == outs[layers[i] as int],
    decreases layers.len() - from,
{
    if from < layers.len() {
        lemma_picked(outs, layers, from + 1, acc.push(outs[layers[from] as int]));
    }
}

/// The extra heads of a loaded model find every layer that they read, once all layers have run.
pub proof fn heads_find_their_layers(
    vb: Weights,
    d_model: usize,
    num_layers: usize,
    cfg: ExtraHeadsModel,
    layers: Seq<usize>,
    outs: Seq<Tensor>,
)
    requires
        cfg.from_layer == Some(layers),
        ExtraHeadsPart::loaded(vb, d_model, num_layers, Some(cfg)) is Ok,
        outs.len() == num_layers,
    ensures
        layers.len() > 0,
        picked(outs, layers, 0, seq![]) matches Ok(v) && v.len() == layers.len() && forall|i: int|
            0 <= i < layers.len() ==> #[trigger] v[i] == outs[layers[i] as int],
{
    lemma_in_range(layers, num_layers, 0);
    lemma_picked(outs, layers, 0, seq![]);
}

/// The codebooks that are loaded: as many as configured, each from its own part of the checkpoint.
pub proof fn embeddings_are_loaded_in_order(
    vb: Weights,
    n: usize,
    vocab: usize,
    dim: usize,
    from: int,
    acc: Seq<Embedding>,
    embs: Seq<Embedding>,
)
    requires
        0 <= from <= n,
        acc.len() == from,
        forall|i: int|
            0 <= i < from ==> Embedding::loaded(vb.nth(i), vocab, dim) == Ok::<Embedding, Error>(
                #[trigger] acc[i],
            ),
        LmParts::embs_loaded(vb, n, vocab, dim, from, acc) == Ok::<Seq<Embedding>, Error>(embs),
    ensures
        embs.len() == n,
        forall|i: int|
            0 <= i < n ==> Embedding::loaded(vb.nth(i), vocab, dim) == Ok::<Embedding, Error>(
                #[trigger] embs[i],
            ),
    decreases n - from,
{
    if from < n {
        let e = Embedding::loaded(vb.nth(from), vocab, dim)->Ok_0;
        embeddings_are_loaded_in_order(vb, n, vocab, dim, from + 1, acc.push(e), embs);
    }
}

/// A step gives each lane and step one logit for each text token.
pub proof fn logits_cover_the_vocabulary(
    model: LmParts,
    emb: Tensor,
    state: StateModel,
    mask: Option<Seq<bool>>,
    outs: Seq<Tensor>,
    logits: Tensor,
    head: Tensor,
    vocab: usize,
)
    requires
        emb.shape_of() is D3,
        model.text_linear.weight.shape_of() matches Shape::D2(v, _) && v == vocab,
        model.text_linear.bias is None,
        model.transformer.run(emb, state, mask).1 == Ok::<Seq<Tensor>, Error>(outs),
        model.read_out(emb, outs) == Ok::<(Tensor, Tensor), Error>((logits, head)),
    ensures
        logits.shape_of() == Shape::D3(emb.shape_of()->D3_0, emb.shape_of()->D3_1, vocab),
{
    crate::transformer::step_keeps_the_shape(model.transformer, emb, state, mask, outs);
    let ys = model.out_norm.forwarded(Ok(last_or(outs, emb)))->Ok_0;
    assert(ys.shape_of() == emb.shape_of());
    let map = model.text_linear;
    linear_keeps_lanes_and_steps(map.kind, ys, map.weight, map.bias, logits);
}

} // verus!
