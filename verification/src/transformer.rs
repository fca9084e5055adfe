//! The streaming transformer.
use crate::checkpoint::{weight_of, Weights};
use crate::error::{viewed, Error};
use crate::kv_cache::{
    attends_to_slot, attends_to_step, has_room, mask_opens, masks_follow_positions, step_positions,
    CachePositions, KvCache, PositionsModel,
};
use crate::nn::Linear;
use crate::ops::{
    binary_of, broadcast_of, dim_of, dims3_of, ids_of, layer_norm_of, matmul_of, matmul_t_of,
    narrow_of, reshape_infer_of, reshape_of, rms_norm_of, rope_i_of, softmax_of, transpose_of,
    unary_of, unsqueeze_of,
};
use crate::seanet::Activation;
use crate::shape::{add_dims, mul_dims, word, Shape};
use crate::streaming::{flags, lanes};
use crate::tensor::{
    node, output, BinaryOp, DoubleBits, LinearKind, Op, Scalar, SingleBits, Tensor, TensorResult,
    UnaryOp, EPS_1E5, EPS_1E8,
};
use crate::NormType;
use vstd::prelude::*;
use xn::streaming::StreamMask;

verus! {

/// What a configuration holds where it does not say whether to normalize first.
pub fn default_true() -> (r: bool)
    ensures
        r,
{
    true
}

/// What a configuration holds where it does not mention an optional feature.
pub fn default_false() -> (r: bool)
    ensures
        !r,
{
    false
}

/// How a transformer encodes positions.
#[derive(Clone, Copy, PartialEq, Eq, Structural, Debug)]
pub enum PositionalEmbedding {
    Rope,
    Sin,
    /// Positions are not encoded.
    NoEmbedding,
}

/// The layout of a transformer.
#[derive(Clone, Copy, PartialEq, Eq, Structural, Debug)]
pub struct Config {
    pub d_model: usize,
    pub num_heads: usize,
    pub num_layers: usize,
    pub causal: bool,
    pub norm_first: bool,
    pub bias_ff: bool,
    pub bias_attn: bool,
    pub layer_scale: Option<DoubleBits>,
    pub positional_embedding: PositionalEmbedding,
    pub use_conv_block: bool,
    pub gating: Option<Activation>,
    pub norm: NormType,
    pub context: usize,
    pub max_period: DoubleBits,
    pub kv_repeat: usize,
    pub dim_feedforward: usize,
    pub conv_layout: bool,
}

/// A learnt factor for each feature.
pub struct LayerScale {
    pub scale: Tensor,
}

impl LayerScale {
    pub open spec fn loaded(vb: Weights, d_model: usize) -> Result<LayerScale, Error> {
        match weight_of(vb, "scale", Shape::D1(d_model)) {
            Err(e) => Err(e),
            Ok(scale) => Ok(LayerScale { scale }),
        }
    }

    pub open spec fn forwarded(self, xs: TensorResult) -> TensorResult {
        broadcast_of(BinaryOp::Mul, xs, Ok(self.scale))
    }

    pub fn load(vb: &Weights, d_model: usize) -> (r: Result<LayerScale, Error>)
        ensures
            r == LayerScale::loaded(*vb, d_model),
    {
        let scale = vb.tensor("scale", Shape::D1(d_model))?;
        Ok(LayerScale { scale })
    }

    pub fn forward(&self, xs: &Tensor) -> (r: TensorResult)
        ensures
            r == self.forwarded(Ok(*xs)),
    {
        xs.broadcast(BinaryOp::Mul, &self.scale)
    }
}

/// `xs` scaled where there is a scale.
pub open spec fn scaled(ls: Option<LayerScale>, xs: TensorResult) -> TensorResult {
    match ls {
        None => xs,
        Some(ls) => ls.forwarded(xs),
    }
}

pub(crate) fn apply_scale(ls: &Option<LayerScale>, xs: Tensor) -> (r: TensorResult)
    ensures
        r == scaled(*ls, Ok(xs)),
{
    match ls {
        None => Ok(xs),
        Some(ls) => ls.forward(&xs),
    }
}

/// The scale `name` of a layer, where the configuration has any.
pub open spec fn layer_scale_loaded(vb: Weights, cfg: Config) -> Result<Option<LayerScale>, Error> {
    if cfg.layer_scale is Some {
        match LayerScale::loaded(vb, cfg.d_model) {
            Err(e) => Err(e),
            Ok(ls) => Ok(Some(ls)),
        }
    } else {
        Ok(None)
    }
}

pub(crate) fn load_layer_scale(vb: &Weights, cfg: &Config) -> (r: Result<Option<LayerScale>, Error>)
    ensures
        r == layer_scale_loaded(*vb, *cfg),
{
    if cfg.layer_scale.is_some() {
        Ok(Some(LayerScale::load(vb, cfg.d_model)?))
    } else {
        Ok(None)
    }
}

/// A normalization with its weights.
pub enum Norm {
    LayerNorm { weight: Tensor, bias: Tensor, eps: SingleBits },
    RmsNorm { alpha: Tensor, eps: SingleBits },
}

/// The weight of a norm that is stored with two leading dimensions of one.
pub open spec fn alpha_of(vb: Weights, d_model: usize) -> TensorResult {
    reshape_of(weight_of(vb, "alpha", Shape::D3(1, 1, d_model)), Shape::D1(d_model))
}

impl Norm {
    pub open spec fn loaded(vb: Weights, d_model: usize, norm_type: NormType) -> Result<
        Norm,
        Error,
    > {
        match norm_type {
            NormType::LayerNorm => {
                let weight = if vb.has("alpha") {
                    alpha_of(vb, d_model)
                } else {
                    weight_of(vb, "weight", Shape::D1(d_model))
                };
                match weight {
                    Err(e) => Err(e),
                    Ok(weight) => match weight_of(vb, "bias", Shape::D1(d_model)) {
                        Err(e) => Err(e),
                        Ok(bias) => Ok(Norm::LayerNorm { weight, bias, eps: EPS_1E5 }),
                    },
                }
            },
            NormType::RmsNorm => match alpha_of(vb, d_model) {
                Err(e) => Err(e),
                Ok(alpha) => Ok(Norm::RmsNorm { alpha, eps: EPS_1E5 }),
            },
            NormType::RmsNormF32 => match alpha_of(vb, d_model) {
                Err(e) => Err(e),
                Ok(alpha) => Ok(Norm::RmsNorm { alpha, eps: EPS_1E8 }),
            },
        }
    }

    pub open spec fn forwarded(self, xs: TensorResult) -> TensorResult {
        match self {
            Norm::LayerNorm { weight, bias, eps } => layer_norm_of(xs, weight, Some(bias), eps),
            Norm::RmsNorm { alpha, eps } => rms_norm_of(xs, Ok(alpha), eps),
        }
    }

    pub fn load(vb: &Weights, d_model: usize, norm_type: NormType) -> (r: Result<Norm, Error>)
        ensures
            r == Norm::loaded(*vb, d_model, norm_type),
    {
        match norm_type {
            NormType::LayerNorm => {
                let weight = if vb.contains("alpha") {
                    vb.tensor("alpha", Shape::D3(1, 1, d_model))?.reshape(Shape::D1(d_model))?
                } else {
                    vb.tensor("weight", Shape::D1(d_model))?
                };
                let bias = vb.tensor("bias", Shape::D1(d_model))?;
                Ok(Norm::LayerNorm { weight, bias, eps: EPS_1E5 })
            },
            NormType::RmsNorm => {
                let alpha = vb.tensor("alpha", Shape::D3(1, 1, d_model))?.reshape(
                    Shape::D1(d_model),
                )?;
                Ok(Norm::RmsNorm { alpha, eps: EPS_1E5 })
            },
            NormType::RmsNormF32 => {
                let alpha = vb.tensor("alpha", Shape::D3(1, 1, d_model))?.reshape(
                    Shape::D1(d_model),
                )?;
                Ok(Norm::RmsNorm { alpha, eps: EPS_1E8 })
            },
        }
    }

    pub fn forward(&self, xs: &Tensor) -> (r: TensorResult)
        ensures
            r == self.forwarded(Ok(*xs)),
    {
        match self {
            Norm::LayerNorm { weight, bias, eps } => xs.layer_norm(
                weight,
                &Some(bias.clone()),
                *eps,
            ),
            Norm::RmsNorm { alpha, eps } => xs.rms_norm(alpha, *eps),
        }
    }
}

/// The feed-forward part of a layer.
pub enum Mlp {
    NoGating { linear1: Linear, linear2: Linear },
    Gating { linear_in: Linear, linear_out: Linear, activation: Activation },
}

/// The width between the two maps of a gated feed-forward part.
pub open spec fn gated_width(cfg: Config) -> int {
    if cfg.dim_feedforward == 4 * cfg.d_model {
        11 * cfg.d_model / 4
    } else {
        2 * cfg.dim_feedforward / 3
    }
}

impl Mlp {
    pub open spec fn loaded(vb: Weights, cfg: Config) -> Result<Mlp, Error> {
        let kind = LinearKind::Quantized;
        let d = cfg.d_model;
        match cfg.gating {
            None => match Linear::loaded(
                kind,
                vb.at("linear1"),
                d,
                cfg.dim_feedforward,
                cfg.bias_ff,
            ) {
                Err(e) => Err(e),
                Ok(linear1) => match Linear::loaded(
                    kind,
                    vb.at("linear2"),
                    cfg.dim_feedforward,
                    d,
                    cfg.bias_ff,
                ) {
                    Err(e) => Err(e),
                    Ok(linear2) => Ok(Mlp::NoGating { linear1, linear2 }),
                },
            },
            Some(activation) => {
                let vb = vb.at("gating");
                let scaled = if cfg.dim_feedforward == 4 * d {
                    11 * d
                } else {
                    2 * cfg.dim_feedforward
                };
                if scaled > usize::MAX || 2 * gated_width(cfg) > usize::MAX {
                    Err(Error::TooLarge)
                } else {
                    let hidden = gated_width(cfg) as usize;
                    match Linear::loaded(
                        kind,
                        vb.at("linear_in"),
                        d,
                        (2 * hidden) as usize,
                        cfg.bias_ff,
                    ) {
                        Err(e) => Err(e),
                        Ok(linear_in) => match Linear::loaded(
                            kind,
                            vb.at("linear_out"),
                            hidden,
                            d,
                            cfg.bias_ff,
                        ) {
                            Err(e) => Err(e),
                            Ok(linear_out) => Ok(Mlp::Gating { linear_in, linear_out, activation }),
                        },
                    }
                }
            },
        }
    }

    pub open spec fn forwarded(self, xs: TensorResult) -> TensorResult {
        match self {
            Mlp::NoGating { linear1, linear2 } => linear2.forwarded(
                unary_of(UnaryOp::GeluErf, linear1.forwarded(xs)),
            ),
            Mlp::Gating { linear_in, linear_out, activation } => match dims3_of(xs) {
                Err(e) => Err(e),
                Ok((b, t, _)) => {
                    let both = reshape_infer_of(linear_in.forwarded(xs), Shape::D3(b, t, 2));
                    let x1 = reshape_infer_of(narrow_of(both, 2, 0, 1), Shape::D2(b, t));
                    let x2 = reshape_infer_of(narrow_of(both, 2, 1, 2), Shape::D2(b, t));
                    match (x1, x2) {
                        (Err(e), _) => Err(e),
                        (Ok(_), Err(e)) => Err(e),
                        (Ok(_), Ok(_)) => linear_out.forwarded(
                            binary_of(BinaryOp::Mul, activation.applied(x1), x2),
                        ),
                    }
                },
            },
        }
    }

    pub fn load(vb: &Weights, cfg: &Config) -> (r: Result<Mlp, Error>)
        ensures
            r == Mlp::loaded(*vb, *cfg),
    {
        let kind = LinearKind::Quantized;
        let d_model: usize = cfg.d_model;
        match cfg.gating {
            None => {
                let linear1 = Linear::load_o(
                    kind,
                    &vb.pp("linear1"),
                    d_model,
                    cfg.dim_feedforward,
                    cfg.bias_ff,
                )?;
                let linear2 = Linear::load_o(
                    kind,
                    &vb.pp("linear2"),
                    cfg.dim_feedforward,
                    d_model,
                    cfg.bias_ff,
                )?;
                Ok(Mlp::NoGating { linear1, linear2 })
            },
            Some(activation) => {
                let usual = match d_model.checked_mul(4) {
                    Some(n) => n == cfg.dim_feedforward,
                    None => false,
                };
                let hidden: usize = if usual {
                    mul_dims(11, d_model)? / 4
                } else {
                    mul_dims(2, cfg.dim_feedforward)? / 3
                };
                let vb = vb.pp("gating");
                let twice: usize = mul_dims(2, hidden)?;
                let linear_in = Linear::load_o(
                    kind,
                    &vb.pp("linear_in"),
                    d_model,
                    twice,
                    cfg.bias_ff,
                )?;
                let linear_out = Linear::load_o(
                    kind,
                    &vb.pp("linear_out"),
                    hidden,
                    d_model,
                    cfg.bias_ff,
                )?;
                Ok(Mlp::Gating { linear_in, linear_out, activation })
            },
        }
    }

    pub fn forward(&self, xs: &Tensor) -> (r: TensorResult)
        ensures
            r == self.forwarded(Ok(*xs)),
    {
        match self {
            Mlp::NoGating { linear1, linear2 } => {
                let xs = linear1.forward(xs)?.unary(UnaryOp::GeluErf)?;
                linear2.forward(&xs)
            },
            Mlp::Gating { linear_in, linear_out, activation } => {
                let (b, t, _) = xs.dims3()?;
                let xs = linear_in.forward(xs)?;
                let xs = xs.reshape_infer(Shape::D3(b, t, 2))?;
                let x1 = xs.narrow(2, 0, 1)?.reshape_infer(Shape::D2(b, t))?;
                let x2 = xs.narrow(2, 1, 2)?.reshape_infer(Shape::D2(b, t))?;
                let xs = activation.apply(&x1)?.mul(&x2)?;
                linear_out.forward(&xs)
            },
        }
    }
}

/// The frequencies of a rotary embedding.
pub struct RotaryEmbedding {
    pub inv_freq: Tensor,
}

/// The rotations of one forward pass.
pub struct Rope {
    pub cos: Tensor,
    pub sin: Tensor,
}

impl RotaryEmbedding {
    pub open spec fn made(head_dim: usize, max_period: DoubleBits) -> Result<
        RotaryEmbedding,
        Error,
    > {
        match node(Shape::D3(1, 1, head_dim / 2), Op::InvFreq(max_period)) {
            Err(e) => Err(e),
            Ok(inv_freq) => Ok(RotaryEmbedding { inv_freq }),
        }
    }

    /// The rotations at the positions `pos`, one for each lane and step.
    pub open spec fn rotations(self, pos: TensorResult) -> Result<Rope, Error> {
        let freqs = broadcast_of(
            BinaryOp::Mul,
            unsqueeze_of(unary_of(UnaryOp::ToSingle, pos), 2),
            Ok(self.inv_freq),
        );
        match (unary_of(UnaryOp::Cos, freqs), unary_of(UnaryOp::Sin, freqs)) {
            (Err(e), _) => Err(e),
            (Ok(_), Err(e)) => Err(e),
            (Ok(cos), Ok(sin)) => Ok(Rope { cos, sin }),
        }
    }

    pub fn new(head_dim: usize, max_period: DoubleBits) -> (r: Result<RotaryEmbedding, Error>)
        ensures
            r == RotaryEmbedding::made(head_dim, max_period),
    {
        let inv_freq = Tensor::inv_freq(max_period, head_dim / 2)?;
        Ok(RotaryEmbedding { inv_freq })
    }

    pub fn rope(&self, pos: &Tensor) -> (r: Result<Rope, Error>)
        ensures
            r == self.rotations(Ok(*pos)),
    {
        let pos = pos.unary(UnaryOp::ToSingle)?;
        let pos = pos.unsqueeze(2)?;
        let freqs = pos.broadcast(BinaryOp::Mul, &self.inv_freq)?;
        let cos = freqs.unary(UnaryOp::Cos)?;
        let sin = freqs.unary(UnaryOp::Sin)?;
        Ok(Rope { cos, sin })
    }
}

impl Rope {
    pub open spec fn applied(self, x: TensorResult) -> TensorResult {
        unary_of(
            UnaryOp::ToModel,
            rope_i_of(unary_of(UnaryOp::ToSingle, x), Ok(self.cos), Ok(self.sin)),
        )
    }

    pub fn apply_rotary_emb(&self, x: &Tensor) -> (r: TensorResult)
        ensures
            r == self.applied(Ok(*x)),
    {
        x.unary(UnaryOp::ToSingle)?.rope_i(&self.cos, &self.sin)?.unary(UnaryOp::ToModel)
    }
}

/// `x` rotated where positions are encoded by rotation.
pub open spec fn rotated(rope: Option<Rope>, x: Tensor) -> TensorResult {
    match rope {
        None => Ok(x),
        Some(rope) => rope.applied(Ok(x)),
    }
}

pub(crate) fn rotate(rope: &Option<Rope>, x: Tensor) -> (r: TensorResult)
    ensures
        r == rotated(*rope, x),
{
    match rope {
        None => Ok(x),
        Some(rope) => rope.apply_rotary_emb(&x),
    }
}

/// The first two dimensions: lanes and steps.
pub open spec fn lanes_and_steps(xs: TensorResult) -> Result<(usize, usize), Error> {
    match (dim_of(xs, 0), dim_of(xs, 1)) {
        (Err(e), _) => Err(e),
        (Ok(_), Err(e)) => Err(e),
        (Ok(b), Ok(t)) => Ok((b, t)),
    }
}

pub(crate) fn leading_dims(xs: &Tensor) -> (r: Result<(usize, usize), Error>)
    ensures
        r == lanes_and_steps(Ok(*xs)),
{
    let b: usize = xs.dim(0)?;
    let t: usize = xs.dim(1)?;
    Ok((b, t))
}

/// The features `start..end` of `x`, split into heads: of shape lanes, heads, steps, features.
pub open spec fn heads_of(
    x: TensorResult,
    start: usize,
    end: usize,
    b: usize,
    t: usize,
    num_heads: usize,
    head_dim: usize,
) -> TensorResult {
    transpose_of(
        reshape_of(narrow_of(x, 2, start, end), Shape::D4(b, t, num_heads, head_dim)),
        1,
        2,
    )
}

pub(crate) fn split_heads(
    x: &Tensor,
    start: usize,
    end: usize,
    b: usize,
    t: usize,
    num_heads: usize,
    head_dim: usize,
) -> (r: TensorResult)
    ensures
        r == heads_of(Ok(*x), start, end, b, t, num_heads, head_dim),
        r matches Ok(y) ==> y.shape_of() == Shape::D4(b, num_heads, t, head_dim),
{
    let y = x.narrow(2, start, end)?.reshape(Shape::D4(b, t, num_heads, head_dim))?;
    proof {
        let d = y.shape_of().dims();
        assert(d.update(1, d[2]).update(2, d[1]) =~= seq![b, num_heads, t, head_dim]);
    }
    y.transpose(1, 2)
}

/// Keys and values of one layer, where there are any yet.
pub struct KvCacheState {
    pub k: Option<Tensor>,
    pub v: Option<Tensor>,
}

/// Keys and values of every layer.
pub struct TransformerState {
    pub layers: Vec<KvCacheState>,
}

impl KvCacheState {
    pub fn new() -> (r: KvCacheState)
        ensures
            r == (KvCacheState { k: None, v: None }),
    {
        KvCacheState { k: None, v: None }
    }

    /// The number of steps held.
    pub fn current_seq_len(&self) -> (r: usize)
        requires
            self.k matches Some(k) ==> k.shape_of().rank_of() > 2,
        ensures
            r == (match self.k {
                Some(k) => k.shape_of().dims()[2],
                None => 0,
            }),
    {
        match &self.k {
            Some(k) => {
                let d = k.shape().to_vec();
                d[2]
            },
            None => 0,
        }
    }
}

impl Default for KvCacheState {
    fn default() -> (r: KvCacheState)
        ensures
            r == (KvCacheState { k: None, v: None }),
    {
        KvCacheState::new()
    }
}

/// What a transformer keeps between steps.
pub struct BatchedTransformerState {
    pub builder: CachePositions,
    pub kv_caches: Vec<KvCache>,
}

#[verifier::ext_equal]
pub struct StateModel {
    pub builder: PositionsModel,
    pub kv_caches: Seq<KvCache>,
}

impl View for BatchedTransformerState {
    type V = StateModel;

    open spec fn view(&self) -> StateModel {
        StateModel { builder: self.builder@, kv_caches: self.kv_caches@ }
    }
}

impl StateModel {
    pub open spec fn batch_size(self) -> nat {
        self.builder.positions.len()
    }

    /// The caches of the layers from `slot` on, made after those in `acc`.
    pub open spec fn caches_made(
        batch_size: usize,
        num_kv: usize,
        context: usize,
        head_dim: usize,
        num_layers: nat,
        slot: int,
        acc: Seq<KvCache>,
    ) -> Result<Seq<KvCache>, Error>
        decreases num_layers - slot,
    {
        if slot < 0 || slot >= num_layers {
            Ok(acc)
        } else {
            match KvCache::made(slot as usize, batch_size, num_kv, context, head_dim) {
                Err(e) => Err(e),
                Ok(c) => StateModel::caches_made(
                    batch_size,
                    num_kv,
                    context,
                    head_dim,
                    num_layers,
                    slot + 1,
                    acc.push(c),
                ),
            }
        }
    }

    /// The state before the first step.
    pub open spec fn fresh(
        batch_size: usize,
        num_kv: usize,
        context: usize,
        head_dim: usize,
        num_layers: nat,
    ) -> Result<StateModel, Error> {
        match StateModel::caches_made(
            batch_size,
            num_kv,
            context,
            head_dim,
            num_layers,
            0,
            seq![],
        ) {
            Err(e) => Err(e),
            Ok(kv_caches) => Ok(
                StateModel { builder: PositionsModel::fresh(batch_size, context), kv_caches },
            ),
        }
    }

    pub open spec fn lane_reset(self, batch_idx: usize) -> (StateModel, Result<(), Error>) {
        if batch_idx >= self.batch_size() {
            (self, Err(Error::BatchIndex { batch_idx }))
        } else {
            (
                StateModel {
                    builder: self.builder.lane_reset(batch_idx),
                    kv_caches: self.kv_caches,
                },
                Ok(()),
            )
        }
    }
}

impl BatchedTransformerState {
    pub fn new(
        batch_size: usize,
        num_kv: usize,
        context: usize,
        head_dim: usize,
        num_layers: usize,
    ) -> (r: Result<BatchedTransformerState, Error>)
        ensures
            viewed(r) == StateModel::fresh(
                batch_size,
                num_kv,
                context,
                head_dim,
                num_layers as nat,
            ),
    {
        let builder = CachePositions::new(batch_size, context);
        let mut kv_caches: Vec<KvCache> = Vec::new();
        let mut i: usize = 0;
        while i < num_layers
            invariant
                i <= num_layers,
                StateModel::caches_made(
                    batch_size,
                    num_kv,
                    context,
                    head_dim,
                    num_layers as nat,
                    0,
                    seq![],
                ) == StateModel::caches_made(
                    batch_size,
                    num_kv,
                    context,
                    head_dim,
                    num_layers as nat,
                    i as int,
                    kv_caches@,
                ),
            decreases num_layers - i,
        {
            let cache = KvCache::new(i, batch_size, num_kv, context, head_dim)?;
            kv_caches.push(cache);
            i += 1;
        }
        Ok(BatchedTransformerState { builder, kv_caches })
    }

    pub fn batch_size(&self) -> (r: usize)
        ensures
            r == self@.batch_size(),
    {
        self.builder.batch_size()
    }

    /// All lanes back to the start.
    pub fn reset(&mut self)
        ensures
            final(self)@.builder == PositionsModel::fresh(
                old(self)@.batch_size() as usize,
                old(self)@.builder.context,
            ),
            final(self)@.kv_caches == old(self)@.kv_caches,
    {
        self.builder.reset();
    }

    /// One lane back to the start.
    pub fn reset_batch_idx(&mut self, batch_idx: usize) -> (r: Result<(), Error>)
        ensures
            (final(self)@, r) == old(self)@.lane_reset(batch_idx),
    {
        if batch_idx >= self.batch_size() {
            return Err(Error::BatchIndex { batch_idx });
        }
        self.builder.reset_batch_index(batch_idx);
        Ok(())
    }
}

/// Multi-head self-attention over the cached steps.
pub struct BatchedMultiheadAttention {
    pub in_proj: Linear,
    pub out_proj: Linear,
    pub num_heads: usize,
    pub head_dim: usize,
    pub context: usize,
}

/// The last `n` of the `len` elements along `dim`, where there are more than that.
pub open spec fn tail_of(x: Tensor, dim: usize, n: int, len: usize) -> TensorResult {
    if n < len {
        narrow_of(Ok(x), dim, (len - n) as usize, len)
    } else {
        Ok(x)
    }
}

fn tail(x: &Tensor, dim: usize, n: usize, len: usize) -> (r: TensorResult)
    ensures
        r == tail_of(*x, dim, n as int, len),
{
    if n < len {
        x.narrow(dim, len - n, len)
    } else {
        Ok(x.clone())
    }
}

/// `softmax(q k' / sqrt(head_dim) + mask) v`, the heads joined again.
pub open spec fn attention_of(
    q: Tensor,
    k: Tensor,
    v: Tensor,
    mask: Option<Tensor>,
    b: usize,
    t: usize,
    head_dim: usize,
    d_model: usize,
) -> TensorResult {
    let scores = unary_of(
        UnaryOp::Scale(Scalar::InvSqrt(head_dim)),
        matmul_t_of(Ok(q), Ok(k)),
    );
    let masked = match mask {
        None => scores,
        Some(m) => broadcast_of(BinaryOp::Add, scores, Ok(m)),
    };
    reshape_of(
        transpose_of(matmul_of(softmax_of(masked), Ok(v)), 1, 2),
        Shape::D3(b, t, d_model),
    )
}

pub(crate) fn attend(
    q: &Tensor,
    k: &Tensor,
    v: &Tensor,
    mask: &Option<Tensor>,
    b: usize,
    t: usize,
    head_dim: usize,
    d_model: usize,
) -> (r: TensorResult)
    ensures
        r == attention_of(*q, *k, *v, *mask, b, t, head_dim, d_model),
{
    let attn_weights = q.matmul_t(k)?.unary(UnaryOp::Scale(Scalar::InvSqrt(head_dim)))?;
    let attn_weights = match mask {
        None => attn_weights,
        Some(m) => attn_weights.broadcast(BinaryOp::Add, m)?,
    };
    let attn_weights = attn_weights.softmax()?;
    let attn_output = attn_weights.matmul(v)?;
    attn_output.transpose(1, 2)?.reshape(Shape::D3(b, t, d_model))
}

impl BatchedMultiheadAttention {
    pub open spec fn loaded(vb: Weights, cfg: Config) -> Result<BatchedMultiheadAttention, Error> {
        let vb = vb.at("self_attn");
        let d = cfg.d_model;
        if cfg.num_heads == 0 || cfg.kv_repeat == 0 {
            Err(Error::NoHeads)
        } else {
            let head_dim = d / cfg.num_heads;
            let num_kv = cfg.num_heads / cfg.kv_repeat;
            match word(d + 2 * (num_kv * head_dim)) {
                Err(e) => Err(e),
                Ok(out_dim) => match weight_of(vb, "in_proj_weight", Shape::D2(out_dim, d)) {
                    Err(e) => Err(e),
                    Ok(weight) => {
                        let bias: Result<Option<Tensor>, Error> = if cfg.bias_attn {
                            output(weight_of(vb, "in_proj_bias", Shape::D1(out_dim)))
                        } else {
                            Ok(None)
                        };
                        match bias {
                            Err(e) => Err(e),
                            Ok(bias) => match Linear::loaded(
                                LinearKind::Quantized,
                                vb.at("out_proj"),
                                d,
                                d,
                                cfg.bias_attn,
                            ) {
                                Err(e) => Err(e),
                                Ok(out_proj) => Ok(
                                    BatchedMultiheadAttention {
                                        in_proj: Linear {
                                            kind: LinearKind::Quantized,
                                            weight,
                                            bias,
                                        },
                                        out_proj,
                                        num_heads: cfg.num_heads,
                                        head_dim,
                                        context: cfg.context,
                                    },
                                ),
                            },
                        }
                    },
                },
            }
        }
    }

    /// The attention of the queries `q` of `t` steps to the keys and values `k` and `v`, of which
    /// at most the last `context` before the step count.
    pub open spec fn attended(
        self,
        q: Tensor,
        k: Tensor,
        v: Tensor,
        mask: Tensor,
        b: usize,
        t: usize,
        d_model: usize,
    ) -> TensorResult {
        match dim_of(Ok(k), 2) {
            Err(e) => Err(e),
            Ok(k_len) => {
                let past = if self.context < k_len - t {
                    self.context as int
                } else {
                    k_len - t
                };
                let n = t + past;
                match (tail_of(k, 2, n, k_len), tail_of(v, 2, n, k_len), dim_of(Ok(mask), 3)) {
                    (Err(e), _, _) => Err(e),
                    (Ok(_), Err(e), _) => Err(e),
                    (Ok(_), Ok(_), Err(e)) => Err(e),
                    (Ok(k), Ok(v), Ok(mask_context)) => match tail_of(mask, 3, n, mask_context) {
                        Err(e) => Err(e),
                        Ok(mask) => self.out_proj.forwarded(
                            attention_of(q, k, v, Some(mask), b, t, self.head_dim, d_model),
                        ),
                    },
                }
            },
        }
    }

    /// The queries, keys and values of `t` steps of `b` lanes, of width `d` in all, split into heads
    /// and the first two rotated.
    pub open spec fn projected(
        self,
        xs: TensorResult,
        rope: Option<Rope>,
        b: usize,
        t: usize,
        d: usize,
    ) -> Result<(Tensor, Tensor, Tensor), Error> {
        match (word(2 * d), word(3 * d), self.in_proj.forwarded(xs)) {
            (Err(e), _, _) => Err(e),
            (Ok(_), Err(e), _) => Err(e),
            (Ok(_), Ok(_), Err(e)) => Err(e),
            (Ok(d2), Ok(d3), Ok(qkv)) => match (
                heads_of(Ok(qkv), 0, d, b, t, self.num_heads, self.head_dim),
                heads_of(Ok(qkv), d, d2, b, t, self.num_heads, self.head_dim),
                heads_of(Ok(qkv), d2, d3, b, t, self.num_heads, self.head_dim),
            ) {
                (Err(e), _, _) => Err(e),
                (Ok(_), Err(e), _) => Err(e),
                (Ok(_), Ok(_), Err(e)) => Err(e),
                (Ok(q), Ok(k), Ok(v)) => match (rotated(rope, q), rotated(rope, k)) {
                    (Err(e), _) => Err(e),
                    (Ok(_), Err(e)) => Err(e),
                    (Ok(q), Ok(k)) => Ok((q, k, v)),
                },
            },
        }
    }

    pub open spec fn forwarded(
        self,
        xs: TensorResult,
        rope: Option<Rope>,
        kv_cache: KvCache,
        mask: Tensor,
    ) -> TensorResult {
        match (lanes_and_steps(xs), word(self.num_heads * self.head_dim)) {
            (Err(e), _) => Err(e),
            (Ok(_), Err(e)) => Err(e),
            (Ok((b, t)), Ok(d)) => match self.projected(xs, rope, b, t, d) {
                Err(e) => Err(e),
                Ok((q, k, v)) => match kv_cache.appended(k, v, mask) {
                    Err(e) => Err(e),
                    Ok((k, v)) => self.attended(q, k, v, mask, b, t, d),
                },
            },
        }
    }

    pub fn load(vb: &Weights, cfg: &Config) -> (r: Result<BatchedMultiheadAttention, Error>)
        ensures
            r == BatchedMultiheadAttention::loaded(*vb, *cfg),
    {
        let d_model: usize = cfg.d_model;
        let num_heads: usize = cfg.num_heads;
        if num_heads == 0 || cfg.kv_repeat == 0 {
            return Err(Error::NoHeads);
        }
        let head_dim: usize = d_model / num_heads;
        let num_kv: usize = num_heads / cfg.kv_repeat;
        proof {
            assert(num_kv * head_dim >= 0) by (nonlinear_arith)
                requires
                    num_kv >= 0,
                    head_dim >= 0,
            ;
        }
        let kv_dim: usize = mul_dims(num_kv, head_dim)?;
        let out_dim: usize = add_dims(d_model, mul_dims(2, kv_dim)?)?;

        let vb_attn = vb.pp("self_attn");
        let weight = vb_attn.tensor("in_proj_weight", Shape::D2(out_dim, d_model))?;
        let bias = if cfg.bias_attn {
            Some(vb_attn.tensor("in_proj_bias", Shape::D1(out_dim))?)
        } else {
            None
        };
        let in_proj = Linear { kind: LinearKind::Quantized, weight, bias };
        let out_proj = Linear::load_o(
            LinearKind::Quantized,
            &vb_attn.pp("out_proj"),
            d_model,
            d_model,
            cfg.bias_attn,
        )?;
        Ok(BatchedMultiheadAttention { in_proj, out_proj, num_heads, head_dim, context: cfg.context })
    }

    fn project(&self, xs: &Tensor, rope: &Option<Rope>, b: usize, t: usize, d_model: usize) -> (r:
        Result<(Tensor, Tensor, Tensor), Error>)
        ensures
            r == self.projected(Ok(*xs), *rope, b, t, d_model),
            r matches Ok((_, k, _)) ==> k.shape_of() == Shape::D4(
                b,
                self.num_heads,
                t,
                self.head_dim,
            ),
    {
        let d2: usize = mul_dims(2, d_model)?;
        let d3: usize = mul_dims(3, d_model)?;
        let qkv = self.in_proj.forward(xs)?;
        let q = split_heads(&qkv, 0, d_model, b, t, self.num_heads, self.head_dim)?;
        let k = split_heads(&qkv, d_model, d2, b, t, self.num_heads, self.head_dim)?;
        let v = split_heads(&qkv, d2, d3, b, t, self.num_heads, self.head_dim)?;
        let q = rotate(rope, q)?;
        let k = rotate(rope, k)?;
        Ok((q, k, v))
    }

    fn attend_to(
        &self,
        q: &Tensor,
        k: &Tensor,
        v: &Tensor,
        mask: &Tensor,
        b: usize,
        t: usize,
        d_model: usize,
    ) -> (r: TensorResult)
        requires
            k.shape_of().rank_of() > 2,
            t <= k.shape_of().dims()[2],
        ensures
            r == self.attended(*q, *k, *v, *mask, b, t, d_model),
    {
        let k_len: usize = k.dim(2)?;
        let past: usize = if self.context < k_len - t {
            self.context
        } else {
            k_len - t
        };
        let n: usize = t + past;
        let k = tail(k, 2, n, k_len)?;
        let v = tail(v, 2, n, k_len)?;
        let mask_context: usize = mask.dim(3)?;
        let mask_t = tail(mask, 3, n, mask_context)?;
        let attn_output = attend(q, &k, &v, &Some(mask_t), b, t, self.head_dim, d_model)?;
        self.out_proj.forward(&attn_output)
    }

    #[verifier::spinoff_prover]
    pub fn forward(
        &self,
        xs: &Tensor,
        rope: &Option<Rope>,
        kv_cache: &KvCache,
        mask: &Tensor,
    ) -> (r: TensorResult)
        ensures
            r == self.forwarded(Ok(*xs), *rope, *kv_cache, *mask),
    {
        let (b, t) = leading_dims(xs)?;
        let d_model: usize = mul_dims(self.num_heads, self.head_dim)?;
        let (q, k, v) = self.project(xs, rope, b, t, d_model)?;
        let (k, v) = kv_cache.append(&k, &v, mask)?;
        self.attend_to(&q, &k, &v, mask, b, t, d_model)
    }
}

/// One layer of the transformer.
pub struct BatchedTransformerLayer {
    pub self_attn: BatchedMultiheadAttention,
    pub mlp: Mlp,
    pub norm1: Norm,
    pub norm2: Norm,
    pub layer_scale_1: Option<LayerScale>,
    pub layer_scale_2: Option<LayerScale>,
}

impl BatchedTransformerLayer {
    pub open spec fn loaded(vb: Weights, cfg: Config) -> Result<BatchedTransformerLayer, Error> {
        if cfg.use_conv_block {
            Err(Error::ConvBlock)
        } else {
            match (
                BatchedMultiheadAttention::loaded(vb, cfg),
                Mlp::loaded(vb, cfg),
                Norm::loaded(vb.at("norm1"), cfg.d_model, cfg.norm),
                Norm::loaded(vb.at("norm2"), cfg.d_model, cfg.norm),
                layer_scale_loaded(vb.at("layer_scale_1"), cfg),
                layer_scale_loaded(vb.at("layer_scale_2"), cfg),
            ) {
                (Err(e), _, _, _, _, _) => Err(e),
                (_, Err(e), _, _, _, _) => Err(e),
                (_, _, Err(e), _, _, _) => Err(e),
                (_, _, _, Err(e), _, _) => Err(e),
                (_, _, _, _, Err(e), _) => Err(e),
                (_, _, _, _, _, Err(e)) => Err(e),
                (
                    Ok(self_attn),
                    Ok(mlp),
                    Ok(norm1),
                    Ok(norm2),
                    Ok(layer_scale_1),
                    Ok(layer_scale_2),
                ) => Ok(
                    BatchedTransformerLayer {
                        self_attn,
                        mlp,
                        norm1,
                        norm2,
                        layer_scale_1,
                        layer_scale_2,
                    },
                ),
            }
        }
    }

    pub open spec fn forwarded(
        self,
        xs: TensorResult,
        rope: Option<Rope>,
        kv_cache: KvCache,
        mask: Tensor,
    ) -> TensorResult {
        let attn = scaled(
            self.layer_scale_1,
            self.self_attn.forwarded(self.norm1.forwarded(xs), rope, kv_cache, mask),
        );
        let ys = binary_of(BinaryOp::Add, xs, attn);
        let ff = scaled(self.layer_scale_2, self.mlp.forwarded(self.norm2.forwarded(ys)));
        binary_of(BinaryOp::Add, ys, ff)
    }

    pub fn load(vb: &Weights, cfg: &Config) -> (r: Result<BatchedTransformerLayer, Error>)
        ensures
            r == BatchedTransformerLayer::loaded(*vb, *cfg),
    {
        if cfg.use_conv_block {
            return Err(Error::ConvBlock);
        }
        let self_attn = BatchedMultiheadAttention::load(vb, cfg)?;
        let mlp = Mlp::load(vb, cfg)?;
        let norm1 = Norm::load(&vb.pp("norm1"), cfg.d_model, cfg.norm)?;
        let norm2 = Norm::load(&vb.pp("norm2"), cfg.d_model, cfg.norm)?;
        let layer_scale_1 = load_layer_scale(&vb.pp("layer_scale_1"), cfg)?;
        let layer_scale_2 = load_layer_scale(&vb.pp("layer_scale_2"), cfg)?;
        Ok(
            BatchedTransformerLayer {
                self_attn,
                mlp,
                norm1,
                norm2,
                layer_scale_1,
                layer_scale_2,
            },
        )
    }

    pub fn forward(&self, xs: &Tensor, rope: &Option<Rope>, kv_cache: &KvCache, mask: &Tensor) -> (r:
        TensorResult)
        ensures
            r == self.forwarded(Ok(*xs), *rope, *kv_cache, *mask),
    {
        let norm1_out = self.norm1.forward(xs)?;
        let attn_out = self.self_attn.forward(&norm1_out, rope, kv_cache, mask)?;
        let attn_out = apply_scale(&self.layer_scale_1, attn_out)?;
        let xs = xs.add(&attn_out)?;

        let norm2_out = self.norm2.forward(&xs)?;
        let mlp_out = self.mlp.forward(&norm2_out)?;
        let mlp_out = apply_scale(&self.layer_scale_2, mlp_out)?;
        xs.add(&mlp_out)
    }
}

/// What a transformer of this layout may not ask for.
pub open spec fn unsupported(cfg: Config) -> Option<Error> {
    if !cfg.causal {
        Some(Error::NotCausal)
    } else if !cfg.norm_first {
        Some(Error::NotNormFirst)
    } else if cfg.kv_repeat != 1 {
        Some(Error::KvRepeat)
    } else {
        None
    }
}

pub(crate) fn check_supported(cfg: &Config) -> (r: Result<(), Error>)
    ensures
        r == (match unsupported(*cfg) {
            Some(e) => Err::<(), Error>(e),
            None => Ok(()),
        }),
{
    if !cfg.causal {
        return Err(Error::NotCausal);
    }
    if !cfg.norm_first {
        return Err(Error::NotNormFirst);
    }
    if cfg.kv_repeat != 1 {
        return Err(Error::KvRepeat);
    }
    Ok(())
}

/// The rotary embedding of a transformer, where it has one.
pub open spec fn rope_made(cfg: Config) -> Result<Option<RotaryEmbedding>, Error> {
    if cfg.num_heads == 0 {
        Err(Error::NoHeads)
    } else if cfg.positional_embedding == PositionalEmbedding::Rope {
        match RotaryEmbedding::made(cfg.d_model / cfg.num_heads, cfg.max_period) {
            Err(e) => Err(e),
            Ok(rope) => Ok(Some(rope)),
        }
    } else {
        Ok(None)
    }
}

pub(crate) fn make_rope(cfg: &Config) -> (r: Result<Option<RotaryEmbedding>, Error>)
    ensures
        r == rope_made(*cfg),
{
    if cfg.num_heads == 0 {
        return Err(Error::NoHeads);
    }
    if cfg.positional_embedding == PositionalEmbedding::Rope {
        Ok(Some(RotaryEmbedding::new(cfg.d_model / cfg.num_heads, cfg.max_period)?))
    } else {
        Ok(None)
    }
}

/// The rotations and the attention mask of a step of `xs`, and the state once the active lanes
/// have advanced. The rotations are those of the positions before the step.
pub open spec fn begun(
    rope: Option<RotaryEmbedding>,
    positional_embedding: PositionalEmbedding,
    xs: Tensor,
    state: StateModel,
    mask: Option<Seq<bool>>,
) -> (StateModel, Result<(Option<Rope>, Tensor), Error>) {
    match lanes_and_steps(Ok(xs)) {
        Err(e) => (state, Err(e)),
        Ok((b, t)) => if b != state.batch_size() {
            (state, Err(Error::BatchSize { got: b, expected: state.batch_size() as usize }))
        } else if mask is None {
            (state, Err(Error::MaskRequired))
        } else if !has_room(state.builder.positions, t) {
            (state, Err(Error::TooLarge))
        } else {
            let (builder, iam) = state.builder.stepped(t, mask->0);
            let next = StateModel { builder, kv_caches: state.kv_caches };
            let rotations: Result<Option<Rope>, Error> = match rope {
                None => Ok(None),
                Some(rope) => match rope.rotations(
                    ids_of(step_positions(state.builder.positions, t), Shape::D2(b, t)),
                ) {
                    Err(e) => Err(e),
                    Ok(rope) => Ok(Some(rope)),
                },
            };
            match (iam, rotations) {
                (Err(e), _) => (next, Err(e)),
                (Ok(_), Err(e)) => (next, Err(e)),
                (Ok(iam), Ok(rope)) => if positional_embedding == PositionalEmbedding::Sin {
                    (next, Err(Error::SinEmbedding))
                } else {
                    (next, Ok((rope, iam)))
                },
            }
        },
    }
}

pub(crate) fn begin(
    rope: &Option<RotaryEmbedding>,
    positional_embedding: PositionalEmbedding,
    xs: &Tensor,
    state: &mut BatchedTransformerState,
    mask: &StreamMask,
) -> (r: Result<(Option<Rope>, Tensor), Error>)
    ensures
        (final(state)@, r) == begun(*rope, positional_embedding, *xs, old(state)@, flags(*mask)),
{
    let (b, t) = leading_dims(xs)?;
    if b != state.batch_size() {
        return Err(Error::BatchSize { got: b, expected: state.batch_size() });
    }
    let batch_mask = match lanes(mask) {
        None => {
            return Err(Error::MaskRequired);
        },
        Some(m) => m,
    };
    let pos = match state.builder.next_positions(t) {
        None => {
            return Err(Error::TooLarge);
        },
        Some(pos) => pos,
    };
    let iam = state.builder.indices_and_mask(t, &batch_mask)?;
    let rope = match rope {
        Some(rope) => {
            let pos = Tensor::from_ids(&pos, Shape::D2(b, t))?;
            Some(rope.rope(&pos)?)
        },
        None => None,
    };
    match positional_embedding {
        PositionalEmbedding::Rope | PositionalEmbedding::NoEmbedding => Ok((rope, iam)),
        PositionalEmbedding::Sin => Err(Error::SinEmbedding),
    }
}

/// A streaming transformer over a batch of lanes.
pub struct BatchedTransformer {
    pub layers: Vec<BatchedTransformerLayer>,
    pub rope: Option<RotaryEmbedding>,
    pub positional_embedding: PositionalEmbedding,
    pub num_kv: usize,
    pub head_dim: usize,
    pub context: usize,
}

#[verifier::ext_equal]
pub struct TransformerModel {
    pub layers: Seq<BatchedTransformerLayer>,
    pub rope: Option<RotaryEmbedding>,
    pub positional_embedding: PositionalEmbedding,
    pub num_kv: usize,
    pub head_dim: usize,
    pub context: usize,
}

impl View for BatchedTransformer {
    type V = TransformerModel;

    open spec fn view(&self) -> TransformerModel {
        TransformerModel {
            layers: self.layers@,
            rope: self.rope,
            positional_embedding: self.positional_embedding,
            num_kv: self.num_kv,
            head_dim: self.head_dim,
            context: self.context,
        }
    }
}

impl TransformerModel {
    /// The layers from `i` on, loaded after those in `acc`.
    pub open spec fn layers_loaded(
        vb: Weights,
        cfg: Config,
        i: int,
        acc: Seq<BatchedTransformerLayer>,
    ) -> Result<Seq<BatchedTransformerLayer>, Error>
        decreases cfg.num_layers - i,
    {
        if i < 0 || i >= cfg.num_layers {
            Ok(acc)
        } else {
            match BatchedTransformerLayer::loaded(vb.nth(i), cfg) {
                Err(e) => Err(e),
                Ok(l) => TransformerModel::layers_loaded(vb, cfg, i + 1, acc.push(l)),
            }
        }
    }

    pub open spec fn loaded(vb: Weights, cfg: Config) -> Result<TransformerModel, Error> {
        match (
            unsupported(cfg),
            TransformerModel::layers_loaded(vb.at("layers"), cfg, 0, seq![]),
            rope_made(cfg),
        ) {
            (Some(e), _, _) => Err(e),
            (None, Err(e), _) => Err(e),
            (None, Ok(_), Err(e)) => Err(e),
            (None, Ok(layers), Ok(rope)) => Ok(
                TransformerModel {
                    layers,
                    rope,
                    positional_embedding: cfg.positional_embedding,
                    num_kv: cfg.num_heads / cfg.kv_repeat,
                    head_dim: cfg.d_model / cfg.num_heads,
                    context: cfg.context,
                },
            ),
        }
    }

    /// The outputs of the layers from `i` on, after those in `acc`.
    pub open spec fn layers_run(
        self,
        xs: Tensor,
        rope: Option<Rope>,
        kv_caches: Seq<KvCache>,
        mask: Tensor,
        i: int,
        acc: Seq<Tensor>,
    ) -> Result<Seq<Tensor>, Error>
        decreases self.layers.len() - i,
    {
        if i < 0 || i >= self.layers.len() || i >= kv_caches.len() {
            Ok(acc)
        } else {
            match self.layers[i].forwarded(Ok(xs), rope, kv_caches[i], mask) {
                Err(e) => Err(e),
                Ok(ys) => self.layers_run(ys, rope, kv_caches, mask, i + 1, acc.push(ys)),
            }
        }
    }

    /// The state after a step of `xs`, and the outputs of all layers.
    pub open spec fn run(self, xs: Tensor, state: StateModel, mask: Option<Seq<bool>>) -> (
        StateModel,
        Result<Seq<Tensor>, Error>,
    ) {
        let (next, r) = begun(self.rope, self.positional_embedding, xs, state, mask);
        match r {
            Err(e) => (next, Err(e)),
            Ok((rope, iam)) => (
                next,
                self.layers_run(xs, rope, state.kv_caches, iam, 0, seq![]),
            ),
        }
    }

    /// The state after a step of `xs`, and the output of the last layer.
    pub open spec fn forwarded(self, xs: Tensor, state: StateModel, mask: Option<Seq<bool>>) -> (
        StateModel,
        TensorResult,
    ) {
        let (next, r) = self.run(xs, state, mask);
        (
            next,
            match r {
                Err(e) => Err(e),
                Ok(outs) => Ok(last_or(outs, xs)),
            },
        )
    }
}

/// The last of `outs`, or `xs` where there are none.
pub open spec fn last_or(outs: Seq<Tensor>, xs: Tensor) -> Tensor {
    if outs.len() == 0 {
        xs
    } else {
        outs.last()
    }
}

impl BatchedTransformer {
    pub fn load(vb: &Weights, cfg: &Config) -> (r: Result<BatchedTransformer, Error>)
        ensures
            viewed(r) == TransformerModel::loaded(*vb, *cfg),
    {
        check_supported(cfg)?;
        let vb_layers = vb.pp("layers");
        let mut layers: Vec<BatchedTransformerLayer> = Vec::new();
        let mut i: usize = 0;
        while i < cfg.num_layers
            invariant
                i <= cfg.num_layers,
                vb_layers == vb.at("layers"),
                unsupported(*cfg) is None,
                TransformerModel::layers_loaded(vb_layers, *cfg, 0, seq![])
                    == TransformerModel::layers_loaded(vb_layers, *cfg, i as int, layers@),
            decreases cfg.num_layers - i,
        {
            let layer = BatchedTransformerLayer::load(&vb_layers.pi(i), cfg)?;
            layers.push(layer);
            i += 1;
        }
        let rope = make_rope(cfg)?;
        Ok(
            BatchedTransformer {
                layers,
                rope,
                positional_embedding: cfg.positional_embedding,
                num_kv: cfg.num_heads / cfg.kv_repeat,
                head_dim: cfg.d_model / cfg.num_heads,
                context: cfg.context,
            },
        )
    }

    pub fn init_state(&self, batch_size: usize) -> (r: Result<BatchedTransformerState, Error>)
        ensures
            viewed(r) == StateModel::fresh(
                batch_size,
                self@.num_kv,
                self@.context,
                self@.head_dim,
                self@.layers.len(),
            ),
    {
        BatchedTransformerState::new(
            batch_size,
            self.num_kv,
            self.context,
            self.head_dim,
            self.layers.len(),
        )
    }

    fn run(&self, xs: &Tensor, state: &mut BatchedTransformerState, mask: &StreamMask) -> (r: Result<
        Vec<Tensor>,
        Error,
    >)
        ensures
            (final(state)@, viewed(r)) == self@.run(*xs, old(state)@, flags(*mask)),
    {
        let (rope, iam) = begin(&self.rope, self.positional_embedding, xs, state, mask)?;
        let ghost before = old(state)@;
        let ghost next = state@;
        let mut outs: Vec<Tensor> = Vec::new();
        let mut cur = xs.clone();
        let mut i: usize = 0;
        while i < self.layers.len() && i < state.kv_caches.len()
            invariant
                i <= self.layers.len(),
                before == old(state)@,
                state@ == next,
                state@.kv_caches == before.kv_caches,
                begun(self@.rope, self@.positional_embedding, *xs, before, flags(*mask)) == (
                    next,
                    Ok::<(Option<Rope>, Tensor), Error>((rope, iam)),
                ),
                self@.layers_run(*xs, rope, before.kv_caches, iam, 0, seq![])
                    == self@.layers_run(cur, rope, before.kv_caches, iam, i as int, outs@),
            decreases self.layers.len() - i,
        {
            let ys = self.layers[i].forward(&cur, &rope, &state.kv_caches[i], &iam)?;
            cur = ys.clone();
            outs.push(ys);
            i += 1;
        }
        Ok(outs)
    }

    /// Takes in the next steps of every lane and returns the output of the last layer.
    pub fn forward(&self, xs: &Tensor, state: &mut BatchedTransformerState, mask: &StreamMask) -> (r:
        TensorResult)
        ensures
            (final(state)@, r) == self@.forwarded(*xs, old(state)@, flags(*mask)),
    {
        let outs = self.run(xs, state, mask)?;
        if outs.len() == 0 {
            Ok(xs.clone())
        } else {
            Ok(outs[outs.len() - 1].clone())
        }
    }

    /// As `forward`, with the output of every layer besides.
    pub fn forward_with_intermediates(
        &self,
        xs: &Tensor,
        state: &mut BatchedTransformerState,
        mask: &StreamMask,
    ) -> (r: Result<(Tensor, Vec<Tensor>), Error>)
        ensures
            ({
                let (next, outs) = self@.run(*xs, old(state)@, flags(*mask));
                &&& final(state)@ == next
                &&& match (r, outs) {
                    (Ok((ys, all)), Ok(outs)) => all@ == outs && ys == last_or(outs, *xs),
                    (Err(a), Err(b)) => a == b,
                    _ => false,
                }
            }),
    {
        let outs = self.run(xs, state, mask)?;
        let ys = if outs.len() == 0 {
            xs.clone()
        } else {
            outs[outs.len() - 1].clone()
        };
        Ok((ys, outs))
    }
}

/// A transformer between projections, for inputs of another width or layout.
pub struct BatchedProjectedTransformer {
    pub input_proj: Option<Linear>,
    pub output_proj: Option<Linear>,
    pub transformer: BatchedTransformer,
    pub conv_layout: bool,
}

#[verifier::ext_equal]
pub struct ProjectedModel {
    pub input_proj: Option<Linear>,
    pub output_proj: Option<Linear>,
    pub transformer: TransformerModel,
    pub conv_layout: bool,
}

impl View for BatchedProjectedTransformer {
    type V = ProjectedModel;

    open spec fn view(&self) -> ProjectedModel {
        ProjectedModel {
            input_proj: self.input_proj,
            output_proj: self.output_proj,
            transformer: self.transformer@,
            conv_layout: self.conv_layout,
        }
    }
}

/// A projection, where there is to be one.
pub open spec fn projection_loaded(vb: Weights, wanted: bool, from: usize, to: usize) -> Result<
    Option<Linear>,
    Error,
> {
    if wanted {
        match Linear::loaded(LinearKind::Quantized, vb, from, to, false) {
            Err(e) => Err(e),
            Ok(l) => Ok(Some(l)),
        }
    } else {
        Ok(None)
    }
}

fn load_projection(vb: &Weights, wanted: bool, from: usize, to: usize) -> (r: Result<
    Option<Linear>,
    Error,
>)
    ensures
        r == projection_loaded(*vb, wanted, from, to),
{
    if wanted {
        Ok(Some(Linear::load_o(LinearKind::Quantized, vb, from, to, false)?))
    } else {
        Ok(None)
    }
}

pub open spec fn projected(proj: Option<Linear>, xs: TensorResult) -> TensorResult {
    match proj {
        None => xs,
        Some(l) => l.forwarded(xs),
    }
}

fn project(proj: &Option<Linear>, xs: Tensor) -> (r: TensorResult)
    ensures
        r == projected(*proj, Ok(xs)),
{
    match proj {
        None => Ok(xs),
        Some(l) => l.forward(&xs),
    }
}

/// `xs` between the layouts with steps and with features last.
pub open spec fn relaid(conv_layout: bool, xs: TensorResult) -> TensorResult {
    if conv_layout {
        transpose_of(xs, 1, 2)
    } else {
        xs
    }
}

fn relay(conv_layout: bool, xs: Tensor) -> (r: TensorResult)
    ensures
        r == relaid(conv_layout, Ok(xs)),
{
    if conv_layout {
        xs.transpose(1, 2)
    } else {
        Ok(xs)
    }
}

impl ProjectedModel {
    pub open spec fn loaded(vb: Weights, input_dim: usize, cfg: Config) -> Result<
        ProjectedModel,
        Error,
    > {
        let wanted = input_dim != cfg.d_model;
        match (
            projection_loaded(vb.at("input_proj"), wanted, input_dim, cfg.d_model),
            projection_loaded(vb.at("output_proj").nth(0), wanted, cfg.d_model, input_dim),
            TransformerModel::loaded(vb.at("transformer"), cfg),
        ) {
            (Err(e), _, _) => Err(e),
            (Ok(_), Err(e), _) => Err(e),
            (Ok(_), Ok(_), Err(e)) => Err(e),
            (Ok(input_proj), Ok(output_proj), Ok(transformer)) => Ok(
                ProjectedModel {
                    input_proj,
                    output_proj,
                    transformer,
                    conv_layout: cfg.conv_layout,
                },
            ),
        }
    }

    pub open spec fn forwarded(self, xs: Tensor, state: StateModel, mask: Option<Seq<bool>>) -> (
        StateModel,
        TensorResult,
    ) {
        match projected(self.input_proj, relaid(self.conv_layout, Ok(xs))) {
            Err(e) => (state, Err(e)),
            Ok(xs) => {
                let (next, ys) = self.transformer.forwarded(xs, state, mask);
                (next, relaid(self.conv_layout, projected(self.output_proj, ys)))
            },
        }
    }

    pub open spec fn stepped(self, xs: Option<Tensor>, state: StateModel, mask: Option<Seq<bool>>) -> (
        StateModel,
        Result<Option<Tensor>, Error>,
    ) {
        match xs {
            None => (state, Ok(None)),
            Some(xs) => {
                let (next, ys) = self.forwarded(xs, state, mask);
                (next, output(ys))
            },
        }
    }
}

impl BatchedProjectedTransformer {
    pub fn load(vb: &Weights, input_dim: usize, cfg: &Config) -> (r: Result<
        BatchedProjectedTransformer,
        Error,
    >)
        ensures
            viewed(r) == ProjectedModel::loaded(*vb, input_dim, *cfg),
    {
        let wanted = input_dim != cfg.d_model;
        let input_proj = load_projection(&vb.pp("input_proj"), wanted, input_dim, cfg.d_model)?;
        let output_proj = load_projection(
            &vb.pp("output_proj").pi(0),
            wanted,
            cfg.d_model,
            input_dim,
        )?;
        let transformer = BatchedTransformer::load(&vb.pp("transformer"), cfg)?;
        Ok(
            BatchedProjectedTransformer {
                input_proj,
                output_proj,
                transformer,
                conv_layout: cfg.conv_layout,
            },
        )
    }

    pub fn init_state(&self, batch_size: usize) -> (r: Result<BatchedTransformerState, Error>)
        ensures
            viewed(r) == StateModel::fresh(
                batch_size,
                self@.transformer.num_kv,
                self@.transformer.context,
                self@.transformer.head_dim,
                self@.transformer.layers.len(),
            ),
    {
        self.transformer.init_state(batch_size)
    }

    /// The outputs, of which there is one.
    pub fn forward(&self, xs: &Tensor, state: &mut BatchedTransformerState, mask: &StreamMask) -> (r:
        Result<Vec<Tensor>, Error>)
        ensures
            ({
                let (next, ys) = self@.forwarded(*xs, old(state)@, flags(*mask));
                &&& final(state)@ == next
                &&& match (r, ys) {
                    (Ok(v), Ok(ys)) => v@ == seq![ys],
                    (Err(a), Err(b)) => a == b,
                    _ => false,
                }
            }),
    {
        let xs = relay(self.conv_layout, xs.clone())?;
        let xs = project(&self.input_proj, xs)?;
        let xs = self.transformer.forward(&xs, state, mask)?;
        let ys = project(&self.output_proj, xs)?;
        let ys = relay(self.conv_layout, ys)?;
        let mut out: Vec<Tensor> = Vec::new();
        out.push(ys);
        assert(out@ =~= seq![ys]);
        Ok(out)
    }

    pub fn step(
        &self,
        xs: &Option<Tensor>,
        state: &mut BatchedTransformerState,
        mask: &StreamMask,
    ) -> (r: Result<Option<Tensor>, Error>)
        ensures
            (final(state)@, r) == self@.stepped(*xs, old(state)@, flags(*mask)),
    {
        let xs = match xs {
            None => {
                return Ok(None);
            },
            Some(xs) => xs,
        };
        let ys = self.forward(xs, state, mask)?;
        Ok(Some(ys[0].clone()))
    }
}

/// The layers that are loaded: as many as configured, each from its own part of the checkpoint.
pub proof fn layers_are_loaded_in_order(
    vb: Weights,
    cfg: Config,
    from: int,
    acc: Seq<BatchedTransformerLayer>,
    layers: Seq<BatchedTransformerLayer>,
)
    requires
        0 <= from <= cfg.num_layers,
        acc.len() == from,
        forall|i: int|
            0 <= i < from ==> BatchedTransformerLayer::loaded(vb.nth(i), cfg) == Ok::<
                BatchedTransformerLayer,
                Error,
            >(#[trigger] acc[i]),
        TransformerModel::layers_loaded(vb, cfg, from, acc) == Ok::<
            Seq<BatchedTransformerLayer>,
            Error,
        >(layers),
    ensures
        layers.len() == cfg.num_layers,
        forall|i: int|
            0 <= i < cfg.num_layers ==> BatchedTransformerLayer::loaded(vb.nth(i), cfg) == Ok::<
                BatchedTransformerLayer,
                Error,
            >(#[trigger] layers[i]),
    decreases cfg.num_layers - from,
{
    if from < cfg.num_layers {
        let l = BatchedTransformerLayer::loaded(vb.nth(from), cfg)->Ok_0;
        layers_are_loaded_in_order(vb, cfg, from + 1, acc.push(l), layers);
    }
}

proof fn lemma_caches_made(
    batch_size: usize,
    num_kv: usize,
    context: usize,
    head_dim: usize,
    num_layers: nat,
    slot: int,
    acc: Seq<KvCache>,
    caches: Seq<KvCache>,
)
    requires
        0 <= slot <= num_layers,
        acc.len() == slot,
        forall|i: int|
            0 <= i < slot ==> (#[trigger] acc[i]) == (KvCache {
                slot: i as usize,
                batch_size,
                num_heads: num_kv,
                context,
                head_dim,
            }),
        StateModel::caches_made(
            batch_size,
            num_kv,
            context,
            head_dim,
            num_layers,
            slot,
            acc,
        ) == Ok::<Seq<KvCache>, Error>(caches),
    ensures
        caches.len() == num_layers,
        forall|i: int|
            0 <= i < num_layers ==> (#[trigger] caches[i]) == (KvCache {
                slot: i as usize,
                batch_size,
                num_heads: num_kv,
                context,
                head_dim,
            }),
    decreases num_layers - slot,
{
    if slot < num_layers {
        let c = KvCache::made(slot as usize, batch_size, num_kv, context, head_dim)->Ok_0;
        lemma_caches_made(
            batch_size,
            num_kv,
            context,
            head_dim,
            num_layers,
            slot + 1,
            acc.push(c),
            caches,
        );
    }
}

/// A fresh state has a cache for every layer and every lane at the start.
pub proof fn fresh_state_covers_all_layers(
    batch_size: usize,
    num_kv: usize,
    context: usize,
    head_dim: usize,
    num_layers: nat,
    state: StateModel,
)
    requires
        StateModel::fresh(batch_size, num_kv, context, head_dim, num_layers) == Ok::<
            StateModel,
            Error,
        >(state),
    ensures
        state.kv_caches.len() == num_layers,
        forall|i: int|
            0 <= i < num_layers ==> (#[trigger] state.kv_caches[i]) == (KvCache {
                slot: i as usize,
                batch_size,
                num_heads: num_kv,
                context,
                head_dim,
            }),
        state.batch_size() == batch_size,
        forall|b: int| 0 <= b < batch_size ==> #[trigger] state.builder.positions[b] == 0,
{
    lemma_caches_made(
        batch_size,
        num_kv,
        context,
        head_dim,
        num_layers,
        0,
        seq![],
        state.kv_caches,
    );
}

proof fn lemma_layers_run(
    model: TransformerModel,
    xs: Tensor,
    rope: Option<Rope>,
    kv_caches: Seq<KvCache>,
    mask: Tensor,
    i: int,
    acc: Seq<Tensor>,
    outs: Seq<Tensor>,
)
    requires
        kv_caches.len() >= model.layers.len(),
        0 <= i <= model.layers.len(),
        acc.len() == i,
        model.layers_run(xs, rope, kv_caches, mask, i, acc) == Ok::<Seq<Tensor>, Error>(outs),
    ensures
        outs.len() == model.layers.len(),
    decreases model.layers.len() - i,
{
    if i < model.layers.len() {
        let ys = model.layers[i].forwarded(Ok(xs), rope, kv_caches[i], mask)->Ok_0;
        lemma_layers_run(model, ys, rope, kv_caches, mask, i + 1, acc.push(ys), outs);
    }
}

/// A step runs every layer, where the state has a cache for each.
pub proof fn every_layer_runs(
    model: TransformerModel,
    xs: Tensor,
    state: StateModel,
    mask: Option<Seq<bool>>,
    outs: Seq<Tensor>,
)
    requires
        state.kv_caches.len() >= model.layers.len(),
        model.run(xs, state, mask).1 == Ok::<Seq<Tensor>, Error>(outs),
    ensures
        outs.len() == model.layers.len(),
{
    let (next, r) = begun(model.rope, model.positional_embedding, xs, state, mask);
    let (rope, iam) = r->Ok_0;
    lemma_layers_run(model, xs, rope, state.kv_caches, iam, 0, seq![], outs);
}

/// A step keeps the caches of a state and the number of its lanes, whatever comes of it.
pub proof fn step_keeps_the_batch(
    model: TransformerModel,
    xs: Tensor,
    state: StateModel,
    mask: Option<Seq<bool>>,
)
    ensures
        model.run(xs, state, mask).0.kv_caches == state.kv_caches,
        model.run(xs, state, mask).0.batch_size() == state.batch_size(),
        model.run(xs, state, mask).0.builder.context == state.builder.context,
{
}

/// A step that succeeds moves every active lane by its length, and leaves the others where they
/// are.
pub proof fn step_moves_active_lanes(
    model: TransformerModel,
    xs: Tensor,
    state: StateModel,
    mask: Seq<bool>,
    b: int,
)
    requires
        model.run(xs, state, Some(mask)).1 is Ok,
        0 <= b < state.batch_size(),
        mask.len() == state.batch_size(),
    ensures
        model.run(xs, state, Some(mask)).0.builder.positions[b] == state.builder.positions[b]
            + if mask[b] {
            lanes_and_steps(Ok(xs))->Ok_0.1 as int
        } else {
            0
        },
{
    let t = lanes_and_steps(Ok(xs))->Ok_0.1;
    if mask[b] {
        crate::kv_cache::active_lanes_advance(state.builder, t, mask, b);
    } else {
        crate::kv_cache::inactive_lanes_stay(state.builder, t, mask, b);
    }
}

/// A layer keeps the shape of what it is fed.
pub proof fn layer_keeps_the_shape(
    layer: BatchedTransformerLayer,
    xs: Tensor,
    rope: Option<Rope>,
    kv_cache: KvCache,
    mask: Tensor,
    ys: Tensor,
)
    requires
        layer.forwarded(Ok(xs), rope, kv_cache, mask) == Ok::<Tensor, Error>(ys),
    ensures
        ys.shape_of() == xs.shape_of(),
{
}

proof fn lemma_layers_keep_the_shape(
    model: TransformerModel,
    xs: Tensor,
    rope: Option<Rope>,
    kv_caches: Seq<KvCache>,
    mask: Tensor,
    i: int,
    acc: Seq<Tensor>,
    outs: Seq<Tensor>,
)
    requires
        forall|j: int| 0 <= j < acc.len() ==> (#[trigger] acc[j]).shape_of() == xs.shape_of(),
        model.layers_run(xs, rope, kv_caches, mask, i, acc) == Ok::<Seq<Tensor>, Error>(outs),
    ensures
        forall|j: int| 0 <= j < outs.len() ==> (#[trigger] outs[j]).shape_of() == xs.shape_of(),
    decreases model.layers.len() - i,
{
    if 0 <= i < model.layers.len() && i < kv_caches.len() {
        let ys = model.layers[i].forwarded(Ok(xs), rope, kv_caches[i], mask)->Ok_0;
        layer_keeps_the_shape(model.layers[i], xs, rope, kv_caches[i], mask, ys);
        lemma_layers_keep_the_shape(model, ys, rope, kv_caches, mask, i + 1, acc.push(ys), outs);
    }
}

/// A step keeps the shape of what it is fed, in every layer.
pub proof fn step_keeps_the_shape(
    model: TransformerModel,
    xs: Tensor,
    state: StateModel,
    mask: Option<Seq<bool>>,
    outs: Seq<Tensor>,
)
    requires
        model.run(xs, state, mask).1 == Ok::<Seq<Tensor>, Error>(outs),
    ensures
        forall|j: int| 0 <= j < outs.len() ==> (#[trigger] outs[j]).shape_of() == xs.shape_of(),
        last_or(outs, xs).shape_of() == xs.shape_of(),
{
    let (next, r) = begun(model.rope, model.positional_embedding, xs, state, mask);
    let (rope, iam) = r->Ok_0;
    lemma_layers_keep_the_shape(model, xs, rope, state.kv_caches, iam, 0, seq![], outs);
}

/// The attention mask that all layers of a step read leaves open to each lane what its position
/// before the step and its flag say.
pub proof fn steps_attend_by_position(
    rope: Option<RotaryEmbedding>,
    positional_embedding: PositionalEmbedding,
    xs: Tensor,
    state: StateModel,
    lanes: Seq<bool>,
    rotations: Option<Rope>,
    mask: Tensor,
    b: int,
    step: int,
    k: int,
)
    requires
        begun(rope, positional_embedding, xs, state, Some(lanes)).1 == Ok::<
            (Option<Rope>, Tensor),
            Error,
        >((rotations, mask)),
        0 <= b < state.batch_size(),
        0 <= step < xs.shape_of().dims()[1],
    ensures
        ({
            let t = xs.shape_of().dims()[1];
            let builder = state.builder;
            mask_opens(mask, b, step, k) == if builder.context > t {
                attends_to_slot(
                    builder.context as int,
                    builder.positions[b] as int,
                    lanes[b],
                    t as int,
                    step,
                    k,
                )
            } else {
                attends_to_step(builder.context as int, step, k)
            }
        }),
{
    let t = xs.shape_of().dims()[1];
    masks_follow_positions(state.builder, t, lanes, mask, b, step, k);
}

} // verus!
