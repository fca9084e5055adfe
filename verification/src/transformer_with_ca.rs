//! The streaming transformer with cross-attention.
use crate::checkpoint::{weight_of, Weights};
use crate::error::{viewed, Error};
use crate::kv_cache::KvCache;
use crate::nn::Linear;
use crate::ops::{binary_of, dims3_of, narrow_of, reshape_of, transpose_of};
use crate::shape::{add_dims, mul_dims, word, Shape};
use crate::tensor::{output, BinaryOp, LinearKind, Tensor, TensorResult};
use crate::transformer::{
    apply_scale, attend, attention_of, begin, begun, check_supported, heads_of, layer_scale_loaded,
    load_layer_scale, make_rope, rope_made, scaled, split_heads, unsupported,
    BatchedMultiheadAttention, BatchedTransformerState, Config, LayerScale, Mlp, Norm,
    PositionalEmbedding, Rope, RotaryEmbedding, StateModel,
};
use crate::NormType;
use crate::streaming::flags;
use vstd::prelude::*;
use xn::streaming::StreamMask;

verus! {

/// Input to cross-attention: tokens still to be projected, or keys and values that are reused
/// over steps.
pub enum CaSrc {
    Tokens(Tensor),
    KeysValues(Tensor, Tensor),
}

impl Clone for CaSrc {
    fn clone(&self) -> (r: CaSrc)
        ensures
            r == *self,
    {
        match self {
            CaSrc::Tokens(xs) => CaSrc::Tokens(xs.clone()),
            CaSrc::KeysValues(k, v) => CaSrc::KeysValues(k.clone(), v.clone()),
        }
    }
}

/// Multi-head attention of a stream to a fixed source.
pub struct BatchedMultiheadCrossAttention {
    pub in_proj_q: Linear,
    pub in_proj_kv: Linear,
    pub out_proj: Linear,
    pub num_heads: usize,
    pub head_dim: usize,
}

/// The bias `name`, where there is to be one.
pub open spec fn named_bias_of(vb: Weights, name: &'static str, wanted: bool, n: usize) -> Result<
    Option<Tensor>,
    Error,
> {
    if wanted {
        output(weight_of(vb, name, Shape::D1(n)))
    } else {
        Ok(None)
    }
}

fn load_named_bias(vb: &Weights, name: &'static str, wanted: bool, n: usize) -> (r: Result<
    Option<Tensor>,
    Error,
>)
    ensures
        r == named_bias_of(*vb, name, wanted, n),
{
    if wanted {
        Ok(Some(vb.tensor(name, Shape::D1(n))?))
    } else {
        Ok(None)
    }
}

/// The elements `start..end` of a bias, where there is one.
pub open spec fn bias_part(bias: Option<Tensor>, start: usize, end: usize) -> Result<
    Option<Tensor>,
    Error,
> {
    match bias {
        None => Ok(None),
        Some(b) => output(narrow_of(Ok(b), 0, start, end)),
    }
}

fn slice_bias(bias: &Option<Tensor>, start: usize, end: usize) -> (r: Result<Option<Tensor>, Error>)
    ensures
        r == bias_part(*bias, start, end),
{
    match bias {
        None => Ok(None),
        Some(b) => Ok(Some(b.narrow(0, start, end)?)),
    }
}

/// The query map and the key-value map, where one tensor stores both.
pub open spec fn combined_proj(vb: Weights, d: usize, out_dim: usize, bias_attn: bool) -> Result<
    (Linear, Linear),
    Error,
> {
    let kind = LinearKind::Quantized;
    let combined = weight_of(vb, "in_proj_weight", Shape::D2(out_dim, d));
    match (
        narrow_of(combined, 0, 0, d),
        narrow_of(combined, 0, d, out_dim),
        named_bias_of(vb, "in_proj_bias", bias_attn, out_dim),
    ) {
        (Err(e), _, _) => Err(e),
        (Ok(_), Err(e), _) => Err(e),
        (Ok(_), Ok(_), Err(e)) => Err(e),
        (Ok(w_q), Ok(w_kv), Ok(bias)) => match (bias_part(bias, 0, d), bias_part(bias, d, out_dim)) {
            (Err(e), _) => Err(e),
            (Ok(_), Err(e)) => Err(e),
            (Ok(b_q), Ok(b_kv)) => Ok(
                (
                    Linear { kind, weight: w_q, bias: b_q },
                    Linear { kind, weight: w_kv, bias: b_kv },
                ),
            ),
        },
    }
}

/// The query map and the key-value map, where each has a tensor of its own.
pub open spec fn split_proj(vb: Weights, d: usize, kv_dim: usize, bias_attn: bool) -> Result<
    (Linear, Linear),
    Error,
> {
    let kind = LinearKind::Quantized;
    match (
        weight_of(vb, "in_proj_weight_q", Shape::D2(d, d)),
        named_bias_of(vb, "in_proj_bias_q", bias_attn, d),
        weight_of(vb, "in_proj_weight_kv", Shape::D2(kv_dim, d)),
        named_bias_of(vb, "in_proj_bias_kv", bias_attn, kv_dim),
    ) {
        (Err(e), _, _, _) => Err(e),
        (Ok(_), Err(e), _, _) => Err(e),
        (Ok(_), Ok(_), Err(e), _) => Err(e),
        (Ok(_), Ok(_), Ok(_), Err(e)) => Err(e),
        (Ok(w_q), Ok(b_q), Ok(w_kv), Ok(b_kv)) => Ok(
            (Linear { kind, weight: w_q, bias: b_q }, Linear { kind, weight: w_kv, bias: b_kv }),
        ),
    }
}

impl BatchedMultiheadCrossAttention {
    /// A checkpoint that has the combined tensor is read by it, and by the separate ones
    /// otherwise.
    pub open spec fn loaded(vb: Weights, cfg: Config) -> Result<
        BatchedMultiheadCrossAttention,
        Error,
    > {
        let d = cfg.d_model;
        if cfg.num_heads == 0 || cfg.kv_repeat == 0 {
            Err(Error::NoHeads)
        } else {
            let head_dim = d / cfg.num_heads;
            let num_kv = cfg.num_heads / cfg.kv_repeat;
            match (word(2 * (num_kv * head_dim)), word(d + 2 * (num_kv * head_dim))) {
                (Err(e), _) => Err(e),
                (Ok(_), Err(e)) => Err(e),
                (Ok(kv_dim), Ok(out_dim)) => {
                    let proj = if vb.has("in_proj_weight") {
                        combined_proj(vb, d, out_dim, cfg.bias_attn)
                    } else {
                        split_proj(vb, d, kv_dim, cfg.bias_attn)
                    };
                    match (
                        proj,
                        Linear::loaded(
                            LinearKind::Quantized,
                            vb.at("out_proj"),
                            d,
                            d,
                            cfg.bias_attn,
                        ),
                    ) {
                        (Err(e), _) => Err(e),
                        (Ok(_), Err(e)) => Err(e),
                        (Ok((in_proj_q, in_proj_kv)), Ok(out_proj)) => Ok(
                            BatchedMultiheadCrossAttention {
                                in_proj_q,
                                in_proj_kv,
                                out_proj,
                                num_heads: cfg.num_heads,
                                head_dim,
                            },
                        ),
                    }
                },
            }
        }
    }

    /// The keys and values of the source `xs`, split into heads.
    pub open spec fn keys_values(self, xs: Tensor) -> Result<(Tensor, Tensor), Error> {
        let kv = self.in_proj_kv.forwarded(Ok(xs));
        match (dims3_of(kv), word(self.num_heads * self.head_dim)) {
            (Err(e), _) => Err(e),
            (Ok(_), Err(e)) => Err(e),
            (Ok((b, t, _)), Ok(d)) => match word(2 * d) {
                Err(e) => Err(e),
                Ok(d2) => match (
                    heads_of(kv, 0, d, b, t, self.num_heads, self.head_dim),
                    heads_of(kv, d, d2, b, t, self.num_heads, self.head_dim),
                ) {
                    (Err(e), _) => Err(e),
                    (Ok(_), Err(e)) => Err(e),
                    (Ok(k), Ok(v)) => Ok((k, v)),
                },
            },
        }
    }

    /// The keys and values of a source, which may hold them already.
    pub open spec fn source_keys_values(self, ca_src: CaSrc) -> Result<(Tensor, Tensor), Error> {
        match ca_src {
            CaSrc::KeysValues(k, v) => Ok((k, v)),
            CaSrc::Tokens(xs) => self.keys_values(xs),
        }
    }

    pub open spec fn forwarded(self, xs: TensorResult, ca_src: CaSrc) -> TensorResult {
        match (dims3_of(xs), word(self.num_heads * self.head_dim)) {
            (Err(e), _) => Err(e),
            (Ok(_), Err(e)) => Err(e),
            (Ok((b, t, _)), Ok(d)) => {
                let q = transpose_of(
                    reshape_of(
                        self.in_proj_q.forwarded(xs),
                        Shape::D4(b, t, self.num_heads, self.head_dim),
                    ),
                    1,
                    2,
                );
                match (q, self.source_keys_values(ca_src)) {
                    (Err(e), _) => Err(e),
                    (Ok(_), Err(e)) => Err(e),
                    (Ok(q), Ok((k, v))) => self.out_proj.forwarded(
                        attention_of(q, k, v, None, b, t, self.head_dim, d),
                    ),
                }
            },
        }
    }

    fn load_combined(vb: &Weights, d: usize, out_dim: usize, bias_attn: bool) -> (r: Result<
        (Linear, Linear),
        Error,
    >)
        ensures
            r == combined_proj(*vb, d, out_dim, bias_attn),
    {
        let kind = LinearKind::Quantized;
        let combined = vb.tensor("in_proj_weight", Shape::D2(out_dim, d))?;
        let w_q = combined.narrow(0, 0, d)?;
        let w_kv = combined.narrow(0, d, out_dim)?;
        let bias = load_named_bias(vb, "in_proj_bias", bias_attn, out_dim)?;
        let b_q = slice_bias(&bias, 0, d)?;
        let b_kv = slice_bias(&bias, d, out_dim)?;
        Ok((Linear { kind, weight: w_q, bias: b_q }, Linear { kind, weight: w_kv, bias: b_kv }))
    }

    fn load_split(vb: &Weights, d: usize, kv_dim: usize, bias_attn: bool) -> (r: Result<
        (Linear, Linear),
        Error,
    >)
        ensures
            r == split_proj(*vb, d, kv_dim, bias_attn),
    {
        let kind = LinearKind::Quantized;
        let w_q = vb.tensor("in_proj_weight_q", Shape::D2(d, d))?;
        let b_q = load_named_bias(vb, "in_proj_bias_q", bias_attn, d)?;
        let w_kv = vb.tensor("in_proj_weight_kv", Shape::D2(kv_dim, d))?;
        let b_kv = load_named_bias(vb, "in_proj_bias_kv", bias_attn, kv_dim)?;
        Ok((Linear { kind, weight: w_q, bias: b_q }, Linear { kind, weight: w_kv, bias: b_kv }))
    }

    pub fn load(vb: &Weights, cfg: &Config) -> (r: Result<BatchedMultiheadCrossAttention, Error>)
        ensures
            r == BatchedMultiheadCrossAttention::loaded(*vb, *cfg),
    {
        let d_model: usize = cfg.d_model;
        let num_heads: usize = cfg.num_heads;
        if num_heads == 0 || cfg.kv_repeat == 0 {
            return Err(Error::NoHeads);
        }
        let head_dim: usize = d_model / num_heads;
        let num_kv: usize = num_heads / cfg.kv_repeat;
        proof {
            assert(num_kv * head_dim >= 0) by (nonlinear_arith)
                requires
                    num_kv >= 0,
                    head_dim >= 0,
            ;
        }
        let kv_dim: usize = mul_dims(2, mul_dims(num_kv, head_dim)?)?;
        let out_dim: usize = add_dims(d_model, kv_dim)?;
        let (in_proj_q, in_proj_kv) = if vb.contains("in_proj_weight") {
            Self::load_combined(vb, d_model, out_dim, cfg.bias_attn)?
        } else {
            Self::load_split(vb, d_model, kv_dim, cfg.bias_attn)?
        };
        let out_proj = Linear::load_o(
            LinearKind::Quantized,
            &vb.pp("out_proj"),
            d_model,
            d_model,
            cfg.bias_attn,
        )?;
        Ok(BatchedMultiheadCrossAttention { in_proj_q, in_proj_kv, out_proj, num_heads, head_dim })
    }

    pub fn compute_kv_ca_src(&self, ca_src: &CaSrc) -> (r: Result<(Tensor, Tensor), Error>)
        ensures
            r == self.source_keys_values(*ca_src),
    {
        match ca_src {
            CaSrc::KeysValues(k, v) => Ok((k.clone(), v.clone())),
            CaSrc::Tokens(xs) => self.compute_kv(xs),
        }
    }

    pub fn compute_kv(&self, xs: &Tensor) -> (r: Result<(Tensor, Tensor), Error>)
        ensures
            r == self.keys_values(*xs),
    {
        let kv = self.in_proj_kv.forward(xs)?;
        let (b, t, _) = kv.dims3()?;
        let d: usize = mul_dims(self.num_heads, self.head_dim)?;
        let d2: usize = mul_dims(2, d)?;
        let k = split_heads(&kv, 0, d, b, t, self.num_heads, self.head_dim)?;
        let v = split_heads(&kv, d, d2, b, t, self.num_heads, self.head_dim)?;
        Ok((k, v))
    }

    pub fn forward(&self, xs: &Tensor, ca_src: &CaSrc) -> (r: TensorResult)
        ensures
            r == self.forwarded(Ok(*xs), *ca_src),
    {
        let (b, t, _) = xs.dims3()?;
        let d_model: usize = mul_dims(self.num_heads, self.head_dim)?;
        let q = self.in_proj_q.forward(xs)?.reshape(
            Shape::D4(b, t, self.num_heads, self.head_dim),
        )?.transpose(1, 2)?;
        let (k, v) = self.compute_kv_ca_src(ca_src)?;
        let attn_output = attend(&q, &k, &v, &None, b, t, self.head_dim, d_model)?;
        self.out_proj.forward(&attn_output)
    }
}

/// One layer of the transformer.
pub struct Layer {
    pub self_attn: BatchedMultiheadAttention,
    pub cross_attn: BatchedMultiheadCrossAttention,
    pub norm_cross: Norm,
    pub mlp: Mlp,
    pub norm1: Norm,
    pub norm2: Norm,
    pub layer_scale_1: Option<LayerScale>,
    pub layer_scale_2: Option<LayerScale>,
}

impl Layer {
    pub open spec fn loaded(vb: Weights, cfg: Config) -> Result<Layer, Error> {
        if cfg.use_conv_block {
            Err(Error::ConvBlock)
        } else {
            match (
                BatchedMultiheadAttention::loaded(vb, cfg),
                Mlp::loaded(vb, cfg),
                Norm::loaded(vb.at("norm1"), cfg.d_model, cfg.norm),
                Norm::loaded(vb.at("norm2"), cfg.d_model, cfg.norm),
                Norm::loaded(vb.at("norm_cross"), cfg.d_model, NormType::LayerNorm),
                BatchedMultiheadCrossAttention::loaded(vb.at("cross_attention"), cfg),
                layer_scale_loaded(vb.at("layer_scale_1"), cfg),
                layer_scale_loaded(vb.at("layer_scale_2"), cfg),
            ) {
                (Err(e), _, _, _, _, _, _, _) => Err(e),
                (_, Err(e), _, _, _, _, _, _) => Err(e),
                (_, _, Err(e), _, _, _, _, _) => Err(e),
                (_, _, _, Err(e), _, _, _, _) => Err(e),
                (_, _, _, _, Err(e), _, _, _) => Err(e),
                (_, _, _, _, _, Err(e), _, _) => Err(e),
                (_, _, _, _, _, _, Err(e), _) => Err(e),
                (_, _, _, _, _, _, _, Err(e)) => Err(e),
                (
                    Ok(self_attn),
                    Ok(mlp),
                    Ok(norm1),
                    Ok(norm2),
                    Ok(norm_cross),
                    Ok(cross_attn),
                    Ok(layer_scale_1),
                    Ok(layer_scale_2),
                ) => Ok(
                    Layer {
                        self_attn,
                        cross_attn,
                        norm_cross,
                        mlp,
                        norm1,
                        norm2,
                        layer_scale_1,
                        layer_scale_2,
                    },
                ),
            }
        }
    }

    pub open spec fn forwarded(
        self,
        xs: TensorResult,
        rope: Option<Rope>,
        kv_cache: KvCache,
        mask: Tensor,
        ca_src: CaSrc,
    ) -> TensorResult {
        let attn = scaled(
            self.layer_scale_1,
            self.self_attn.forwarded(self.norm1.forwarded(xs), rope, kv_cache, mask),
        );
        let ys = binary_of(BinaryOp::Add, xs, attn);
        let cross = self.cross_attn.forwarded(self.norm_cross.forwarded(ys), ca_src);
        let zs = binary_of(BinaryOp::Add, ys, cross);
        let ff = scaled(self.layer_scale_2, self.mlp.forwarded(self.norm2.forwarded(zs)));
        binary_of(BinaryOp::Add, zs, ff)
    }

    pub fn load(vb: &Weights, cfg: &Config) -> (r: Result<Layer, Error>)
        ensures
            r == Layer::loaded(*vb, *cfg),
    {
        if cfg.use_conv_block {
            return Err(Error::ConvBlock);
        }
        let self_attn = BatchedMultiheadAttention::load(vb, cfg)?;
        let mlp = Mlp::load(vb, cfg)?;
        let norm1 = Norm::load(&vb.pp("norm1"), cfg.d_model, cfg.norm)?;
        let norm2 = Norm::load(&vb.pp("norm2"), cfg.d_model, cfg.norm)?;
        let norm_cross = Norm::load(&vb.pp("norm_cross"), cfg.d_model, NormType::LayerNorm)?;
        let cross_attn = BatchedMultiheadCrossAttention::load(&vb.pp("cross_attention"), cfg)?;
        let layer_scale_1 = load_layer_scale(&vb.pp("layer_scale_1"), cfg)?;
        let layer_scale_2 = load_layer_scale(&vb.pp("layer_scale_2"), cfg)?;
        Ok(
            Layer {
                self_attn,
                cross_attn,
                norm_cross,
                mlp,
                norm1,
                norm2,
                layer_scale_1,
                layer_scale_2,
            },
        )
    }

    pub fn forward(
        &self,
        xs: &Tensor,
        rope: &Option<Rope>,
        kv_cache: &KvCache,
        mask: &Tensor,
        ca_src: &CaSrc,
    ) -> (r: TensorResult)
        ensures
            r == self.forwarded(Ok(*xs), *rope, *kv_cache, *mask, *ca_src),
    {
        let norm1_out = self.norm1.forward(xs)?;
        let attn_out = self.self_attn.forward(&norm1_out, rope, kv_cache, mask)?;
        let attn_out = apply_scale(&self.layer_scale_1, attn_out)?;
        let xs = xs.add(&attn_out)?;

        let norm_cross_out = self.norm_cross.forward(&xs)?;
        let ca_out = self.cross_attn.forward(&norm_cross_out, ca_src)?;
        let xs = xs.add(&ca_out)?;

        let norm2_out = self.norm2.forward(&xs)?;
        let mlp_out = self.mlp.forward(&norm2_out)?;
        let mlp_out = apply_scale(&self.layer_scale_2, mlp_out)?;
        xs.add(&mlp_out)
    }
}

/// A streaming transformer that attends to a fixed source besides.
pub struct Transformer {
    pub layers: Vec<Layer>,
    pub rope: Option<RotaryEmbedding>,
    pub positional_embedding: PositionalEmbedding,
    pub num_kv: usize,
    pub head_dim: usize,
    pub context: usize,
}

#[verifier::ext_equal]
pub struct CaTransformerModel {
    pub layers: Seq<Layer>,
    pub rope: Option<RotaryEmbedding>,
    pub positional_embedding: PositionalEmbedding,
    pub num_kv: usize,
    pub head_dim: usize,
    pub context: usize,
}

impl View for Transformer {
    type V = CaTransformerModel;

    open spec fn view(&self) -> CaTransformerModel {
        CaTransformerModel {
            layers: self.layers@,
            rope: self.rope,
            positional_embedding: self.positional_embedding,
            num_kv: self.num_kv,
            head_dim: self.head_dim,
            context: self.context,
        }
    }
}

impl CaTransformerModel {
    /// The layers from `i` on, loaded after those in `acc`.
    pub open spec fn layers_loaded(vb: Weights, cfg: Config, i: int, acc: Seq<Layer>) -> Result<
        Seq<Layer>,
        Error,
    >
        decreases cfg.num_layers - i,
    {
        if i < 0 || i >= cfg.num_layers {
            Ok(acc)
        } else {
            match Layer::loaded(vb.nth(i), cfg) {
                Err(e) => Err(e),
                Ok(l) => CaTransformerModel::layers_loaded(vb, cfg, i + 1, acc.push(l)),
            }
        }
    }

    pub open spec fn loaded(vb: Weights, cfg: Config) -> Result<CaTransformerModel, Error> {
        match (
            unsupported(cfg),
            CaTransformerModel::layers_loaded(vb.at("layers"), cfg, 0, seq![]),
            rope_made(cfg),
        ) {
            (Some(e), _, _) => Err(e),
            (None, Err(e), _) => Err(e),
            (None, Ok(_), Err(e)) => Err(e),
            (None, Ok(layers), Ok(rope)) => Ok(
                CaTransformerModel {
                    layers,
                    rope,
                    positional_embedding: cfg.positional_embedding,
                    num_kv: cfg.num_heads / cfg.kv_repeat,
                    head_dim: cfg.d_model / cfg.num_heads,
                    context: cfg.context,
                },
            ),
        }
    }

    /// The keys and values of a source for the layers from `i` on, after those in `acc`.
    pub open spec fn cross_kv(self, ca_src: CaSrc, i: int, acc: Seq<(Tensor, Tensor)>) -> Result<
        Seq<(Tensor, Tensor)>,
        Error,
    >
        decreases self.layers.len() - i,
    {
        if i < 0 || i >= self.layers.len() {
            Ok(acc)
        } else {
            match self.layers[i].cross_attn.source_keys_values(ca_src) {
                Err(e) => Err(e),
                Ok(kv) => self.cross_kv(ca_src, i + 1, acc.push(kv)),
            }
        }
    }

    /// The output of the layers from `i` on.
    pub open spec fn layers_run(
        self,
        xs: TensorResult,
        rope: Option<Rope>,
        kv_caches: Seq<KvCache>,
        mask: Tensor,
        cross_kv: Seq<CaSrc>,
        i: int,
    ) -> TensorResult
        decreases self.layers.len() - i,
    {
        if i < 0 || i >= self.layers.len() || i >= kv_caches.len() {
            xs
        } else {
            match self.layers[i].forwarded(xs, rope, kv_caches[i], mask, cross_kv[i]) {
                Err(e) => Err(e),
                Ok(ys) => self.layers_run(Ok(ys), rope, kv_caches, mask, cross_kv, i + 1),
            }
        }
    }

    /// The state after a step of `xs`, and the output of the last layer.
    pub open spec fn forwarded(
        self,
        xs: Tensor,
        cross_kv: Seq<CaSrc>,
        state: StateModel,
        mask: Option<Seq<bool>>,
    ) -> (StateModel, TensorResult) {
        let (next, r) = begun(self.rope, self.positional_embedding, xs, state, mask);
        match r {
            Err(e) => (next, Err(e)),
            Ok((rope, iam)) => if cross_kv.len() != self.layers.len() {
                (
                    next,
                    Err(
                        Error::CrossKv {
                            got: cross_kv.len() as usize,
                            layers: self.layers.len() as usize,
                        },
                    ),
                )
            } else {
                (next, self.layers_run(Ok(xs), rope, state.kv_caches, iam, cross_kv, 0))
            },
        }
    }
}

/// Keys and values as sources of cross-attention.
pub open spec fn kv_sources(kvs: Seq<(Tensor, Tensor)>) -> Seq<CaSrc> {
    kvs.map_values(|kv: (Tensor, Tensor)| CaSrc::KeysValues(kv.0, kv.1))
}

impl Transformer {
    pub fn load(vb: &Weights, cfg: &Config) -> (r: Result<Transformer, Error>)
        ensures
            viewed(r) == CaTransformerModel::loaded(*vb, *cfg),
    {
        check_supported(cfg)?;
        let vb_layers = vb.pp("layers");
        let mut layers: Vec<Layer> = Vec::new();
        let mut i: usize = 0;
        while i < cfg.num_layers
            invariant
                i <= cfg.num_layers,
                vb_layers == vb.at("layers"),
                unsupported(*cfg) is None,
                CaTransformerModel::layers_loaded(vb_layers, *cfg, 0, seq![])
                    == CaTransformerModel::layers_loaded(vb_layers, *cfg, i as int, layers@),
            decreases cfg.num_layers - i,
        {
            let layer = Layer::load(&vb_layers.pi(i), cfg)?;
            layers.push(layer);
            i += 1;
        }
        let rope = make_rope(cfg)?;
        Ok(
            Transformer {
                layers,
                rope,
                positional_embedding: cfg.positional_embedding,
                num_kv: cfg.num_heads / cfg.kv_repeat,
                head_dim: cfg.d_model / cfg.num_heads,
                context: cfg.context,
            },
        )
    }

    pub fn init_state(&self, batch_size: usize) -> (r: Result<BatchedTransformerState, Error>)
        ensures
            viewed(r) == StateModel::fresh(
                batch_size,
                self@.num_kv,
                self@.context,
                self@.head_dim,
                self@.layers.len(),
            ),
    {
        BatchedTransformerState::new(
            batch_size,
            self.num_kv,
            self.context,
            self.head_dim,
            self.layers.len(),
        )
    }

    /// The keys and values of the source `xs`, for every layer.
    pub fn compute_cross_kv(&self, xs: &Tensor) -> (r: Result<Vec<(Tensor, Tensor)>, Error>)
        ensures
            viewed(r) == self@.cross_kv(CaSrc::Tokens(*xs), 0, seq![]),
    {
        let mut per_layer: Vec<(Tensor, Tensor)> = Vec::new();
        let mut i: usize = 0;
        while i < self.layers.len()
            invariant
                i <= self.layers.len(),
                self@.cross_kv(CaSrc::Tokens(*xs), 0, seq![]) == self@.cross_kv(
                    CaSrc::Tokens(*xs),
                    i as int,
                    per_layer@,
                ),
            decreases self.layers.len() - i,
        {
            let (k, v) = self.layers[i].cross_attn.compute_kv(xs)?;
            per_layer.push((k, v));
            i += 1;
        }
        Ok(per_layer)
    }

    /// The source `ca_src` with its keys and values worked out, for every layer.
    pub fn compute_cross_kv_ca_src(&self, ca_src: &CaSrc) -> (r: Result<Vec<CaSrc>, Error>)
        ensures
            match (r, self@.cross_kv(*ca_src, 0, seq![])) {
                (Ok(v), Ok(kvs)) => v@ == kv_sources(kvs),
                (Err(a), Err(b)) => a == b,
                _ => false,
            },
    {
        let mut per_layer: Vec<CaSrc> = Vec::new();
        let ghost mut kvs: Seq<(Tensor, Tensor)> = seq![];
        let mut i: usize = 0;
        while i < self.layers.len()
            invariant
                i <= self.layers.len(),
                per_layer@ =~= kv_sources(kvs),
                self@.cross_kv(*ca_src, 0, seq![]) == self@.cross_kv(*ca_src, i as int, kvs),
            decreases self.layers.len() - i,
        {
            let (k, v) = self.layers[i].cross_attn.compute_kv_ca_src(ca_src)?;
            proof {
                kvs = kvs.push((k, v));
            }
            per_layer.push(CaSrc::KeysValues(k, v));
            i += 1;
        }
        Ok(per_layer)
    }

    /// Takes in the next steps of every lane. There is one source for each layer.
    pub fn forward(
        &self,
        xs: &Tensor,
        cross_kv: &[CaSrc],
        state: &mut BatchedTransformerState,
        mask: &StreamMask,
    ) -> (r: TensorResult)
        ensures
            (final(state)@, r) == self@.forwarded(*xs, cross_kv@, old(state)@, flags(*mask)),
    {
        let (rope, iam) = begin(&self.rope, self.positional_embedding, xs, state, mask)?;
        if cross_kv.len() != self.layers.len() {
            return Err(Error::CrossKv { got: cross_kv.len(), layers: self.layers.len() });
        }
        let ghost before = old(state)@;
        let ghost next = state@;
        let mut cur = xs.clone();
        let mut i: usize = 0;
        while i < self.layers.len() && i < state.kv_caches.len()
            invariant
                i <= self.layers.len(),
                cross_kv.len() == self.layers.len(),
                before == old(state)@,
                state@ == next,
                state@.kv_caches == before.kv_caches,
                begun(self@.rope, self@.positional_embedding, *xs, before, flags(*mask)) == (
                    next,
                    Ok::<(Option<Rope>, Tensor), Error>((rope, iam)),
                ),
                self@.layers_run(Ok(*xs), rope, before.kv_caches, iam, cross_kv@, 0)
                    == self@.layers_run(
                    Ok(cur),
                    rope,
                    before.kv_caches,
                    iam,
                    cross_kv@,
                    i as int,
                ),
            decreases self.layers.len() - i,
        {
            cur = self.layers[i].forward(&cur, &rope, &state.kv_caches[i], &iam, &cross_kv[i])?;
            i += 1;
        }
        Ok(cur)
    }
}

proof fn lemma_layers_keep_the_shape(
    model: CaTransformerModel,
    xs: Tensor,
    rope: Option<Rope>,
    kv_caches: Seq<KvCache>,
    mask: Tensor,
    cross_kv: Seq<CaSrc>,
    i: int,
    ys: Tensor,
)
    requires
        model.layers_run(Ok(xs), rope, kv_caches, mask, cross_kv, i) == Ok::<Tensor, Error>(ys),
    ensures
        ys.shape_of() == xs.shape_of(),
    decreases model.layers.len() - i,
{
    if 0 <= i < model.layers.len() && i < kv_caches.len() {
        let zs = model.layers[i].forwarded(Ok(xs), rope, kv_caches[i], mask, cross_kv[i])->Ok_0;
        lemma_layers_keep_the_shape(model, zs, rope, kv_caches, mask, cross_kv, i + 1, ys);
    }
}

/// A step keeps the shape of what it is fed.
pub proof fn ca_step_keeps_the_shape(
    model: CaTransformerModel,
    xs: Tensor,
    cross_kv: Seq<CaSrc>,
    state: StateModel,
    mask: Option<Seq<bool>>,
    ys: Tensor,
)
    requires
        model.forwarded(xs, cross_kv, state, mask).1 == Ok::<Tensor, Error>(ys),
    ensures
        ys.shape_of() == xs.shape_of(),
{
    let (next, r) = begun(model.rope, model.positional_embedding, xs, state, mask);
    let (rope, iam) = r->Ok_0;
    lemma_layers_keep_the_shape(model, xs, rope, state.kv_caches, iam, cross_kv, 0, ys);
}

proof fn lemma_cross_kv(
    model: CaTransformerModel,
    ca_src: CaSrc,
    from: int,
    acc: Seq<(Tensor, Tensor)>,
    kvs: Seq<(Tensor, Tensor)>,
)
    requires
        0 <= from <= model.layers.len(),
        acc.len() == from,
        forall|i: int|
            0 <= i < from ==> model.layers[i].cross_attn.source_keys_values(ca_src) == Ok::<
                (Tensor, Tensor),
                Error,
            >(#[trigger] acc[i]),
        model.cross_kv(ca_src, from, acc) == Ok::<Seq<(Tensor, Tensor)>, Error>(kvs),
    ensures
        kvs.len() == model.layers.len(),
        forall|i: int|
            0 <= i < kvs.len() ==> model.layers[i].cross_attn.source_keys_values(ca_src) == Ok::<
                (Tensor, Tensor),
                Error,
            >(#[trigger] kvs[i]),
    decreases model.layers.len() - from,
{
    if from < model.layers.len() {
        let kv = model.layers[from].cross_attn.source_keys_values(ca_src)->Ok_0;
        lemma_cross_kv(model, ca_src, from + 1, acc.push(kv), kvs);
    }
}

proof fn lemma_sources_run_alike(
    model: CaTransformerModel,
    xs: TensorResult,
    rope: Option<Rope>,
    kv_caches: Seq<KvCache>,
    mask: Tensor,
    a: Seq<CaSrc>,
    b: Seq<CaSrc>,
    i: int,
)
    requires
        0 <= i,
        a.len() == model.layers.len(),
        b.len() == model.layers.len(),
        forall|j: int|
            0 <= j < a.len() ==> model.layers[j].cross_attn.source_keys_values(#[trigger] a[j])
                == model.layers[j].cross_attn.source_keys_values(b[j]),
    ensures
        model.layers_run(xs, rope, kv_caches, mask, a, i) == model.layers_run(
            xs,
            rope,
            kv_caches,
            mask,
            b,
            i,
        ),
    decreases model.layers.len() - i,
{
    if i < model.layers.len() && i < kv_caches.len() {
        let attn = model.layers[i].cross_attn;
        assert(attn.source_keys_values(a[i]) == attn.source_keys_values(b[i]));
        let r = model.layers[i].forwarded(xs, rope, kv_caches[i], mask, a[i]);
        assert(r == model.layers[i].forwarded(xs, rope, kv_caches[i], mask, b[i]));
        if r is Ok {
            lemma_sources_run_alike(model, r, rope, kv_caches, mask, a, b, i + 1);
        }
    }
}

/// A step with the keys and values that were worked out beforehand is the step that reads the
/// source anew in every layer.
pub proof fn source_can_be_read_beforehand(
    model: CaTransformerModel,
    xs: Tensor,
    ca_src: CaSrc,
    kvs: Seq<(Tensor, Tensor)>,
    state: StateModel,
    mask: Option<Seq<bool>>,
)
    requires
        model.cross_kv(ca_src, 0, seq![]) == Ok::<Seq<(Tensor, Tensor)>, Error>(kvs),
    ensures
        model.forwarded(xs, kv_sources(kvs), state, mask) == model.forwarded(
            xs,
            Seq::new(model.layers.len(), |i: int| ca_src),
            state,
            mask,
        ),
{
    lemma_cross_kv(model, ca_src, 0, seq![], kvs);
    let a = kv_sources(kvs);
    let b = Seq::new(model.layers.len(), |i: int| ca_src);
    let (next, r) = begun(model.rope, model.positional_embedding, xs, state, mask);
    if let Ok((rope, iam)) = r {
        assert forall|j: int| 0 <= j < a.len() implies model.layers[j].cross_attn.source_keys_values(
            #[trigger] a[j],
        ) == model.layers[j].cross_attn.source_keys_values(b[j]) by {
            assert(a[j] == CaSrc::KeysValues(kvs[j].0, kvs[j].1));
        }
        lemma_sources_run_alike(model, Ok(xs), rope, state.kv_caches, iam, a, b, 0);
    }
}

} // verus!
