//! Which tensor of a checkpoint each part of a model is.
use crate::checkpoint::{Format, Weights};
use crate::conv::{
    norm_weight_of, ConvDownsample1d, ConvTrUpsample1d, PadMode, StreamableConv1d,
    StreamableConvTranspose1d,
};
use crate::error::Error;
use crate::lm::{
    mixer_norm_loaded, ExtraHeadModel, ExtraHeadsModel, ExtraHeadsPart, MixerModel,
    ResidualMLPBlock,
};
use crate::nn::{Embedding, LayerNorm, Linear};
use crate::quantization::{
    EuclideanCodebook, QuantizerModel, RvqModel, SplitModel, VectorQuantization,
};
use crate::s2s::{ModelParts, SliceModel};
use crate::seanet::Config as SeaNetConfig;
use crate::seanet::{
    norm_unless, residuals_loaded, BlockModel, DecoderLayerModel, DecoderModel, EncoderLayerModel,
    EncoderModel,
};
use crate::shape::Shape;
use crate::tensor::{LinearKind, Op, SingleBits, Tensor, EPS_1E5, EPS_1E8, ONE};
use crate::transformer::{
    layers_are_loaded_in_order, BatchedMultiheadAttention, BatchedTransformerLayer, Config,
    LayerScale, Mlp, Norm, PositionalEmbedding, ProjectedModel, TransformerModel,
};
use crate::NormType;
use crate::transformer_with_ca::{BatchedMultiheadCrossAttention, CaTransformerModel, Layer};
use vstd::arithmetic::power::pow;
use vstd::arithmetic::power2::pow2;
use vstd::prelude::*;

verus! {

/// Whether a tensor is the one that a checkpoint has under a name.
pub open spec fn stored(vb: Weights, name: &'static str, t: Tensor) -> bool {
    vb.lookup(name) matches Some(i) && t.0.op == Op::Weight(i)
}

/// Whether there is a tensor where one is wanted, and then the one under the name.
pub open spec fn stored_if(wanted: bool, vb: Weights, name: &'static str, t: Option<Tensor>) -> bool {
    match t {
        None => !wanted,
        Some(t) => wanted && stored(vb, name, t),
    }
}

/// Whether a linear map is the one under a prefix.
pub open spec fn map_stored(vb: Weights, l: Linear, bias: bool) -> bool {
    stored(vb, "weight", l.weight) && stored_if(bias, vb, "bias", l.bias)
}

/// Whether a tensor holds the elements of the one under a name in another shape.
pub open spec fn stored_reshaped(vb: Weights, name: &'static str, t: Tensor) -> bool {
    t.0.op matches Op::Reshape(x) && stored(vb, name, x)
}

/// Whether a norm is the one under a prefix.
pub open spec fn norm_stored(vb: Weights, norm: Norm, kind: NormType) -> bool {
    match norm {
        Norm::LayerNorm { weight, bias, eps } => {
            &&& kind == NormType::LayerNorm
            &&& eps == EPS_1E5
            &&& stored(vb, "bias", bias)
            &&& if vb.has("alpha") {
                stored_reshaped(vb, "alpha", weight)
            } else {
                stored(vb, "weight", weight)
            }
        },
        Norm::RmsNorm { alpha, eps } => {
            &&& stored_reshaped(vb, "alpha", alpha)
            &&& match kind {
                NormType::LayerNorm => false,
                NormType::RmsNorm => eps == EPS_1E5,
                NormType::RmsNormF32 => eps == EPS_1E8,
            }
        },
    }
}

/// A linear map, an embedding and a norm are what the checkpoint has under their names.
pub proof fn layers_of_features_are_loaded_by_name(
    vb: Weights,
    kind: LinearKind,
    from: usize,
    to: usize,
    bias: bool,
    norm_type: NormType,
    eps: SingleBits,
)
    ensures
        Linear::loaded(kind, vb, from, to, bias) matches Ok(l) ==> map_stored(vb, l, bias),
        Embedding::loaded(vb, from, to) matches Ok(e) ==> stored(vb, "weight", e.weight)
            && e.hidden_size == to,
        Norm::loaded(vb, from, norm_type) matches Ok(n) ==> norm_stored(vb, n, norm_type),
        LayerNorm::loaded(vb, from, eps) matches Ok(n) ==> stored(vb, "weight", n.weight)
            && stored(vb, "bias", n.bias) && n.eps == eps,
        LayerScale::loaded(vb, from) matches Ok(s) ==> stored(vb, "scale", s.scale),
{
}

/// The feed-forward part of a layer: two maps under their names, and where it is gated the first of
/// them to twice the width, under `gating`.
pub open spec fn feed_forward_stored(vb: Weights, mlp: Mlp, cfg: Config) -> bool {
    match mlp {
        Mlp::NoGating { linear1, linear2 } => {
            &&& cfg.gating is None
            &&& map_stored(vb.at("linear1"), linear1, cfg.bias_ff)
            &&& map_stored(vb.at("linear2"), linear2, cfg.bias_ff)
        },
        Mlp::Gating { linear_in, linear_out, activation } => {
            &&& cfg.gating == Some(activation)
            &&& map_stored(vb.at("gating").at("linear_in"), linear_in, cfg.bias_ff)
            &&& map_stored(vb.at("gating").at("linear_out"), linear_out, cfg.bias_ff)
        },
    }
}

/// The self-attention of a layer: the joint map of queries, keys and values, and the output map.
pub open spec fn self_attention_stored(
    vb: Weights,
    attn: BatchedMultiheadAttention,
    cfg: Config,
) -> bool {
    let vb = vb.at("self_attn");
    &&& stored(vb, "in_proj_weight", attn.in_proj.weight)
    &&& stored_if(cfg.bias_attn, vb, "in_proj_bias", attn.in_proj.bias)
    &&& map_stored(vb.at("out_proj"), attn.out_proj, cfg.bias_attn)
    &&& attn.num_heads == cfg.num_heads
    &&& attn.head_dim == cfg.d_model / cfg.num_heads
    &&& attn.context == cfg.context
}

/// The factors of a layer, where the configuration has any.
pub open spec fn scale_stored(vb: Weights, ls: Option<LayerScale>, cfg: Config) -> bool {
    match ls {
        None => cfg.layer_scale is None,
        Some(s) => cfg.layer_scale is Some && stored(vb, "scale", s.scale),
    }
}

/// The cross-attention of a layer: the map of queries, that of keys and values, and the output map.
/// Where one tensor stores the first two, the queries are its first rows.
pub open spec fn cross_attention_stored(
    vb: Weights,
    attn: BatchedMultiheadCrossAttention,
    cfg: Config,
) -> bool {
    &&& map_stored(vb.at("out_proj"), attn.out_proj, cfg.bias_attn)
    &&& attn.num_heads == cfg.num_heads
    &&& attn.head_dim == cfg.d_model / cfg.num_heads
    &&& if vb.has("in_proj_weight") {
        &&& attn.in_proj_q.weight.0.op matches Op::Narrow { xs, dim, start, .. }
        &&& stored(vb, "in_proj_weight", xs)
        &&& dim == 0 && start == 0
        &&& attn.in_proj_kv.weight.0.op matches Op::Narrow { xs, dim, start, .. }
        &&& stored(vb, "in_proj_weight", xs)
        &&& dim == 0 && start == cfg.d_model
        &&& (attn.in_proj_q.bias is Some) == cfg.bias_attn
        &&& (attn.in_proj_kv.bias is Some) == cfg.bias_attn
        &&& attn.in_proj_q.bias matches Some(b) ==> (b.0.op matches Op::Narrow { xs, start, .. }
            && stored(vb, "in_proj_bias", xs) && start == 0)
        &&& attn.in_proj_kv.bias matches Some(b) ==> (b.0.op matches Op::Narrow { xs, start, .. }
            && stored(vb, "in_proj_bias", xs) && start == cfg.d_model)
    } else {
        &&& stored(vb, "in_proj_weight_q", attn.in_proj_q.weight)
        &&& stored_if(cfg.bias_attn, vb, "in_proj_bias_q", attn.in_proj_q.bias)
        &&& stored(vb, "in_proj_weight_kv", attn.in_proj_kv.weight)
        &&& stored_if(cfg.bias_attn, vb, "in_proj_bias_kv", attn.in_proj_kv.bias)
    }
}

/// Every part of a transformer layer is what the checkpoint has under its name.
pub proof fn transformer_layers_are_loaded_by_name(vb: Weights, cfg: Config, layer: BatchedTransformerLayer)
    requires
        BatchedTransformerLayer::loaded(vb, cfg) == Ok::<BatchedTransformerLayer, Error>(layer),
    ensures
        self_attention_stored(vb, layer.self_attn, cfg),
        feed_forward_stored(vb, layer.mlp, cfg),
        norm_stored(vb.at("norm1"), layer.norm1, cfg.norm),
        norm_stored(vb.at("norm2"), layer.norm2, cfg.norm),
        scale_stored(vb.at("layer_scale_1"), layer.layer_scale_1, cfg),
        scale_stored(vb.at("layer_scale_2"), layer.layer_scale_2, cfg),
{
}

proof fn lemma_cross_attention_stored(
    vb: Weights,
    cfg: Config,
    attn: BatchedMultiheadCrossAttention,
)
    requires
        BatchedMultiheadCrossAttention::loaded(vb, cfg) == Ok::<
            BatchedMultiheadCrossAttention,
            Error,
        >(attn),
    ensures
        cross_attention_stored(vb, attn, cfg),
{
}

/// Every part of a layer with cross-attention is what the checkpoint has under its name; the norm
/// before the cross-attention is a layer norm.
#[verifier::rlimit(40)]
pub proof fn cross_attention_layers_are_loaded_by_name(vb: Weights, cfg: Config, layer: Layer)
    requires
        Layer::loaded(vb, cfg) == Ok::<Layer, Error>(layer),
    ensures
        self_attention_stored(vb, layer.self_attn, cfg),
        cross_attention_stored(vb.at("cross_attention"), layer.cross_attn, cfg),
        feed_forward_stored(vb, layer.mlp, cfg),
        norm_stored(vb.at("norm1"), layer.norm1, cfg.norm),
        norm_stored(vb.at("norm2"), layer.norm2, cfg.norm),
        norm_stored(vb.at("norm_cross"), layer.norm_cross, NormType::LayerNorm),
        scale_stored(vb.at("layer_scale_1"), layer.layer_scale_1, cfg),
        scale_stored(vb.at("layer_scale_2"), layer.layer_scale_2, cfg),
{
    lemma_cross_attention_stored(vb.at("cross_attention"), cfg, layer.cross_attn);
}

proof fn lemma_ca_layers(vb: Weights, cfg: Config, from: int, acc: Seq<Layer>, layers: Seq<Layer>)
    requires
        0 <= from <= cfg.num_layers,
        acc.len() == from,
        CaTransformerModel::layers_loaded(vb, cfg, from, acc) == Ok::<Seq<Layer>, Error>(layers),
    ensures
        layers.len() == cfg.num_layers,
        forall|i: int| 0 <= i < from ==> #[trigger] layers[i] == acc[i],
        forall|i: int|
            from <= i < cfg.num_layers ==> Layer::loaded(vb.nth(i), cfg) == Ok::<Layer, Error>(
                #[trigger] layers[i],
            ),
    decreases cfg.num_layers - from,
{
    if from < cfg.num_layers {
        let l = Layer::loaded(vb.nth(from), cfg)->Ok_0;
        lemma_ca_layers(vb, cfg, from + 1, acc.push(l), layers);
        assert(layers[from] == l);
        assert forall|i: int| 0 <= i < from implies #[trigger] layers[i] == acc[i] by {
            assert(acc.push(l)[i] == acc[i]);
        }
    }
}

/// The layers of a transformer with cross-attention are as many as configured, each from its own part
/// of the checkpoint.
pub proof fn cross_attention_layers_are_loaded_in_order(
    vb: Weights,
    cfg: Config,
    model: CaTransformerModel,
    i: int,
)
    requires
        CaTransformerModel::loaded(vb, cfg) == Ok::<CaTransformerModel, Error>(model),
        0 <= i < cfg.num_layers,
    ensures
        model.layers.len() == cfg.num_layers,
        Layer::loaded(vb.at("layers").nth(i), cfg) == Ok::<Layer, Error>(model.layers[i]),
        model.context == cfg.context,
        model.head_dim == cfg.d_model / cfg.num_heads,
{
    lemma_ca_layers(vb.at("layers"), cfg, 0, seq![], model.layers);
}

/// A transformer between projections has them where the widths differ, the first one under
/// `input_proj` and the second one under `output_proj`.
pub proof fn projections_are_loaded_by_name(
    vb: Weights,
    input_dim: usize,
    cfg: Config,
    model: ProjectedModel,
)
    requires
        ProjectedModel::loaded(vb, input_dim, cfg) == Ok::<ProjectedModel, Error>(model),
    ensures
        (model.input_proj is Some) == (input_dim != cfg.d_model),
        (model.output_proj is Some) == (input_dim != cfg.d_model),
        model.input_proj matches Some(l) ==> map_stored(vb.at("input_proj"), l, false),
        model.output_proj matches Some(l) ==> map_stored(vb.at("output_proj").nth(0), l, false),
        TransformerModel::loaded(vb.at("transformer"), cfg) == Ok::<TransformerModel, Error>(
            model.transformer,
        ),
        model.conv_layout == cfg.conv_layout,
{
}

/// The parts of a block of an extra head, and of the mixer of layers, are what the checkpoint has
/// under their names.
pub proof fn head_parts_are_loaded_by_name(
    vb: Weights,
    dim: usize,
    hidden: usize,
    n: usize,
    affine: bool,
)
    ensures
        ResidualMLPBlock::loaded(vb, dim, hidden) matches Ok(b) ==> {
            &&& stored(vb.at("norm"), "weight", b.norm.weight)
            &&& stored(vb.at("norm"), "bias", b.norm.bias)
            &&& b.norm.eps == EPS_1E5
            &&& map_stored(vb.at("mlp").nth(0), b.linear_in, false)
            &&& map_stored(vb.at("mlp").nth(2), b.linear_out, false)
        },
        MixerModel::loaded(vb, n, dim, affine) matches Ok(m) ==> {
            &&& stored(vb, "weights", m.weights)
            &&& map_stored(vb.at("scorer").nth(0), m.scorer_in, true)
            &&& map_stored(vb.at("scorer").nth(2), m.scorer_out, false)
        },
{
}

proof fn lemma_head_blocks(
    vb: Weights,
    d_model: usize,
    hidden: usize,
    n: usize,
    from: int,
    acc: Seq<ResidualMLPBlock>,
    blocks: Seq<ResidualMLPBlock>,
)
    requires
        0 <= from <= n,
        acc.len() == from,
        ExtraHeadModel::blocks_loaded(vb, d_model, hidden, n, from, acc) == Ok::<
            Seq<ResidualMLPBlock>,
            Error,
        >(blocks),
    ensures
        blocks.len() == n,
        forall|i: int| 0 <= i < from ==> #[trigger] blocks[i] == acc[i],
        forall|i: int|
            from <= i < n ==> ResidualMLPBlock::loaded(vb.nth(i), d_model, hidden) == Ok::<
                ResidualMLPBlock,
                Error,
            >(#[trigger] blocks[i]),
    decreases n - from,
{
    if from < n {
        let b = ResidualMLPBlock::loaded(vb.nth(from), d_model, hidden)->Ok_0;
        lemma_head_blocks(vb, d_model, hidden, n, from + 1, acc.push(b), blocks);
        assert(blocks[from] == b);
        assert forall|i: int| 0 <= i < from implies #[trigger] blocks[i] == acc[i] by {
            assert(acc.push(b)[i] == acc[i]);
        }
    }
}

/// An extra head is the map under its prefix, or as many blocks as configured, in order, and the map
/// after them.
pub proof fn extra_heads_are_loaded_by_name(
    vb: Weights,
    d_model: usize,
    cfg: ExtraHeadsModel,
    head: ExtraHeadModel,
    i: int,
)
    requires
        ExtraHeadModel::loaded(vb, d_model, cfg) == Ok::<ExtraHeadModel, Error>(head),
    ensures
        match head {
            ExtraHeadModel::Linear(l) => cfg.residual_blocks == 0 && map_stored(vb, l, false),
            ExtraHeadModel::Mlp { blocks, linear } => {
                &&& blocks.len() == cfg.residual_blocks
                &&& cfg.residual_blocks > 0
                &&& map_stored(vb.nth(cfg.residual_blocks as int), linear, false)
                &&& 0 <= i < blocks.len() ==> ResidualMLPBlock::loaded(
                    vb.nth(i),
                    d_model,
                    match cfg.hidden_dim {
                        Some(h) => h,
                        None => d_model,
                    },
                ) == Ok::<ResidualMLPBlock, Error>(blocks[i])
            },
        },
{
    if let ExtraHeadModel::Mlp { blocks, .. } = head {
        let hidden = match cfg.hidden_dim {
            Some(h) => h,
            None => d_model,
        };
        lemma_head_blocks(vb, d_model, hidden, cfg.residual_blocks, 0, seq![], blocks);
    }
}

/// A slice has its own transformer, embedding, maps and norm under their names; the first slice has
/// an embedding of text tokens and the others one of audio tokens, each with one token more than
/// configured.
pub proof fn slices_are_loaded_by_name(vb: Weights, cfg: crate::s2s::Config, i: int, slice: SliceModel)
    requires
        SliceModel::loaded(vb, cfg, i) == Ok::<SliceModel, Error>(slice),
    ensures
        map_stored(vb.at("linear_in"), slice.linear_in, false),
        map_stored(vb.at("linear_out"), slice.linear_out, false),
        norm_stored(vb.at("norm"), slice.norm, cfg.depformer.norm),
        stored(vb.at("emb"), "weight", slice.emb.embeddings.weight),
        match slice.emb.low_rank {
            None => cfg.depformer.low_rank_embeddings is None
                && slice.emb.embeddings.hidden_size == cfg.depformer.dim,
            Some(l) => map_stored(vb.at("emb").at("low_rank"), l, false)
                && cfg.depformer.low_rank_embeddings == Some(slice.emb.embeddings.hidden_size),
        },
        TransformerModel::loaded(vb.at("transformer"), cfg.slice_config()) == Ok::<
            TransformerModel,
            Error,
        >(slice.transformer),
{
}

#[verifier::rlimit(40)]
proof fn lemma_slices(
    vb: Weights,
    cfg: crate::s2s::Config,
    from: int,
    slices: Seq<SliceModel>,
    embs: Seq<Embedding>,
    all: Seq<SliceModel>,
    tables: Seq<Embedding>,
)
    requires
        0 <= from <= cfg.n_q(),
        slices.len() == from,
        embs.len() == from,
        ModelParts::slices_loaded(vb, cfg, from, slices, embs) == Ok::<
            (Seq<SliceModel>, Seq<Embedding>),
            Error,
        >((all, tables)),
    ensures
        all.len() == cfg.n_q(),
        tables.len() == cfg.n_q(),
        forall|i: int| 0 <= i < from ==> #[trigger] all[i] == slices[i],
        forall|i: int| 0 <= i < from ==> #[trigger] tables[i] == embs[i],
        forall|i: int|
            from <= i < cfg.n_q() ==> SliceModel::loaded(vb.at("depformer").nth(i), cfg, i) == Ok::<
                SliceModel,
                Error,
            >(#[trigger] all[i]),
        forall|i: int|
            from <= i < cfg.n_q() ==> stored(
                vb.at("emb").nth(i),
                "weight",
                (#[trigger] tables[i]).weight,
            ),
    decreases cfg.n_q() - from,
{
    if from < cfg.n_q() {
        let s = SliceModel::loaded(vb.at("depformer").nth(from), cfg, from)->Ok_0;
        let e = Embedding::loaded(
            vb.at("emb").nth(from),
            (cfg.audio_card + 1) as usize,
            cfg.transformer.d_model,
        )->Ok_0;
        lemma_slices(vb, cfg, from + 1, slices.push(s), embs.push(e), all, tables);
        assert(all[from] == s);
        assert(tables[from] == e);
        assert forall|i: int| 0 <= i < from implies #[trigger] all[i] == slices[i] by {
            assert(slices.push(s)[i] == slices[i]);
        }
        assert forall|i: int| 0 <= i < from implies #[trigger] tables[i] == embs[i] by {
            assert(embs.push(e)[i] == embs[i]);
        }
    }
}

/// Every part of a speech model is what the checkpoint has under its name: slice and audio embedding
/// `i` those of number `i`. The delay of codebook `i` is the one after that of the text and of the
/// codebooks before, or the last one where there are fewer.
#[verifier::rlimit(40)]
pub proof fn speech_models_are_loaded_by_name(
    vb: Weights,
    cfg: crate::s2s::Config,
    default_conditions: Option<Tensor>,
    model: ModelParts,
    i: int,
)
    requires
        ModelParts::loaded(vb, cfg, default_conditions) == Ok::<ModelParts, Error>(model),
        0 <= i < cfg.n_q(),
    ensures
        model.depformer.len() == cfg.n_q(),
        SliceModel::loaded(vb.at("depformer").nth(i), cfg, i) == Ok::<SliceModel, Error>(
            model.depformer[i],
        ),
        stored(vb.at("emb").nth(i), "weight", model.audio_embs[i].weight),
        stored(vb.at("text_emb"), "weight", model.text_emb.weight),
        map_stored(vb.at("text_linear"), model.text_linear, false),
        norm_stored(vb.at("out_norm"), model.out_norm, cfg.transformer.norm),
        CaTransformerModel::loaded(vb.at("transformer"), cfg.transformer) == Ok::<
            CaTransformerModel,
            Error,
        >(model.transformer),
        map_stored(
            vb.at("condition_provider.conditioners.speaker_wavs.output_proj"),
            model.speaker_wavs_output_proj,
            false,
        ),
        stored(
            vb,
            "condition_provider.conditioners.speaker_wavs.learnt_padding",
            model.speaker_wavs_learnt_padding,
        ),
        model.audio_card == cfg.audio_card,
        model.max_speakers == cfg.max_speakers,
        model.default_conditions == default_conditions,
        model.audio_delays.len() == cfg.n_q(),
        model.audio_delays[i] == if i + 1 < cfg.delays@.len() {
            cfg.delays@[i + 1]
        } else {
            cfg.delays@[cfg.delays@.len() - 1]
        },
{
    lemma_slices(vb, cfg, 0, seq![], seq![], model.depformer, model.audio_embs);
}

/// The projections of a quantizer, and its codebook, are what the checkpoint has under their names.
pub proof fn quantizers_are_loaded_by_name(
    vb: Weights,
    dim: usize,
    size: usize,
    inner: Option<usize>,
    vq: VectorQuantization,
)
    requires
        VectorQuantization::loaded(vb, dim, size, inner) == Ok::<VectorQuantization, Error>(vq),
    ensures
        ({
            let wanted = inner is Some && inner->0 != dim;
            &&& stored_if(wanted, vb.at("project_in"), "weight", vq.project_in)
            &&& stored_if(wanted, vb.at("project_out"), "weight", vq.project_out)
        }),
        EuclideanCodebook::loaded(
            vb.at("_codebook"),
            match inner {
                Some(d) => d,
                None => dim,
            },
            size,
        ) == Ok::<EuclideanCodebook, Error>(vq.codebook),
{
}

/// The projections of a residual quantizer are what the checkpoint has under their names, and so are
/// the two quantizers of a split one, the first of one codebook and the second of the others.
pub proof fn residual_quantizers_are_loaded_by_name(
    vb: Weights,
    dim: usize,
    input_dim: Option<usize>,
    output_dim: Option<usize>,
    n_q: usize,
    bins: usize,
    force: bool,
)
    ensures
        QuantizerModel::loaded(vb, dim, input_dim, output_dim, n_q, bins, force) matches Ok(m) ==> {
            &&& stored_if(
                force || (input_dim is Some && input_dim->0 != dim),
                vb.at("input_proj"),
                "weight",
                m.input_proj,
            )
            &&& stored_if(
                force || (output_dim is Some && output_dim->0 != dim),
                vb.at("output_proj"),
                "weight",
                m.output_proj,
            )
            &&& RvqModel::loaded(vb.at("vq"), n_q, dim, bins, None) == Ok::<RvqModel, Error>(m.vq)
        },
        SplitModel::loaded(vb, dim, input_dim, output_dim, n_q, bins) matches Ok(m) ==> {
            &&& m.n_q == n_q && n_q > 0
            &&& QuantizerModel::loaded(
                vb.at("rvq_first"),
                dim,
                input_dim,
                output_dim,
                1,
                bins,
                true,
            ) == Ok::<QuantizerModel, Error>(m.rvq_first)
            &&& QuantizerModel::loaded(
                vb.at("rvq_rest"),
                dim,
                input_dim,
                output_dim,
                (n_q - 1) as usize,
                bins,
                true,
            ) == Ok::<QuantizerModel, Error>(m.rvq_rest)
        },
{
}

/// A convolution has the weight and the bias of its prefix, and the geometry that it was asked to
/// have.
pub proof fn convolutions_are_loaded_by_name(
    vb: Weights,
    in_c: usize,
    out_c: usize,
    k_size: usize,
    stride: usize,
    dilation: usize,
    groups: usize,
    bias: bool,
    causal: bool,
    norm: Option<crate::conv::Norm>,
    pad_mode: PadMode,
)
    ensures
        StreamableConv1d::loaded(
            vb,
            in_c,
            out_c,
            k_size,
            stride,
            dilation,
            groups,
            bias,
            causal,
            norm,
            pad_mode,
        ) matches Ok(c) ==> {
            &&& norm_weight_of(vb.at("conv").at("conv"), norm, out_c, in_c / groups, k_size) == Ok::<
                Tensor,
                Error,
            >(c.conv.weight)
            &&& stored_if(bias, vb.at("conv").at("conv"), "bias", c.conv.bias)
            &&& c.conv.stride == stride
            &&& c.conv.dilation == dilation
            &&& c.conv.groups == groups
            &&& c.causal == causal
            &&& c.pad_mode == pad_mode
            &&& c.kernel_size == k_size
        },
        StreamableConvTranspose1d::loaded(
            vb,
            in_c,
            out_c,
            k_size,
            stride,
            groups,
            bias,
            causal,
            norm,
        ) matches Ok(c) ==> {
            &&& norm_weight_of(vb.at("convtr").at("convtr"), norm, in_c, out_c / groups, k_size)
                == Ok::<Tensor, Error>(c.convtr.weight)
            &&& stored_if(bias, vb.at("convtr").at("convtr"), "bias", c.convtr.bias)
            &&& c.convtr.stride == stride
            &&& c.convtr.groups == groups
            &&& c.convtr.k_size == k_size
            &&& c.causal == causal
            &&& c.kernel_size == k_size
        },
{
}

/// Whether a convolution with a bias is the one under a prefix, of the geometry given.
pub open spec fn conv_stored(
    vb: Weights,
    c: StreamableConv1d,
    channels: (usize, usize),
    taps: usize,
    stride: usize,
    dilation: usize,
    causal: bool,
    norm: Option<crate::conv::Norm>,
    pad_mode: PadMode,
) -> bool {
    let vb = vb.at("conv").at("conv");
    &&& norm_weight_of(vb, norm, channels.1, channels.0, taps) == Ok::<Tensor, Error>(c.conv.weight)
    &&& stored_if(true, vb, "bias", c.conv.bias)
    &&& c.conv.stride == stride
    &&& c.conv.dilation == dilation
    &&& c.conv.groups == 1
    &&& c.kernel_size == taps
    &&& c.causal == causal
    &&& c.pad_mode == pad_mode
}

proof fn lemma_conv_stored(
    vb: Weights,
    in_c: usize,
    out_c: usize,
    k_size: usize,
    stride: usize,
    dilation: usize,
    causal: bool,
    norm: Option<crate::conv::Norm>,
    pad_mode: PadMode,
    c: StreamableConv1d,
)
    requires
        StreamableConv1d::loaded(
            vb,
            in_c,
            out_c,
            k_size,
            stride,
            dilation,
            1,
            true,
            causal,
            norm,
            pad_mode,
        ) == Ok::<StreamableConv1d, Error>(c),
    ensures
        conv_stored(vb, c, (in_c, out_c), k_size, stride, dilation, causal, norm, pad_mode),
{
    assert(in_c / 1 == in_c);
}

proof fn lemma_block_convs(
    vb: Weights,
    dim: usize,
    hidden: usize,
    kd: Seq<(usize, usize)>,
    norm: Option<crate::conv::Norm>,
    causal: bool,
    pad_mode: PadMode,
    i: int,
    acc: Seq<StreamableConv1d>,
    block: Seq<StreamableConv1d>,
)
    requires
        0 <= i <= kd.len(),
        acc.len() == i,
        BlockModel::convs_loaded(vb, dim, hidden, kd, norm, causal, pad_mode, i, acc) == Ok::<
            Seq<StreamableConv1d>,
            Error,
        >(block),
    ensures
        block.len() == kd.len(),
        forall|j: int| 0 <= j < i ==> #[trigger] block[j] == acc[j],
        forall|j: int| #![trigger block[j]]
            i <= j < kd.len() ==> conv_stored(
                vb.nth(2 * j + 1),
                block[j],
                (
                    if j == 0 {
                        dim
                    } else {
                        hidden
                    },
                    if j == kd.len() - 1 {
                        dim
                    } else {
                        hidden
                    },
                ),
                kd[j].0,
                1,
                kd[j].1,
                causal,
                norm,
                pad_mode,
            ),
    decreases kd.len() - i,
{
    if i < kd.len() {
        let in_c = if i == 0 {
            dim
        } else {
            hidden
        };
        let out_c = if i == kd.len() - 1 {
            dim
        } else {
            hidden
        };
        let c = StreamableConv1d::loaded(
            vb.nth(2 * i + 1),
            in_c,
            out_c,
            kd[i].0,
            1,
            kd[i].1,
            1,
            true,
            causal,
            norm,
            pad_mode,
        )->Ok_0;
        lemma_conv_stored(
            vb.nth(2 * i + 1),
            in_c,
            out_c,
            kd[i].0,
            1,
            kd[i].1,
            causal,
            norm,
            pad_mode,
            c,
        );
        lemma_block_convs(vb, dim, hidden, kd, norm, causal, pad_mode, i + 1, acc.push(c), block);
        assert(block[i] == c);
        assert forall|j: int| 0 <= j < i implies #[trigger] block[j] == acc[j] by {
            assert(acc.push(c)[j] == acc[j]);
        }
    }
}

/// The convolutions of a residual block stand at the odd places under `block`, between the
/// activations, and lead from the width of the block through the compressed one back to it; the
/// shortcut, where there is one, has a single tap.
pub open spec fn block_stored(
    vb: Weights,
    block: BlockModel,
    dim: usize,
    dilation: int,
    cfg: SeaNetConfig,
    norm: Option<crate::conv::Norm>,
) -> bool {
    &&& block.block.len() == 2
    &&& block.activation == cfg.activation
    &&& 0 <= dilation <= usize::MAX
    &&& conv_stored(
        vb.at("block").nth(1),
        block.block[0],
        (dim, dim / cfg.compress),
        cfg.residual_kernel_size,
        1,
        dilation as usize,
        cfg.causal,
        norm,
        cfg.pad_mode,
    )
    &&& conv_stored(
        vb.at("block").nth(3),
        block.block[1],
        (dim / cfg.compress, dim),
        1,
        1,
        1,
        cfg.causal,
        norm,
        cfg.pad_mode,
    )
    &&& match block.shortcut {
        None => cfg.true_skip,
        Some(c) => !cfg.true_skip && conv_stored(
            vb.at("shortcut"),
            c,
            (dim, dim),
            1,
            1,
            1,
            cfg.causal,
            norm,
            cfg.pad_mode,
        ),
    }
}

proof fn lemma_block_stored(
    vb: Weights,
    dim: usize,
    dilation: usize,
    cfg: SeaNetConfig,
    norm: Option<crate::conv::Norm>,
    block: BlockModel,
)
    requires
        BlockModel::loaded(
            vb,
            dim,
            seq![(cfg.residual_kernel_size, dilation), (1usize, 1usize)],
            cfg.activation,
            norm,
            cfg.causal,
            cfg.pad_mode,
            cfg.compress,
            cfg.true_skip,
        ) == Ok::<BlockModel, Error>(block),
    ensures
        block_stored(vb, block, dim, dilation as int, cfg, norm),
{
    let kd = seq![(cfg.residual_kernel_size, dilation), (1usize, 1usize)];
    lemma_block_convs(
        vb.at("block"),
        dim,
        dim / cfg.compress,
        kd,
        norm,
        cfg.causal,
        cfg.pad_mode,
        0,
        seq![],
        block.block,
    );
    assert(block.block[0] == block.block[0]);
    assert(block.block[1] == block.block[1]);
    if let Some(c) = block.shortcut {
        lemma_conv_stored(
            vb.at("shortcut"),
            dim,
            dim,
            1,
            1,
            1,
            cfg.causal,
            norm,
            cfg.pad_mode,
            c,
        );
    }
}

/// Whether residual blocks stand one after another from place `idx` on, block `j` dilated by the
/// `j`-th power of the base.
pub open spec fn blocks_stored(
    vb: Weights,
    blocks: Seq<BlockModel>,
    dim: usize,
    cfg: SeaNetConfig,
    norm: Option<crate::conv::Norm>,
    idx: int,
    from: int,
) -> bool {
    &&& blocks.len() == cfg.n_residual_layers
    &&& forall|j: int| #![trigger blocks[j]]
        from <= j < blocks.len() ==> block_stored(
            vb.nth(idx + j),
            blocks[j],
            dim,
            pow(cfg.dilation_base as int, j as nat),
            cfg,
            norm,
        )
}

proof fn lemma_blocks_stored(
    vb: Weights,
    dim: usize,
    cfg: SeaNetConfig,
    norm: Option<crate::conv::Norm>,
    j: int,
    first: int,
    idx: usize,
    acc: Seq<BlockModel>,
    blocks: Seq<BlockModel>,
    next: usize,
)
    requires
        0 <= j <= cfg.n_residual_layers,
        acc.len() == j,
        idx == first + j,
        residuals_loaded(vb, dim, cfg, norm, j, idx, acc) == Ok::<(Seq<BlockModel>, usize), Error>(
            (blocks, next),
        ),
    ensures
        next == first + cfg.n_residual_layers,
        forall|k: int| 0 <= k < j ==> #[trigger] blocks[k] == acc[k],
        blocks_stored(vb, blocks, dim, cfg, norm, first, j),
    decreases cfg.n_residual_layers - j,
{
    if j < cfg.n_residual_layers {
        let dilation = pow(cfg.dilation_base as int, j as nat) as usize;
        let b = BlockModel::loaded(
            vb.nth(idx as int),
            dim,
            seq![(cfg.residual_kernel_size, dilation), (1usize, 1usize)],
            cfg.activation,
            norm,
            cfg.causal,
            cfg.pad_mode,
            cfg.compress,
            cfg.true_skip,
        )->Ok_0;
        lemma_block_stored(vb.nth(idx as int), dim, dilation, cfg, norm, b);
        lemma_blocks_stored(
            vb,
            dim,
            cfg,
            norm,
            j + 1,
            first,
            (idx + 1) as usize,
            acc.push(b),
            blocks,
            next,
        );
        assert(blocks[j] == b);
        assert forall|k: int| 0 <= k < j implies #[trigger] blocks[k] == acc[k] by {
            assert(acc.push(b)[k] == acc[k]);
        }
        assert forall|k: int| #![trigger blocks[k]] j <= k < blocks.len() implies block_stored(
            vb.nth(first + k),
            blocks[k],
            dim,
            pow(cfg.dilation_base as int, k as nat),
            cfg,
            norm,
        ) by {}
    }
}

/// A stage of the encoder: residual blocks from place `idx` on, and past the activation a convolution
/// that takes one output for every `ratio` samples, with a kernel of twice that, and doubles the
/// channels.
pub proof fn encoder_stages_are_loaded_by_place(
    vb: Weights,
    cfg: SeaNetConfig,
    ratio: usize,
    width: usize,
    norm: Option<crate::conv::Norm>,
    idx: usize,
    layer: EncoderLayerModel,
    next: usize,
)
    requires
        EncoderLayerModel::loaded(vb, cfg, ratio, width, norm, idx) == Ok::<
            (EncoderLayerModel, usize),
            Error,
        >((layer, next)),
    ensures
        next == idx + cfg.n_residual_layers + 2,
        blocks_stored(vb, layer.residuals, width, cfg, norm, idx as int, 0),
        conv_stored(
            vb.nth(idx + cfg.n_residual_layers + 1),
            layer.downsample,
            (width, (2 * width) as usize),
            (2 * ratio) as usize,
            ratio,
            1,
            true,
            norm,
            cfg.pad_mode,
        ),
{
    let (blocks, at) = residuals_loaded(vb, width, cfg, norm, 0, idx, seq![])->Ok_0;
    lemma_blocks_stored(vb, width, cfg, norm, 0, idx as int, idx, seq![], blocks, at);
    lemma_conv_stored(
        vb.nth(at + 1),
        width,
        (width * 2) as usize,
        (ratio * 2) as usize,
        ratio,
        1,
        true,
        norm,
        cfg.pad_mode,
        layer.downsample,
    );
}

/// A stage of the decoder: past the activation at place `idx` a transposed convolution that gives
/// `ratio` samples for every input, with a kernel of twice that, and halves the channels, and then
/// residual blocks.
pub proof fn decoder_stages_are_loaded_by_place(
    vb: Weights,
    cfg: SeaNetConfig,
    ratio: usize,
    width: usize,
    norm: Option<crate::conv::Norm>,
    idx: usize,
    layer: DecoderLayerModel,
    next: usize,
)
    requires
        DecoderLayerModel::loaded(vb, cfg, ratio, width, norm, idx) == Ok::<
            (DecoderLayerModel, usize),
            Error,
        >((layer, next)),
    ensures
        next == idx + 2 + cfg.n_residual_layers,
        blocks_stored(vb, layer.residuals, (width / 2) as usize, cfg, norm, idx + 2, 0),
        ({
            let up = vb.nth(idx + 1).at("convtr").at("convtr");
            &&& norm_weight_of(up, norm, width, (width / 2) as usize, (2 * ratio) as usize) == Ok::<
                Tensor,
                Error,
            >(layer.upsample.convtr.weight)
            &&& stored_if(true, up, "bias", layer.upsample.convtr.bias)
            &&& layer.upsample.convtr.stride == ratio
            &&& layer.upsample.convtr.groups == 1
            &&& layer.upsample.convtr.k_size == 2 * ratio
            &&& layer.upsample.causal
        }),
{
    let narrow = (width / 2) as usize;
    assert(narrow / 1 == narrow);
    let (blocks, at) = residuals_loaded(vb, narrow, cfg, norm, 0, (idx + 2) as usize, seq![])->Ok_0;
    lemma_blocks_stored(
        vb,
        narrow,
        cfg,
        norm,
        0,
        idx + 2,
        (idx + 2) as usize,
        seq![],
        blocks,
        at,
    );
}

#[verifier::rlimit(40)]
proof fn lemma_encoder_stages(
    vb: Weights,
    cfg: SeaNetConfig,
    i: int,
    mult: usize,
    idx: usize,
    acc: Seq<EncoderLayerModel>,
    layers: Seq<EncoderLayerModel>,
    last_mult: usize,
    last: usize,
)
    requires
        0 <= i <= cfg.ratios@.len(),
        acc.len() == i,
        mult == pow2(i as nat),
        idx == 1 + i * (cfg.n_residual_layers + 2),
        EncoderModel::layers_loaded(vb, cfg, i, mult, idx, acc) == Ok::<
            (Seq<EncoderLayerModel>, usize, usize),
            Error,
        >((layers, last_mult, last)),
    ensures
        layers.len() == cfg.ratios@.len(),
        last_mult == pow2(cfg.ratios@.len()),
        last == 1 + cfg.ratios@.len() * (cfg.n_residual_layers + 2),
        forall|j: int| 0 <= j < i ==> #[trigger] layers[j] == acc[j],
        forall|j: int| #![trigger layers[j]]
            i <= j < layers.len() ==> encoder_stage_stored(vb, cfg, j, layers[j]),
    decreases cfg.ratios@.len() - i,
{
    let n = cfg.ratios@.len();
    if i < n {
        let norm = norm_unless(cfg.disable_norm_outer_blocks >= i + 2, cfg.norm);
        let width = (mult * cfg.n_filters) as usize;
        let (layer, next) = EncoderLayerModel::loaded(
            vb,
            cfg,
            cfg.ratios@[n - 1 - i],
            width,
            norm,
            idx,
        )->Ok_0;
        encoder_stages_are_loaded_by_place(
            vb,
            cfg,
            cfg.ratios@[n - 1 - i],
            width,
            norm,
            idx,
            layer,
            next,
        );
        vstd::arithmetic::power2::lemma_pow2_unfold((i + 1) as nat);
        let step = cfg.n_residual_layers + 2;
        assert(1 + (i + 1) * step == 1 + i * step + step) by (nonlinear_arith);
        assert(encoder_stage_stored(vb, cfg, i, layer));
        lemma_encoder_stages(
            vb,
            cfg,
            i + 1,
            (mult * 2) as usize,
            next,
            acc.push(layer),
            layers,
            last_mult,
            last,
        );
        assert(layers[i] == layer);
        assert forall|j: int| 0 <= j < i implies #[trigger] layers[j] == acc[j] by {
            assert(acc.push(layer)[j] == acc[j]);
        }
    }
}

/// Stage `i` of an encoder: it takes the ratios from the last to the first, has as many channels as
/// the stages before have doubled, and stands after the first convolution and the stages before.
pub open spec fn encoder_stage_stored(
    vb: Weights,
    cfg: SeaNetConfig,
    i: int,
    layer: EncoderLayerModel,
) -> bool {
    let norm = norm_unless(cfg.disable_norm_outer_blocks >= i + 2, cfg.norm);
    let width = pow2(i as nat) * cfg.n_filters;
    let idx = 1 + i * (cfg.n_residual_layers + 2);
    let ratio = cfg.ratios@[cfg.ratios@.len() - 1 - i];
    &&& width <= usize::MAX
    &&& blocks_stored(vb, layer.residuals, width as usize, cfg, norm, idx, 0)
    &&& conv_stored(
        vb.nth(idx + cfg.n_residual_layers + 1),
        layer.downsample,
        (width as usize, (2 * width) as usize),
        (2 * ratio) as usize,
        ratio,
        1,
        true,
        norm,
        cfg.pad_mode,
    )
}

/// Every part of an encoder stands at its place in the chain: the first convolution, the stages, and
/// past the activation the last convolution.
#[verifier::rlimit(40)]
pub proof fn encoders_are_loaded_by_place(vb: Weights, cfg: SeaNetConfig, model: EncoderModel, i: int)
    requires
        EncoderModel::loaded(vb, cfg) == Ok::<EncoderModel, Error>(model),
        0 <= i < cfg.ratios@.len(),
    ensures
        model.layers.len() == cfg.ratios@.len(),
        model.activation == cfg.activation,
        encoder_stage_stored(vb.at("model"), cfg, i, model.layers[i]),
        conv_stored(
            vb.at("model").nth(0),
            model.init_conv,
            (cfg.channels, cfg.n_filters),
            cfg.kernel_size,
            1,
            1,
            cfg.causal,
            norm_unless(cfg.disable_norm_outer_blocks >= 1, cfg.norm),
            cfg.pad_mode,
        ),
        conv_stored(
            vb.at("model").nth(2 + cfg.ratios@.len() * (cfg.n_residual_layers + 2)),
            model.final_conv,
            ((pow2(cfg.ratios@.len()) * cfg.n_filters) as usize, cfg.dimension),
            cfg.last_kernel_size,
            1,
            1,
            cfg.causal,
            norm_unless(cfg.disable_norm_outer_blocks >= 2 + cfg.ratios@.len(), cfg.norm),
            cfg.pad_mode,
        ),
{
    let vb = vb.at("model");
    let off = cfg.disable_norm_outer_blocks;
    let (layers, mult, idx) = EncoderModel::layers_loaded(vb, cfg, 0, 1, 1, seq![])->Ok_0;
    vstd::arithmetic::power2::lemma2_to64();
    let step = cfg.n_residual_layers + 2;
    assert(1 + 0 * step == 1);
    lemma_encoder_stages(vb, cfg, 0, 1, 1, seq![], layers, mult, idx);
    lemma_conv_stored(
        vb.nth(0),
        cfg.channels,
        cfg.n_filters,
        cfg.kernel_size,
        1,
        1,
        cfg.causal,
        norm_unless(off >= 1, cfg.norm),
        cfg.pad_mode,
        model.init_conv,
    );
    lemma_conv_stored(
        vb.nth(idx + 1),
        (mult * cfg.n_filters) as usize,
        cfg.dimension,
        cfg.last_kernel_size,
        1,
        1,
        cfg.causal,
        norm_unless(off >= 2 + cfg.ratios@.len(), cfg.norm),
        cfg.pad_mode,
        model.final_conv,
    );
}

#[verifier::rlimit(40)]
proof fn lemma_decoder_stages(
    vb: Weights,
    cfg: SeaNetConfig,
    i: int,
    mult: usize,
    idx: usize,
    acc: Seq<DecoderLayerModel>,
    layers: Seq<DecoderLayerModel>,
    last: usize,
)
    requires
        0 <= i <= cfg.ratios@.len(),
        acc.len() == i,
        mult == pow2((cfg.ratios@.len() - i) as nat),
        idx == 1 + i * (cfg.n_residual_layers + 2),
        DecoderModel::layers_loaded(vb, cfg, i, mult, idx, acc) == Ok::<
            (Seq<DecoderLayerModel>, usize),
            Error,
        >((layers, last)),
    ensures
        layers.len() == cfg.ratios@.len(),
        last == 1 + cfg.ratios@.len() * (cfg.n_residual_layers + 2),
        forall|j: int| 0 <= j < i ==> #[trigger] layers[j] == acc[j],
        forall|j: int| #![trigger layers[j]]
            i <= j < layers.len() ==> decoder_stage_stored(vb, cfg, j, layers[j]),
    decreases cfg.ratios@.len() - i,
{
    let n = cfg.ratios@.len();
    if i < n {
        let norm = norm_unless(cfg.disable_norm_outer_blocks + i + 1 >= 2 + n, cfg.norm);
        let width = (mult * cfg.n_filters) as usize;
        let (layer, next) = DecoderLayerModel::loaded(vb, cfg, cfg.ratios@[i], width, norm, idx)->Ok_0;
        decoder_stages_are_loaded_by_place(
            vb,
            cfg,
            cfg.ratios@[i],
            width,
            norm,
            idx,
            layer,
            next,
        );
        vstd::arithmetic::power2::lemma_pow2_unfold((n - i) as nat);
        let step = cfg.n_residual_layers + 2;
        assert(1 + (i + 1) * step == 1 + i * step + step) by (nonlinear_arith);
        assert(decoder_stage_stored(vb, cfg, i, layer));
        lemma_decoder_stages(
            vb,
            cfg,
            i + 1,
            (mult / 2) as usize,
            next,
            acc.push(layer),
            layers,
            last,
        );
        assert(layers[i] == layer);
        assert forall|j: int| 0 <= j < i implies #[trigger] layers[j] == acc[j] by {
            assert(acc.push(layer)[j] == acc[j]);
        }
    }
}

/// Stage `i` of a decoder: it takes the ratios from the first to the last, has as many channels as
/// the stages from it on will halve, and stands after the first convolution and the stages before.
pub open spec fn decoder_stage_stored(
    vb: Weights,
    cfg: SeaNetConfig,
    i: int,
    layer: DecoderLayerModel,
) -> bool {
    let n = cfg.ratios@.len();
    let norm = norm_unless(cfg.disable_norm_outer_blocks + i + 1 >= 2 + n, cfg.norm);
    let width = pow2((n - i) as nat) * cfg.n_filters;
    let idx = 1 + i * (cfg.n_residual_layers + 2);
    let ratio = cfg.ratios@[i];
    let up = vb.nth(idx + 1).at("convtr").at("convtr");
    &&& width <= usize::MAX
    &&& blocks_stored(vb, layer.residuals, (width as usize / 2) as usize, cfg, norm, idx + 2, 0)
    &&& norm_weight_of(
        up,
        norm,
        width as usize,
        (width as usize / 2) as usize,
        (2 * ratio) as usize,
    ) == Ok::<Tensor, Error>(layer.upsample.convtr.weight)
    &&& stored_if(true, up, "bias", layer.upsample.convtr.bias)
    &&& layer.upsample.convtr.stride == ratio
    &&& layer.upsample.convtr.groups == 1
    &&& layer.upsample.convtr.k_size == 2 * ratio
    &&& layer.upsample.causal
}

/// Every part of a decoder stands at its place in the chain: the first convolution, the stages, and
/// past the activation the last convolution.
#[verifier::rlimit(40)]
pub proof fn decoders_are_loaded_by_place(vb: Weights, cfg: SeaNetConfig, model: DecoderModel, i: int)
    requires
        DecoderModel::loaded(vb, cfg) == Ok::<DecoderModel, Error>(model),
        0 <= i < cfg.ratios@.len(),
    ensures
        model.layers.len() == cfg.ratios@.len(),
        model.activation == cfg.activation,
        model.final_activation == cfg.final_activation,
        decoder_stage_stored(vb.at("model"), cfg, i, model.layers[i]),
        conv_stored(
            vb.at("model").nth(0),
            model.init_conv,
            (cfg.dimension, (pow2(cfg.ratios@.len()) * cfg.n_filters) as usize),
            cfg.kernel_size,
            1,
            1,
            cfg.causal,
            norm_unless(cfg.disable_norm_outer_blocks == 2 + cfg.ratios@.len(), cfg.norm),
            cfg.pad_mode,
        ),
        conv_stored(
            vb.at("model").nth(2 + cfg.ratios@.len() * (cfg.n_residual_layers + 2)),
            model.final_conv,
            (cfg.n_filters, cfg.channels),
            cfg.last_kernel_size,
            1,
            1,
            cfg.causal,
            norm_unless(cfg.disable_norm_outer_blocks >= 1, cfg.norm),
            cfg.pad_mode,
        ),
{
    let vb = vb.at("model");
    let off = cfg.disable_norm_outer_blocks;
    let n = cfg.ratios@.len();
    let mult = pow2(n) as usize;
    let (layers, idx) = DecoderModel::layers_loaded(vb, cfg, 0, mult, 1, seq![])->Ok_0;
    let step = cfg.n_residual_layers + 2;
    assert(1 + 0 * step == 1);
    lemma_decoder_stages(vb, cfg, 0, mult, 1, seq![], layers, idx);
    lemma_conv_stored(
        vb.nth(0),
        cfg.dimension,
        (mult * cfg.n_filters) as usize,
        cfg.kernel_size,
        1,
        1,
        cfg.causal,
        norm_unless(off == 2 + n, cfg.norm),
        cfg.pad_mode,
        model.init_conv,
    );
    lemma_conv_stored(
        vb.nth(idx + 1),
        cfg.n_filters,
        cfg.channels,
        cfg.last_kernel_size,
        1,
        1,
        cfg.causal,
        norm_unless(off >= 1, cfg.norm),
        cfg.pad_mode,
        model.final_conv,
    );
}

/// The convolutions between the frame rates have kernels of twice their stride and no bias. The one
/// that lowers the rate mixes all channels and repeats the first sample before it; the one that
/// raises it keeps the channels apart.
pub proof fn rate_converters_are_loaded_by_name(vb: Weights, stride: usize, dim: usize, causal: bool)
    ensures
        ConvDownsample1d::loaded(vb, stride, dim, causal) matches Ok(d) ==> {
            &&& norm_weight_of(
                vb.at("conv").at("conv").at("conv"),
                None,
                dim,
                dim,
                (2 * stride) as usize,
            ) == Ok::<Tensor, Error>(d.conv.conv.weight)
            &&& d.conv.conv.bias is None
            &&& d.conv.conv.stride == stride
            &&& d.conv.conv.dilation == 1
            &&& d.conv.conv.groups == 1
            &&& d.conv.kernel_size == 2 * stride
            &&& d.conv.causal == causal
            &&& d.conv.pad_mode == PadMode::Replicate
        },
        ConvTrUpsample1d::loaded(vb, stride, dim, causal) matches Ok(u) ==> {
            &&& norm_weight_of(
                vb.at("convtr").at("convtr").at("convtr"),
                None,
                dim,
                1,
                (2 * stride) as usize,
            ) == Ok::<Tensor, Error>(u.convtr.convtr.weight)
            &&& u.convtr.convtr.bias is None
            &&& u.convtr.convtr.stride == stride
            &&& u.convtr.convtr.groups == dim
            &&& u.convtr.convtr.k_size == 2 * stride
            &&& u.convtr.kernel_size == 2 * stride
            &&& u.convtr.causal == causal
        },
{
    assert(dim / 1 == dim);
    if dim > 0 {
        assert(dim / dim == 1) by (nonlinear_arith)
            requires
                dim > 0,
        ;
    }
}

proof fn lemma_codebooks(
    vb: Weights,
    n_q: usize,
    dim: usize,
    size: usize,
    inner: Option<usize>,
    i: int,
    acc: Seq<VectorQuantization>,
    layers: Seq<VectorQuantization>,
)
    requires
        0 <= i <= n_q,
        acc.len() == i,
        RvqModel::layers_loaded(vb, n_q, dim, size, inner, i, acc) == Ok::<
            Seq<VectorQuantization>,
            Error,
        >(layers),
    ensures
        layers.len() == n_q,
        forall|j: int| 0 <= j < i ==> #[trigger] layers[j] == acc[j],
        forall|j: int| #![trigger layers[j]]
            i <= j < n_q ==> VectorQuantization::loaded(vb.nth(j), dim, size, inner) == Ok::<
                VectorQuantization,
                Error,
            >(layers[j]),
    decreases n_q - i,
{
    if i < n_q {
        let l = VectorQuantization::loaded(vb.nth(i), dim, size, inner)->Ok_0;
        lemma_codebooks(vb, n_q, dim, size, inner, i + 1, acc.push(l), layers);
        assert(layers[i] == l);
        assert forall|j: int| 0 <= j < i implies #[trigger] layers[j] == acc[j] by {
            assert(acc.push(l)[j] == acc[j]);
        }
    }
}

/// The quantizers of a row are as many as asked for, quantizer `i` the one of number `i`.
pub proof fn quantizers_are_loaded_in_order(
    vb: Weights,
    n_q: usize,
    dim: usize,
    size: usize,
    inner: Option<usize>,
    model: RvqModel,
    i: int,
)
    requires
        RvqModel::loaded(vb, n_q, dim, size, inner) == Ok::<RvqModel, Error>(model),
        0 <= i < n_q,
    ensures
        model.layers.len() == n_q,
        VectorQuantization::loaded(vb.at("layers").nth(i), dim, size, inner) == Ok::<
            VectorQuantization,
            Error,
        >(model.layers[i]),
{
    lemma_codebooks(vb.at("layers"), n_q, dim, size, inner, 0, seq![], model.layers);
}

/// A loaded transformer is rotary where its configuration says so, with half as many frequencies as
/// a head has features, and each of its layers is the one of its number.
pub proof fn transformers_are_loaded_by_name(vb: Weights, cfg: Config, model: TransformerModel, i: int)
    requires
        TransformerModel::loaded(vb, cfg) == Ok::<TransformerModel, Error>(model),
        0 <= i < cfg.num_layers,
    ensures
        cfg.causal && cfg.norm_first && cfg.kv_repeat == 1,
        model.layers.len() == cfg.num_layers,
        BatchedTransformerLayer::loaded(vb.at("layers").nth(i), cfg) == Ok::<
            BatchedTransformerLayer,
            Error,
        >(model.layers[i]),
        (model.rope is Some) == (cfg.positional_embedding == PositionalEmbedding::Rope),
        model.rope matches Some(r) ==> r.inv_freq.0.op == Op::InvFreq(cfg.max_period)
            && r.inv_freq.shape_of() == Shape::D3(1, 1, cfg.d_model / cfg.num_heads / 2),
        model.head_dim == cfg.d_model / cfg.num_heads,
        model.num_kv == cfg.num_heads,
        model.context == cfg.context,
{
    layers_are_loaded_in_order(vb.at("layers"), cfg, 0, seq![], model.layers);
    assert(cfg.num_heads / 1 == cfg.num_heads);
}

proof fn lemma_mixer_norms(
    vb: Weights,
    n: usize,
    dim: usize,
    affine: bool,
    i: int,
    acc: Seq<LayerNorm>,
    norms: Seq<LayerNorm>,
)
    requires
        0 <= i <= n,
        acc.len() == i,
        MixerModel::norms_loaded(vb, n, dim, affine, i, acc) == Ok::<Seq<LayerNorm>, Error>(norms),
    ensures
        norms.len() == n,
        forall|j: int| 0 <= j < i ==> #[trigger] norms[j] == acc[j],
        forall|j: int| #![trigger norms[j]] i <= j < n ==> mixer_norm_stored(vb, j, affine, norms[j]),
    decreases n - i,
{
    if i < n {
        let norm = mixer_norm_loaded(vb, i, dim, affine)->Ok_0;
        assert(mixer_norm_stored(vb, i, affine, norm));
        lemma_mixer_norms(vb, n, dim, affine, i + 1, acc.push(norm), norms);
        assert(norms[i] == norm);
        assert forall|j: int| 0 <= j < i implies #[trigger] norms[j] == acc[j] by {
            assert(acc.push(norm)[j] == acc[j]);
        }
    }
}

/// A norm of the mixer: the one of its number where norms are learnt, and else ones and zeros.
pub open spec fn mixer_norm_stored(vb: Weights, i: int, affine: bool, norm: LayerNorm) -> bool {
    &&& norm.eps == EPS_1E5
    &&& if affine {
        stored(vb.at("norms").nth(i), "weight", norm.weight) && stored(
            vb.at("norms").nth(i),
            "bias",
            norm.bias,
        )
    } else {
        norm.weight.0.op == Op::Full(ONE) && norm.bias.0.op == Op::Zeros
    }
}

/// The mixer has a norm for each layer that it mixes, in order.
pub proof fn mixer_norms_are_loaded_in_order(
    vb: Weights,
    n: usize,
    dim: usize,
    affine: bool,
    mixer: MixerModel,
    i: int,
)
    requires
        MixerModel::loaded(vb, n, dim, affine) == Ok::<MixerModel, Error>(mixer),
        0 <= i < n,
    ensures
        mixer.norms.len() == n,
        mixer_norm_stored(vb, i, affine, mixer.norms[i]),
{
    lemma_mixer_norms(vb, n, dim, affine, 0, seq![], mixer.norms);
}

proof fn lemma_heads(
    vb: Weights,
    d_model: usize,
    cfg: ExtraHeadsModel,
    i: int,
    acc: Seq<ExtraHeadModel>,
    heads: Seq<ExtraHeadModel>,
)
    requires
        0 <= i <= cfg.num_heads,
        acc.len() == i,
        ExtraHeadsPart::heads_loaded(vb, d_model, cfg, i, acc) == Ok::<Seq<ExtraHeadModel>, Error>(
            heads,
        ),
    ensures
        heads.len() == cfg.num_heads,
        forall|j: int| 0 <= j < i ==> #[trigger] heads[j] == acc[j],
        forall|j: int| #![trigger heads[j]]
            i <= j < cfg.num_heads ==> ExtraHeadModel::loaded(vb.nth(j), d_model, cfg) == Ok::<
                ExtraHeadModel,
                Error,
            >(heads[j]),
    decreases cfg.num_heads - i,
{
    if i < cfg.num_heads {
        let h = ExtraHeadModel::loaded(vb.nth(i), d_model, cfg)->Ok_0;
        lemma_heads(vb, d_model, cfg, i + 1, acc.push(h), heads);
        assert(heads[i] == h);
        assert forall|j: int| 0 <= j < i implies #[trigger] heads[j] == acc[j] by {
            assert(acc.push(h)[j] == acc[j]);
        }
    }
}

/// A language model has as many extra heads as configured, head `i` the one of number `i`, and a
/// mixer exactly where they read several layers.
pub proof fn extra_heads_are_loaded_in_order(
    vb: Weights,
    d_model: usize,
    num_layers: usize,
    cfg: Option<ExtraHeadsModel>,
    part: ExtraHeadsPart,
    i: int,
)
    requires
        ExtraHeadsPart::loaded(vb, d_model, num_layers, cfg) == Ok::<ExtraHeadsPart, Error>(part),
        cfg matches Some(c) ==> 0 <= i < c.num_heads,
    ensures
        cfg is None ==> part.heads.len() == 0 && part.mixer is None && part.from_layer is None,
        cfg matches Some(c) ==> {
            &&& part.heads.len() == c.num_heads
            &&& ExtraHeadModel::loaded(vb.at("extra_heads").nth(i), d_model, c) == Ok::<
                ExtraHeadModel,
                Error,
            >(part.heads[i])
            &&& part.from_layer == c.from_layer
            &&& (part.mixer is Some) == (c.from_layer is Some && c.from_layer->0.len() > 1)
            &&& part.mixer matches Some(m) ==> MixerModel::loaded(
                vb.at("extra_heads_mixer"),
                c.from_layer->0.len() as usize,
                d_model,
                c.mixer_affine,
            ) == Ok::<MixerModel, Error>(m)
        },
{
    if let Some(c) = cfg {
        lemma_heads(vb.at("extra_heads"), d_model, c, 0, seq![], part.heads);
    }
}

/// From a checkpoint that keeps to the shapes asked for, the maps of a feed-forward part lead from the
/// width of the layer to the feed-forward width and back. Where it is gated they lead to twice eleven
/// quarters of the width and back from the eleven quarters, if the feed-forward width is four times
/// the width, and else by two thirds of the feed-forward width.
pub proof fn feed_forward_widths(vb: Weights, cfg: Config, mlp: Mlp)
    requires
        vb.checkpoint.format == Format::Safetensors,
        Mlp::loaded(vb, cfg) == Ok::<Mlp, Error>(mlp),
    ensures
        match mlp {
            Mlp::NoGating { linear1, linear2 } => {
                &&& linear1.weight.shape_of() == Shape::D2(cfg.dim_feedforward, cfg.d_model)
                &&& linear2.weight.shape_of() == Shape::D2(cfg.d_model, cfg.dim_feedforward)
            },
            Mlp::Gating { linear_in, linear_out, .. } => {
                let hidden = if cfg.dim_feedforward == 4 * cfg.d_model {
                    11 * cfg.d_model / 4
                } else {
                    2 * cfg.dim_feedforward / 3
                };
                &&& linear_in.weight.shape_of() == Shape::D2((2 * hidden) as usize, cfg.d_model)
                &&& linear_out.weight.shape_of() == Shape::D2(cfg.d_model, hidden as usize)
            },
        },
{
}

/// From a checkpoint that keeps to the shapes asked for, a self-attention maps its features to
/// queries, keys and values of as many features as its heads have together.
pub proof fn self_attention_widths(vb: Weights, cfg: Config, attn: BatchedMultiheadAttention)
    requires
        vb.checkpoint.format == Format::Safetensors,
        cfg.kv_repeat == 1,
        BatchedMultiheadAttention::loaded(vb, cfg) == Ok::<BatchedMultiheadAttention, Error>(attn),
    ensures
        attn.in_proj.weight.shape_of() == Shape::D2(
            (cfg.d_model + 2 * (cfg.num_heads * (cfg.d_model / cfg.num_heads))) as usize,
            cfg.d_model,
        ),
        attn.out_proj.weight.shape_of() == Shape::D2(cfg.d_model, cfg.d_model),
{
    assert(cfg.num_heads / 1 == cfg.num_heads);
}

/// From a checkpoint that keeps to the shapes asked for, the scorer of a mixer has a thirty-second of
/// the width between its maps, and thirty-two features at least.
pub proof fn scorer_widths(vb: Weights, n: usize, dim: usize, affine: bool, mixer: MixerModel)
    requires
        vb.checkpoint.format == Format::Safetensors,
        MixerModel::loaded(vb, n, dim, affine) == Ok::<MixerModel, Error>(mixer),
    ensures
        ({
            let hidden = if dim >= 1024 {
                dim / 32
            } else {
                32
            };
            &&& mixer.scorer_in.weight.shape_of() == Shape::D2(hidden, dim)
            &&& mixer.scorer_out.weight.shape_of() == Shape::D2(1, hidden)
            &&& mixer.weights.shape_of() == Shape::D1(n)
        }),
{
}

} // verus!
