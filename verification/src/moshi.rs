//! Configuration files of the language models.
use crate::lm;
use crate::s2s::ConditionerConfig;
use crate::seanet::Activation;
use crate::tensor::DoubleBits;
use crate::transformer;
use crate::NormType;
use vstd::prelude::*;

verus! {

/// The gating of the feed-forward parts.
#[derive(Clone, Copy, PartialEq, Eq, Structural, Debug)]
pub enum Gating {
    Silu,
}

/// One or several layer indices, as a configuration may hold either.
#[derive(Clone, Debug)]
pub enum LayerIndices {
    Single(usize),
    Multiple(Vec<usize>),
}

impl LayerIndices {
    pub open spec fn indices(self) -> Seq<usize> {
        match self {
            LayerIndices::Single(l) => seq![l],
            LayerIndices::Multiple(ls) => ls@,
        }
    }

    /// The indices, in order.
    pub fn to_vec(&self) -> (r: Vec<usize>)
        ensures
            r@ == self.indices(),
    {
        match self {
            LayerIndices::Single(l) => vec![*l],
            LayerIndices::Multiple(ls) => copy_indices(ls),
        }
    }
}

pub(crate) fn copy_indices(ls: &Vec<usize>) -> (r: Vec<usize>)
    ensures
        r@ == ls@,
{
    let mut out: Vec<usize> = Vec::new();
    let mut i: usize = 0;
    while i < ls.len()
        invariant
            i <= ls.len(),
            out@ == ls@.take(i as int),
        decreases ls.len() - i,
    {
        out.push(ls[i]);
        i += 1;
        assert(out@ =~= ls@.take(i as int));
    }
    assert(ls@.take(i as int) =~= ls@);
    out
}

/// The delays, in frames, of a speech-to-text model.
#[derive(Clone, Copy, PartialEq, Eq, Structural, Debug)]
pub struct SttDelayConfig {
    pub min_frames: Option<u64>,
    pub max_frames: Option<u64>,
    pub streaming_default_frames: Option<u64>,
    pub offline_default_frames: Option<u64>,
}

impl Default for SttDelayConfig {
    fn default() -> (r: SttDelayConfig)
        ensures
            r == (SttDelayConfig {
                min_frames: None,
                max_frames: None,
                streaming_default_frames: None,
                offline_default_frames: None,
            }),
    {
        SttDelayConfig {
            min_frames: None,
            max_frames: None,
            streaming_default_frames: None,
            offline_default_frames: None,
        }
    }
}

/// What a configuration file says of a language model.
#[derive(Clone, Debug)]
pub struct Config {
    pub card: usize,
    pub n_q: usize,
    pub dep_q: usize,
    pub delays: Vec<usize>,
    pub dim: usize,
    pub text_card: usize,
    pub existing_text_padding_id: usize,
    pub num_heads: usize,
    pub num_layers: usize,
    pub hidden_scale: DoubleBits,
    pub causal: bool,
    pub context: usize,
    pub max_period: DoubleBits,
    pub gating: Gating,
    pub extra_heads_num_heads: Option<usize>,
    pub extra_heads_dim: Option<usize>,
    pub extra_heads_from_layer: Option<LayerIndices>,
    pub extra_heads_hidden_dim: Option<usize>,
    pub extra_heads_mixer_affine: Option<bool>,
    pub extra_heads_residual_blocks: Option<usize>,
    pub conditioners: Vec<ConditionerConfig>,
    pub stt_delay: SttDelayConfig,
}

pub open spec fn or_zero(n: Option<usize>) -> usize {
    match n {
        Some(n) => n,
        None => 0,
    }
}

fn unwrap_or_zero(n: Option<usize>) -> (r: usize)
    ensures
        r == or_zero(n),
{
    match n {
        Some(n) => n,
        None => 0,
    }
}

impl Config {
    /// The transformer, with feed-forward parts of width `dim_feedforward`.
    pub open spec fn transformer_config(self, dim_feedforward: usize) -> transformer::Config {
        transformer::Config {
            d_model: self.dim,
            num_heads: self.num_heads,
            num_layers: self.num_layers,
            causal: self.causal,
            norm_first: true,
            bias_ff: false,
            bias_attn: false,
            layer_scale: None,
            positional_embedding: transformer::PositionalEmbedding::Rope,
            use_conv_block: false,
            gating: Some(Activation::Silu),
            norm: NormType::RmsNormF32,
            context: self.context,
            max_period: self.max_period,
            kv_repeat: 1,
            dim_feedforward,
            conv_layout: false,
        }
    }

    /// The extra heads: none where the configuration asks for none.
    pub open spec fn extra_heads_config(self) -> Option<lm::ExtraHeadsModel> {
        let num_heads = or_zero(self.extra_heads_num_heads);
        if num_heads > 0 {
            Some(
                lm::ExtraHeadsModel {
                    num_heads,
                    dim: or_zero(self.extra_heads_dim),
                    from_layer: match self.extra_heads_from_layer {
                        Some(ls) => Some(ls.indices()),
                        None => None,
                    },
                    hidden_dim: self.extra_heads_hidden_dim,
                    mixer_affine: match self.extra_heads_mixer_affine {
                        Some(affine) => affine,
                        None => true,
                    },
                    residual_blocks: or_zero(self.extra_heads_residual_blocks),
                },
            )
        } else {
            None
        }
    }

    pub open spec fn lm_config(self, dim_feedforward: usize) -> lm::ConfigModel {
        lm::ConfigModel {
            transformer: self.transformer_config(dim_feedforward),
            text_in_vocab_size: (self.text_card + 1) as usize,
            text_out_vocab_size: self.text_card,
            audio_vocab_size: (self.card + 1) as usize,
            audio_codebooks: self.n_q,
            extra_heads: self.extra_heads_config(),
        }
    }

    /// The language model that this configuration describes. `dim_feedforward` is `dim` times
    /// `hidden_scale`, rounded down.
    pub fn to_lm_config(&self, dim_feedforward: usize) -> (r: lm::Config)
        requires
            self.card < usize::MAX,
            self.text_card < usize::MAX,
        ensures
            r@ == self.lm_config(dim_feedforward),
    {
        let num_heads: usize = unwrap_or_zero(self.extra_heads_num_heads);
        let extra_heads = if num_heads > 0 {
            let from_layer = match &self.extra_heads_from_layer {
                Some(ls) => Some(ls.to_vec()),
                None => None,
            };
            let mixer_affine = match self.extra_heads_mixer_affine {
                Some(affine) => affine,
                None => true,
            };
            Some(
                lm::ExtraHeadsConfig {
                    num_heads,
                    dim: unwrap_or_zero(self.extra_heads_dim),
                    from_layer,
                    hidden_dim: self.extra_heads_hidden_dim,
                    mixer_affine,
                    residual_blocks: unwrap_or_zero(self.extra_heads_residual_blocks),
                },
            )
        } else {
            None
        };
        let transformer = transformer::Config {
            d_model: self.dim,
            num_heads: self.num_heads,
            num_layers: self.num_layers,
            causal: self.causal,
            norm_first: true,
            bias_ff: false,
            bias_attn: false,
            layer_scale: None,
            positional_embedding: transformer::PositionalEmbedding::Rope,
            use_conv_block: false,
            gating: Some(Activation::Silu),
            norm: NormType::RmsNormF32,
            context: self.context,
            max_period: self.max_period,
            kv_repeat: 1,
            dim_feedforward,
            conv_layout: false,
        };
        lm::Config {
            transformer,
            text_in_vocab_size: self.text_card + 1,
            text_out_vocab_size: self.text_card,
            audio_vocab_size: self.card + 1,
            audio_codebooks: self.n_q,
            extra_heads,
        }
    }
}

} // verus!
