use xn_moshi::lm;
use xn_moshi::moshi::{Config, Gating, LayerIndices, SttDelayConfig};
use xn_moshi::seanet::Activation;
use xn_moshi::transformer::{default_false, default_true, PositionalEmbedding};
use xn_moshi::NormType;

fn moshi_config() -> Config {
    Config {
        card: 2048,
        n_q: 8,
        dep_q: 8,
        delays: vec![0, 1, 1],
        dim: 64,
        text_card: 4000,
        existing_text_padding_id: 3,
        num_heads: 4,
        num_layers: 6,
        hidden_scale: 4.125f64.to_bits(),
        causal: true,
        context: 375,
        max_period: 100_000f64.to_bits(),
        gating: Gating::Silu,
        extra_heads_num_heads: None,
        extra_heads_dim: None,
        extra_heads_from_layer: None,
        extra_heads_hidden_dim: None,
        extra_heads_mixer_affine: None,
        extra_heads_residual_blocks: None,
        conditioners: vec![],
        stt_delay: SttDelayConfig::default(),
    }
}

#[test]
fn layer_indices_to_vec() {
    assert_eq!(LayerIndices::Single(7).to_vec(), vec![7]);
    assert_eq!(LayerIndices::Multiple(vec![3, 1, 2]).to_vec(), vec![3, 1, 2]);
    assert_eq!(LayerIndices::Multiple(vec![]).to_vec(), Vec::<usize>::new());
}

#[test]
fn serde_defaults() {
    assert!(default_true());
    assert!(!default_false());
}

#[test]
fn stt_delay_default_is_empty() {
    let d = SttDelayConfig::default();
    assert_eq!(d.min_frames, None);
    assert_eq!(d.max_frames, None);
    assert_eq!(d.streaming_default_frames, None);
    assert_eq!(d.offline_default_frames, None);
}

#[test]
fn to_lm_config_without_extra_heads() {
    let c = moshi_config().to_lm_config(264);
    assert_eq!(c.audio_vocab_size, 2049);
    assert_eq!(c.text_in_vocab_size, 4001);
    assert_eq!(c.text_out_vocab_size, 4000);
    assert_eq!(c.audio_codebooks, 8);
    assert!(c.extra_heads.is_none());
    assert_eq!(c.transformer.d_model, 64);
    assert_eq!(c.transformer.dim_feedforward, 264);
    assert_eq!(c.transformer.norm, NormType::RmsNormF32);
    assert_eq!(c.transformer.gating, Some(Activation::Silu));
    assert_eq!(c.transformer.positional_embedding, PositionalEmbedding::Rope);
    assert_eq!(f64::from_bits(c.transformer.max_period), 100_000.0);
    assert!(c.transformer.norm_first && c.transformer.causal);
    assert!(!c.transformer.bias_ff && !c.transformer.bias_attn && !c.transformer.conv_layout);
    assert_eq!(c.transformer.kv_repeat, 1);
}

#[test]
fn to_lm_config_with_extra_heads() {
    let mut cfg = moshi_config();
    cfg.extra_heads_num_heads = Some(4);
    cfg.extra_heads_dim = Some(6);
    cfg.extra_heads_from_layer = Some(LayerIndices::Multiple(vec![1, 4]));
    cfg.extra_heads_residual_blocks = Some(2);
    let eh = cfg.to_lm_config(264).extra_heads.unwrap();
    assert_eq!(eh.num_heads, 4);
    assert_eq!(eh.dim, 6);
    assert_eq!(eh.from_layer, Some(vec![1, 4]));
    assert_eq!(eh.hidden_dim, None);
    assert!(eh.mixer_affine);
    assert_eq!(eh.residual_blocks, 2);
    cfg.extra_heads_num_heads = Some(0);
    assert!(cfg.to_lm_config(264).extra_heads.is_none());
}

#[test]
fn released_configs() {
    let a = lm::Config::asr_v0_1_1b();
    assert_eq!((a.transformer.d_model, a.transformer.num_heads, a.transformer.num_layers), (2048, 16, 16));
    assert_eq!((a.transformer.dim_feedforward, a.transformer.context), (8192, 750));
    assert_eq!((a.text_in_vocab_size, a.text_out_vocab_size, a.audio_codebooks), (48001, 48000, 8));
    let b = lm::Config::stt_2_6b();
    assert_eq!((b.transformer.d_model, b.transformer.num_heads, b.transformer.num_layers), (2048, 32, 48));
    assert_eq!((b.transformer.dim_feedforward, b.transformer.context), (8448, 375));
    assert_eq!((b.text_in_vocab_size, b.text_out_vocab_size, b.audio_codebooks), (4001, 4000, 32));
    let c = lm::Config::asr_300m_202501();
    assert_eq!((c.transformer.d_model, c.transformer.num_heads, c.transformer.num_layers), (1024, 8, 16));
    assert_eq!((c.transformer.dim_feedforward, c.transformer.context), (4096, 750));
    assert_eq!((c.audio_vocab_size, c.audio_codebooks), (2049, 32));
    assert_eq!(f64::from_bits(c.transformer.max_period), 100_000.0);
}

#[test]
fn activation_names() {
    assert_eq!(Activation::parse("ELU"), Some(Activation::Elu(1f32.to_bits())));
    assert_eq!(Activation::parse("elu"), Some(Activation::Elu(1f32.to_bits())));
    assert_eq!(Activation::parse("gelu"), Some(Activation::Gelu));
    assert_eq!(Activation::parse("relu"), Some(Activation::Relu));
    assert_eq!(Activation::parse("silu"), Some(Activation::Silu));
    assert_eq!(Activation::parse("tanh"), Some(Activation::Tanh));
    assert_eq!(Activation::parse("sigmoid"), Some(Activation::Sigmoid));
    assert_eq!(Activation::parse("swish"), None);
}
