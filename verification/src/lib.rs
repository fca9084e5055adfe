//! The models of the Moshi family: the convolutional codec, the residual quantizer, the streaming
//! transformers, the language model of the recognizer and the speech-to-speech model.
//!
//! A model is loaded from the listing of a checkpoint and run on tensors that describe how they are
//! computed. Which operations a step consists of, on which shapes, what is kept between steps and
//! what is refused is decided, and proved, here; the numbers are computed where a description is
//! evaluated.
//!
//! * [`shape`], [`tensor`], [`ops`], [`list`]: tensors and their shape rules.
//! * [`path`], [`checkpoint`], [`nn`]: weights and the layers that hold them.
//! * [`streaming`], [`kv_cache`]: the lanes of a batch and what they keep between steps.
//! * [`conv`], [`seanet`], [`quantization`]: the audio codec.
//! * [`transformer`], [`transformer_with_ca`], [`lm`], [`moshi`], [`sampling`]: the language model.
//! * [`asr`], [`s2s`]: recognition and speech to speech.
//! * [`timeline`], [`overlap`], [`stepwise`], [`decoding`], [`resets`], [`rates`], [`codes`],
//!   [`exact`], [`residual`], [`transcript`], [`session`], [`layouts`], [`feeding`]: what holds of
//!   the models as a whole and over many steps.
//! * [`value`]: what the elements of a described tensor are, in exact arithmetic.
//! * [`features`], [`layers`], [`attention`], [`cross`], [`language`], [`mixing`], [`speech`],
//!   [`samples`], [`codebooks`]: what the parts of the models compute, element by element.
//! * [`parts`]: which tensor of a checkpoint each part of a model is.
pub mod asr;
pub mod attention;
pub mod checkpoint;
pub mod codebooks;
pub mod codes;
pub mod conv;
pub mod cross;
pub mod decoding;
pub mod error;
pub mod exact;
pub mod features;
pub mod feeding;
pub mod kv_cache;
pub mod language;
pub mod layers;
pub mod layouts;
pub mod list;
pub mod lm;
pub mod mixing;
pub mod moshi;
pub mod nn;
pub mod ops;
pub mod overlap;
pub mod parts;
pub mod path;
pub mod quantization;
pub mod rates;
pub mod resets;
pub mod residual;
pub mod s2s;
pub mod samples;
pub mod sampling;
pub mod seanet;
pub mod session;
pub mod shape;
pub mod speech;
pub mod stepwise;
pub mod streaming;
pub mod tensor;
pub mod timeline;
pub mod transcript;
pub mod transformer;
pub mod transformer_with_ca;
pub mod value;

use vstd::prelude::*;

verus! {

/// Which normalization a transformer uses.
#[derive(Clone, Copy, PartialEq, Eq, Structural, Debug)]
pub enum NormType {
    /// RMS norm with eps = 1e-5.
    RmsNorm,
    /// RMS norm with eps = 1e-8.
    RmsNormF32,
    LayerNorm,
}

/// Turns text into tokens.
pub trait Tokenizer {
    fn encode(&self, text: &str) -> Vec<u32>;
}

} // verus!
