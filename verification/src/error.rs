use crate::path::Path;
use crate::shape::Shape;
use vstd::prelude::*;

verus! {

/// Everything that the library refuses, as plain data.
#[derive(Debug)]
pub enum Error {
    /// An element count, a dimension or a position does not fit in a machine word.
    TooLarge,
    /// Two operands of an element-wise operation have different shapes.
    ShapeMismatch { lhs: Shape, rhs: Shape },
    /// Two shapes cannot be broadcast together.
    Broadcast { lhs: Shape, rhs: Shape },
    /// A tensor does not have the number of dimensions that an operation takes.
    UnexpectedRank { expected: usize, shape: Shape },
    /// A dimension index is out of range.
    DimOutOfRange { shape: Shape, dim: usize },
    /// A slice reaches past the end of a dimension.
    NarrowOutOfBounds { shape: Shape, dim: usize, start: usize, len: usize },
    /// A reshape changes the number of elements.
    Reshape { from: Shape, to: Shape },
    /// A list of tensors to join is empty.
    EmptyList,
    /// The inner or batch dimensions of a matrix product disagree.
    Matmul { lhs: Shape, rhs: Shape },
    /// The channels, groups or bias of a convolution disagree with its kernel.
    ConvChannels { xs: Shape, kernel: Shape },
    /// The input of a convolution is too short for its kernel.
    ConvLength { xs: Shape, kernel: Shape },
    /// An operation needs a dimension that is not empty.
    EmptyDim { shape: Shape },
    /// The tables of a rotary embedding do not match its input.
    Rope { xs: Shape, table: Shape },
    /// A checkpoint has no tensor of that name.
    MissingTensor { path: Path, name: &'static str },
    /// A checkpoint tensor does not have the shape that the model needs.
    WeightShape { path: Path, name: &'static str, shape: Shape },
    /// A masked streaming state would vanish: steps under a mask must all have one length.
    VariableSteps,
    /// A convolution with no taps, no step or no groups, or with a window shorter than its step.
    ConvGeometry,
    /// Spectral normalization is not supported.
    SpectralNorm,
    /// Group normalization over time is not supported.
    TimeGroupNorm,
    /// Reflection padding is not supported.
    ReflectPadding,
    /// There is less to remove padding from than there is padding.
    Unpad { len: usize, left: usize, right: usize },
    /// The kernel of a streaming convolution is smaller than its stride.
    KernelBelowStride { k_size: usize, stride: usize },
    /// A residual block has a shortcut and its state has none.
    ShortcutState,
    /// Recurrent layers in the encoder and decoder are not supported.
    SeaNetLstm,
    /// A mask has flags for another number of lanes than the batch has.
    MaskLanes { lanes: usize, batch: usize },
    /// A lane that the batch does not have.
    BatchIndex { batch_idx: usize },
    /// Attention without heads.
    NoHeads,
    /// Only causal attention is supported.
    NotCausal,
    /// Only layers that normalize first are supported.
    NotNormFirst,
    /// Heads that share keys and values are not supported.
    KvRepeat,
    /// Convolution blocks are not supported.
    ConvBlock,
    /// Sinusoidal positions are not supported.
    SinEmbedding,
    /// A batch of another size than the state was made for.
    BatchSize { got: usize, expected: usize },
    /// The transformer needs a mask that holds flags.
    MaskRequired,
    /// Cross-attention sources for another number of layers than the transformer has.
    CrossKv { got: usize, layers: usize },
    /// A residual quantizer without codebooks.
    EmptyRvq,
    /// A mixer of another number of inputs.
    MixerInputs { got: usize, expected: usize },
    /// An inner width for extra heads that have no residual blocks.
    ExtraHeadsHidden,
    /// Extra heads that are to read layers, but none in particular.
    ExtraHeadsNoLayer,
    /// Extra heads that read a layer that the transformer does not have.
    ExtraHeadsLayer { layer: usize, num_layers: usize },
    /// Only layer norms are supported between the slices of a depformer.
    DepformerNorm,
    /// A model without delays.
    NoDelays,
    /// A depformer without slices.
    NoSlices,
    /// Semantic tokens for another number of lanes than the batch has.
    SemanticTokens { got: usize, batch: usize },
    /// Sampled tokens for another number of lanes than the batch has.
    SampledTokens { got: usize, batch: usize },
    /// A step that took all its tokens already.
    StepDone,
}

/// `r` with its value replaced by the view of it.
pub open spec fn viewed<M: View>(r: Result<M, Error>) -> Result<M::V, Error> {
    match r {
        Err(e) => Err(e),
        Ok(m) => Ok(m@),
    }
}

} // verus!
