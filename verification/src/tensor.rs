//! Tensors as descriptions of the computation that produces them.
//!
//! A [`Tensor`] records its shape and the operation, with its operands, whose result it is. The
//! shape rules are decided here; the floating-point kernels run where the description is
//! evaluated.
use crate::error::Error;
use crate::list::List;
use crate::shape::Shape;
use std::sync::Arc;
use vstd::prelude::*;

verus! {

/// A single-precision number by its bit pattern.
pub type SingleBits = u32;

/// A double-precision number by its bit pattern.
pub type DoubleBits = u64;

/// `1e-8`
pub const EPS_1E8: SingleBits = 0x322b_cc77u32;

/// `1e-7`
pub const EPS_1E7: SingleBits = 0x33d6_bf95u32;

/// `1e-5`
pub const EPS_1E5: SingleBits = 0x3727_c5acu32;

/// `0.5`
pub const HALF: SingleBits = 0x3f00_0000u32;

/// `0.999`
pub const NEAR_ONE: SingleBits = 0x3f7f_be77u32;

/// `1.0`
pub const ONE: SingleBits = 0x3f80_0000u32;

/// A factor that an operation multiplies by.
#[derive(Clone, Copy, PartialEq, Eq, Structural, Debug)]
pub enum Scalar {
    Const(SingleBits),
    /// The inverse of the square root of an integer.
    InvSqrt(usize),
}

/// Operations from one tensor to one of the same shape.
#[derive(Clone, Copy, PartialEq, Eq, Structural, Debug)]
pub enum UnaryOp {
    Cos,
    Sin,
    Neg,
    Log,
    Sqr,
    Sqrt,
    GeluErf,
    Relu,
    Silu,
    Tanh,
    Sigmoid,
    Elu(SingleBits),
    Scale(Scalar),
    /// Conversion to single precision.
    ToSingle,
    /// Conversion to the precision that the model computes in.
    ToModel,
    /// Uniform noise of the same shape, between the two bounds.
    UniformLike(SingleBits, SingleBits),
}

/// Element-wise operations on two tensors.
#[derive(Clone, Copy, PartialEq, Eq, Structural, Debug)]
pub enum BinaryOp {
    Add,
    Sub,
    Mul,
    Div,
    Maximum,
}

/// The half of a key-value cache that an operation reads.
#[derive(Clone, Copy, PartialEq, Eq, Structural, Debug)]
pub enum CachePart {
    Keys,
    Values,
}

/// How a linear layer stores its weight.
#[derive(Clone, Copy, PartialEq, Eq, Structural, Debug)]
pub enum LinearKind {
    Plain,
    /// In the format that the evaluating backend quantizes linear layers to.
    Quantized,
}

/// What a tensor is the result of.
#[derive(Debug)]
pub enum Op {
    /// The tensor of that index in the checkpoint.
    Weight(usize),
    /// A tensor that the caller supplies, by number.
    Input(usize),
    /// Every element is the given number.
    Full(SingleBits),
    Zeros,
    /// Integers, in row-major order.
    Ids(List<i64>),
    /// The inverse frequencies of a rotary embedding of that period.
    InvFreq(DoubleBits),
    /// The inverse frequencies of a sinusoidal embedding of that period, the last one included.
    SinFreq(DoubleBits),
    /// The integers from zero on.
    Steps,
    /// The attention mask of a step on key-value caches of `context` steps, where the lanes had
    /// reached `positions` before the step and those marked `active` take part in it.
    CacheMask { context: usize, positions: List<usize>, active: List<bool> },
    /// What a key-value cache holds once it took in the keys and values of the step whose attention
    /// mask is `mask`.
    Cached { slot: usize, part: CachePart, keys: Tensor, values: Tensor, mask: Tensor },
    Unary(UnaryOp, Tensor),
    Binary(BinaryOp, Tensor, Tensor),
    /// As `Binary`, with the operands broadcast.
    Broadcast(BinaryOp, Tensor, Tensor),
    Softmax(Tensor),
    Narrow { xs: Tensor, dim: usize, start: usize, end: usize },
    Transpose(Tensor, usize, usize),
    Reshape(Tensor),
    Unsqueeze(Tensor, usize),
    Expand(Tensor),
    Cat(List<Tensor>, usize),
    Stack(List<Tensor>, usize),
    PadZeros { xs: Tensor, dim: usize, left: usize, right: usize },
    PadSame { xs: Tensor, dim: usize, left: usize, right: usize },
    /// `dst` with `src` written over it from `offset` on along `dim`.
    SliceSet { dst: Tensor, src: Tensor, dim: usize, offset: usize },
    Conv1d {
        xs: Tensor,
        kernel: Tensor,
        bias: Option<Tensor>,
        stride: usize,
        dilation: usize,
        groups: usize,
    },
    ConvTranspose1d {
        xs: Tensor,
        kernel: Tensor,
        bias: Option<Tensor>,
        stride: usize,
        groups: usize,
    },
    Matmul(Tensor, Tensor),
    /// Product with the second operand transposed.
    MatmulT(Tensor, Tensor),
    Linear { kind: LinearKind, xs: Tensor, weight: Tensor, bias: Option<Tensor> },
    IndexSelect { xs: Tensor, ids: Tensor, dim: usize },
    LayerNorm { xs: Tensor, weight: Tensor, bias: Option<Tensor>, eps: SingleBits },
    RmsNorm { xs: Tensor, alpha: Tensor, eps: SingleBits },
    SumKeepdim { xs: Tensor, from: usize, to: usize },
    Argmin(Tensor, usize),
    Argmax(Tensor, usize),
    /// Rotary embedding on interleaved pairs.
    RopeI { xs: Tensor, cos: Tensor, sin: Tensor },
    /// `old` in the lanes that are not active and `new` in the others; zero where there is no
    /// `old`.
    Lanes { new: Tensor, old: Option<Tensor>, active: List<bool> },
}

#[derive(Debug)]
pub struct Node {
    pub shape: Shape,
    pub op: Op,
}

/// A tensor: its shape, and the operation whose result it is.
#[derive(Debug)]
pub struct Tensor(pub Arc<Node>);

pub type TensorResult = Result<Tensor, Error>;

impl Clone for Tensor {
    fn clone(&self) -> (r: Tensor)
        ensures
            r == *self,
    {
        Tensor(self.0.clone())
    }
}

impl Tensor {
    pub open spec fn shape_of(self) -> Shape {
        self.0.shape
    }

    pub fn shape(&self) -> (r: Shape)
        ensures
            r == self.shape_of(),
    {
        self.0.shape.clone()
    }
}

/// Copies an optional tensor.
pub fn clone_option(t: &Option<Tensor>) -> (r: Option<Tensor>)
    ensures
        r == *t,
{
    match t {
        None => None,
        Some(t) => Some(t.clone()),
    }
}

/// `t` as the result of a step that has output.
pub open spec fn output(t: TensorResult) -> Result<Option<Tensor>, Error> {
    match t {
        Err(e) => Err(e),
        Ok(t) => Ok(Some(t)),
    }
}

/// The tensor of shape `shape` that `op` produces; refused where its element count does not fit.
pub open spec fn node(shape: Shape, op: Op) -> TensorResult {
    if shape.fits() {
        Ok(Tensor(Arc::new(Node { shape, op })))
    } else {
        Err(Error::TooLarge)
    }
}

pub open spec fn node_with(shape: Result<Shape, Error>, op: Op) -> TensorResult {
    match shape {
        Ok(shape) => node(shape, op),
        Err(e) => Err(e),
    }
}

pub(crate) fn make(shape: Shape, op: Op) -> (r: TensorResult)
    ensures
        r == node(shape, op),
{
    match shape.elem_count() {
        Some(_) => Ok(Tensor(Arc::new(Node { shape, op }))),
        None => Err(Error::TooLarge),
    }
}

} // verus!
