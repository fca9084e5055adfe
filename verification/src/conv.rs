//! Streaming convolutions.
use crate::checkpoint::{weight_of, Weights};
use crate::error::Error;
use crate::ops::{
    binary_of, broadcast_of, cat2_of, conv1d_of, conv_transpose1d_of, dim_of, dims3_of, kernel_span,
    narrow_of, pad_same_of, pad_zeros_of, reshape_of, slice_set_of, sum_keepdim_of, unary_of,
};
use crate::shape::{add_dims, mul_dims, Shape};
use crate::streaming::{apply_state_mask, flags, masked_state};
use crate::tensor::{clone_option, node, BinaryOp, Op, Tensor, TensorResult, UnaryOp};
use vstd::prelude::*;
use xn::streaming::StreamMask;

verus! {

/// How the weight of a convolution is normalized.
#[derive(Clone, Copy, PartialEq, Eq, Structural, Debug)]
pub enum Norm {
    WeightNorm,
    SpectralNorm,
    TimeGroupNorm,
    /// The weight is used as it is stored.
    NoNorm,
}

/// What a convolution pads its input with.
#[derive(Clone, Copy, PartialEq, Eq, Structural, Debug)]
pub enum PadMode {
    Constant,
    Reflect,
    Replicate,
}

/// What a streaming convolution keeps between steps: the samples that no output has consumed yet.
pub struct Conv1dState {
    pub prev_xs: Option<Tensor>,
    pub left_pad_applied: bool,
}

/// `t` with lane `batch_idx` set to zero.
pub open spec fn lane_cleared(t: Tensor, batch_idx: usize) -> TensorResult {
    match dims3_of(Ok(t)) {
        Err(e) => Err(e),
        Ok((_, c, n)) => slice_set_of(Ok(t), node(Shape::D3(1, c, n), Op::Zeros), 0, batch_idx),
    }
}

fn clear_lane(t: &Tensor, batch_idx: usize) -> (r: TensorResult)
    ensures
        r == lane_cleared(*t, batch_idx),
{
    let (_, c, n) = t.dims3()?;
    let zeros = Tensor::zeros(Shape::D3(1, c, n))?;
    t.slice_set(&zeros, 0, batch_idx)
}

impl Conv1dState {
    /// The state once lane `batch_idx` was cleared, and whether that succeeded.
    pub open spec fn lane_reset(self, batch_idx: usize) -> (Conv1dState, Result<(), Error>) {
        match self.prev_xs {
            None => (self, Ok(())),
            Some(v) => match lane_cleared(v, batch_idx) {
                Err(e) => (self, Err(e)),
                Ok(t) => (Conv1dState { prev_xs: Some(t), ..self }, Ok(())),
            },
        }
    }

    /// Forgets what lane `batch_idx` has received.
    pub fn reset_batch_idx(&mut self, batch_idx: usize) -> (r: Result<(), Error>)
        ensures
            (*final(self), r) == old(self).lane_reset(batch_idx),
    {
        let cleared = match &self.prev_xs {
            None => {
                return Ok(());
            },
            Some(v) => clear_lane(v, batch_idx)?,
        };
        self.prev_xs = Some(cleared);
        Ok(())
    }
}

/// What a streaming transposed convolution keeps between steps: the outputs that later inputs
/// still add to.
pub struct ConvTr1dState {
    pub prev_ys: Option<Tensor>,
}

impl ConvTr1dState {
    /// The state once lane `batch_idx` was cleared, and whether that succeeded.
    pub open spec fn lane_reset(self, batch_idx: usize) -> (ConvTr1dState, Result<(), Error>) {
        match self.prev_ys {
            None => (self, Ok(())),
            Some(v) => match lane_cleared(v, batch_idx) {
                Err(e) => (self, Err(e)),
                Ok(t) => (ConvTr1dState { prev_ys: Some(t) }, Ok(())),
            },
        }
    }

    /// Forgets what lane `batch_idx` has received.
    pub fn reset_batch_idx(&mut self, batch_idx: usize) -> (r: Result<(), Error>)
        ensures
            (*final(self), r) == old(self).lane_reset(batch_idx),
    {
        let cleared = match &self.prev_ys {
            None => {
                return Ok(());
            },
            Some(v) => clear_lane(v, batch_idx)?,
        };
        self.prev_ys = Some(cleared);
        Ok(())
    }
}

/// The weight of a convolution of shape `(rows, cols, k)`. A normalized weight may be stored as a
/// direction and a magnitude for each row.
pub open spec fn norm_weight_of(
    vb: Weights,
    norm: Option<Norm>,
    rows: usize,
    cols: usize,
    k: usize,
) -> TensorResult {
    match norm {
        Some(Norm::WeightNorm) => if vb.has("weight") {
            weight_of(vb, "weight", Shape::D3(rows, cols, k))
        } else {
            match weight_of(vb, "weight_g", Shape::D3(rows, 1, 1)) {
                Err(e) => Err(e),
                Ok(g) => {
                    let v = weight_of(vb, "weight_v", Shape::D3(rows, cols, k));
                    match unary_of(UnaryOp::Sqrt, sum_keepdim_of(unary_of(UnaryOp::Sqr, v), 1, 2)) {
                        Err(e) => Err(e),
                        Ok(n) => broadcast_of(
                            BinaryOp::Div,
                            broadcast_of(BinaryOp::Mul, v, Ok(g)),
                            Ok(n),
                        ),
                    }
                },
            }
        },
        Some(Norm::SpectralNorm) => Err(Error::SpectralNorm),
        Some(Norm::TimeGroupNorm) => Err(Error::TimeGroupNorm),
        Some(Norm::NoNorm) | None => weight_of(vb, "weight", Shape::D3(rows, cols, k)),
    }
}

fn norm_weight(vb: &Weights, norm: Option<Norm>, rows: usize, cols: usize, k: usize) -> (r:
    TensorResult)
    ensures
        r == norm_weight_of(*vb, norm, rows, cols, k),
{
    match norm {
        Some(Norm::WeightNorm) => {
            if vb.contains("weight") {
                vb.tensor("weight", Shape::D3(rows, cols, k))
            } else {
                let weight_g = vb.tensor("weight_g", Shape::D3(rows, 1, 1))?;
                let weight_v = vb.tensor("weight_v", Shape::D3(rows, cols, k))?;
                let norm_v = weight_v.unary(UnaryOp::Sqr)?.sum_keepdim(1, 2)?.unary(UnaryOp::Sqrt)?;
                weight_v.broadcast(BinaryOp::Mul, &weight_g)?.broadcast(BinaryOp::Div, &norm_v)
            }
        },
        Some(Norm::SpectralNorm) => Err(Error::SpectralNorm),
        Some(Norm::TimeGroupNorm) => Err(Error::TimeGroupNorm),
        Some(Norm::NoNorm) | None => vb.tensor("weight", Shape::D3(rows, cols, k)),
    }
}

/// The bias `name` under `vb`, where there is to be one.
pub open spec fn bias_of(vb: Weights, bias: bool, n: usize) -> Result<Option<Tensor>, Error> {
    if bias {
        match weight_of(vb, "bias", Shape::D1(n)) {
            Err(e) => Err(e),
            Ok(t) => Ok(Some(t)),
        }
    } else {
        Ok(None)
    }
}

pub(crate) fn load_bias(vb: &Weights, bias: bool, n: usize) -> (r: Result<Option<Tensor>, Error>)
    ensures
        r == bias_of(*vb, bias, n),
{
    if bias {
        Ok(Some(vb.tensor("bias", Shape::D1(n))?))
    } else {
        Ok(None)
    }
}

/// A convolution with a normalized weight.
pub struct NormConv1d {
    pub weight: Tensor,
    pub bias: Option<Tensor>,
    pub stride: usize,
    pub dilation: usize,
    pub groups: usize,
}

impl NormConv1d {
    pub open spec fn loaded(
        vb: Weights,
        in_c: usize,
        out_c: usize,
        k_size: usize,
        norm: Option<Norm>,
        bias: bool,
        stride: usize,
        dilation: usize,
        groups: usize,
    ) -> Result<NormConv1d, Error> {
        let vb = vb.at("conv").at("conv");
        if groups == 0 {
            Err(Error::ConvGeometry)
        } else {
            match norm_weight_of(vb, norm, out_c, in_c / groups, k_size) {
                Err(e) => Err(e),
                Ok(weight) => match bias_of(vb, bias, out_c) {
                    Err(e) => Err(e),
                    Ok(bias) => Ok(NormConv1d { weight, bias, stride, dilation, groups }),
                },
            }
        }
    }

    pub open spec fn forwarded(self, xs: TensorResult) -> TensorResult {
        conv1d_of(xs, self.weight, self.bias, self.stride, self.dilation, self.groups)
    }

    /// Loads the weights under `conv.conv`. How the convolution pads does not matter here.
    pub fn load(
        vb: &Weights,
        in_c: usize,
        out_c: usize,
        k_size: usize,
        _causal: bool,
        norm: Option<Norm>,
        bias: bool,
        stride: usize,
        dilation: usize,
        groups: usize,
    ) -> (r: Result<NormConv1d, Error>)
        ensures
            r == NormConv1d::loaded(
                *vb,
                in_c,
                out_c,
                k_size,
                norm,
                bias,
                stride,
                dilation,
                groups,
            ),
    {
        let vb = vb.pp("conv").pp("conv");
        if groups == 0 {
            return Err(Error::ConvGeometry);
        }
        let weight = norm_weight(&vb, norm, out_c, in_c / groups, k_size)?;
        let bias = load_bias(&vb, bias, out_c)?;
        Ok(NormConv1d { weight, bias, stride, dilation, groups })
    }

    pub fn forward(&self, xs: &Tensor) -> (r: TensorResult)
        ensures
            r == self.forwarded(Ok(*xs)),
    {
        xs.conv1d(&self.weight, &self.bias, self.stride, self.dilation, self.groups)
    }

    /// The number of taps of the kernel.
    pub fn kernel_size(&self) -> (r: usize)
        requires
            self.weight.shape_of().rank_of() > 2,
        ensures
            r == self.weight.shape_of().dims()[2],
    {
        let d = self.weight.shape().to_vec();
        d[2]
    }

    pub fn stride(&self) -> (r: usize)
        ensures
            r == self.stride,
    {
        self.stride
    }

    pub fn dilation(&self) -> (r: usize)
        ensures
            r == self.dilation,
    {
        self.dilation
    }
}

/// A transposed convolution with a normalized weight.
pub struct NormConvTranspose1d {
    pub weight: Tensor,
    pub bias: Option<Tensor>,
    pub k_size: usize,
    pub stride: usize,
    pub groups: usize,
}

impl NormConvTranspose1d {
    pub open spec fn loaded(
        vb: Weights,
        in_c: usize,
        out_c: usize,
        k_size: usize,
        norm: Option<Norm>,
        bias: bool,
        stride: usize,
        groups: usize,
    ) -> Result<NormConvTranspose1d, Error> {
        let vb = vb.at("convtr").at("convtr");
        if groups == 0 {
            Err(Error::ConvGeometry)
        } else {
            match norm_weight_of(vb, norm, in_c, out_c / groups, k_size) {
                Err(e) => Err(e),
                Ok(weight) => match bias_of(vb, bias, out_c) {
                    Err(e) => Err(e),
                    Ok(bias) => Ok(NormConvTranspose1d { weight, bias, k_size, stride, groups }),
                },
            }
        }
    }

    pub open spec fn forwarded(self, xs: TensorResult) -> TensorResult {
        conv_transpose1d_of(xs, self.weight, self.bias, self.stride, self.groups)
    }

    /// Loads the weights under `convtr.convtr`. How the convolution pads does not matter here.
    pub fn load(
        vb: &Weights,
        in_c: usize,
        out_c: usize,
        k_size: usize,
        _causal: bool,
        norm: Option<Norm>,
        bias: bool,
        stride: usize,
        groups: usize,
    ) -> (r: Result<NormConvTranspose1d, Error>)
        ensures
            r == NormConvTranspose1d::loaded(
                *vb,
                in_c,
                out_c,
                k_size,
                norm,
                bias,
                stride,
                groups,
            ),
    {
        let vb = vb.pp("convtr").pp("convtr");
        if groups == 0 {
            return Err(Error::ConvGeometry);
        }
        let weight = norm_weight(&vb, norm, in_c, out_c / groups, k_size)?;
        let bias = load_bias(&vb, bias, out_c)?;
        Ok(NormConvTranspose1d { weight, bias, k_size, stride, groups })
    }

    pub fn forward(&self, xs: &Tensor) -> (r: TensorResult)
        ensures
            r == self.forwarded(Ok(*xs)),
    {
        xs.conv_transpose1d(&self.weight, &self.bias, self.stride, self.groups)
    }
}

/// `a - b`, or zero where that is negative.
pub open spec fn monus(a: int, b: int) -> int {
    if a >= b {
        a - b
    } else {
        0
    }
}

/// `a / b`, rounded up.
pub open spec fn div_up(a: int, b: int) -> int {
    (a + b - 1) / b
}

/// How many samples to add on the right so that the last, incomplete window is a whole one.
pub open spec fn extra_padding(len: int, k_size: int, stride: int, padding_total: int) -> int {
    let windows = div_up(monus(len + padding_total, k_size), stride);
    monus(monus(windows * stride + k_size, padding_total), len)
}

/// `extra_padding` of the samples of `xs`, where the sizes on the way there fit.
pub open spec fn extra_padding_of(
    xs: Tensor,
    k_size: usize,
    stride: usize,
    padding_total: usize,
) -> Result<usize, Error> {
    match dim_of(Ok(xs), 2) {
        Err(e) => Err(e),
        Ok(len) => {
            let windows = div_up(monus(len + padding_total, k_size as int), stride as int);
            if stride == 0 {
                Err(Error::ConvGeometry)
            } else if len + padding_total > usize::MAX || windows * stride + k_size > usize::MAX {
                Err(Error::TooLarge)
            } else {
                Ok(
                    extra_padding(
                        len as int,
                        k_size as int,
                        stride as int,
                        padding_total as int,
                    ) as usize,
                )
            }
        },
    }
}

/// How many samples to add on the right so that the last window is a whole one.
pub fn get_extra_padding_for_conv1d(
    xs: &Tensor,
    k_size: usize,
    stride: usize,
    padding_total: usize,
) -> (r: Result<usize, Error>)
    ensures
        r == extra_padding_of(*xs, k_size, stride, padding_total),
{
    let len: usize = xs.dim(2)?;
    if stride == 0 {
        return Err(Error::ConvGeometry);
    }
    let total: usize = add_dims(len, padding_total)?;
    let rest: usize = total.saturating_sub(k_size);
    let windows: usize = if rest % stride == 0 {
        rest / stride
    } else {
        assert(rest as int / stride as int <= rest as int / 2) by (nonlinear_arith)
            requires
                stride >= 2 || rest as int % stride as int == 0,
                stride >= 1,
                rest as int % stride as int != 0,
                rest >= 0,
        ;
        rest / stride + 1
    };
    proof {
        let q = rest as int / stride as int;
        let m = rest as int % stride as int;
        vstd::arithmetic::div_mod::lemma_fundamental_div_mod(rest as int, stride as int);
        assert(q <= rest) by (nonlinear_arith)
            requires
                rest == stride * q + m,
                stride >= 1,
                m >= 0,
                q >= 0,
        ;
        if m == 0 {
            vstd::arithmetic::div_mod::lemma_fundamental_div_mod_converse(
                rest + stride - 1,
                stride as int,
                q,
                stride - 1,
            );
        } else {
            assert(stride * (q + 1) == stride * q + stride) by (nonlinear_arith);
            vstd::arithmetic::div_mod::lemma_fundamental_div_mod_converse(
                rest + stride - 1,
                stride as int,
                q + 1,
                m - 1,
            );
        }
        assert(windows == div_up(rest as int, stride as int));
    }
    let covered: usize = match windows.checked_mul(stride) {
        Some(n) => n,
        None => {
            return Err(Error::TooLarge);
        },
    };
    let ideal_len: usize = add_dims(covered, k_size)?.saturating_sub(padding_total);
    Ok(ideal_len.saturating_sub(len))
}

pub open spec fn pad1d_of(xs: TensorResult, pad_l: usize, pad_r: usize, mode: PadMode) -> TensorResult {
    match mode {
        PadMode::Constant => pad_zeros_of(xs, 2, pad_l, pad_r),
        PadMode::Reflect => match xs {
            Err(e) => Err(e),
            Ok(_) => Err(Error::ReflectPadding),
        },
        PadMode::Replicate => pad_same_of(xs, 2, pad_l, pad_r),
    }
}

/// Pads the samples on both sides.
pub fn pad1d(xs: &Tensor, pad_l: usize, pad_r: usize, mode: PadMode) -> (r: TensorResult)
    ensures
        r == pad1d_of(Ok(*xs), pad_l, pad_r, mode),
{
    match mode {
        PadMode::Constant => xs.pad_with_zeros(2, pad_l, pad_r),
        PadMode::Reflect => Err(Error::ReflectPadding),
        PadMode::Replicate => xs.pad_with_same(2, pad_l, pad_r),
    }
}

pub open spec fn unpad1d_of(xs: TensorResult, unpad_l: usize, unpad_r: usize) -> TensorResult {
    match dim_of(xs, 2) {
        Err(e) => Err(e),
        Ok(len) => if len < unpad_l + unpad_r {
            Err(Error::Unpad { len, left: unpad_l, right: unpad_r })
        } else {
            narrow_of(xs, 2, unpad_l, (len - unpad_r) as usize)
        },
    }
}

/// Removes samples on both sides.
pub fn unpad1d(xs: &Tensor, unpad_l: usize, unpad_r: usize) -> (r: TensorResult)
    ensures
        r == unpad1d_of(Ok(*xs), unpad_l, unpad_r),
{
    let len: usize = xs.dim(2)?;
    if len < unpad_l || len - unpad_l < unpad_r {
        return Err(Error::Unpad { len, left: unpad_l, right: unpad_r });
    }
    xs.narrow(2, unpad_l, len - unpad_r)
}

/// The number of samples that one window covers; it must cover the step from one window to the
/// next.
pub open spec fn window_of(k_size: usize, stride: usize, dilation: usize) -> Result<usize, Error> {
    let span = kernel_span(k_size as int, dilation as int);
    if k_size == 0 || stride == 0 || span > usize::MAX || span < stride {
        Err(Error::ConvGeometry)
    } else {
        Ok(span as usize)
    }
}

fn window(k_size: usize, stride: usize, dilation: usize) -> (r: Result<usize, Error>)
    ensures
        r == window_of(k_size, stride, dilation),
{
    if k_size == 0 || stride == 0 {
        return Err(Error::ConvGeometry);
    }
    let reach: usize = match (k_size - 1).checked_mul(dilation) {
        Some(n) => n,
        None => {
            return Err(Error::ConvGeometry);
        },
    };
    let span: usize = match reach.checked_add(1) {
        Some(n) => n,
        None => {
            return Err(Error::ConvGeometry);
        },
    };
    if span < stride {
        return Err(Error::ConvGeometry);
    }
    Ok(span)
}

/// A convolution that can be fed chunk by chunk.
pub struct StreamableConv1d {
    pub conv: NormConv1d,
    pub causal: bool,
    pub pad_mode: PadMode,
    pub kernel_size: usize,
}

/// The number of whole windows of `kernel` samples in `len` samples, one every `stride`.
pub open spec fn window_count(len: int, kernel: int, stride: int) -> int {
    monus(len + stride, kernel) / stride
}

impl StreamableConv1d {
    pub open spec fn loaded(
        vb: Weights,
        in_c: usize,
        out_c: usize,
        k_size: usize,
        stride: usize,
        dilation: usize,
        groups: usize,
        bias: bool,
        causal: bool,
        norm: Option<Norm>,
        pad_mode: PadMode,
    ) -> Result<StreamableConv1d, Error> {
        match NormConv1d::loaded(vb, in_c, out_c, k_size, norm, bias, stride, dilation, groups) {
            Err(e) => Err(e),
            Ok(conv) => if k_size < stride {
                Err(Error::KernelBelowStride { k_size, stride })
            } else {
                Ok(StreamableConv1d { conv, causal, pad_mode, kernel_size: k_size })
            },
        }
    }

    pub open spec fn fresh_state() -> Conv1dState {
        Conv1dState { prev_xs: None, left_pad_applied: false }
    }

    /// The whole input in one go: padded so that every sample is covered, on the left alone where
    /// the convolution is causal.
    pub open spec fn forwarded(self, xs: TensorResult) -> TensorResult {
        match (xs, dim_of(Ok(self.conv.weight), 2)) {
            (Err(e), _) => Err(e),
            (Ok(_), Err(e)) => Err(e),
            (Ok(x), Ok(k_size)) => match window_of(k_size, self.conv.stride, self.conv.dilation) {
                Err(e) => Err(e),
                Ok(span) => {
                    let total = (span - self.conv.stride) as usize;
                    match extra_padding_of(x, span, self.conv.stride, total) {
                        Err(e) => Err(e),
                        Ok(extra) => if self.causal {
                            self.conv.forwarded(pad1d_of(xs, total, extra, self.pad_mode))
                        } else {
                            let right = (total / 2) as usize;
                            if right + extra > usize::MAX {
                                Err(Error::TooLarge)
                            } else {
                                self.conv.forwarded(
                                    pad1d_of(
                                        xs,
                                        (total - right) as usize,
                                        (right + extra) as usize,
                                        self.pad_mode,
                                    ),
                                )
                            }
                        },
                    }
                },
            },
        }
    }

    /// What a step works on: the samples kept so far and the new ones, the very first ones padded
    /// on the left.
    pub open spec fn gathered(self, xs: Tensor, state: Conv1dState, span: usize) -> TensorResult {
        let padded = if state.left_pad_applied {
            Ok(xs)
        } else {
            pad1d_of(Ok(xs), (span - self.conv.stride) as usize, 0, self.pad_mode)
        };
        match (padded, state.prev_xs) {
            (Err(e), _) => Err(e),
            (Ok(_), None) => padded,
            (Ok(_), Some(prev)) => cat2_of(Ok(prev), padded, 2),
        }
    }

    /// The state and the outputs once the samples `xs` were cut into whole windows.
    pub open spec fn advanced(
        self,
        xs: Tensor,
        state: Conv1dState,
        span: usize,
        mask: Option<Seq<bool>>,
    ) -> (Conv1dState, Result<Option<Tensor>, Error>) {
        let stride = self.conv.stride;
        let started = Conv1dState { prev_xs: state.prev_xs, left_pad_applied: true };
        match dim_of(Ok(xs), 2) {
            Err(e) => (started, Err(e)),
            Ok(len) => {
                let frames = window_count(len as int, span as int, stride as int);
                let offset = frames * stride;
                let rest: Result<Option<Tensor>, Error> = if frames == 0 {
                    Ok(Some(xs))
                } else if len > offset {
                    match narrow_of(Ok(xs), 2, offset as usize, len) {
                        Err(e) => Err(e),
                        Ok(t) => Ok(Some(t)),
                    }
                } else {
                    Ok(None)
                };
                if len + stride > usize::MAX {
                    (started, Err(Error::TooLarge))
                } else {
                    match rest {
                        Err(e) => (started, Err(e)),
                        Ok(rest) => match masked_state(rest, state.prev_xs, mask) {
                            Err(e) => (started, Err(e)),
                            Ok(kept) => {
                                let next = Conv1dState { prev_xs: kept, left_pad_applied: true };
                                if frames == 0 {
                                    (next, Ok(None))
                                } else {
                                    let in_l = ((frames - 1) * stride + span) as usize;
                                    match self.conv.forwarded(narrow_of(Ok(xs), 2, 0, in_l)) {
                                        Err(e) => (next, Err(e)),
                                        Ok(ys) => (next, Ok(Some(ys))),
                                    }
                                }
                            },
                        },
                    }
                }
            },
        }
    }

    /// The state after a step, and the outputs that the step completes.
    pub open spec fn stepped(self, xs: Option<Tensor>, state: Conv1dState, mask: Option<Seq<bool>>) -> (
        Conv1dState,
        Result<Option<Tensor>, Error>,
    ) {
        match xs {
            None => (state, Ok(None)),
            Some(xs) => match window_of(self.kernel_size, self.conv.stride, self.conv.dilation) {
                Err(e) => (state, Err(e)),
                Ok(span) => match self.gathered(xs, state, span) {
                    Err(e) => (
                        Conv1dState { prev_xs: state.prev_xs, left_pad_applied: true },
                        Err(e),
                    ),
                    Ok(all) => self.advanced(all, state, span, mask),
                },
            },
        }
    }

    pub fn load(
        vb: &Weights,
        in_c: usize,
        out_c: usize,
        k_size: usize,
        stride: usize,
        dilation: usize,
        groups: usize,
        bias: bool,
        causal: bool,
        norm: Option<Norm>,
        pad_mode: PadMode,
    ) -> (r: Result<StreamableConv1d, Error>)
        ensures
            r == StreamableConv1d::loaded(
                *vb,
                in_c,
                out_c,
                k_size,
                stride,
                dilation,
                groups,
                bias,
                causal,
                norm,
                pad_mode,
            ),
    {
        let conv = NormConv1d::load(
            vb,
            in_c,
            out_c,
            k_size,
            causal,
            norm,
            bias,
            stride,
            dilation,
            groups,
        )?;
        if k_size < stride {
            return Err(Error::KernelBelowStride { k_size, stride });
        }
        Ok(StreamableConv1d { conv, causal, pad_mode, kernel_size: k_size })
    }

    pub fn init_state(&self) -> (r: Conv1dState)
        ensures
            r == StreamableConv1d::fresh_state(),
    {
        Conv1dState { prev_xs: None, left_pad_applied: false }
    }

    /// The convolution of a whole input.
    pub fn forward(&self, xs: &Tensor) -> (r: TensorResult)
        ensures
            r == self.forwarded(Ok(*xs)),
    {
        let _taps: usize = self.conv.weight.dim(2)?;
        let k_size: usize = self.conv.kernel_size();
        let stride: usize = self.conv.stride();
        let dilation: usize = self.conv.dilation();
        let span: usize = window(k_size, stride, dilation)?;
        let padding_total: usize = span - stride;
        let extra_padding: usize = get_extra_padding_for_conv1d(xs, span, stride, padding_total)?;
        let xs = if self.causal {
            pad1d(xs, padding_total, extra_padding, self.pad_mode)?
        } else {
            let padding_right: usize = padding_total / 2;
            let padding_left: usize = padding_total - padding_right;
            pad1d(xs, padding_left, add_dims(padding_right, extra_padding)?, self.pad_mode)?
        };
        self.conv.forward(&xs)
    }

    /// Takes in the next samples and returns the outputs that they complete.
    pub fn step(&self, xs: &Option<Tensor>, state: &mut Conv1dState, mask: &StreamMask) -> (r:
        Result<Option<Tensor>, Error>)
        ensures
            (*final(state), r) == self.stepped(*xs, *old(state), flags(*mask)),
    {
        let xs = match xs {
            None => {
                return Ok(None);
            },
            Some(xs) => xs.clone(),
        };
        let stride: usize = self.conv.stride();
        let kernel: usize = window(self.kernel_size, stride, self.conv.dilation())?;
        let old_prev_xs = clone_option(&state.prev_xs);

        let xs = if state.left_pad_applied {
            xs
        } else {
            state.left_pad_applied = true;
            pad1d(&xs, kernel - stride, 0, self.pad_mode)?
        };
        let xs = match &state.prev_xs {
            None => xs,
            Some(prev) => Tensor::cat2(prev, &xs, 2)?,
        };

        let seq_len: usize = xs.dim(2)?;
        let num_frames: usize = add_dims(seq_len, stride)?.saturating_sub(kernel) / stride;
        proof {
            lemma_windows_fit(seq_len as int, kernel as int, stride as int);
        }
        if num_frames > 0 {
            let offset: usize = num_frames * stride;
            let new_prev_xs = if seq_len > offset {
                Some(xs.narrow(2, offset, seq_len)?)
            } else {
                None
            };
            state.prev_xs = apply_state_mask(&new_prev_xs, &old_prev_xs, mask)?;
            let in_l: usize = (num_frames - 1) * stride + kernel;
            let xs = xs.narrow(2, 0, in_l)?;
            Ok(Some(self.conv.forward(&xs)?))
        } else {
            let new_prev_xs = Some(xs);
            state.prev_xs = apply_state_mask(&new_prev_xs, &old_prev_xs, mask)?;
            Ok(None)
        }
    }
}

/// The windows of a step lie within its samples: the last one ends, and the next one starts,
/// within the samples gathered.
pub proof fn lemma_windows_fit(len: int, kernel: int, stride: int)
    requires
        0 <= len,
        1 <= stride <= kernel,
    ensures
        0 <= window_count(len, kernel, stride) <= len,
        window_count(len, kernel, stride) * stride <= len,
        window_count(len, kernel, stride) > 0 ==> 0 <= (window_count(len, kernel, stride) - 1)
            * stride <= (window_count(len, kernel, stride) - 1) * stride + kernel <= len,
        window_count(len, kernel, stride) == 0 <==> len < kernel,
        len - window_count(len, kernel, stride) * stride < kernel,
{
    let n = window_count(len, kernel, stride);
    if len + stride >= kernel {
        let x = len + stride - kernel;
        vstd::arithmetic::div_mod::lemma_fundamental_div_mod(x, stride);
        assert(n * stride == stride * n) by (nonlinear_arith);
        assert((n - 1) * stride == n * stride - stride) by (nonlinear_arith);
        assert(n >= 0) by (nonlinear_arith)
            requires
                x >= 0,
                stride >= 1,
                n == x / stride,
        ;
        assert(n <= n * stride) by (nonlinear_arith)
            requires
                n >= 0,
                stride >= 1,
        ;
        if n > 0 {
            assert((n - 1) * stride >= 0) by (nonlinear_arith)
                requires
                    n > 0,
                    stride >= 1,
            ;
        }
        if len >= kernel {
            assert(n > 0) by (nonlinear_arith)
                requires
                    x >= stride,
                    stride >= 1,
                    n == x / stride,
            ;
        } else {
            assert(n == 0) by (nonlinear_arith)
                requires
                    0 <= x < stride,
                    n == x / stride,
            ;
        }
    } else {
        assert(0int / stride == 0) by (nonlinear_arith)
            requires
                stride >= 1,
        ;
        assert(n * stride == 0) by (nonlinear_arith)
            requires
                n == 0,
        ;
    }
}

/// A transposed convolution that can be fed chunk by chunk.
pub struct StreamableConvTranspose1d {
    pub convtr: NormConvTranspose1d,
    pub causal: bool,
    pub kernel_size: usize,
}

/// `bias` as a tensor that broadcasts over lanes and samples.
pub open spec fn bias_column(bias: Tensor) -> TensorResult {
    if bias.shape_of().fits() {
        reshape_of(Ok(bias), Shape::D3(1, bias.shape_of().count() as usize, 1))
    } else {
        Err(Error::TooLarge)
    }
}

impl StreamableConvTranspose1d {
    pub open spec fn loaded(
        vb: Weights,
        in_c: usize,
        out_c: usize,
        k_size: usize,
        stride: usize,
        groups: usize,
        bias: bool,
        causal: bool,
        norm: Option<Norm>,
    ) -> Result<StreamableConvTranspose1d, Error> {
        match NormConvTranspose1d::loaded(vb, in_c, out_c, k_size, norm, bias, stride, groups) {
            Err(e) => Err(e),
            Ok(convtr) => Ok(StreamableConvTranspose1d { convtr, causal, kernel_size: k_size }),
        }
    }

    pub open spec fn fresh_state() -> ConvTr1dState {
        ConvTr1dState { prev_ys: None }
    }

    /// The whole input in one go, without the outputs at the ends that miss some inputs.
    pub open spec fn forwarded(self, xs: TensorResult) -> TensorResult {
        let total = monus(self.convtr.k_size as int, self.convtr.stride as int);
        let ys = self.convtr.forwarded(xs);
        if self.causal {
            unpad1d_of(ys, 0, total as usize)
        } else {
            let right = total / 2;
            unpad1d_of(ys, (total - right) as usize, right as usize)
        }
    }

    /// The outputs of a step with what earlier steps left over added in. The bias is in both and
    /// counts once.
    pub open spec fn overlapped(self, ys: Tensor, prev: Option<Tensor>) -> TensorResult {
        match (dim_of(Ok(ys), 2), prev) {
            (Err(e), _) => Err(e),
            (Ok(_), None) => Ok(ys),
            (Ok(ot), Some(prev)) => match dim_of(Ok(prev), 2) {
                Err(e) => Err(e),
                Ok(pt) => {
                    let unbiased = match self.convtr.bias {
                        None => Ok(prev),
                        Some(bias) => match bias_column(bias) {
                            Err(e) => Err(e),
                            Ok(b) => broadcast_of(BinaryOp::Sub, Ok(prev), Ok(b)),
                        },
                    };
                    match unbiased {
                        Err(e) => Err(e),
                        Ok(_) => cat2_of(
                            binary_of(BinaryOp::Add, narrow_of(Ok(ys), 2, 0, pt), unbiased),
                            narrow_of(Ok(ys), 2, pt, ot),
                            2,
                        ),
                    }
                },
            },
        }
    }

    /// The state and the finished outputs, of the `ot` outputs `ys` of which the last `pending`
    /// still miss inputs.
    pub open spec fn released(
        self,
        ys: Tensor,
        ot: usize,
        pending: usize,
        state: ConvTr1dState,
        mask: Option<Seq<bool>>,
    ) -> (ConvTr1dState, Result<Option<Tensor>, Error>) {
        let valid_len = monus(ot as int, pending as int) as usize;
        let valid: Result<Option<Tensor>, Error> = if valid_len == 0 {
            Ok(None)
        } else {
            match narrow_of(Ok(ys), 2, 0, valid_len) {
                Err(e) => Err(e),
                Ok(t) => Ok(Some(t)),
            }
        };
        let rest: Result<Option<Tensor>, Error> = if valid_len == 0 {
            Ok(Some(ys))
        } else if ot > valid_len {
            match narrow_of(Ok(ys), 2, valid_len, ot) {
                Err(e) => Err(e),
                Ok(t) => Ok(Some(t)),
            }
        } else {
            Ok(None)
        };
        match (valid, rest) {
            (Err(e), _) => (state, Err(e)),
            (Ok(_), Err(e)) => (state, Err(e)),
            (Ok(valid), Ok(rest)) => match masked_state(rest, state.prev_ys, mask) {
                Err(e) => (state, Err(e)),
                Ok(kept) => (ConvTr1dState { prev_ys: kept }, Ok(valid)),
            },
        }
    }

    /// The state after a step, and the outputs that the step finishes.
    pub open spec fn stepped(self, xs: Option<Tensor>, state: ConvTr1dState, mask: Option<Seq<bool>>) -> (
        ConvTr1dState,
        Result<Option<Tensor>, Error>,
    ) {
        match xs {
            None => (state, Ok(None)),
            Some(xs) => if self.kernel_size < self.convtr.stride {
                (state, Err(Error::ConvGeometry))
            } else {
                match self.convtr.forwarded(Ok(xs)) {
                    Err(e) => (state, Err(e)),
                    Ok(fresh) => match (
                        dim_of(Ok(fresh), 2),
                        self.overlapped(fresh, state.prev_ys),
                    ) {
                        (Err(e), _) => (state, Err(e)),
                        (Ok(_), Err(e)) => (state, Err(e)),
                        (Ok(ot), Ok(ys)) => self.released(
                            ys,
                            ot,
                            (self.kernel_size - self.convtr.stride) as usize,
                            state,
                            mask,
                        ),
                    },
                }
            },
        }
    }

    pub fn load(
        vb: &Weights,
        in_c: usize,
        out_c: usize,
        k_size: usize,
        stride: usize,
        groups: usize,
        bias: bool,
        causal: bool,
        norm: Option<Norm>,
    ) -> (r: Result<StreamableConvTranspose1d, Error>)
        ensures
            r == StreamableConvTranspose1d::loaded(
                *vb,
                in_c,
                out_c,
                k_size,
                stride,
                groups,
                bias,
                causal,
                norm,
            ),
    {
        let convtr = NormConvTranspose1d::load(
            vb,
            in_c,
            out_c,
            k_size,
            causal,
            norm,
            bias,
            stride,
            groups,
        )?;
        Ok(StreamableConvTranspose1d { convtr, causal, kernel_size: k_size })
    }

    pub fn init_state(&self) -> (r: ConvTr1dState)
        ensures
            r == StreamableConvTranspose1d::fresh_state(),
    {
        ConvTr1dState { prev_ys: None }
    }

    /// The transposed convolution of a whole input.
    pub fn forward(&self, xs: &Tensor) -> (r: TensorResult)
        ensures
            r == self.forwarded(Ok(*xs)),
    {
        let padding_total: usize = self.convtr.k_size.saturating_sub(self.convtr.stride);
        let xs = self.convtr.forward(xs)?;
        if self.causal {
            unpad1d(&xs, 0, padding_total)
        } else {
            let padding_right: usize = padding_total / 2;
            let padding_left: usize = padding_total - padding_right;
            unpad1d(&xs, padding_left, padding_right)
        }
    }

    /// Takes in the next inputs and returns the outputs that they finish.
    pub fn step(&self, xs: &Option<Tensor>, state: &mut ConvTr1dState, mask: &StreamMask) -> (r:
        Result<Option<Tensor>, Error>)
        ensures
            (*final(state), r) == self.stepped(*xs, *old(state), flags(*mask)),
    {
        let xs = match xs {
            None => {
                return Ok(None);
            },
            Some(xs) => xs,
        };
        let stride: usize = self.convtr.stride;
        if self.kernel_size < stride {
            return Err(Error::ConvGeometry);
        }
        let old_prev_ys = clone_option(&state.prev_ys);

        let ys = self.convtr.forward(xs)?;
        let ot: usize = ys.dim(2)?;
        let ys = match &state.prev_ys {
            None => ys,
            Some(prev_ys) => {
                let pt: usize = prev_ys.dim(2)?;
                let prev_ys = match &self.convtr.bias {
                    None => prev_ys.clone(),
                    Some(bias) => {
                        let channels: usize = match bias.shape().elem_count() {
                            Some(n) => n,
                            None => {
                                return Err(Error::TooLarge);
                            },
                        };
                        let bias = bias.reshape(Shape::D3(1, channels, 1))?;
                        prev_ys.broadcast(BinaryOp::Sub, &bias)?
                    },
                };
                let ys1 = ys.narrow(2, 0, pt)?.add(&prev_ys)?;
                let ys2 = ys.narrow(2, pt, ot)?;
                Tensor::cat2(&ys1, &ys2, 2)?
            },
        };

        let invalid_steps: usize = self.kernel_size - stride;
        let valid_len: usize = ot.saturating_sub(invalid_steps);
        if valid_len > 0 {
            let valid = ys.narrow(2, 0, valid_len)?;
            let new_prev_ys = if ot > valid_len {
                Some(ys.narrow(2, valid_len, ot)?)
            } else {
                None
            };
            state.prev_ys = apply_state_mask(&new_prev_ys, &old_prev_ys, mask)?;
            Ok(Some(valid))
        } else {
            let new_prev_ys = Some(ys);
            state.prev_ys = apply_state_mask(&new_prev_ys, &old_prev_ys, mask)?;
            Ok(None)
        }
    }
}

/// Convolution whose windows overlap by half, and which divides the frame rate by its stride.
pub struct ConvDownsample1d {
    pub conv: StreamableConv1d,
}

impl ConvDownsample1d {
    pub open spec fn loaded(vb: Weights, stride: usize, dim: usize, causal: bool) -> Result<
        ConvDownsample1d,
        Error,
    > {
        if 2 * stride > usize::MAX {
            Err(Error::TooLarge)
        } else {
            match StreamableConv1d::loaded(
                vb.at("conv"),
                dim,
                dim,
                (2 * stride) as usize,
                stride,
                1,
                1,
                false,
                causal,
                None,
                PadMode::Replicate,
            ) {
                Err(e) => Err(e),
                Ok(conv) => Ok(ConvDownsample1d { conv }),
            }
        }
    }

    /// Loads the weights under `conv`; they are stored the same way whether they were learnt or
    /// not.
    pub fn load(vb: &Weights, stride: usize, dim: usize, causal: bool, _learnt: bool) -> (r: Result<
        ConvDownsample1d,
        Error,
    >)
        ensures
            r == ConvDownsample1d::loaded(*vb, stride, dim, causal),
    {
        let k_size: usize = mul_dims(2, stride)?;
        let conv = StreamableConv1d::load(
            &vb.pp("conv"),
            dim,
            dim,
            k_size,
            stride,
            1,
            1,
            false,
            causal,
            None,
            PadMode::Replicate,
        )?;
        Ok(ConvDownsample1d { conv })
    }

    pub fn init_state(&self) -> (r: Conv1dState)
        ensures
            r == StreamableConv1d::fresh_state(),
    {
        self.conv.init_state()
    }

    pub fn forward(&self, xs: &Tensor) -> (r: TensorResult)
        ensures
            r == self.conv.forwarded(Ok(*xs)),
    {
        self.conv.forward(xs)
    }

    pub fn step(&self, xs: &Option<Tensor>, state: &mut Conv1dState, m: &StreamMask) -> (r: Result<
        Option<Tensor>,
        Error,
    >)
        ensures
            (*final(state), r) == self.conv.stepped(*xs, *old(state), flags(*m)),
    {
        self.conv.step(xs, state, m)
    }
}

/// Depthwise transposed convolution that multiplies the frame rate by its stride.
pub struct ConvTrUpsample1d {
    pub convtr: StreamableConvTranspose1d,
}

impl ConvTrUpsample1d {
    pub open spec fn loaded(vb: Weights, stride: usize, dim: usize, causal: bool) -> Result<
        ConvTrUpsample1d,
        Error,
    > {
        if 2 * stride > usize::MAX {
            Err(Error::TooLarge)
        } else {
            match StreamableConvTranspose1d::loaded(
                vb.at("convtr"),
                dim,
                dim,
                (2 * stride) as usize,
                stride,
                dim,
                false,
                causal,
                None,
            ) {
                Err(e) => Err(e),
                Ok(convtr) => Ok(ConvTrUpsample1d { convtr }),
            }
        }
    }

    /// Loads the weights under `convtr`; they are stored the same way whether they were learnt or
    /// not.
    pub fn load(vb: &Weights, stride: usize, dim: usize, causal: bool, _learnt: bool) -> (r: Result<
        ConvTrUpsample1d,
        Error,
    >)
        ensures
            r == ConvTrUpsample1d::loaded(*vb, stride, dim, causal),
    {
        let k_size: usize = mul_dims(2, stride)?;
        let convtr = StreamableConvTranspose1d::load(
            &vb.pp("convtr"),
            dim,
            dim,
            k_size,
            stride,
            dim,
            false,
            causal,
            None,
        )?;
        Ok(ConvTrUpsample1d { convtr })
    }

    pub fn init_state(&self) -> (r: ConvTr1dState)
        ensures
            r == StreamableConvTranspose1d::fresh_state(),
    {
        self.convtr.init_state()
    }

    pub fn forward(&self, xs: &Tensor) -> (r: TensorResult)
        ensures
            r == self.convtr.forwarded(Ok(*xs)),
    {
        self.convtr.forward(xs)
    }

    pub fn step(&self, xs: &Option<Tensor>, state: &mut ConvTr1dState, m: &StreamMask) -> (r:
        Result<Option<Tensor>, Error>)
        ensures
            (*final(state), r) == self.convtr.stepped(*xs, *old(state), flags(*m)),
    {
        self.convtr.step(xs, state, m)
    }
}

} // verus!
