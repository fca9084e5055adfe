//! What the encoder and the decoder of sound compute of its samples, in exact arithmetic.
use crate::checkpoint::{weight_of, Weights};
use crate::conv::{
    div_up, extra_padding_of, monus, norm_weight_of, pad1d_of, window_of, Norm, PadMode,
    StreamableConv1d, StreamableConvTranspose1d,
};
use crate::error::Error;
use crate::features::lemma_fitted;
use crate::layers::{activated, activations_compute_their_functions};
use crate::ops::{binary_of, broadcast_of, kernel_span, sum_keepdim_of, unary_of};
use crate::seanet::{
    residuals_forwarded, Activation, BlockModel, DecoderLayerModel, DecoderModel, EncoderLayerModel,
    EncoderModel,
};
use crate::shape::{broadcast_dims, Shape};
use crate::tensor::{BinaryOp, Tensor, UnaryOp};
use crate::value::{
    at, bias_value, dims, elements, fitted, lemma_binary, lemma_broadcast, lemma_conv1d,
    lemma_conv_transpose1d, lemma_narrow, lemma_pad_same, lemma_pad_zeros, lemma_sum_over,
    lemma_total, lemma_unary, nearest_place, sum_over, total, Ground,
};
use vstd::prelude::*;

verus! {

/// Samples by lane, channel and time.
#[verifier::ext_equal]
pub struct Signal {
    pub len: int,
    pub sample: spec_fn(int, int, int) -> real,
}

/// The samples that a tensor holds.
pub open spec fn signal_of(x: Tensor, g: Ground) -> Signal {
    Signal {
        len: dims(x)[2] as int,
        sample: |b: int, c: int, t: int| at(x, g, seq![b, c, t]),
    }
}

/// A sample, also before the first and after the last one: there it is zero, or the sample that is
/// nearest.
pub open spec fn sample_or_padding(sig: Signal, mode: PadMode, b: int, c: int, t: int) -> real {
    if mode == PadMode::Constant {
        if 0 <= t < sig.len {
            (sig.sample)(b, c, t)
        } else {
            0 as real
        }
    } else {
        (sig.sample)(b, c, nearest_place(sig.len, t))
    }
}

/// By how many samples the first window of a convolution starts early.
pub open spec fn lead(conv: StreamableConv1d) -> int {
    let both = kernel_span(dims(conv.conv.weight)[2] as int, conv.conv.dilation as int)
        - conv.conv.stride;
    if conv.causal {
        both
    } else {
        both - both / 2
    }
}

/// The products of the kernel of channel `o` with window `j`, summed.
pub open spec fn window_sum(
    conv: StreamableConv1d,
    g: Ground,
    sig: Signal,
    b: int,
    o: int,
    j: int,
) -> real {
    let d = dims(conv.conv.weight);
    let first = o / (d[0] as int / conv.conv.groups as int) * d[1];
    total(
        d[1] as int,
        |c: int|
            total(
                d[2] as int,
                |k: int|
                    at(conv.conv.weight, g, seq![o, c, k]) * sample_or_padding(
                        sig,
                        conv.pad_mode,
                        b,
                        first + c,
                        j * conv.conv.stride + k * conv.conv.dilation - lead(conv),
                    ),
            ),
    )
}

/// A signal under a convolution.
pub open spec fn convolved(conv: StreamableConv1d, g: Ground, sig: Signal) -> Signal {
    Signal {
        len: div_up(monus(sig.len, conv.conv.stride as int), conv.conv.stride as int) + 1,
        sample: |b: int, o: int, j: int|
            window_sum(conv, g, sig, b, o, j) + bias_value(conv.conv.bias, g, o),
    }
}

proof fn lemma_window_sum(
    conv: StreamableConv1d,
    g: Ground,
    x: Tensor,
    p: Tensor,
    left: usize,
    right: usize,
    y: Tensor,
    b: int,
    o: int,
    j: int,
)
    requires
        pad1d_of(Ok(x), left, right, conv.pad_mode) == Ok::<Tensor, Error>(p),
        left == lead(conv),
        conv.conv.forwarded(Ok(p)) == Ok::<Tensor, Error>(y),
    ensures
        at(y, g, seq![b, o, j]) == window_sum(conv, g, signal_of(x, g), b, o, j) + bias_value(
            conv.conv.bias,
            g,
            o,
        ),
{
    let w = conv.conv.weight;
    let d = dims(w);
    let sig = signal_of(x, g);
    let (stride, dilation) = (conv.conv.stride as int, conv.conv.dilation as int);
    lemma_conv1d(
        p,
        w,
        conv.conv.bias,
        conv.conv.stride,
        conv.conv.dilation,
        conv.conv.groups,
        y,
        g,
        b,
        o,
        j,
    );
    let first = o / (d[0] as int / conv.conv.groups as int) * d[1];
    let e = elements(p, g);
    let kernel = elements(w, g);
    let f = |c: int|
        total(
            d[2] as int,
            |k: int| kernel(seq![o, c, k]) * e(seq![b, first + c, j * stride + k * dilation]),
        );
    let h = |c: int|
        total(
            d[2] as int,
            |k: int|
                at(w, g, seq![o, c, k]) * sample_or_padding(
                    sig,
                    conv.pad_mode,
                    b,
                    first + c,
                    j * stride + k * dilation - lead(conv),
                ),
        );
    assert forall|c: int| 0 <= c < d[1] implies #[trigger] f(c) == h(c) by {
        let ff = |k: int| kernel(seq![o, c, k]) * e(seq![b, first + c, j * stride + k * dilation]);
        let hh = |k: int|
            at(w, g, seq![o, c, k]) * sample_or_padding(
                sig,
                conv.pad_mode,
                b,
                first + c,
                j * stride + k * dilation - lead(conv),
            );
        assert forall|k: int| 0 <= k < d[2] implies #[trigger] ff(k) == hh(k) by {
            lemma_padded(conv.pad_mode, x, left, right, p, g, b, first + c, j * stride + k * dilation);
        }
        lemma_total(d[2] as int, ff, hh);
    }
    lemma_total(d[1] as int, f, h);
}

/// Padding adds samples at both ends.
pub proof fn padding_adds_samples_at_both_ends(
    mode: PadMode,
    x: Tensor,
    left: usize,
    right: usize,
    p: Tensor,
    g: Ground,
    b: int,
    c: int,
    t: int,
)
    requires
        pad1d_of(Ok(x), left, right, mode) == Ok::<Tensor, Error>(p),
    ensures
        mode != PadMode::Reflect,
        dims(p)[2] == dims(x)[2] + left + right,
        at(p, g, seq![b, c, t]) == sample_or_padding(signal_of(x, g), mode, b, c, t - left),
{
    crate::shape::dims_of_shape(dims(x).update(2, (dims(x)[2] + left + right) as usize));
    lemma_padded(mode, x, left, right, p, g, b, c, t);
}

proof fn lemma_padded(
    mode: PadMode,
    x: Tensor,
    left: usize,
    right: usize,
    p: Tensor,
    g: Ground,
    b: int,
    c: int,
    t: int,
)
    requires
        pad1d_of(Ok(x), left, right, mode) == Ok::<Tensor, Error>(p),
    ensures
        at(p, g, seq![b, c, t]) == sample_or_padding(signal_of(x, g), mode, b, c, t - left),
{
    let i = seq![b, c, t];
    assert(i[2] == t);
    if mode == PadMode::Constant {
        lemma_pad_zeros(x, 2, left, right, p, g);
        assert(i.update(2, t - left) =~= seq![b, c, t - left]);
    } else {
        lemma_pad_same(x, 2, left, right, p, g);
        let n = nearest_place(dims(x)[2] as int, t - left);
        assert(i.update(2, n) =~= seq![b, c, n]);
    }
}

/// The number of outputs of a convolution.
proof fn lemma_length(len: int, span: int, stride: int)
    requires
        0 <= len,
        1 <= stride <= span,
    ensures
        ({
            let both = span - stride;
            let extra = crate::conv::extra_padding(len, span, stride, both);
            (len + both + extra - span) / stride == div_up(monus(len, stride), stride)
        }),
{
    let both = span - stride;
    let n = monus(len, stride);
    assert(monus(len + both, span) == n);
    let windows = div_up(n, stride);
    vstd::arithmetic::div_mod::lemma_fundamental_div_mod(n + stride - 1, stride);
    assert(windows * stride >= n) by (nonlinear_arith)
        requires
            n + stride - 1 == stride * windows + (n + stride - 1) % stride,
            (n + stride - 1) % stride < stride,
    ;
    let extra = crate::conv::extra_padding(len, span, stride, both);
    assert(windows * stride >= 0);
    assert(extra == windows * stride + stride - len);
    assert(len + both + extra - span == stride * windows + 0) by (nonlinear_arith)
        requires
            extra == windows * stride + stride - len,
            both == span - stride,
    ;
    vstd::arithmetic::div_mod::lemma_fundamental_div_mod_converse(
        len + both + extra - span,
        stride,
        windows,
        0,
    );
}

/// A convolution of a whole input gives at each output the products of the kernel with a window of
/// the padded input, summed, and the bias. The windows start early by what they overlap, all of it
/// where the convolution is causal and half of it elsewhere.
#[verifier::rlimit(40)]
pub proof fn convolutions_sum_windows(conv: StreamableConv1d, x: Tensor, y: Tensor, g: Ground)
    requires
        conv.forwarded(Ok(x)) == Ok::<Tensor, Error>(y),
    ensures
        x.shape_of() is D3,
        y.shape_of() is D3,
        signal_of(y, g) == convolved(conv, g, signal_of(x, g)),
{
    let w = conv.conv.weight;
    let k = dims(w)[2];
    let stride = conv.conv.stride;
    let span = window_of(k, stride, conv.conv.dilation)->Ok_0;
    let both = (span - stride) as usize;
    let extra = extra_padding_of(x, span, stride, both)->Ok_0;
    let left = if conv.causal {
        both
    } else {
        (both - both / 2) as usize
    };
    let right = if conv.causal {
        extra
    } else {
        (both / 2 + extra) as usize
    };
    let p = pad1d_of(Ok(x), left, right, conv.pad_mode)->Ok_0;
    assert(conv.conv.forwarded(Ok(p)) == Ok::<Tensor, Error>(y));
    assert(left == lead(conv));
    assert(p.shape_of() is D3);
    let d = dims(x).update(2, (dims(x)[2] + left + right) as usize);
    crate::shape::dims_of_shape(d);
    assert(dims(p) == d);
    assert(dims(p).len() == 3);
    assert(x.shape_of() is D3) by {
        assert(dims(x).len() == 3);
    }
    let len = dims(x)[2] as int;
    lemma_length(len, span as int, stride as int);
    assert(dims(p)[2] == len + both + extra);
    assert(signal_of(y, g).len == convolved(conv, g, signal_of(x, g)).len);
    let want = convolved(conv, g, signal_of(x, g));
    assert forall|b: int, o: int, j: int| #[trigger]
        (signal_of(y, g).sample)(b, o, j) == (want.sample)(b, o, j) by {
        lemma_window_sum(conv, g, x, p, left, right, y, b, o, j);
    }
    assert(signal_of(y, g).sample =~= want.sample);
}

/// A signal under a transposed convolution: each input adds the kernel times itself, from `stride`
/// times its time on. Of what hangs over, the end is cut off where the convolution is causal, and
/// half of it at each end elsewhere.
pub open spec fn spread(conv: StreamableConvTranspose1d, g: Ground, sig: Signal) -> Signal {
    let w = conv.convtr.weight;
    let d = dims(w);
    let per = d[0] as int / conv.convtr.groups as int;
    let stride = conv.convtr.stride as int;
    let over = monus(conv.convtr.k_size as int, stride);
    let left = if conv.causal {
        0
    } else {
        over - over / 2
    };
    Signal {
        len: (sig.len - 1) * stride + d[2] - over,
        sample: |b: int, o: int, t: int|
            total(
                sig.len,
                |s: int|
                    if 0 <= t + left - s * stride < d[2] {
                        total(
                            per,
                            |c: int|
                                at(
                                    w,
                                    g,
                                    seq![
                                        o / d[1] as int * per + c,
                                        o % d[1] as int,
                                        t + left - s * stride,
                                    ],
                                ) * (sig.sample)(b, o / d[1] as int * per + c, s),
                        )
                    } else {
                        0 as real
                    },
            ) + bias_value(conv.convtr.bias, g, o),
    }
}

proof fn lemma_spread(
    conv: StreamableConvTranspose1d,
    x: Tensor,
    full: Tensor,
    y: Tensor,
    left: usize,
    end: usize,
    g: Ground,
    b: int,
    o: int,
    t: int,
)
    requires
        x.shape_of() is D3,
        conv.convtr.forwarded(Ok(x)) == Ok::<Tensor, Error>(full),
        crate::ops::narrow_of(Ok(full), 2, left, end) == Ok::<Tensor, Error>(y),
        ({
            let over = monus(conv.convtr.k_size as int, conv.convtr.stride as int);
            left == if conv.causal {
                0
            } else {
                over - over / 2
            }
        }),
    ensures
        at(y, g, seq![b, o, t]) == (spread(conv, g, signal_of(x, g)).sample)(b, o, t),
{
    let w = conv.convtr.weight;
    let d = dims(w);
    let sig = signal_of(x, g);
    let per = d[0] as int / conv.convtr.groups as int;
    let stride = conv.convtr.stride as int;
    lemma_narrow(full, 2, left, end, y, g);
    let i = seq![b, o, t];
    let p = t + left;
    assert(i.update(2, i[2] + left) =~= seq![b, o, p]);
    lemma_conv_transpose1d(
        x,
        w,
        conv.convtr.bias,
        conv.convtr.stride,
        conv.convtr.groups,
        full,
        g,
        b,
        o,
        p,
    );
    let kernel = elements(w, g);
    let e = elements(x, g);
    let first = o / d[1] as int * per;
    let f = |s: int|
        if 0 <= p - s * stride < d[2] {
            total(
                per,
                |c: int|
                    kernel(seq![first + c, o % d[1] as int, p - s * stride]) * e(
                        seq![b, first + c, s],
                    ),
            )
        } else {
            0 as real
        };
    let h = |s: int|
        if 0 <= t + left - s * stride < d[2] {
            total(
                per,
                |c: int|
                    at(
                        w,
                        g,
                        seq![
                            o / d[1] as int * per + c,
                            o % d[1] as int,
                            t + left - s * stride,
                        ],
                    ) * (sig.sample)(b, o / d[1] as int * per + c, s),
            )
        } else {
            0 as real
        };
    assert forall|s: int| 0 <= s < sig.len implies #[trigger] f(s) == h(s) by {
        let ff = |c: int|
            kernel(seq![first + c, o % d[1] as int, p - s * stride]) * e(seq![b, first + c, s]);
        let hh = |c: int|
            at(
                w,
                g,
                seq![o / d[1] as int * per + c, o % d[1] as int, t + left - s * stride],
            ) * (sig.sample)(b, o / d[1] as int * per + c, s);
        assert forall|c: int| 0 <= c < per implies #[trigger] ff(c) == hh(c) by {}
        lemma_total(per, ff, hh);
    }
    lemma_total(sig.len, f, h);
}

/// A transposed convolution of a whole input adds up what its inputs spread over its outputs, and the
/// bias.
pub proof fn transposed_convolutions_spread_samples(
    conv: StreamableConvTranspose1d,
    x: Tensor,
    y: Tensor,
    g: Ground,
)
    requires
        conv.forwarded(Ok(x)) == Ok::<Tensor, Error>(y),
    ensures
        x.shape_of() is D3,
        y.shape_of() is D3,
        signal_of(y, g) == spread(conv, g, signal_of(x, g)),
{
    let over = monus(conv.convtr.k_size as int, conv.convtr.stride as int);
    let full = conv.convtr.forwarded(Ok(x))->Ok_0;
    let left = if conv.causal {
        0
    } else {
        (over - over / 2) as usize
    };
    let end = (dims(full)[2] - (over - left)) as usize;
    assert(crate::ops::narrow_of(Ok(full), 2, left, end) == Ok::<Tensor, Error>(y));
    let d = dims(full).update(2, (end - left) as usize);
    crate::shape::dims_of_shape(d);
    assert(dims(y) == d);
    assert(dims(y).len() == 3);
    let want = spread(conv, g, signal_of(x, g));
    assert forall|b: int, o: int, t: int| #[trigger]
        (signal_of(y, g).sample)(b, o, t) == (want.sample)(b, o, t) by {
        lemma_spread(conv, x, full, y, left, end, g, b, o, t);
    }
    assert(signal_of(y, g).sample =~= want.sample);
    assert(signal_of(y, g).len == want.len);
}

/// A signal whose samples are all activated.
pub open spec fn activated_signal(activation: Activation, g: Ground, sig: Signal) -> Signal {
    Signal {
        len: sig.len,
        sample: |b: int, c: int, t: int| activated(activation, g, (sig.sample)(b, c, t)),
    }
}

/// Two signals added sample by sample.
pub open spec fn mixed_signal(a: Signal, b: Signal) -> Signal {
    Signal {
        len: a.len,
        sample: |l: int, c: int, t: int| (a.sample)(l, c, t) + (b.sample)(l, c, t),
    }
}

proof fn lemma_activated_signal(activation: Activation, x: Tensor, y: Tensor, g: Ground)
    requires
        activation.applied(Ok(x)) == Ok::<Tensor, Error>(y),
    ensures
        y.shape_of() == x.shape_of(),
        signal_of(y, g) == activated_signal(activation, g, signal_of(x, g)),
{
    let want = activated_signal(activation, g, signal_of(x, g));
    activations_compute_their_functions(activation, x, y, g, seq![0, 0, 0]);
    assert forall|b: int, c: int, t: int| #[trigger]
        (signal_of(y, g).sample)(b, c, t) == (want.sample)(b, c, t) by {
        activations_compute_their_functions(activation, x, y, g, seq![b, c, t]);
    }
    assert(signal_of(y, g).sample =~= want.sample);
}

proof fn lemma_mixed_signal(a: Tensor, b: Tensor, y: Tensor, g: Ground)
    requires
        binary_of(BinaryOp::Add, Ok(a), Ok(b)) == Ok::<Tensor, Error>(y),
    ensures
        y.shape_of() == a.shape_of(),
        signal_of(y, g) == mixed_signal(signal_of(a, g), signal_of(b, g)),
{
    lemma_binary(BinaryOp::Add, a, b, y, g);
    let want = mixed_signal(signal_of(a, g), signal_of(b, g));
    assert forall|l: int, c: int, t: int| #[trigger]
        (signal_of(y, g).sample)(l, c, t) == (want.sample)(l, c, t) by {
        let i = seq![l, c, t];
        assert(at(y, g, i) == at(a, g, i) + at(b, g, i));
    }
    assert(signal_of(y, g).sample =~= want.sample);
}

/// A signal under the convolutions of a block from `i` on, activated before each.
pub open spec fn chained_signal(block: BlockModel, g: Ground, sig: Signal, i: int) -> Signal
    decreases block.block.len() - i,
{
    if i < 0 || i >= block.block.len() {
        sig
    } else {
        chained_signal(
            block,
            g,
            convolved(block.block[i], g, activated_signal(block.activation, g, sig)),
            i + 1,
        )
    }
}

/// A signal under a residual block: what the convolutions make of it, and itself, by way of the
/// shortcut where there is one.
pub open spec fn block_signal(block: BlockModel, g: Ground, sig: Signal) -> Signal {
    mixed_signal(
        chained_signal(block, g, sig, 0),
        match block.shortcut {
            None => sig,
            Some(c) => convolved(c, g, sig),
        },
    )
}

proof fn lemma_chained_error(block: BlockModel, e: Error, i: int)
    requires
        0 <= i,
    ensures
        block.chained(Err(e), i) is Err,
    decreases block.block.len() - i,
{
    if i < block.block.len() {
        lemma_chained_error(block, e, i + 1);
    }
}

proof fn lemma_chained(block: BlockModel, x: Tensor, i: int, y: Tensor, g: Ground)
    requires
        0 <= i <= block.block.len(),
        block.chained(Ok(x), i) == Ok::<Tensor, Error>(y),
    ensures
        signal_of(y, g) == chained_signal(block, g, signal_of(x, g), i),
    decreases block.block.len() - i,
{
    if i < block.block.len() {
        let r = block.activation.applied(Ok(x));
        let next = block.block[i].forwarded(r);
        if next is Err {
            lemma_chained_error(block, next->Err_0, i + 1);
        }
        let a = r->Ok_0;
        let z = next->Ok_0;
        lemma_activated_signal(block.activation, x, a, g);
        convolutions_sum_windows(block.block[i], a, z, g);
        lemma_chained(block, z, i + 1, y, g);
    }
}

/// A residual block adds its input, by way of the shortcut where there is one, to what its
/// convolutions make of the activated input.
pub proof fn residual_blocks_add_their_input(block: BlockModel, x: Tensor, y: Tensor, g: Ground)
    requires
        block.forwarded(Ok(x)) == Ok::<Tensor, Error>(y),
    ensures
        signal_of(y, g) == block_signal(block, g, signal_of(x, g)),
{
    let ys = block.chained(Ok(x), 0)->Ok_0;
    lemma_chained(block, x, 0, ys, g);
    if let Some(c) = block.shortcut {
        let short = c.forwarded(Ok(x))->Ok_0;
        convolutions_sum_windows(c, x, short, g);
        lemma_mixed_signal(ys, short, y, g);
    } else {
        lemma_mixed_signal(ys, x, y, g);
    }
}

/// A signal under residual blocks from `i` on.
pub open spec fn residual_signal(blocks: Seq<BlockModel>, g: Ground, sig: Signal, i: int) -> Signal
    decreases blocks.len() - i,
{
    if i < 0 || i >= blocks.len() {
        sig
    } else {
        residual_signal(blocks, g, block_signal(blocks[i], g, sig), i + 1)
    }
}

proof fn lemma_residuals(blocks: Seq<BlockModel>, x: Tensor, i: int, y: Tensor, g: Ground)
    requires
        0 <= i <= blocks.len(),
        residuals_forwarded(blocks, Ok(x), i) == Ok::<Tensor, Error>(y),
    ensures
        signal_of(y, g) == residual_signal(blocks, g, signal_of(x, g), i),
    decreases blocks.len() - i,
{
    if i < blocks.len() {
        let next = blocks[i].forwarded(Ok(x));
        if next is Err {
            assert(residuals_forwarded(blocks, next, i + 1) == next);
        }
        let z = next->Ok_0;
        residual_blocks_add_their_input(blocks[i], x, z, g);
        lemma_residuals(blocks, z, i + 1, y, g);
    }
}

/// A signal under the stages of an encoder from `i` on: residual blocks, the activation, and a
/// convolution that lowers the rate.
pub open spec fn encoded_signal(model: EncoderModel, g: Ground, sig: Signal, i: int) -> Signal
    decreases model.layers.len() - i,
{
    if i < 0 || i >= model.layers.len() {
        sig
    } else {
        let l = model.layers[i];
        encoded_signal(
            model,
            g,
            convolved(
                l.downsample,
                g,
                activated_signal(
                    model.activation,
                    g,
                    residual_signal(l.residuals, g, sig, 0),
                ),
            ),
            i + 1,
        )
    }
}

proof fn lemma_encoder_layer(l: EncoderLayerModel, activation: Activation, x: Tensor, y: Tensor, g: Ground)
    requires
        l.forwarded(activation, Ok(x)) == Ok::<Tensor, Error>(y),
    ensures
        signal_of(y, g) == convolved(
            l.downsample,
            g,
            activated_signal(
                activation,
                g,
                residual_signal(l.residuals, g, signal_of(x, g), 0),
            ),
        ),
{
    let r = residuals_forwarded(l.residuals, Ok(x), 0)->Ok_0;
    lemma_residuals(l.residuals, x, 0, r, g);
    let a = activation.applied(Ok(r))->Ok_0;
    lemma_activated_signal(activation, r, a, g);
    convolutions_sum_windows(l.downsample, a, y, g);
}

proof fn lemma_encoder_layers(model: EncoderModel, x: Tensor, i: int, y: Tensor, g: Ground)
    requires
        0 <= i <= model.layers.len(),
        model.layers_forwarded(Ok(x), i) == Ok::<Tensor, Error>(y),
    ensures
        signal_of(y, g) == encoded_signal(model, g, signal_of(x, g), i),
    decreases model.layers.len() - i,
{
    if i < model.layers.len() {
        let next = model.layers[i].forwarded(model.activation, Ok(x));
        if next is Err {
            assert(model.layers_forwarded(next, i + 1) == next);
        }
        let z = next->Ok_0;
        lemma_encoder_layer(model.layers[i], model.activation, x, z, g);
        lemma_encoder_layers(model, z, i + 1, y, g);
    }
}

/// An encoder convolves its input, takes it through its stages, activates every sample, each by the
/// function that the activation is named after, and convolves it again.
#[verifier::rlimit(40)]
pub proof fn encoders_convolve_activated_samples(model: EncoderModel, xs: Tensor, ys: Tensor, g: Ground)
    requires
        model.forwarded(Ok(xs)) == Ok::<Tensor, Error>(ys),
    ensures
        ({
            let low = encoded_signal(
                model,
                g,
                convolved(model.init_conv, g, signal_of(xs, g)),
                0,
            );
            signal_of(ys, g) == convolved(
                model.final_conv,
                g,
                Signal {
                    len: low.len,
                    sample: |b: int, c: int, t: int|
                        match model.activation {
                            Activation::Elu(alpha) => if (low.sample)(b, c, t) > 0 as real {
                                (low.sample)(b, c, t)
                            } else {
                                crate::value::single(alpha) * ((g.exp)((low.sample)(b, c, t))
                                    - 1 as real)
                            },
                            _ => activated(model.activation, g, (low.sample)(b, c, t)),
                        },
                },
            )
        }),
{
    let start = model.init_conv.forwarded(Ok(xs));
    if start is Err {
        assert(model.layers_forwarded(start, 0) is Err);
    }
    let x = start->Ok_0;
    convolutions_sum_windows(model.init_conv, xs, x, g);
    let z = model.layers_forwarded(Ok(x), 0)->Ok_0;
    lemma_encoder_layers(model, x, 0, z, g);
    let a = model.activation.applied(Ok(z))->Ok_0;
    lemma_activated_signal(model.activation, z, a, g);
    convolutions_sum_windows(model.final_conv, a, ys, g);
    let low = encoded_signal(model, g, convolved(model.init_conv, g, signal_of(xs, g)), 0);
    let lit = Signal {
        len: low.len,
        sample: |b: int, c: int, t: int|
            match model.activation {
                Activation::Elu(alpha) => if (low.sample)(b, c, t) > 0 as real {
                    (low.sample)(b, c, t)
                } else {
                    crate::value::single(alpha) * ((g.exp)((low.sample)(b, c, t)) - 1 as real)
                },
                _ => activated(model.activation, g, (low.sample)(b, c, t)),
            },
    };
    assert(lit.sample =~= activated_signal(model.activation, g, low).sample);
}

/// A signal under the stages of a decoder from `i` on: the activation, a transposed convolution that
/// raises the rate, and residual blocks.
pub open spec fn decoded_signal(model: DecoderModel, g: Ground, sig: Signal, i: int) -> Signal
    decreases model.layers.len() - i,
{
    if i < 0 || i >= model.layers.len() {
        sig
    } else {
        let l = model.layers[i];
        decoded_signal(
            model,
            g,
            residual_signal(
                l.residuals,
                g,
                spread(l.upsample, g, activated_signal(model.activation, g, sig)),
                0,
            ),
            i + 1,
        )
    }
}

proof fn lemma_decoder_layer(l: DecoderLayerModel, activation: Activation, x: Tensor, y: Tensor, g: Ground)
    requires
        l.forwarded(activation, Ok(x)) == Ok::<Tensor, Error>(y),
    ensures
        signal_of(y, g) == residual_signal(
            l.residuals,
            g,
            spread(l.upsample, g, activated_signal(activation, g, signal_of(x, g))),
            0,
        ),
{
    let up = l.upsample.forwarded(activation.applied(Ok(x)));
    if up is Err {
        assert(residuals_forwarded(l.residuals, up, 0) == up);
    }
    let a = activation.applied(Ok(x))->Ok_0;
    let u = up->Ok_0;
    lemma_activated_signal(activation, x, a, g);
    transposed_convolutions_spread_samples(l.upsample, a, u, g);
    lemma_residuals(l.residuals, u, 0, y, g);
}

proof fn lemma_decoder_layers(model: DecoderModel, x: Tensor, i: int, y: Tensor, g: Ground)
    requires
        0 <= i <= model.layers.len(),
        model.layers_forwarded(Ok(x), i) == Ok::<Tensor, Error>(y),
    ensures
        signal_of(y, g) == decoded_signal(model, g, signal_of(x, g), i),
    decreases model.layers.len() - i,
{
    if i < model.layers.len() {
        let next = model.layers[i].forwarded(model.activation, Ok(x));
        if next is Err {
            assert(model.layers_forwarded(next, i + 1) == next);
        }
        let z = next->Ok_0;
        lemma_decoder_layer(model.layers[i], model.activation, x, z, g);
        lemma_decoder_layers(model, z, i + 1, y, g);
    }
}

/// A decoder convolves its input, takes it through its stages, activates every sample, convolves it
/// again, and applies the last activation where there is one.
#[verifier::rlimit(40)]
pub proof fn decoders_convolve_activated_samples(model: DecoderModel, xs: Tensor, ys: Tensor, g: Ground)
    requires
        model.forwarded(Ok(xs)) == Ok::<Tensor, Error>(ys),
    ensures
        ({
            let high = convolved(
                model.final_conv,
                g,
                activated_signal(
                    model.activation,
                    g,
                    decoded_signal(
                        model,
                        g,
                        convolved(model.init_conv, g, signal_of(xs, g)),
                        0,
                    ),
                ),
            );
            signal_of(ys, g) == match model.final_activation {
                None => high,
                Some(act) => activated_signal(act, g, high),
            }
        }),
{
    let start = model.init_conv.forwarded(Ok(xs));
    if start is Err {
        assert(model.layers_forwarded(start, 0) is Err);
    }
    let x = start->Ok_0;
    convolutions_sum_windows(model.init_conv, xs, x, g);
    let z = model.layers_forwarded(Ok(x), 0)->Ok_0;
    lemma_decoder_layers(model, x, 0, z, g);
    let a = model.activation.applied(Ok(z))->Ok_0;
    lemma_activated_signal(model.activation, z, a, g);
    let u = model.final_conv.forwarded(Ok(a))->Ok_0;
    convolutions_sum_windows(model.final_conv, a, u, g);
    if let Some(act) = model.final_activation {
        lemma_activated_signal(act, u, ys, g);
    }
}

/// The square of the length of row `o` of a weight.
pub open spec fn row_square(v: Tensor, g: Ground, cols: int, taps: int, o: int) -> real {
    total(
        cols,
        |c: int|
            total(taps, |k: int| at(v, g, seq![o, c, k]) * at(v, g, seq![o, c, k])),
    )
}

proof fn lemma_row_square(
    v: Tensor,
    squares: Tensor,
    sums: Tensor,
    rows: usize,
    cols: usize,
    taps: usize,
    g: Ground,
    o: int,
)
    requires
        v.shape_of() == Shape::D3(rows, cols, taps),
        unary_of(UnaryOp::Sqr, Ok(v)) == Ok::<Tensor, Error>(squares),
        sum_keepdim_of(Ok(squares), 1, 2) == Ok::<Tensor, Error>(sums),
    ensures
        sums.shape_of() == Shape::D3(rows, 1, 1),
        at(sums, g, seq![o, 0, 0]) == row_square(v, g, cols as int, taps as int, o),
{
    lemma_unary(UnaryOp::Sqr, v, squares, g);
    let d = dims(squares);
    assert(d =~= seq![rows, cols, taps]);
    let e = elements(squares, g);
    let i = seq![o, 0, 0];
    assert(at(sums, g, i) == sum_over(e, d, 1, 2, i)) by {
        reveal(elements);
    }
    assert(sums.shape_of() == Shape::D3(rows, 1, 1)) by {
        let one = Seq::new(
            d.len(),
            |i: int|
                if 1 <= i <= 2 {
                    1usize
                } else {
                    d[i]
                },
        );
        assert(one =~= seq![rows, 1, 1]);
        assert(crate::shape::shape_of(seq![rows, 1, 1]) == Shape::D3(rows, 1, 1));
    }
    let h = |c: int| total(taps as int, |k: int| at(v, g, seq![o, c, k]) * at(v, g, seq![o, c, k]));
    assert forall|c: int| 0 <= c < d[1] implies #[trigger] h(c) == sum_over(
        e,
        d,
        2,
        2,
        i.update(1, c),
    ) by {
        let j = i.update(1, c);
        let hh = |k: int| at(v, g, seq![o, c, k]) * at(v, g, seq![o, c, k]);
        assert forall|k: int| 0 <= k < d[2] implies #[trigger] hh(k) == sum_over(
            e,
            d,
            3,
            2,
            j.update(2, k),
        ) by {
            assert(j.update(2, k) =~= seq![o, c, k]);
            assert(at(squares, g, seq![o, c, k]) == at(v, g, seq![o, c, k]) * at(v, g, seq![o, c, k]));
        }
        lemma_sum_over(e, d, 2, 2, j, hh);
    }
    lemma_sum_over(e, d, 1, 2, i, h);
}

/// A weight that is stored as directions and magnitudes has in each row the direction, scaled from
/// its own length to the magnitude.
#[verifier::rlimit(40)]
pub proof fn weight_norms_scale_directions(
    vb: Weights,
    rows: usize,
    cols: usize,
    taps: usize,
    magnitude: Tensor,
    direction: Tensor,
    w: Tensor,
    g: Ground,
    o: int,
    c: int,
    k: int,
)
    requires
        !vb.has("weight"),
        weight_of(vb, "weight_g", Shape::D3(rows, 1, 1)) == Ok::<Tensor, Error>(magnitude),
        magnitude.shape_of() == Shape::D3(rows, 1, 1),
        weight_of(vb, "weight_v", Shape::D3(rows, cols, taps)) == Ok::<Tensor, Error>(direction),
        direction.shape_of() == Shape::D3(rows, cols, taps),
        norm_weight_of(vb, Some(Norm::WeightNorm), rows, cols, taps) == Ok::<Tensor, Error>(w),
        0 <= o < rows,
        0 <= c < cols,
        0 <= k < taps,
    ensures
        w.shape_of() == Shape::D3(rows, cols, taps),
        at(w, g, seq![o, c, k]) == at(direction, g, seq![o, c, k]) * at(magnitude, g, seq![o, 0, 0])
            / (g.sqrt)(row_square(direction, g, cols as int, taps as int, o)),
{
    let squares = unary_of(UnaryOp::Sqr, Ok(direction))->Ok_0;
    let sums = sum_keepdim_of(Ok(squares), 1, 2)->Ok_0;
    lemma_row_square(direction, squares, sums, rows, cols, taps, g, o);
    let lengths = unary_of(UnaryOp::Sqrt, Ok(sums))->Ok_0;
    lemma_unary(UnaryOp::Sqrt, sums, lengths, g);
    let scaled = broadcast_of(BinaryOp::Mul, Ok(direction), Ok(magnitude))->Ok_0;
    let (a, b) = (seq![rows, cols, taps], seq![rows, 1usize, 1usize]);
    assert(dims(direction) =~= a);
    assert(dims(magnitude) =~= b);
    assert(dims(lengths) =~= b);
    assert(broadcast_dims(a, b) =~= a);
    lemma_broadcast(BinaryOp::Mul, direction, magnitude, scaled, g);
    lemma_broadcast(BinaryOp::Div, scaled, lengths, w, g);
    let i = seq![o, c, k];
    assert(dims(scaled) =~= a);
    lemma_fitted(a, i);
    if rows == 1 {
        assert(o == 0);
    }
    assert(fitted(b, i) =~= seq![o, 0, 0]);
}

} // verus!
