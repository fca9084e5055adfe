//! How many columns the encoder and the decoder put out for how many they are fed.
use crate::checkpoint::{weight_of, Format, Weights};
use crate::conv::{
    lemma_windows_fit, monus, norm_weight_of, pad1d_of, window_count, Conv1dState, ConvTr1dState,
    Norm, PadMode, StreamableConv1d, StreamableConvTranspose1d,
};
use crate::error::Error;
use crate::ops::{binary_of, cat2_of, dim_of, narrow_of, sum_keepdim_of, unary_of};
use crate::seanet::{
    norm_unless, residuals_loaded, residuals_stepped, Activation, Config, BlockModel,
    BlockStateModel, DecoderLayerModel, DecoderLayerStateModel, DecoderModel, DecoderStateModel,
    EncoderLayerModel, EncoderLayerStateModel, EncoderModel, EncoderStateModel,
};
use crate::shape::{broadcast_dims, broadcast_shape, broadcastable, word, Shape};
use crate::streaming::masked_state;
use crate::tensor::{BinaryOp, Tensor, UnaryOp};
use crate::timeline::steps;
use vstd::arithmetic::div_mod::{
    lemma_div_denominator, lemma_fundamental_div_mod, lemma_fundamental_div_mod_converse,
};
use vstd::arithmetic::power::pow;
use vstd::arithmetic::power2::pow2;
use vstd::prelude::*;

verus! {

/// The number of columns of a step's output.
pub open spec fn columns(out: Option<Tensor>) -> int {
    match out {
        None => 0,
        Some(y) => steps(y),
    }
}

/// A tensor of three dimensions, where there is one.
pub open spec fn flat(out: Option<Tensor>) -> bool {
    out matches Some(y) ==> y.shape_of() is D3
}

/// Whether a state is that of a convolution that was fed `n` columns: it keeps the columns, padding
/// included, from the first window on that is not whole.
pub open spec fn fed(conv: StreamableConv1d, state: Conv1dState, n: int) -> bool {
    let stride = conv.conv.stride as int;
    let kept = conv.span() - stride + n - (n / stride) * stride;
    &&& n >= 0
    &&& if !state.left_pad_applied {
        n == 0 && state.prev_xs is None
    } else {
        match state.prev_xs {
            None => kept == 0,
            Some(p) => p.shape_of() is D3 && steps(p) == kept,
        }
    }
}

/// A convolution that steps by `stride` and has the kernel that it was made for.
pub open spec fn steps_by(conv: StreamableConv1d, stride: int) -> bool {
    &&& conv.wf()
    &&& conv.conv.stride == stride
    &&& 1 <= stride <= conv.span()
}

proof fn lemma_windows_of_fed(n: int, more: int, span: int, stride: int)
    requires
        0 <= n,
        0 <= more,
        1 <= stride <= span,
    ensures
        ({
            let before = n / stride;
            let kept = span - stride + n - before * stride;
            let frames = window_count(kept + more, span, stride);
            &&& 0 <= kept
            &&& before + frames == (n + more) / stride
            &&& kept + more - frames * stride == span - stride + (n + more) - ((n + more) / stride)
                * stride
        }),
{
    let before = n / stride;
    let kept = span - stride + n - before * stride;
    lemma_fundamental_div_mod(n, stride);
    assert(stride * before == before * stride) by (nonlinear_arith);
    let x = kept + more + stride - span;
    assert(x == n + more - before * stride);
    lemma_fundamental_div_mod(x, stride);
    let q = x / stride;
    assert(stride * (before + q) == before * stride + stride * q) by (nonlinear_arith);
    lemma_fundamental_div_mod_converse(n + more, stride, before + q, x % stride);
    assert((before + q) * stride == before * stride + q * stride) by (nonlinear_arith);
}

/// The state that a step keeps has as many columns as the new one, whatever lanes it takes in.
proof fn lemma_mask_keeps_steps(
    new: Tensor,
    old: Option<Tensor>,
    mask: Option<Seq<bool>>,
    kept: Tensor,
)
    requires
        new.shape_of() is D3,
        masked_state(Some(new), old, mask) == Ok::<Option<Tensor>, Error>(Some(kept)),
    ensures
        kept.shape_of() is D3,
        steps(kept) == steps(new),
{
    if let Some(flags) = mask {
        let a = new.shape_of().dims();
        let b = Shape::D3(flags.len() as usize, 1, 1).dims();
        assert(broadcast_dims(a, b).len() == 3);
        assert(broadcast_dims(a, b)[2] == a[2]);
    }
}

/// A step works on what was kept and what is new.
proof fn lemma_gathered_steps(
    conv: StreamableConv1d,
    stride: int,
    n: int,
    x: Tensor,
    state: Conv1dState,
    all: Tensor,
)
    requires
        steps_by(conv, stride),
        fed(conv, state, n),
        x.shape_of() is D3,
        conv.span() <= usize::MAX,
        conv.gathered(x, state, conv.span() as usize) == Ok::<Tensor, Error>(all),
    ensures
        all.shape_of() is D3,
        steps(all) == conv.span() - stride + n - (n / stride) * stride + steps(x),
{
    let span = conv.span();
    if n == 0 {
        lemma_fundamental_div_mod_converse(0, stride, 0, 0);
        assert(0 * stride == 0);
    }
    if !state.left_pad_applied {
        assert(pad1d_of(Ok(x), (span - stride) as usize, 0, conv.pad_mode) == Ok::<Tensor, Error>(
            all,
        ));
    } else if let Some(p) = state.prev_xs {
        let s = seq![p, x];
        reveal_with_fuel(crate::ops::cat_shape, 3);
        assert(s.drop_last() =~= seq![p]);
    }
}

/// A step on the columns `all` keeps those that no whole window consumes, and puts out one column
/// for each whole window.
proof fn lemma_advanced_steps(
    conv: StreamableConv1d,
    stride: int,
    all: Tensor,
    state: Conv1dState,
    mask: Option<Seq<bool>>,
    next: Conv1dState,
    out: Option<Tensor>,
)
    requires
        steps_by(conv, stride),
        conv.span() <= usize::MAX,
        all.shape_of() is D3,
        conv.advanced(all, state, conv.span() as usize, mask) == (
            next,
            Ok::<Option<Tensor>, Error>(out),
        ),
    ensures
        ({
            let m = window_count(steps(all), conv.span(), stride);
            &&& next.left_pad_applied
            &&& match next.prev_xs {
                None => steps(all) == m * stride,
                Some(p) => p.shape_of() is D3 && steps(p) == steps(all) - m * stride,
            }
            &&& columns(out) == m
            &&& flat(out)
        }),
{
    let span = conv.span();
    let len = steps(all);
    let m = window_count(len, span, stride);
    lemma_windows_fit(len, span, stride);
    if m == 0 {
        assert(0 * stride == 0);
        lemma_mask_keeps_steps(all, state.prev_xs, mask, next.prev_xs->0);
    } else {
        if len > m * stride {
            let rest = narrow_of(Ok(all), 2, (m * stride) as usize, len as usize)->Ok_0;
            assert(rest.shape_of() is D3 && steps(rest) == len - m * stride);
            lemma_mask_keeps_steps(rest, state.prev_xs, mask, next.prev_xs->0);
        }
        let in_l = (m - 1) * stride + span;
        let part = narrow_of(Ok(all), 2, 0, in_l as usize)->Ok_0;
        assert(part.shape_of() is D3 && steps(part) == in_l);
        let y = out->0;
        assert(conv.conv.forwarded(Ok(part)) == Ok::<Tensor, Error>(y));
        assert((m - 1) * stride == stride * (m - 1)) by (nonlinear_arith);
        lemma_fundamental_div_mod_converse(in_l - span, stride, m - 1, 0);
    }
}

/// A convolution that was fed `n` columns and is fed more puts out one column for each step that
/// the sum completes, whatever lanes it takes in.
pub proof fn conv_rate(
    conv: StreamableConv1d,
    stride: int,
    n: int,
    x: Tensor,
    state: Conv1dState,
    mask: Option<Seq<bool>>,
    next: Conv1dState,
    out: Option<Tensor>,
)
    requires
        steps_by(conv, stride),
        fed(conv, state, n),
        x.shape_of() is D3,
        conv.stepped(Some(x), state, mask) == (next, Ok::<Option<Tensor>, Error>(out)),
    ensures
        fed(conv, next, n + steps(x)),
        columns(out) == (n + steps(x)) / stride - n / stride,
        flat(out),
{
    let span = conv.span();
    let all = conv.gathered(x, state, span as usize)->Ok_0;
    lemma_gathered_steps(conv, stride, n, x, state, all);
    lemma_advanced_steps(conv, stride, all, state, mask, next, out);
    lemma_windows_of_fed(n, steps(x), span, stride);
}

/// A residual block whose convolutions keep the rate.
pub open spec fn keeps_rate(block: BlockModel) -> bool {
    &&& forall|i: int| 0 <= i < block.block.len() ==> steps_by(#[trigger] block.block[i], 1)
    &&& block.shortcut matches Some(c) ==> steps_by(c, 1)
}

/// Whether a state is that of a residual block that was fed `n` columns.
pub open spec fn block_fed(block: BlockModel, state: BlockStateModel, n: int) -> bool {
    &&& state.block_convs.len() == block.block.len()
    &&& forall|i: int|
        0 <= i < block.block.len() ==> fed(block.block[i], #[trigger] state.block_convs[i], n)
    &&& match (block.shortcut, state.shortcut) {
        (None, _) => true,
        (Some(c), Some(s)) => fed(c, s, n),
        (Some(_), None) => false,
    }
}

/// A step of the convolutions from `i` on.
proof fn lemma_convs_rate(
    block: BlockModel,
    n: int,
    ys: Option<Tensor>,
    states: Seq<Conv1dState>,
    i: int,
    mask: Option<Seq<bool>>,
    next: Seq<Conv1dState>,
    out: Option<Tensor>,
)
    requires
        keeps_rate(block),
        n >= 0,
        0 <= i <= block.block.len(),
        states.len() == block.block.len(),
        flat(ys),
        columns(ys) >= 0,
        forall|j: int|
            0 <= j < states.len() ==> fed(
                block.block[j],
                #[trigger] states[j],
                if j < i {
                    n + columns(ys)
                } else {
                    n
                },
            ),
        block.convs_stepped(ys, states, mask, i) == (next, Ok::<Option<Tensor>, Error>(out)),
    ensures
        next.len() == states.len(),
        forall|j: int|
            0 <= j < states.len() ==> fed(
                block.block[j],
                #[trigger] next[j],
                n + columns(ys),
            ),
        columns(out) == columns(ys),
        flat(out),
    decreases block.block.len() - i,
{
    let m = columns(ys);
    if i < block.block.len() {
        match ys {
            None => {
                assert forall|j: int| 0 <= j < states.len() implies fed(
                    block.block[j],
                    #[trigger] states[j],
                    if j < i + 1 {
                        n + columns(ys)
                    } else {
                        n
                    },
                ) by {}
                lemma_convs_rate(block, n, ys, states, i + 1, mask, next, out);
            },
            Some(y) => {
                let z = block.activation.applied(Ok(y))->Ok_0;
                let (s, r) = block.block[i].stepped(Some(z), states[i], mask);
                let step = r->Ok_0;
                assert(steps_by(block.block[i], 1));
                assert(fed(block.block[i], states[i], n));
                conv_rate(block.block[i], 1, n, z, states[i], mask, s, step);
                assert(columns(step) == m) by {
                    assert((n + m) / 1 == n + m);
                    assert(n / 1 == n);
                }
                let updated = states.update(i, s);
                assert forall|j: int| 0 <= j < updated.len() implies fed(
                    block.block[j],
                    #[trigger] updated[j],
                    if j < i + 1 {
                        n + columns(step)
                    } else {
                        n
                    },
                ) by {
                    if j != i {
                        assert(updated[j] == states[j]);
                    }
                }
                lemma_convs_rate(block, n, step, updated, i + 1, mask, next, out);
            },
        }
    }
}

/// A residual block puts out as many columns as it is fed, whatever lanes a step takes in.
pub proof fn block_rate(
    block: BlockModel,
    n: int,
    xs: Option<Tensor>,
    state: BlockStateModel,
    mask: Option<Seq<bool>>,
    next: BlockStateModel,
    out: Option<Tensor>,
)
    requires
        keeps_rate(block),
        n >= 0,
        block_fed(block, state, n),
        flat(xs),
        block.stepped(xs, state, mask) == (next, Ok::<Option<Tensor>, Error>(out)),
    ensures
        block_fed(block, next, n + columns(xs)),
        columns(out) == columns(xs),
        flat(out),
{
    if let Some(x) = xs {
        let m = steps(x);
        let (convs, r) = block.convs_stepped(Some(x), state.block_convs, mask, 0);
        let ys = r->Ok_0;
        lemma_convs_rate(block, n, Some(x), state.block_convs, 0, mask, convs, ys);
        if ys is None {
            // There was nothing to put in.
            assert(m == 0);
        } else if let Some(c) = block.shortcut {
            let st = state.shortcut->0;
            let (st2, r2) = c.stepped(Some(x), st, mask);
            conv_rate(c, 1, n, x, st, mask, st2, r2->Ok_0);
            assert((n + m) / 1 == n + m);
            assert(n / 1 == n);
        }
    }
}

/// Whether states are those of residual blocks that were fed `n` columns each.
pub open spec fn blocks_fed(blocks: Seq<BlockModel>, states: Seq<BlockStateModel>, n: int) -> bool {
    &&& states.len() == blocks.len()
    &&& forall|i: int|
        0 <= i < blocks.len() ==> block_fed(blocks[i], #[trigger] states[i], n)
}

pub open spec fn all_keep_rate(blocks: Seq<BlockModel>) -> bool {
    forall|i: int| 0 <= i < blocks.len() ==> keeps_rate(#[trigger] blocks[i])
}

proof fn lemma_blocks_rate(
    blocks: Seq<BlockModel>,
    n: int,
    xs: Option<Tensor>,
    states: Seq<BlockStateModel>,
    i: int,
    mask: Option<Seq<bool>>,
    next: Seq<BlockStateModel>,
    out: Option<Tensor>,
)
    requires
        all_keep_rate(blocks),
        n >= 0,
        0 <= i <= blocks.len(),
        states.len() == blocks.len(),
        flat(xs),
        columns(xs) >= 0,
        forall|j: int|
            0 <= j < states.len() ==> block_fed(
                blocks[j],
                #[trigger] states[j],
                if j < i {
                    n + columns(xs)
                } else {
                    n
                },
            ),
        residuals_stepped(blocks, xs, states, mask, i) == (
            next,
            Ok::<Option<Tensor>, Error>(out),
        ),
    ensures
        blocks_fed(blocks, next, n + columns(xs)),
        columns(out) == columns(xs),
        flat(out),
    decreases blocks.len() - i,
{
    if i < blocks.len() {
        let (s, r) = blocks[i].stepped(xs, states[i], mask);
        let ys = r->Ok_0;
        assert(keeps_rate(blocks[i]));
        assert(block_fed(blocks[i], states[i], n));
        block_rate(blocks[i], n, xs, states[i], mask, s, ys);
        let updated = states.update(i, s);
        assert forall|j: int| 0 <= j < updated.len() implies block_fed(
            blocks[j],
            #[trigger] updated[j],
            if j < i + 1 {
                n + columns(ys)
            } else {
                n
            },
        ) by {
            if j != i {
                assert(updated[j] == states[j]);
            }
        }
        lemma_blocks_rate(blocks, n, ys, updated, i + 1, mask, next, out);
    }
}

/// A stage of the encoder that divides the rate by `ratio`.
pub open spec fn divides_by(layer: EncoderLayerModel, ratio: int) -> bool {
    all_keep_rate(layer.residuals) && steps_by(layer.downsample, ratio)
}

/// Whether a state is that of a stage that was fed `n` columns.
pub open spec fn encoder_layer_fed(
    layer: EncoderLayerModel,
    state: EncoderLayerStateModel,
    n: int,
) -> bool {
    blocks_fed(layer.residuals, state.residuals, n) && fed(layer.downsample, state.downsample, n)
}

/// A stage of the encoder puts out one column for each `ratio` that it is fed.
pub proof fn encoder_layer_rate(
    layer: EncoderLayerModel,
    activation: Activation,
    ratio: int,
    n: int,
    xs: Option<Tensor>,
    state: EncoderLayerStateModel,
    mask: Option<Seq<bool>>,
    next: EncoderLayerStateModel,
    out: Option<Tensor>,
)
    requires
        divides_by(layer, ratio),
        n >= 0,
        encoder_layer_fed(layer, state, n),
        flat(xs),
        layer.stepped(activation, xs, state, mask) == (next, Ok::<Option<Tensor>, Error>(out)),
    ensures
        encoder_layer_fed(layer, next, n + columns(xs)),
        columns(out) == (n + columns(xs)) / ratio - n / ratio,
        flat(out),
{
    let (residuals, r) = residuals_stepped(layer.residuals, xs, state.residuals, mask, 0);
    let ys = r->Ok_0;
    lemma_blocks_rate(layer.residuals, n, xs, state.residuals, 0, mask, residuals, ys);
    if let Some(y) = ys {
        let z = activation.applied(Ok(y))->Ok_0;
        conv_rate(layer.downsample, ratio, n, z, state.downsample, mask, next.downsample, out);
    }
}

/// The product of the first `i` ratios.
pub open spec fn rate(ratios: Seq<int>, i: int) -> int
    decreases i,
{
    if i <= 0 {
        1
    } else {
        rate(ratios, i - 1) * ratios[i - 1]
    }
}

pub open spec fn positive(ratios: Seq<int>) -> bool {
    forall|i: int| 0 <= i < ratios.len() ==> #[trigger] ratios[i] >= 1
}

pub(crate) proof fn lemma_rate_positive(ratios: Seq<int>, i: int)
    requires
        positive(ratios),
        0 <= i <= ratios.len(),
    ensures
        rate(ratios, i) >= 1,
    decreases i,
{
    if i > 0 {
        lemma_rate_positive(ratios, i - 1);
        let a = rate(ratios, i - 1);
        let b = ratios[i - 1];
        assert(a * b >= 1) by (nonlinear_arith)
            requires
                a >= 1,
                b >= 1,
        ;
    }
}

/// An encoder whose stages divide the rate by `ratios`, in turn.
pub open spec fn encodes_by(encoder: EncoderModel, ratios: Seq<int>) -> bool {
    &&& steps_by(encoder.init_conv, 1)
    &&& steps_by(encoder.final_conv, 1)
    &&& encoder.layers.len() == ratios.len()
    &&& positive(ratios)
    &&& forall|i: int|
        0 <= i < ratios.len() ==> divides_by(#[trigger] encoder.layers[i], ratios[i])
}

/// Whether a state is that of an encoder that was fed `n` columns: every stage was fed what the
/// stages before it leave of them.
pub open spec fn encoder_fed(
    encoder: EncoderModel,
    ratios: Seq<int>,
    state: EncoderStateModel,
    n: int,
) -> bool {
    &&& fed(encoder.init_conv, state.init_conv, n)
    &&& state.layers.len() == encoder.layers.len()
    &&& forall|i: int|
        0 <= i < encoder.layers.len() ==> encoder_layer_fed(
            encoder.layers[i],
            #[trigger] state.layers[i],
            n / rate(ratios, i),
        )
    &&& fed(encoder.final_conv, state.final_conv, n / rate(ratios, ratios.len() as int))
}

proof fn lemma_encoder_layers_rate(
    encoder: EncoderModel,
    ratios: Seq<int>,
    n: int,
    more: int,
    xs: Option<Tensor>,
    states: Seq<EncoderLayerStateModel>,
    i: int,
    mask: Option<Seq<bool>>,
    next: Seq<EncoderLayerStateModel>,
    out: Option<Tensor>,
)
    requires
        encodes_by(encoder, ratios),
        n >= 0,
        more >= 0,
        0 <= i <= encoder.layers.len(),
        states.len() == encoder.layers.len(),
        flat(xs),
        columns(xs) == (n + more) / rate(ratios, i) - n / rate(ratios, i),
        forall|j: int|
            0 <= j < states.len() ==> encoder_layer_fed(
                encoder.layers[j],
                #[trigger] states[j],
                (if j < i {
                    n + more
                } else {
                    n
                }) / rate(ratios, j),
            ),
        encoder.layers_stepped(xs, states, mask, i) == (next, Ok::<Option<Tensor>, Error>(out)),
    ensures
        next.len() == states.len(),
        forall|j: int|
            0 <= j < states.len() ==> encoder_layer_fed(
                encoder.layers[j],
                #[trigger] next[j],
                (n + more) / rate(ratios, j),
            ),
        columns(out) == (n + more) / rate(ratios, ratios.len() as int) - n / rate(
            ratios,
            ratios.len() as int,
        ),
        flat(out),
    decreases encoder.layers.len() - i,
{
    if i < encoder.layers.len() {
        let before = rate(ratios, i);
        let ratio = ratios[i];
        lemma_rate_positive(ratios, i);
        let a = n / before;
        let b = (n + more) / before;
        assert(a >= 0) by (nonlinear_arith)
            requires
                a == n / before,
                n >= 0,
                before >= 1,
        ;
        let (s, r) = encoder.layers[i].stepped(encoder.activation, xs, states[i], mask);
        let ys = r->Ok_0;
        assert(divides_by(encoder.layers[i], ratio));
        assert(encoder_layer_fed(encoder.layers[i], states[i], a));
        encoder_layer_rate(encoder.layers[i], encoder.activation, ratio, a, xs, states[i], mask, s, ys);
        lemma_div_denominator(n, before, ratio);
        lemma_div_denominator(n + more, before, ratio);
        assert(rate(ratios, i + 1) == before * ratio);
        let updated = states.update(i, s);
        assert forall|j: int| 0 <= j < updated.len() implies encoder_layer_fed(
            encoder.layers[j],
            #[trigger] updated[j],
            (if j < i + 1 {
                n + more
            } else {
                n
            }) / rate(ratios, j),
        ) by {
            if j != i {
                assert(updated[j] == states[j]);
            }
        }
        lemma_encoder_layers_rate(encoder, ratios, n, more, ys, updated, i + 1, mask, next, out);
    }
}

/// The encoder puts out one latent frame for as many samples as the product of its ratios says,
/// however the samples are cut into steps: after `n` samples there are `n` divided by the product,
/// rounded down.
pub proof fn encoder_rate(
    encoder: EncoderModel,
    ratios: Seq<int>,
    n: int,
    xs: Option<Tensor>,
    state: EncoderStateModel,
    mask: Option<Seq<bool>>,
    next: EncoderStateModel,
    out: Option<Tensor>,
)
    requires
        encodes_by(encoder, ratios),
        encoder_fed(encoder, ratios, state, n),
        flat(xs),
        encoder.stepped(xs, state, mask) == (next, Ok::<Option<Tensor>, Error>(out)),
    ensures
        encoder_fed(encoder, ratios, next, n + columns(xs)),
        columns(out) == (n + columns(xs)) / rate(ratios, ratios.len() as int) - n / rate(
            ratios,
            ratios.len() as int,
        ),
        flat(out),
{
    let more = columns(xs);
    let total = rate(ratios, ratios.len() as int);
    lemma_rate_positive(ratios, ratios.len() as int);
    let (init_conv, r) = encoder.init_conv.stepped(xs, state.init_conv, mask);
    let ys = r->Ok_0;
    assert(more >= 0);
    if let Some(x) = xs {
        conv_rate(encoder.init_conv, 1, n, x, state.init_conv, mask, init_conv, ys);
        assert((n + more) / 1 == n + more);
    }
    assert(n / 1 == n);
    assert(rate(ratios, 0) == 1);
    let (layers, r2) = encoder.layers_stepped(ys, state.layers, mask, 0);
    let zs = r2->Ok_0;
    lemma_encoder_layers_rate(encoder, ratios, n, more, ys, state.layers, 0, mask, layers, zs);
    let a = n / total;
    if let Some(z) = zs {
        let w = encoder.activation.applied(Ok(z))->Ok_0;
        conv_rate(encoder.final_conv, 1, a, w, state.final_conv, mask, next.final_conv, out);
        assert((a + steps(w)) / 1 == a + steps(w));
        assert(a / 1 == a);
    }
}

/// A fresh convolution was fed nothing.
proof fn lemma_fresh_fed(conv: StreamableConv1d)
    ensures
        fed(conv, StreamableConv1d::fresh_state(), 0),
{
}

proof fn lemma_fresh_block_fed(block: BlockModel)
    ensures
        block_fed(block, block.fresh_state(), 0),
{
    let st = block.fresh_state();
    assert forall|i: int| 0 <= i < block.block.len() implies fed(
        block.block[i],
        #[trigger] st.block_convs[i],
        0,
    ) by {
        lemma_fresh_fed(block.block[i]);
    }
    if let Some(c) = block.shortcut {
        lemma_fresh_fed(c);
    }
}

proof fn lemma_fresh_blocks_fed(blocks: Seq<BlockModel>)
    ensures
        blocks_fed(blocks, crate::seanet::residuals_fresh(blocks), 0),
{
    let states = crate::seanet::residuals_fresh(blocks);
    assert forall|i: int| 0 <= i < blocks.len() implies block_fed(
        blocks[i],
        #[trigger] states[i],
        0,
    ) by {
        lemma_fresh_block_fed(blocks[i]);
    }
}

/// A fresh encoder was fed nothing.
pub proof fn fresh_encoder_is_unfed(encoder: EncoderModel, ratios: Seq<int>)
    requires
        encodes_by(encoder, ratios),
    ensures
        encoder_fed(encoder, ratios, encoder.fresh_state(), 0),
{
    let st = encoder.fresh_state();
    lemma_fresh_fed(encoder.init_conv);
    lemma_fresh_fed(encoder.final_conv);
    assert forall|i: int| 0 <= i < encoder.layers.len() implies encoder_layer_fed(
        encoder.layers[i],
        #[trigger] st.layers[i],
        0int / rate(ratios, i),
    ) by {
        lemma_rate_positive(ratios, i);
        lemma_fundamental_div_mod_converse(0, rate(ratios, i), 0, 0);
        lemma_fresh_blocks_fed(encoder.layers[i].residuals);
        lemma_fresh_fed(encoder.layers[i].downsample);
    }
    lemma_rate_positive(ratios, ratios.len() as int);
    lemma_fundamental_div_mod_converse(0, rate(ratios, ratios.len() as int), 0, 0);
}

/// A transposed convolution that spreads a column over `stride` and has the kernel that it was made
/// for.
pub open spec fn spreads_by(conv: StreamableConvTranspose1d, stride: int) -> bool {
    &&& conv.wf()
    &&& conv.convtr.stride == stride
    &&& 1 <= stride <= conv.kernel_size
}

/// Whether a state is that of a transposed convolution that was fed `n` columns: it keeps the
/// outputs that the next column reaches.
pub open spec fn tr_fed(conv: StreamableConvTranspose1d, state: ConvTr1dState, n: int) -> bool {
    &&& n >= 0
    &&& match state.prev_ys {
        None => n == 0 || conv.kernel_size == conv.convtr.stride,
        Some(p) => n > 0 && p.shape_of() is D3 && steps(p) == conv.kernel_size
            - conv.convtr.stride,
    }
}

/// A transposed convolution puts out `stride` columns for each that it is fed.
pub proof fn tr_rate(
    conv: StreamableConvTranspose1d,
    stride: int,
    n: int,
    x: Tensor,
    state: ConvTr1dState,
    mask: Option<Seq<bool>>,
    next: ConvTr1dState,
    out: Option<Tensor>,
)
    requires
        spreads_by(conv, stride),
        tr_fed(conv, state, n),
        x.shape_of() is D3,
        conv.stepped(Some(x), state, mask) == (next, Ok::<Option<Tensor>, Error>(out)),
    ensures
        tr_fed(conv, next, n + steps(x)),
        columns(out) == steps(x) * stride,
        flat(out),
{
    let k = conv.kernel_size as int;
    let t = steps(x);
    let fresh = conv.convtr.forwarded(Ok(x))->Ok_0;
    let ot = steps(fresh);
    assert(t >= 1);
    assert((t - 1) * stride == t * stride - stride) by (nonlinear_arith);
    assert(t * stride >= 1) by (nonlinear_arith)
        requires
            t >= 1,
            stride >= 1,
    ;
    assert(ot == t * stride - stride + k);
    assert(dim_of(Ok(fresh), 2) == Ok::<usize, Error>(ot as usize));
    let ys = conv.overlapped(fresh, state.prev_ys)->Ok_0;
    assert(ys.shape_of() is D3 && steps(ys) == ot) by {
        if let Some(p) = state.prev_ys {
            let pt = steps(p) as usize;
            let head = narrow_of(Ok(fresh), 2, 0, pt)->Ok_0;
            let tail = narrow_of(Ok(fresh), 2, pt, ot as usize)->Ok_0;
            assert(head.shape_of() is D3 && steps(head) == pt);
            assert(tail.shape_of() is D3 && steps(tail) == ot - pt);
            let unbiased = match conv.convtr.bias {
                None => p,
                Some(bias) => crate::ops::broadcast_of(
                    BinaryOp::Sub,
                    Ok(p),
                    Ok(crate::conv::bias_column(bias)->Ok_0),
                )->Ok_0,
            };
            let sum = binary_of(BinaryOp::Add, Ok(head), Ok(unbiased))->Ok_0;
            assert(sum.shape_of() == head.shape_of());
            assert(cat2_of(Ok(sum), Ok(tail), 2) == Ok::<Tensor, Error>(ys));
            let s = seq![sum, tail];
            reveal_with_fuel(crate::ops::cat_shape, 3);
            assert(s.drop_last() =~= seq![sum]);
        }
    }
    assert(monus(ot, k - stride) == t * stride);
    if k > stride {
        let rest = narrow_of(Ok(ys), 2, (t * stride) as usize, ot as usize)->Ok_0;
        lemma_mask_keeps_steps(rest, state.prev_ys, mask, next.prev_ys->0);
    }
}

/// A stage of the decoder that multiplies the rate by `ratio`.
pub open spec fn multiplies_by(layer: DecoderLayerModel, ratio: int) -> bool {
    all_keep_rate(layer.residuals) && spreads_by(layer.upsample, ratio)
}

/// Whether a state is that of a stage that was fed `n` columns.
pub open spec fn decoder_layer_fed(
    layer: DecoderLayerModel,
    state: DecoderLayerStateModel,
    ratio: int,
    n: int,
) -> bool {
    blocks_fed(layer.residuals, state.residuals, n * ratio) && tr_fed(
        layer.upsample,
        state.upsample,
        n,
    )
}

/// A stage of the decoder puts out `ratio` columns for each that it is fed.
pub proof fn decoder_layer_rate(
    layer: DecoderLayerModel,
    activation: Activation,
    ratio: int,
    n: int,
    xs: Option<Tensor>,
    state: DecoderLayerStateModel,
    mask: Option<Seq<bool>>,
    next: DecoderLayerStateModel,
    out: Option<Tensor>,
)
    requires
        multiplies_by(layer, ratio),
        n >= 0,
        decoder_layer_fed(layer, state, ratio, n),
        flat(xs),
        layer.stepped(activation, xs, state, mask) == (next, Ok::<Option<Tensor>, Error>(out)),
    ensures
        decoder_layer_fed(layer, next, ratio, n + columns(xs)),
        columns(out) == columns(xs) * ratio,
        flat(out),
{
    let m = columns(xs);
    let (upsample, r) = layer.upsampled(activation, xs, state.upsample, mask);
    let ys = r->Ok_0;
    if let Some(x) = xs {
        let z = activation.applied(Ok(x))->Ok_0;
        tr_rate(layer.upsample, ratio, n, z, state.upsample, mask, upsample, ys);
    }
    assert(columns(ys) == m * ratio);
    assert(m * ratio >= 0) by (nonlinear_arith)
        requires
            m >= 0,
            ratio >= 1,
    ;
    assert(n * ratio >= 0) by (nonlinear_arith)
        requires
            n >= 0,
            ratio >= 1,
    ;
    assert((n + m) * ratio == n * ratio + m * ratio) by (nonlinear_arith);
    lemma_blocks_rate(
        layer.residuals,
        n * ratio,
        ys,
        state.residuals,
        0,
        mask,
        next.residuals,
        out,
    );
}

/// A decoder whose stages multiply the rate by `ratios`, in turn.
pub open spec fn decodes_by(decoder: DecoderModel, ratios: Seq<int>) -> bool {
    &&& steps_by(decoder.init_conv, 1)
    &&& steps_by(decoder.final_conv, 1)
    &&& decoder.layers.len() == ratios.len()
    &&& positive(ratios)
    &&& forall|i: int|
        0 <= i < ratios.len() ==> multiplies_by(#[trigger] decoder.layers[i], ratios[i])
}

/// Whether a state is that of a decoder that was fed `n` columns: every stage was fed what the
/// stages before it make of them.
pub open spec fn decoder_fed(
    decoder: DecoderModel,
    ratios: Seq<int>,
    state: DecoderStateModel,
    n: int,
) -> bool {
    &&& fed(decoder.init_conv, state.init_conv, n)
    &&& state.layers.len() == decoder.layers.len()
    &&& forall|i: int|
        0 <= i < decoder.layers.len() ==> decoder_layer_fed(
            decoder.layers[i],
            #[trigger] state.layers[i],
            ratios[i],
            n * rate(ratios, i),
        )
    &&& fed(decoder.final_conv, state.final_conv, n * rate(ratios, ratios.len() as int))
}

proof fn lemma_decoder_layers_rate(
    decoder: DecoderModel,
    ratios: Seq<int>,
    n: int,
    more: int,
    xs: Option<Tensor>,
    states: Seq<DecoderLayerStateModel>,
    i: int,
    mask: Option<Seq<bool>>,
    next: Seq<DecoderLayerStateModel>,
    out: Option<Tensor>,
)
    requires
        decodes_by(decoder, ratios),
        n >= 0,
        more >= 0,
        0 <= i <= decoder.layers.len(),
        states.len() == decoder.layers.len(),
        flat(xs),
        columns(xs) == more * rate(ratios, i),
        forall|j: int|
            0 <= j < states.len() ==> decoder_layer_fed(
                decoder.layers[j],
                #[trigger] states[j],
                ratios[j],
                (if j < i {
                    n + more
                } else {
                    n
                }) * rate(ratios, j),
            ),
        decoder.layers_stepped(xs, states, mask, i) == (next, Ok::<Option<Tensor>, Error>(out)),
    ensures
        next.len() == states.len(),
        forall|j: int|
            0 <= j < states.len() ==> decoder_layer_fed(
                decoder.layers[j],
                #[trigger] next[j],
                ratios[j],
                (n + more) * rate(ratios, j),
            ),
        columns(out) == more * rate(ratios, ratios.len() as int),
        flat(out),
    decreases decoder.layers.len() - i,
{
    if i < decoder.layers.len() {
        let before = rate(ratios, i);
        let ratio = ratios[i];
        lemma_rate_positive(ratios, i);
        assert(n * before >= 0) by (nonlinear_arith)
            requires
                n >= 0,
                before >= 1,
        ;
        let (s, r) = decoder.layers[i].stepped(decoder.activation, xs, states[i], mask);
        let ys = r->Ok_0;
        assert(multiplies_by(decoder.layers[i], ratio));
        assert(decoder_layer_fed(decoder.layers[i], states[i], ratio, n * before));
        decoder_layer_rate(
            decoder.layers[i],
            decoder.activation,
            ratio,
            n * before,
            xs,
            states[i],
            mask,
            s,
            ys,
        );
        assert(n * before + more * before == (n + more) * before) by (nonlinear_arith);
        assert(more * before * ratio == more * (before * ratio)) by (nonlinear_arith);
        assert(rate(ratios, i + 1) == before * ratio);
        let updated = states.update(i, s);
        assert forall|j: int| 0 <= j < updated.len() implies decoder_layer_fed(
            decoder.layers[j],
            #[trigger] updated[j],
            ratios[j],
            (if j < i + 1 {
                n + more
            } else {
                n
            }) * rate(ratios, j),
        ) by {
            if j != i {
                assert(updated[j] == states[j]);
            }
        }
        lemma_decoder_layers_rate(decoder, ratios, n, more, ys, updated, i + 1, mask, next, out);
    }
}

/// The decoder puts out, for each latent frame, as many samples as the product of its ratios says,
/// in the step in which it is fed the frame.
pub proof fn decoder_rate(
    decoder: DecoderModel,
    ratios: Seq<int>,
    n: int,
    xs: Option<Tensor>,
    state: DecoderStateModel,
    mask: Option<Seq<bool>>,
    next: DecoderStateModel,
    out: Option<Tensor>,
)
    requires
        decodes_by(decoder, ratios),
        decoder_fed(decoder, ratios, state, n),
        flat(xs),
        decoder.stepped(xs, state, mask) == (next, Ok::<Option<Tensor>, Error>(out)),
    ensures
        decoder_fed(decoder, ratios, next, n + columns(xs)),
        columns(out) == columns(xs) * rate(ratios, ratios.len() as int),
        flat(out),
{
    let more = columns(xs);
    let total = rate(ratios, ratios.len() as int);
    lemma_rate_positive(ratios, ratios.len() as int);
    let (init_conv, r) = decoder.init_conv.stepped(xs, state.init_conv, mask);
    let ys = r->Ok_0;
    if let Some(x) = xs {
        conv_rate(decoder.init_conv, 1, n, x, state.init_conv, mask, init_conv, ys);
        assert((n + more) / 1 == n + more);
        assert(n / 1 == n);
    }
    assert(rate(ratios, 0) == 1);
    assert(more * 1 == more);
    let (layers, r2) = decoder.layers_stepped(ys, state.layers, mask, 0);
    let zs = r2->Ok_0;
    lemma_decoder_layers_rate(decoder, ratios, n, more, ys, state.layers, 0, mask, layers, zs);
    let a = n * total;
    assert(a >= 0) by (nonlinear_arith)
        requires
            a == n * total,
            n >= 0,
            total >= 1,
    ;
    assert((n + more) * total == a + more * total) by (nonlinear_arith)
        requires
            a == n * total,
    ;
    if let Some(z) = zs {
        let w = decoder.activation.applied(Ok(z))->Ok_0;
        let (final_conv, r3) = decoder.final_conv.stepped(Some(w), state.final_conv, mask);
        conv_rate(decoder.final_conv, 1, a, w, state.final_conv, mask, final_conv, r3->Ok_0);
        assert((a + steps(w)) / 1 == a + steps(w));
        assert(a / 1 == a);
    }
}

/// A fresh decoder was fed nothing.
pub proof fn fresh_decoder_is_unfed(decoder: DecoderModel, ratios: Seq<int>)
    requires
        decodes_by(decoder, ratios),
    ensures
        decoder_fed(decoder, ratios, decoder.fresh_state(), 0),
{
    let st = decoder.fresh_state();
    lemma_fresh_fed(decoder.init_conv);
    lemma_fresh_fed(decoder.final_conv);
    assert forall|i: int| 0 <= i < decoder.layers.len() implies decoder_layer_fed(
        decoder.layers[i],
        #[trigger] st.layers[i],
        ratios[i],
        0 * rate(ratios, i),
    ) by {
        assert(0 * rate(ratios, i) == 0);
        assert(0 * ratios[i] == 0);
        lemma_fresh_blocks_fed(decoder.layers[i].residuals);
    }
    assert(0 * rate(ratios, ratios.len() as int) == 0);
}

/// Shapes that agree where neither is 1 broadcast to the larger of them.
proof fn lemma_broadcast_column(r: usize, c: usize, k: usize)
    ensures
        broadcast_shape(Shape::D3(r, c, k), Shape::D3(r, 1, 1)) == Ok::<Shape, Error>(
            Shape::D3(r, c, k),
        ),
{
    let a = Shape::D3(r, c, k).dims();
    let b = Shape::D3(r, 1, 1).dims();
    assert(broadcastable(a, b));
    assert(broadcast_dims(a, b) =~= a);
}

/// In a checkpoint that keeps to the shapes asked for, the weight of a convolution has its shape.
proof fn lemma_norm_weight_shape(
    vb: Weights,
    norm: Option<Norm>,
    rows: usize,
    cols: usize,
    k: usize,
    w: Tensor,
)
    requires
        vb.checkpoint.format == Format::Safetensors,
        norm_weight_of(vb, norm, rows, cols, k) == Ok::<Tensor, Error>(w),
    ensures
        w.shape_of() == Shape::D3(rows, cols, k),
{
    if norm == Some(Norm::WeightNorm) && !vb.has("weight") {
        let g = weight_of(vb, "weight_g", Shape::D3(rows, 1, 1))->Ok_0;
        let v = weight_of(vb, "weight_v", Shape::D3(rows, cols, k))->Ok_0;
        let sq = unary_of(UnaryOp::Sqr, Ok(v))->Ok_0;
        let sum = sum_keepdim_of(Ok(sq), 1, 2)->Ok_0;
        assert(sum.shape_of() == Shape::D3(rows, 1, 1));
        let n = unary_of(UnaryOp::Sqrt, Ok(sum))->Ok_0;
        lemma_broadcast_column(rows, cols, k);
    }
}

/// A convolution that is causal or not and pads as said.
pub open spec fn pads_so(conv: StreamableConv1d, causal: bool, pad_mode: PadMode) -> bool {
    conv.causal == causal && conv.pad_mode == pad_mode
}

/// A residual block whose convolutions are causal or not and pad as said.
pub open spec fn block_pads_so(block: BlockModel, causal: bool, pad_mode: PadMode) -> bool {
    &&& forall|j: int|
        0 <= j < block.block.len() ==> pads_so(#[trigger] block.block[j], causal, pad_mode)
    &&& block.shortcut matches Some(c) ==> pads_so(c, causal, pad_mode)
}

pub open spec fn blocks_pad_so(blocks: Seq<BlockModel>, causal: bool, pad_mode: PadMode) -> bool {
    forall|j: int| 0 <= j < blocks.len() ==> block_pads_so(#[trigger] blocks[j], causal, pad_mode)
}

/// A convolution loaded from such a checkpoint steps as it was asked to.
proof fn lemma_loaded_conv(
    vb: Weights,
    in_c: usize,
    out_c: usize,
    k_size: usize,
    stride: usize,
    dilation: usize,
    groups: usize,
    bias: bool,
    causal: bool,
    norm: Option<Norm>,
    pad_mode: PadMode,
    conv: StreamableConv1d,
)
    requires
        vb.checkpoint.format == Format::Safetensors,
        k_size >= 1,
        stride >= 1,
        stride == 1 || dilation >= 1,
        StreamableConv1d::loaded(
            vb,
            in_c,
            out_c,
            k_size,
            stride,
            dilation,
            groups,
            bias,
            causal,
            norm,
            pad_mode,
        ) == Ok::<StreamableConv1d, Error>(conv),
    ensures
        steps_by(conv, stride as int),
{
    let inner = vb.at("conv").at("conv");
    lemma_norm_weight_shape(inner, norm, out_c, in_c / groups, k_size, conv.conv.weight);
    let k = k_size as int;
    let d = dilation as int;
    assert((k - 1) * d >= 0) by (nonlinear_arith)
        requires
            k >= 1,
            d >= 0,
    ;
    if dilation >= 1 {
        assert((k - 1) * d >= k - 1) by (nonlinear_arith)
            requires
                k >= 1,
                d >= 1,
        ;
    }
}

proof fn lemma_loaded_block_convs(
    vb: Weights,
    dim: usize,
    hidden: usize,
    kd: Seq<(usize, usize)>,
    norm: Option<Norm>,
    causal: bool,
    pad_mode: PadMode,
    i: int,
    acc: Seq<StreamableConv1d>,
    convs: Seq<StreamableConv1d>,
)
    requires
        vb.checkpoint.format == Format::Safetensors,
        0 <= i <= kd.len(),
        forall|j: int| 0 <= j < kd.len() ==> (#[trigger] kd[j]).0 >= 1,
        forall|j: int|
            0 <= j < acc.len() ==> steps_by(#[trigger] acc[j], 1) && pads_so(
                acc[j],
                causal,
                pad_mode,
            ),
        BlockModel::convs_loaded(vb, dim, hidden, kd, norm, causal, pad_mode, i, acc) == Ok::<
            Seq<StreamableConv1d>,
            Error,
        >(convs),
    ensures
        forall|j: int|
            0 <= j < convs.len() ==> steps_by(#[trigger] convs[j], 1) && pads_so(
                convs[j],
                causal,
                pad_mode,
            ),
    decreases kd.len() - i,
{
    if i < kd.len() {
        let in_c = if i == 0 {
            dim
        } else {
            hidden
        };
        let out_c = if i == kd.len() - 1 {
            dim
        } else {
            hidden
        };
        let at = vb.nth(2 * i + 1);
        let c = StreamableConv1d::loaded(
            at,
            in_c,
            out_c,
            kd[i].0,
            1,
            kd[i].1,
            1,
            true,
            causal,
            norm,
            pad_mode,
        )->Ok_0;
        assert(kd[i].0 >= 1);
        lemma_loaded_conv(
            at,
            in_c,
            out_c,
            kd[i].0,
            1,
            kd[i].1,
            1,
            true,
            causal,
            norm,
            pad_mode,
            c,
        );
        lemma_loaded_block_convs(
            vb,
            dim,
            hidden,
            kd,
            norm,
            causal,
            pad_mode,
            i + 1,
            acc.push(c),
            convs,
        );
    }
}

proof fn lemma_loaded_residuals(
    vb: Weights,
    dim: usize,
    cfg: Config,
    norm: Option<Norm>,
    j: int,
    idx: usize,
    acc: Seq<BlockModel>,
    blocks: Seq<BlockModel>,
    next: usize,
)
    requires
        vb.checkpoint.format == Format::Safetensors,
        cfg.residual_kernel_size >= 1,
        0 <= j <= cfg.n_residual_layers,
        all_keep_rate(acc),
        blocks_pad_so(acc, cfg.causal, cfg.pad_mode),
        residuals_loaded(vb, dim, cfg, norm, j, idx, acc) == Ok::<(Seq<BlockModel>, usize), Error>(
            (blocks, next),
        ),
    ensures
        all_keep_rate(blocks),
        blocks_pad_so(blocks, cfg.causal, cfg.pad_mode),
    decreases cfg.n_residual_layers - j,
{
    if j < cfg.n_residual_layers {
        let dilation = word(pow(cfg.dilation_base as int, j as nat))->Ok_0;
        let kd = seq![(cfg.residual_kernel_size, dilation), (1usize, 1usize)];
        let at = vb.nth(idx as int);
        let b = BlockModel::loaded(
            at,
            dim,
            kd,
            cfg.activation,
            norm,
            cfg.causal,
            cfg.pad_mode,
            cfg.compress,
            cfg.true_skip,
        )->Ok_0;
        lemma_loaded_block_convs(
            at.at("block"),
            dim,
            dim / cfg.compress,
            kd,
            norm,
            cfg.causal,
            cfg.pad_mode,
            0,
            seq![],
            b.block,
        );
        if let Some(c) = b.shortcut {
            lemma_loaded_conv(
                at.at("shortcut"),
                dim,
                dim,
                1,
                1,
                1,
                1,
                true,
                cfg.causal,
                norm,
                cfg.pad_mode,
                c,
            );
        }
        assert(keeps_rate(b));
        assert(all_keep_rate(acc.push(b)));
        assert(block_pads_so(b, cfg.causal, cfg.pad_mode));
        lemma_loaded_residuals(
            vb,
            dim,
            cfg,
            norm,
            j + 1,
            (idx + 1) as usize,
            acc.push(b),
            blocks,
            next,
        );
    }
}

/// The kernels and ratios of a layout that has some.
pub open spec fn sound_layout(cfg: Config) -> bool {
    &&& cfg.kernel_size >= 1
    &&& cfg.last_kernel_size >= 1
    &&& cfg.residual_kernel_size >= 1
    &&& forall|i: int| 0 <= i < cfg.ratios@.len() ==> #[trigger] cfg.ratios@[i] >= 1
}

/// The ratios of the stages of an encoder: those of the layout from the last to the first.
pub open spec fn encoder_ratios(cfg: Config) -> Seq<int> {
    Seq::new(cfg.ratios@.len(), |i: int| cfg.ratios@[cfg.ratios@.len() - 1 - i] as int)
}

/// The ratios of the stages of a decoder: those of the layout.
pub open spec fn decoder_ratios(cfg: Config) -> Seq<int> {
    Seq::new(cfg.ratios@.len(), |i: int| cfg.ratios@[i] as int)
}

/// A stage of an encoder whose convolutions pad as the layout says; the one between stages is
/// always causal.
pub open spec fn encoder_layer_pads_so(layer: EncoderLayerModel, cfg: Config) -> bool {
    blocks_pad_so(layer.residuals, cfg.causal, cfg.pad_mode) && pads_so(
        layer.downsample,
        true,
        cfg.pad_mode,
    )
}

/// An encoder whose convolutions pad as the layout says.
pub open spec fn encoder_pads_so(encoder: EncoderModel, cfg: Config) -> bool {
    &&& pads_so(encoder.init_conv, cfg.causal, cfg.pad_mode)
    &&& pads_so(encoder.final_conv, cfg.causal, cfg.pad_mode)
    &&& forall|j: int|
        0 <= j < encoder.layers.len() ==> encoder_layer_pads_so(#[trigger] encoder.layers[j], cfg)
}

proof fn lemma_loaded_encoder_layers(
    vb: Weights,
    cfg: Config,
    i: int,
    mult: usize,
    idx: usize,
    acc: Seq<EncoderLayerModel>,
    layers: Seq<EncoderLayerModel>,
    last_mult: usize,
    last_idx: usize,
)
    requires
        vb.checkpoint.format == Format::Safetensors,
        sound_layout(cfg),
        0 <= i <= cfg.ratios@.len(),
        acc.len() == i,
        forall|j: int|
            0 <= j < i ==> divides_by(#[trigger] acc[j], encoder_ratios(cfg)[j])
                && encoder_layer_pads_so(acc[j], cfg),
        EncoderModel::layers_loaded(vb, cfg, i, mult, idx, acc) == Ok::<
            (Seq<EncoderLayerModel>, usize, usize),
            Error,
        >((layers, last_mult, last_idx)),
    ensures
        layers.len() == cfg.ratios@.len(),
        forall|j: int|
            0 <= j < layers.len() ==> divides_by(#[trigger] layers[j], encoder_ratios(cfg)[j])
                && encoder_layer_pads_so(layers[j], cfg),
    decreases cfg.ratios@.len() - i,
{
    let n = cfg.ratios@.len();
    if i < n {
        let norm = norm_unless(cfg.disable_norm_outer_blocks >= i + 2, cfg.norm);
        let width = word(mult * cfg.n_filters)->Ok_0;
        let twice = word(mult * 2)->Ok_0;
        let ratio = cfg.ratios@[n - 1 - i];
        let (layer, next) = EncoderLayerModel::loaded(vb, cfg, ratio, width, norm, idx)->Ok_0;
        let (residuals, at) = residuals_loaded(vb, width, cfg, norm, 0, idx, seq![])->Ok_0;
        lemma_loaded_residuals(vb, width, cfg, norm, 0, idx, seq![], residuals, at);
        assert(cfg.ratios@[n - 1 - i] >= 1);
        lemma_loaded_conv(
            vb.nth(at + 1),
            width,
            (width * 2) as usize,
            (ratio * 2) as usize,
            ratio,
            1,
            1,
            true,
            true,
            norm,
            cfg.pad_mode,
            layer.downsample,
        );
        lemma_loaded_encoder_layers(
            vb,
            cfg,
            i + 1,
            twice,
            next,
            acc.push(layer),
            layers,
            last_mult,
            last_idx,
        );
    }
}

/// An encoder loaded from a checkpoint that keeps to the shapes asked for divides the rate by the
/// ratios of its layout, and pads as the layout says.
pub proof fn loaded_encoder_rate(vb: Weights, cfg: Config, encoder: EncoderModel)
    requires
        vb.checkpoint.format == Format::Safetensors,
        sound_layout(cfg),
        EncoderModel::loaded(vb, cfg) == Ok::<EncoderModel, Error>(encoder),
    ensures
        encodes_by(encoder, encoder_ratios(cfg)),
        encoder_pads_so(encoder, cfg),
{
    let vb = vb.at("model");
    let off = cfg.disable_norm_outer_blocks;
    let (layers, mult, idx) = EncoderModel::layers_loaded(vb, cfg, 0, 1, 1, seq![])->Ok_0;
    lemma_loaded_conv(
        vb.nth(0),
        cfg.channels,
        cfg.n_filters,
        cfg.kernel_size,
        1,
        1,
        1,
        true,
        cfg.causal,
        norm_unless(off >= 1, cfg.norm),
        cfg.pad_mode,
        encoder.init_conv,
    );
    lemma_loaded_conv(
        vb.nth(idx + 1),
        (mult * cfg.n_filters) as usize,
        cfg.dimension,
        cfg.last_kernel_size,
        1,
        1,
        1,
        true,
        cfg.causal,
        norm_unless(off >= 2 + cfg.ratios@.len(), cfg.norm),
        cfg.pad_mode,
        encoder.final_conv,
    );
    lemma_loaded_encoder_layers(vb, cfg, 0, 1, 1, seq![], layers, mult, idx);
    assert(positive(encoder_ratios(cfg)));
}

/// A transposed convolution loaded from such a checkpoint spreads as it was asked to.
proof fn lemma_loaded_convtr(
    vb: Weights,
    in_c: usize,
    out_c: usize,
    k_size: usize,
    stride: usize,
    groups: usize,
    bias: bool,
    causal: bool,
    norm: Option<Norm>,
    conv: StreamableConvTranspose1d,
)
    requires
        vb.checkpoint.format == Format::Safetensors,
        1 <= stride <= k_size,
        StreamableConvTranspose1d::loaded(
            vb,
            in_c,
            out_c,
            k_size,
            stride,
            groups,
            bias,
            causal,
            norm,
        ) == Ok::<StreamableConvTranspose1d, Error>(conv),
    ensures
        spreads_by(conv, stride as int),
{
    let inner = vb.at("convtr").at("convtr");
    lemma_norm_weight_shape(inner, norm, in_c, out_c / groups, k_size, conv.convtr.weight);
}

/// A stage of a decoder whose convolutions pad as the layout says; the one between stages is always
/// causal.
pub open spec fn decoder_layer_pads_so(layer: DecoderLayerModel, cfg: Config) -> bool {
    blocks_pad_so(layer.residuals, cfg.causal, cfg.pad_mode) && layer.upsample.causal
}

/// A decoder whose convolutions pad as the layout says.
pub open spec fn decoder_pads_so(decoder: DecoderModel, cfg: Config) -> bool {
    &&& pads_so(decoder.init_conv, cfg.causal, cfg.pad_mode)
    &&& pads_so(decoder.final_conv, cfg.causal, cfg.pad_mode)
    &&& forall|j: int|
        0 <= j < decoder.layers.len() ==> decoder_layer_pads_so(#[trigger] decoder.layers[j], cfg)
}

proof fn lemma_loaded_decoder_layers(
    vb: Weights,
    cfg: Config,
    i: int,
    mult: usize,
    idx: usize,
    acc: Seq<DecoderLayerModel>,
    layers: Seq<DecoderLayerModel>,
    last_idx: usize,
)
    requires
        vb.checkpoint.format == Format::Safetensors,
        sound_layout(cfg),
        0 <= i <= cfg.ratios@.len(),
        acc.len() == i,
        forall|j: int|
            0 <= j < i ==> multiplies_by(#[trigger] acc[j], decoder_ratios(cfg)[j])
                && decoder_layer_pads_so(acc[j], cfg),
        DecoderModel::layers_loaded(vb, cfg, i, mult, idx, acc) == Ok::<
            (Seq<DecoderLayerModel>, usize),
            Error,
        >((layers, last_idx)),
    ensures
        layers.len() == cfg.ratios@.len(),
        forall|j: int|
            0 <= j < layers.len() ==> multiplies_by(#[trigger] layers[j], decoder_ratios(cfg)[j])
                && decoder_layer_pads_so(layers[j], cfg),
    decreases cfg.ratios@.len() - i,
{
    let n = cfg.ratios@.len();
    if i < n {
        let norm = norm_unless(cfg.disable_norm_outer_blocks + i + 1 >= 2 + n, cfg.norm);
        let width = word(mult * cfg.n_filters)->Ok_0;
        let ratio = cfg.ratios@[i];
        let (layer, next) = DecoderLayerModel::loaded(vb, cfg, ratio, width, norm, idx)->Ok_0;
        let narrow = width / 2;
        let at = (idx + 2) as usize;
        let (residuals, after) = residuals_loaded(vb, narrow, cfg, norm, 0, at, seq![])->Ok_0;
        lemma_loaded_residuals(vb, narrow, cfg, norm, 0, at, seq![], residuals, after);
        assert(cfg.ratios@[i] >= 1);
        lemma_loaded_convtr(
            vb.nth(idx + 1),
            width,
            narrow,
            (ratio * 2) as usize,
            ratio,
            1,
            true,
            true,
            norm,
            layer.upsample,
        );
        lemma_loaded_decoder_layers(
            vb,
            cfg,
            i + 1,
            mult / 2,
            next,
            acc.push(layer),
            layers,
            last_idx,
        );
    }
}

/// A decoder loaded from a checkpoint that keeps to the shapes asked for multiplies the rate by the
/// ratios of its layout, and pads as the layout says.
pub proof fn loaded_decoder_rate(vb: Weights, cfg: Config, decoder: DecoderModel)
    requires
        vb.checkpoint.format == Format::Safetensors,
        sound_layout(cfg),
        DecoderModel::loaded(vb, cfg) == Ok::<DecoderModel, Error>(decoder),
    ensures
        decodes_by(decoder, decoder_ratios(cfg)),
        decoder_pads_so(decoder, cfg),
{
    let vb = vb.at("model");
    let off = cfg.disable_norm_outer_blocks;
    let n = cfg.ratios@.len();
    let mult = word(pow2(n) as int)->Ok_0;
    let width = word(mult * cfg.n_filters)->Ok_0;
    let (layers, idx) = DecoderModel::layers_loaded(vb, cfg, 0, mult, 1, seq![])->Ok_0;
    lemma_loaded_conv(
        vb.nth(0),
        cfg.dimension,
        width,
        cfg.kernel_size,
        1,
        1,
        1,
        true,
        cfg.causal,
        norm_unless(off == 2 + n, cfg.norm),
        cfg.pad_mode,
        decoder.init_conv,
    );
    lemma_loaded_conv(
        vb.nth(idx + 1),
        cfg.n_filters,
        cfg.channels,
        cfg.last_kernel_size,
        1,
        1,
        1,
        true,
        cfg.causal,
        norm_unless(off >= 1, cfg.norm),
        cfg.pad_mode,
        decoder.final_conv,
    );
    lemma_loaded_decoder_layers(vb, cfg, 0, mult, 1, seq![], layers, idx);
    assert(positive(decoder_ratios(cfg)));
}

} // verus!
