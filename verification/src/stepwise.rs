//! What convolutions, residual blocks and the encoder make of the columns of a lane, step by step or
//! all at once.
use crate::checkpoint::{Format, Weights};
use crate::conv::{
    lemma_windows_fit, window_count, window_of, Conv1dState, PadMode, StreamableConv1d,
};
use crate::error::Error;
use crate::ops::binary_of;
use crate::rates::{
    all_keep_rate, block_pads_so, blocks_pad_so, divides_by, encoder_layer_pads_so, encoder_pads_so,
    encoder_ratios, encodes_by, keeps_rate, lemma_rate_positive, loaded_encoder_rate, pads_so,
    positive, rate, sound_layout, steps_by,
};
use crate::seanet::{
    residuals_forwarded, residuals_fresh, residuals_stepped, Activation, BlockModel,
    BlockStateModel, Config, EncoderLayerModel, EncoderLayerStateModel, EncoderModel,
    EncoderStateModel,
};
use crate::tensor::{BinaryOp, Tensor, TensorResult};
use crate::timeline::{
    columns_of, convolved, fed_columns, first_step_leaves_lane, first_step_takes_lane, has_seen,
    lane_count, lead, lemma_forward_windows, lemma_gathered, lemma_step_output, lemma_whole_steps,
    mask_fits, pad_extends_timeline, put_columns, repeated, step_leaves_lane, step_takes_lane,
    steps, takes_lane, timed, timeline, whole_windows, windows, windows_of, Feed, Sample,
};
use vstd::arithmetic::div_mod::{lemma_fundamental_div_mod, lemma_fundamental_div_mod_converse};
use vstd::prelude::*;

verus! {

/// Whether what goes into a step or comes out of it has lane `b` and fits the mask.
pub open spec fn has_lane(x: Option<Tensor>, b: int, mask: Option<Seq<bool>>) -> bool {
    x matches Some(x) ==> timed(x, b) && mask_fits(mask, x)
}

/// Whether a step may leave lane `b` out: it makes a whole number of steps of `ratio` columns.
pub open spec fn may_leave(x: Option<Tensor>, b: int, mask: Option<Seq<bool>>, ratio: int) -> bool {
    takes_lane(mask, b) || columns_of(x, b).len() % (ratio as nat) == 0
}

/// What a step must do for a lane. One that takes in the lane extends what the lane put out,
/// `before`, to `after`; one that leaves it out puts out one column for each `ratio`.
pub open spec fn extends(
    x: Option<Tensor>,
    out: Option<Tensor>,
    b: int,
    mask: Option<Seq<bool>>,
    ratio: int,
    before: Seq<Sample>,
    after: Seq<Sample>,
) -> bool {
    &&& has_lane(out, b, mask)
    &&& if takes_lane(mask, b) {
        before + columns_of(out, b) == after
    } else {
        columns_of(out, b).len() * ratio == columns_of(x, b).len()
    }
}

/// What a lane has seen after a step: the columns of `x` too, where the step takes in the lane.
pub open spec fn seen_after(
    xs: Seq<Sample>,
    x: Option<Tensor>,
    b: int,
    mask: Option<Seq<bool>>,
) -> Seq<Sample> {
    if takes_lane(mask, b) {
        xs + columns_of(x, b)
    } else {
        xs
    }
}

/// The columns that a causal convolution makes of the columns `xs`.
pub open spec fn conv_cols(conv: StreamableConv1d, xs: Seq<Sample>) -> Seq<Sample> {
    convolved(
        conv,
        whole_windows(conv, lead(conv.pad_mode, xs, conv.span() - conv.conv.stride) + xs),
    )
}

/// Whether a state is that of a convolution whose lane `b` was fed the columns `xs`.
pub open spec fn conv_fed(
    conv: StreamableConv1d,
    state: Conv1dState,
    b: int,
    xs: Seq<Sample>,
) -> bool {
    ||| state == StreamableConv1d::fresh_state() && xs.len() == 0
    ||| {
        &&& has_seen(
            conv,
            state,
            b,
            lead(conv.pad_mode, xs, conv.span() - conv.conv.stride) + xs,
        )
        &&& conv.pad_mode is Constant || xs.len() > 0
    }
}

/// Whether a step may be taken by a convolution: where it leaves out lane `b`, padding is zeros.
pub open spec fn may_pad(conv: StreamableConv1d, b: int, mask: Option<Seq<bool>>) -> bool {
    takes_lane(mask, b) || conv.pad_mode is Constant
}

proof fn lemma_convolved_join(conv: StreamableConv1d, a: Seq<Seq<Sample>>, b: Seq<Seq<Sample>>)
    ensures
        convolved(conv, a + b) == convolved(conv, a) + convolved(conv, b),
{
    assert(convolved(conv, a + b) =~= convolved(conv, a) + convolved(conv, b));
}

/// No window is whole in the padding alone.
proof fn lemma_no_windows(conv: StreamableConv1d, xs: Seq<Sample>)
    requires
        1 <= conv.conv.stride <= conv.span(),
    ensures
        whole_windows(conv, lead(conv.pad_mode, xs, conv.span() - conv.conv.stride)).len() == 0,
        xs.len() == 0 ==> conv_cols(conv, xs).len() == 0,
{
    let stride = conv.conv.stride as int;
    lemma_windows_fit(conv.span() - stride, conv.span(), stride);
}

/// A step of a convolution does for each lane what the convolution does to the columns of the lane.
pub proof fn conv_step(
    conv: StreamableConv1d,
    stride: int,
    x: Option<Tensor>,
    state: Conv1dState,
    b: int,
    xs: Seq<Sample>,
    mask: Option<Seq<bool>>,
    next: Conv1dState,
    out: Option<Tensor>,
)
    requires
        steps_by(conv, stride),
        has_lane(x, b, mask),
        may_leave(x, b, mask, stride),
        may_pad(conv, b, mask),
        conv_fed(conv, state, b, xs),
        conv.stepped(x, state, mask) == (next, Ok::<Option<Tensor>, Error>(out)),
    ensures
        conv_fed(conv, next, b, seen_after(xs, x, b, mask)),
        extends(
            x,
            out,
            b,
            mask,
            stride,
            conv_cols(conv, xs),
            conv_cols(conv, seen_after(xs, x, b, mask)),
        ),
{
    let span = conv.span();
    let total = span - stride;
    let pad = lead(conv.pad_mode, xs, total);
    match x {
        None => {
            assert(xs + columns_of(x, b) =~= xs);
            assert(conv_cols(conv, xs) + columns_of(out, b) =~= conv_cols(conv, xs));
        },
        Some(x) => {
            assert(window_of(conv.kernel_size, conv.conv.stride, conv.conv.dilation) is Ok);
            let all = conv.gathered(x, state, span as usize)->Ok_0;
            let more = timeline(x, b);
            let after = xs + more;
            if state == StreamableConv1d::fresh_state() {
                assert(xs =~= seq![]);
                assert(after =~= more);
                pad_extends_timeline(x, total as usize, 0, conv.pad_mode, all, b);
                lemma_no_windows(conv, more);
                lemma_no_windows(conv, xs);
                if takes_lane(mask, b) {
                    first_step_takes_lane(conv, x, b, mask, next, out);
                    let front = lead(conv.pad_mode, more, total);
                    assert(whole_windows(conv, front) + windows_of(out, b) =~= windows_of(out, b));
                } else {
                    first_step_leaves_lane(conv, x, b, mask, next, out);
                    assert(pad + xs =~= repeated(Sample::zero(), total));
                }
            } else {
                lemma_gathered(conv, x, state, b, pad + xs, all);
                assert(lead(conv.pad_mode, after, total) =~= pad);
                assert(pad + after =~= (pad + xs) + more);
                if takes_lane(mask, b) {
                    step_takes_lane(conv, x, state, b, pad + xs, mask, next, out);
                    lemma_convolved_join(conv, whole_windows(conv, pad + xs), windows_of(out, b));
                } else {
                    step_leaves_lane(conv, x, state, b, pad + xs, mask, next, out);
                }
            }
            lemma_step_output(conv, all, b, state, mask, next, out);
            let m = window_count(steps(all), span, stride);
            if out is None {
                assert(convolved(conv, windows_of(out, b)) =~= seq![]);
            }
            assert(columns_of(out, b) == convolved(conv, windows_of(out, b)));
            if takes_lane(mask, b) {
                if state == StreamableConv1d::fresh_state() {
                    assert(conv_cols(conv, xs) + columns_of(out, b) =~= conv_cols(conv, after));
                }
            } else {
                lemma_left_steps(conv, stride, x, state, b, xs, all);
                lemma_fundamental_div_mod(steps(x), stride);
                assert(m * stride == stride * m) by (nonlinear_arith);
            }
        },
    }
}

/// A step of a whole number of strides puts out one column for each.
proof fn lemma_left_steps(
    conv: StreamableConv1d,
    stride: int,
    x: Tensor,
    state: Conv1dState,
    b: int,
    xs: Seq<Sample>,
    all: Tensor,
)
    requires
        steps_by(conv, stride),
        timed(x, b),
        steps(x) % stride == 0,
        conv_fed(conv, state, b, xs),
        conv.span() <= usize::MAX,
        conv.gathered(x, state, conv.span() as usize) == Ok::<Tensor, Error>(all),
    ensures
        window_count(steps(all), conv.span(), stride) == steps(x) / stride,
{
    let span = conv.span();
    let total = span - stride;
    let s = steps(x);
    if state == StreamableConv1d::fresh_state() {
        pad_extends_timeline(x, total as usize, 0, conv.pad_mode, all, b);
        lemma_whole_steps(s, span, stride);
    } else {
        let known = lead(conv.pad_mode, xs, total) + xs;
        lemma_gathered(conv, x, state, b, known, all);
        let n = window_count(known.len() as int, span, stride);
        lemma_windows_fit(known.len() as int, span, stride);
        let kept = known.len() - n * stride;
        assert(steps(all) == kept + s);
        // What is kept is the padding and less than a stride.
        let r = known.len() + stride - span;
        lemma_fundamental_div_mod(r, stride);
        assert(n * stride == stride * n) by (nonlinear_arith);
        let rest = kept - total;
        assert(0 <= rest < stride);
        lemma_whole_steps(s, span, stride);
        lemma_fundamental_div_mod_converse(rest + s, stride, s / stride, rest);
        assert(steps(all) + stride - span == rest + s);
    }
}

/// A causal convolution of a whole input, one that ends on a step, makes of each lane what the
/// convolution does to the columns of the lane.
pub proof fn conv_whole(conv: StreamableConv1d, stride: int, x: Tensor, b: int, y: Tensor)
    requires
        steps_by(conv, stride),
        conv.causal,
        timed(x, b),
        steps(x) > 0,
        steps(x) % stride == 0,
        conv.forwarded(Ok(x)) == Ok::<Tensor, Error>(y),
    ensures
        timed(y, b),
        lane_count(y) == lane_count(x),
        steps(y) == steps(x) / stride,
        timeline(y, b) == conv_cols(conv, timeline(x, b)),
{
    let len = steps(x);
    let span = conv.span();
    lemma_forward_windows(conv, x, b, y);
    lemma_whole_steps(len, span, stride);
    lemma_fundamental_div_mod(len, stride);
    let n = len / stride;
    lemma_fundamental_div_mod_converse(len + stride - 1, stride, n, stride - 1);
    assert(steps(y) == n);
    assert(windows(y, b).take(n) =~= windows(y, b));
    let xs = lead(conv.pad_mode, timeline(x, b), span - stride) + timeline(x, b);
    assert(xs.len() == span - stride + len);
}

/// Columns with a function applied to each element.
pub open spec fn mapped_cols(activation: Activation, xs: Seq<Sample>) -> Seq<Sample> {
    xs.map_values(|x: Sample| x.mapped(activation.op()))
}

/// An activation applies to each column of a lane.
pub(crate) proof fn lemma_activation(activation: Activation, x: Tensor, b: int, y: Tensor)
    requires
        timed(x, b),
        activation.applied(Ok(x)) == Ok::<Tensor, Error>(y),
    ensures
        timed(y, b),
        y.shape_of() == x.shape_of(),
        timeline(y, b) == mapped_cols(activation, timeline(x, b)),
{
    assert(timeline(y, b) =~= mapped_cols(activation, timeline(x, b)));
}

pub(crate) proof fn lemma_mapped_join(activation: Activation, a: Seq<Sample>, b: Seq<Sample>)
    ensures
        mapped_cols(activation, a + b) == mapped_cols(activation, a) + mapped_cols(activation, b),
{
    assert(mapped_cols(activation, a + b) =~= mapped_cols(activation, a) + mapped_cols(
        activation,
        b,
    ));
}

/// The sums of the columns of two lanes.
pub open spec fn added_cols(a: Seq<Sample>, c: Seq<Sample>) -> Seq<Sample> {
    Seq::new(a.len(), |i: int| a[i].plus(c[i]))
}

proof fn lemma_added_join(a: Seq<Sample>, a2: Seq<Sample>, c: Seq<Sample>, c2: Seq<Sample>)
    requires
        a.len() == c.len(),
        a2.len() == c2.len(),
    ensures
        added_cols(a + a2, c + c2) == added_cols(a, c) + added_cols(a2, c2),
{
    assert(added_cols(a + a2, c + c2) =~= added_cols(a, c) + added_cols(a2, c2));
}

/// A sum of tensors adds the columns of each lane.
proof fn lemma_sum(x: Tensor, y: Tensor, b: int, z: Tensor)
    requires
        timed(x, b),
        timed(y, b),
        binary_of(BinaryOp::Add, Ok(x), Ok(y)) == Ok::<Tensor, Error>(z),
    ensures
        timed(z, b),
        x.shape_of() == y.shape_of(),
        z.shape_of() == x.shape_of(),
        timeline(z, b) == added_cols(timeline(x, b), timeline(y, b)),
{
    assert(timeline(z, b) =~= added_cols(timeline(x, b), timeline(y, b)));
}

/// A convolution that moves on by one column puts out as many as it is fed.
pub(crate) proof fn lemma_conv_cols_len(conv: StreamableConv1d, xs: Seq<Sample>)
    requires
        steps_by(conv, 1),
    ensures
        conv_cols(conv, xs).len() == xs.len(),
{
    assert((xs.len() as int) % 1 == 0);
    lemma_whole_steps(xs.len() as int, conv.span(), 1);
    assert((xs.len() as int) / 1 == xs.len());
}

/// The columns that come out of the first `i` convolutions of a residual block.
pub open spec fn chain_cols(block: BlockModel, xs: Seq<Sample>, i: int) -> Seq<Sample>
    decreases i,
{
    if i <= 0 {
        xs
    } else {
        conv_cols(
            block.block[i - 1],
            mapped_cols(block.activation, chain_cols(block, xs, i - 1)),
        )
    }
}

/// The columns that a residual block makes of the columns `xs`.
pub open spec fn block_cols(block: BlockModel, xs: Seq<Sample>) -> Seq<Sample> {
    let ys = chain_cols(block, xs, block.block.len() as int);
    match block.shortcut {
        None => added_cols(ys, xs),
        Some(c) => added_cols(ys, conv_cols(c, xs)),
    }
}

/// Whether a state is that of a residual block whose lane `b` was fed the columns `xs`.
pub open spec fn block_saw(
    block: BlockModel,
    state: BlockStateModel,
    b: int,
    xs: Seq<Sample>,
) -> bool {
    &&& convs_saw(block, state.block_convs, b, xs, xs, block.block.len() as int)
    &&& match (block.shortcut, state.shortcut) {
        (None, _) => true,
        (Some(c), Some(s)) => conv_fed(c, s, b, xs),
        (Some(_), None) => false,
    }
}

/// Whether the first `i` convolutions of a residual block were fed what comes of `after`, and the
/// others what comes of `before`.
pub open spec fn convs_saw(
    block: BlockModel,
    states: Seq<Conv1dState>,
    b: int,
    before: Seq<Sample>,
    after: Seq<Sample>,
    i: int,
) -> bool {
    &&& states.len() == block.block.len()
    &&& forall|j: int|
        0 <= j < states.len() ==> conv_fed(
            block.block[j],
            #[trigger] states[j],
            b,
            mapped_cols(
                block.activation,
                chain_cols(
                    block,
                    if j < i {
                        after
                    } else {
                        before
                    },
                    j,
                ),
            ),
        )
}

/// Whether the convolutions of a residual block may leave a lane out.
pub open spec fn block_may_pad(block: BlockModel, b: int, mask: Option<Seq<bool>>) -> bool {
    &&& forall|j: int| 0 <= j < block.block.len() ==> may_pad(#[trigger] block.block[j], b, mask)
    &&& block.shortcut matches Some(c) ==> may_pad(c, b, mask)
}

pub(crate) proof fn lemma_chain_len(block: BlockModel, xs: Seq<Sample>, i: int)
    requires
        keeps_rate(block),
        0 <= i <= block.block.len(),
    ensures
        chain_cols(block, xs, i).len() == xs.len(),
    decreases i,
{
    if i > 0 {
        lemma_chain_len(block, xs, i - 1);
        assert(steps_by(block.block[i - 1], 1));
        lemma_conv_cols_len(
            block.block[i - 1],
            mapped_cols(block.activation, chain_cols(block, xs, i - 1)),
        );
    }
}

proof fn lemma_convs_step(
    block: BlockModel,
    x: Option<Tensor>,
    ys: Option<Tensor>,
    states: Seq<Conv1dState>,
    b: int,
    xs: Seq<Sample>,
    mask: Option<Seq<bool>>,
    i: int,
    next: Seq<Conv1dState>,
    out: Option<Tensor>,
)
    requires
        keeps_rate(block),
        block_may_pad(block, b, mask),
        0 <= i <= block.block.len(),
        convs_saw(block, states, b, xs, seen_after(xs, x, b, mask), i),
        extends(
            x,
            ys,
            b,
            mask,
            1,
            chain_cols(block, xs, i),
            chain_cols(block, seen_after(xs, x, b, mask), i),
        ),
        block.convs_stepped(ys, states, mask, i) == (next, Ok::<Option<Tensor>, Error>(out)),
    ensures
        convs_saw(
            block,
            next,
            b,
            xs,
            seen_after(xs, x, b, mask),
            block.block.len() as int,
        ),
        extends(
            x,
            out,
            b,
            mask,
            1,
            chain_cols(block, xs, block.block.len() as int),
            chain_cols(block, seen_after(xs, x, b, mask), block.block.len() as int),
        ),
    decreases block.block.len() - i,
{
    let after = seen_after(xs, x, b, mask);
    let was = chain_cols(block, xs, i);
    let is = chain_cols(block, after, i);
    if i < block.block.len() {
        let conv = block.block[i];
        assert(steps_by(conv, 1));
        assert(may_pad(conv, b, mask));
        let fed = mapped_cols(block.activation, was);
        assert(conv_fed(conv, states[i], b, fed));
        match ys {
            None => {
                if takes_lane(mask, b) {
                    assert(was + columns_of(ys, b) =~= was);
                }
                assert(is == was);
                assert(chain_cols(block, after, i + 1) == chain_cols(block, xs, i + 1));
                assert(chain_cols(block, xs, i + 1) + columns_of(ys, b) =~= chain_cols(
                    block,
                    xs,
                    i + 1,
                ));
                lemma_convs_step(block, x, ys, states, b, xs, mask, i + 1, next, out);
            },
            Some(y) => {
                let z = block.activation.applied(Ok(y))->Ok_0;
                lemma_activation(block.activation, y, b, z);
                let (s, r) = conv.stepped(Some(z), states[i], mask);
                let step = r->Ok_0;
                assert((columns_of(Some(z), b).len() as int) % 1 == 0);
                conv_step(conv, 1, Some(z), states[i], b, fed, mask, s, step);
                lemma_mapped_join(block.activation, was, columns_of(ys, b));
                assert(seen_after(fed, Some(z), b, mask) == mapped_cols(block.activation, is));
                let updated = states.update(i, s);
                assert forall|j: int| 0 <= j < updated.len() implies conv_fed(
                    block.block[j],
                    #[trigger] updated[j],
                    b,
                    mapped_cols(
                        block.activation,
                        chain_cols(
                            block,
                            if j < i + 1 {
                                after
                            } else {
                                xs
                            },
                            j,
                        ),
                    ),
                ) by {
                    if j != i {
                        assert(updated[j] == states[j]);
                    }
                }
                lemma_convs_step(block, x, step, updated, b, xs, mask, i + 1, next, out);
            },
        }
    }
}

/// A step of a residual block does for each lane what the block does to the columns of the lane.
pub proof fn block_step(
    block: BlockModel,
    x: Option<Tensor>,
    state: BlockStateModel,
    b: int,
    xs: Seq<Sample>,
    mask: Option<Seq<bool>>,
    next: BlockStateModel,
    out: Option<Tensor>,
)
    requires
        keeps_rate(block),
        block_may_pad(block, b, mask),
        has_lane(x, b, mask),
        block_saw(block, state, b, xs),
        block.stepped(x, state, mask) == (next, Ok::<Option<Tensor>, Error>(out)),
    ensures
        block_saw(block, next, b, seen_after(xs, x, b, mask)),
        extends(
            x,
            out,
            b,
            mask,
            1,
            block_cols(block, xs),
            block_cols(block, seen_after(xs, x, b, mask)),
        ),
{
    let n = block.block.len() as int;
    let after = seen_after(xs, x, b, mask);
    match x {
        None => {
            assert(xs + columns_of(x, b) =~= xs);
            assert(block_cols(block, xs) + columns_of(out, b) =~= block_cols(block, xs));
        },
        Some(t) => {
            let (convs, r) = block.convs_stepped(Some(t), state.block_convs, mask, 0);
            let ys = r->Ok_0;
            lemma_convs_start(block, state.block_convs, b, xs, after);
            lemma_convs_step(block, x, x, state.block_convs, b, xs, mask, 0, convs, ys);
            lemma_convs_done(block, convs, b, xs, after);
            lemma_chain_len(block, xs, n);
            lemma_chain_len(block, after, n);
            let was = chain_cols(block, xs, n);
            let is = chain_cols(block, after, n);
            let (short, fed) = match (block.shortcut, state.shortcut) {
                (Some(c), Some(st)) => {
                    let (st2, r2) = c.stepped(x, st, mask);
                    if ys is Some {
                        assert((columns_of(x, b).len() as int) % 1 == 0);
                        conv_step(c, 1, x, st, b, xs, mask, st2, r2->Ok_0);
                    }
                    lemma_conv_cols_len(c, xs);
                    lemma_conv_cols_len(c, after);
                    (r2->Ok_0, conv_cols(c, xs))
                },
                _ => (x, xs),
            };
            match ys {
                None => {
                    if takes_lane(mask, b) {
                        assert(was + columns_of(ys, b) =~= was);
                        assert(after =~= xs);
                    }
                    assert(block_cols(block, xs) + columns_of(out, b) =~= block_cols(block, xs));
                },
                Some(y) => {
                    if takes_lane(mask, b) {
                        assert(columns_of(ys, b).len() == columns_of(x, b).len());
                        assert(columns_of(short, b).len() == columns_of(x, b).len());
                    }
                    match short {
                        None => {
                            if takes_lane(mask, b) {
                                assert(after =~= xs);
                            }
                            assert(block_cols(block, xs) + columns_of(out, b) =~= block_cols(block, xs));
                        },
                        Some(z) => {
                            lemma_sum(y, z, b, out->0);
                            if takes_lane(mask, b) {
                                lemma_added_join(was, columns_of(ys, b), fed, columns_of(short, b));
                            }
                        },
                    }
                },
            }
        },
    }
}

proof fn lemma_convs_start(
    block: BlockModel,
    states: Seq<Conv1dState>,
    b: int,
    xs: Seq<Sample>,
    after: Seq<Sample>,
)
    requires
        convs_saw(block, states, b, xs, xs, block.block.len() as int),
    ensures
        convs_saw(block, states, b, xs, after, 0),
{
    assert forall|j: int| 0 <= j < states.len() implies conv_fed(
        block.block[j],
        #[trigger] states[j],
        b,
        mapped_cols(block.activation, chain_cols(block, xs, j)),
    ) by {}
}

proof fn lemma_convs_done(
    block: BlockModel,
    states: Seq<Conv1dState>,
    b: int,
    xs: Seq<Sample>,
    after: Seq<Sample>,
)
    requires
        convs_saw(block, states, b, xs, after, block.block.len() as int),
    ensures
        convs_saw(block, states, b, after, after, block.block.len() as int),
{
    assert forall|j: int| 0 <= j < states.len() implies conv_fed(
        block.block[j],
        #[trigger] states[j],
        b,
        mapped_cols(block.activation, chain_cols(block, after, j)),
    ) by {}
}

/// A residual block whose convolutions are causal.
pub open spec fn causal_block(block: BlockModel) -> bool {
    &&& forall|j: int| 0 <= j < block.block.len() ==> (#[trigger] block.block[j]).causal
    &&& block.shortcut matches Some(c) ==> c.causal
}

proof fn lemma_chain_whole(block: BlockModel, xs: Seq<Sample>, y: Tensor, b: int, i: int, z: Tensor)
    requires
        keeps_rate(block),
        causal_block(block),
        0 <= i <= block.block.len(),
        timed(y, b),
        steps(y) > 0,
        timeline(y, b) == chain_cols(block, xs, i),
        block.chained(Ok(y), i) == Ok::<Tensor, Error>(z),
    ensures
        timed(z, b),
        lane_count(z) == lane_count(y),
        steps(z) == steps(y),
        timeline(z, b) == chain_cols(block, xs, block.block.len() as int),
    decreases block.block.len() - i,
{
    if i < block.block.len() {
        assert(steps_by(block.block[i], 1));
        assert(block.block[i].causal);
        let a = block.activation.applied(Ok(y));
        lemma_chain_error(block, block.block[i].forwarded(a), i + 1);
        let w = a->Ok_0;
        lemma_activation(block.activation, y, b, w);
        let v = block.block[i].forwarded(Ok(w))->Ok_0;
        assert(steps(w) % 1 == 0);
        conv_whole(block.block[i], 1, w, b, v);
        assert(steps(w) / 1 == steps(w));
        lemma_chain_whole(block, xs, v, b, i + 1, z);
    }
}

/// An error passes through the convolutions.
proof fn lemma_chain_error(block: BlockModel, ys: TensorResult, i: int)
    requires
        0 <= i,
        block.chained(ys, i) is Ok,
    ensures
        ys is Ok,
    decreases block.block.len() - i,
{
    if i < block.block.len() {
        lemma_chain_error(block, block.block[i].forwarded(block.activation.applied(ys)), i + 1);
    }
}

/// A residual block makes of each lane of a whole input what it does to the columns of the lane.
pub proof fn block_whole(block: BlockModel, x: Tensor, b: int, y: Tensor)
    requires
        keeps_rate(block),
        causal_block(block),
        timed(x, b),
        steps(x) > 0,
        block.forwarded(Ok(x)) == Ok::<Tensor, Error>(y),
    ensures
        timed(y, b),
        lane_count(y) == lane_count(x),
        steps(y) == steps(x),
        timeline(y, b) == block_cols(block, timeline(x, b)),
{
    let z = block.chained(Ok(x), 0)->Ok_0;
    lemma_chain_whole(block, timeline(x, b), x, b, 0, z);
    match block.shortcut {
        None => {
            lemma_sum(z, x, b, y);
        },
        Some(c) => {
            let short = c.forwarded(Ok(x))->Ok_0;
            assert(steps(x) % 1 == 0);
            conv_whole(c, 1, x, b, short);
            lemma_sum(z, short, b, y);
        },
    }
}

/// The columns that come out of the first `i` of some residual blocks.
pub open spec fn blocks_cols(blocks: Seq<BlockModel>, xs: Seq<Sample>, i: int) -> Seq<Sample>
    decreases i,
{
    if i <= 0 {
        xs
    } else {
        block_cols(blocks[i - 1], blocks_cols(blocks, xs, i - 1))
    }
}

/// Whether the first `i` of some residual blocks were fed what comes of `after`, and the others
/// what comes of `before`.
pub open spec fn blocks_saw(
    blocks: Seq<BlockModel>,
    states: Seq<BlockStateModel>,
    b: int,
    before: Seq<Sample>,
    after: Seq<Sample>,
    i: int,
) -> bool {
    &&& states.len() == blocks.len()
    &&& forall|j: int|
        0 <= j < states.len() ==> block_saw(
            blocks[j],
            #[trigger] states[j],
            b,
            blocks_cols(
                blocks,
                if j < i {
                    after
                } else {
                    before
                },
                j,
            ),
        )
}

/// Whether some residual blocks were fed what comes of `xs`.
pub open spec fn all_blocks_saw(
    blocks: Seq<BlockModel>,
    states: Seq<BlockStateModel>,
    b: int,
    xs: Seq<Sample>,
) -> bool {
    &&& states.len() == blocks.len()
    &&& forall|j: int|
        0 <= j < states.len() ==> block_saw(
            blocks[j],
            #[trigger] states[j],
            b,
            blocks_cols(blocks, xs, j),
        )
}

/// Whether residual blocks may leave a lane out.
pub open spec fn blocks_may_pad(blocks: Seq<BlockModel>, b: int, mask: Option<Seq<bool>>) -> bool {
    forall|j: int| 0 <= j < blocks.len() ==> block_may_pad(#[trigger] blocks[j], b, mask)
}

proof fn lemma_blocks_step(
    blocks: Seq<BlockModel>,
    x: Option<Tensor>,
    ys: Option<Tensor>,
    states: Seq<BlockStateModel>,
    b: int,
    xs: Seq<Sample>,
    mask: Option<Seq<bool>>,
    i: int,
    next: Seq<BlockStateModel>,
    out: Option<Tensor>,
)
    requires
        all_keep_rate(blocks),
        blocks_may_pad(blocks, b, mask),
        0 <= i <= blocks.len(),
        blocks_saw(blocks, states, b, xs, seen_after(xs, x, b, mask), i),
        extends(
            x,
            ys,
            b,
            mask,
            1,
            blocks_cols(blocks, xs, i),
            blocks_cols(blocks, seen_after(xs, x, b, mask), i),
        ),
        residuals_stepped(blocks, ys, states, mask, i) == (
            next,
            Ok::<Option<Tensor>, Error>(out),
        ),
    ensures
        all_blocks_saw(blocks, next, b, seen_after(xs, x, b, mask)),
        extends(
            x,
            out,
            b,
            mask,
            1,
            blocks_cols(blocks, xs, blocks.len() as int),
            blocks_cols(blocks, seen_after(xs, x, b, mask), blocks.len() as int),
        ),
    decreases blocks.len() - i,
{
    let after = seen_after(xs, x, b, mask);
    let was = blocks_cols(blocks, xs, i);
    if i < blocks.len() {
        let (s, r) = blocks[i].stepped(ys, states[i], mask);
        let step = r->Ok_0;
        assert(keeps_rate(blocks[i]));
        assert(block_may_pad(blocks[i], b, mask));
        assert(block_saw(blocks[i], states[i], b, was));
        block_step(blocks[i], ys, states[i], b, was, mask, s, step);
        assert(seen_after(was, ys, b, mask) == blocks_cols(blocks, after, i));
        let updated = states.update(i, s);
        assert forall|j: int| 0 <= j < updated.len() implies block_saw(
            blocks[j],
            #[trigger] updated[j],
            b,
            blocks_cols(
                blocks,
                if j < i + 1 {
                    after
                } else {
                    xs
                },
                j,
            ),
        ) by {
            if j != i {
                assert(updated[j] == states[j]);
            }
        }
        lemma_blocks_step(blocks, x, step, updated, b, xs, mask, i + 1, next, out);
    } else {
        assert forall|j: int| 0 <= j < next.len() implies block_saw(
            blocks[j],
            #[trigger] next[j],
            b,
            blocks_cols(blocks, after, j),
        ) by {}
    }
}

/// A step of residual blocks in turn does for each lane what they do to the columns of the lane.
pub proof fn blocks_step(
    blocks: Seq<BlockModel>,
    x: Option<Tensor>,
    states: Seq<BlockStateModel>,
    b: int,
    xs: Seq<Sample>,
    mask: Option<Seq<bool>>,
    next: Seq<BlockStateModel>,
    out: Option<Tensor>,
)
    requires
        all_keep_rate(blocks),
        blocks_may_pad(blocks, b, mask),
        has_lane(x, b, mask),
        all_blocks_saw(blocks, states, b, xs),
        residuals_stepped(blocks, x, states, mask, 0) == (next, Ok::<Option<Tensor>, Error>(out)),
    ensures
        all_blocks_saw(blocks, next, b, seen_after(xs, x, b, mask)),
        extends(
            x,
            out,
            b,
            mask,
            1,
            blocks_cols(blocks, xs, blocks.len() as int),
            blocks_cols(blocks, seen_after(xs, x, b, mask), blocks.len() as int),
        ),
{
    assert forall|j: int| 0 <= j < states.len() implies block_saw(
        blocks[j],
        #[trigger] states[j],
        b,
        blocks_cols(blocks, xs, j),
    ) by {}
    lemma_blocks_step(blocks, x, x, states, b, xs, mask, 0, next, out);
}

/// Residual blocks all of whose convolutions are causal.
pub open spec fn causal_blocks(blocks: Seq<BlockModel>) -> bool {
    forall|j: int| 0 <= j < blocks.len() ==> causal_block(#[trigger] blocks[j])
}

pub(crate) proof fn lemma_blocks_whole(
    blocks: Seq<BlockModel>,
    xs: Seq<Sample>,
    y: Tensor,
    b: int,
    i: int,
    z: Tensor,
)
    requires
        all_keep_rate(blocks),
        causal_blocks(blocks),
        0 <= i <= blocks.len(),
        timed(y, b),
        steps(y) > 0,
        timeline(y, b) == blocks_cols(blocks, xs, i),
        residuals_forwarded(blocks, Ok(y), i) == Ok::<Tensor, Error>(z),
    ensures
        timed(z, b),
        lane_count(z) == lane_count(y),
        steps(z) == steps(y),
        timeline(z, b) == blocks_cols(blocks, xs, blocks.len() as int),
    decreases blocks.len() - i,
{
    if i < blocks.len() {
        assert(keeps_rate(blocks[i]));
        assert(causal_block(blocks[i]));
        let r = blocks[i].forwarded(Ok(y));
        assert(r is Ok) by {
            if r is Err {
                assert(residuals_forwarded(blocks, r, i + 1) is Err);
            }
        }
        block_whole(blocks[i], y, b, r->Ok_0);
        lemma_blocks_whole(blocks, xs, r->Ok_0, b, i + 1, z);
    }
}

/// The columns that a stage of the encoder makes of the columns `xs`.
pub open spec fn encoder_layer_cols(
    layer: EncoderLayerModel,
    activation: Activation,
    xs: Seq<Sample>,
) -> Seq<Sample> {
    conv_cols(
        layer.downsample,
        mapped_cols(
            activation,
            blocks_cols(layer.residuals, xs, layer.residuals.len() as int),
        ),
    )
}

/// Whether a state is that of a stage whose lane `b` was fed the columns `xs`.
pub open spec fn encoder_layer_saw(
    layer: EncoderLayerModel,
    activation: Activation,
    state: EncoderLayerStateModel,
    b: int,
    xs: Seq<Sample>,
) -> bool {
    &&& all_blocks_saw(layer.residuals, state.residuals, b, xs)
    &&& conv_fed(
        layer.downsample,
        state.downsample,
        b,
        mapped_cols(
            activation,
            blocks_cols(layer.residuals, xs, layer.residuals.len() as int),
        ),
    )
}

pub open spec fn encoder_layer_may_pad(
    layer: EncoderLayerModel,
    b: int,
    mask: Option<Seq<bool>>,
) -> bool {
    blocks_may_pad(layer.residuals, b, mask) && may_pad(layer.downsample, b, mask)
}

/// A step of a stage of the encoder does for each lane what the stage does to the columns of the
/// lane.
pub proof fn encoder_layer_step(
    layer: EncoderLayerModel,
    activation: Activation,
    ratio: int,
    x: Option<Tensor>,
    state: EncoderLayerStateModel,
    b: int,
    xs: Seq<Sample>,
    mask: Option<Seq<bool>>,
    next: EncoderLayerStateModel,
    out: Option<Tensor>,
)
    requires
        divides_by(layer, ratio),
        encoder_layer_may_pad(layer, b, mask),
        has_lane(x, b, mask),
        may_leave(x, b, mask, ratio),
        encoder_layer_saw(layer, activation, state, b, xs),
        layer.stepped(activation, x, state, mask) == (next, Ok::<Option<Tensor>, Error>(out)),
    ensures
        encoder_layer_saw(layer, activation, next, b, seen_after(xs, x, b, mask)),
        extends(
            x,
            out,
            b,
            mask,
            ratio,
            encoder_layer_cols(layer, activation, xs),
            encoder_layer_cols(layer, activation, seen_after(xs, x, b, mask)),
        ),
{
    let n = layer.residuals.len() as int;
    let after = seen_after(xs, x, b, mask);
    let (residuals, r) = residuals_stepped(layer.residuals, x, state.residuals, mask, 0);
    let ys = r->Ok_0;
    blocks_step(layer.residuals, x, state.residuals, b, xs, mask, residuals, ys);
    let was = blocks_cols(layer.residuals, xs, n);
    let is = blocks_cols(layer.residuals, after, n);
    match ys {
        None => {
            if takes_lane(mask, b) {
                assert(was + columns_of(ys, b) =~= was);
            }
            assert(encoder_layer_cols(layer, activation, xs) + columns_of(out, b)
                =~= encoder_layer_cols(layer, activation, xs));
            assert(columns_of(out, b).len() * ratio == 0);
        },
        Some(y) => {
            let z = activation.applied(Ok(y))->Ok_0;
            lemma_activation(activation, y, b, z);
            lemma_mapped_join(activation, was, columns_of(ys, b));
            conv_step(
                layer.downsample,
                ratio,
                Some(z),
                state.downsample,
                b,
                mapped_cols(activation, was),
                mask,
                next.downsample,
                out,
            );
        },
    }
}

proof fn lemma_encoder_layer_whole(
    layer: EncoderLayerModel,
    activation: Activation,
    ratio: int,
    x: Tensor,
    b: int,
    y: Tensor,
)
    requires
        divides_by(layer, ratio),
        causal_blocks(layer.residuals),
        layer.downsample.causal,
        timed(x, b),
        steps(x) > 0,
        steps(x) % ratio == 0,
        layer.forwarded(activation, Ok(x)) == Ok::<Tensor, Error>(y),
    ensures
        timed(y, b),
        lane_count(y) == lane_count(x),
        steps(y) == steps(x) / ratio,
        timeline(y, b) == encoder_layer_cols(layer, activation, timeline(x, b)),
{
    let z = residuals_forwarded(layer.residuals, Ok(x), 0)->Ok_0;
    lemma_blocks_whole(layer.residuals, timeline(x, b), x, b, 0, z);
    let w = activation.applied(Ok(z))->Ok_0;
    lemma_activation(activation, z, b, w);
    conv_whole(layer.downsample, ratio, w, b, y);
}

/// The product of fewer ratios divides that of more.
proof fn lemma_rate_divides(ratios: Seq<int>, i: int, n: int) -> (t: int)
    requires
        positive(ratios),
        0 <= i <= n <= ratios.len(),
    ensures
        rate(ratios, n) == rate(ratios, i) * t,
    decreases n - i,
{
    if i == n {
        assert(rate(ratios, i) * 1 == rate(ratios, i));
        1
    } else {
        let t = lemma_rate_divides(ratios, i, n - 1);
        let a = rate(ratios, i);
        let r = ratios[n - 1];
        assert((a * t) * r == a * (t * r)) by (nonlinear_arith);
        t * r
    }
}

/// What is a whole number of frames before the first stage is a whole number of strides before
/// stage `i`.
pub(crate) proof fn lemma_whole_at_stage(ratios: Seq<int>, i: int, all: int, len: int)
    requires
        positive(ratios),
        0 <= i < ratios.len(),
        0 <= len,
        len * rate(ratios, i) == all,
        all % rate(ratios, ratios.len() as int) == 0,
    ensures
        len % ratios[i] == 0,
        (len / ratios[i]) * rate(ratios, i + 1) == all,
        all > 0 ==> len > 0,
{
    let n = ratios.len() as int;
    let a = rate(ratios, i);
    let r = ratios[i];
    lemma_rate_positive(ratios, i);
    lemma_rate_positive(ratios, n);
    let t = lemma_rate_divides(ratios, i + 1, n);
    let total = rate(ratios, n);
    let k = all / total;
    lemma_fundamental_div_mod(all, total);
    assert(all == total * k);
    assert(rate(ratios, i + 1) == a * r);
    let m = t * k;
    assert(all == (a * r) * m) by (nonlinear_arith)
        requires
            all == total * k,
            total == (a * r) * t,
            m == t * k,
    ;
    assert(len == r * m) by (nonlinear_arith)
        requires
            len * a == (a * r) * m,
            a >= 1,
    ;
    assert(len == m * r + 0) by (nonlinear_arith)
        requires
            len == r * m,
    ;
    lemma_fundamental_div_mod_converse(len, r, m, 0);
    assert(m * (a * r) == (a * r) * m) by (nonlinear_arith);
    if len == 0 {
        assert(0 * a == 0);
    }
}

/// The columns that come out of the first `i` stages of the encoder.
pub open spec fn encoder_layers_cols(encoder: EncoderModel, xs: Seq<Sample>, i: int) -> Seq<Sample>
    decreases i,
{
    if i <= 0 {
        xs
    } else {
        encoder_layer_cols(
            encoder.layers[i - 1],
            encoder.activation,
            encoder_layers_cols(encoder, xs, i - 1),
        )
    }
}

/// What goes into the last convolution of the encoder, fed the columns `xs`.
pub open spec fn encoder_inner_cols(encoder: EncoderModel, xs: Seq<Sample>) -> Seq<Sample> {
    mapped_cols(
        encoder.activation,
        encoder_layers_cols(
            encoder,
            conv_cols(encoder.init_conv, xs),
            encoder.layers.len() as int,
        ),
    )
}

/// The latent frames that the encoder makes of the columns `xs`.
#[verifier::opaque]
pub open spec fn encoder_cols(encoder: EncoderModel, xs: Seq<Sample>) -> Seq<Sample> {
    conv_cols(encoder.final_conv, encoder_inner_cols(encoder, xs))
}

/// Whether the first `i` stages were fed what comes of `after`, and the others what comes of
/// `before`.
pub open spec fn encoder_layers_saw(
    encoder: EncoderModel,
    states: Seq<EncoderLayerStateModel>,
    b: int,
    before: Seq<Sample>,
    after: Seq<Sample>,
    i: int,
) -> bool {
    &&& states.len() == encoder.layers.len()
    &&& forall|j: int|
        0 <= j < states.len() ==> encoder_layer_saw(
            encoder.layers[j],
            encoder.activation,
            #[trigger] states[j],
            b,
            encoder_layers_cols(
                encoder,
                if j < i {
                    after
                } else {
                    before
                },
                j,
            ),
        )
}

/// Whether a state is that of an encoder whose lane `b` was fed the columns `xs`.
#[verifier::opaque]
pub open spec fn encoder_saw(
    encoder: EncoderModel,
    state: EncoderStateModel,
    b: int,
    xs: Seq<Sample>,
) -> bool {
    let ys = conv_cols(encoder.init_conv, xs);
    &&& conv_fed(encoder.init_conv, state.init_conv, b, xs)
    &&& encoder_layers_saw(encoder, state.layers, b, ys, ys, encoder.layers.len() as int)
    &&& conv_fed(encoder.final_conv, state.final_conv, b, encoder_inner_cols(encoder, xs))
}

/// Whether an encoder may leave a lane out.
pub open spec fn encoder_may_pad(encoder: EncoderModel, b: int, mask: Option<Seq<bool>>) -> bool {
    &&& may_pad(encoder.init_conv, b, mask)
    &&& may_pad(encoder.final_conv, b, mask)
    &&& forall|j: int|
        0 <= j < encoder.layers.len() ==> encoder_layer_may_pad(
            #[trigger] encoder.layers[j],
            b,
            mask,
        )
}

proof fn lemma_encoder_layers_step(
    encoder: EncoderModel,
    ratios: Seq<int>,
    x: Option<Tensor>,
    ys: Option<Tensor>,
    states: Seq<EncoderLayerStateModel>,
    b: int,
    xs: Seq<Sample>,
    mask: Option<Seq<bool>>,
    i: int,
    next: Seq<EncoderLayerStateModel>,
    out: Option<Tensor>,
)
    requires
        encodes_by(encoder, ratios),
        encoder_may_pad(encoder, b, mask),
        0 <= i <= encoder.layers.len(),
        may_leave(x, b, mask, rate(ratios, ratios.len() as int)),
        encoder_layers_saw(encoder, states, b, xs, seen_after(xs, x, b, mask), i),
        extends(
            x,
            ys,
            b,
            mask,
            rate(ratios, i),
            encoder_layers_cols(encoder, xs, i),
            encoder_layers_cols(encoder, seen_after(xs, x, b, mask), i),
        ),
        encoder.layers_stepped(ys, states, mask, i) == (next, Ok::<Option<Tensor>, Error>(out)),
    ensures
        ({
            let after = seen_after(xs, x, b, mask);
            encoder_layers_saw(encoder, next, b, after, after, encoder.layers.len() as int)
        }),
        extends(
            x,
            out,
            b,
            mask,
            rate(ratios, ratios.len() as int),
            encoder_layers_cols(encoder, xs, encoder.layers.len() as int),
            encoder_layers_cols(
                encoder,
                seen_after(xs, x, b, mask),
                encoder.layers.len() as int,
            ),
        ),
    decreases encoder.layers.len() - i,
{
    let after = seen_after(xs, x, b, mask);
    let was = encoder_layers_cols(encoder, xs, i);
    if i < encoder.layers.len() {
        let layer = encoder.layers[i];
        let ratio = ratios[i];
        let (s, r) = layer.stepped(encoder.activation, ys, states[i], mask);
        let step = r->Ok_0;
        assert(divides_by(layer, ratio));
        assert(encoder_layer_may_pad(layer, b, mask));
        assert(encoder_layer_saw(layer, encoder.activation, states[i], b, was));
        if !takes_lane(mask, b) {
            lemma_rate_positive(ratios, ratios.len() as int);
            lemma_whole_at_stage(
                ratios,
                i,
                columns_of(x, b).len() as int,
                columns_of(ys, b).len() as int,
            );
        }
        encoder_layer_step(
            layer,
            encoder.activation,
            ratio,
            ys,
            states[i],
            b,
            was,
            mask,
            s,
            step,
        );
        assert(seen_after(was, ys, b, mask) == encoder_layers_cols(encoder, after, i));
        if !takes_lane(mask, b) {
            let m = columns_of(step, b).len() as int;
            assert(m * ratio == columns_of(ys, b).len());
            lemma_fundamental_div_mod_converse(columns_of(ys, b).len() as int, ratio, m, 0);
        }
        let updated = states.update(i, s);
        assert forall|j: int| 0 <= j < updated.len() implies encoder_layer_saw(
            encoder.layers[j],
            encoder.activation,
            #[trigger] updated[j],
            b,
            encoder_layers_cols(
                encoder,
                if j < i + 1 {
                    after
                } else {
                    xs
                },
                j,
            ),
        ) by {
            if j != i {
                assert(updated[j] == states[j]);
            }
        }
        lemma_encoder_layers_step(
            encoder,
            ratios,
            x,
            step,
            updated,
            b,
            xs,
            mask,
            i + 1,
            next,
            out,
        );
    } else {
        assert forall|j: int| 0 <= j < next.len() implies encoder_layer_saw(
            encoder.layers[j],
            encoder.activation,
            #[trigger] next[j],
            b,
            encoder_layers_cols(encoder, after, j),
        ) by {}
    }
}

/// A step of the encoder does for each lane what the encoder does to the columns of the lane.
#[verifier::spinoff_prover]
#[verifier::rlimit(60)]
pub proof fn encoder_step(
    encoder: EncoderModel,
    ratios: Seq<int>,
    x: Option<Tensor>,
    state: EncoderStateModel,
    b: int,
    xs: Seq<Sample>,
    mask: Option<Seq<bool>>,
    next: EncoderStateModel,
    out: Option<Tensor>,
)
    requires
        encodes_by(encoder, ratios),
        encoder_may_pad(encoder, b, mask),
        has_lane(x, b, mask),
        may_leave(x, b, mask, rate(ratios, ratios.len() as int)),
        encoder_saw(encoder, state, b, xs),
        encoder.stepped(x, state, mask) == (next, Ok::<Option<Tensor>, Error>(out)),
    ensures
        encoder_saw(encoder, next, b, seen_after(xs, x, b, mask)),
        extends(
            x,
            out,
            b,
            mask,
            rate(ratios, ratios.len() as int),
            encoder_cols(encoder, xs),
            encoder_cols(encoder, seen_after(xs, x, b, mask)),
        ),
{
    reveal(encoder_saw);
    reveal(encoder_cols);
    let n = encoder.layers.len() as int;
    let total = rate(ratios, n);
    let after = seen_after(xs, x, b, mask);
    let (init_conv, r) = encoder.init_conv.stepped(x, state.init_conv, mask);
    let ys = r->Ok_0;
    assert((columns_of(x, b).len() as int) % 1 == 0);
    conv_step(encoder.init_conv, 1, x, state.init_conv, b, xs, mask, init_conv, ys);
    let was = conv_cols(encoder.init_conv, xs);
    let is = conv_cols(encoder.init_conv, after);
    assert(is == seen_after(was, ys, b, mask));
    let (layers, r2) = encoder.layers_stepped(ys, state.layers, mask, 0);
    let zs = r2->Ok_0;
    assert(rate(ratios, 0) == 1);
    assert forall|j: int| 0 <= j < state.layers.len() implies encoder_layer_saw(
        encoder.layers[j],
        encoder.activation,
        #[trigger] state.layers[j],
        b,
        encoder_layers_cols(encoder, was, j),
    ) by {}
    lemma_encoder_layers_step(
        encoder,
        ratios,
        ys,
        ys,
        state.layers,
        b,
        was,
        mask,
        0,
        layers,
        zs,
    );
    let inner = encoder_layers_cols(encoder, was, n);
    match zs {
        None => {
            if takes_lane(mask, b) {
                assert(inner + columns_of(zs, b) =~= inner);
            }
            assert(encoder_cols(encoder, xs) + columns_of(out, b) =~= encoder_cols(encoder, xs));
            assert(0 * total == 0);
        },
        Some(z) => {
            let w = encoder.activation.applied(Ok(z))->Ok_0;
            lemma_activation(encoder.activation, z, b, w);
            lemma_mapped_join(encoder.activation, inner, columns_of(zs, b));
            assert((columns_of(Some(w), b).len() as int) % 1 == 0);
            conv_step(
                encoder.final_conv,
                1,
                Some(w),
                state.final_conv,
                b,
                mapped_cols(encoder.activation, inner),
                mask,
                next.final_conv,
                out,
            );
        },
    }
}

/// An encoder all of whose convolutions are causal.
pub open spec fn causal_encoder(encoder: EncoderModel) -> bool {
    &&& encoder.init_conv.causal
    &&& encoder.final_conv.causal
    &&& forall|j: int|
        0 <= j < encoder.layers.len() ==> causal_blocks((#[trigger] encoder.layers[j]).residuals)
            && encoder.layers[j].downsample.causal
}

proof fn lemma_encoder_layers_whole(
    encoder: EncoderModel,
    ratios: Seq<int>,
    xs: Seq<Sample>,
    y: Tensor,
    b: int,
    i: int,
    z: Tensor,
)
    requires
        encodes_by(encoder, ratios),
        causal_encoder(encoder),
        0 <= i <= encoder.layers.len(),
        timed(y, b),
        xs.len() > 0,
        (xs.len() as int) % rate(ratios, ratios.len() as int) == 0,
        steps(y) * rate(ratios, i) == xs.len(),
        timeline(y, b) == encoder_layers_cols(encoder, xs, i),
        encoder.layers_forwarded(Ok(y), i) == Ok::<Tensor, Error>(z),
    ensures
        timed(z, b),
        lane_count(z) == lane_count(y),
        steps(z) * rate(ratios, ratios.len() as int) == xs.len(),
        timeline(z, b) == encoder_layers_cols(encoder, xs, encoder.layers.len() as int),
    decreases encoder.layers.len() - i,
{
    if i < encoder.layers.len() {
        let layer = encoder.layers[i];
        assert(divides_by(layer, ratios[i]));
        assert(causal_blocks(encoder.layers[i].residuals));
        let r = layer.forwarded(encoder.activation, Ok(y));
        assert(r is Ok) by {
            if r is Err {
                assert(encoder.layers_forwarded(r, i + 1) is Err);
            }
        }
        lemma_whole_at_stage(ratios, i, xs.len() as int, steps(y));
        lemma_encoder_layer_whole(layer, encoder.activation, ratios[i], y, b, r->Ok_0);
        lemma_encoder_layers_whole(encoder, ratios, xs, r->Ok_0, b, i + 1, z);
    }
}

/// The encoder makes of each lane of a whole number of frames what it does to the columns of the
/// lane.
pub proof fn encoder_whole(
    encoder: EncoderModel,
    ratios: Seq<int>,
    x: Tensor,
    b: int,
    y: Tensor,
)
    requires
        encodes_by(encoder, ratios),
        causal_encoder(encoder),
        timed(x, b),
        steps(x) > 0,
        steps(x) % rate(ratios, ratios.len() as int) == 0,
        encoder.forwarded(Ok(x)) == Ok::<Tensor, Error>(y),
    ensures
        timed(y, b),
        steps(y) * rate(ratios, ratios.len() as int) == steps(x),
        timeline(y, b) == encoder_cols(encoder, timeline(x, b)),
{
    reveal(encoder_cols);
    let u = encoder.init_conv.forwarded(Ok(x))->Ok_0;
    assert(encoder.init_conv.forwarded(Ok(x)) is Ok) by {
        if encoder.init_conv.forwarded(Ok(x)) is Err {
            assert(encoder.layers_forwarded(encoder.init_conv.forwarded(Ok(x)), 0) is Err);
        }
    }
    assert(steps(x) % 1 == 0);
    conv_whole(encoder.init_conv, 1, x, b, u);
    assert(steps(x) / 1 == steps(x));
    let z = encoder.layers_forwarded(Ok(u), 0)->Ok_0;
    assert(rate(ratios, 0) == 1);
    lemma_encoder_layers_whole(encoder, ratios, timeline(u, b), u, b, 0, z);
    let w = encoder.activation.applied(Ok(z))->Ok_0;
    lemma_activation(encoder.activation, z, b, w);
    assert(steps(w) > 0) by {
        if steps(w) == 0 {
            assert(0 * rate(ratios, ratios.len() as int) == 0);
        }
    }
    assert(steps(w) % 1 == 0);
    conv_whole(encoder.final_conv, 1, w, b, y);
    assert(steps(w) / 1 == steps(w));
}

/// The state, and what each step put out, after an encoder was fed from the state `start` on.
pub open spec fn encoder_streamed(
    encoder: EncoderModel,
    start: EncoderStateModel,
    feeds: Seq<Feed>,
) -> (EncoderStateModel, Result<Seq<Option<Tensor>>, Error>)
    decreases feeds.len(),
{
    if feeds.len() == 0 {
        (start, Ok(seq![]))
    } else {
        let (state, outs) = encoder_streamed(encoder, start, feeds.drop_last());
        match outs {
            Err(e) => (state, Err(e)),
            Ok(outs) => {
                let feed = feeds.last();
                let (next, r) = encoder.stepped(Some(feed.chunk), state, feed.mask);
                match r {
                    Err(e) => (next, Err(e)),
                    Ok(out) => (next, Ok(outs.push(out))),
                }
            },
        }
    }
}

/// Whether a feed has lane `b`; where it leaves the lane out, it makes a whole number of frames of
/// `total` columns, and padding is zeros.
pub open spec fn encoder_feeds_lane(encoder: EncoderModel, total: int, feed: Feed, b: int) -> bool {
    &&& has_lane(Some(feed.chunk), b, feed.mask)
    &&& may_leave(Some(feed.chunk), b, feed.mask, total)
    &&& encoder_may_pad(encoder, b, feed.mask)
}

/// However an encoder is fed, each of its lanes has put out what the encoder makes of the columns
/// that the lane was fed in the steps that took it in.
#[verifier::spinoff_prover]
#[verifier::rlimit(60)]
pub proof fn encoder_streaming(
    encoder: EncoderModel,
    ratios: Seq<int>,
    start: EncoderStateModel,
    xs: Seq<Sample>,
    feeds: Seq<Feed>,
    b: int,
    outs: Seq<Option<Tensor>>,
)
    requires
        encodes_by(encoder, ratios),
        encoder_saw(encoder, start, b, xs),
        forall|i: int|
            0 <= i < feeds.len() ==> encoder_feeds_lane(
                encoder,
                rate(ratios, ratios.len() as int),
                #[trigger] feeds[i],
                b,
            ),
        encoder_streamed(encoder, start, feeds).1 == Ok::<Seq<Option<Tensor>>, Error>(outs),
    ensures
        outs.len() == feeds.len(),
        encoder_saw(
            encoder,
            encoder_streamed(encoder, start, feeds).0,
            b,
            xs + fed_columns(feeds, b),
        ),
        encoder_cols(encoder, xs) + put_columns(feeds, outs, b) == encoder_cols(
            encoder,
            xs + fed_columns(feeds, b),
        ),
    decreases feeds.len(),
{
    let total = rate(ratios, ratios.len() as int);
    if feeds.len() == 0 {
        assert(xs + fed_columns(feeds, b) =~= xs);
        assert(encoder_cols(encoder, xs) + put_columns(feeds, outs, b) =~= encoder_cols(
            encoder,
            xs,
        ));
    } else {
        let earlier = feeds.drop_last();
        let feed = feeds.last();
        let (state, r) = encoder_streamed(encoder, start, earlier);
        let outs0 = r->Ok_0;
        assert forall|i: int| 0 <= i < earlier.len() implies encoder_feeds_lane(
            encoder,
            total,
            #[trigger] earlier[i],
            b,
        ) by {
            assert(encoder_feeds_lane(encoder, total, feeds[i], b));
        }
        encoder_streaming(encoder, ratios, start, xs, earlier, b, outs0);
        assert(encoder_feeds_lane(encoder, total, feeds[feeds.len() - 1], b));
        assert(outs.drop_last() =~= outs0);
        let x = Some(feed.chunk);
        let (next, step) = encoder.stepped(x, state, feed.mask);
        let out = step->Ok_0;
        let known = xs + fed_columns(earlier, b);
        let told = put_columns(earlier, outs0, b);
        encoder_step(encoder, ratios, x, state, b, known, feed.mask, next, out);
        if takes_lane(feed.mask, b) {
            assert(xs + fed_columns(feeds, b) =~= known + timeline(feed.chunk, b));
            assert(encoder_cols(encoder, xs) + (told + columns_of(out, b)) =~= (encoder_cols(
                encoder,
                xs,
            ) + told) + columns_of(out, b));
        }
    }
}

proof fn lemma_no_conv_cols(conv: StreamableConv1d, stride: int, xs: Seq<Sample>)
    requires
        steps_by(conv, stride),
        xs.len() == 0,
    ensures
        conv_cols(conv, xs).len() == 0,
{
    lemma_no_windows(conv, xs);
}

proof fn lemma_fresh_block(block: BlockModel, b: int, xs: Seq<Sample>)
    requires
        keeps_rate(block),
        xs.len() == 0,
    ensures
        block_saw(block, block.fresh_state(), b, xs),
        block_cols(block, xs).len() == 0,
{
    lemma_chain_len(block, xs, block.block.len() as int);
    let st = block.fresh_state();
    assert forall|j: int| 0 <= j < st.block_convs.len() implies conv_fed(
        block.block[j],
        #[trigger] st.block_convs[j],
        b,
        mapped_cols(block.activation, chain_cols(block, xs, j)),
    ) by {
        lemma_chain_len(block, xs, j);
    }
}

pub(crate) proof fn lemma_fresh_blocks(blocks: Seq<BlockModel>, b: int, xs: Seq<Sample>)
    requires
        all_keep_rate(blocks),
        xs.len() == 0,
    ensures
        all_blocks_saw(blocks, residuals_fresh(blocks), b, xs),
        blocks_cols(blocks, xs, blocks.len() as int).len() == 0,
{
    let states = residuals_fresh(blocks);
    lemma_blocks_len(blocks, xs, blocks.len() as int);
    assert forall|j: int| 0 <= j < states.len() implies block_saw(
        blocks[j],
        #[trigger] states[j],
        b,
        blocks_cols(blocks, xs, j),
    ) by {
        assert(keeps_rate(blocks[j]));
        lemma_blocks_len(blocks, xs, j);
        lemma_fresh_block(blocks[j], b, blocks_cols(blocks, xs, j));
    }
}

pub(crate) proof fn lemma_blocks_len(blocks: Seq<BlockModel>, xs: Seq<Sample>, i: int)
    requires
        all_keep_rate(blocks),
        0 <= i <= blocks.len(),
    ensures
        blocks_cols(blocks, xs, i).len() == xs.len(),
    decreases i,
{
    if i > 0 {
        lemma_blocks_len(blocks, xs, i - 1);
        let block = blocks[i - 1];
        assert(keeps_rate(block));
        lemma_chain_len(block, blocks_cols(blocks, xs, i - 1), block.block.len() as int);
    }
}

pub(crate) proof fn lemma_no_encoder_layers_cols(encoder: EncoderModel, ratios: Seq<int>, xs: Seq<Sample>, i: int)
    requires
        encodes_by(encoder, ratios),
        xs.len() == 0,
        0 <= i <= encoder.layers.len(),
    ensures
        encoder_layers_cols(encoder, xs, i).len() == 0,
    decreases i,
{
    if i > 0 {
        lemma_no_encoder_layers_cols(encoder, ratios, xs, i - 1);
        let layer = encoder.layers[i - 1];
        assert(divides_by(layer, ratios[i - 1]));
        let ys = encoder_layers_cols(encoder, xs, i - 1);
        let n = layer.residuals.len() as int;
        lemma_blocks_len(layer.residuals, ys, n);
        lemma_no_conv_cols(
            layer.downsample,
            ratios[i - 1],
            mapped_cols(encoder.activation, blocks_cols(layer.residuals, ys, n)),
        );
    }
}

/// No lane of a fresh encoder was fed anything.
pub proof fn fresh_encoder_saw_nothing(encoder: EncoderModel, ratios: Seq<int>, b: int)
    requires
        encodes_by(encoder, ratios),
    ensures
        encoder_saw(encoder, encoder.fresh_state(), b, seq![]),
        encoder_cols(encoder, seq![]).len() == 0,
{
    reveal(encoder_saw);
    reveal(encoder_cols);
    let xs = Seq::<Sample>::empty();
    let st = encoder.fresh_state();
    let n = encoder.layers.len() as int;
    let ys = conv_cols(encoder.init_conv, xs);
    lemma_no_conv_cols(encoder.init_conv, 1, xs);
    lemma_no_encoder_layers_cols(encoder, ratios, ys, n);
    lemma_no_conv_cols(encoder.final_conv, 1, encoder_inner_cols(encoder, xs));
    assert forall|j: int| 0 <= j < st.layers.len() implies encoder_layer_saw(
        encoder.layers[j],
        encoder.activation,
        #[trigger] st.layers[j],
        b,
        encoder_layers_cols(encoder, ys, j),
    ) by {
        let layer = encoder.layers[j];
        assert(divides_by(layer, ratios[j]));
        lemma_no_encoder_layers_cols(encoder, ratios, ys, j);
        lemma_fresh_blocks(layer.residuals, b, encoder_layers_cols(encoder, ys, j));
    }
}

/// The encoder fed chunk by chunk, however the samples of a lane are cut, however many steps leave
/// the lane out and whatever the other lanes hold, puts out for the lane the latent frames that it
/// puts out for the whole of a whole number of frames.
pub proof fn encoder_streaming_matches_forward(
    encoder: EncoderModel,
    ratios: Seq<int>,
    feeds: Seq<Feed>,
    outs: Seq<Option<Tensor>>,
    b: int,
    x: Tensor,
    c: int,
    y: Tensor,
)
    requires
        encodes_by(encoder, ratios),
        causal_encoder(encoder),
        forall|i: int|
            0 <= i < feeds.len() ==> encoder_feeds_lane(
                encoder,
                rate(ratios, ratios.len() as int),
                #[trigger] feeds[i],
                b,
            ),
        encoder_streamed(encoder, encoder.fresh_state(), feeds).1 == Ok::<
            Seq<Option<Tensor>>,
            Error,
        >(outs),
        timed(x, c),
        steps(x) > 0,
        steps(x) % rate(ratios, ratios.len() as int) == 0,
        timeline(x, c) == fed_columns(feeds, b),
        encoder.forwarded(Ok(x)) == Ok::<Tensor, Error>(y),
    ensures
        put_columns(feeds, outs, b) == timeline(y, c),
        put_columns(feeds, outs, b).len() * rate(ratios, ratios.len() as int) == steps(x),
{
    let none = Seq::<Sample>::empty();
    fresh_encoder_saw_nothing(encoder, ratios, b);
    encoder_streaming(encoder, ratios, encoder.fresh_state(), none, feeds, b, outs);
    encoder_whole(encoder, ratios, x, c, y);
    assert(none + fed_columns(feeds, b) =~= timeline(x, c));
    assert(encoder_cols(encoder, none) + put_columns(feeds, outs, b) =~= put_columns(
        feeds,
        outs,
        b,
    ));
}

/// An encoder of a causal layout is causal, and may leave lanes out where the layout pads with
/// zeros.
pub proof fn causal_layout_of_encoder(
    encoder: EncoderModel,
    cfg: Config,
    b: int,
    mask: Option<Seq<bool>>,
)
    requires
        encoder_pads_so(encoder, cfg),
        cfg.causal,
    ensures
        causal_encoder(encoder),
        takes_lane(mask, b) || cfg.pad_mode is Constant ==> encoder_may_pad(encoder, b, mask),
{
    assert forall|j: int| 0 <= j < encoder.layers.len() implies causal_blocks(
        (#[trigger] encoder.layers[j]).residuals,
    ) && encoder.layers[j].downsample.causal by {
        assert(encoder_layer_pads_so(encoder.layers[j], cfg));
        lemma_causal_blocks(encoder.layers[j].residuals, cfg.pad_mode, b, mask);
    }
    if takes_lane(mask, b) || cfg.pad_mode is Constant {
        assert forall|j: int| 0 <= j < encoder.layers.len() implies encoder_layer_may_pad(
            #[trigger] encoder.layers[j],
            b,
            mask,
        ) by {
            assert(encoder_layer_pads_so(encoder.layers[j], cfg));
            lemma_causal_blocks(encoder.layers[j].residuals, cfg.pad_mode, b, mask);
        }
    }
}

pub(crate) proof fn lemma_causal_blocks(
    blocks: Seq<BlockModel>,
    pad_mode: PadMode,
    b: int,
    mask: Option<Seq<bool>>,
)
    requires
        blocks_pad_so(blocks, true, pad_mode),
    ensures
        causal_blocks(blocks),
        takes_lane(mask, b) || pad_mode is Constant ==> blocks_may_pad(blocks, b, mask),
{
    assert forall|j: int| 0 <= j < blocks.len() implies causal_block(#[trigger] blocks[j]) && (
    takes_lane(mask, b) || pad_mode is Constant ==> block_may_pad(blocks[j], b, mask)) by {
        assert(block_pads_so(blocks[j], true, pad_mode));
        let block = blocks[j];
        assert forall|i: int| 0 <= i < block.block.len() implies (#[trigger] block.block[i]).causal
            && block.block[i].pad_mode == pad_mode by {
            assert(pads_so(block.block[i], true, pad_mode));
        }
    }
}

/// A causal encoder loaded from a checkpoint that keeps to the shapes asked for, fed chunk by chunk
/// from its fresh state with a lane taken in by every step, puts out for the lane the latent frames
/// that it puts out for the whole.
pub proof fn loaded_encoder_streams(
    vb: Weights,
    cfg: Config,
    encoder: EncoderModel,
    feeds: Seq<Feed>,
    outs: Seq<Option<Tensor>>,
    b: int,
    x: Tensor,
    c: int,
    y: Tensor,
)
    requires
        vb.checkpoint.format == Format::Safetensors,
        sound_layout(cfg),
        cfg.causal,
        EncoderModel::loaded(vb, cfg) == Ok::<EncoderModel, Error>(encoder),
        forall|i: int|
            0 <= i < feeds.len() ==> has_lane(
                Some((#[trigger] feeds[i]).chunk),
                b,
                feeds[i].mask,
            ) && takes_lane(feeds[i].mask, b),
        encoder_streamed(encoder, encoder.fresh_state(), feeds).1 == Ok::<
            Seq<Option<Tensor>>,
            Error,
        >(outs),
        timed(x, c),
        steps(x) > 0,
        steps(x) % rate(encoder_ratios(cfg), cfg.ratios@.len() as int) == 0,
        timeline(x, c) == fed_columns(feeds, b),
        encoder.forwarded(Ok(x)) == Ok::<Tensor, Error>(y),
    ensures
        put_columns(feeds, outs, b) == timeline(y, c),
{
    let ratios = encoder_ratios(cfg);
    let total = rate(ratios, ratios.len() as int);
    loaded_encoder_rate(vb, cfg, encoder);
    causal_layout_of_encoder(encoder, cfg, b, None);
    assert forall|i: int| 0 <= i < feeds.len() implies encoder_feeds_lane(
        encoder,
        total,
        #[trigger] feeds[i],
        b,
    ) by {
        causal_layout_of_encoder(encoder, cfg, b, feeds[i].mask);
    }
    encoder_streaming_matches_forward(encoder, ratios, feeds, outs, b, x, c, y);
}

} // verus!
