//! What the decoder makes of the columns of a lane, step by step or all at once.
use crate::checkpoint::{Format, Weights};
use crate::conv::{ConvTr1dState, StreamableConvTranspose1d};
use crate::error::Error;
use crate::overlap::{finished, tr_has_seen, tr_step_leaves_lane, tr_step_takes_lane, tr_whole};
use crate::rates::{
    decoder_layer_pads_so, decoder_pads_so, decoder_ratios, decodes_by, lemma_rate_positive,
    loaded_decoder_rate, multiplies_by, rate, sound_layout, spreads_by,
};
use crate::seanet::{
    residuals_forwarded, Activation, Config, DecoderLayerModel, DecoderLayerStateModel,
    DecoderModel, DecoderStateModel,
};
use crate::stepwise::{
    all_blocks_saw, blocks_cols, blocks_may_pad, blocks_step, causal_blocks, conv_cols, conv_fed,
    conv_step, conv_whole, has_lane, lemma_activation, lemma_blocks_len, lemma_blocks_whole,
    lemma_causal_blocks, lemma_conv_cols_len, lemma_fresh_blocks, lemma_mapped_join, mapped_cols,
    may_pad, seen_after,
};
use crate::tensor::Tensor;
use crate::timeline::{
    columns_of, fed_columns, lane_count, put_columns, steps, takes_lane, timed, timeline, Feed,
    Sample,
};
use vstd::prelude::*;

verus! {

/// What a step must do for a lane: one that takes in the lane extends what the lane put out,
/// `before`, to `after`.
pub open spec fn lengthens(
    out: Option<Tensor>,
    b: int,
    mask: Option<Seq<bool>>,
    before: Seq<Sample>,
    after: Seq<Sample>,
) -> bool {
    has_lane(out, b, mask) && (takes_lane(mask, b) ==> before + columns_of(out, b) == after)
}

/// Whether a step may leave lane `b`, which was fed the columns `xs`, out of a transposed
/// convolution: the lane has a state that holds the bias, or there is none.
pub open spec fn may_rest(
    conv: StreamableConvTranspose1d,
    b: int,
    xs: Seq<Sample>,
    mask: Option<Seq<bool>>,
) -> bool {
    takes_lane(mask, b) || xs.len() > 0 || conv.convtr.bias is None
}

/// A step of a transposed convolution does for each lane what the convolution does to the columns
/// of the lane.
pub proof fn tr_step(
    conv: StreamableConvTranspose1d,
    stride: int,
    x: Option<Tensor>,
    state: ConvTr1dState,
    b: int,
    xs: Seq<Sample>,
    mask: Option<Seq<bool>>,
    next: ConvTr1dState,
    out: Option<Tensor>,
)
    requires
        spreads_by(conv, stride),
        has_lane(x, b, mask),
        may_rest(conv, b, xs, mask),
        tr_has_seen(conv, state, b, xs),
        match x {
            None => out is None && next == state,
            Some(x) => conv.stepped(Some(x), state, mask) == (
                next,
                Ok::<Option<Tensor>, Error>(out),
            ),
        },
    ensures
        tr_has_seen(conv, next, b, seen_after(xs, x, b, mask)),
        lengthens(
            out,
            b,
            mask,
            finished(conv, xs),
            finished(conv, seen_after(xs, x, b, mask)),
        ),
{
    match x {
        None => {
            assert(xs + columns_of(x, b) =~= xs);
            assert(finished(conv, xs) + columns_of(out, b) =~= finished(conv, xs));
        },
        Some(t) => {
            if takes_lane(mask, b) {
                tr_step_takes_lane(conv, t, state, b, xs, mask, next, out);
            } else {
                tr_step_leaves_lane(conv, t, state, b, xs, mask, next, out);
            }
        },
    }
}

/// What goes into the residual blocks of a stage of the decoder, fed the columns `xs`.
pub open spec fn upsampled_cols(
    layer: DecoderLayerModel,
    activation: Activation,
    xs: Seq<Sample>,
) -> Seq<Sample> {
    finished(layer.upsample, mapped_cols(activation, xs))
}

/// The columns that a stage of the decoder makes of the columns `xs`.
pub open spec fn decoder_layer_cols(
    layer: DecoderLayerModel,
    activation: Activation,
    xs: Seq<Sample>,
) -> Seq<Sample> {
    blocks_cols(
        layer.residuals,
        upsampled_cols(layer, activation, xs),
        layer.residuals.len() as int,
    )
}

/// Whether a state is that of a stage whose lane `b` was fed the columns `xs`.
pub open spec fn decoder_layer_saw(
    layer: DecoderLayerModel,
    activation: Activation,
    state: DecoderLayerStateModel,
    b: int,
    xs: Seq<Sample>,
) -> bool {
    &&& tr_has_seen(layer.upsample, state.upsample, b, mapped_cols(activation, xs))
    &&& all_blocks_saw(
        layer.residuals,
        state.residuals,
        b,
        upsampled_cols(layer, activation, xs),
    )
}

/// Whether a step may leave lane `b`, which was fed the columns `xs`, out of a stage.
pub open spec fn decoder_layer_may_leave(
    layer: DecoderLayerModel,
    b: int,
    xs: Seq<Sample>,
    mask: Option<Seq<bool>>,
) -> bool {
    may_rest(layer.upsample, b, xs, mask) && blocks_may_pad(layer.residuals, b, mask)
}

/// A step of a stage of the decoder does for each lane what the stage does to the columns of the
/// lane.
pub proof fn decoder_layer_step(
    layer: DecoderLayerModel,
    activation: Activation,
    ratio: int,
    x: Option<Tensor>,
    state: DecoderLayerStateModel,
    b: int,
    xs: Seq<Sample>,
    mask: Option<Seq<bool>>,
    next: DecoderLayerStateModel,
    out: Option<Tensor>,
)
    requires
        multiplies_by(layer, ratio),
        decoder_layer_may_leave(layer, b, xs, mask),
        has_lane(x, b, mask),
        decoder_layer_saw(layer, activation, state, b, xs),
        layer.stepped(activation, x, state, mask) == (next, Ok::<Option<Tensor>, Error>(out)),
    ensures
        decoder_layer_saw(layer, activation, next, b, seen_after(xs, x, b, mask)),
        lengthens(
            out,
            b,
            mask,
            decoder_layer_cols(layer, activation, xs),
            decoder_layer_cols(layer, activation, seen_after(xs, x, b, mask)),
        ),
{
    let after = seen_after(xs, x, b, mask);
    let (upsample, r) = layer.upsampled(activation, x, state.upsample, mask);
    let ys = r->Ok_0;
    let fed = mapped_cols(activation, xs);
    let z = match x {
        None => None,
        Some(t) => Some(activation.applied(Ok(t))->Ok_0),
    };
    if let Some(t) = x {
        lemma_activation(activation, t, b, z->0);
    }
    lemma_mapped_join(activation, xs, columns_of(x, b));
    assert(columns_of(z, b) =~= mapped_cols(activation, columns_of(x, b)));
    assert(seen_after(fed, z, b, mask) == mapped_cols(activation, after));
    tr_step(layer.upsample, ratio, z, state.upsample, b, fed, mask, upsample, ys);
    let was = upsampled_cols(layer, activation, xs);
    blocks_step(layer.residuals, ys, state.residuals, b, was, mask, next.residuals, out);
    assert(seen_after(was, ys, b, mask) == upsampled_cols(layer, activation, after));
}

proof fn lemma_decoder_layer_len(
    layer: DecoderLayerModel,
    activation: Activation,
    ratio: int,
    xs: Seq<Sample>,
)
    requires
        multiplies_by(layer, ratio),
    ensures
        decoder_layer_cols(layer, activation, xs).len() == xs.len() * ratio,
{
    let n = xs.len() as int;
    assert(n * ratio >= 0) by (nonlinear_arith)
        requires
            n >= 0,
            ratio >= 1,
    ;
    lemma_blocks_len(
        layer.residuals,
        upsampled_cols(layer, activation, xs),
        layer.residuals.len() as int,
    );
}

proof fn lemma_decoder_layer_whole(
    layer: DecoderLayerModel,
    activation: Activation,
    ratio: int,
    x: Tensor,
    b: int,
    y: Tensor,
)
    requires
        multiplies_by(layer, ratio),
        causal_blocks(layer.residuals),
        layer.upsample.causal,
        timed(x, b),
        layer.forwarded(activation, Ok(x)) == Ok::<Tensor, Error>(y),
    ensures
        timed(y, b),
        steps(x) > 0,
        lane_count(y) == lane_count(x),
        steps(y) == steps(x) * ratio,
        timeline(y, b) == decoder_layer_cols(layer, activation, timeline(x, b)),
{
    let w = activation.applied(Ok(x));
    let u = layer.upsample.forwarded(w);
    assert(u is Ok) by {
        if u is Err {
            assert(residuals_forwarded(layer.residuals, u, 0) is Err);
        }
    }
    lemma_activation(activation, x, b, w->Ok_0);
    tr_whole(layer.upsample, w->Ok_0, b, u->Ok_0);
    let n = steps(x);
    assert(n * ratio > 0) by (nonlinear_arith)
        requires
            n > 0,
            ratio >= 1,
    ;
    lemma_blocks_whole(layer.residuals, timeline(u->Ok_0, b), u->Ok_0, b, 0, y);
}

/// The columns that come out of the first `i` stages of the decoder.
pub open spec fn decoder_layers_cols(decoder: DecoderModel, xs: Seq<Sample>, i: int) -> Seq<Sample>
    decreases i,
{
    if i <= 0 {
        xs
    } else {
        decoder_layer_cols(
            decoder.layers[i - 1],
            decoder.activation,
            decoder_layers_cols(decoder, xs, i - 1),
        )
    }
}

/// What goes into the last convolution of the decoder, fed the columns `xs`.
pub open spec fn decoder_inner_cols(decoder: DecoderModel, xs: Seq<Sample>) -> Seq<Sample> {
    mapped_cols(
        decoder.activation,
        decoder_layers_cols(
            decoder,
            conv_cols(decoder.init_conv, xs),
            decoder.layers.len() as int,
        ),
    )
}

/// The columns of the last convolution of the decoder after its activation, where it has one.
pub open spec fn final_cols(decoder: DecoderModel, xs: Seq<Sample>) -> Seq<Sample> {
    match decoder.final_activation {
        None => xs,
        Some(act) => mapped_cols(act, xs),
    }
}

/// The samples that the decoder makes of the latent frames `xs`.
#[verifier::opaque]
pub open spec fn decoder_cols(decoder: DecoderModel, xs: Seq<Sample>) -> Seq<Sample> {
    final_cols(decoder, conv_cols(decoder.final_conv, decoder_inner_cols(decoder, xs)))
}

/// Whether the first `i` stages were fed what comes of `after`, and the others what comes of
/// `before`.
pub open spec fn decoder_layers_saw(
    decoder: DecoderModel,
    states: Seq<DecoderLayerStateModel>,
    b: int,
    before: Seq<Sample>,
    after: Seq<Sample>,
    i: int,
) -> bool {
    &&& states.len() == decoder.layers.len()
    &&& forall|j: int|
        0 <= j < states.len() ==> decoder_layer_saw(
            decoder.layers[j],
            decoder.activation,
            #[trigger] states[j],
            b,
            decoder_layers_cols(
                decoder,
                if j < i {
                    after
                } else {
                    before
                },
                j,
            ),
        )
}

/// Whether a state is that of a decoder whose lane `b` was fed the columns `xs`.
#[verifier::opaque]
pub open spec fn decoder_saw(
    decoder: DecoderModel,
    state: DecoderStateModel,
    b: int,
    xs: Seq<Sample>,
) -> bool {
    let ys = conv_cols(decoder.init_conv, xs);
    &&& conv_fed(decoder.init_conv, state.init_conv, b, xs)
    &&& decoder_layers_saw(decoder, state.layers, b, ys, ys, decoder.layers.len() as int)
    &&& conv_fed(decoder.final_conv, state.final_conv, b, decoder_inner_cols(decoder, xs))
}

/// Whether a step may leave lane `b`, which was fed the columns `xs`, out of the decoder: padding
/// is zeros, and the lane was fed before or no stage has a bias.
pub open spec fn decoder_may_leave(
    decoder: DecoderModel,
    b: int,
    xs: Seq<Sample>,
    mask: Option<Seq<bool>>,
) -> bool {
    &&& may_pad(decoder.init_conv, b, mask)
    &&& may_pad(decoder.final_conv, b, mask)
    &&& forall|j: int|
        0 <= j < decoder.layers.len() ==> decoder_layer_may_leave(
            #[trigger] decoder.layers[j],
            b,
            xs,
            mask,
        )
}

pub(crate) proof fn lemma_decoder_layers_len(
    decoder: DecoderModel,
    ratios: Seq<int>,
    xs: Seq<Sample>,
    i: int,
)
    requires
        decodes_by(decoder, ratios),
        0 <= i <= decoder.layers.len(),
    ensures
        decoder_layers_cols(decoder, xs, i).len() == xs.len() * rate(ratios, i),
        xs.len() > 0 ==> decoder_layers_cols(decoder, xs, i).len() > 0,
    decreases i,
{
    let n = xs.len() as int;
    if i > 0 {
        lemma_decoder_layers_len(decoder, ratios, xs, i - 1);
        assert(multiplies_by(decoder.layers[i - 1], ratios[i - 1]));
        lemma_decoder_layer_len(
            decoder.layers[i - 1],
            decoder.activation,
            ratios[i - 1],
            decoder_layers_cols(decoder, xs, i - 1),
        );
        let a = rate(ratios, i - 1);
        let r = ratios[i - 1];
        assert((n * a) * r == n * (a * r)) by (nonlinear_arith);
    }
    lemma_rate_positive(ratios, i);
    let a = rate(ratios, i);
    if n > 0 {
        assert(n * a > 0) by (nonlinear_arith)
            requires
                n > 0,
                a >= 1,
        ;
    } else {
        assert(0 * a == 0);
    }
}

proof fn lemma_decoder_layers_step(
    decoder: DecoderModel,
    ratios: Seq<int>,
    x: Option<Tensor>,
    ys: Option<Tensor>,
    states: Seq<DecoderLayerStateModel>,
    b: int,
    xs: Seq<Sample>,
    mask: Option<Seq<bool>>,
    i: int,
    next: Seq<DecoderLayerStateModel>,
    out: Option<Tensor>,
)
    requires
        decodes_by(decoder, ratios),
        decoder_may_leave(decoder, b, xs, mask),
        0 <= i <= decoder.layers.len(),
        decoder_layers_saw(decoder, states, b, xs, seen_after(xs, x, b, mask), i),
        lengthens(
            ys,
            b,
            mask,
            decoder_layers_cols(decoder, xs, i),
            decoder_layers_cols(decoder, seen_after(xs, x, b, mask), i),
        ),
        decoder.layers_stepped(ys, states, mask, i) == (next, Ok::<Option<Tensor>, Error>(out)),
    ensures
        ({
            let after = seen_after(xs, x, b, mask);
            decoder_layers_saw(decoder, next, b, after, after, decoder.layers.len() as int)
        }),
        lengthens(
            out,
            b,
            mask,
            decoder_layers_cols(decoder, xs, decoder.layers.len() as int),
            decoder_layers_cols(
                decoder,
                seen_after(xs, x, b, mask),
                decoder.layers.len() as int,
            ),
        ),
    decreases decoder.layers.len() - i,
{
    let after = seen_after(xs, x, b, mask);
    let was = decoder_layers_cols(decoder, xs, i);
    if i < decoder.layers.len() {
        let layer = decoder.layers[i];
        let (s, r) = layer.stepped(decoder.activation, ys, states[i], mask);
        let step = r->Ok_0;
        assert(multiplies_by(layer, ratios[i]));
        assert(decoder_layer_may_leave(decoder.layers[i], b, xs, mask));
        lemma_decoder_layers_len(decoder, ratios, xs, i);
        assert(decoder_layer_saw(layer, decoder.activation, states[i], b, was));
        decoder_layer_step(
            layer,
            decoder.activation,
            ratios[i],
            ys,
            states[i],
            b,
            was,
            mask,
            s,
            step,
        );
        assert(seen_after(was, ys, b, mask) == decoder_layers_cols(decoder, after, i));
        let updated = states.update(i, s);
        assert forall|j: int| 0 <= j < updated.len() implies decoder_layer_saw(
            decoder.layers[j],
            decoder.activation,
            #[trigger] updated[j],
            b,
            decoder_layers_cols(
                decoder,
                if j < i + 1 {
                    after
                } else {
                    xs
                },
                j,
            ),
        ) by {
            if j != i {
                assert(updated[j] == states[j]);
            }
        }
        lemma_decoder_layers_step(
            decoder,
            ratios,
            x,
            step,
            updated,
            b,
            xs,
            mask,
            i + 1,
            next,
            out,
        );
    } else {
        assert forall|j: int| 0 <= j < next.len() implies decoder_layer_saw(
            decoder.layers[j],
            decoder.activation,
            #[trigger] next[j],
            b,
            decoder_layers_cols(decoder, after, j),
        ) by {}
    }
}

proof fn lemma_final_cols(decoder: DecoderModel, x: Tensor, b: int, y: Tensor)
    requires
        timed(x, b),
        decoder.finished(Ok(x)) == Ok::<Tensor, Error>(y),
    ensures
        timed(y, b),
        y.shape_of() == x.shape_of(),
        timeline(y, b) == final_cols(decoder, timeline(x, b)),
{
    if let Some(act) = decoder.final_activation {
        lemma_activation(act, x, b, y);
    }
}

/// A step of the decoder does for each lane what the decoder does to the columns of the lane.
#[verifier::spinoff_prover]
#[verifier::rlimit(60)]
pub proof fn decoder_step(
    decoder: DecoderModel,
    ratios: Seq<int>,
    x: Option<Tensor>,
    state: DecoderStateModel,
    b: int,
    xs: Seq<Sample>,
    mask: Option<Seq<bool>>,
    next: DecoderStateModel,
    out: Option<Tensor>,
)
    requires
        decodes_by(decoder, ratios),
        decoder_may_leave(decoder, b, xs, mask),
        has_lane(x, b, mask),
        decoder_saw(decoder, state, b, xs),
        decoder.stepped(x, state, mask) == (next, Ok::<Option<Tensor>, Error>(out)),
    ensures
        decoder_saw(decoder, next, b, seen_after(xs, x, b, mask)),
        lengthens(
            out,
            b,
            mask,
            decoder_cols(decoder, xs),
            decoder_cols(decoder, seen_after(xs, x, b, mask)),
        ),
{
    reveal(decoder_saw);
    reveal(decoder_cols);
    let n = decoder.layers.len() as int;
    let after = seen_after(xs, x, b, mask);
    let (init_conv, r) = decoder.init_conv.stepped(x, state.init_conv, mask);
    let ys = r->Ok_0;
    assert((columns_of(x, b).len() as int) % 1 == 0);
    conv_step(decoder.init_conv, 1, x, state.init_conv, b, xs, mask, init_conv, ys);
    let was = conv_cols(decoder.init_conv, xs);
    lemma_conv_cols_len(decoder.init_conv, xs);
    assert(seen_after(was, ys, b, mask) == conv_cols(decoder.init_conv, after));
    let (layers, r2) = decoder.layers_stepped(ys, state.layers, mask, 0);
    let zs = r2->Ok_0;
    assert forall|j: int| 0 <= j < state.layers.len() implies decoder_layer_saw(
        decoder.layers[j],
        decoder.activation,
        #[trigger] state.layers[j],
        b,
        decoder_layers_cols(decoder, was, j),
    ) by {}
    assert forall|j: int| 0 <= j < decoder.layers.len() implies decoder_layer_may_leave(
        #[trigger] decoder.layers[j],
        b,
        was,
        mask,
    ) by {
        assert(decoder_layer_may_leave(decoder.layers[j], b, xs, mask));
    }
    lemma_decoder_layers_step(
        decoder,
        ratios,
        ys,
        ys,
        state.layers,
        b,
        was,
        mask,
        0,
        layers,
        zs,
    );
    let inner = decoder_layers_cols(decoder, was, n);
    match zs {
        None => {
            if takes_lane(mask, b) {
                assert(inner + columns_of(zs, b) =~= inner);
            }
            assert(decoder_cols(decoder, xs) + columns_of(out, b) =~= decoder_cols(decoder, xs));
        },
        Some(z) => {
            let w = decoder.activation.applied(Ok(z))->Ok_0;
            lemma_activation(decoder.activation, z, b, w);
            lemma_mapped_join(decoder.activation, inner, columns_of(zs, b));
            assert((columns_of(Some(w), b).len() as int) % 1 == 0);
            let fed = mapped_cols(decoder.activation, inner);
            let (final_conv, r3) = decoder.final_conv.stepped(Some(w), state.final_conv, mask);
            let v = r3->Ok_0;
            conv_step(
                decoder.final_conv,
                1,
                Some(w),
                state.final_conv,
                b,
                fed,
                mask,
                final_conv,
                v,
            );
            let told = conv_cols(decoder.final_conv, fed);
            if let Some(t) = v {
                lemma_final_cols(decoder, t, b, out->0);
            }
            if let Some(act) = decoder.final_activation {
                lemma_mapped_join(act, told, columns_of(v, b));
            }
            if v is None {
                assert(final_cols(decoder, columns_of(v, b)) =~= seq![]);
            }
            assert(columns_of(out, b) == final_cols(decoder, columns_of(v, b)));
        },
    }
}

/// A decoder all of whose convolutions are causal.
pub open spec fn causal_decoder(decoder: DecoderModel) -> bool {
    &&& decoder.init_conv.causal
    &&& decoder.final_conv.causal
    &&& forall|j: int|
        0 <= j < decoder.layers.len() ==> causal_blocks((#[trigger] decoder.layers[j]).residuals)
            && decoder.layers[j].upsample.causal
}

proof fn lemma_decoder_layers_whole(
    decoder: DecoderModel,
    ratios: Seq<int>,
    xs: Seq<Sample>,
    y: Tensor,
    b: int,
    i: int,
    z: Tensor,
)
    requires
        decodes_by(decoder, ratios),
        causal_decoder(decoder),
        0 <= i <= decoder.layers.len(),
        timed(y, b),
        steps(y) > 0,
        timeline(y, b) == decoder_layers_cols(decoder, xs, i),
        decoder.layers_forwarded(Ok(y), i) == Ok::<Tensor, Error>(z),
    ensures
        timed(z, b),
        lane_count(z) == lane_count(y),
        steps(z) > 0,
        timeline(z, b) == decoder_layers_cols(decoder, xs, decoder.layers.len() as int),
    decreases decoder.layers.len() - i,
{
    if i < decoder.layers.len() {
        let layer = decoder.layers[i];
        let ratio = ratios[i];
        assert(multiplies_by(layer, ratio));
        assert(causal_blocks(decoder.layers[i].residuals));
        let r = layer.forwarded(decoder.activation, Ok(y));
        assert(r is Ok) by {
            if r is Err {
                assert(decoder.layers_forwarded(r, i + 1) is Err);
            }
        }
        lemma_decoder_layer_whole(layer, decoder.activation, ratio, y, b, r->Ok_0);
        let n = steps(y);
        assert(n * ratio > 0) by (nonlinear_arith)
            requires
                n > 0,
                ratio >= 1,
        ;
        lemma_decoder_layers_whole(decoder, ratios, xs, r->Ok_0, b, i + 1, z);
    }
}

/// The decoder makes of each lane of whole latent frames what it does to the columns of the lane.
pub proof fn decoder_whole(decoder: DecoderModel, ratios: Seq<int>, x: Tensor, b: int, y: Tensor)
    requires
        decodes_by(decoder, ratios),
        causal_decoder(decoder),
        timed(x, b),
        steps(x) > 0,
        decoder.forwarded(Ok(x)) == Ok::<Tensor, Error>(y),
    ensures
        timed(y, b),
        steps(y) == steps(x) * rate(ratios, ratios.len() as int),
        timeline(y, b) == decoder_cols(decoder, timeline(x, b)),
{
    reveal(decoder_cols);
    let n = decoder.layers.len() as int;
    let r = decoder.init_conv.forwarded(Ok(x));
    assert(r is Ok) by {
        if r is Err {
            assert(decoder.layers_forwarded(r, 0) is Err);
        }
    }
    let u = r->Ok_0;
    assert(steps(x) % 1 == 0);
    conv_whole(decoder.init_conv, 1, x, b, u);
    assert(steps(x) / 1 == steps(x));
    let z = decoder.layers_forwarded(Ok(u), 0)->Ok_0;
    lemma_decoder_layers_whole(decoder, ratios, timeline(u, b), u, b, 0, z);
    lemma_decoder_layers_len(decoder, ratios, timeline(u, b), n);
    let w = decoder.activation.applied(Ok(z))->Ok_0;
    lemma_activation(decoder.activation, z, b, w);
    let v = decoder.final_conv.forwarded(Ok(w))->Ok_0;
    assert(steps(w) % 1 == 0);
    conv_whole(decoder.final_conv, 1, w, b, v);
    assert(steps(w) / 1 == steps(w));
    lemma_final_cols(decoder, v, b, y);
}

/// The state, and what each step put out, after a decoder was fed from the state `start` on.
pub open spec fn decoder_streamed(
    decoder: DecoderModel,
    start: DecoderStateModel,
    feeds: Seq<Feed>,
) -> (DecoderStateModel, Result<Seq<Option<Tensor>>, Error>)
    decreases feeds.len(),
{
    if feeds.len() == 0 {
        (start, Ok(seq![]))
    } else {
        let (state, outs) = decoder_streamed(decoder, start, feeds.drop_last());
        match outs {
            Err(e) => (state, Err(e)),
            Ok(outs) => {
                let feed = feeds.last();
                let (next, r) = decoder.stepped(Some(feed.chunk), state, feed.mask);
                match r {
                    Err(e) => (next, Err(e)),
                    Ok(out) => (next, Ok(outs.push(out))),
                }
            },
        }
    }
}

/// Whether every feed has lane `b`, which was fed the columns `xs` before, and leaves it out only
/// where it may.
pub open spec fn decoder_feeds_lane(
    decoder: DecoderModel,
    xs: Seq<Sample>,
    feeds: Seq<Feed>,
    b: int,
) -> bool
    decreases feeds.len(),
{
    feeds.len() > 0 ==> {
        let earlier = feeds.drop_last();
        let feed = feeds.last();
        &&& decoder_feeds_lane(decoder, xs, earlier, b)
        &&& has_lane(Some(feed.chunk), b, feed.mask)
        &&& decoder_may_leave(decoder, b, xs + fed_columns(earlier, b), feed.mask)
    }
}

/// However a decoder is fed, each of its lanes has put out what the decoder makes of the columns
/// that the lane was fed in the steps that took it in.
#[verifier::spinoff_prover]
#[verifier::rlimit(60)]
pub proof fn decoder_streaming(
    decoder: DecoderModel,
    ratios: Seq<int>,
    start: DecoderStateModel,
    xs: Seq<Sample>,
    feeds: Seq<Feed>,
    b: int,
    outs: Seq<Option<Tensor>>,
)
    requires
        decodes_by(decoder, ratios),
        decoder_saw(decoder, start, b, xs),
        decoder_feeds_lane(decoder, xs, feeds, b),
        decoder_streamed(decoder, start, feeds).1 == Ok::<Seq<Option<Tensor>>, Error>(outs),
    ensures
        outs.len() == feeds.len(),
        decoder_saw(
            decoder,
            decoder_streamed(decoder, start, feeds).0,
            b,
            xs + fed_columns(feeds, b),
        ),
        decoder_cols(decoder, xs) + put_columns(feeds, outs, b) == decoder_cols(
            decoder,
            xs + fed_columns(feeds, b),
        ),
    decreases feeds.len(),
{
    if feeds.len() == 0 {
        assert(xs + fed_columns(feeds, b) =~= xs);
        assert(decoder_cols(decoder, xs) + put_columns(feeds, outs, b) =~= decoder_cols(
            decoder,
            xs,
        ));
    } else {
        let earlier = feeds.drop_last();
        let feed = feeds.last();
        let (state, r) = decoder_streamed(decoder, start, earlier);
        let outs0 = r->Ok_0;
        decoder_streaming(decoder, ratios, start, xs, earlier, b, outs0);
        assert(outs.drop_last() =~= outs0);
        let x = Some(feed.chunk);
        let (next, step) = decoder.stepped(x, state, feed.mask);
        let out = step->Ok_0;
        let known = xs + fed_columns(earlier, b);
        let told = put_columns(earlier, outs0, b);
        decoder_step(decoder, ratios, x, state, b, known, feed.mask, next, out);
        if takes_lane(feed.mask, b) {
            assert(xs + fed_columns(feeds, b) =~= known + timeline(feed.chunk, b));
            assert(decoder_cols(decoder, xs) + (told + columns_of(out, b)) =~= (decoder_cols(
                decoder,
                xs,
            ) + told) + columns_of(out, b));
        }
    }
}

/// No lane of a fresh decoder was fed anything.
pub proof fn fresh_decoder_saw_nothing(decoder: DecoderModel, ratios: Seq<int>, b: int)
    requires
        decodes_by(decoder, ratios),
    ensures
        decoder_saw(decoder, decoder.fresh_state(), b, seq![]),
        decoder_cols(decoder, seq![]).len() == 0,
{
    reveal(decoder_saw);
    reveal(decoder_cols);
    let xs = Seq::<Sample>::empty();
    let st = decoder.fresh_state();
    let n = decoder.layers.len() as int;
    let ys = conv_cols(decoder.init_conv, xs);
    lemma_conv_cols_len(decoder.init_conv, xs);
    lemma_decoder_layers_len(decoder, ratios, ys, n);
    assert(0 * rate(ratios, n) == 0);
    lemma_conv_cols_len(decoder.final_conv, decoder_inner_cols(decoder, xs));
    assert forall|j: int| 0 <= j < st.layers.len() implies decoder_layer_saw(
        decoder.layers[j],
        decoder.activation,
        #[trigger] st.layers[j],
        b,
        decoder_layers_cols(decoder, ys, j),
    ) by {
        let layer = decoder.layers[j];
        assert(multiplies_by(layer, ratios[j]));
        lemma_decoder_layers_len(decoder, ratios, ys, j);
        assert(0 * rate(ratios, j) == 0);
        let zs = decoder_layers_cols(decoder, ys, j);
        assert(0 * ratios[j] == 0);
        lemma_fresh_blocks(layer.residuals, b, upsampled_cols(layer, decoder.activation, zs));
    }
}

/// The decoder fed chunk by chunk, however the latent frames of a lane are cut, however many steps
/// leave the lane out and whatever the other lanes hold, puts out for the lane the samples that it
/// puts out for all frames at once.
pub proof fn decoder_streaming_matches_forward(
    decoder: DecoderModel,
    ratios: Seq<int>,
    feeds: Seq<Feed>,
    outs: Seq<Option<Tensor>>,
    b: int,
    x: Tensor,
    c: int,
    y: Tensor,
)
    requires
        decodes_by(decoder, ratios),
        causal_decoder(decoder),
        decoder_feeds_lane(decoder, seq![], feeds, b),
        decoder_streamed(decoder, decoder.fresh_state(), feeds).1 == Ok::<
            Seq<Option<Tensor>>,
            Error,
        >(outs),
        timed(x, c),
        steps(x) > 0,
        timeline(x, c) == fed_columns(feeds, b),
        decoder.forwarded(Ok(x)) == Ok::<Tensor, Error>(y),
    ensures
        put_columns(feeds, outs, b) == timeline(y, c),
        put_columns(feeds, outs, b).len() == steps(x) * rate(ratios, ratios.len() as int),
{
    let none = Seq::<Sample>::empty();
    fresh_decoder_saw_nothing(decoder, ratios, b);
    decoder_streaming(decoder, ratios, decoder.fresh_state(), none, feeds, b, outs);
    decoder_whole(decoder, ratios, x, c, y);
    assert(none + fed_columns(feeds, b) =~= timeline(x, c));
    assert(decoder_cols(decoder, none) + put_columns(feeds, outs, b) =~= put_columns(
        feeds,
        outs,
        b,
    ));
}

/// A decoder of a causal layout is causal, and may leave out a lane that was fed before where the
/// layout pads with zeros.
pub proof fn causal_layout_of_decoder(
    decoder: DecoderModel,
    cfg: Config,
    b: int,
    xs: Seq<Sample>,
    mask: Option<Seq<bool>>,
)
    requires
        decoder_pads_so(decoder, cfg),
        cfg.causal,
    ensures
        causal_decoder(decoder),
        takes_lane(mask, b) || (cfg.pad_mode is Constant && xs.len() > 0) ==> decoder_may_leave(
            decoder,
            b,
            xs,
            mask,
        ),
{
    assert forall|j: int| 0 <= j < decoder.layers.len() implies causal_blocks(
        (#[trigger] decoder.layers[j]).residuals,
    ) && decoder.layers[j].upsample.causal by {
        assert(decoder_layer_pads_so(decoder.layers[j], cfg));
        lemma_causal_blocks(decoder.layers[j].residuals, cfg.pad_mode, b, mask);
    }
    if takes_lane(mask, b) || (cfg.pad_mode is Constant && xs.len() > 0) {
        assert forall|j: int| 0 <= j < decoder.layers.len() implies decoder_layer_may_leave(
            #[trigger] decoder.layers[j],
            b,
            xs,
            mask,
        ) by {
            assert(decoder_layer_pads_so(decoder.layers[j], cfg));
            lemma_causal_blocks(decoder.layers[j].residuals, cfg.pad_mode, b, mask);
        }
    }
}

/// Whether every feed has lane `b` and takes it in.
pub open spec fn all_take_lane(feeds: Seq<Feed>, b: int) -> bool {
    forall|i: int|
        0 <= i < feeds.len() ==> has_lane(Some((#[trigger] feeds[i]).chunk), b, feeds[i].mask)
            && takes_lane(feeds[i].mask, b)
}

proof fn lemma_taken_feeds(decoder: DecoderModel, cfg: Config, feeds: Seq<Feed>, b: int)
    requires
        decoder_pads_so(decoder, cfg),
        cfg.causal,
        all_take_lane(feeds, b),
    ensures
        decoder_feeds_lane(decoder, seq![], feeds, b),
    decreases feeds.len(),
{
    if feeds.len() > 0 {
        let earlier = feeds.drop_last();
        assert(all_take_lane(earlier, b)) by {
            assert forall|i: int| 0 <= i < earlier.len() implies has_lane(
                Some((#[trigger] earlier[i]).chunk),
                b,
                earlier[i].mask,
            ) && takes_lane(earlier[i].mask, b) by {
                assert(earlier[i] == feeds[i]);
            }
        }
        lemma_taken_feeds(decoder, cfg, earlier, b);
        let feed = feeds[feeds.len() - 1];
        causal_layout_of_decoder(
            decoder,
            cfg,
            b,
            Seq::<Sample>::empty() + fed_columns(earlier, b),
            feed.mask,
        );
    }
}

/// A causal decoder loaded from a checkpoint that keeps to the shapes asked for, fed chunk by chunk
/// from its fresh state with a lane taken in by every step, puts out for the lane the samples that
/// it puts out for all latent frames at once.
pub proof fn loaded_decoder_streams(
    vb: Weights,
    cfg: Config,
    decoder: DecoderModel,
    feeds: Seq<Feed>,
    outs: Seq<Option<Tensor>>,
    b: int,
    x: Tensor,
    c: int,
    y: Tensor,
)
    requires
        vb.checkpoint.format == Format::Safetensors,
        sound_layout(cfg),
        cfg.causal,
        DecoderModel::loaded(vb, cfg) == Ok::<DecoderModel, Error>(decoder),
        all_take_lane(feeds, b),
        decoder_streamed(decoder, decoder.fresh_state(), feeds).1 == Ok::<
            Seq<Option<Tensor>>,
            Error,
        >(outs),
        timed(x, c),
        steps(x) > 0,
        timeline(x, c) == fed_columns(feeds, b),
        decoder.forwarded(Ok(x)) == Ok::<Tensor, Error>(y),
    ensures
        put_columns(feeds, outs, b) == timeline(y, c),
{
    let ratios = decoder_ratios(cfg);
    loaded_decoder_rate(vb, cfg, decoder);
    causal_layout_of_decoder(decoder, cfg, b, seq![], None);
    lemma_taken_feeds(decoder, cfg, feeds, b);
    decoder_streaming_matches_forward(decoder, ratios, feeds, outs, b, x, c, y);
}

} // verus!
