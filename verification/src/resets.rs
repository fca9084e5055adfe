//! What resetting a lane of the encoder or the decoder does to the lanes.
use crate::conv::{Conv1dState, StreamableConv1d};
use crate::decoding::{
    decoder_inner_cols, decoder_layer_saw, decoder_layers_cols, decoder_saw,
    lemma_decoder_layers_len, upsampled_cols,
};
use crate::overlap::tr_reset_clears_one_lane;
use crate::rates::{
    all_keep_rate, decodes_by, divides_by, encodes_by, keeps_rate, multiplies_by, rate, steps_by,
};
use crate::seanet::{
    convs_lane_reset, decoder_layers_lane_reset, encoder_layers_lane_reset, residuals_lane_reset,
    BlockModel, BlockStateModel, DecoderLayerModel, DecoderLayerStateModel, DecoderModel,
    DecoderStateModel, EncoderLayerModel, EncoderLayerStateModel, EncoderModel, EncoderStateModel,
};
use crate::stepwise::{
    all_blocks_saw, block_saw, blocks_cols, chain_cols, conv_cols, conv_fed, encoder_inner_cols,
    encoder_layer_saw, encoder_layers_cols, encoder_saw, lemma_blocks_len, lemma_chain_len,
    lemma_conv_cols_len, lemma_no_encoder_layers_cols, lemma_whole_at_stage, mapped_cols,
};
use crate::timeline::{lead, lemma_whole_steps, repeated, reset_clears_one_lane, Sample};
use vstd::prelude::*;

verus! {

/// What lane `b`, which was fed the columns `xs`, counts as fed once lane `batch_idx` was reset.
pub open spec fn fed_after(xs: Seq<Sample>, b: int, batch_idx: usize) -> Seq<Sample> {
    if b == batch_idx {
        seq![]
    } else {
        xs
    }
}

/// A convolution whose lane was reset at the end of a step counts as not fed in that lane, where it
/// pads with zeros. The other lanes stay as they are.
pub proof fn conv_reset(
    conv: StreamableConv1d,
    stride: int,
    state: Conv1dState,
    batch_idx: usize,
    b: int,
    xs: Seq<Sample>,
    next: Conv1dState,
)
    requires
        steps_by(conv, stride),
        conv_fed(conv, state, b, xs),
        b == batch_idx ==> conv.pad_mode is Constant && (xs.len() as int) % stride == 0,
        state.lane_reset(batch_idx).0 == next,
        state.lane_reset(batch_idx).1 is Ok,
    ensures
        conv_fed(conv, next, b, fed_after(xs, b, batch_idx)),
{
    let total = conv.span() - stride;
    if state != StreamableConv1d::fresh_state() {
        let seen = lead(conv.pad_mode, xs, total) + xs;
        reset_clears_one_lane(conv, state, batch_idx, b, seen, next);
        if b == batch_idx {
            let none = Seq::<Sample>::empty();
            assert(lead(conv.pad_mode, none, total) + none =~= repeated(Sample::zero(), total));
        }
    }
}

proof fn lemma_convs_reset(states: Seq<Conv1dState>, batch_idx: usize, i: int, next: Seq<Conv1dState>)
    requires
        0 <= i <= states.len(),
        convs_lane_reset(states, batch_idx, i).0 == next,
        convs_lane_reset(states, batch_idx, i).1 is Ok,
    ensures
        next.len() == states.len(),
        forall|j: int| 0 <= j < i ==> #[trigger] next[j] == states[j],
        forall|j: int|
            i <= j < states.len() ==> states[j].lane_reset(batch_idx).0 == #[trigger] next[j]
                && states[j].lane_reset(batch_idx).1 is Ok,
    decreases states.len() - i,
{
    if i < states.len() {
        let (s, _) = states[i].lane_reset(batch_idx);
        let updated = states.update(i, s);
        lemma_convs_reset(updated, batch_idx, i + 1, next);
        assert forall|j: int| 0 <= j < i implies #[trigger] next[j] == states[j] by {
            assert(next[j] == updated[j]);
        }
        assert forall|j: int| i <= j < states.len() implies states[j].lane_reset(batch_idx).0
            == #[trigger] next[j] && states[j].lane_reset(batch_idx).1 is Ok by {
            if j == i {
                assert(next[j] == updated[j]);
            } else {
                assert(updated[j] == states[j]);
            }
        }
    }
}

/// A residual block that pads with zeros.
pub open spec fn block_pads_zeros(block: BlockModel) -> bool {
    &&& forall|j: int|
        0 <= j < block.block.len() ==> (#[trigger] block.block[j]).pad_mode is Constant
    &&& block.shortcut matches Some(c) ==> c.pad_mode is Constant
}

/// A residual block whose lane was reset counts as not fed in that lane.
pub proof fn block_reset(
    block: BlockModel,
    state: BlockStateModel,
    batch_idx: usize,
    b: int,
    xs: Seq<Sample>,
    next: BlockStateModel,
)
    requires
        keeps_rate(block),
        block_saw(block, state, b, xs),
        b == batch_idx ==> block_pads_zeros(block),
        state.lane_reset(batch_idx).0 == next,
        state.lane_reset(batch_idx).1 is Ok,
    ensures
        block_saw(block, next, b, fed_after(xs, b, batch_idx)),
{
    let after = fed_after(xs, b, batch_idx);
    lemma_convs_reset(state.block_convs, batch_idx, 0, next.block_convs);
    assert forall|j: int| 0 <= j < next.block_convs.len() implies conv_fed(
        block.block[j],
        #[trigger] next.block_convs[j],
        b,
        mapped_cols(block.activation, chain_cols(block, after, j)),
    ) by {
        let fed = mapped_cols(block.activation, chain_cols(block, xs, j));
        assert(steps_by(block.block[j], 1));
        assert(conv_fed(block.block[j], state.block_convs[j], b, fed));
        assert((fed.len() as int) % 1 == 0);
        conv_reset(
            block.block[j],
            1,
            state.block_convs[j],
            batch_idx,
            b,
            fed,
            next.block_convs[j],
        );
        if b == batch_idx {
            lemma_chain_len(block, after, j);
            assert(mapped_cols(block.activation, chain_cols(block, after, j)) =~= fed_after(
                fed,
                b,
                batch_idx,
            ));
        }
    }
    if let Some(c) = block.shortcut {
        assert((xs.len() as int) % 1 == 0);
        conv_reset(c, 1, state.shortcut->0, batch_idx, b, xs, next.shortcut->0);
    }
}

proof fn lemma_residuals_reset(
    states: Seq<BlockStateModel>,
    batch_idx: usize,
    i: int,
    next: Seq<BlockStateModel>,
)
    requires
        0 <= i <= states.len(),
        residuals_lane_reset(states, batch_idx, i).0 == next,
        residuals_lane_reset(states, batch_idx, i).1 is Ok,
    ensures
        next.len() == states.len(),
        forall|j: int| 0 <= j < i ==> #[trigger] next[j] == states[j],
        forall|j: int|
            i <= j < states.len() ==> states[j].lane_reset(batch_idx).0 == #[trigger] next[j]
                && states[j].lane_reset(batch_idx).1 is Ok,
    decreases states.len() - i,
{
    if i < states.len() {
        let (s, _) = states[i].lane_reset(batch_idx);
        let updated = states.update(i, s);
        lemma_residuals_reset(updated, batch_idx, i + 1, next);
        assert forall|j: int| 0 <= j < i implies #[trigger] next[j] == states[j] by {
            assert(next[j] == updated[j]);
        }
        assert forall|j: int| i <= j < states.len() implies states[j].lane_reset(batch_idx).0
            == #[trigger] next[j] && states[j].lane_reset(batch_idx).1 is Ok by {
            if j == i {
                assert(next[j] == updated[j]);
            } else {
                assert(updated[j] == states[j]);
            }
        }
    }
}

/// Residual blocks that pad with zeros.
pub open spec fn blocks_pad_zeros(blocks: Seq<BlockModel>) -> bool {
    forall|j: int| 0 <= j < blocks.len() ==> block_pads_zeros(#[trigger] blocks[j])
}

/// Residual blocks whose lane was reset count as not fed in that lane.
pub proof fn blocks_reset(
    blocks: Seq<BlockModel>,
    states: Seq<BlockStateModel>,
    batch_idx: usize,
    b: int,
    xs: Seq<Sample>,
    next: Seq<BlockStateModel>,
)
    requires
        all_keep_rate(blocks),
        all_blocks_saw(blocks, states, b, xs),
        b == batch_idx ==> blocks_pad_zeros(blocks),
        residuals_lane_reset(states, batch_idx, 0).0 == next,
        residuals_lane_reset(states, batch_idx, 0).1 is Ok,
    ensures
        all_blocks_saw(blocks, next, b, fed_after(xs, b, batch_idx)),
{
    let after = fed_after(xs, b, batch_idx);
    lemma_residuals_reset(states, batch_idx, 0, next);
    assert forall|j: int| 0 <= j < next.len() implies block_saw(
        blocks[j],
        #[trigger] next[j],
        b,
        blocks_cols(blocks, after, j),
    ) by {
        let fed = blocks_cols(blocks, xs, j);
        assert(keeps_rate(blocks[j]));
        assert(block_saw(blocks[j], states[j], b, fed));
        if b == batch_idx {
            assert(block_pads_zeros(blocks[j]));
        }
        block_reset(blocks[j], states[j], batch_idx, b, fed, next[j]);
        if b == batch_idx {
            lemma_blocks_len(blocks, after, j);
            assert(blocks_cols(blocks, after, j) =~= fed_after(fed, b, batch_idx));
        }
    }
}

proof fn lemma_encoder_layer_reset(
    layer: EncoderLayerModel,
    encoder: EncoderModel,
    ratio: int,
    state: EncoderLayerStateModel,
    batch_idx: usize,
    b: int,
    xs: Seq<Sample>,
    next: EncoderLayerStateModel,
)
    requires
        divides_by(layer, ratio),
        encoder_layer_saw(layer, encoder.activation, state, b, xs),
        b == batch_idx ==> blocks_pad_zeros(layer.residuals) && layer.downsample.pad_mode
            is Constant && (xs.len() as int) % ratio == 0,
        state.lane_reset(batch_idx).0 == next,
        state.lane_reset(batch_idx).1 is Ok,
    ensures
        encoder_layer_saw(layer, encoder.activation, next, b, fed_after(xs, b, batch_idx)),
{
    let n = layer.residuals.len() as int;
    let after = fed_after(xs, b, batch_idx);
    blocks_reset(layer.residuals, state.residuals, batch_idx, b, xs, next.residuals);
    lemma_blocks_len(layer.residuals, xs, n);
    let fed = mapped_cols(encoder.activation, blocks_cols(layer.residuals, xs, n));
    conv_reset(
        layer.downsample,
        ratio,
        state.downsample,
        batch_idx,
        b,
        fed,
        next.downsample,
    );
    if b == batch_idx {
        lemma_blocks_len(layer.residuals, after, n);
        assert(mapped_cols(encoder.activation, blocks_cols(layer.residuals, after, n))
            =~= fed_after(fed, b, batch_idx));
    }
}

proof fn lemma_encoder_layers_reset(
    states: Seq<EncoderLayerStateModel>,
    batch_idx: usize,
    i: int,
    next: Seq<EncoderLayerStateModel>,
)
    requires
        0 <= i <= states.len(),
        encoder_layers_lane_reset(states, batch_idx, i).0 == next,
        encoder_layers_lane_reset(states, batch_idx, i).1 is Ok,
    ensures
        next.len() == states.len(),
        forall|j: int| 0 <= j < i ==> #[trigger] next[j] == states[j],
        forall|j: int|
            i <= j < states.len() ==> states[j].lane_reset(batch_idx).0 == #[trigger] next[j]
                && states[j].lane_reset(batch_idx).1 is Ok,
    decreases states.len() - i,
{
    if i < states.len() {
        let (s, _) = states[i].lane_reset(batch_idx);
        let updated = states.update(i, s);
        lemma_encoder_layers_reset(updated, batch_idx, i + 1, next);
        assert forall|j: int| 0 <= j < i implies #[trigger] next[j] == states[j] by {
            assert(next[j] == updated[j]);
        }
        assert forall|j: int| i <= j < states.len() implies states[j].lane_reset(batch_idx).0
            == #[trigger] next[j] && states[j].lane_reset(batch_idx).1 is Ok by {
            if j == i {
                assert(next[j] == updated[j]);
            } else {
                assert(updated[j] == states[j]);
            }
        }
    }
}

proof fn lemma_encoder_layers_len(
    encoder: EncoderModel,
    ratios: Seq<int>,
    xs: Seq<Sample>,
    i: int,
)
    requires
        encodes_by(encoder, ratios),
        0 <= i <= encoder.layers.len(),
        (xs.len() as int) % rate(ratios, ratios.len() as int) == 0,
    ensures
        encoder_layers_cols(encoder, xs, i).len() * rate(ratios, i) == xs.len(),
        i < ratios.len() ==> (encoder_layers_cols(encoder, xs, i).len() as int) % ratios[i] == 0,
    decreases i,
{
    if i > 0 {
        lemma_encoder_layers_len(encoder, ratios, xs, i - 1);
        let layer = encoder.layers[i - 1];
        let ratio = ratios[i - 1];
        assert(divides_by(layer, ratio));
        let ys = encoder_layers_cols(encoder, xs, i - 1);
        let len = ys.len() as int;
        lemma_whole_at_stage(ratios, i - 1, xs.len() as int, len);
        lemma_blocks_len(layer.residuals, ys, layer.residuals.len() as int);
        lemma_whole_steps(len, layer.downsample.span(), ratio);
    }
    if i < ratios.len() {
        lemma_whole_at_stage(
            ratios,
            i,
            xs.len() as int,
            encoder_layers_cols(encoder, xs, i).len() as int,
        );
    }
}

/// An encoder that pads with zeros.
pub open spec fn encoder_pads_zeros(encoder: EncoderModel) -> bool {
    &&& encoder.init_conv.pad_mode is Constant
    &&& encoder.final_conv.pad_mode is Constant
    &&& forall|j: int|
        0 <= j < encoder.layers.len() ==> blocks_pad_zeros(
            (#[trigger] encoder.layers[j]).residuals,
        ) && encoder.layers[j].downsample.pad_mode is Constant
}

/// An encoder whose lane was reset at the end of a frame is, in that lane, as a fresh one, where it
/// pads with zeros. The other lanes stay as they are.
pub proof fn encoder_reset(
    encoder: EncoderModel,
    ratios: Seq<int>,
    state: EncoderStateModel,
    batch_idx: usize,
    b: int,
    xs: Seq<Sample>,
    next: EncoderStateModel,
)
    requires
        encodes_by(encoder, ratios),
        encoder_saw(encoder, state, b, xs),
        b == batch_idx ==> encoder_pads_zeros(encoder) && (xs.len() as int) % rate(
            ratios,
            ratios.len() as int,
        ) == 0,
        state.lane_reset(batch_idx).0 == next,
        state.lane_reset(batch_idx).1 is Ok,
    ensures
        encoder_saw(encoder, next, b, fed_after(xs, b, batch_idx)),
{
    reveal(encoder_saw);
    let n = encoder.layers.len() as int;
    let after = fed_after(xs, b, batch_idx);
    let was = conv_cols(encoder.init_conv, xs);
    let is = conv_cols(encoder.init_conv, after);
    lemma_conv_cols_len(encoder.init_conv, xs);
    lemma_conv_cols_len(encoder.init_conv, after);
    assert((xs.len() as int) % 1 == 0);
    conv_reset(encoder.init_conv, 1, state.init_conv, batch_idx, b, xs, next.init_conv);
    let inner = encoder_inner_cols(encoder, xs);
    assert((inner.len() as int) % 1 == 0);
    conv_reset(encoder.final_conv, 1, state.final_conv, batch_idx, b, inner, next.final_conv);
    if b == batch_idx {
        lemma_no_encoder_layers_cols(encoder, ratios, is, n);
        assert(encoder_inner_cols(encoder, after) =~= seq![]);
    }
    lemma_encoder_layers_reset(state.layers, batch_idx, 0, next.layers);
    assert forall|j: int| 0 <= j < next.layers.len() implies encoder_layer_saw(
        encoder.layers[j],
        encoder.activation,
        #[trigger] next.layers[j],
        b,
        encoder_layers_cols(encoder, is, j),
    ) by {
        let fed = encoder_layers_cols(encoder, was, j);
        let layer = encoder.layers[j];
        assert(divides_by(layer, ratios[j]));
        assert(encoder_layer_saw(layer, encoder.activation, state.layers[j], b, fed));
        if b == batch_idx {
            lemma_encoder_layers_len(encoder, ratios, was, j);
            assert(blocks_pad_zeros(encoder.layers[j].residuals));
        }
        lemma_encoder_layer_reset(
            layer,
            encoder,
            ratios[j],
            state.layers[j],
            batch_idx,
            b,
            fed,
            next.layers[j],
        );
        if b == batch_idx {
            lemma_no_encoder_layers_cols(encoder, ratios, is, j);
            assert(encoder_layers_cols(encoder, is, j) =~= fed_after(fed, b, batch_idx));
        }
    }
}

proof fn lemma_decoder_layer_reset(
    layer: DecoderLayerModel,
    decoder: DecoderModel,
    ratio: int,
    state: DecoderLayerStateModel,
    batch_idx: usize,
    b: int,
    xs: Seq<Sample>,
    next: DecoderLayerStateModel,
)
    requires
        multiplies_by(layer, ratio),
        decoder_layer_saw(layer, decoder.activation, state, b, xs),
        b == batch_idx ==> blocks_pad_zeros(layer.residuals) && layer.upsample.convtr.bias is None,
        state.lane_reset(batch_idx).0 == next,
        state.lane_reset(batch_idx).1 is Ok,
    ensures
        decoder_layer_saw(layer, decoder.activation, next, b, fed_after(xs, b, batch_idx)),
{
    let after = fed_after(xs, b, batch_idx);
    let fed = mapped_cols(decoder.activation, xs);
    tr_reset_clears_one_lane(layer.upsample, state.upsample, batch_idx, b, fed, next.upsample);
    let up = upsampled_cols(layer, decoder.activation, xs);
    blocks_reset(layer.residuals, state.residuals, batch_idx, b, up, next.residuals);
    if b == batch_idx {
        assert(mapped_cols(decoder.activation, after) =~= seq![]);
        assert(0 * ratio == 0);
        assert(upsampled_cols(layer, decoder.activation, after) =~= seq![]);
    }
}

proof fn lemma_decoder_layers_reset(
    states: Seq<DecoderLayerStateModel>,
    batch_idx: usize,
    i: int,
    next: Seq<DecoderLayerStateModel>,
)
    requires
        0 <= i <= states.len(),
        decoder_layers_lane_reset(states, batch_idx, i).0 == next,
        decoder_layers_lane_reset(states, batch_idx, i).1 is Ok,
    ensures
        next.len() == states.len(),
        forall|j: int| 0 <= j < i ==> #[trigger] next[j] == states[j],
        forall|j: int|
            i <= j < states.len() ==> states[j].lane_reset(batch_idx).0 == #[trigger] next[j]
                && states[j].lane_reset(batch_idx).1 is Ok,
    decreases states.len() - i,
{
    if i < states.len() {
        let (s, _) = states[i].lane_reset(batch_idx);
        let updated = states.update(i, s);
        lemma_decoder_layers_reset(updated, batch_idx, i + 1, next);
        assert forall|j: int| 0 <= j < i implies #[trigger] next[j] == states[j] by {
            assert(next[j] == updated[j]);
        }
        assert forall|j: int| i <= j < states.len() implies states[j].lane_reset(batch_idx).0
            == #[trigger] next[j] && states[j].lane_reset(batch_idx).1 is Ok by {
            if j == i {
                assert(next[j] == updated[j]);
            } else {
                assert(updated[j] == states[j]);
            }
        }
    }
}

/// A decoder that pads with zeros and has no bias in its transposed convolutions.
pub open spec fn decoder_pads_zeros(decoder: DecoderModel) -> bool {
    &&& decoder.init_conv.pad_mode is Constant
    &&& decoder.final_conv.pad_mode is Constant
    &&& forall|j: int|
        0 <= j < decoder.layers.len() ==> blocks_pad_zeros(
            (#[trigger] decoder.layers[j]).residuals,
        ) && decoder.layers[j].upsample.convtr.bias is None
}

/// A decoder whose lane was reset is, in that lane, as a fresh one, where it pads with zeros and has
/// no bias in its transposed convolutions. The other lanes stay as they are.
pub proof fn decoder_reset(
    decoder: DecoderModel,
    ratios: Seq<int>,
    state: DecoderStateModel,
    batch_idx: usize,
    b: int,
    xs: Seq<Sample>,
    next: DecoderStateModel,
)
    requires
        decodes_by(decoder, ratios),
        decoder_saw(decoder, state, b, xs),
        b == batch_idx ==> decoder_pads_zeros(decoder),
        state.lane_reset(batch_idx).0 == next,
        state.lane_reset(batch_idx).1 is Ok,
    ensures
        decoder_saw(decoder, next, b, fed_after(xs, b, batch_idx)),
{
    reveal(decoder_saw);
    let n = decoder.layers.len() as int;
    let after = fed_after(xs, b, batch_idx);
    let was = conv_cols(decoder.init_conv, xs);
    let is = conv_cols(decoder.init_conv, after);
    lemma_conv_cols_len(decoder.init_conv, after);
    assert((xs.len() as int) % 1 == 0);
    conv_reset(decoder.init_conv, 1, state.init_conv, batch_idx, b, xs, next.init_conv);
    let inner = decoder_inner_cols(decoder, xs);
    assert((inner.len() as int) % 1 == 0);
    conv_reset(decoder.final_conv, 1, state.final_conv, batch_idx, b, inner, next.final_conv);
    if b == batch_idx {
        lemma_decoder_layers_len(decoder, ratios, is, n);
        assert(0 * rate(ratios, n) == 0);
        assert(decoder_inner_cols(decoder, after) =~= seq![]);
    }
    lemma_decoder_layers_reset(state.layers, batch_idx, 0, next.layers);
    assert forall|j: int| 0 <= j < next.layers.len() implies decoder_layer_saw(
        decoder.layers[j],
        decoder.activation,
        #[trigger] next.layers[j],
        b,
        decoder_layers_cols(decoder, is, j),
    ) by {
        let fed = decoder_layers_cols(decoder, was, j);
        let layer = decoder.layers[j];
        assert(multiplies_by(layer, ratios[j]));
        assert(decoder_layer_saw(layer, decoder.activation, state.layers[j], b, fed));
        if b == batch_idx {
            assert(blocks_pad_zeros(decoder.layers[j].residuals));
        }
        lemma_decoder_layer_reset(
            layer,
            decoder,
            ratios[j],
            state.layers[j],
            batch_idx,
            b,
            fed,
            next.layers[j],
        );
        if b == batch_idx {
            lemma_decoder_layers_len(decoder, ratios, is, j);
            assert(0 * rate(ratios, j) == 0);
            assert(decoder_layers_cols(decoder, is, j) =~= fed_after(fed, b, batch_idx));
        }
    }
}

} // verus!
