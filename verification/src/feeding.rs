//! What the recognizer feeds to its language model, and what its configurations describe.
use crate::asr::{
    bias_of, lane_active, language_conditions, lanes_hearing, lanes_sampled, AsrParts, AudioTokens,
    ItemModel, WordModel,
};
use crate::lm::LmParts;
use crate::moshi;
use crate::s2s;
use crate::seanet::Activation;
use crate::tensor::SingleBits;
use crate::transcript::lanes_are_independent;
use crate::transformer::PositionalEmbedding;
use crate::value::{lemma_ravel3, ravel};
use crate::NormType;
use vstd::prelude::*;

verus! {

/// The text token that a lane hears in a step is the one that it feeds to the next step; a lane that
/// the step leaves out feeds what it fed before.
pub proof fn lanes_feed_the_token_that_they_heard(
    state: AsrParts,
    model: LmParts,
    sampled: Seq<i64>,
    mask: Option<Seq<bool>>,
    delay: usize,
    next: AsrParts,
    b: int,
)
    requires
        state.finished(sampled, mask, delay).0 == next,
        state.finished(sampled, mask, delay).1 is Ok,
        0 <= b < state.batch.len(),
        b < sampled.len(),
    ensures
        next.batch.len() == state.batch.len(),
        next.text_fed(model)[b] == if lane_active(mask, b) {
            sampled[b] as u32
        } else {
            state.text_fed(model)[b]
        },
        lane_active(mask, b) ==> next.batch[b].step_idx == state.batch[b].step_idx + 1,
        !lane_active(mask, b) ==> next.batch[b] == state.batch[b],
{
    lanes_are_independent(state.batch, sampled, mask, delay, 0, seq![], b);
    if lane_active(mask, b) {
        let n = lanes_sampled(state.batch.len(), sampled.len());
        assert(b < n);
        assert(state.batch[b].step_idx < usize::MAX);
    }
}

/// A lane that was just made or reset feeds the token that starts a text, and no audio.
pub proof fn fresh_lanes_feed_the_start(
    state: AsrParts,
    model: LmParts,
    audio: AudioTokens,
    step: int,
    mask: Option<Seq<bool>>,
    token: u32,
    boosted: bool,
    b: int,
    cb: int,
)
    requires
        0 <= b < state.batch.len(),
        0 <= cb < audio.codebooks,
        state.batch[b] == ItemModel::fresh(state.batch[b].batch_idx, token, boosted),
        model.text_in_vocab_size as u32 > 0,
        model.audio_vocab_size as u32 > 0,
        lane_active(mask, b),
    ensures
        state.text_fed(model)[b] + 1 == model.text_in_vocab_size as u32,
        state.audio_fed(model, audio, step, mask)[cb][b] + 1 == model.audio_vocab_size as u32,
{
}

/// Audio tokens stand in row-major order by lane, codebook and step. From its second step on an
/// active lane is fed its own, unless its audio was said to end at the step; a lane that is not
/// active is fed zeros.
pub proof fn active_lanes_are_fed_their_audio(
    state: AsrParts,
    model: LmParts,
    audio: AudioTokens,
    step: int,
    mask: Option<Seq<bool>>,
    b: int,
    cb: int,
)
    requires
        audio.wf(),
        state.batch.len() == audio.batch_size,
        0 <= b < audio.batch_size,
        0 <= cb < audio.codebooks,
        0 <= step < audio.steps,
    ensures
        ({
            let fed = state.audio_fed(model, audio, step, mask);
            let place = ravel(
                seq![audio.batch_size, audio.codebooks, audio.steps],
                seq![b, cb, step],
            );
            &&& fed.len() == audio.codebooks
            &&& fed[cb].len() == audio.batch_size
            &&& !lane_active(mask, b) ==> fed[cb][b] == 0
            &&& lane_active(mask, b) && state.batch[b].step_idx > 0
                && state.batch[b].use_audio_pad_on_step_idx != Some(state.batch[b].step_idx)
                ==> fed[cb][b] == audio.tokens@[place] as u32
        }),
{
    lemma_ravel3(audio.batch_size, audio.codebooks, audio.steps, b, cb, step);
    let (c, n) = (audio.codebooks as int, audio.steps as int);
    assert((b * c + cb) * n + step == b * c * n + cb * n + step) by (nonlinear_arith);
}

/// A lane whose audio was said to end is fed no audio in the next step that it hears, and that step
/// alone.
pub proof fn an_end_lasts_one_step(item: ItemModel, token: u32, delay: usize)
    requires
        item.use_audio_pad_on_step_idx == Some(item.step_idx),
        item.step_idx < usize::MAX,
    ensures
        item.fed_pad(),
        !item.heard(token, delay).0.fed_pad(),
{
}

/// The bias of a token is that of its last entry in the list, and zero where it has none.
pub proof fn the_last_bias_counts(biases: Seq<(u32, SingleBits)>, token: int, k: int)
    requires
        0 <= k < biases.len() ==> biases[k].0 == token && forall|j: int|
            k < j < biases.len() ==> (#[trigger] biases[j]).0 != token,
        k < 0 || k >= biases.len() ==> forall|j: int|
            0 <= j < biases.len() ==> (#[trigger] biases[j]).0 != token,
    ensures
        bias_of(biases, token) == if 0 <= k < biases.len() {
            biases[k].1
        } else {
            0
        },
    decreases biases.len(),
{
    if biases.len() > 0 {
        let init = biases.drop_last();
        let last = biases.len() - 1;
        assert(biases.last() == biases[last]);
        if k == last {
        } else {
            assert(biases[last].0 != token);
            assert forall|j: int| 0 <= j < init.len() implies #[trigger] init[j] == biases[j] by {}
            the_last_bias_counts(
                init,
                token,
                if k > last {
                    -1
                } else {
                    k
                },
            );
        }
    }
}

/// The biases of a step stand lane after lane, one for each token: those of the list of the lane
/// where the lane is boosted and past the delay, and zeros elsewhere.
pub proof fn biases_stand_lane_after_lane(
    state: AsrParts,
    lists: Seq<Seq<(u32, SingleBits)>>,
    delay: usize,
    vocab: nat,
    n: nat,
    b: int,
    token: int,
)
    requires
        0 <= b < n <= state.batch.len(),
        0 <= token < vocab,
    ensures
        state.bias_rows(lists, delay, vocab, n).len() == n * vocab,
        state.bias_rows(lists, delay, vocab, n)[b * vocab + token] == if state.batch[b].boosted
            && state.batch[b].step_idx >= delay && b < lists.len() {
            bias_of(lists[b], token)
        } else {
            0
        },
    decreases n,
{
    lemma_bias_count(state, lists, delay, vocab, n);
    let before = state.bias_rows(lists, delay, vocab, (n - 1) as nat);
    lemma_bias_count(state, lists, delay, vocab, (n - 1) as nat);
    if b < n - 1 {
        assert(b * vocab + vocab <= (n - 1) * vocab) by (nonlinear_arith)
            requires
                b + 1 <= n - 1,
                0 <= vocab,
        ;
        assert(0 <= b * vocab) by (nonlinear_arith)
            requires
                0 <= b,
                0 <= vocab,
        ;
        biases_stand_lane_after_lane(state, lists, delay, vocab, (n - 1) as nat, b, token);
    } else {
        assert(b == n - 1);
        assert(bias_of(seq![], token) == 0);
    }
}

proof fn lemma_bias_count(
    state: AsrParts,
    lists: Seq<Seq<(u32, SingleBits)>>,
    delay: usize,
    vocab: nat,
    n: nat,
)
    ensures
        state.bias_rows(lists, delay, vocab, n).len() == n * vocab,
    decreases n,
{
    if n > 0 {
        lemma_bias_count(state, lists, delay, vocab, (n - 1) as nat);
        assert((n - 1) * vocab + vocab == n * vocab) by (nonlinear_arith);
    } else {
        assert(0 * vocab == 0);
    }
}

/// Of the lanes, those hear their token through a listener that are active, boosted and past the
/// delay; they are told in order.
pub proof fn boosted_lanes_hear_in_order(
    batch: Seq<ItemModel>,
    mask: Option<Seq<bool>>,
    delay: usize,
    n: nat,
    b: int,
)
    requires
        n <= usize::MAX,
        n <= batch.len(),
        0 <= b < n,
    ensures
        lanes_hearing(batch, mask, delay, n).contains(b as usize) <==> lane_active(mask, b)
            && batch[b].boosted && batch[b].step_idx >= delay,
        forall|i: int, j: int|
            0 <= i < j < lanes_hearing(batch, mask, delay, n).len() ==> lanes_hearing(
                batch,
                mask,
                delay,
                n,
            )[i] < lanes_hearing(batch, mask, delay, n)[j],
    decreases n,
{
    lemma_hearing_below(batch, mask, delay, n);
    let before = lanes_hearing(batch, mask, delay, (n - 1) as nat);
    let all = lanes_hearing(batch, mask, delay, n);
    lemma_hearing_below(batch, mask, delay, (n - 1) as nat);
    if b < n - 1 {
        boosted_lanes_hear_in_order(batch, mask, delay, (n - 1) as nat, b);
    } else if n > 1 {
        boosted_lanes_hear_in_order(batch, mask, delay, (n - 1) as nat, 0);
    }
    if all.len() > before.len() {
        assert(all == before.push((n - 1) as usize));
        assert(all[before.len() as int] == (n - 1) as usize);
        if before.contains(b as usize) {
            let i = choose|i: int| 0 <= i < before.len() && before[i] == b as usize;
            assert(all[i] == b as usize);
        }
    }
}

proof fn lemma_hearing_below(batch: Seq<ItemModel>, mask: Option<Seq<bool>>, delay: usize, n: nat)
    requires
        n <= usize::MAX,
    ensures
        forall|i: int|
            0 <= i < lanes_hearing(batch, mask, delay, n).len() ==> #[trigger] lanes_hearing(
                batch,
                mask,
                delay,
                n,
            )[i] < n,
    decreases n,
{
    if n > 0 {
        lemma_hearing_below(batch, mask, delay, (n - 1) as nat);
        let before = lanes_hearing(batch, mask, delay, (n - 1) as nat);
        let all = lanes_hearing(batch, mask, delay, n);
        assert forall|i: int| 0 <= i < all.len() implies #[trigger] all[i] < n by {
            if i < before.len() {
                assert(all[i] == before[i]);
            }
        }
    }
}

/// A configuration describes a language model of its width, heads, layers and context, whose
/// transformer is rotary, gated and without biases; it reads one text and one audio token more than it
/// has, the ones that start a text and stand for no audio.
pub proof fn configurations_describe_their_models(cfg: moshi::Config, dim_feedforward: usize)
    requires
        cfg.card < usize::MAX,
        cfg.text_card < usize::MAX,
    ensures
        ({
            let m = cfg.lm_config(dim_feedforward);
            let t = m.transformer;
            &&& m.text_in_vocab_size == m.text_out_vocab_size + 1
            &&& m.text_out_vocab_size == cfg.text_card
            &&& m.audio_vocab_size == cfg.card + 1
            &&& m.audio_codebooks == cfg.n_q
            &&& t.d_model == cfg.dim && t.num_heads == cfg.num_heads
            &&& t.num_layers == cfg.num_layers && t.context == cfg.context
            &&& t.max_period == cfg.max_period && t.dim_feedforward == dim_feedforward
            &&& t.causal == cfg.causal && t.norm_first && t.kv_repeat == 1
            &&& !t.bias_ff && !t.bias_attn && t.layer_scale is None
            &&& t.positional_embedding == PositionalEmbedding::Rope
            &&& t.gating == Some(Activation::Silu) && t.norm == NormType::RmsNormF32
            &&& !t.use_conv_block && !t.conv_layout
            &&& match cfg.extra_heads_num_heads {
                None => m.extra_heads is None,
                Some(n) => if n == 0 {
                    m.extra_heads is None
                } else {
                    &&& m.extra_heads matches Some(h)
                    &&& h.num_heads == n
                    &&& cfg.extra_heads_dim matches Some(d) ==> h.dim == d
                    &&& cfg.extra_heads_dim is None ==> h.dim == 0
                    &&& h.hidden_dim == cfg.extra_heads_hidden_dim
                    &&& cfg.extra_heads_mixer_affine matches Some(a) ==> h.mixer_affine == a
                    &&& cfg.extra_heads_mixer_affine is None ==> h.mixer_affine
                    &&& cfg.extra_heads_residual_blocks matches Some(r) ==> h.residual_blocks == r
                    &&& cfg.extra_heads_residual_blocks is None ==> h.residual_blocks == 0
                    &&& (h.from_layer is None) == (cfg.extra_heads_from_layer is None)
                    &&& cfg.extra_heads_from_layer matches Some(moshi::LayerIndices::Single(l))
                        ==> h.from_layer == Some(seq![l])
                    &&& cfg.extra_heads_from_layer matches Some(
                        moshi::LayerIndices::Multiple(ls),
                    ) ==> h.from_layer == Some(ls@)
                },
            }
        }),
{
}

/// Every slice of a speech model has a transformer without positions, gated and without biases, that
/// holds as many steps as there are codebooks.
pub proof fn slices_hold_one_step_for_each_codebook(cfg: s2s::Config)
    requires
        cfg.n_q() <= usize::MAX,
    ensures
        ({
            let t = cfg.slice_config();
            &&& t.context == cfg.depformer.weights_per_step_schedule@.len()
            &&& t.d_model == cfg.depformer.dim && t.num_heads == cfg.depformer.num_heads
            &&& t.num_layers == cfg.depformer.num_layers
            &&& t.dim_feedforward == cfg.depformer.dim_feedforward
            &&& t.causal && t.norm_first && t.kv_repeat == 1
            &&& !t.bias_ff && !t.bias_attn && t.layer_scale is None
            &&& t.positional_embedding == PositionalEmbedding::NoEmbedding
            &&& t.gating == Some(Activation::Silu) && t.norm == NormType::RmsNorm
            &&& !t.use_conv_block && !t.conv_layout
        }),
{
}

/// Flushing a lane reports the tokens of the word in hand, from the time at which the word before
/// ended, and leaves none; the lane then waits for the end of the word. Without tokens nothing is
/// reported and nothing changes.
pub proof fn flushing_reports_the_word_in_hand(item: ItemModel)
    ensures
        item.word_tokens.len() == 0 ==> item.pending_word() is None && item.flushed() == item,
        item.word_tokens.len() > 0 ==> {
            &&& item.pending_word() == Some(
                WordModel::Word {
                    tokens: item.word_tokens,
                    start_time: item.last_stop_time,
                    batch_idx: item.batch_idx,
                },
            )
            &&& item.flushed().unended_word
        },
        item.flushed().word_tokens.len() == 0,
        item.flushed().pending_word() is None,
        item.flushed().step_idx == item.step_idx,
        item.flushed().text_token == item.text_token,
        item.flushed().last_stop_time == item.last_stop_time,
        item.flushed().batch_idx == item.batch_idx,
        item.flushed().boosted == item.boosted,
        item.flushed().flushed() == item.flushed(),
{
}

/// The conditions on languages are one pair for each name: a language of the audio gives its own and
/// that of its segments, and one of the text the target.
pub proof fn languages_give_conditions(lang: Option<Seq<char>>, target: Option<Seq<char>>)
    ensures
        ({
            let all = language_conditions(lang, target);
            &&& all.len() == (if lang is Some {
                2int
            } else {
                0int
            }) + (if target is Some {
                1int
            } else {
                0int
            })
            &&& lang matches Some(l) ==> all[0] == ("lang"@, l) && all[1] == (
                "languages_in_segment"@,
                l,
            )
            &&& target matches Some(t) ==> all[all.len() - 1] == ("target_language"@, t)
        }),
{
}

/// There are last frames exactly when the model has codebooks and the tokens of every lane reach back
/// to one moment; then each frame is that of its lane.
pub proof fn frames_come_from_all_lanes(state: s2s::StateParts, delays: Seq<usize>, b: int)
    requires
        0 <= b < state.per_batch.len(),
    ensures
        state.last_frames(delays) is Some <==> delays.len() > 0 && forall|i: int, cb: int|
            #![trigger state.per_batch[i], delays[cb]]
            0 <= i < state.per_batch.len() && 0 <= cb < delays.len() ==> state.per_batch[i].index
                + delays[cb] > s2s::max_delay(delays),
        state.last_frames(delays) matches Some(frames) ==> frames.len() == state.per_batch.len()
            && frames[b] == state.per_batch[b].last_frame(delays),
{
    if state.last_frames(delays) is Some {
        assert forall|i: int, cb: int|
            #![trigger state.per_batch[i], delays[cb]]
            0 <= i < state.per_batch.len() && 0 <= cb < delays.len() implies state.per_batch[i].index
            + delays[cb] > s2s::max_delay(delays) by {
            assert(state.per_batch[i].covers(delays));
        }
    }
    if delays.len() > 0 && forall|i: int, cb: int|
        #![trigger state.per_batch[i], delays[cb]]
        0 <= i < state.per_batch.len() && 0 <= cb < delays.len() ==> state.per_batch[i].index
            + delays[cb] > s2s::max_delay(delays) {
        assert forall|i: int| 0 <= i < state.per_batch.len() implies (
        #[trigger] state.per_batch[i]).covers(delays) by {}
    }
}

} // verus!
