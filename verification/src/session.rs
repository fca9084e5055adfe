//! What comes of audio tokens of several steps.
use crate::asr::{
    indexed, lane_active, lanes_heard, mask_covers, Asr, AsrParts, AudioTokens, ItemModel,
    WordModel,
};
use crate::error::Error;
use crate::tensor::SingleBits;
use crate::transcript::lanes_are_independent;
use vstd::prelude::*;

verus! {

/// What is drawn from what one step computes: the text tokens, and the probabilities of the extra
/// heads.
pub struct Draw {
    pub sampled: Seq<i64>,
    pub prs: Seq<Seq<SingleBits>>,
}

/// What comes of one step.
#[verifier::ext_equal]
pub struct ResultModel {
    pub words: Seq<WordModel>,
    pub prs: Seq<Seq<SingleBits>>,
    pub audio_tokens: Seq<Seq<u32>>,
    pub text_tokens: Seq<u32>,
}

/// The audio tokens of a step, by lane and codebook.
pub open spec fn audio_rows(audio: AudioTokens, step: int) -> Seq<Seq<u32>> {
    Seq::new(
        audio.batch_size as nat,
        |b: int| Seq::new(audio.codebooks as nat, |cb: int| audio.at(b, cb, step)),
    )
}

/// The state after step `step` of the audio tokens, and what comes of it.
pub open spec fn stepped(
    state: AsrParts,
    asr: Asr,
    audio: AudioTokens,
    step: int,
    mask: Option<Seq<bool>>,
    draw: Draw,
) -> Result<(AsrParts, ResultModel), Error> {
    let model = asr.lm@;
    if audio.batch_size != state.batch.len() {
        Err(
            Error::BatchSize { got: audio.batch_size, expected: state.batch.len() as usize },
        )
    } else if !mask_covers(mask, state.batch.len()) {
        Err(
            Error::MaskLanes {
                lanes: mask->0.len() as usize,
                batch: state.batch.len() as usize,
            },
        )
    } else {
        let text = state.text_fed(model);
        let (next, out) = state.forwarded(
            model,
            text,
            state.audio_fed(model, audio, step, mask),
            mask,
        );
        match out {
            Err(e) => Err(e),
            Ok(_) => {
                let (after, words) = next.finished(draw.sampled, mask, asr.asr_delay_in_tokens);
                match words {
                    Err(e) => Err(e),
                    Ok(words) => Ok(
                        (
                            after,
                            ResultModel {
                                words,
                                prs: draw.prs,
                                audio_tokens: audio_rows(audio, step),
                                text_tokens: text,
                            },
                        ),
                    ),
                }
            },
        }
    }
}

/// The state after the first `n` steps of the audio tokens, and what comes of each.
pub open spec fn run(
    state: AsrParts,
    asr: Asr,
    audio: AudioTokens,
    mask: Option<Seq<bool>>,
    draws: Seq<Draw>,
    n: nat,
) -> Result<(AsrParts, Seq<ResultModel>), Error>
    decreases n,
{
    if n == 0 {
        Ok((state, seq![]))
    } else {
        match run(state, asr, audio, mask, draws, (n - 1) as nat) {
            Err(e) => Err(e),
            Ok((before, results)) => match stepped(before, asr, audio, n - 1, mask, draws[n - 1]) {
                Err(e) => Err(e),
                Ok((after, result)) => Ok((after, results.push(result))),
            },
        }
    }
}

/// The state after all steps of the audio tokens, and what comes of each.
pub open spec fn transcribed(
    state: AsrParts,
    asr: Asr,
    audio: AudioTokens,
    mask: Option<Seq<bool>>,
    draws: Seq<Draw>,
) -> Result<(AsrParts, Seq<ResultModel>), Error> {
    if audio.batch_size != state.batch.len() {
        Err(Error::BatchSize { got: audio.batch_size, expected: state.batch.len() as usize })
    } else {
        run(state, asr, audio, mask, draws, audio.steps as nat)
    }
}

/// What one step does to the lanes.
proof fn lemma_stepped(
    state: AsrParts,
    asr: Asr,
    audio: AudioTokens,
    step: int,
    mask: Option<Seq<bool>>,
    draw: Draw,
    after: AsrParts,
    result: ResultModel,
)
    requires
        stepped(state, asr, audio, step, mask, draw) == Ok::<(AsrParts, ResultModel), Error>(
            (after, result),
        ),
    ensures
        after.model_step_idx == state.model_step_idx + 1,
        after.temperature == state.temperature,
        after.condition == state.condition,
        after.batch.len() == state.batch.len(),
        forall|b: int|
            0 <= b < state.batch.len() ==> #[trigger] after.batch[b] == if b < draw.sampled.len()
                && lane_active(mask, b) {
                state.batch[b].heard(draw.sampled[b] as u32, asr.asr_delay_in_tokens).0
            } else {
                state.batch[b]
            },
        forall|b: int|
            0 <= b < state.batch.len() && b < draw.sampled.len() && lane_active(mask, b)
                ==> (#[trigger] state.batch[b]).step_idx < usize::MAX,
{
    let model = asr.lm@;
    let next = state.forwarded(
        model,
        state.text_fed(model),
        state.audio_fed(model, audio, step, mask),
        mask,
    ).0;
    assert(next.batch == state.batch);
    assert forall|b: int| 0 <= b < state.batch.len() implies #[trigger] after.batch[b] == (
    if b < draw.sampled.len() && lane_active(mask, b) {
        state.batch[b].heard(draw.sampled[b] as u32, asr.asr_delay_in_tokens).0
    } else {
        state.batch[b]
    }) by {
        lanes_are_independent(
            state.batch,
            draw.sampled,
            mask,
            asr.asr_delay_in_tokens,
            0,
            seq![],
            b,
        );
    }
    lemma_heard_len(state.batch, draw.sampled, mask, asr.asr_delay_in_tokens, 0, seq![]);
}

proof fn lemma_heard_len(
    batch: Seq<ItemModel>,
    sampled: Seq<i64>,
    mask: Option<Seq<bool>>,
    delay: usize,
    from: int,
    words: Seq<WordModel>,
)
    ensures
        lanes_heard(batch, sampled, mask, delay, from, words).0.len() == batch.len(),
    decreases batch.len() - from,
{
    if 0 <= from < batch.len() && from < sampled.len() {
        if lane_active(mask, from) {
            let (item, out) = batch[from].heard(sampled[from] as u32, delay);
            lemma_heard_len(
                batch.update(from, item),
                sampled,
                mask,
                delay,
                from + 1,
                words + out,
            );
        } else {
            lemma_heard_len(batch, sampled, mask, delay, from + 1, words);
        }
    }
}

/// Audio tokens of several steps give one result for each step, in order: result `s` is what comes
/// of step `s` in the state that the steps before it leave.
pub proof fn one_result_for_each_step(
    state: AsrParts,
    asr: Asr,
    audio: AudioTokens,
    mask: Option<Seq<bool>>,
    draws: Seq<Draw>,
    n: nat,
    after: AsrParts,
    results: Seq<ResultModel>,
    s: int,
)
    requires
        run(state, asr, audio, mask, draws, n) == Ok::<(AsrParts, Seq<ResultModel>), Error>(
            (after, results),
        ),
        0 <= s < n,
    ensures
        results.len() == n,
        ({
            let before = run(state, asr, audio, mask, draws, s as nat);
            &&& before is Ok
            &&& before->Ok_0.1 == results.take(s)
            &&& stepped(before->Ok_0.0, asr, audio, s, mask, draws[s]) matches Ok((_, result))
            &&& result == results[s]
        }),
        results[s].audio_tokens == audio_rows(audio, s),
        results[s].prs == draws[s].prs,
    decreases n,
{
    let (before, earlier) = run(state, asr, audio, mask, draws, (n - 1) as nat)->Ok_0;
    lemma_run_len(state, asr, audio, mask, draws, (n - 1) as nat);
    if s < n - 1 {
        one_result_for_each_step(
            state,
            asr,
            audio,
            mask,
            draws,
            (n - 1) as nat,
            before,
            earlier,
            s,
        );
        assert(results.take(s) =~= earlier.take(s));
    } else {
        assert(results.take(s) =~= earlier);
    }
}

proof fn lemma_run_len(
    state: AsrParts,
    asr: Asr,
    audio: AudioTokens,
    mask: Option<Seq<bool>>,
    draws: Seq<Draw>,
    n: nat,
)
    requires
        run(state, asr, audio, mask, draws, n) is Ok,
    ensures
        run(state, asr, audio, mask, draws, n)->Ok_0.1.len() == n,
    decreases n,
{
    if n > 0 {
        lemma_run_len(state, asr, audio, mask, draws, (n - 1) as nat);
    }
}

/// As many steps as there are count in the model and in the lanes that are active; the others stay
/// as they are. Temperatures and conditions stay.
pub proof fn run_counts_its_steps(
    state: AsrParts,
    asr: Asr,
    audio: AudioTokens,
    mask: Option<Seq<bool>>,
    draws: Seq<Draw>,
    n: nat,
    after: AsrParts,
    results: Seq<ResultModel>,
)
    requires
        run(state, asr, audio, mask, draws, n) == Ok::<(AsrParts, Seq<ResultModel>), Error>(
            (after, results),
        ),
        forall|i: int| 0 <= i < n ==> (#[trigger] draws[i]).sampled.len() == state.batch.len(),
    ensures
        results.len() == n,
        after.model_step_idx == state.model_step_idx + n,
        after.temperature == state.temperature,
        after.condition == state.condition,
        after.batch.len() == state.batch.len(),
        forall|b: int|
            0 <= b < state.batch.len() && lane_active(mask, b) ==> (
            #[trigger] after.batch[b]).step_idx == state.batch[b].step_idx + n,
        forall|b: int|
            0 <= b < state.batch.len() && !lane_active(mask, b) ==> #[trigger] after.batch[b]
                == state.batch[b],
    decreases n,
{
    if n > 0 {
        let m = (n - 1) as nat;
        let (before, earlier) = run(state, asr, audio, mask, draws, m)->Ok_0;
        run_counts_its_steps(state, asr, audio, mask, draws, m, before, earlier);
        let draw = draws[n - 1];
        assert(draw.sampled.len() == state.batch.len());
        lemma_stepped(before, asr, audio, n - 1, mask, draw, after, results.last());
        assert forall|b: int| 0 <= b < state.batch.len() && lane_active(mask, b) implies (
        #[trigger] after.batch[b]).step_idx == state.batch[b].step_idx + n by {
            assert(before.batch[b].step_idx == state.batch[b].step_idx + m);
        }
        assert forall|b: int| 0 <= b < state.batch.len() && !lane_active(mask, b) implies
            #[trigger] after.batch[b] == state.batch[b] by {
            assert(before.batch[b] == state.batch[b]);
        }
    }
}

/// Audio tokens of `audio.steps` steps give as many results and count as many steps.
pub proof fn whole_audio_is_transcribed(
    state: AsrParts,
    asr: Asr,
    audio: AudioTokens,
    mask: Option<Seq<bool>>,
    draws: Seq<Draw>,
    after: AsrParts,
    results: Seq<ResultModel>,
)
    requires
        transcribed(state, asr, audio, mask, draws) == Ok::<(AsrParts, Seq<ResultModel>), Error>(
            (after, results),
        ),
        forall|i: int|
            0 <= i < audio.steps ==> (#[trigger] draws[i]).sampled.len() == state.batch.len(),
    ensures
        results.len() == audio.steps,
        after.model_step_idx == state.model_step_idx + audio.steps,
        forall|s: int|
            0 <= s < audio.steps ==> (#[trigger] results[s]).audio_tokens == audio_rows(audio, s)
                && results[s].prs == draws[s].prs,
{
    let n = audio.steps as nat;
    run_counts_its_steps(state, asr, audio, mask, draws, n, after, results);
    assert forall|s: int| 0 <= s < audio.steps implies (#[trigger] results[s]).audio_tokens
        == audio_rows(audio, s) && results[s].prs == draws[s].prs by {
        one_result_for_each_step(state, asr, audio, mask, draws, n, after, results, s);
    }
}

/// Whether every report is about a lane that is active.
pub open spec fn about_active_lanes(
    words: Seq<WordModel>,
    mask: Option<Seq<bool>>,
    lanes: int,
) -> bool {
    forall|k: int|
        0 <= k < words.len() ==> (#[trigger] words[k]).lane() < lanes && lane_active(
            mask,
            words[k].lane() as int,
        )
}

proof fn lemma_heard_by_active_lanes(
    batch: Seq<ItemModel>,
    sampled: Seq<i64>,
    mask: Option<Seq<bool>>,
    delay: usize,
    from: int,
    words: Seq<WordModel>,
)
    requires
        0 <= from,
        indexed(batch),
        about_active_lanes(words, mask, batch.len() as int),
    ensures
        indexed(lanes_heard(batch, sampled, mask, delay, from, words).0),
        about_active_lanes(
            lanes_heard(batch, sampled, mask, delay, from, words).1,
            mask,
            batch.len() as int,
        ),
    decreases batch.len() - from,
{
    if from < batch.len() && from < sampled.len() {
        if lane_active(mask, from) {
            let (item, out) = batch[from].heard(sampled[from] as u32, delay);
            let next = batch.update(from, item);
            assert(indexed(next)) by {
                assert(batch[from].batch_idx == from);
                assert forall|b: int| 0 <= b < next.len() implies (#[trigger] next[b]).batch_idx
                    == b by {
                    if b != from {
                        assert(next[b] == batch[b]);
                    }
                }
            }
            assert forall|k: int| 0 <= k < (words + out).len() implies (#[trigger] (words
                + out)[k]).lane() < batch.len() && lane_active(
                mask,
                (words + out)[k].lane() as int,
            ) by {
                if k < words.len() {
                    assert((words + out)[k] == words[k]);
                } else {
                    assert((words + out)[k] == out[k - words.len()]);
                    assert(out[k - words.len()].lane() == from);
                }
            }
            lemma_heard_by_active_lanes(next, sampled, mask, delay, from + 1, words + out);
        } else {
            lemma_heard_by_active_lanes(batch, sampled, mask, delay, from + 1, words);
        }
    }
}

/// A lane that a step leaves out appears in none of the words of the step.
pub proof fn words_are_of_active_lanes(
    state: AsrParts,
    asr: Asr,
    audio: AudioTokens,
    step: int,
    mask: Option<Seq<bool>>,
    draw: Draw,
    after: AsrParts,
    result: ResultModel,
)
    requires
        indexed(state.batch),
        stepped(state, asr, audio, step, mask, draw) == Ok::<(AsrParts, ResultModel), Error>(
            (after, result),
        ),
    ensures
        indexed(after.batch),
        about_active_lanes(result.words, mask, state.batch.len() as int),
{
    let model = asr.lm@;
    let next = state.forwarded(
        model,
        state.text_fed(model),
        state.audio_fed(model, audio, step, mask),
        mask,
    ).0;
    assert(next.batch == state.batch);
    lemma_heard_by_active_lanes(
        state.batch,
        draw.sampled,
        mask,
        asr.asr_delay_in_tokens,
        0,
        seq![],
    );
}

} // verus!
