//! What the reports of a lane say over many steps.
use crate::asr::{is_special, lane_active, lanes_heard, ItemModel, WordModel, TOKEN_EOP, TOKEN_EOS};
use vstd::prelude::*;

verus! {

/// The lane and all its reports after it heard `tokens`.
pub open spec fn transcribed(item: ItemModel, tokens: Seq<u32>, delay: usize) -> (
    ItemModel,
    Seq<WordModel>,
)
    decreases tokens.len(),
{
    if tokens.len() == 0 {
        (item, seq![])
    } else {
        let (before, words) = transcribed(item, tokens.drop_last(), delay);
        let (after, out) = before.heard(tokens.last(), delay);
        (after, words + out)
    }
}

/// Whether the lane can count as many steps.
pub open spec fn can_hear(item: ItemModel, tokens: Seq<u32>) -> bool {
    item.step_idx + tokens.len() <= usize::MAX
}

/// A lane counts its tokens and stays the lane that it is.
pub proof fn transcript_counts(item: ItemModel, tokens: Seq<u32>, delay: usize)
    requires
        can_hear(item, tokens),
    ensures
        ({
            let after = transcribed(item, tokens, delay).0;
            &&& after.step_idx == item.step_idx + tokens.len()
            &&& after.batch_idx == item.batch_idx
            &&& after.boosted == item.boosted
            &&& after.use_audio_pad_on_step_idx == item.use_audio_pad_on_step_idx
        }),
    decreases tokens.len(),
{
    if tokens.len() > 0 {
        transcript_counts(item, tokens.drop_last(), delay);
    }
}

/// The tokens that carry text among those that come once the delay has passed, for a lane that has
/// made `start` steps.
pub open spec fn text_tokens(start: int, tokens: Seq<u32>, delay: usize) -> Seq<u32>
    decreases tokens.len(),
{
    if tokens.len() == 0 {
        seq![]
    } else {
        let before = text_tokens(start, tokens.drop_last(), delay);
        if start + tokens.len() >= delay && !is_special(tokens.last()) {
            before.push(tokens.last())
        } else {
            before
        }
    }
}

/// The tokens of the words among the reports.
pub open spec fn spelled_tokens(words: Seq<WordModel>) -> Seq<u32>
    decreases words.len(),
{
    if words.len() == 0 {
        seq![]
    } else {
        let before = spelled_tokens(words.drop_last());
        match words.last() {
            WordModel::Word { tokens, .. } => before + tokens,
            _ => before,
        }
    }
}

proof fn lemma_spelled_add(a: Seq<WordModel>, b: Seq<WordModel>)
    ensures
        spelled_tokens(a + b) == spelled_tokens(a) + spelled_tokens(b),
    decreases b.len(),
{
    if b.len() == 0 {
        assert(a + b =~= a);
        assert(spelled_tokens(a) + Seq::<u32>::empty() =~= spelled_tokens(a));
    } else {
        lemma_spelled_add(a, b.drop_last());
        assert((a + b).drop_last() =~= a + b.drop_last());
        assert((a + b).last() == b.last());
        match b.last() {
            WordModel::Word { tokens, .. } => {
                assert(spelled_tokens(a) + (spelled_tokens(b.drop_last()) + tokens) =~= (
                spelled_tokens(a) + spelled_tokens(b.drop_last())) + tokens);
            },
            _ => {},
        }
    }
}

/// What one token adds to the tokens of a lane and of its reports.
proof fn lemma_heard_keeps_tokens(item: ItemModel, token: u32, delay: usize)
    requires
        item.step_idx < usize::MAX,
    ensures
        ({
            let (after, out) = item.heard(token, delay);
            spelled_tokens(out) + after.word_tokens == if item.step_idx + 1 >= delay && !is_special(
                token,
            ) {
                item.word_tokens.push(token)
            } else {
                item.word_tokens
            }
        }),
{
    let none = Seq::<WordModel>::empty();
    let now = item.counted(token);
    let (after, out) = item.heard(token, delay);
    if now.step_idx < delay {
        assert(spelled_tokens(none) + after.word_tokens =~= item.word_tokens);
    } else {
        let (spelled, first) = now.spelled();
        let (timed, second) = spelled.timed((now.step_idx - delay) as usize);
        let third = timed.closing();
        lemma_spelled_add(first + second, third);
        lemma_spelled_add(first, second);
        reveal_with_fuel(spelled_tokens, 2);
        assert(spelled_tokens(third) =~= seq![]);
        assert(spelled_tokens(second) =~= seq![]);
        if is_special(token) {
            assert(spelled_tokens(first) =~= now.word_tokens);
        } else {
            assert(spelled_tokens(first) =~= seq![]);
        }
        assert(spelled_tokens(out) + after.word_tokens =~= if !is_special(token) {
            item.word_tokens.push(token)
        } else {
            item.word_tokens
        });
    }
}

/// No text is lost and none is made up: the tokens of the words reported, followed by those of the
/// word in hand, are the tokens that carry text and came once the delay had passed.
pub proof fn transcript_keeps_tokens(item: ItemModel, tokens: Seq<u32>, delay: usize)
    requires
        can_hear(item, tokens),
    ensures
        ({
            let (after, words) = transcribed(item, tokens, delay);
            spelled_tokens(words) + after.word_tokens == item.word_tokens + text_tokens(
                item.step_idx as int,
                tokens,
                delay,
            )
        }),
    decreases tokens.len(),
{
    if tokens.len() == 0 {
        assert(spelled_tokens(seq![]) + item.word_tokens =~= item.word_tokens + Seq::<
            u32,
        >::empty());
    } else {
        let rest = tokens.drop_last();
        transcript_keeps_tokens(item, rest, delay);
        transcript_counts(item, rest, delay);
        let (before, words) = transcribed(item, rest, delay);
        let (after, out) = before.heard(tokens.last(), delay);
        lemma_heard_keeps_tokens(before, tokens.last(), delay);
        lemma_spelled_add(words, out);
        let t = text_tokens(item.step_idx as int, rest, delay);
        assert(spelled_tokens(words) + spelled_tokens(out) + after.word_tokens =~= spelled_tokens(
            words,
        ) + (spelled_tokens(out) + after.word_tokens));
        assert(spelled_tokens(words) + before.word_tokens.push(tokens.last()) =~= (spelled_tokens(
            words,
        ) + before.word_tokens).push(tokens.last()));
        assert((item.word_tokens + t).push(tokens.last()) =~= item.word_tokens + t.push(
            tokens.last(),
        ));
    }
}

/// Whether a word is open after the reports, where one was or was not before them; absent where an
/// end was reported of a word that was not open.
pub open spec fn open_after(open: bool, words: Seq<WordModel>) -> Option<bool>
    decreases words.len(),
{
    if words.len() == 0 {
        Some(open)
    } else {
        match open_after(open, words.drop_last()) {
            None => None,
            Some(open) => match words.last() {
                WordModel::Word { .. } => Some(true),
                WordModel::EndWord { .. } => if open {
                    Some(false)
                } else {
                    None
                },
                WordModel::EndOfStream { .. } => Some(open),
            },
        }
    }
}

proof fn lemma_open_add(open: bool, a: Seq<WordModel>, b: Seq<WordModel>)
    ensures
        open_after(open, a + b) == match open_after(open, a) {
            None => None,
            Some(o) => open_after(o, b),
        },
    decreases b.len(),
{
    if b.len() == 0 {
        assert(a + b =~= a);
    } else {
        lemma_open_add(open, a, b.drop_last());
        assert((a + b).drop_last() =~= a + b.drop_last());
        assert((a + b).last() == b.last());
    }
}

proof fn lemma_heard_ends(item: ItemModel, token: u32, delay: usize)
    ensures
        ({
            let (after, out) = item.heard(token, delay);
            open_after(item.unended_word, out) == Some(after.unended_word)
        }),
{
    let now = item.counted(token);
    if now.step_idx >= delay {
        let (spelled, first) = now.spelled();
        let (timed, second) = spelled.timed((now.step_idx - delay) as usize);
        let third = timed.closing();
        reveal_with_fuel(open_after, 3);
        lemma_open_add(item.unended_word, first + second, third);
        lemma_open_add(item.unended_word, first, second);
        assert(Seq::<WordModel>::empty().len() == 0);
        assert(open_after(item.unended_word, first) == Some(spelled.unended_word)) by {
            if first.len() > 0 {
                assert(first.drop_last() =~= seq![]);
            }
        }
        assert(open_after(spelled.unended_word, second) == Some(timed.unended_word)) by {
            if second.len() > 0 {
                assert(second.drop_last() =~= seq![]);
            }
        }
        assert(open_after(timed.unended_word, third) == Some(timed.unended_word)) by {
            if third.len() > 0 {
                assert(third.drop_last() =~= seq![]);
            }
        }
    }
}

/// The end of a word is reported only after the word, and once.
pub proof fn transcript_ends_words(item: ItemModel, tokens: Seq<u32>, delay: usize)
    ensures
        ({
            let (after, words) = transcribed(item, tokens, delay);
            open_after(item.unended_word, words) == Some(after.unended_word)
        }),
    decreases tokens.len(),
{
    if tokens.len() > 0 {
        transcript_ends_words(item, tokens.drop_last(), delay);
        let (before, words) = transcribed(item, tokens.drop_last(), delay);
        let (after, out) = before.heard(tokens.last(), delay);
        lemma_heard_ends(before, tokens.last(), delay);
        lemma_open_add(item.unended_word, words, out);
    }
}

/// The time that a report gives; the end of the stream has none.
pub open spec fn time_of(w: WordModel) -> Option<usize> {
    match w {
        WordModel::Word { start_time, .. } => Some(start_time),
        WordModel::EndWord { stop_time, .. } => Some(stop_time),
        WordModel::EndOfStream { .. } => None,
    }
}

/// Whether `a` gives no later time than `b`, where both give one.
pub open spec fn not_after(a: WordModel, b: WordModel) -> bool {
    time_of(a) is Some && time_of(b) is Some ==> time_of(a)->0 <= time_of(b)->0
}

/// Whether the time of a report lies between `low` and `high`, where it gives one.
pub open spec fn within(w: WordModel, low: usize, high: usize) -> bool {
    time_of(w) matches Some(t) ==> low <= t <= high
}

/// Whether the times of the reports do not go back.
pub open spec fn in_order(words: Seq<WordModel>) -> bool {
    forall|i: int, j: int| 0 <= i <= j < words.len() ==> #[trigger] not_after(words[i], words[j])
}

/// Whether the times of the reports lie between `low` and `high`.
pub open spec fn all_within(words: Seq<WordModel>, low: usize, high: usize) -> bool {
    forall|i: int| 0 <= i < words.len() ==> #[trigger] within(words[i], low, high)
}

/// The times that one token reports.
proof fn lemma_heard_time(item: ItemModel, token: u32, delay: usize)
    requires
        item.step_idx < usize::MAX,
        item.last_stop_time == 0 || item.last_stop_time <= item.step_idx - delay,
    ensures
        ({
            let (after, out) = item.heard(token, delay);
            &&& item.last_stop_time <= after.last_stop_time
            &&& after.last_stop_time == 0 || after.last_stop_time <= after.step_idx - delay
            &&& all_within(out, item.last_stop_time, after.last_stop_time)
            &&& in_order(out)
        }),
{
}

/// The times of a lane do not go back: a report gives no time before that of an earlier one.
pub proof fn transcript_in_order(item: ItemModel, tokens: Seq<u32>, delay: usize)
    requires
        can_hear(item, tokens),
        item.last_stop_time == 0 || item.last_stop_time <= item.step_idx - delay,
    ensures
        ({
            let (after, words) = transcribed(item, tokens, delay);
            &&& in_order(words)
            &&& all_within(words, item.last_stop_time, after.last_stop_time)
            &&& item.last_stop_time <= after.last_stop_time
            &&& after.last_stop_time == 0 || after.last_stop_time <= after.step_idx - delay
        }),
    decreases tokens.len(),
{
    if tokens.len() > 0 {
        let rest = tokens.drop_last();
        transcript_in_order(item, rest, delay);
        transcript_counts(item, rest, delay);
        let (before, words) = transcribed(item, rest, delay);
        let (after, out) = before.heard(tokens.last(), delay);
        lemma_heard_time(before, tokens.last(), delay);
        let all = words + out;
        assert forall|i: int| 0 <= i < all.len() implies #[trigger] within(
            all[i],
            item.last_stop_time,
            after.last_stop_time,
        ) by {
            if i < words.len() {
                assert(within(words[i], item.last_stop_time, before.last_stop_time));
            } else {
                assert(within(
                    out[i - words.len()],
                    before.last_stop_time,
                    after.last_stop_time,
                ));
            }
        }
        assert forall|i: int, j: int| 0 <= i <= j < all.len() implies #[trigger] not_after(
            all[i],
            all[j],
        ) by {
            if j < words.len() {
                assert(not_after(words[i], words[j]));
            } else if i >= words.len() {
                assert(not_after(out[i - words.len()], out[j - words.len()]));
            } else {
                assert(within(words[i], item.last_stop_time, before.last_stop_time));
                assert(within(
                    out[j - words.len()],
                    before.last_stop_time,
                    after.last_stop_time,
                ));
            }
        }
    }
}

/// Whether `a` and `b`, where both end a word, do so at times in that order.
pub open spec fn ends_before(a: WordModel, b: WordModel) -> bool {
    match (a, b) {
        (
            WordModel::EndWord { stop_time: s, .. },
            WordModel::EndWord { stop_time: t, .. },
        ) => s < t,
        _ => true,
    }
}

/// Whether each report that ends a word gives a later time than all those before it.
pub open spec fn ends_increase(words: Seq<WordModel>) -> bool {
    forall|i: int, j: int| 0 <= i < j < words.len() ==> #[trigger] ends_before(words[i], words[j])
}

/// Whether the words that the reports end all end by `time`.
pub open spec fn ended_by(words: Seq<WordModel>, time: int) -> bool {
    forall|i: int|
        0 <= i < words.len() ==> ((#[trigger] words[i]) matches WordModel::EndWord {
            stop_time,
            ..
        } ==> stop_time <= time)
}

/// The times at which the words of a lane end strictly increase.
pub proof fn transcript_ends_increase(item: ItemModel, tokens: Seq<u32>, delay: usize)
    requires
        can_hear(item, tokens),
    ensures
        ({
            let (after, words) = transcribed(item, tokens, delay);
            ends_increase(words) && ended_by(words, after.step_idx - delay)
        }),
    decreases tokens.len(),
{
    if tokens.len() > 0 {
        let rest = tokens.drop_last();
        transcript_ends_increase(item, rest, delay);
        transcript_counts(item, rest, delay);
        let (before, words) = transcribed(item, rest, delay);
        let (after, out) = before.heard(tokens.last(), delay);
        let all = words + out;
        let now = (after.step_idx - delay) as usize;
        lemma_heard_ends_now(before, tokens.last(), delay);
        assert forall|i: int| 0 <= i < all.len() implies ((#[trigger] all[i])
            matches WordModel::EndWord { stop_time, .. } ==> stop_time <= after.step_idx - delay) by {
            if i < words.len() {
                assert(all[i] == words[i]);
            } else {
                assert(all[i] == out[i - words.len()]);
            }
        }
        assert forall|i: int, j: int| 0 <= i < j < all.len() implies #[trigger] ends_before(
            all[i],
            all[j],
        ) by {
            if j < words.len() {
                assert(ends_before(words[i], words[j]));
            } else if i >= words.len() {
                assert(ends_before(out[i - words.len()], out[j - words.len()]));
            } else {
                assert(all[i] == words[i]);
                assert(all[j] == out[j - words.len()]);
            }
        }
    }
}

/// One token ends at most one word, and does so now.
proof fn lemma_heard_ends_now(item: ItemModel, token: u32, delay: usize)
    requires
        item.step_idx < usize::MAX,
    ensures
        ({
            let (after, out) = item.heard(token, delay);
            &&& ends_increase(out)
            &&& forall|i: int|
                0 <= i < out.len() ==> ((#[trigger] out[i]) matches WordModel::EndWord {
                    stop_time,
                    ..
                } ==> stop_time == after.step_idx - delay)
            &&& forall|i: int|
                0 <= i < out.len() ==> ((#[trigger] out[i]) matches WordModel::Word {
                    start_time,
                    ..
                } ==> start_time == item.last_stop_time)
        }),
{
}

/// The time of the last of `tokens` that ends a word or the stream once the delay has passed, for a
/// lane that has made `start` steps; `before` where there is none.
pub open spec fn last_end(start: int, tokens: Seq<u32>, delay: usize, before: usize) -> usize
    decreases tokens.len(),
{
    if tokens.len() == 0 {
        before
    } else if start + tokens.len() >= delay && (tokens.last() == TOKEN_EOP || tokens.last()
        == TOKEN_EOS) {
        (start + tokens.len() - delay) as usize
    } else {
        last_end(start, tokens.drop_last(), delay, before)
    }
}

/// A lane knows when the last token came that ends a word or the stream.
pub proof fn transcript_keeps_the_last_end(item: ItemModel, tokens: Seq<u32>, delay: usize)
    requires
        can_hear(item, tokens),
    ensures
        transcribed(item, tokens, delay).0.last_stop_time == last_end(
            item.step_idx as int,
            tokens,
            delay,
            item.last_stop_time,
        ),
    decreases tokens.len(),
{
    if tokens.len() > 0 {
        transcript_keeps_the_last_end(item, tokens.drop_last(), delay);
        transcript_counts(item, tokens.drop_last(), delay);
    }
}

/// Whether the report `w` comes with token `i` and gives the times that it should: a word starts
/// when the last token before `i` came that ends one, and a word ends with the token.
pub open spec fn comes_with(
    item: ItemModel,
    tokens: Seq<u32>,
    delay: usize,
    w: WordModel,
    i: int,
) -> bool {
    match w {
        WordModel::Word { start_time, .. } => start_time == last_end(
            item.step_idx as int,
            tokens.take(i),
            delay,
            item.last_stop_time,
        ),
        WordModel::EndWord { stop_time, .. } => stop_time == item.step_idx + i + 1 - delay,
        WordModel::EndOfStream { .. } => tokens[i] == TOKEN_EOS,
    }
}

/// Whether the report `w` comes with one of the tokens.
pub open spec fn comes_in_time(
    item: ItemModel,
    tokens: Seq<u32>,
    delay: usize,
    w: WordModel,
) -> bool {
    exists|i: int| 0 <= i < tokens.len() && #[trigger] comes_with(item, tokens, delay, w, i)
}

/// Every word that a lane reports starts when the last token before came that ends a word, and every
/// end is that of the token with which it is reported.
pub proof fn transcript_times_words(item: ItemModel, tokens: Seq<u32>, delay: usize)
    requires
        can_hear(item, tokens),
    ensures
        ({
            let words = transcribed(item, tokens, delay).1;
            forall|k: int|
                0 <= k < words.len() ==> comes_in_time(item, tokens, delay, #[trigger] words[k])
        }),
    decreases tokens.len(),
{
    if tokens.len() > 0 {
        let rest = tokens.drop_last();
        let n = rest.len() as int;
        transcript_times_words(item, rest, delay);
        transcript_counts(item, rest, delay);
        transcript_keeps_the_last_end(item, rest, delay);
        let (before, words) = transcribed(item, rest, delay);
        let (after, out) = before.heard(tokens.last(), delay);
        lemma_heard_ends_now(before, tokens.last(), delay);
        let all = words + out;
        assert forall|k: int| 0 <= k < all.len() implies comes_in_time(
            item,
            tokens,
            delay,
            #[trigger] all[k],
        ) by {
            if k < words.len() {
                assert(all[k] == words[k]);
                assert(comes_in_time(item, rest, delay, words[k]));
                let i = choose|i: int|
                    0 <= i < rest.len() && comes_with(item, rest, delay, words[k], i);
                assert(rest.take(i) =~= tokens.take(i));
                assert(comes_with(item, tokens, delay, all[k], i));
            } else {
                assert(all[k] == out[k - words.len()]);
                assert(tokens.take(n) =~= rest);
                assert(comes_with(item, tokens, delay, all[k], n));
            }
        }
    }
}

/// Nothing is reported before the delay has passed, and no token is kept.
pub proof fn transcript_waits(item: ItemModel, tokens: Seq<u32>, delay: usize)
    requires
        item.step_idx + tokens.len() < delay,
    ensures
        ({
            let (after, words) = transcribed(item, tokens, delay);
            &&& words.len() == 0
            &&& after.word_tokens == item.word_tokens
            &&& after.unended_word == item.unended_word
            &&& after.last_stop_time == item.last_stop_time
        }),
    decreases tokens.len(),
{
    if tokens.len() > 0 {
        transcript_waits(item, tokens.drop_last(), delay);
        transcript_counts(item, tokens.drop_last(), delay);
    }
}

/// The number of tokens that end the stream among those that come once the delay has passed.
pub open spec fn ends_heard(start: int, tokens: Seq<u32>, delay: usize) -> int
    decreases tokens.len(),
{
    if tokens.len() == 0 {
        0
    } else {
        ends_heard(start, tokens.drop_last(), delay) + if start + tokens.len() >= delay
            && tokens.last() == TOKEN_EOS {
            1int
        } else {
            0
        }
    }
}

/// The number of reports that the stream ended.
pub open spec fn ends_reported(words: Seq<WordModel>) -> int
    decreases words.len(),
{
    if words.len() == 0 {
        0
    } else {
        ends_reported(words.drop_last()) + if words.last() is EndOfStream {
            1int
        } else {
            0
        }
    }
}

proof fn lemma_ends_add(a: Seq<WordModel>, b: Seq<WordModel>)
    ensures
        ends_reported(a + b) == ends_reported(a) + ends_reported(b),
    decreases b.len(),
{
    if b.len() == 0 {
        assert(a + b =~= a);
    } else {
        lemma_ends_add(a, b.drop_last());
        assert((a + b).drop_last() =~= a + b.drop_last());
        assert((a + b).last() == b.last());
    }
}

/// The end of the stream is reported each time that a token says so once the delay has passed, and
/// at no other time.
pub proof fn transcript_reports_ends(item: ItemModel, tokens: Seq<u32>, delay: usize)
    requires
        can_hear(item, tokens),
    ensures
        ends_reported(transcribed(item, tokens, delay).1) == ends_heard(
            item.step_idx as int,
            tokens,
            delay,
        ),
    decreases tokens.len(),
{
    if tokens.len() > 0 {
        let rest = tokens.drop_last();
        transcript_reports_ends(item, rest, delay);
        transcript_counts(item, rest, delay);
        let (before, words) = transcribed(item, rest, delay);
        let token = tokens.last();
        let (after, out) = before.heard(token, delay);
        lemma_ends_add(words, out);
        let now = before.counted(token);
        if now.step_idx >= delay {
            let (spelled, first) = now.spelled();
            let (timed, second) = spelled.timed((now.step_idx - delay) as usize);
            let third = timed.closing();
            lemma_ends_add(first + second, third);
            lemma_ends_add(first, second);
            reveal_with_fuel(ends_reported, 2);
            assert(ends_reported(first) == 0) by {
                if first.len() > 0 {
                    assert(first.drop_last() =~= seq![]);
                }
            }
            assert(ends_reported(second) == 0) by {
                if second.len() > 0 {
                    assert(second.drop_last() =~= seq![]);
                }
            }
            assert(ends_reported(third) == if token == TOKEN_EOS {
                1int
            } else {
                0
            }) by {
                if third.len() > 0 {
                    assert(third.drop_last() =~= seq![]);
                }
            }
        }
    }
}

/// Every report of a lane bears its index.
pub proof fn transcript_names_the_lane(item: ItemModel, tokens: Seq<u32>, delay: usize)
    requires
        can_hear(item, tokens),
    ensures
        forall|i: int|
            0 <= i < transcribed(item, tokens, delay).1.len() ==> (#[trigger] transcribed(
                item,
                tokens,
                delay,
            ).1[i]).lane() == item.batch_idx,
    decreases tokens.len(),
{
    if tokens.len() > 0 {
        let rest = tokens.drop_last();
        transcript_names_the_lane(item, rest, delay);
        transcript_counts(item, rest, delay);
        let (before, words) = transcribed(item, rest, delay);
        let (after, out) = before.heard(tokens.last(), delay);
        assert forall|i: int| 0 <= i < (words + out).len() implies (#[trigger] (words
            + out)[i]).lane() == item.batch_idx by {
            if i < words.len() {
                assert((words + out)[i] == words[i]);
            } else {
                assert((words + out)[i] == out[i - words.len()]);
            }
        }
    }
}

/// In a step, a lane that is active hears its token as if it were alone, and any other lane stays
/// as it is.
pub proof fn lanes_are_independent(
    batch: Seq<ItemModel>,
    sampled: Seq<i64>,
    mask: Option<Seq<bool>>,
    delay: usize,
    from: int,
    words: Seq<WordModel>,
    b: int,
)
    requires
        0 <= from,
        0 <= b < batch.len(),
    ensures
        lanes_heard(batch, sampled, mask, delay, from, words).0.len() == batch.len(),
        lanes_heard(batch, sampled, mask, delay, from, words).0[b] == if from <= b < sampled.len()
            && lane_active(mask, b) {
            batch[b].heard(sampled[b] as u32, delay).0
        } else {
            batch[b]
        },
    decreases batch.len() - from,
{
    if from < batch.len() && from < sampled.len() {
        if lane_active(mask, from) {
            let (item, out) = batch[from].heard(sampled[from] as u32, delay);
            lanes_are_independent(
                batch.update(from, item),
                sampled,
                mask,
                delay,
                from + 1,
                words + out,
                b,
            );
        } else {
            lanes_are_independent(batch, sampled, mask, delay, from + 1, words, b);
        }
    }
}

} // verus!
