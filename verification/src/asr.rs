//! Streaming speech recognition: words from audio tokens.
use crate::checkpoint::Weights;
use crate::error::{viewed, Error};
use crate::lm;
use crate::lm::{token_seqs, LmModel, LmParts, LmState};
use crate::moshi;
use crate::ops::{binary_of, dims3_of, expand_of, reshape_of, slice_set_of, softmax_of};
use crate::path::same_text;
use crate::sampling::{gumbel_max, gumbel_max_of};
use crate::shape::{word, Shape};
use crate::streaming::{flags, is_active, lanes};
use crate::tensor::{clone_option, node, BinaryOp, Op, SingleBits, Tensor, TensorResult};
use crate::transformer::StateModel;
use std::sync::Arc;
use vstd::prelude::*;
use vstd::string::*;
use xn::streaming::StreamMask;

verus! {

/// Ends a word.
pub const TOKEN_EOP: u32 = 0u32;

/// Ends the stream.
pub const TOKEN_EOS: u32 = 2u32;

/// Stands for no text.
pub const TOKEN_PAD: u32 = 3u32;

/// Stands for silence.
pub const TOKEN_SILENCE_PAD: u32 = 4u32;

/// What a step reports. Times are in frames, of which there are 12.5 in a second, counted from the
/// start of the audio.
#[derive(Clone, Debug)]
pub enum AsrWord {
    Word { tokens: Vec<u32>, start_time: usize, batch_idx: usize },
    EndWord { stop_time: usize, batch_idx: usize },
    EndOfStream { batch_idx: usize },
}

pub enum WordModel {
    Word { tokens: Seq<u32>, start_time: usize, batch_idx: usize },
    EndWord { stop_time: usize, batch_idx: usize },
    EndOfStream { batch_idx: usize },
}

impl View for AsrWord {
    type V = WordModel;

    open spec fn view(&self) -> WordModel {
        match *self {
            AsrWord::Word { tokens, start_time, batch_idx } => WordModel::Word {
                tokens: tokens@,
                start_time,
                batch_idx,
            },
            AsrWord::EndWord { stop_time, batch_idx } => WordModel::EndWord {
                stop_time,
                batch_idx,
            },
            AsrWord::EndOfStream { batch_idx } => WordModel::EndOfStream { batch_idx },
        }
    }
}

impl WordModel {
    pub open spec fn lane(self) -> usize {
        match self {
            WordModel::Word { batch_idx, .. } => batch_idx,
            WordModel::EndWord { batch_idx, .. } => batch_idx,
            WordModel::EndOfStream { batch_idx } => batch_idx,
        }
    }
}

impl AsrWord {
    /// The lane that the report is about.
    pub fn batch_idx(&self) -> (r: usize)
        ensures
            r == self@.lane(),
    {
        match self {
            AsrWord::Word { batch_idx, .. } => *batch_idx,
            AsrWord::EndWord { batch_idx, .. } => *batch_idx,
            AsrWord::EndOfStream { batch_idx } => *batch_idx,
        }
    }
}

/// What came of one step.
#[derive(Clone, Debug)]
pub struct StepResult {
    pub words: Vec<AsrWord>,
    /// For each extra head, the first of its probabilities in each lane.
    pub prs: Vec<Vec<SingleBits>>,
    /// The audio tokens, by lane and codebook.
    pub audio_tokens: Vec<Vec<u32>>,
    /// The text tokens that the step was fed.
    pub text_tokens: Vec<u32>,
}

pub open spec fn word_models(words: Seq<AsrWord>) -> Seq<WordModel> {
    words.map_values(|w: AsrWord| w@)
}

/// Whether a text token carries no text.
pub open spec fn is_special(token: u32) -> bool {
    token == TOKEN_PAD || token == TOKEN_EOP || token == TOKEN_EOS || token == TOKEN_SILENCE_PAD
}

/// What is known of the text of one lane.
#[derive(Debug)]
pub struct ItemState {
    pub batch_idx: usize,
    pub step_idx: usize,
    pub text_token: u32,
    pub word_tokens: Vec<u32>,
    pub unended_word: bool,
    /// When the last word ended, in frames.
    pub last_stop_time: usize,
    /// Whether something listens to the tokens of this lane and may favour some of them.
    pub boosted: bool,
    pub use_audio_pad_on_step_idx: Option<usize>,
}

#[verifier::ext_equal]
pub struct ItemModel {
    pub batch_idx: usize,
    pub step_idx: usize,
    pub text_token: u32,
    pub word_tokens: Seq<u32>,
    pub unended_word: bool,
    pub last_stop_time: usize,
    pub boosted: bool,
    pub use_audio_pad_on_step_idx: Option<usize>,
}

impl View for ItemState {
    type V = ItemModel;

    open spec fn view(&self) -> ItemModel {
        ItemModel {
            batch_idx: self.batch_idx,
            step_idx: self.step_idx,
            text_token: self.text_token,
            word_tokens: self.word_tokens@,
            unended_word: self.unended_word,
            last_stop_time: self.last_stop_time,
            boosted: self.boosted,
            use_audio_pad_on_step_idx: self.use_audio_pad_on_step_idx,
        }
    }
}

impl ItemModel {
    /// A lane before its first step.
    pub open spec fn fresh(batch_idx: usize, text_token: u32, boosted: bool) -> ItemModel {
        ItemModel {
            batch_idx,
            step_idx: 0,
            text_token,
            word_tokens: seq![],
            unended_word: false,
            last_stop_time: 0,
            boosted,
            use_audio_pad_on_step_idx: None,
        }
    }

    /// The word that the tokens so far make, where there are any.
    pub open spec fn pending_word(self) -> Option<WordModel> {
        if self.word_tokens.len() > 0 {
            Some(
                WordModel::Word {
                    tokens: self.word_tokens,
                    start_time: self.last_stop_time,
                    batch_idx: self.batch_idx,
                },
            )
        } else {
            None
        }
    }

    /// The lane once its word was reported.
    pub open spec fn flushed(self) -> ItemModel {
        if self.word_tokens.len() > 0 {
            ItemModel { word_tokens: seq![], unended_word: true, ..self }
        } else {
            self
        }
    }

    /// The lane with one more text token taken note of, before anything is reported.
    pub open spec fn counted(self, text_token: u32) -> ItemModel {
        ItemModel { text_token, step_idx: (self.step_idx + 1) as usize, ..self }
    }

    /// The lane and the reports once the token in hand was added to the word or ended it.
    pub open spec fn spelled(self) -> (ItemModel, Seq<WordModel>) {
        if is_special(self.text_token) {
            (
                self.flushed(),
                match self.pending_word() {
                    Some(w) => seq![w],
                    None => seq![],
                },
            )
        } else {
            (ItemModel { word_tokens: self.word_tokens.push(self.text_token), ..self }, seq![])
        }
    }

    /// The lane and the reports once the token in hand may have ended a word in time, `stop` being
    /// the present.
    pub open spec fn timed(self, stop: usize) -> (ItemModel, Seq<WordModel>) {
        if self.text_token == TOKEN_EOP || self.text_token == TOKEN_EOS {
            (
                ItemModel { unended_word: false, last_stop_time: stop, ..self },
                if self.unended_word {
                    seq![WordModel::EndWord { stop_time: stop, batch_idx: self.batch_idx }]
                } else {
                    seq![]
                },
            )
        } else {
            (self, seq![])
        }
    }

    /// The report that the stream ended, where the token in hand says so.
    pub open spec fn closing(self) -> Seq<WordModel> {
        if self.text_token == TOKEN_EOS {
            seq![WordModel::EndOfStream { batch_idx: self.batch_idx }]
        } else {
            seq![]
        }
    }

    /// The lane and the reports after one more text token. Nothing is reported before the delay
    /// has passed; the tokens up to there are dropped.
    pub open spec fn heard(self, text_token: u32, delay: usize) -> (ItemModel, Seq<WordModel>) {
        let item = self.counted(text_token);
        if item.step_idx < delay {
            (item, seq![])
        } else {
            let (spelled, first) = item.spelled();
            let (timed, second) = spelled.timed((item.step_idx - delay) as usize);
            (timed, first + second + timed.closing())
        }
    }

    /// Whether the lane is fed the token that stands for no audio.
    pub open spec fn fed_pad(self) -> bool {
        self.step_idx == 0 || self.use_audio_pad_on_step_idx == Some(self.step_idx)
    }

    /// Whether the lane takes biases on its text tokens.
    pub open spec fn takes_bias(self, delay: usize) -> bool {
        self.boosted && self.step_idx >= delay
    }
}

impl ItemState {
    pub fn new(batch_idx: usize, text_token: u32) -> (r: ItemState)
        ensures
            r@ == ItemModel::fresh(batch_idx, text_token, false),
    {
        let word_tokens: Vec<u32> = Vec::new();
        assert(word_tokens@ =~= seq![]);
        ItemState {
            batch_idx,
            step_idx: 0,
            text_token,
            word_tokens,
            unended_word: false,
            last_stop_time: 0,
            boosted: false,
            use_audio_pad_on_step_idx: None,
        }
    }

    /// Starts the lane anew.
    pub fn reset(&mut self, boosted: bool)
        ensures
            final(self)@ == ItemModel::fresh(old(self)@.batch_idx, 0, boosted),
    {
        self.step_idx = 0;
        self.text_token = 0;
        self.word_tokens = Vec::new();
        self.unended_word = false;
        self.last_stop_time = 0;
        self.boosted = boosted;
        self.use_audio_pad_on_step_idx = None;
        assert(self.word_tokens@ =~= seq![]);
    }

    pub fn text_token(&self) -> (r: u32)
        ensures
            r == self@.text_token,
    {
        self.text_token
    }

    pub fn is_first_step(&self) -> (r: bool)
        ensures
            r == (self@.step_idx == 0),
    {
        self.step_idx == 0
    }

    /// Reports the word that the tokens so far make.
    pub fn flush_tokens(&mut self) -> (r: Option<AsrWord>)
        ensures
            final(self)@ == old(self)@.flushed(),
            (match r {
                Some(w) => Some(w@),
                None => None,
            }) == old(self)@.pending_word(),
    {
        if self.word_tokens.len() > 0 {
            let mut tokens: Vec<u32> = Vec::new();
            std::mem::swap(&mut self.word_tokens, &mut tokens);
            assert(self.word_tokens@ =~= seq![]);
            self.unended_word = true;
            Some(
                AsrWord::Word {
                    tokens,
                    start_time: self.last_stop_time,
                    batch_idx: self.batch_idx,
                },
            )
        } else {
            None
        }
    }

    /// Feeds the token that stands for no audio on the present step: some models are trained with
    /// such an end of the audio.
    pub fn on_explicit_audio_eos(&mut self)
        ensures
            final(self)@ == (ItemModel {
                use_audio_pad_on_step_idx: Some(old(self)@.step_idx),
                ..old(self)@
            }),
    {
        self.use_audio_pad_on_step_idx = Some(self.step_idx);
    }

    pub fn use_audio_pad(&self) -> (r: bool)
        ensures
            r == (self@.use_audio_pad_on_step_idx == Some(self@.step_idx)),
    {
        match self.use_audio_pad_on_step_idx {
            Some(i) => i == self.step_idx,
            None => false,
        }
    }

    /// Takes in a sampled text token and adds to `words` what it completes. Returns whether the
    /// listener of the lane, where there is one, is to hear the token.
    pub fn on_text_token(
        &mut self,
        text_token: u32,
        asr_delay_in_tokens: usize,
        words: &mut Vec<AsrWord>,
    ) -> (heard: bool)
        requires
            old(self)@.step_idx < usize::MAX,
        ensures
            ({
                let (item, out) = old(self)@.heard(text_token, asr_delay_in_tokens);
                &&& final(self)@ == item
                &&& word_models(final(words)@) == word_models(old(words)@) + out
                &&& heard == item.takes_bias(asr_delay_in_tokens)
            }),
    {
        let ghost before = word_models(words@);
        self.text_token = text_token;
        self.step_idx += 1;
        if self.step_idx < asr_delay_in_tokens {
            assert(before + Seq::<WordModel>::empty() =~= before);
            return false;
        }
        let ghost item = self@;
        assert(item == old(self)@.counted(text_token));
        if text_token == TOKEN_PAD || text_token == TOKEN_EOP || text_token == TOKEN_EOS
            || text_token == TOKEN_SILENCE_PAD {
            if let Some(word) = self.flush_tokens() {
                words.push(word);
            }
        } else {
            self.word_tokens.push(text_token);
        }
        let ghost spelled = item.spelled();
        proof {
            assert(self@ =~= spelled.0);
            assert(word_models(words@) =~= before + spelled.1);
        }
        let stop_time: usize = self.step_idx - asr_delay_in_tokens;
        if text_token == TOKEN_EOP || text_token == TOKEN_EOS {
            if self.unended_word {
                self.unended_word = false;
                words.push(AsrWord::EndWord { stop_time, batch_idx: self.batch_idx });
            }
            self.last_stop_time = stop_time;
        }
        let ghost timed = spelled.0.timed(stop_time);
        proof {
            assert(self@ =~= timed.0);
            assert(word_models(words@) =~= before + spelled.1 + timed.1);
        }
        if text_token == TOKEN_EOS {
            words.push(AsrWord::EndOfStream { batch_idx: self.batch_idx });
        }
        proof {
            assert(word_models(words@) =~= before + (spelled.1 + timed.1 + timed.0.closing()));
        }
        self.boosted
    }

    /// Whether biases on text tokens count for this lane: once the delay has passed, where the lane
    /// has a listener.
    pub fn takes_biases(&self, asr_delay_in_tokens: usize) -> (r: bool)
        ensures
            r == self@.takes_bias(asr_delay_in_tokens),
    {
        self.boosted && self.step_idx >= asr_delay_in_tokens
    }

    /// Those of the biases `biases` on text tokens that count for this lane: all of them once the
    /// delay has passed, where the lane has a listener.
    pub fn text_biases(&self, asr_delay_in_tokens: usize, biases: &[(u32, SingleBits)]) -> (r: Vec<
        (u32, SingleBits),
    >)
        ensures
            r@ == if self@.takes_bias(asr_delay_in_tokens) {
                biases@
            } else {
                seq![]
            },
    {
        let mut out: Vec<(u32, SingleBits)> = Vec::new();
        if self.takes_biases(asr_delay_in_tokens) {
            let mut i: usize = 0;
            while i < biases.len()
                invariant
                    i <= biases.len(),
                    out@ == biases@.take(i as int),
                decreases biases.len() - i,
            {
                out.push(biases[i]);
                i += 1;
                assert(out@ =~= biases@.take(i as int));
            }
            assert(biases@.take(i as int) =~= biases@);
        }
        out
    }

    /// Whether something may favour tokens of this lane.
    pub fn with_text_bias(&self) -> (r: bool)
        ensures
            r == self@.boosted,
    {
        self.boosted
    }
}

/// The models of the lanes.
pub open spec fn item_models(items: Seq<ItemState>) -> Seq<ItemModel> {
    items.map_values(|i: ItemState| i@)
}

/// Audio tokens of several steps, in row-major order by lane, codebook and step.
#[derive(Debug)]
pub struct AudioTokens {
    pub batch_size: usize,
    pub codebooks: usize,
    pub steps: usize,
    pub tokens: Vec<i64>,
}

impl AudioTokens {
    pub open spec fn wf(self) -> bool {
        self.tokens@.len() == self.batch_size * self.codebooks * self.steps
    }

    /// The token of a lane and a codebook in step `step`.
    pub open spec fn at(self, b: int, cb: int, step: int) -> u32 {
        self.tokens@[b * self.codebooks * self.steps + cb * self.steps + step] as u32
    }

    pub fn new(tokens: Vec<i64>, batch_size: usize, codebooks: usize, steps: usize) -> (r: Result<
        AudioTokens,
        Error,
    >)
        ensures
            match r {
                Ok(a) => a.wf() && a.tokens == tokens && a.batch_size == batch_size && a.codebooks
                    == codebooks && a.steps == steps,
                Err(e) => tokens@.len() != batch_size * codebooks * steps && e == (Error::Reshape {
                    from: Shape::D1(tokens@.len() as usize),
                    to: Shape::D3(batch_size, codebooks, steps),
                }),
            },
    {
        let shape = Shape::D3(batch_size, codebooks, steps);
        let fits = match shape.elem_count() {
            Some(n) => n == tokens.len(),
            None => false,
        };
        proof {
            reveal(Shape::fits);
        }
        if fits {
            Ok(AudioTokens { batch_size, codebooks, steps, tokens })
        } else {
            Err(Error::Reshape { from: Shape::D1(tokens.len()), to: shape })
        }
    }

    fn get(&self, b: usize, cb: usize, step: usize) -> (r: u32)
        requires
            self.wf(),
            b < self.batch_size,
            cb < self.codebooks,
            step < self.steps,
        ensures
            r == self.at(b as int, cb as int, step as int),
    {
        proof {
            lemma_row_major(
                b as int,
                cb as int,
                step as int,
                self.batch_size as int,
                self.codebooks as int,
                self.steps as int,
            );
        }
        let n: usize = self.tokens.len();
        assert(b * self.codebooks * self.steps + cb * self.steps + step < n);
        let i: usize = b * self.codebooks * self.steps + cb * self.steps + step;
        #[verifier::truncate]
        (self.tokens[i] as u32)
    }
}

/// An index in row-major order is within the array, and so is every part of it.
proof fn lemma_row_major(b: int, cb: int, step: int, lanes: int, codebooks: int, steps: int)
    requires
        0 <= b < lanes,
        0 <= cb < codebooks,
        0 <= step < steps,
    ensures
        0 <= b * codebooks,
        b * codebooks <= b * codebooks * steps,
        0 <= cb * steps,
        b * codebooks * steps + cb * steps + step < lanes * codebooks * steps,
{
    assert(0 <= b * codebooks) by (nonlinear_arith)
        requires
            0 <= b,
            0 < codebooks,
    ;
    assert(0 <= cb * steps) by (nonlinear_arith)
        requires
            0 <= cb,
            0 < steps,
    ;
    assert(b * codebooks <= b * codebooks * steps) by (nonlinear_arith)
        requires
            0 <= b * codebooks,
            1 <= steps,
    ;
    assert(cb * steps + step < codebooks * steps) by (nonlinear_arith)
        requires
            cb + 1 <= codebooks,
            step < steps,
            steps >= 0,
    ;
    assert(b * codebooks * steps + codebooks * steps <= lanes * codebooks * steps)
        by (nonlinear_arith)
        requires
            b + 1 <= lanes,
            codebooks >= 0,
            steps >= 0,
    ;
}

/// What a step is fed.
#[derive(Debug)]
pub struct StepInputs {
    /// The audio tokens, by lane and codebook.
    pub audio_tokens: Vec<Vec<u32>>,
    /// The audio tokens as the model is fed them, by codebook and lane.
    pub audio_ids: Vec<Vec<u32>>,
    /// The text tokens, by lane.
    pub text_tokens: Vec<u32>,
}

pub open spec fn token_matrix(v: Seq<Vec<u32>>) -> Seq<Seq<u32>> {
    v.map_values(|r: Vec<u32>| r@)
}

/// What a step computes.
pub struct StepOutputs {
    /// The probabilities of the extra heads.
    pub heads: Vec<Tensor>,
    /// The text tokens to sample, one for each lane.
    pub sampled: Tensor,
}

/// The number under which a step expects the biases on its text tokens.
pub const TEXT_BIAS_SLOT: usize = 0usize;

/// Whether a lane is active.
pub open spec fn lane_active(mask: Option<Seq<bool>>, b: int) -> bool {
    match mask {
        None => true,
        Some(lanes) => lanes[b],
    }
}

/// Whether the mask has a flag for each of `n` lanes, where it has any.
pub open spec fn mask_covers(mask: Option<Seq<bool>>, n: nat) -> bool {
    mask matches Some(lanes) ==> n <= lanes.len()
}

fn check_mask(mask: &StreamMask, n: usize) -> (r: Result<(), Error>)
    ensures
        mask_covers(flags(*mask), n as nat) ==> r == Ok::<(), Error>(()),
        !mask_covers(flags(*mask), n as nat) ==> r == Err::<(), Error>(
            Error::MaskLanes { lanes: flags(*mask)->0.len() as usize, batch: n },
        ),
{
    match lanes(mask) {
        None => Ok(()),
        Some(v) => if n <= v.len() {
            Ok(())
        } else {
            Err(Error::MaskLanes { lanes: v.len(), batch: n })
        },
    }
}

/// The recognizer: a language model, and how far its text lags behind the audio. The audio
/// tokenizer is not part of it.
pub struct Asr {
    pub asr_delay_in_tokens: usize,
    pub default_temperature: SingleBits,
    pub lm: Arc<LmModel>,
    pub default_condition: Option<Tensor>,
}

impl Clone for Asr {
    fn clone(&self) -> (r: Asr)
        ensures
            r == *self,
    {
        Asr {
            asr_delay_in_tokens: self.asr_delay_in_tokens,
            default_temperature: self.default_temperature,
            lm: self.lm.clone(),
            default_condition: clone_option(&self.default_condition),
        }
    }
}

/// The language model of a recognizer: the one that its configuration describes, or the released
/// one where there is none.
pub fn lm_config(config: Option<&moshi::Config>, dim_feedforward: usize) -> (r: lm::Config)
    requires
        config matches Some(c) ==> c.card < usize::MAX && c.text_card < usize::MAX,
    ensures
        r@ == (match config {
            Some(c) => c.lm_config(dim_feedforward),
            None => released_config(),
        }),
{
    match config {
        Some(c) => c.to_lm_config(dim_feedforward),
        None => lm::Config::stt_2_6b(),
    }
}

/// The released speech-to-text model.
pub open spec fn released_config() -> lm::ConfigModel {
    lm::ConfigModel {
        transformer: lm::speech_transformer(2048, 32, 48, 8448, 375),
        text_in_vocab_size: 4001,
        text_out_vocab_size: 4000,
        audio_vocab_size: 2049,
        audio_codebooks: 32,
        extra_heads: None,
    }
}

pub open spec fn has_prefix(s: Seq<char>, t: Seq<char>) -> bool {
    s.len() >= t.len() && s.subrange(0, t.len() as int) == t
}

pub open spec fn has_suffix(s: Seq<char>, t: Seq<char>) -> bool {
    s.len() >= t.len() && s.subrange(s.len() - t.len(), s.len() as int) == t
}

fn starts_with(s: &str, t: &str) -> (r: bool)
    ensures
        r == has_prefix(s@, t@),
{
    let n: usize = s.unicode_len();
    let m: usize = t.unicode_len();
    n >= m && same_text(s.substring_char(0, m), t)
}

fn ends_with(s: &str, t: &str) -> (r: bool)
    ensures
        r == has_suffix(s@, t@),
{
    let n: usize = s.unicode_len();
    let m: usize = t.unicode_len();
    n >= m && same_text(s.substring_char(n - m, n), t)
}

/// Whether a checkpoint of the audio tokenizer may hold this tensor without a use for it.
pub fn tokenizer_weight_ignored(name: &str) -> (r: bool)
    ensures
        r == (has_suffix(name@, "_codebook._initialized"@) || has_suffix(
            name@,
            "_codebook.cluster_usage"@,
        ) || has_suffix(name@, "_codebook.embedding_sum"@)),
{
    ends_with(name, "_codebook._initialized") || ends_with(name, "_codebook.cluster_usage")
        || ends_with(name, "_codebook.embedding_sum")
}

/// Whether a checkpoint of the language model may hold this tensor without a use for it.
pub fn lm_weight_ignored(name: &str) -> (r: bool)
    ensures
        r == has_prefix(name@, "linears."@),
{
    starts_with(name, "linears.")
}

/// The conditions on the language of the audio and of the text, by name.
pub open spec fn language_conditions(lang: Option<Seq<char>>, target: Option<Seq<char>>) -> Seq<
    (Seq<char>, Seq<char>),
> {
    let of_lang: Seq<(Seq<char>, Seq<char>)> = match lang {
        Some(l) => seq![("lang"@, l), ("languages_in_segment"@, l)],
        None => seq![],
    };
    let of_target: Seq<(Seq<char>, Seq<char>)> = match target {
        Some(t) => seq![("target_language"@, t)],
        None => seq![],
    };
    of_lang + of_target
}

pub open spec fn text_pairs(v: Seq<(String, String)>) -> Seq<(Seq<char>, Seq<char>)> {
    v.map_values(|p: (String, String)| (p.0@, p.1@))
}

/// The conditions on the language of the audio and of the text, by name.
pub fn condition_values(lang: Option<&str>, target_lang: Option<&str>) -> (r: Vec<(String, String)>)
    ensures
        text_pairs(r@) == language_conditions(
            match lang {
                Some(l) => Some(l@),
                None => None,
            },
            match target_lang {
                Some(t) => Some(t@),
                None => None,
            },
        ),
{
    let mut values: Vec<(String, String)> = Vec::new();
    if let Some(l) = lang {
        values.push(("lang".to_string(), l.to_string()));
        values.push(("languages_in_segment".to_string(), l.to_string()));
    }
    if let Some(t) = target_lang {
        values.push(("target_language".to_string(), t.to_string()));
    }
    proof {
        let ghost want = language_conditions(
            match lang {
                Some(l) => Some(l@),
                None => None,
            },
            match target_lang {
                Some(t) => Some(t@),
                None => None,
            },
        );
        assert(text_pairs(values@) =~= want);
    }
    values
}

/// The recognizer and what it keeps between steps.
pub struct AsrState {
    pub model: Asr,
    pub lm: LmState,
    pub batch: Vec<ItemState>,
    pub model_step_idx: usize,
    pub temperature: Tensor,
    pub condition: Option<Tensor>,
}

#[verifier::ext_equal]
pub struct AsrParts {
    pub lm: StateModel,
    pub batch: Seq<ItemModel>,
    pub model_step_idx: usize,
    pub temperature: Tensor,
    pub condition: Option<Tensor>,
}

impl View for AsrState {
    type V = AsrParts;

    open spec fn view(&self) -> AsrParts {
        AsrParts {
            lm: self.lm.transformer@,
            batch: item_models(self.batch@),
            model_step_idx: self.model_step_idx,
            temperature: self.temperature,
            condition: self.condition,
        }
    }
}

/// Whether each lane knows its index.
pub open spec fn indexed(batch: Seq<ItemModel>) -> bool {
    forall|b: int| 0 <= b < batch.len() ==> (#[trigger] batch[b]).batch_idx == b
}

impl AsrParts {
    /// The text token that lane `b` is fed: the one sampled last, or the one that starts a text.
    pub open spec fn text_token_to_feed(self, model: LmParts, b: int) -> u32 {
        let item = self.batch[b];
        if item.step_idx == 0 {
            (model.text_in_vocab_size as u32 - 1) as u32
        } else {
            item.text_token
        }
    }

    /// The audio token of codebook `cb` that lane `b` is fed in step `step`: zero where the lane is
    /// not active, and the one that stands for no audio on its first step and at an explicit end.
    pub open spec fn audio_token_to_feed(
        self,
        model: LmParts,
        audio: AudioTokens,
        step: int,
        mask: Option<Seq<bool>>,
        cb: int,
        b: int,
    ) -> u32 {
        if !lane_active(mask, b) {
            0
        } else if self.batch[b].fed_pad() {
            (model.audio_vocab_size as u32 - 1) as u32
        } else {
            audio.at(b, cb, step)
        }
    }

    /// The text tokens that the lanes are fed.
    pub open spec fn text_fed(self, model: LmParts) -> Seq<u32> {
        Seq::new(self.batch.len(), |b: int| self.text_token_to_feed(model, b))
    }

    /// The audio tokens that the lanes are fed in step `step`, by codebook and lane.
    pub open spec fn audio_fed(
        self,
        model: LmParts,
        audio: AudioTokens,
        step: int,
        mask: Option<Seq<bool>>,
    ) -> Seq<Seq<u32>> {
        Seq::new(
            audio.codebooks as nat,
            |cb: int|
                Seq::new(
                    self.batch.len(),
                    |b: int| self.audio_token_to_feed(model, audio, step, mask, cb, b),
                ),
        )
    }
}

/// The default condition, once for each lane.
pub open spec fn spread_condition(condition: Option<Tensor>, batch_size: usize) -> Result<
    Option<Tensor>,
    Error,
> {
    match condition {
        None => Ok(None),
        Some(c) => {
            let n = c.shape_of().rank_of();
            if n == 0 {
                Err(Error::UnexpectedRank { expected: 3, shape: c.shape_of() })
            } else {
                match expand_of(
                    Ok(c),
                    Shape::D3(batch_size, 1, c.shape_of().dims()[n - 1]),
                ) {
                    Err(e) => Err(e),
                    Ok(t) => Ok(Some(t)),
                }
            }
        },
    }
}

fn spread(condition: &Option<Tensor>, batch_size: usize) -> (r: Result<Option<Tensor>, Error>)
    ensures
        r == spread_condition(*condition, batch_size),
{
    match condition {
        None => Ok(None),
        Some(c) => {
            let n: usize = c.shape().rank();
            if n == 0 {
                return Err(Error::UnexpectedRank { expected: 3, shape: c.shape() });
            }
            let dim: usize = c.dim(n - 1)?;
            Ok(Some(c.expand(Shape::D3(batch_size, 1, dim))?))
        },
    }
}

impl Asr {
    /// The vocabularies have the tokens that start a text and that stand for no audio.
    pub open spec fn wf(self) -> bool {
        &&& self.lm@.text_in_vocab_size as u32 > 0
        &&& self.lm@.audio_vocab_size as u32 > 0
    }

    pub fn new(asr_delay_in_tokens: usize, default_temperature: SingleBits, lm: LmModel) -> (r: Asr)
        ensures
            r.asr_delay_in_tokens == asr_delay_in_tokens,
            r.default_temperature == default_temperature,
            r.lm@ == lm@,
            r.default_condition is None,
    {
        Asr { asr_delay_in_tokens, default_temperature, lm: Arc::new(lm), default_condition: None }
    }

    /// Loads the language model of a recognizer. `conditioned` is what the conditioners of the
    /// configuration make of the delay: the condition of lanes that have none of their own. Without
    /// a configuration there are no conditioners.
    pub fn load(
        vb: &Weights,
        config: Option<&moshi::Config>,
        dim_feedforward: usize,
        asr_delay_in_tokens: usize,
        default_temperature: SingleBits,
        conditioned: Option<Tensor>,
    ) -> (r: Result<Asr, Error>)
        requires
            config matches Some(c) ==> c.card < usize::MAX && c.text_card < usize::MAX,
        ensures
            match (
                r,
                LmParts::loaded(
                    *vb,
                    match config {
                        Some(c) => c.lm_config(dim_feedforward),
                        None => released_config(),
                    },
                ),
            ) {
                (Ok(a), Ok(m)) => a.lm@ == m && a.asr_delay_in_tokens == asr_delay_in_tokens
                    && a.default_temperature == default_temperature && a.default_condition == (
                match config {
                    Some(_) => conditioned,
                    None => None,
                }),
                (Err(a), Err(b)) => a == b,
                _ => false,
            },
    {
        let cfg = lm_config(config, dim_feedforward);
        let lm = LmModel::load(vb, &cfg)?;
        let default_condition = match config {
            Some(_) => conditioned,
            None => None,
        };
        Ok(
            Asr::new(asr_delay_in_tokens, default_temperature, lm).with_default_condition(
                default_condition,
            ),
        )
    }

    /// Sets the condition of lanes that have none of their own.
    pub fn with_default_condition(self, condition: Option<Tensor>) -> (r: Asr)
        ensures
            r == (Asr { default_condition: condition, ..self }),
    {
        Asr {
            asr_delay_in_tokens: self.asr_delay_in_tokens,
            default_temperature: self.default_temperature,
            lm: self.lm,
            default_condition: condition,
        }
    }

    pub fn asr_delay_in_tokens(&self) -> (r: usize)
        ensures
            r == self.asr_delay_in_tokens,
    {
        self.asr_delay_in_tokens
    }

    /// What the recognizer starts from.
    pub open spec fn fresh_parts(self, batch_size: usize) -> Result<AsrParts, Error> {
        let t = self.lm@.transformer;
        let start = (self.lm@.text_in_vocab_size as u32 - 1) as u32;
        match (
            node(Shape::D2(batch_size, 1), Op::Full(self.default_temperature)),
            spread_condition(self.default_condition, batch_size),
            StateModel::fresh(batch_size, t.num_kv, t.context, t.head_dim, t.layers.len()),
        ) {
            (Err(e), _, _) => Err(e),
            (_, Err(e), _) => Err(e),
            (_, _, Err(e)) => Err(e),
            (Ok(temperature), Ok(condition), Ok(lm)) => Ok(
                AsrParts {
                    lm,
                    batch: Seq::new(
                        batch_size as nat,
                        |b: int| ItemModel::fresh(b as usize, start, false),
                    ),
                    model_step_idx: 0,
                    temperature,
                    condition,
                },
            ),
        }
    }

    /// A state for `batch_size` lanes before their first step.
    pub fn init_state(&self, batch_size: usize) -> (r: Result<AsrState, Error>)
        requires
            self.wf(),
        ensures
            viewed(r) == self.fresh_parts(batch_size),
            r matches Ok(s) ==> s.model == *self && s.lm.model == self.lm && s.wf(),
    {
        let text_start_token: u32 = self.lm.text_start_token();
        let mut batch: Vec<ItemState> = Vec::new();
        let mut b: usize = 0;
        while b < batch_size
            invariant
                b <= batch_size,
                batch.len() == b,
                forall|i: int|
                    0 <= i < b ==> (#[trigger] batch[i])@ == ItemModel::fresh(
                        i as usize,
                        text_start_token,
                        false,
                    ),
            decreases batch_size - b,
        {
            batch.push(ItemState::new(b, text_start_token));
            b += 1;
        }
        proof {
            assert(item_models(batch@) =~= Seq::new(
                batch_size as nat,
                |i: int| ItemModel::fresh(i as usize, text_start_token, false),
            ));
        }
        let temperature = Tensor::full(self.default_temperature, Shape::D2(batch_size, 1))?;
        let condition = spread(&self.default_condition, batch_size)?;
        let lm = self.lm.init_state(batch_size)?;
        Ok(AsrState { model: self.clone(), lm, batch, model_step_idx: 0, temperature, condition })
    }
}

impl AsrState {
    /// The state runs the model that it was made from, and each lane knows its index.
    pub open spec fn wf(self) -> bool {
        self.model.wf() && self.lm.model == self.model.lm && indexed(self@.batch)
    }

    /// The text token that lane `b` is fed.
    pub open spec fn text_token_to_feed(self, b: int) -> u32 {
        self@.text_token_to_feed(self.model.lm@, b)
    }

    /// The audio token of codebook `cb` that lane `b` is fed in step `step`.
    pub open spec fn audio_token_to_feed(
        self,
        audio: AudioTokens,
        step: int,
        mask: Option<Seq<bool>>,
        cb: int,
        b: int,
    ) -> u32 {
        self@.audio_token_to_feed(self.model.lm@, audio, step, mask, cb, b)
    }

    fn text_tokens(&self) -> (r: Vec<u32>)
        requires
            self.wf(),
        ensures
            r@ == Seq::new(self@.batch.len(), |b: int| self.text_token_to_feed(b)),
    {
        let text_start_token: u32 = self.model.lm.text_start_token();
        let mut out: Vec<u32> = Vec::new();
        let mut b: usize = 0;
        while b < self.batch.len()
            invariant
                b <= self.batch.len(),
                text_start_token == self.model.lm@.text_in_vocab_size as u32 - 1,
                out.len() == b,
                forall|i: int| 0 <= i < b ==> out[i] == self.text_token_to_feed(i),
            decreases self.batch.len() - b,
        {
            let token: u32 = if self.batch[b].is_first_step() {
                text_start_token
            } else {
                self.batch[b].text_token()
            };
            out.push(token);
            b += 1;
        }
        assert(out@ =~= Seq::new(self@.batch.len(), |b: int| self.text_token_to_feed(b)));
        out
    }

    fn audio_rows(audio: &AudioTokens, step: usize) -> (r: Vec<Vec<u32>>)
        requires
            audio.wf(),
            step < audio.steps,
        ensures
            token_matrix(r@) == Seq::new(
                audio.batch_size as nat,
                |b: int|
                    Seq::new(
                        audio.codebooks as nat,
                        |cb: int| audio.at(b, cb, step as int),
                    ),
            ),
    {
        let ghost want = Seq::new(
            audio.batch_size as nat,
            |b: int| Seq::new(audio.codebooks as nat, |cb: int| audio.at(b, cb, step as int)),
        );
        let mut rows: Vec<Vec<u32>> = Vec::new();
        let mut b: usize = 0;
        while b < audio.batch_size
            invariant
                audio.wf(),
                step < audio.steps,
                b <= audio.batch_size,
                rows.len() == b,
                want == Seq::new(
                    audio.batch_size as nat,
                    |b: int|
                        Seq::new(audio.codebooks as nat, |cb: int| audio.at(b, cb, step as int)),
                ),
                forall|i: int| 0 <= i < b ==> (#[trigger] rows[i])@ == want[i],
            decreases audio.batch_size - b,
        {
            let mut row: Vec<u32> = Vec::new();
            let mut cb: usize = 0;
            while cb < audio.codebooks
                invariant
                    audio.wf(),
                    step < audio.steps,
                    b < audio.batch_size,
                    cb <= audio.codebooks,
                    row.len() == cb,
                    forall|j: int|
                        0 <= j < cb ==> row[j] == #[trigger] audio.at(b as int, j, step as int),
                decreases audio.codebooks - cb,
            {
                row.push(audio.get(b, cb, step));
                cb += 1;
            }
            assert(row@ =~= want[b as int]);
            rows.push(row);
            b += 1;
        }
        assert(token_matrix(rows@) =~= want);
        rows
    }

    fn audio_ids(&self, audio: &AudioTokens, step: usize, mask: &StreamMask) -> (r: Vec<Vec<u32>>)
        requires
            self.wf(),
            audio.wf(),
            step < audio.steps,
            audio.batch_size == self@.batch.len(),
            mask_covers(flags(*mask), self@.batch.len()),
        ensures
            token_matrix(r@) == Seq::new(
                audio.codebooks as nat,
                |cb: int|
                    Seq::new(
                        self@.batch.len(),
                        |b: int|
                            self.audio_token_to_feed(*audio, step as int, flags(*mask), cb, b),
                    ),
            ),
    {
        let ghost m = flags(*mask);
        let ghost want = Seq::new(
            audio.codebooks as nat,
            |cb: int|
                Seq::new(
                    self@.batch.len(),
                    |b: int| self.audio_token_to_feed(*audio, step as int, m, cb, b),
                ),
        );
        let pad: u32 = self.model.lm.audio_pad_token();
        let mut ids: Vec<Vec<u32>> = Vec::new();
        let mut cb: usize = 0;
        while cb < audio.codebooks
            invariant
                self.wf(),
                audio.wf(),
                step < audio.steps,
                audio.batch_size == self@.batch.len(),
                m == flags(*mask),
                mask_covers(m, self@.batch.len()),
                pad == self.model.lm@.audio_vocab_size as u32 - 1,
                want == Seq::new(
                    audio.codebooks as nat,
                    |cb: int|
                        Seq::new(
                            self@.batch.len(),
                            |b: int| self.audio_token_to_feed(*audio, step as int, m, cb, b),
                        ),
                ),
                cb <= audio.codebooks,
                ids.len() == cb,
                forall|j: int| 0 <= j < cb ==> (#[trigger] ids[j])@ == want[j],
            decreases audio.codebooks - cb,
        {
            let mut row: Vec<u32> = Vec::new();
            let mut b: usize = 0;
            while b < self.batch.len()
                invariant
                    self.wf(),
                    audio.wf(),
                    step < audio.steps,
                    audio.batch_size == self@.batch.len(),
                    m == flags(*mask),
                    mask_covers(m, self@.batch.len()),
                    pad == self.model.lm@.audio_vocab_size as u32 - 1,
                    cb < audio.codebooks,
                    b <= self.batch.len(),
                    row.len() == b,
                    forall|j: int|
                        0 <= j < b ==> row[j] == #[trigger] self.audio_token_to_feed(
                            *audio,
                            step as int,
                            m,
                            cb as int,
                            j,
                        ),
                decreases self.batch.len() - b,
            {
                let item = &self.batch[b];
                let token: u32 = if !is_active(mask, b) {
                    0
                } else if item.is_first_step() || item.use_audio_pad() {
                    pad
                } else {
                    audio.get(b, cb, step)
                };
                row.push(token);
                b += 1;
            }
            assert(row@ =~= want[cb as int]);
            ids.push(row);
            cb += 1;
        }
        assert(token_matrix(ids@) =~= want);
        ids
    }

    /// Checks that audio tokens, of however many steps, are for as many lanes as the batch has.
    pub fn check_batch(&self, audio: &AudioTokens) -> (r: Result<(), Error>)
        ensures
            audio.batch_size == self@.batch.len() ==> r == Ok::<(), Error>(()),
            audio.batch_size != self@.batch.len() ==> r == Err::<(), Error>(
                Error::BatchSize {
                    got: audio.batch_size,
                    expected: self@.batch.len() as usize,
                },
            ),
    {
        if audio.batch_size != self.batch.len() {
            return Err(
                Error::BatchSize { got: audio.batch_size, expected: self.batch.len() },
            );
        }
        Ok(())
    }

    /// What step `step` of the audio tokens is fed. The first step of a lane drops its audio: the
    /// tokens are not shifted.
    pub fn step_tokens(&self, audio: &AudioTokens, step: usize, mask: &StreamMask) -> (r: Result<
        StepInputs,
        Error,
    >)
        requires
            self.wf(),
            audio.wf(),
            step < audio.steps,
        ensures
            if audio.batch_size != self@.batch.len() {
                r == Err::<StepInputs, Error>(
                    Error::BatchSize {
                        got: audio.batch_size,
                        expected: self@.batch.len() as usize,
                    },
                )
            } else if !mask_covers(flags(*mask), self@.batch.len()) {
                r == Err::<StepInputs, Error>(
                    Error::MaskLanes {
                        lanes: flags(*mask)->0.len() as usize,
                        batch: self@.batch.len() as usize,
                    },
                )
            } else {
                &&& r matches Ok(inputs)
                &&& token_matrix(inputs.audio_tokens@) == Seq::new(
                    self@.batch.len(),
                    |b: int|
                        Seq::new(audio.codebooks as nat, |cb: int| audio.at(b, cb, step as int)),
                )
                &&& token_matrix(inputs.audio_ids@) == Seq::new(
                    audio.codebooks as nat,
                    |cb: int|
                        Seq::new(
                            self@.batch.len(),
                            |b: int|
                                self.audio_token_to_feed(
                                    *audio,
                                    step as int,
                                    flags(*mask),
                                    cb,
                                    b,
                                ),
                        ),
                )
                &&& inputs.text_tokens@ == Seq::new(
                    self@.batch.len(),
                    |b: int| self.text_token_to_feed(b),
                )
            },
    {
        self.check_batch(audio)?;
        check_mask(mask, self.batch.len())?;
        let audio_tokens = AsrState::audio_rows(audio, step);
        let audio_ids = self.audio_ids(audio, step, mask);
        let text_tokens = self.text_tokens();
        Ok(StepInputs { audio_tokens, audio_ids, text_tokens })
    }
}

/// The bias of `token`: the last one that the list gives it, or zero.
pub open spec fn bias_of(biases: Seq<(u32, SingleBits)>, token: int) -> SingleBits
    decreases biases.len(),
{
    if biases.len() == 0 {
        0
    } else if biases.last().0 == token {
        biases.last().1
    } else {
        bias_of(biases.drop_last(), token)
    }
}

/// The biases of one lane, token by token.
pub open spec fn bias_row(biases: Seq<(u32, SingleBits)>, vocab: nat) -> Seq<SingleBits> {
    Seq::new(vocab, |t: int| bias_of(biases, t))
}

fn make_bias_row(biases: &[(u32, SingleBits)], vocab: usize) -> (r: Vec<SingleBits>)
    ensures
        r@ == bias_row(biases@, vocab as nat),
{
    let mut row: Vec<SingleBits> = Vec::new();
    let mut t: usize = 0;
    while t < vocab
        invariant
            t <= vocab,
            row.len() == t,
            forall|j: int| 0 <= j < t ==> row[j] == 0,
        decreases vocab - t,
    {
        row.push(0);
        t += 1;
    }
    let mut i: usize = 0;
    assert(row@ =~= bias_row(biases@.take(0), vocab as nat));
    while i < biases.len()
        invariant
            i <= biases.len(),
            row@ == bias_row(biases@.take(i as int), vocab as nat),
        decreases biases.len() - i,
    {
        let (token, bias) = biases[i];
        let token: usize = token as usize;
        proof {
            assert(biases@.take(i + 1).drop_last() =~= biases@.take(i as int));
        }
        if token < vocab {
            row.set(token, bias);
        }
        assert(row@ =~= bias_row(biases@.take(i + 1), vocab as nat));
        i += 1;
    }
    assert(biases@.take(i as int) =~= biases@);
    row
}

/// The lists of biases, by lane.
pub open spec fn bias_lists(v: Seq<Vec<(u32, SingleBits)>>) -> Seq<Seq<(u32, SingleBits)>> {
    v.map_values(|l: Vec<(u32, SingleBits)>| l@)
}

impl AsrParts {
    /// Whether a step has biases on its text tokens.
    pub open spec fn with_bias(self) -> bool {
        exists|b: int| 0 <= b < self.batch.len() && (#[trigger] self.batch[b]).boosted
    }

    /// The list of biases that lane `b` goes by.
    pub open spec fn list_of_lane(
        self,
        lists: Seq<Seq<(u32, SingleBits)>>,
        delay: usize,
        b: int,
    ) -> Seq<(u32, SingleBits)> {
        if self.batch[b].takes_bias(delay) && b < lists.len() {
            lists[b]
        } else {
            seq![]
        }
    }

    /// The biases of the first `n` lanes, lane after lane.
    pub open spec fn bias_rows(
        self,
        lists: Seq<Seq<(u32, SingleBits)>>,
        delay: usize,
        vocab: nat,
        n: nat,
    ) -> Seq<SingleBits>
        decreases n,
    {
        if n == 0 {
            seq![]
        } else {
            self.bias_rows(lists, delay, vocab, (n - 1) as nat) + bias_row(
                self.list_of_lane(lists, delay, n - 1),
                vocab,
            )
        }
    }
}

/// The probabilities of the extra heads from `i` on, after those in `acc`.
pub open spec fn probabilities_from(heads: Seq<Tensor>, i: int, acc: Seq<Tensor>) -> Result<
    Seq<Tensor>,
    Error,
>
    decreases heads.len() - i,
{
    if i < 0 || i >= heads.len() {
        Ok(acc)
    } else {
        match softmax_of(Ok(heads[i])) {
            Err(e) => Err(e),
            Ok(t) => match dims3_of(Ok(t)) {
                Err(e) => Err(e),
                Ok(_) => probabilities_from(heads, i + 1, acc.push(t)),
            },
        }
    }
}

fn probabilities(heads: &Vec<Tensor>) -> (r: Result<Vec<Tensor>, Error>)
    ensures
        viewed(r) == probabilities_from(heads@, 0, seq![]),
{
    let mut out: Vec<Tensor> = Vec::new();
    let mut i: usize = 0;
    while i < heads.len()
        invariant
            i <= heads.len(),
            probabilities_from(heads@, 0, seq![]) == probabilities_from(heads@, i as int, out@),
        decreases heads.len() - i,
    {
        let t = heads[i].softmax()?;
        let (_, _, _) = t.dims3()?;
        out.push(t);
        i += 1;
    }
    Ok(out)
}

/// The first of the `dim` probabilities of each of `batch_size` lanes.
pub fn first_probabilities(data: &Vec<SingleBits>, batch_size: usize, dim: usize) -> (r: Result<
    Vec<SingleBits>,
    Error,
>)
    ensures
        batch_size * dim == data@.len() && dim > 0 ==> (r matches Ok(v) && v@ == Seq::new(
            batch_size as nat,
            |b: int| data@[b * dim],
        )),
        !(batch_size * dim == data@.len() && dim > 0) ==> r == Err::<Vec<SingleBits>, Error>(
            Error::Reshape {
                from: Shape::D1(data@.len() as usize),
                to: Shape::D2(batch_size, dim),
            },
        ),
{
    let fits = match batch_size.checked_mul(dim) {
        Some(n) => n == data.len() && dim > 0,
        None => false,
    };
    if !fits {
        return Err(
            Error::Reshape { from: Shape::D1(data.len()), to: Shape::D2(batch_size, dim) },
        );
    }
    let mut out: Vec<SingleBits> = Vec::new();
    let mut b: usize = 0;
    while b < batch_size
        invariant
            b <= batch_size,
            dim > 0,
            batch_size * dim == data.len(),
            out.len() == b,
            forall|i: int| 0 <= i < b ==> out[i] == data@[i * dim],
        decreases batch_size - b,
    {
        proof {
            assert(b * dim + dim <= batch_size * dim) by (nonlinear_arith)
                requires
                    b + 1 <= batch_size,
                    dim >= 0,
            ;
            assert(0 <= b * dim) by (nonlinear_arith)
                requires
                    b >= 0,
                    dim >= 0,
            ;
        }
        out.push(data[b * dim]);
        b += 1;
    }
    assert(out@ =~= Seq::new(batch_size as nat, |b: int| data@[b * dim]));
    Ok(out)
}

/// The codebooks of a step, none of them skipped.
pub open spec fn all_codebooks(ids: Seq<Seq<u32>>) -> Seq<Option<Seq<u32>>> {
    ids.map_values(|row: Seq<u32>| Some(row))
}

fn every_codebook<'a>(ids: &'a Vec<Vec<u32>>) -> (r: Vec<Option<&'a [u32]>>)
    ensures
        token_seqs(r@) == all_codebooks(token_matrix(ids@)),
{
    let mut out: Vec<Option<&'a [u32]>> = Vec::new();
    let mut i: usize = 0;
    while i < ids.len()
        invariant
            i <= ids.len(),
            out.len() == i,
            forall|j: int|
                0 <= j < i ==> (#[trigger] out[j]) is Some && out[j]->0@ == ids[j]@,
        decreases ids.len() - i,
    {
        out.push(Some(ids[i].as_slice()));
        i += 1;
    }
    assert(token_seqs(out@) =~= all_codebooks(token_matrix(ids@)));
    out
}

impl AsrParts {
    /// The text tokens to sample from `logits`, with the biases added where there are any.
    pub open spec fn sampled(self, logits: Tensor, vocab: usize) -> TensorResult {
        match dims3_of(Ok(logits)) {
            Err(e) => Err(e),
            Ok((b, _, v)) => {
                let flat = reshape_of(Ok(logits), Shape::D2(b, v));
                let biased = if self.with_bias() {
                    binary_of(
                        BinaryOp::Add,
                        flat,
                        node(
                            Shape::D2(self.batch.len() as usize, vocab),
                            Op::Input(TEXT_BIAS_SLOT),
                        ),
                    )
                } else {
                    flat
                };
                gumbel_max_of(biased, self.temperature)
            },
        }
    }

    /// The state after the language model took in a step, the probabilities of the extra heads and
    /// the text tokens to sample.
    pub open spec fn forwarded(
        self,
        model: LmParts,
        text_tokens: Seq<u32>,
        audio_ids: Seq<Seq<u32>>,
        mask: Option<Seq<bool>>,
    ) -> (AsrParts, Result<(Seq<Tensor>, Tensor), Error>) {
        if self.model_step_idx == usize::MAX {
            (self, Err(Error::TooLarge))
        } else {
            let (lm, r) = model.forwarded(
                Some(text_tokens),
                all_codebooks(audio_ids),
                self.condition,
                self.lm,
                mask,
            );
            match r {
                Err(e) => (AsrParts { lm, ..self }, Err(e)),
                Ok((logits, out)) => {
                    let next = AsrParts {
                        lm,
                        model_step_idx: (self.model_step_idx + 1) as usize,
                        ..self
                    };
                    match model.heads_run(out, 0, seq![]) {
                        Err(e) => (next, Err(e)),
                        Ok(heads) => match (
                            probabilities_from(heads, 0, seq![]),
                            self.sampled(logits, model.text_out_vocab_size),
                        ) {
                            (Err(e), _) => (next, Err(e)),
                            (Ok(_), Err(e)) => (next, Err(e)),
                            (Ok(heads), Ok(sampled)) => (next, Ok((heads, sampled))),
                        },
                    }
                },
            }
        }
    }

    /// Whether some active lane among the first `n` cannot count one more step.
    pub open spec fn some_full(self, mask: Option<Seq<bool>>, n: nat) -> bool {
        exists|b: int|
            0 <= b < n && (#[trigger] self.batch[b]).step_idx == usize::MAX && lane_active(mask, b)
    }
}

/// The lanes from `b` on, and the reports after those in `words`, once the active ones took in
/// their sampled tokens.
pub open spec fn lanes_heard(
    batch: Seq<ItemModel>,
    sampled: Seq<i64>,
    mask: Option<Seq<bool>>,
    delay: usize,
    b: int,
    words: Seq<WordModel>,
) -> (Seq<ItemModel>, Seq<WordModel>)
    decreases batch.len() - b,
{
    if b < 0 || b >= batch.len() || b >= sampled.len() {
        (batch, words)
    } else if !lane_active(mask, b) {
        lanes_heard(batch, sampled, mask, delay, b + 1, words)
    } else {
        let (item, out) = batch[b].heard(sampled[b] as u32, delay);
        lanes_heard(batch.update(b, item), sampled, mask, delay, b + 1, words + out)
    }
}

/// Those of the first `n` lanes, in order, that are active and whose listeners hear their token,
/// `batch` being the lanes after they took it in.
pub open spec fn lanes_hearing(
    batch: Seq<ItemModel>,
    mask: Option<Seq<bool>>,
    delay: usize,
    n: nat,
) -> Seq<usize>
    decreases n,
{
    if n == 0 {
        seq![]
    } else {
        let before = lanes_hearing(batch, mask, delay, (n - 1) as nat);
        if lane_active(mask, n - 1) && batch[n - 1].takes_bias(delay) {
            before.push((n - 1) as usize)
        } else {
            before
        }
    }
}

/// The lanes that hear depend on those lanes alone.
proof fn lemma_hearing_prefix(
    a: Seq<ItemModel>,
    b: Seq<ItemModel>,
    mask: Option<Seq<bool>>,
    delay: usize,
    n: nat,
)
    requires
        forall|i: int| 0 <= i < n ==> #[trigger] a[i] == b[i],
    ensures
        lanes_hearing(a, mask, delay, n) == lanes_hearing(b, mask, delay, n),
    decreases n,
{
    if n > 0 {
        lemma_hearing_prefix(a, b, mask, delay, (n - 1) as nat);
        assert(a[n - 1] == b[n - 1]);
    }
}

/// The number of lanes that have both a state and a sampled token.
pub open spec fn lanes_sampled(batch: nat, sampled: nat) -> nat {
    if batch <= sampled {
        batch
    } else {
        sampled
    }
}

impl AsrParts {
    /// The state once the lanes took in their sampled tokens, and what they report.
    pub open spec fn finished(self, sampled: Seq<i64>, mask: Option<Seq<bool>>, delay: usize) -> (
        AsrParts,
        Result<Seq<WordModel>, Error>,
    ) {
        let n = lanes_sampled(self.batch.len(), sampled.len());
        if !mask_covers(mask, n) {
            (
                self,
                Err(Error::MaskLanes { lanes: mask->0.len() as usize, batch: n as usize }),
            )
        } else if self.some_full(mask, n) {
            (self, Err(Error::TooLarge))
        } else {
            let (batch, words) = lanes_heard(self.batch, sampled, mask, delay, 0, seq![]);
            (AsrParts { batch, ..self }, Ok(words))
        }
    }
}

impl AsrState {
    pub fn model_step_idx(&self) -> (r: usize)
        ensures
            r == self@.model_step_idx,
    {
        self.model_step_idx
    }

    fn any_boosted(&self) -> (r: bool)
        ensures
            r == self@.with_bias(),
    {
        let mut b: usize = 0;
        while b < self.batch.len()
            invariant
                b <= self.batch.len(),
                forall|i: int| 0 <= i < b ==> !(#[trigger] self@.batch[i]).boosted,
            decreases self.batch.len() - b,
        {
            if self.batch[b].with_text_bias() {
                assert(self@.batch[b as int].boosted);
                return true;
            }
            b += 1;
        }
        false
    }

    /// The biases on the text tokens of the next step, lane after lane and token by token; none
    /// where no lane has a listener. `lists` holds what the listener of each lane favours, of which
    /// the lanes that are past the delay take note. Tokens outside of the vocabulary are ignored.
    pub fn text_bias(&self, lists: &Vec<Vec<(u32, SingleBits)>>) -> (r: Option<Vec<SingleBits>>)
        ensures
            !self@.with_bias() ==> r is None,
            self@.with_bias() ==> (r matches Some(v) && v@ == self@.bias_rows(
                bias_lists(lists@),
                self.model.asr_delay_in_tokens,
                self.model.lm@.text_out_vocab_size as nat,
                self@.batch.len(),
            )),
    {
        if !self.any_boosted() {
            return None;
        }
        let delay: usize = self.model.asr_delay_in_tokens;
        let vocab: usize = self.model.lm.text_out_vocab_size();
        let ghost seqs = bias_lists(lists@);
        let nothing: Vec<(u32, SingleBits)> = Vec::new();
        let mut out: Vec<SingleBits> = Vec::new();
        let mut b: usize = 0;
        while b < self.batch.len()
            invariant
                b <= self.batch.len(),
                delay == self.model.asr_delay_in_tokens,
                vocab == self.model.lm@.text_out_vocab_size,
                seqs == bias_lists(lists@),
                nothing@.len() == 0,
                out@ == self@.bias_rows(seqs, delay, vocab as nat, b as nat),
            decreases self.batch.len() - b,
        {
            let item = &self.batch[b];
            let given = if b < lists.len() {
                lists[b].as_slice()
            } else {
                nothing.as_slice()
            };
            let list = item.text_biases(delay, given);
            let mut row = make_bias_row(&list, vocab);
            proof {
                assert(self@.batch[b as int] == item@);
                if b < lists.len() {
                    assert(seqs[b as int] == given@);
                }
                assert(list@ =~= self@.list_of_lane(seqs, delay, b as int));
            }
            out.append(&mut row);
            b += 1;
        }
        Some(out)
    }

    /// Runs the language model on a step. Where some lane has a listener, the biases of `text_bias`
    /// are expected as the input numbered `TEXT_BIAS_SLOT`.
    pub fn forward_step(&mut self, inputs: &StepInputs, mask: &StreamMask) -> (r: Result<
        StepOutputs,
        Error,
    >)
        requires
            old(self).wf(),
        ensures
            final(self).model == old(self).model,
            final(self).wf(),
            ({
                let (next, out) = old(self)@.forwarded(
                    old(self).model.lm@,
                    inputs.text_tokens@,
                    token_matrix(inputs.audio_ids@),
                    flags(*mask),
                );
                &&& final(self)@ == next
                &&& match (r, out) {
                    (Ok(o), Ok((heads, sampled))) => o.heads@ == heads && o.sampled == sampled,
                    (Err(a), Err(b)) => a == b,
                    _ => false,
                }
            }),
    {
        if self.model_step_idx == usize::MAX {
            return Err(Error::TooLarge);
        }
        let audio_ids = every_codebook(&inputs.audio_ids);
        let (text_logits, transformer_out) = self.lm.forward(
            Some(inputs.text_tokens.as_slice()),
            &audio_ids,
            mask,
            &self.condition,
        )?;
        self.model_step_idx += 1;

        let extra_heads = self.lm.extra_heads(&transformer_out)?;
        let heads = probabilities(&extra_heads)?;

        let (batch_size, _, vocab_size) = text_logits.dims3()?;
        let logits_2d = text_logits.reshape(Shape::D2(batch_size, vocab_size))?;
        let logits_2d = if self.any_boosted() {
            let vocab: usize = self.model.lm.text_out_vocab_size();
            let bias = Tensor::input(TEXT_BIAS_SLOT, Shape::D2(self.batch.len(), vocab))?;
            logits_2d.add(&bias)?
        } else {
            logits_2d
        };
        let sampled = gumbel_max(&logits_2d, &self.temperature)?;
        Ok(StepOutputs { heads, sampled })
    }

    fn check_room(&self, mask: &StreamMask, n: usize) -> (r: bool)
        requires
            n <= self@.batch.len(),
            mask_covers(flags(*mask), n as nat),
        ensures
            r == !self@.some_full(flags(*mask), n as nat),
    {
        let mut b: usize = 0;
        while b < n
            invariant
                b <= n <= self@.batch.len(),
                mask_covers(flags(*mask), n as nat),
                forall|i: int|
                    0 <= i < b ==> !((#[trigger] self@.batch[i]).step_idx == usize::MAX
                        && lane_active(flags(*mask), i)),
            decreases n - b,
        {
            if self.batch[b].step_idx == usize::MAX && is_active(mask, b) {
                assert(self@.batch[b as int].step_idx == usize::MAX);
                return false;
            }
            b += 1;
        }
        true
    }

    /// Takes in the text tokens that were sampled for a step, and returns what came of it along
    /// with the lanes whose listeners, where they have any, are to hear their token.
    pub fn finish_step(
        &mut self,
        inputs: StepInputs,
        sampled: &Vec<i64>,
        prs: Vec<Vec<SingleBits>>,
        mask: &StreamMask,
    ) -> (r: Result<(StepResult, Vec<usize>), Error>)
        ensures
            final(self).model == old(self).model,
            final(self).lm == old(self).lm,
            old(self).wf() ==> final(self).wf(),
            ({
                let m = flags(*mask);
                let delay = old(self).model.asr_delay_in_tokens;
                let n = lanes_sampled(old(self)@.batch.len(), sampled@.len());
                let (next, out) = old(self)@.finished(sampled@, m, delay);
                &&& final(self)@ == next
                &&& match (r, out) {
                    (Ok((result, heard)), Ok(words)) => {
                        &&& word_models(result.words@) == words
                        &&& result.prs == prs
                        &&& result.audio_tokens == inputs.audio_tokens
                        &&& result.text_tokens == inputs.text_tokens
                        &&& heard@ == lanes_hearing(next.batch, m, delay, n)
                    },
                    (Err(a), Err(b)) => a == b,
                    _ => false,
                }
            }),
    {
        let n: usize = if self.batch.len() <= sampled.len() {
            self.batch.len()
        } else {
            sampled.len()
        };
        check_mask(mask, n)?;
        if !self.check_room(mask, n) {
            return Err(Error::TooLarge);
        }
        let delay: usize = self.model.asr_delay_in_tokens;
        let ghost m = flags(*mask);
        let ghost before = self@.batch;
        let ghost all = lanes_heard(before, sampled@, m, delay, 0, seq![]);
        let mut words: Vec<AsrWord> = Vec::new();
        let mut heard: Vec<usize> = Vec::new();
        let mut b: usize = 0;
        assert(word_models(words@) =~= seq![]);
        while b < n
            invariant
                b <= n,
                n == lanes_sampled(old(self)@.batch.len(), sampled@.len()),
                m == flags(*mask),
                mask_covers(m, n as nat),
                before == old(self)@.batch,
                !old(self)@.some_full(m, n as nat),
                delay == old(self).model.asr_delay_in_tokens,
                self.model == old(self).model,
                self.lm == old(self).lm,
                self@ == (AsrParts { batch: self@.batch, ..old(self)@ }),
                self@.batch.len() == before.len(),
                forall|i: int| b <= i < before.len() ==> (#[trigger] self@.batch[i]) == before[i],
                forall|i: int|
                    0 <= i < before.len() ==> (#[trigger] self@.batch[i]).batch_idx
                        == before[i].batch_idx,
                all == lanes_heard(before, sampled@, m, delay, 0, seq![]),
                all == lanes_heard(
                    self@.batch,
                    sampled@,
                    m,
                    delay,
                    b as int,
                    word_models(words@),
                ),
                heard@ == lanes_hearing(self@.batch, m, delay, b as nat),
            decreases n - b,
        {
            let ghost was = self@.batch;
            if is_active(mask, b) {
                #[verifier::truncate]
                let token: u32 = sampled[b] as u32;
                proof {
                    assert(self@.batch[b as int] == before[b as int]);
                    assert(before[b as int].step_idx != usize::MAX);
                }
                let ghost said = word_models(words@);
                let hears = self.batch[b].on_text_token(token, delay, &mut words);
                proof {
                    let (item, out) = was[b as int].heard(token, delay);
                    assert(self@.batch =~= was.update(b as int, item));
                    assert(word_models(words@) =~= said + out);
                }
                if hears {
                    heard.push(b);
                }
                proof {
                    lemma_hearing_prefix(was, self@.batch, m, delay, b as nat);
                }
            }
            b += 1;
        }
        let StepInputs { audio_tokens, audio_ids: _, text_tokens } = inputs;
        Ok((StepResult { words, prs, audio_tokens, text_tokens }, heard))
    }
}

impl AsrParts {
    /// The state once lane `batch_idx` starts anew, and whether that succeeded. A condition of its
    /// own takes the place of the default one, where the model has conditions.
    pub open spec fn lane_reset(
        self,
        model: Asr,
        batch_idx: usize,
        temp: Option<SingleBits>,
        cond: Option<Tensor>,
        boosted: bool,
    ) -> (AsrParts, Result<(), Error>) {
        if batch_idx >= self.batch.len() {
            (self, Err(Error::BatchIndex { batch_idx }))
        } else {
            let batch = self.batch.update(
                batch_idx as int,
                ItemModel::fresh(self.batch[batch_idx as int].batch_idx, 0, boosted),
            );
            let (lm, r) = self.lm.lane_reset(batch_idx);
            let s1 = AsrParts { batch, lm, ..self };
            let t = match temp {
                Some(t) => t,
                None => model.default_temperature,
            };
            let temperature = slice_set_of(
                Ok(self.temperature),
                node(Shape::D2(1, 1), Op::Full(t)),
                0,
                batch_idx,
            );
            match (r, temperature) {
                (Err(e), _) => (s1, Err(e)),
                (Ok(_), Err(e)) => (s1, Err(e)),
                (Ok(_), Ok(temperature)) => {
                    let s2 = AsrParts { temperature, ..s1 };
                    let own = match cond {
                        Some(c) => Some(c),
                        None => model.default_condition,
                    };
                    match (self.condition, own) {
                        (Some(all), Some(c)) => match slice_set_of(Ok(all), Ok(c), 0, batch_idx) {
                            Err(e) => (s2, Err(e)),
                            Ok(all) => (AsrParts { condition: Some(all), ..s2 }, Ok(())),
                        },
                        _ => (s2, Ok(())),
                    }
                },
            }
        }
    }
}

impl AsrState {
    /// Reports the word that the tokens of a lane so far make.
    pub fn flush_tokens(&mut self, batch_idx: usize) -> (r: Result<Option<AsrWord>, Error>)
        ensures
            final(self).model == old(self).model,
            final(self).lm == old(self).lm,
            old(self).wf() ==> final(self).wf(),
            if batch_idx >= old(self)@.batch.len() {
                &&& final(self)@ == old(self)@
                &&& r == Err::<Option<AsrWord>, Error>(Error::BatchIndex { batch_idx })
            } else {
                let item = old(self)@.batch[batch_idx as int];
                &&& final(self)@ == (AsrParts {
                    batch: old(self)@.batch.update(batch_idx as int, item.flushed()),
                    ..old(self)@
                })
                &&& r matches Ok(w)
                &&& (match w {
                    Some(w) => Some(w@),
                    None => None,
                }) == item.pending_word()
            },
    {
        if batch_idx >= self.batch.len() {
            return Err(Error::BatchIndex { batch_idx });
        }
        let ghost before = self@.batch;
        let word = self.batch[batch_idx].flush_tokens();
        proof {
            assert(self@.batch =~= before.update(
                batch_idx as int,
                before[batch_idx as int].flushed(),
            ));
        }
        Ok(word)
    }

    /// Starts all lanes anew, without listeners. Their temperatures and conditions stay.
    pub fn reset_state(&mut self) -> (r: Result<(), Error>)
        requires
            old(self).wf(),
        ensures
            final(self).model == old(self).model,
            final(self).wf(),
            ({
                let t = old(self).model.lm@.transformer;
                let n = old(self)@.batch.len();
                let next = AsrParts {
                    batch: Seq::new(
                        n,
                        |b: int| ItemModel::fresh(old(self)@.batch[b].batch_idx, 0, false),
                    ),
                    model_step_idx: 0,
                    ..old(self)@
                };
                match StateModel::fresh(
                    n as usize,
                    t.num_kv,
                    t.context,
                    t.head_dim,
                    t.layers.len(),
                ) {
                    Err(e) => final(self)@ == next && r == Err::<(), Error>(e),
                    Ok(lm) => final(self)@ == (AsrParts { lm, ..next }) && r == Ok::<(), Error>(
                        (),
                    ),
                }
            }),
    {
        let mut b: usize = 0;
        while b < self.batch.len()
            invariant
                b <= self.batch.len(),
                self.model == old(self).model,
                self.lm == old(self).lm,
                old(self).wf(),
                self@ == (AsrParts { batch: self@.batch, ..old(self)@ }),
                self@.batch.len() == old(self)@.batch.len(),
                forall|i: int|
                    0 <= i < b ==> (#[trigger] self@.batch[i]) == ItemModel::fresh(
                        old(self)@.batch[i].batch_idx,
                        0,
                        false,
                    ),
                forall|i: int|
                    b <= i < self.batch.len() ==> (#[trigger] self@.batch[i]) == old(
                        self,
                    )@.batch[i],
            decreases self.batch.len() - b,
        {
            let ghost before = self@.batch;
            assert(before[b as int] == old(self)@.batch[b as int]);
            self.batch[b].reset(false);
            proof {
                assert(self@.batch =~= before.update(
                    b as int,
                    ItemModel::fresh(before[b as int].batch_idx, 0, false),
                ));
            }
            b += 1;
        }
        self.model_step_idx = 0;
        proof {
            assert(self@.batch =~= Seq::new(
                old(self)@.batch.len(),
                |b: int| ItemModel::fresh(old(self)@.batch[b].batch_idx, 0, false),
            ));
        }
        self.lm = self.model.lm.init_state(self.batch.len())?;
        Ok(())
    }

    /// Starts lane `batch_idx` anew, at the given temperature and condition or the default ones.
    pub fn reset_batch_idx(
        &mut self,
        batch_idx: usize,
        temp: Option<SingleBits>,
        cond: &Option<Tensor>,
        boosted: bool,
    ) -> (r: Result<(), Error>)
        requires
            old(self).wf(),
        ensures
            final(self).model == old(self).model,
            final(self).wf(),
            (final(self)@, r) == old(self)@.lane_reset(
                old(self).model,
                batch_idx,
                temp,
                *cond,
                boosted,
            ),
    {
        if batch_idx >= self.batch.len() {
            return Err(Error::BatchIndex { batch_idx });
        }
        let ghost before = self@.batch;
        self.batch[batch_idx].reset(boosted);
        proof {
            assert(self@.batch =~= before.update(
                batch_idx as int,
                ItemModel::fresh(before[batch_idx as int].batch_idx, 0, boosted),
            ));
        }
        self.lm.reset_batch_idx(batch_idx)?;
        let temp: SingleBits = match temp {
            Some(t) => t,
            None => self.model.default_temperature,
        };
        let temp = Tensor::full(temp, Shape::D2(1, 1))?;
        self.temperature = self.temperature.slice_set(&temp, 0, batch_idx)?;
        let own = match cond {
            None => clone_option(&self.model.default_condition),
            Some(c) => Some(c.clone()),
        };
        if let Some(c) = own {
            let all = match &self.condition {
                None => {
                    return Ok(());
                },
                Some(all) => all.slice_set(&c, 0, batch_idx)?,
            };
            self.condition = Some(all);
        }
        Ok(())
    }

    /// Marks the present step of a lane as the end of its audio.
    pub fn explicit_audio_eos_for_batch_idx(&mut self, batch_idx: usize) -> (r: Result<(), Error>)
        ensures
            final(self).model == old(self).model,
            final(self).lm == old(self).lm,
            old(self).wf() ==> final(self).wf(),
            if batch_idx >= old(self)@.batch.len() {
                &&& final(self)@ == old(self)@
                &&& r == Err::<(), Error>(Error::BatchIndex { batch_idx })
            } else {
                let item = old(self)@.batch[batch_idx as int];
                &&& final(self)@ == (AsrParts {
                    batch: old(self)@.batch.update(
                        batch_idx as int,
                        ItemModel { use_audio_pad_on_step_idx: Some(item.step_idx), ..item },
                    ),
                    ..old(self)@
                })
                &&& r == Ok::<(), Error>(())
            },
    {
        if batch_idx >= self.batch.len() {
            return Err(Error::BatchIndex { batch_idx });
        }
        let ghost before = self@.batch;
        self.batch[batch_idx].on_explicit_audio_eos();
        proof {
            let item = before[batch_idx as int];
            assert(self@.batch =~= before.update(
                batch_idx as int,
                ItemModel { use_audio_pad_on_step_idx: Some(item.step_idx), ..item },
            ));
        }
        Ok(())
    }
}

} // verus!
