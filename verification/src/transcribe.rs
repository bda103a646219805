//! Transcription of a waveform, window by window.
//!
//! The waveform is cut into overlapping windows. Each window is turned into a
//! spectrogram, encoded, and decoded by beam search from a fixed prompt; the
//! tokens of the window are stitched to the transcript so far, and the
//! transcript is decoded to text. The model, the tokenizer and the feature
//! extractor are collaborators behind traits: nothing is assumed of what they
//! return, and any failure of theirs ends the transcription.

use crate::beam::all_finished;
use crate::beam::answers;
use crate::beam::beam_done;
use crate::beam::beam_open;
use crate::beam::beam_search;
use crate::beam::continuation_views;
use crate::beam::descends;
use crate::beam::fails_within;
use crate::beam::finish_agrees;
use crate::beam::found_by;
use crate::beam::next_frontier;
use crate::beam::reaches;
use crate::beam::best_sequence;
use crate::beam::follows;
use crate::beam::has_ancestor;
use crate::beam::Beam;
use crate::beam::BeamNode;
use crate::beam::beam_views;
use crate::mask::bias_of;
use crate::mask::masked_scores;
use crate::mask::SpecialTokenMask;
use crate::score::NEG_INFINITY;
use crate::stitch::stitch;
use crate::stitch::stitched;
use crate::window::overlap_samples;
use crate::window::window_shift;
use crate::window::AudioWindower;
use crate::window::Windowing;
use vstd::prelude::*;

verus! {

/// The frames of silence that follow every window's spectrogram. They cue
/// the model to end the utterance; with too few of them it tends to repeat
/// what it has said.
pub const PADDING: usize = 200;

/// The width of the search frontier.
pub const BEAM_SIZE: usize = 5;

/// The most tokens that are decoded for one window.
pub const MAX_DEPTH: usize = 30;

/// The number of offsets at which a window's tokens are laid over the
/// transcript.
pub const MAX_N_OFFSETS: usize = 40;

/// The number of agreeing tokens from which two sequences count as
/// overlapping.
pub const MIN_N_OVERLAPS: usize = 3;

/// The ways in which a transcription fails.
#[derive(Clone, Copy, Debug)]
pub enum TranscribeError {
    /// The audio is not mono at the sample rate that the features need.
    InvalidAudioFormat,
    /// The tokenizer has no token for the language.
    UnknownLanguage,
    /// The tokenizer could not name a special token or decode a sequence.
    TokenizerError,
    /// The model failed, or its answer has the wrong shape.
    ModelInferenceError,
}

/// The control tokens that a transcription asks the tokenizer for.
pub enum SpecialToken<L> {
    StartOfTranscript,
    Language(L),
    Transcribe,
    NoTimestamps,
    EndOfText,
}

/// The vocabulary.
pub trait Tokenizer {
    type Language;

    type Error;

    /// The token of a control token.
    fn special_token(&self, kind: SpecialToken<Self::Language>) -> Result<usize, Self::Error>;

    /// Whether a token is a control token.
    fn is_special(&self, token: usize) -> bool;

    /// The number of tokens.
    fn vocab_size(&self) -> usize;

    /// The text of a token sequence.
    fn decode(&self, tokens: &[usize], skip_special: bool) -> Result<String, Self::Error>;
}

/// Turns samples into spectrograms, and shapes spectrograms.
pub trait FeatureExtractor {
    type Sample;

    type Spectrogram;

    /// The most samples whose spectrogram has `n_frames` frames.
    fn max_waveform_samples(&self, n_frames: usize) -> usize;

    /// The spectrogram of a window.
    fn to_spectrogram(
        &self,
        window: Vec<Self::Sample>,
        sample_rate: usize,
        n_mels: usize,
    ) -> Self::Spectrogram;

    /// The number of frames of a spectrogram.
    fn frames(&self, mel: &Self::Spectrogram) -> usize;

    /// The first `keep` frames of a spectrogram, followed by `padding`
    /// frames of silence.
    fn clip_and_pad(&self, mel: Self::Spectrogram, keep: usize, padding: usize) -> Self::Spectrogram;
}

/// The sequence-to-sequence model. Scores are in the fixed point of
/// [`crate::score`].
pub trait Model {
    type Spectrogram;

    type Encoding;

    type Error;

    /// The most frames that the encoder takes.
    fn encoder_ctx_size(&self) -> usize;

    /// The number of mel channels that the encoder takes.
    fn encoder_mel_size(&self) -> usize;

    /// The most tokens that the decoder takes.
    fn decoder_ctx_size(&self) -> usize;

    /// The encoder's representation of a spectrogram.
    fn forward_encoder(&self, mel: Self::Spectrogram) -> Result<Self::Encoding, Self::Error>;

    /// The raw scores of every vocabulary entry at every position of every
    /// sequence of the batch. The sequences of a batch are of one length.
    fn forward_decoder(
        &self,
        tokens: &[Vec<usize>],
        encoder_output: &Self::Encoding,
    ) -> Result<Vec<Vec<Vec<i64>>>, Self::Error>;

    /// The log-probabilities that rows of scores stand for, row by row.
    fn log_softmax(&self, rows: &[Vec<i64>]) -> Vec<Vec<i64>>;
}

/// The control tokens of one transcription.
#[derive(Clone, Copy, Debug)]
pub struct Prompt {
    pub start: usize,
    pub language: usize,
    pub task: usize,
    pub no_timestamps: usize,
    pub end: usize,
}

impl Prompt {
    /// The tokens from which every window's decoding begins.
    pub open spec fn tokens(self) -> Seq<usize> {
        seq![self.start, self.language, self.task, self.no_timestamps]
    }
}

/// What the five lookups amount to: the prompt if all succeeded; else
/// `UnknownLanguage` if the first that failed is the language's, and
/// `TokenizerError` if it is another.
pub open spec fn prompt_of<E>(
    start: Result<usize, E>,
    language: Result<usize, E>,
    task: Result<usize, E>,
    no_timestamps: Result<usize, E>,
    end: Result<usize, E>,
) -> Result<Prompt, TranscribeError> {
    if start is Err {
        Err(TranscribeError::TokenizerError)
    } else if language is Err {
        Err(TranscribeError::UnknownLanguage)
    } else if task is Err || no_timestamps is Err || end is Err {
        Err(TranscribeError::TokenizerError)
    } else {
        Ok(
            Prompt {
                start: start->Ok_0,
                language: language->Ok_0,
                task: task->Ok_0,
                no_timestamps: no_timestamps->Ok_0,
                end: end->Ok_0,
            },
        )
    }
}

/// Makes the prompt from what the tokenizer answered to the five lookups, in
/// the order in which they are made.
pub fn prompt_from<E>(
    start: Result<usize, E>,
    language: Result<usize, E>,
    task: Result<usize, E>,
    no_timestamps: Result<usize, E>,
    end: Result<usize, E>,
) -> (r: Result<Prompt, TranscribeError>)
    ensures
        r == prompt_of(start, language, task, no_timestamps, end),
{
    let start = match start {
        Ok(token) => token,
        Err(_) => {
            return Err(TranscribeError::TokenizerError);
        },
    };
    let language = match language {
        Ok(token) => token,
        Err(_) => {
            return Err(TranscribeError::UnknownLanguage);
        },
    };
    let task = match task {
        Ok(token) => token,
        Err(_) => {
            return Err(TranscribeError::TokenizerError);
        },
    };
    let no_timestamps = match no_timestamps {
        Ok(token) => token,
        Err(_) => {
            return Err(TranscribeError::TokenizerError);
        },
    };
    let end = match end {
        Ok(token) => token,
        Err(_) => {
            return Err(TranscribeError::TokenizerError);
        },
    };
    Ok(Prompt { start, language, task, no_timestamps, end })
}

/// The frames that the encoder's context of `n_ctx_max` leaves for a
/// spectrogram beside `padding` frames of silence. It fails with
/// `ModelInferenceError` exactly where the context cannot hold the padding.
pub fn context_frames(n_ctx_max: usize, padding: usize) -> (r: Result<usize, TranscribeError>)
    ensures
        r is Ok <==> padding <= n_ctx_max,
        r matches Ok(frames) ==> frames == n_ctx_max - padding,
        r matches Err(e) ==> e == TranscribeError::ModelInferenceError,
{
    if padding > n_ctx_max {
        Err(TranscribeError::ModelInferenceError)
    } else {
        Ok(n_ctx_max - padding)
    }
}

/// The number of frames of a spectrogram of `n_ctx` frames that are kept
/// where `room` frames fit.
pub open spec fn frames_kept(n_ctx: usize, room: usize) -> usize {
    if n_ctx <= room {
        n_ctx
    } else {
        room
    }
}

/// The frames of a spectrogram of `n_ctx` frames that are kept where `room`
/// frames fit, and whether any are cut off.
pub fn kept_frames(n_ctx: usize, room: usize) -> (r: (usize, bool))
    ensures
        r.0 == frames_kept(n_ctx, room),
        r.1 == (n_ctx > room),
{
    if n_ctx > room {
        (room, true)
    } else {
        (n_ctx, false)
    }
}

/// The beam from which a window's decoding begins: the prompt, with a score
/// of zero.
pub fn initial_beam(prompt: &Prompt) -> (beam: BeamNode<usize>)
    ensures
        beam@ == (Beam { seq: prompt.tokens(), log_prob: 0 }),
{
    let mut seq: Vec<usize> = Vec::with_capacity(4);
    seq.push(prompt.start);
    seq.push(prompt.language);
    seq.push(prompt.task);
    seq.push(prompt.no_timestamps);
    assert(seq@ =~= prompt.tokens());
    BeamNode { seq, log_prob: 0 }
}

/// Whether a sequence ends in the token `end`.
pub fn ends_with(tokens: &[usize], end: usize) -> (b: bool)
    ensures
        b == (tokens@.len() > 0 && tokens@.last() == end),
{
    let n = tokens.len();
    n > 0 && tokens[n - 1] == end
}

/// The length of the longest sequence among the first `n` beams.
pub open spec fn longest(beams: Seq<Beam<usize>>, n: int) -> nat
    decreases n,
{
    if n <= 0 {
        0
    } else if beams[n - 1].seq.len() > longest(beams, n - 1) {
        beams[n - 1].seq.len()
    } else {
        longest(beams, n - 1)
    }
}

/// A sequence, filled up with the token 0 to `width` tokens.
pub open spec fn padded(seq: Seq<usize>, width: nat) -> Seq<usize> {
    Seq::new(
        width,
        |j: int|
            if j < seq.len() {
                seq[j]
            } else {
                0usize
            },
    )
}

/// The continuations that a row of log-probabilities offers: every
/// vocabulary entry in turn, with its log-probability.
pub open spec fn continuations(log_probs: Seq<i64>) -> Seq<(usize, i64)> {
    Seq::new(log_probs.len(), |t: int| (t as usize, log_probs[t]))
}

/// Lists the continuations that a row of log-probabilities offers.
pub fn continuations_of(log_probs: &[i64]) -> (offered: Vec<(usize, i64)>)
    ensures
        offered@ == continuations(log_probs@),
{
    let mut offered: Vec<(usize, i64)> = Vec::with_capacity(log_probs.len());
    let mut t: usize = 0;
    while t < log_probs.len()
        invariant
            t <= log_probs.len(),
            offered@ == continuations(log_probs@).take(t as int),
        decreases log_probs.len() - t,
    {
        offered.push((t, log_probs[t]));
        t = t + 1;
        assert(offered@ =~= continuations(log_probs@).take(t as int));
    }
    assert(continuations(log_probs@).take(log_probs.len() as int) =~= continuations(log_probs@));
    offered
}

/// The token sequences of the beams as one batch: each filled up with the
/// token 0 to the length of the longest.
pub fn token_batch(beams: &[BeamNode<usize>]) -> (batch: Vec<Vec<usize>>)
    ensures
        batch@.len() == beams@.len(),
        forall|i: int|
            0 <= i < beams@.len() ==> (#[trigger] batch@[i])@ == padded(
                beams@[i]@.seq,
                longest(crate::beam::beam_views(beams@), beams@.len() as int),
            ),
{
    let ghost all = crate::beam::beam_views(beams@);
    let mut width: usize = 0;
    let mut i: usize = 0;
    while i < beams.len()
        invariant
            i <= beams.len(),
            all == crate::beam::beam_views(beams@),
            width == longest(all, i as int),
        decreases beams.len() - i,
    {
        if beams[i].seq.len() > width {
            width = beams[i].seq.len();
        }
        i = i + 1;
    }
    let mut batch: Vec<Vec<usize>> = Vec::with_capacity(beams.len());
    let mut b: usize = 0;
    while b < beams.len()
        invariant
            b <= beams.len(),
            batch@.len() == b,
            forall|i: int|
                0 <= i < b ==> (#[trigger] batch@[i])@ == padded(beams@[i]@.seq, width as nat),
        decreases beams.len() - b,
    {
        let seq = &beams[b].seq;
        let mut row: Vec<usize> = Vec::with_capacity(width);
        let mut j: usize = 0;
        while j < width
            invariant
                j <= width,
                row@.len() == j,
                forall|c: int|
                    0 <= c < j ==> #[trigger] row@[c] == if c < seq@.len() {
                        seq@[c]
                    } else {
                        0usize
                    },
            decreases width - j,
        {
            row.push(if j < seq.len() {
                seq[j]
            } else {
                0
            });
            j = j + 1;
        }
        assert(row@ =~= padded(beams@[b as int]@.seq, width as nat));
        batch.push(row);
        b = b + 1;
    }
    batch
}


/// What the step function of a window's search returns on success: for every
/// beam one list that offers each entry of the vocabulary in turn.
pub open spec fn offers_vocabulary(lists: Seq<Vec<(usize, i64)>>, n_beams: nat, vocab: nat) -> bool {
    &&& lists.len() == n_beams
    &&& forall|i: int| 0 <= i < lists.len() ==> (#[trigger] lists[i])@.len() == vocab
    &&& forall|i: int, t: int|
        0 <= i < lists.len() && 0 <= t < vocab ==> (#[trigger] lists[i]@[t]).0 == t
}

/// The decoder's answer for one sequence of `seq_len` tokens has a row at the
/// sequence's last token, with one score for every entry of a vocabulary of
/// `vocab` tokens.
pub open spec fn row_fits(scores: Seq<Vec<i64>>, seq_len: nat, vocab: nat) -> bool {
    0 < seq_len <= scores.len() && scores[seq_len - 1]@.len() == vocab
}

/// From the decoder's answer for one sequence of `seq_len` tokens, the raw
/// scores of its next token, masked. It fails with `ModelInferenceError`
/// exactly where the answer has no row at the sequence's last token, or that
/// row has not one score for every entry of the mask.
pub fn masked_row(scores: &[Vec<i64>], mask: &SpecialTokenMask, seq_len: usize) -> (r: Result<
    Vec<i64>,
    TranscribeError,
>)
    ensures
        r is Ok <==> row_fits(scores@, seq_len as nat, mask@.len()),
        r matches Ok(row) ==> row@ == masked_scores(
            scores@[seq_len - 1]@,
            mask@,
            seq_len as nat,
        ),
        r matches Err(e) ==> e == TranscribeError::ModelInferenceError,
{
    if seq_len == 0 || scores.len() < seq_len {
        return Err(TranscribeError::ModelInferenceError);
    }
    let row = &scores[seq_len - 1];
    if row.len() != mask.len() {
        return Err(TranscribeError::ModelInferenceError);
    }
    Ok(mask.apply(row.as_slice(), seq_len))
}

/// The decoder answered for every beam, and each answer has, at its beam's
/// last token, one score for every entry of a vocabulary of `vocab` tokens.
pub open spec fn answer_fits(
    scores: Seq<Vec<Vec<i64>>>,
    beams: Seq<BeamNode<usize>>,
    vocab: nat,
) -> bool {
    &&& scores.len() == beams.len()
    &&& forall|i: int|
        0 <= i < beams.len() ==> row_fits((#[trigger] scores[i])@, beams[i]@.seq.len(), vocab)
}

/// `rows` holds, for each beam in turn, the masked scores of its next token:
/// the row of the decoder's answer at the beam's last token, with the mask
/// added while the beam is short.
pub open spec fn rows_of(
    rows: Seq<Vec<i64>>,
    scores: Seq<Vec<Vec<i64>>>,
    mask: Seq<i64>,
    beams: Seq<BeamNode<usize>>,
) -> bool {
    &&& rows.len() == beams.len()
    &&& forall|i: int|
        0 <= i < beams.len() ==> (#[trigger] rows[i])@ == masked_scores(
            scores[i]@[beams[i]@.seq.len() - 1]@,
            mask,
            beams[i]@.seq.len(),
        )
}

/// From the decoder's answer for a batch of beams, the masked scores of each
/// beam's next token ([`masked_row`]), in the order of the beams. It fails
/// with `ModelInferenceError` exactly where the answer does not fit the
/// beams and the mask.
pub fn masked_rows(scores: &[Vec<Vec<i64>>], mask: &SpecialTokenMask, beams: &[BeamNode<usize>]) -> (r:
    Result<Vec<Vec<i64>>, TranscribeError>)
    ensures
        r is Ok <==> answer_fits(scores@, beams@, mask@.len()),
        r matches Ok(rows) ==> rows_of(rows@, scores@, mask@, beams@),
        r matches Err(e) ==> e == TranscribeError::ModelInferenceError,
{
    if scores.len() != beams.len() {
        return Err(TranscribeError::ModelInferenceError);
    }
    let mut rows: Vec<Vec<i64>> = Vec::with_capacity(beams.len());
    let mut i: usize = 0;
    while i < beams.len()
        invariant
            i <= beams.len(),
            scores@.len() == beams@.len(),
            rows@.len() == i,
            forall|a: int|
                0 <= a < i ==> row_fits((#[trigger] scores@[a])@, beams@[a]@.seq.len(), mask@.len()),
            forall|a: int|
                0 <= a < i ==> (#[trigger] rows@[a])@ == masked_scores(
                    scores@[a]@[beams@[a]@.seq.len() - 1]@,
                    mask@,
                    beams@[a]@.seq.len(),
                ),
        decreases beams.len() - i,
    {
        let row = match masked_row(scores[i].as_slice(), mask, beams[i].seq.len()) {
            Ok(row) => row,
            Err(e) => {
                return Err(e);
            },
        };
        rows.push(row);
        i = i + 1;
    }
    Ok(rows)
}

/// From the log-probabilities that the model gave for a row, the
/// continuations offered. It fails with `ModelInferenceError` exactly where
/// there is not one log-probability for every entry of a vocabulary of
/// `vocab` tokens.
pub fn offered_from(log_probs: &[i64], vocab: usize) -> (r: Result<
    Vec<(usize, i64)>,
    TranscribeError,
>)
    ensures
        r is Ok <==> log_probs@.len() == vocab,
        r matches Ok(offered) ==> offered@ == continuations(log_probs@),
        r matches Err(e) ==> e == TranscribeError::ModelInferenceError,
{
    if log_probs.len() != vocab {
        return Err(TranscribeError::ModelInferenceError);
    }
    Ok(continuations_of(log_probs))
}

/// The model returned log-probabilities for `n_beams` rows, one for every
/// entry of a vocabulary of `vocab` tokens in each.
pub open spec fn log_probs_fit(log_probs: Seq<Vec<i64>>, n_beams: nat, vocab: nat) -> bool {
    &&& log_probs.len() == n_beams
    &&& forall|i: int| 0 <= i < log_probs.len() ==> (#[trigger] log_probs[i])@.len() == vocab
}

/// `lists` offers, for each row of log-probabilities in turn, every entry of
/// the vocabulary with its log-probability.
pub open spec fn offered_all(log_probs: Seq<Vec<i64>>, lists: Seq<Vec<(usize, i64)>>) -> bool {
    &&& lists.len() == log_probs.len()
    &&& forall|i: int|
        0 <= i < log_probs.len() ==> (#[trigger] lists[i])@ == continuations(log_probs[i]@)
}

/// From the log-probabilities that the model gave for the rows of a batch,
/// the continuations offered to each beam ([`offered_from`]). It fails with
/// `ModelInferenceError` exactly where the log-probabilities do not fit
/// `n_beams` beams and a vocabulary of `vocab` tokens.
pub fn offered_lists(log_probs: &[Vec<i64>], n_beams: usize, vocab: usize) -> (r: Result<
    Vec<Vec<(usize, i64)>>,
    TranscribeError,
>)
    ensures
        r is Ok <==> log_probs_fit(log_probs@, n_beams as nat, vocab as nat),
        r matches Ok(lists) ==> offered_all(log_probs@, lists@),
        r matches Err(e) ==> e == TranscribeError::ModelInferenceError,
{
    if log_probs.len() != n_beams {
        return Err(TranscribeError::ModelInferenceError);
    }
    let mut lists: Vec<Vec<(usize, i64)>> = Vec::with_capacity(n_beams);
    let mut i: usize = 0;
    while i < log_probs.len()
        invariant
            i <= log_probs.len(),
            lists@.len() == i,
            forall|a: int| 0 <= a < i ==> (#[trigger] log_probs@[a])@.len() == vocab,
            forall|a: int|
                0 <= a < i ==> (#[trigger] lists@[a])@ == continuations(log_probs@[a]@),
        decreases log_probs.len() - i,
    {
        let offered = match offered_from(log_probs[i].as_slice(), vocab) {
            Ok(offered) => offered,
            Err(e) => {
                return Err(e);
            },
        };
        lists.push(offered);
        i = i + 1;
    }
    Ok(lists)
}

/// `batch` holds the token sequences of `beams`, each filled up with the
/// token 0 to the length of the longest.
pub open spec fn batch_of(batch: Seq<Vec<usize>>, beams: Seq<BeamNode<usize>>) -> bool {
    &&& batch.len() == beams.len()
    &&& forall|i: int|
        0 <= i < beams.len() ==> (#[trigger] batch[i])@ == padded(
            beams[i]@.seq,
            longest(beam_views(beams), beams.len() as int),
        )
}

/// `log_probs` has a row for every row of `rows`, each as long as its row.
pub open spec fn same_shape(log_probs: Seq<Vec<i64>>, rows: Seq<Vec<i64>>) -> bool {
    &&& log_probs.len() == rows.len()
    &&& forall|i: int| 0 <= i < rows.len() ==> (#[trigger] log_probs[i])@.len() == rows[i]@.len()
}

/// The model scores `beams` without fail: whenever it is asked to decode
/// their batch it answers, and the answer fits the beams and a vocabulary of
/// `vocab` tokens; and whenever it normalises rows it returns as many
/// log-probabilities as it was given scores, row by row.
pub open spec fn scores_well<M: Model>(
    whisper: &M,
    encoder_output: &M::Encoding,
    vocab: nat,
    beams: Seq<BeamNode<usize>>,
) -> bool {
    &&& forall|batch: &[Vec<usize>], r: Result<Vec<Vec<Vec<i64>>>, M::Error>| #[trigger]
        call_ensures(M::forward_decoder, (whisper, batch, encoder_output), r) && batch_of(
            batch@,
            beams,
        ) ==> r is Ok && answer_fits(r->Ok_0@, beams, vocab)
    &&& forall|rows: &[Vec<i64>], log_probs: Vec<Vec<i64>>| #[trigger]
        call_ensures(M::log_softmax, (whisper, rows), log_probs) ==> same_shape(
            log_probs@,
            rows@,
        )
}

/// `lists` is what the model's answers give for `beams`: the beams went to
/// the decoder as one batch, each filled up with the token 0 to the length of
/// the longest; the decoder's answer fits them; the masked rows at the beams'
/// last tokens ([`rows_of`]) went to the model to be normalised, all at once;
/// and `lists` offers every entry of the vocabulary to each beam with the
/// log-probability that came back for it.
pub open spec fn scored_by<M: Model>(
    whisper: &M,
    encoder_output: &M::Encoding,
    mask: Seq<i64>,
    beams: Seq<BeamNode<usize>>,
    lists: Seq<Vec<(usize, i64)>>,
) -> bool {
    exists|
        batch: &[Vec<usize>],
        scores: Vec<Vec<Vec<i64>>>,
        rows: &[Vec<i64>],
        log_probs: Vec<Vec<i64>>,
    |
        #![trigger
            call_ensures(
                M::forward_decoder,
                (whisper, batch, encoder_output),
                Result::<Vec<Vec<Vec<i64>>>, M::Error>::Ok(scores),
            ),
            call_ensures(M::log_softmax, (whisper, rows), log_probs)]
        call_ensures(
            M::forward_decoder,
            (whisper, batch, encoder_output),
            Result::<Vec<Vec<Vec<i64>>>, M::Error>::Ok(scores),
        ) && batch_of(batch@, beams) && answer_fits(scores@, beams, mask.len()) && rows_of(
            rows@,
            scores@,
            mask,
            beams,
        ) && call_ensures(M::log_softmax, (whisper, rows), log_probs) && log_probs_fit(
            log_probs@,
            beams.len(),
            mask.len(),
        ) && offered_all(log_probs@, lists)
}

/// The step function of a window's search: scores the next token of every
/// beam. The beams go to the decoder as one batch. The raw scores at each
/// beam's last token are masked ([`masked_rows`]), normalised by the model in
/// one call, and offered as continuations, one for every entry of the
/// vocabulary ([`offered_lists`]).
///
/// It fails with `ModelInferenceError`, and only with that: where the
/// decoder fails, and where [`masked_rows`] or [`offered_lists`] fails. It
/// succeeds for a model that scores the beams without fail
/// ([`scores_well`]), and what it returns is then, as always, what the
/// model's answers give ([`scored_by`]).
pub fn score_beams<M: Model>(
    whisper: &M,
    encoder_output: &M::Encoding,
    mask: &SpecialTokenMask,
    beams: &[BeamNode<usize>],
) -> (r: Result<Vec<Vec<(usize, i64)>>, TranscribeError>)
    ensures
        r matches Ok(lists) ==> scored_by(whisper, encoder_output, mask@, beams@, lists@),
        r matches Ok(lists) ==> offers_vocabulary(lists@, beams@.len(), mask@.len()),
        r matches Err(e) ==> e == TranscribeError::ModelInferenceError,
        scores_well(whisper, encoder_output, mask@.len(), beams@) ==> r is Ok,
{
    let batch = token_batch(beams);
    let handed = batch.as_slice();
    let answer = whisper.forward_decoder(handed, encoder_output);
    proof {
        assert(call_ensures(M::forward_decoder, (whisper, handed, encoder_output), answer));
        assert(batch_of(handed@, beams@));
    }
    let scores = match answer {
        Ok(scores) => scores,
        Err(_) => {
            return Err(TranscribeError::ModelInferenceError);
        },
    };
    let rows = match masked_rows(scores.as_slice(), mask, beams) {
        Ok(rows) => rows,
        Err(e) => {
            return Err(e);
        },
    };
    let asked = rows.as_slice();
    let log_probs = whisper.log_softmax(asked);
    proof {
        assert(call_ensures(M::log_softmax, (whisper, asked), log_probs));
        assert forall|i: int| 0 <= i < beams@.len() implies (#[trigger] asked@[i])@.len()
            == mask@.len() by {
            assert(row_fits(scores@[i]@, beams@[i]@.seq.len(), mask@.len()));
        }
    }
    let lists = match offered_lists(log_probs.as_slice(), beams.len(), mask.len()) {
        Ok(lists) => lists,
        Err(e) => {
            return Err(e);
        },
    };
    proof {
        assert(call_ensures(
            M::forward_decoder,
            (whisper, handed, encoder_output),
            Result::<Vec<Vec<Vec<i64>>>, M::Error>::Ok(scores),
        ));
        assert(scored_by(whisper, encoder_output, mask@, beams@, lists@));
        assert forall|i: int| 0 <= i < lists@.len() implies (#[trigger] lists@[i])@.len()
            == mask@.len() by {
            assert(log_probs@[i]@.len() == mask@.len());
        }
        assert forall|i: int, t: int|
            0 <= i < lists@.len() && 0 <= t < mask@.len() implies (#[trigger] lists@[i]@[t]).0
            == t by {
            assert(lists@[i]@.len() == mask@.len());
        }
    }
    Ok(lists)
}

/// The tokenizer can answer `text` when asked to decode `tokens`.
pub open spec fn decoded_by<T: Tokenizer>(
    bpe: &T,
    tokens: Seq<usize>,
    skip_special: bool,
    text: String,
) -> bool {
    exists|asked: &[usize]|
        asked@ == tokens && #[trigger] call_ensures(
            T::decode,
            (bpe, asked, skip_special),
            Result::<String, T::Error>::Ok(text),
        )
}

/// The tokenizer can fail when asked for the token of `kind`.
pub open spec fn lookup_fails<T: Tokenizer>(bpe: &T, kind: SpecialToken<T::Language>) -> bool {
    exists|e: T::Error|
        #[trigger] call_ensures(T::special_token, (bpe, kind), Result::<usize, T::Error>::Err(e))
}

/// The tokenizer can fail when asked to decode `tokens`.
pub open spec fn decode_fails<T: Tokenizer>(bpe: &T, tokens: Seq<usize>, skip_special: bool) -> bool {
    exists|asked: &[usize], e: T::Error|
        asked@ == tokens && #[trigger] call_ensures(
            T::decode,
            (bpe, asked, skip_special),
            Result::<String, T::Error>::Err(e),
        )
}

/// Whatever the model answers when asked for the encoder's context, it is
/// less than `padding`.
pub open spec fn context_below<M: Model>(whisper: &M, padding: usize) -> bool {
    forall|n_ctx_max: usize| #[trigger]
        call_ensures(M::encoder_ctx_size, (whisper,), n_ctx_max) ==> n_ctx_max < padding
}

/// The finish predicate of a window's search: the sequence ends in `end`.
pub open spec fn ends_in(end: usize) -> spec_fn(Seq<usize>) -> bool {
    |tokens: Seq<usize>| tokens.len() > 0 && tokens.last() == end
}

/// The search of a window can end in the frontier `last`: from `frontier`,
/// at most `depth` steps are taken, each on what the model's answers give for
/// the unfinished beams ([`scored_by`]), with a frontier of [`BEAM_SIZE`], and
/// the search stops as soon as every beam ends in `end`.
pub open spec fn search_ends<M: Model>(
    whisper: &M,
    encoder_output: &M::Encoding,
    mask: Seq<i64>,
    end: usize,
    frontier: Seq<Beam<usize>>,
    depth: nat,
    last: Seq<Beam<usize>>,
) -> bool
    decreases depth,
{
    if depth == 0 || all_finished(frontier, ends_in(end)) {
        last == frontier
    } else {
        exists|beams: Seq<BeamNode<usize>>, lists: Seq<Vec<(usize, i64)>>|
            #[trigger] scored_by(whisper, encoder_output, mask, beams, lists) && beam_views(beams)
                == frontier.filter(beam_open(ends_in(end))) && search_ends(
                whisper,
                encoder_output,
                mask,
                end,
                next_frontier(
                    frontier.filter(beam_done(ends_in(end))),
                    frontier.filter(beam_open(ends_in(end))),
                    continuation_views(lists),
                    BEAM_SIZE as nat,
                ),
                (depth - 1) as nat,
                last,
            )
    }
}

/// `encoder_output` is what the encoder gave for the spectrogram `mels`: the
/// spectrogram was cut to what the encoder's context holds beside `padding`
/// frames, padded by them, and encoded.
pub open spec fn encoded_by<M: Model, X: FeatureExtractor<Spectrogram = M::Spectrogram>>(
    whisper: &M,
    extractor: &X,
    mels: M::Spectrogram,
    padding: usize,
    encoder_output: M::Encoding,
) -> bool {
    exists|n_ctx_max: usize, n_ctx: usize, shaped: M::Spectrogram|
        #![trigger
            call_ensures(M::encoder_ctx_size, (whisper,), n_ctx_max),
            call_ensures(X::frames, (extractor, &mels), n_ctx),
            call_ensures(
                M::forward_encoder,
                (whisper, shaped),
                Result::<M::Encoding, M::Error>::Ok(encoder_output),
            )
        ]
        call_ensures(M::encoder_ctx_size, (whisper,), n_ctx_max) && padding <= n_ctx_max
            && call_ensures(X::frames, (extractor, &mels), n_ctx) && call_ensures(
            X::clip_and_pad,
            (extractor, mels, frames_kept(n_ctx, (n_ctx_max - padding) as usize), padding),
            shaped,
        ) && call_ensures(
            M::forward_encoder,
            (whisper, shaped),
            Result::<M::Encoding, M::Error>::Ok(encoder_output),
        )
}

/// `tokens` is what decoding the window of the spectrogram `mels` gives: the
/// best sequence of a frontier in which the search can end, from the prompt
/// with a score of zero, in at most [`MAX_DEPTH`] steps, on the encoding of
/// the spectrogram.
pub open spec fn window_decoded<M: Model, X: FeatureExtractor<Spectrogram = M::Spectrogram>>(
    whisper: &M,
    extractor: &X,
    mask: Seq<i64>,
    prompt: Prompt,
    mels: M::Spectrogram,
    padding: usize,
    tokens: Seq<usize>,
) -> bool {
    exists|encoder_output: M::Encoding, last: Seq<Beam<usize>>|
        encoded_by(whisper, extractor, mels, padding, encoder_output) && #[trigger] search_ends(
            whisper,
            &encoder_output,
            mask,
            prompt.end,
            seq![Beam { seq: prompt.tokens(), log_prob: 0 }],
            MAX_DEPTH as nat,
            last,
        ) && tokens == best_sequence(last)
}

/// Where every answer of the step function is what the model's answers
/// give, a frontier that the search reaches is one in which the window's
/// search can end.
proof fn lemma_reaches_search_ends<M: Model, F: Fn(&[BeamNode<usize>]) -> Result<
    Vec<Vec<(usize, i64)>>,
    TranscribeError,
>>(
    whisper: &M,
    encoder_output: &M::Encoding,
    mask: Seq<i64>,
    end: usize,
    next: F,
    frontier: Seq<Beam<usize>>,
    depth: nat,
    last: Seq<Beam<usize>>,
)
    requires
        forall|beams: &[BeamNode<usize>], lists: Vec<Vec<(usize, i64)>>| #[trigger]
            next.ensures((beams,), Result::<Vec<Vec<(usize, i64)>>, TranscribeError>::Ok(lists))
                ==> scored_by(whisper, encoder_output, mask, beams@, lists@),
        reaches(next, ends_in(end), frontier, BEAM_SIZE as nat, depth, last),
    ensures
        search_ends(whisper, encoder_output, mask, end, frontier, depth, last),
    decreases depth,
{
    let done = ends_in(end);
    if depth == 0 || all_finished(frontier, done) {
    } else {
        let active = frontier.filter(beam_open(done));
        let frozen = frontier.filter(beam_done(done));
        let offered = choose|offered: Seq<Seq<(usize, i64)>>|
            #[trigger] answers(next, active, offered) && reaches(
                next,
                done,
                next_frontier(frozen, active, offered, BEAM_SIZE as nat),
                BEAM_SIZE as nat,
                (depth - 1) as nat,
                last,
            );
        let (beams, lists) = choose|beams: &[BeamNode<usize>], lists: Vec<Vec<(usize, i64)>>|
            beam_views(beams@) == active && continuation_views(lists@) == offered
                && #[trigger] next.ensures(
                (beams,),
                Result::<Vec<Vec<(usize, i64)>>, TranscribeError>::Ok(lists),
            );
        assert(scored_by(whisper, encoder_output, mask, beams@, lists@));
        lemma_reaches_search_ends(
            whisper,
            encoder_output,
            mask,
            end,
            next,
            next_frontier(frozen, active, offered, BEAM_SIZE as nat),
            (depth - 1) as nat,
            last,
        );
    }
}

/// What holds of a sequence of the frontier after `steps` steps of a
/// window's search: it begins with the prompt, has at most `steps` tokens
/// more, and exactly `steps` more unless it is finished; the end token stands
/// nowhere between the prompt and its last token; and after the first step
/// it is longer than the prompt, unless the prompt itself ends in the end
/// token.
spec fn grown_seq(tokens: Seq<usize>, prompt: Prompt, steps: nat) -> bool {
    &&& prompt.tokens().is_prefix_of(tokens)
    &&& tokens.len() <= 4 + steps
    &&& !ends_in(prompt.end)(tokens) ==> tokens.len() == 4 + steps
    &&& forall|i: int| 4 <= i < tokens.len() - 1 ==> tokens[i] != prompt.end
    &&& steps >= 1 && prompt.no_timestamps != prompt.end ==> tokens.len() >= 5
}

/// The frontier after `steps` steps of a window's search is not empty, and
/// [`grown_seq`] holds of each of its sequences.
spec fn grown(frontier: Seq<Beam<usize>>, prompt: Prompt, steps: nat) -> bool {
    &&& frontier.len() >= 1
    &&& forall|t: int|
        0 <= t < frontier.len() ==> grown_seq((#[trigger] frontier[t]).seq, prompt, steps)
}

/// What the decoding of one window yields where the vocabulary is not empty:
/// the prompt, followed by at most [`MAX_DEPTH`] tokens; a sequence that is
/// shorter than that ends in the end token; the end token stands nowhere
/// between the prompt and the last token; and at least one token follows the
/// prompt, unless the prompt itself ends in the end token.
pub open spec fn decoded_from(tokens: Seq<usize>, prompt: Prompt) -> bool {
    &&& prompt.tokens().is_prefix_of(tokens)
    &&& tokens.len() <= 4 + MAX_DEPTH
    &&& tokens.len() < 4 + MAX_DEPTH ==> tokens.last() == prompt.end
    &&& forall|i: int| 4 <= i < tokens.len() - 1 ==> tokens[i] != prompt.end
    &&& prompt.no_timestamps != prompt.end ==> tokens.len() >= 5
}

/// The beams that a filter keeps are beams of the frontier, and the filter's
/// predicate holds of them.
proof fn lemma_filtered(frontier: Seq<Beam<usize>>, pred: spec_fn(Beam<usize>) -> bool, j: int)
    requires
        0 <= j < frontier.filter(pred).len(),
    ensures
        pred(frontier.filter(pred)[j]),
        exists|i: int|
            0 <= i < frontier.len() && (#[trigger] frontier[i]).seq == frontier.filter(pred)[j].seq,
{
    frontier.lemma_filter_pred(pred, j);
    crate::beam::lemma_filter_descends(frontier, pred);
    let kept = frontier.filter(pred);
    assert(has_ancestor(kept[j], frontier, 0, true));
    let i = choose|i: int|
        0 <= i < frontier.len() && #[trigger] follows(kept[j], frontier[i], 0, true);
    assert(frontier[i].seq =~= kept[j].seq);
}

/// One step of a window's search keeps the frontier grown.
proof fn lemma_step_grows<M: Model>(
    whisper: &M,
    encoder_output: &M::Encoding,
    mask: Seq<i64>,
    prompt: Prompt,
    frontier: Seq<Beam<usize>>,
    steps: nat,
    beams: Seq<BeamNode<usize>>,
    lists: Seq<Vec<(usize, i64)>>,
)
    requires
        mask.len() >= 1,
        grown(frontier, prompt, steps),
        !all_finished(frontier, ends_in(prompt.end)),
        scored_by(whisper, encoder_output, mask, beams, lists),
        beam_views(beams) == frontier.filter(beam_open(ends_in(prompt.end))),
    ensures
        grown(
            next_frontier(
                frontier.filter(beam_done(ends_in(prompt.end))),
                frontier.filter(beam_open(ends_in(prompt.end))),
                continuation_views(lists),
                BEAM_SIZE as nat,
            ),
            prompt,
            steps + 1,
        ),
{
    let done = ends_in(prompt.end);
    let frozen = frontier.filter(beam_done(done));
    let active = frontier.filter(beam_open(done));
    let offered = continuation_views(lists);
    let kept = next_frontier(frozen, active, offered, BEAM_SIZE as nat);
    crate::beam::lemma_all_finished(frontier, done);
    assert(active.len() >= 1);
    assert(beams.len() == active.len());
    let (batch, scores, rows, log_probs) = choose|
        batch: &[Vec<usize>],
        scores: Vec<Vec<Vec<i64>>>,
        rows: &[Vec<i64>],
        log_probs: Vec<Vec<i64>>,
    |
        #![trigger
            call_ensures(
                M::forward_decoder,
                (whisper, batch, encoder_output),
                Result::<Vec<Vec<Vec<i64>>>, M::Error>::Ok(scores),
            ),
            call_ensures(M::log_softmax, (whisper, rows), log_probs)]
        call_ensures(
            M::forward_decoder,
            (whisper, batch, encoder_output),
            Result::<Vec<Vec<Vec<i64>>>, M::Error>::Ok(scores),
        ) && batch_of(batch@, beams) && answer_fits(scores@, beams, mask.len()) && rows_of(
            rows@,
            scores@,
            mask,
            beams,
        ) && call_ensures(M::log_softmax, (whisper, rows), log_probs) && log_probs_fit(
            log_probs@,
            beams.len(),
            mask.len(),
        ) && offered_all(log_probs@, lists);
    assert(lists[0]@ == continuations(log_probs@[0]@));
    assert(log_probs@[0]@.len() == mask.len());
    assert(offered[0] == lists[0]@);
    assert(offered[0].len() >= 1);
    crate::beam::lemma_next_frontier_nonempty(frozen, active, offered, BEAM_SIZE as nat);
    assert forall|t: int| 0 <= t < kept.len() implies grown_seq(
        (#[trigger] kept[t]).seq,
        prompt,
        steps + 1,
    ) by {
        crate::beam::lemma_next_frontier_origin(frozen, active, offered, BEAM_SIZE as nat, t);
        if exists|i: int| 0 <= i < frozen.len() && #[trigger] frozen[i] == kept[t] {
            let i = choose|i: int| 0 <= i < frozen.len() && #[trigger] frozen[i] == kept[t];
            lemma_filtered(frontier, beam_done(done), i);
            let f = choose|f: int|
                0 <= f < frontier.len() && (#[trigger] frontier[f]).seq == frozen[i].seq;
            assert(grown_seq(frontier[f].seq, prompt, steps));
            assert(done(kept[t].seq));
        } else {
            let (a, j) = choose|a: int, j: int|
                0 <= a < active.len() && a < offered.len() && 0 <= j < offered[a].len()
                    && #[trigger] crate::beam::child(active[a], offered[a][j].0, offered[a][j].1)
                    == kept[t];
            lemma_filtered(frontier, beam_open(done), a);
            let f = choose|f: int|
                0 <= f < frontier.len() && (#[trigger] frontier[f]).seq == active[a].seq;
            assert(grown_seq(frontier[f].seq, prompt, steps));
            let parent = active[a].seq;
            let grown_to = kept[t].seq;
            assert(!done(parent));
            assert(grown_to == parent.push(offered[a][j].0));
            assert(parent.len() == 4 + steps);
            assert(prompt.tokens() =~= grown_to.subrange(0, 4)) by {
                assert(prompt.tokens() =~= parent.subrange(0, 4));
            }
            assert forall|i: int| 4 <= i < grown_to.len() - 1 implies grown_to[i]
                != prompt.end by {
                assert(grown_to[i] == parent[i]);
                if i == parent.len() - 1 {
                    assert(parent.last() == parent[i]);
                }
            }
        }
    }
}

/// A frontier in which a window's search can end is grown, and the search
/// ended there because the steps ran out or because every beam is finished.
proof fn lemma_search_grows<M: Model>(
    whisper: &M,
    encoder_output: &M::Encoding,
    mask: Seq<i64>,
    prompt: Prompt,
    frontier: Seq<Beam<usize>>,
    depth: nat,
    last: Seq<Beam<usize>>,
)
    requires
        mask.len() >= 1,
        depth <= MAX_DEPTH,
        grown(frontier, prompt, (MAX_DEPTH - depth) as nat),
        search_ends(whisper, encoder_output, mask, prompt.end, frontier, depth, last),
    ensures
        exists|steps: nat|
            steps <= MAX_DEPTH && #[trigger] grown(last, prompt, steps) && (steps == MAX_DEPTH
                || all_finished(last, ends_in(prompt.end))),
    decreases depth,
{
    let done = ends_in(prompt.end);
    let steps = (MAX_DEPTH - depth) as nat;
    if depth == 0 || all_finished(frontier, done) {
        assert(grown(last, prompt, steps));
    } else {
        let frozen = frontier.filter(beam_done(done));
        let active = frontier.filter(beam_open(done));
        let (beams, lists) = choose|beams: Seq<BeamNode<usize>>, lists: Seq<Vec<(usize, i64)>>|
            #[trigger] scored_by(whisper, encoder_output, mask, beams, lists) && beam_views(beams)
                == active && search_ends(
                whisper,
                encoder_output,
                mask,
                prompt.end,
                next_frontier(frozen, active, continuation_views(lists), BEAM_SIZE as nat),
                (depth - 1) as nat,
                last,
            );
        lemma_step_grows(whisper, encoder_output, mask, prompt, frontier, steps, beams, lists);
        lemma_search_grows(
            whisper,
            encoder_output,
            mask,
            prompt,
            next_frontier(frozen, active, continuation_views(lists), BEAM_SIZE as nat),
            (depth - 1) as nat,
            last,
        );
    }
}

/// Where the vocabulary is not empty, what decoding a window gives is
/// [`decoded_from`] the prompt.
pub proof fn lemma_window_decoded<M: Model, X: FeatureExtractor<Spectrogram = M::Spectrogram>>(
    whisper: &M,
    extractor: &X,
    mask: Seq<i64>,
    prompt: Prompt,
    mels: M::Spectrogram,
    padding: usize,
    tokens: Seq<usize>,
)
    requires
        mask.len() >= 1,
        window_decoded(whisper, extractor, mask, prompt, mels, padding, tokens),
    ensures
        decoded_from(tokens, prompt),
{
    let start = seq![Beam { seq: prompt.tokens(), log_prob: 0 }];
    let (encoder_output, last) = choose|encoder_output: M::Encoding, last: Seq<Beam<usize>>|
        encoded_by(whisper, extractor, mels, padding, encoder_output) && #[trigger] search_ends(
            whisper,
            &encoder_output,
            mask,
            prompt.end,
            start,
            MAX_DEPTH as nat,
            last,
        ) && tokens == best_sequence(last);
    assert(grown_seq(start[0].seq, prompt, 0)) by {
        assert(prompt.tokens() =~= prompt.tokens().subrange(0, 4));
    }
    lemma_search_grows(whisper, &encoder_output, mask, prompt, start, MAX_DEPTH as nat, last);
    let steps = choose|steps: nat|
        steps <= MAX_DEPTH && #[trigger] grown(last, prompt, steps) && (steps == MAX_DEPTH
            || all_finished(last, ends_in(prompt.end)));
    crate::beam::lemma_first_best(last);
    let m = crate::beam::first_best(last);
    assert(grown_seq(last[m].seq, prompt, steps));
    if steps == 0 {
        assert(tokens =~= prompt.tokens()) by {
            assert(prompt.tokens() =~= tokens.subrange(0, 4));
        }
    }
}

/// The model can answer, when asked for the encoder's context, one that does
/// not hold `padding` frames.
pub open spec fn context_short<M: Model>(whisper: &M, padding: usize) -> bool {
    exists|n_ctx_max: usize| #[trigger]
        call_ensures(M::encoder_ctx_size, (whisper,), n_ctx_max) && n_ctx_max < padding
}

/// `shaped` is what the feature extractor made of the spectrogram `mels`
/// for the encoder: what the encoder's context holds beside `padding` frames,
/// followed by them.
pub open spec fn shaped_by<M: Model, X: FeatureExtractor<Spectrogram = M::Spectrogram>>(
    whisper: &M,
    extractor: &X,
    mels: M::Spectrogram,
    padding: usize,
    shaped: M::Spectrogram,
) -> bool {
    exists|n_ctx_max: usize, n_ctx: usize|
        #![trigger
            call_ensures(M::encoder_ctx_size, (whisper,), n_ctx_max),
            call_ensures(X::frames, (extractor, &mels), n_ctx)]
        call_ensures(M::encoder_ctx_size, (whisper,), n_ctx_max) && padding <= n_ctx_max
            && call_ensures(X::frames, (extractor, &mels), n_ctx) && call_ensures(
            X::clip_and_pad,
            (extractor, mels, frames_kept(n_ctx, (n_ctx_max - padding) as usize), padding),
            shaped,
        )
}

/// The encoder can fail on the spectrogram `mels` once it is shaped.
pub open spec fn encoder_fails<M: Model, X: FeatureExtractor<Spectrogram = M::Spectrogram>>(
    whisper: &M,
    extractor: &X,
    mels: M::Spectrogram,
    padding: usize,
) -> bool {
    exists|shaped: M::Spectrogram, e: M::Error|
        shaped_by(whisper, extractor, mels, padding, shaped) && #[trigger] call_ensures(
            M::forward_encoder,
            (whisper, shaped),
            Result::<M::Encoding, M::Error>::Err(e),
        )
}

/// Beams that a window's search hands to the model: at least one, each
/// beginning with the prompt and holding fewer than [`MAX_DEPTH`] tokens
/// beside it.
pub open spec fn window_beams(beams: Seq<BeamNode<usize>>, prompt: Prompt) -> bool {
    &&& beams.len() > 0
    &&& forall|i: int|
        0 <= i < beams.len() ==> prompt.tokens().is_prefix_of((#[trigger] beams[i])@.seq)
            && beams[i]@.seq.len() < 4 + MAX_DEPTH
}

/// The model can fail to score beams of the window's search, on an encoding
/// of the spectrogram `mels`: it does not score them well ([`scores_well`]).
pub open spec fn scoring_fails<M: Model, X: FeatureExtractor<Spectrogram = M::Spectrogram>>(
    whisper: &M,
    extractor: &X,
    vocab: nat,
    prompt: Prompt,
    mels: M::Spectrogram,
    padding: usize,
) -> bool {
    exists|encoder_output: M::Encoding, beams: Seq<BeamNode<usize>>|
        encoded_by(whisper, extractor, mels, padding, encoder_output) && window_beams(
            beams,
            prompt,
        ) && !#[trigger] scores_well(whisper, &encoder_output, vocab, beams)
}

/// The model can fail on the window of the spectrogram `mels`: its context
/// can be too short for the padding, its encoder can fail, or its scoring
/// can.
pub open spec fn model_fails<M: Model, X: FeatureExtractor<Spectrogram = M::Spectrogram>>(
    whisper: &M,
    extractor: &X,
    vocab: nat,
    prompt: Prompt,
    mels: M::Spectrogram,
    padding: usize,
) -> bool {
    ||| context_short(whisper, padding)
    ||| encoder_fails(whisper, extractor, mels, padding)
    ||| scoring_fails(whisper, extractor, vocab, prompt, mels, padding)
}

/// The search over a window's spectrogram can give tokens that the tokenizer
/// can fail to decode.
pub open spec fn window_undecodable<M: Model, T: Tokenizer, X: FeatureExtractor<
    Spectrogram = M::Spectrogram,
>>(
    whisper: &M,
    bpe: &T,
    extractor: &X,
    mask: Seq<i64>,
    prompt: Prompt,
    mels: M::Spectrogram,
    padding: usize,
) -> bool {
    exists|tokens: Seq<usize>| #[trigger]
        window_decoded(whisper, extractor, mask, prompt, mels, padding, tokens) && decode_fails(
            bpe,
            tokens,
            false,
        )
}

/// Decodes one window from its spectrogram. The spectrogram is cut to what
/// the encoder's context holds beside `padding` frames of silence, padded and
/// encoded; a beam search of width [`BEAM_SIZE`] and depth [`MAX_DEPTH`] runs
/// from the prompt, scoring with [`score_beams`], a beam being finished when
/// it ends in the end-of-text token; the winning tokens are decoded to text
/// with their special tokens.
///
/// Whatever the collaborators do, the tokens of a success are
/// [`window_decoded`] from the spectrogram: the best sequence of a frontier
/// in which the search can end for what the collaborators answered. Where
/// the vocabulary is not empty they are [`decoded_from`] the prompt.
///
/// It fails with `ModelInferenceError` where the encoder's context cannot
/// hold the padding, where the encoder fails and where [`score_beams`] fails,
/// and with `TokenizerError` where the tokens cannot be decoded to text. Each
/// kind names its cause: a `ModelInferenceError` means that the model can
/// fail on this window ([`model_fails`]), a `TokenizerError` that the search
/// gave tokens on which the tokenizer can fail ([`window_undecodable`]).
/// Where neither can happen the window is decoded.
pub fn mels_to_text<M, T, X>(
    whisper: &M,
    bpe: &T,
    extractor: &X,
    prompt: &Prompt,
    mask: &SpecialTokenMask,
    mels: M::Spectrogram,
    padding: usize,
) -> (r: Result<(String, Vec<usize>), TranscribeError>) where
    M: Model,
    T: Tokenizer,
    X: FeatureExtractor<Spectrogram = M::Spectrogram>,

    ensures
        r matches Ok(out) ==> window_decoded(
            whisper,
            extractor,
            mask@,
            *prompt,
            mels,
            padding,
            out.1@,
        ),
        r matches Ok(out) ==> (mask@.len() > 0 ==> decoded_from(out.1@, *prompt)),
        r matches Ok(out) ==> decoded_by(bpe, out.1@, false, out.0),
        r matches Err(e) ==> e == TranscribeError::ModelInferenceError || e
            == TranscribeError::TokenizerError,
        r matches Err(e) ==> (e == TranscribeError::TokenizerError ==> window_undecodable(
            whisper,
            bpe,
            extractor,
            mask@,
            *prompt,
            mels,
            padding,
        )),
        r matches Err(e) ==> (e == TranscribeError::ModelInferenceError ==> model_fails(
            whisper,
            extractor,
            mask@.len(),
            *prompt,
            mels,
            padding,
        )),
        context_below(whisper, padding) ==> r is Err,
        !model_fails(whisper, extractor, mask@.len(), *prompt, mels, padding)
            && !window_undecodable(whisper, bpe, extractor, mask@, *prompt, mels, padding)
            ==> r is Ok,
{
    let ghost given = mels;
    let n_ctx_max_encoder = whisper.encoder_ctx_size();
    proof {
        assert(call_ensures(M::encoder_ctx_size, (whisper,), n_ctx_max_encoder));
    }
    let room = match context_frames(n_ctx_max_encoder, padding) {
        Ok(room) => room,
        Err(e) => {
            assert(context_short(whisper, padding));
            return Err(e);
        },
    };
    let n_ctx = extractor.frames(&mels);
    let (keep, _clipped) = kept_frames(n_ctx, room);
    let mels = extractor.clip_and_pad(mels, keep, padding);
    let ghost shaped = mels;
    proof {
        assert(call_ensures(X::frames, (extractor, &given), n_ctx));
        assert(shaped_by(whisper, extractor, given, padding, shaped));
    }
    let encoder_output = match whisper.forward_encoder(mels) {
        Ok(encoding) => encoding,
        Err(e) => {
            proof {
                assert(call_ensures(
                    M::forward_encoder,
                    (whisper, shaped),
                    Result::<M::Encoding, M::Error>::Err(e),
                ));
                assert(encoder_fails(whisper, extractor, given, padding));
            }
            return Err(TranscribeError::ModelInferenceError);
        },
    };
    proof {
        assert(call_ensures(M::encoder_ctx_size, (whisper,), n_ctx_max_encoder));
        assert(call_ensures(X::frames, (extractor, &given), n_ctx));
        assert(call_ensures(
            M::forward_encoder,
            (whisper, shaped),
            Result::<M::Encoding, M::Error>::Ok(encoder_output),
        ));
        assert(encoded_by(whisper, extractor, given, padding, encoder_output));
    }
    let end_token = prompt.end;
    let beamsearch_next = |beams: &[BeamNode<usize>]| -> (out: Result<
        Vec<Vec<(usize, i64)>>,
        TranscribeError,
    >)
        ensures
            out matches Ok(lists) ==> scored_by(whisper, &encoder_output, mask@, beams@, lists@),
            out matches Err(e) ==> e == TranscribeError::ModelInferenceError,
            scores_well(whisper, &encoder_output, mask@.len(), beams@) ==> out is Ok,
        { score_beams(whisper, &encoder_output, mask, beams) };
    let beamsearch_is_finished = |tokens: &[usize]| -> (done: bool)
        ensures
            done == ends_in(end_token)(tokens@),
        { ends_with(tokens, end_token) };
    let mut initial: Vec<BeamNode<usize>> = Vec::with_capacity(1);
    initial.push(initial_beam(prompt));
    let ghost start = crate::beam::beam_views(initial@);
    assert(start.len() == 1 && start[0].seq == prompt.tokens());
    let tokens = match beam_search(
        initial,
        beamsearch_next,
        beamsearch_is_finished,
        BEAM_SIZE,
        MAX_DEPTH,
    ) {
        Ok(tokens) => tokens,
        Err(e) => {
            proof {
                assert(fails_within(beamsearch_next, start, MAX_DEPTH as nat, e));
                let (beams, taken) = choose|beams: &[BeamNode<usize>], taken: nat|
                    #![trigger
                        beamsearch_next.ensures(
                            (beams,),
                            Result::<Vec<Vec<(usize, i64)>>, TranscribeError>::Err(e),
                        ),
                        descends(beam_views(beams@), start, taken, false)]
                    taken < MAX_DEPTH as nat && beams@.len() > 0 && beamsearch_next.ensures(
                        (beams,),
                        Result::<Vec<Vec<(usize, i64)>>, TranscribeError>::Err(e),
                    ) && descends(beam_views(beams@), start, taken, false);
                assert forall|i: int| 0 <= i < beams@.len() implies prompt.tokens().is_prefix_of(
                    (#[trigger] beams@[i])@.seq,
                ) && beams@[i]@.seq.len() < 4 + MAX_DEPTH by {
                    assert(has_ancestor(beam_views(beams@)[i], start, taken, false));
                }
                assert(window_beams(beams@, *prompt));
                assert(!scores_well(whisper, &encoder_output, mask@.len(), beams@));
                assert(scoring_fails(whisper, extractor, mask@.len(), *prompt, given, padding));
            }
            return Err(e);
        },
    };
    proof {
        let done = ends_in(end_token);
        assert(finish_agrees(beamsearch_is_finished, done));
        assert(found_by(
            beamsearch_next,
            done,
            start,
            BEAM_SIZE as nat,
            MAX_DEPTH as nat,
            tokens@,
        ));
        let last = choose|last: Seq<Beam<usize>>|
            #[trigger] reaches(
                beamsearch_next,
                done,
                start,
                BEAM_SIZE as nat,
                MAX_DEPTH as nat,
                last,
            ) && tokens@ == best_sequence(last);
        lemma_reaches_search_ends(
            whisper,
            &encoder_output,
            mask@,
            end_token,
            beamsearch_next,
            start,
            MAX_DEPTH as nat,
            last,
        );
        assert(start =~= seq![Beam { seq: prompt.tokens(), log_prob: 0 }]);
        assert(window_decoded(whisper, extractor, mask@, *prompt, given, padding, tokens@));
        if mask@.len() > 0 {
            lemma_window_decoded(whisper, extractor, mask@, *prompt, given, padding, tokens@);
        }
    }
    let asked = tokens.as_slice();
    let text = match bpe.decode(asked, false) {
        Ok(text) => text,
        Err(e) => {
            proof {
                assert(call_ensures(
                    T::decode,
                    (bpe, asked, false),
                    Result::<String, T::Error>::Err(e),
                ));
                assert(decode_fails(bpe, tokens@, false));
                assert(window_undecodable(
                    whisper,
                    bpe,
                    extractor,
                    mask@,
                    *prompt,
                    given,
                    padding,
                ));
            }
            return Err(TranscribeError::TokenizerError);
        },
    };
    assert(decoded_by(bpe, tokens@, false, text));
    Ok((text, tokens))
}


/// The transcript of a sequence of windows: each window's tokens stitched to
/// the transcript of the windows before it.
pub open spec fn stitch_all(chunks: Seq<Seq<usize>>) -> Seq<usize>
    decreases chunks.len(),
{
    if chunks.len() == 0 {
        Seq::empty()
    } else {
        stitched(
            stitch_all(chunks.drop_last()),
            chunks.last(),
            MAX_N_OFFSETS as nat,
            MIN_N_OVERLAPS as nat,
        )
    }
}

/// The tokenizer can answer `special` when asked whether `token` is special.
pub open spec fn reported_special<T: Tokenizer>(bpe: &T, token: usize, special: bool) -> bool {
    call_ensures(T::is_special, (bpe, token), special)
}

/// `bias` is the mask of the tokenizer's vocabulary: it has one entry for
/// every token of the vocabulary as the tokenizer gave its size, negative
/// infinity where the tokenizer reported the token special and zero where it
/// reported it ordinary.
pub open spec fn masks_vocabulary<T: Tokenizer>(bpe: &T, bias: Seq<i64>) -> bool {
    &&& bias.len() <= usize::MAX
    &&& call_ensures(T::vocab_size, (bpe,), bias.len() as usize)
    &&& forall|t: int|
        0 <= t < bias.len() ==> (#[trigger] bias[t] == NEG_INFINITY || bias[t] == 0)
            && reported_special(bpe, t as usize, bias[t] == NEG_INFINITY)
}

/// Asks the tokenizer for the size of its vocabulary and, of every token in
/// turn, whether it is special, and makes the mask from its answers.
fn special_token_mask<T: Tokenizer>(bpe: &T) -> (mask: SpecialTokenMask)
    ensures
        masks_vocabulary(bpe, mask@),
{
    let vocab_size = bpe.vocab_size();
    let mut special: Vec<bool> = Vec::with_capacity(vocab_size);
    let mut token: usize = 0;
    while token < vocab_size
        invariant
            token <= vocab_size,
            special@.len() == token,
            forall|u: int|
                0 <= u < token ==> reported_special(bpe, u as usize, #[trigger] special@[u]),
        decreases vocab_size - token,
    {
        let answer = bpe.is_special(token);
        special.push(answer);
        token = token + 1;
    }
    let mask = SpecialTokenMask::from_flags(special.as_slice());
    proof {
        assert forall|t: int| 0 <= t < mask@.len() implies (#[trigger] mask@[t] == NEG_INFINITY
            || mask@[t] == 0) && reported_special(bpe, t as usize, mask@[t] == NEG_INFINITY) by {
            assert(mask@[t] == bias_of(special@[t]));
            assert(reported_special(bpe, t as usize, special@[t]));
        }
    }
    mask
}

/// The tokenizer can answer `token` when asked for the token of `kind`.
pub open spec fn looked_up<T: Tokenizer>(
    bpe: &T,
    kind: SpecialToken<T::Language>,
    token: usize,
) -> bool {
    call_ensures(T::special_token, (bpe, kind), Result::<usize, T::Error>::Ok(token))
}

/// The tokenizer can answer some token when asked for the token of `kind`.
pub open spec fn can_look_up<T: Tokenizer>(bpe: &T, kind: SpecialToken<T::Language>) -> bool {
    exists|token: usize| #[trigger] looked_up(bpe, kind, token)
}

/// The tokenizer can answer each of the five lookups for `lang`.
pub open spec fn can_prompt<T: Tokenizer>(bpe: &T, lang: T::Language) -> bool {
    &&& can_look_up(bpe, SpecialToken::StartOfTranscript)
    &&& can_look_up(bpe, SpecialToken::Language(lang))
    &&& can_look_up(bpe, SpecialToken::Transcribe)
    &&& can_look_up(bpe, SpecialToken::NoTimestamps)
    &&& can_look_up(bpe, SpecialToken::EndOfText)
}

/// `prompt` holds what the tokenizer answered to the five lookups for `lang`.
pub open spec fn prompt_for<T: Tokenizer>(bpe: &T, lang: T::Language, prompt: Prompt) -> bool {
    &&& looked_up(bpe, SpecialToken::StartOfTranscript, prompt.start)
    &&& looked_up(bpe, SpecialToken::Language(lang), prompt.language)
    &&& looked_up(bpe, SpecialToken::Transcribe, prompt.task)
    &&& looked_up(bpe, SpecialToken::NoTimestamps, prompt.no_timestamps)
    &&& looked_up(bpe, SpecialToken::EndOfText, prompt.end)
}

/// `window_len` is what the feature extractor answered when asked how many
/// samples fill the encoder's context less [`PADDING`] frames.
pub open spec fn window_length_for<M: Model, X: FeatureExtractor<Spectrogram = M::Spectrogram>>(
    whisper: &M,
    extractor: &X,
    window_len: usize,
) -> bool {
    exists|n_ctx_max: usize|
        #[trigger] call_ensures(M::encoder_ctx_size, (whisper,), n_ctx_max) && PADDING
            <= n_ctx_max && call_ensures(
            X::max_waveform_samples,
            (extractor, (n_ctx_max - PADDING) as usize),
            window_len,
        )
}

/// `tokens` is what decoding gave for the window that holds `samples`: the
/// feature extractor answered a spectrogram of `n_mels` rows for them, and
/// [`mels_to_text`] returned the tokens for that spectrogram, the prompt, the
/// mask and [`PADDING`].
pub open spec fn chunk_of<M: Model, T: Tokenizer, X: FeatureExtractor<Spectrogram = M::Spectrogram>>(
    whisper: &M,
    bpe: &T,
    extractor: &X,
    mask: SpecialTokenMask,
    prompt: Prompt,
    samples: Seq<X::Sample>,
    sample_rate: usize,
    n_mels: usize,
    tokens: Seq<usize>,
) -> bool {
    exists|window: Vec<X::Sample>, mels: M::Spectrogram, out: (String, Vec<usize>)|
        #![trigger
            call_ensures(X::to_spectrogram, (extractor, window, sample_rate, n_mels), mels),
            call_ensures(
                mels_to_text::<M, T, X>,
                (whisper, bpe, extractor, &prompt, &mask, mels, PADDING),
                Result::<(String, Vec<usize>), TranscribeError>::Ok(out),
            )]
        window@ == samples && call_ensures(
            X::to_spectrogram,
            (extractor, window, sample_rate, n_mels),
            mels,
        ) && call_ensures(
            mels_to_text::<M, T, X>,
            (whisper, bpe, extractor, &prompt, &mask, mels, PADDING),
            Result::<(String, Vec<usize>), TranscribeError>::Ok(out),
        ) && out.1@ == tokens
}

/// `tokens` is [`window_decoded`], with [`PADDING`], from a spectrogram of
/// `n_mels` rows that the feature extractor answered for `samples`.
pub open spec fn chunk_decoded<M: Model, X: FeatureExtractor<Spectrogram = M::Spectrogram>>(
    whisper: &M,
    extractor: &X,
    mask: Seq<i64>,
    prompt: Prompt,
    samples: Seq<X::Sample>,
    sample_rate: usize,
    n_mels: usize,
    tokens: Seq<usize>,
) -> bool {
    exists|window: Vec<X::Sample>, mels: M::Spectrogram|
        window@ == samples && #[trigger] call_ensures(
            X::to_spectrogram,
            (extractor, window, sample_rate, n_mels),
            mels,
        ) && window_decoded(whisper, extractor, mask, prompt, mels, PADDING, tokens)
}

/// The tokens of a window's chunk are the result of a search over that
/// window's spectrogram, and where the vocabulary is not empty they are
/// [`decoded_from`] the prompt.
pub proof fn lemma_chunk_decoded<M: Model, T: Tokenizer, X: FeatureExtractor<
    Spectrogram = M::Spectrogram,
>>(
    whisper: &M,
    bpe: &T,
    extractor: &X,
    mask: SpecialTokenMask,
    prompt: Prompt,
    samples: Seq<X::Sample>,
    sample_rate: usize,
    n_mels: usize,
    tokens: Seq<usize>,
)
    requires
        chunk_of(whisper, bpe, extractor, mask, prompt, samples, sample_rate, n_mels, tokens),
    ensures
        chunk_decoded(whisper, extractor, mask@, prompt, samples, sample_rate, n_mels, tokens),
        mask@.len() > 0 ==> decoded_from(tokens, prompt),
{
    let (window, mels, out) = choose|
        window: Vec<X::Sample>,
        mels: M::Spectrogram,
        out: (String, Vec<usize>),
    |
        #![trigger
            call_ensures(X::to_spectrogram, (extractor, window, sample_rate, n_mels), mels),
            call_ensures(
                mels_to_text::<M, T, X>,
                (whisper, bpe, extractor, &prompt, &mask, mels, PADDING),
                Result::<(String, Vec<usize>), TranscribeError>::Ok(out),
            )]
        window@ == samples && call_ensures(
            X::to_spectrogram,
            (extractor, window, sample_rate, n_mels),
            mels,
        ) && call_ensures(
            mels_to_text::<M, T, X>,
            (whisper, bpe, extractor, &prompt, &mask, mels, PADDING),
            Result::<(String, Vec<usize>), TranscribeError>::Ok(out),
        ) && out.1@ == tokens;
    assert(window_decoded(whisper, extractor, mask@, prompt, mels, PADDING, tokens));
}

/// What a transcription settled on before it decoded the first window.
pub struct Setup {
    pub prompt: Prompt,
    pub mask: SpecialTokenMask,
    pub window_len: usize,
    pub n_mels: usize,
}

/// The windows into which a transcription cuts `waveform`.
pub open spec fn plan_of<S>(waveform: Seq<S>, sample_rate: usize, window_len: usize) -> Windowing<S> {
    Windowing {
        waveform,
        window_len: window_len as nat,
        shift: window_shift(window_len as nat, overlap_samples(sample_rate as nat)),
        next: 0,
    }
}

/// `setup` holds what the collaborators answered: the prompt of the five
/// lookups, the mask of the vocabulary, the window length for the encoder's
/// context less [`PADDING`], and the number of mel rows.
pub open spec fn settled<M: Model, T: Tokenizer, X: FeatureExtractor<Spectrogram = M::Spectrogram>>(
    whisper: &M,
    bpe: &T,
    extractor: &X,
    lang: T::Language,
    setup: Setup,
) -> bool {
    &&& prompt_for(bpe, lang, setup.prompt)
    &&& masks_vocabulary(bpe, setup.mask@)
    &&& window_length_for(whisper, extractor, setup.window_len)
    &&& call_ensures(M::encoder_mel_size, (whisper,), setup.n_mels)
}

/// `chunks` holds, for each of the first windows of `waveform` in order, a
/// [`chunk_of`] that window's samples (see [`lemma_chunk_decoded`] for what
/// that says of its tokens).
pub open spec fn windows_decoded<M: Model, T: Tokenizer, X: FeatureExtractor<
    Spectrogram = M::Spectrogram,
>>(
    whisper: &M,
    bpe: &T,
    extractor: &X,
    waveform: Seq<X::Sample>,
    sample_rate: usize,
    setup: Setup,
    chunks: Seq<Seq<usize>>,
) -> bool {
    &&& chunks.len() <= plan_of(waveform, sample_rate, setup.window_len).count()
    &&& forall|c: int|
        0 <= c < chunks.len() ==> chunk_of(
            whisper,
            bpe,
            extractor,
            setup.mask,
            setup.prompt,
            plan_of(waveform, sample_rate, setup.window_len).window(c as nat),
            sample_rate,
            setup.n_mels,
            #[trigger] chunks[c],
        )
}

/// `tokens` is the transcript of `waveform` under `setup`: the setup is what
/// the collaborators answered ([`settled`]); `chunks` holds a chunk for every
/// window of the waveform ([`windows_decoded`]); and `tokens` is what
/// stitching them in order gives.
pub open spec fn transcript_of<M: Model, T: Tokenizer, X: FeatureExtractor<
    Spectrogram = M::Spectrogram,
>>(
    whisper: &M,
    bpe: &T,
    extractor: &X,
    lang: T::Language,
    waveform: Seq<X::Sample>,
    sample_rate: usize,
    setup: Setup,
    chunks: Seq<Seq<usize>>,
    tokens: Seq<usize>,
) -> bool {
    &&& settled(whisper, bpe, extractor, lang, setup)
    &&& windows_decoded(whisper, bpe, extractor, waveform, sample_rate, setup, chunks)
    &&& chunks.len() == plan_of(waveform, sample_rate, setup.window_len).count()
    &&& tokens == stitch_all(chunks)
}

/// `tokens` is the transcript of `waveform`, for what the collaborators
/// answered and for a sequence decoded from every window.
pub open spec fn is_transcript<M: Model, T: Tokenizer, X: FeatureExtractor<
    Spectrogram = M::Spectrogram,
>>(
    whisper: &M,
    bpe: &T,
    extractor: &X,
    lang: T::Language,
    waveform: Seq<X::Sample>,
    sample_rate: usize,
    tokens: Seq<usize>,
) -> bool {
    exists|setup: Setup, chunks: Seq<Seq<usize>>|
        #[trigger] transcript_of(
            whisper,
            bpe,
            extractor,
            lang,
            waveform,
            sample_rate,
            setup,
            chunks,
            tokens,
        )
}

/// `samples` are the samples of one of the windows into which a
/// transcription cuts `waveform`.
pub open spec fn is_window<S>(
    waveform: Seq<S>,
    sample_rate: usize,
    window_len: usize,
    samples: Seq<S>,
) -> bool {
    exists|i: nat|
        i < plan_of(waveform, sample_rate, window_len).count() && samples == #[trigger] plan_of(
            waveform,
            sample_rate,
            window_len,
        ).window(i)
}

/// `mels` is the spectrogram that the feature extractor answered for a
/// window of `waveform`, under a `setup` that the collaborators answered.
pub open spec fn window_of<M: Model, T: Tokenizer, X: FeatureExtractor<
    Spectrogram = M::Spectrogram,
>>(
    whisper: &M,
    bpe: &T,
    extractor: &X,
    lang: T::Language,
    waveform: Seq<X::Sample>,
    sample_rate: usize,
    setup: Setup,
    mels: M::Spectrogram,
) -> bool {
    &&& settled(whisper, bpe, extractor, lang, setup)
    &&& exists|window: Vec<X::Sample>|
        is_window(waveform, sample_rate, setup.window_len, window@) && #[trigger] call_ensures(
            X::to_spectrogram,
            (extractor, window, sample_rate, setup.n_mels),
            mels,
        )
}

/// The search over a window of `waveform` can give tokens that the tokenizer
/// can fail to decode.
pub open spec fn some_window_undecodable<M: Model, T: Tokenizer, X: FeatureExtractor<
    Spectrogram = M::Spectrogram,
>>(
    whisper: &M,
    bpe: &T,
    extractor: &X,
    lang: T::Language,
    waveform: Seq<X::Sample>,
    sample_rate: usize,
) -> bool {
    exists|setup: Setup, mels: M::Spectrogram| #[trigger]
        window_of(whisper, bpe, extractor, lang, waveform, sample_rate, setup, mels)
            && window_undecodable(
            whisper,
            bpe,
            extractor,
            setup.mask@,
            setup.prompt,
            mels,
            PADDING,
        )
}

/// The tokenizer can fail to decode what stitching the chunks of the first
/// windows of `waveform` gives.
pub open spec fn transcript_undecodable<M: Model, T: Tokenizer, X: FeatureExtractor<
    Spectrogram = M::Spectrogram,
>>(
    whisper: &M,
    bpe: &T,
    extractor: &X,
    lang: T::Language,
    waveform: Seq<X::Sample>,
    sample_rate: usize,
) -> bool {
    exists|setup: Setup, chunks: Seq<Seq<usize>>|
        settled(whisper, bpe, extractor, lang, setup) && #[trigger] windows_decoded(
            whisper,
            bpe,
            extractor,
            waveform,
            sample_rate,
            setup,
            chunks,
        ) && decode_fails(bpe, stitch_all(chunks), true)
}

/// The tokenizer can fail a transcription of `waveform`, other than by not
/// knowing the language: one of the four other lookups can fail, or the
/// decoding of a window's tokens or of the transcript can.
pub open spec fn tokenizer_fails<M: Model, T: Tokenizer, X: FeatureExtractor<
    Spectrogram = M::Spectrogram,
>>(
    whisper: &M,
    bpe: &T,
    extractor: &X,
    lang: T::Language,
    waveform: Seq<X::Sample>,
    sample_rate: usize,
) -> bool {
    ||| lookup_fails(bpe, SpecialToken::StartOfTranscript)
    ||| lookup_fails(bpe, SpecialToken::Transcribe)
    ||| lookup_fails(bpe, SpecialToken::NoTimestamps)
    ||| lookup_fails(bpe, SpecialToken::EndOfText)
    ||| some_window_undecodable(whisper, bpe, extractor, lang, waveform, sample_rate)
    ||| transcript_undecodable(whisper, bpe, extractor, lang, waveform, sample_rate)
}

/// The model can fail on a window of `waveform` ([`model_fails`]).
pub open spec fn model_fails_in<M: Model, T: Tokenizer, X: FeatureExtractor<
    Spectrogram = M::Spectrogram,
>>(
    whisper: &M,
    bpe: &T,
    extractor: &X,
    lang: T::Language,
    waveform: Seq<X::Sample>,
    sample_rate: usize,
) -> bool {
    exists|setup: Setup, mels: M::Spectrogram| #[trigger]
        window_of(whisper, bpe, extractor, lang, waveform, sample_rate, setup, mels)
            && model_fails(
            whisper,
            extractor,
            setup.mask@.len(),
            setup.prompt,
            mels,
            PADDING,
        )
}

/// A collaborator can fail the transcription of `waveform`: the tokenizer
/// can fail to name the language, or fail otherwise ([`tokenizer_fails`]);
/// the model's context can be too short for the padding; or the model can
/// fail on a window ([`model_fails_in`]).
pub open spec fn transcription_fails<M: Model, T: Tokenizer, X: FeatureExtractor<
    Spectrogram = M::Spectrogram,
>>(
    whisper: &M,
    bpe: &T,
    extractor: &X,
    lang: T::Language,
    waveform: Seq<X::Sample>,
    sample_rate: usize,
) -> bool {
    ||| lookup_fails(bpe, SpecialToken::Language(lang))
    ||| tokenizer_fails(whisper, bpe, extractor, lang, waveform, sample_rate)
    ||| context_short(whisper, PADDING)
    ||| model_fails_in(whisper, bpe, extractor, lang, waveform, sample_rate)
}

/// Transcribes a waveform.
///
/// The control tokens are looked up first: a failure for the language is
/// `UnknownLanguage`, for another token `TokenizerError` (see
/// [`prompt_of`]). The window length is what the feature extractor allows for
/// the encoder's context less [`PADDING`] frames; an encoder whose context is
/// shorter than the padding is a `ModelInferenceError`. Then every window of
/// the waveform, in order, is turned into a spectrogram, decoded by
/// [`mels_to_text`], stitched to the tokens so far with [`MAX_N_OFFSETS`] and
/// [`MIN_N_OVERLAPS`], and the whole is decoded to text without its special
/// tokens. Any failure ends the transcription; nothing partial is returned.
///
/// Whatever the collaborators do, the tokens of a success are the transcript
/// of the waveform ([`is_transcript`]), the text is what the tokenizer made
/// of them, and for a waveform without samples both text and tokens are
/// empty. There is no success where the tokenizer cannot answer one of the
/// five lookups or the model gives no context that holds the padding; the
/// error is `UnknownLanguage` where the first lookup cannot fail and the
/// language's cannot succeed.
///
/// Each kind of error names its cause: an `UnknownLanguage` means that the
/// language's lookup can fail; a `TokenizerError` that another lookup, or
/// the decoding of a window's tokens or of the transcript, can fail
/// ([`tokenizer_fails`]); a `ModelInferenceError` that the model's context
/// can be too short or that the model can fail on a window
/// ([`model_fails_in`]). Where no collaborator can fail
/// ([`transcription_fails`]) the waveform is transcribed.
pub fn waveform_to_text<M, T, X>(
    whisper: &M,
    bpe: &T,
    extractor: &X,
    lang: T::Language,
    waveform: Vec<X::Sample>,
    sample_rate: usize,
    streaming_mode: bool,
) -> (r: Result<(String, Vec<usize>), TranscribeError>) where
    M: Model,
    T: Tokenizer,
    X: FeatureExtractor<Spectrogram = M::Spectrogram>,
    X::Sample: Copy,

    ensures
        r matches Ok(out) ==> is_transcript(
            whisper,
            bpe,
            extractor,
            lang,
            waveform@,
            sample_rate,
            out.1@,
        ),
        r matches Ok(out) ==> (waveform@.len() == 0 ==> out.0@.len() == 0 && out.1@.len() == 0),
        r matches Ok(out) ==> (waveform@.len() > 0 ==> decoded_by(bpe, out.1@, true, out.0)),
        r matches Err(e) ==> e != TranscribeError::InvalidAudioFormat,
        r matches Err(e) ==> (e == TranscribeError::UnknownLanguage ==> lookup_fails(
            bpe,
            SpecialToken::Language(lang),
        )),
        !can_prompt(bpe, lang) ==> r is Err,
        !lookup_fails(bpe, SpecialToken::StartOfTranscript) && !can_look_up(
            bpe,
            SpecialToken::Language(lang),
        ) ==> (r matches Err(e) && e == TranscribeError::UnknownLanguage),
        context_below(whisper, PADDING) ==> r is Err,
        r matches Err(e) ==> (e == TranscribeError::TokenizerError ==> tokenizer_fails(
            whisper,
            bpe,
            extractor,
            lang,
            waveform@,
            sample_rate,
        )),
        r matches Err(e) ==> (e == TranscribeError::ModelInferenceError ==> context_short(
            whisper,
            PADDING,
        ) || model_fails_in(whisper, bpe, extractor, lang, waveform@, sample_rate)),
        !transcription_fails(whisper, bpe, extractor, lang, waveform@, sample_rate) ==> r is Ok,
{
    let ghost given = waveform@;
    let start = bpe.special_token(SpecialToken::StartOfTranscript);
    let language = bpe.special_token(SpecialToken::Language(lang));
    proof {
        if language is Err {
            assert(call_ensures(
                T::special_token,
                (bpe, SpecialToken::Language(lang)),
                Result::<usize, T::Error>::Err(language->Err_0),
            ));
            assert(lookup_fails(bpe, SpecialToken::Language(lang)));
        }
    }
    let task = bpe.special_token(SpecialToken::Transcribe);
    let no_timestamps = bpe.special_token(SpecialToken::NoTimestamps);
    let end = bpe.special_token(SpecialToken::EndOfText);
    proof {
        if start is Ok {
            assert(looked_up(bpe, SpecialToken::StartOfTranscript, start->Ok_0));
        } else {
            assert(call_ensures(
                T::special_token,
                (bpe, SpecialToken::StartOfTranscript),
                Result::<usize, T::Error>::Err(start->Err_0),
            ));
            assert(lookup_fails(bpe, SpecialToken::StartOfTranscript));
        }
        if language is Ok {
            assert(looked_up(bpe, SpecialToken::Language(lang), language->Ok_0));
        }
        if task is Ok {
            assert(looked_up(bpe, SpecialToken::Transcribe, task->Ok_0));
        } else {
            assert(call_ensures(
                T::special_token,
                (bpe, SpecialToken::Transcribe),
                Result::<usize, T::Error>::Err(task->Err_0),
            ));
            assert(lookup_fails(bpe, SpecialToken::Transcribe));
        }
        if no_timestamps is Ok {
            assert(looked_up(bpe, SpecialToken::NoTimestamps, no_timestamps->Ok_0));
        } else {
            assert(call_ensures(
                T::special_token,
                (bpe, SpecialToken::NoTimestamps),
                Result::<usize, T::Error>::Err(no_timestamps->Err_0),
            ));
            assert(lookup_fails(bpe, SpecialToken::NoTimestamps));
        }
        if end is Ok {
            assert(looked_up(bpe, SpecialToken::EndOfText, end->Ok_0));
        } else {
            assert(call_ensures(
                T::special_token,
                (bpe, SpecialToken::EndOfText),
                Result::<usize, T::Error>::Err(end->Err_0),
            ));
            assert(lookup_fails(bpe, SpecialToken::EndOfText));
        }
    }
    let prompt = match prompt_from(start, language, task, no_timestamps, end) {
        Ok(prompt) => prompt,
        Err(e) => {
            return Err(e);
        },
    };
    assert(prompt_for(bpe, lang, prompt));
    let mask = special_token_mask(bpe);
    let n_ctx_max_encoder = whisper.encoder_ctx_size();
    let room = match context_frames(n_ctx_max_encoder, PADDING) {
        Ok(room) => room,
        Err(e) => {
            proof {
                assert(call_ensures(M::encoder_ctx_size, (whisper,), n_ctx_max_encoder));
                assert(context_short(whisper, PADDING));
            }
            return Err(e);
        },
    };
    let n_waveform_samples_per_window = extractor.max_waveform_samples(room);
    assert(window_length_for(whisper, extractor, n_waveform_samples_per_window)) by {
        assert(call_ensures(M::encoder_ctx_size, (whisper,), n_ctx_max_encoder));
    }
    let n_mels = whisper.encoder_mel_size();
    let mut windows = AudioWindower::new(waveform, sample_rate, n_waveform_samples_per_window);
    let ghost plan = windows@;
    let ghost setup = Setup {
        prompt,
        mask,
        window_len: n_waveform_samples_per_window,
        n_mels,
    };
    let mut text = String::new();
    let mut tokens: Vec<usize> = Vec::new();
    let ghost mut chunks: Seq<Seq<usize>> = Seq::empty();
    assert(tokens@ =~= stitch_all(chunks));
    assert(plan == plan_of(given, sample_rate, setup.window_len));
    assert(settled(whisper, bpe, extractor, lang, setup));
    loop
        invariant
            can_prompt(bpe, lang),
            !context_below(whisper, PADDING),
            settled(whisper, bpe, extractor, lang, setup),
            setup.prompt == prompt,
            setup.mask == mask,
            setup.n_mels == n_mels,
            plan == plan_of(given, sample_rate, setup.window_len),
            given == waveform@,
            windows@.waveform == plan.waveform,
            windows@.window_len == plan.window_len,
            windows@.shift == plan.shift,
            windows@.next == chunks.len(),
            windows@.next <= plan.count(),
            forall|c: int|
                0 <= c < chunks.len() ==> chunk_of(
                    whisper,
                    bpe,
                    extractor,
                    mask,
                    prompt,
                    plan.window(c as nat),
                    sample_rate,
                    n_mels,
                    #[trigger] chunks[c],
                ),
            tokens@ == stitch_all(chunks),
            chunks.len() == 0 ==> text@.len() == 0,
            chunks.len() > 0 ==> decoded_by(bpe, tokens@, true, text),
        ensures
            chunks.len() == plan.count(),
        decreases plan.count() - windows@.next,
    {
        let window = match windows.next_window() {
            Some(window) => window,
            None => {
                break ;
            },
        };
        let ghost handed = window;
        let mel = extractor.to_spectrogram(window, sample_rate, n_mels);
        let ghost spectrogram = mel;
        let answer = mels_to_text(whisper, bpe, extractor, &prompt, &mask, mel, PADDING);
        let ghost returned = answer;
        proof {
            assert(handed@ == plan.window(chunks.len()));
            assert(is_window(given, sample_rate, setup.window_len, handed@));
            assert(call_ensures(
                X::to_spectrogram,
                (extractor, handed, sample_rate, n_mels),
                spectrogram,
            ));
            assert(window_of(
                whisper,
                bpe,
                extractor,
                lang,
                given,
                sample_rate,
                setup,
                spectrogram,
            ));
        }
        let new_tokens = match answer {
            Ok(out) => out.1,
            Err(e) => {
                return Err(e);
            },
        };
        proof {
            let before = chunks;
            chunks = chunks.push(new_tokens@);
            assert(chunks.drop_last() =~= before);
            assert(handed@ == plan.window(before.len()));
            assert(call_ensures(
                X::to_spectrogram,
                (extractor, handed, sample_rate, n_mels),
                spectrogram,
            ));
            assert(call_ensures(
                mels_to_text::<M, T, X>,
                (whisper, bpe, extractor, &prompt, &mask, spectrogram, PADDING),
                Result::<(String, Vec<usize>), TranscribeError>::Ok(returned->Ok_0),
            ));
            assert(chunk_of(
                whisper,
                bpe,
                extractor,
                mask,
                prompt,
                plan.window(before.len()),
                sample_rate,
                n_mels,
                new_tokens@,
            ));
        }
        stitch(&mut tokens, new_tokens.as_slice(), MAX_N_OFFSETS, MIN_N_OVERLAPS);
        let asked = tokens.as_slice();
        text =
        match bpe.decode(asked, true) {
            Ok(text) => text,
            Err(e) => {
                proof {
                    assert(call_ensures(
                        T::decode,
                        (bpe, asked, true),
                        Result::<String, T::Error>::Err(e),
                    ));
                    assert(decode_fails(bpe, stitch_all(chunks), true));
                    assert(windows_decoded(
                        whisper,
                        bpe,
                        extractor,
                        given,
                        sample_rate,
                        setup,
                        chunks,
                    ));
                    assert(transcript_undecodable(
                        whisper,
                        bpe,
                        extractor,
                        lang,
                        given,
                        sample_rate,
                    ));
                }
                return Err(TranscribeError::TokenizerError);
            },
        };
        assert(decoded_by(bpe, tokens@, true, text));
    }
    proof {
        assert(windows_decoded(whisper, bpe, extractor, given, sample_rate, setup, chunks));
        assert(transcript_of(
            whisper,
            bpe,
            extractor,
            lang,
            given,
            sample_rate,
            setup,
            chunks,
            tokens@,
        ));
        assert(is_transcript(whisper, bpe, extractor, lang, given, sample_rate, tokens@));
    }
    Ok((text, tokens))
}

} // verus!
