use whisper_stream::beam::BeamNode;
use whisper_stream::mask::SpecialTokenMask;
use whisper_stream::score::NEG_INFINITY;
use whisper_stream::transcribe::context_frames;
use whisper_stream::transcribe::continuations_of;
use whisper_stream::transcribe::ends_with;
use whisper_stream::transcribe::initial_beam;
use whisper_stream::transcribe::kept_frames;
use whisper_stream::transcribe::masked_row;
use whisper_stream::transcribe::masked_rows;
use whisper_stream::transcribe::mels_to_text;
use whisper_stream::transcribe::offered_from;
use whisper_stream::transcribe::offered_lists;
use whisper_stream::transcribe::prompt_from;
use whisper_stream::transcribe::score_beams;
use whisper_stream::transcribe::token_batch;
use whisper_stream::transcribe::waveform_to_text;
use whisper_stream::transcribe::FeatureExtractor;
use whisper_stream::transcribe::Model;
use whisper_stream::transcribe::Prompt;
use whisper_stream::transcribe::SpecialToken;
use whisper_stream::transcribe::Tokenizer;
use whisper_stream::transcribe::TranscribeError;
use whisper_stream::transcribe::BEAM_SIZE;
use whisper_stream::transcribe::MAX_DEPTH;
use whisper_stream::transcribe::MAX_N_OFFSETS;
use whisper_stream::transcribe::MIN_N_OVERLAPS;
use whisper_stream::transcribe::PADDING;

const VOCAB: usize = 32;
const SOT: usize = 20;
const LANG: usize = 21;
const TASK: usize = 22;
const NOTS: usize = 23;
const EOT: usize = 24;

/// A vocabulary of the numbers below 32, of which those from 20 on are
/// special.
struct Numbers {
    known_language: bool,
    known_task: bool,
    decodes: bool,
}

impl Numbers {
    fn new() -> Self {
        Numbers { known_language: true, known_task: true, decodes: true }
    }
}

impl Tokenizer for Numbers {
    type Language = &'static str;
    type Error = String;

    fn special_token(&self, kind: SpecialToken<&'static str>) -> Result<usize, String> {
        match kind {
            SpecialToken::StartOfTranscript => Ok(SOT),
            SpecialToken::Language(lang) => {
                if self.known_language && lang == "en" {
                    Ok(LANG)
                } else {
                    Err(format!("no language {lang}"))
                }
            }
            SpecialToken::Transcribe => {
                if self.known_task {
                    Ok(TASK)
                } else {
                    Err("no task".to_string())
                }
            }
            SpecialToken::NoTimestamps => Ok(NOTS),
            SpecialToken::EndOfText => Ok(EOT),
        }
    }

    fn is_special(&self, token: usize) -> bool {
        token >= 20
    }

    fn vocab_size(&self) -> usize {
        VOCAB
    }

    fn decode(&self, tokens: &[usize], skip_special: bool) -> Result<String, String> {
        if !self.decodes {
            return Err("undecodable".to_string());
        }
        let words: Vec<String> = tokens
            .iter()
            .filter(|&&t| !(skip_special && t >= 20))
            .map(|t| t.to_string())
            .collect();
        Ok(words.join(" "))
    }
}

/// Samples are numbers; a spectrogram has one frame for every sample.
struct Frames {
    window_len: usize,
}

impl FeatureExtractor for Frames {
    type Sample = usize;
    type Spectrogram = Vec<usize>;

    fn max_waveform_samples(&self, _n_frames: usize) -> usize {
        self.window_len
    }

    fn to_spectrogram(&self, window: Vec<usize>, _sample_rate: usize, _n_mels: usize) -> Vec<usize> {
        window
    }

    fn frames(&self, mel: &Vec<usize>) -> usize {
        mel.len()
    }

    fn clip_and_pad(&self, mel: Vec<usize>, keep: usize, padding: usize) -> Vec<usize> {
        let mut out: Vec<usize> = mel[..keep].to_vec();
        out.extend(std::iter::repeat(0).take(padding));
        out
    }
}

/// A model that speaks from a script: what it says for a window depends on
/// the window's first sample, and at every position it gives the scripted
/// token the score 0 and every other token -1000.
struct Scripted {
    ctx: usize,
    scripts: Vec<(usize, Vec<usize>)>,
    fails_to_encode: bool,
    fails_to_decode: bool,
    rows: usize,
    calls: std::cell::Cell<usize>,
    normalised: std::cell::Cell<usize>,
    batches: std::cell::RefCell<Vec<usize>>,
    encoded: std::cell::RefCell<Vec<usize>>,
}

impl Scripted {
    fn new(scripts: Vec<(usize, Vec<usize>)>) -> Self {
        Scripted {
            ctx: 300,
            scripts,
            fails_to_encode: false,
            fails_to_decode: false,
            rows: VOCAB,
            calls: std::cell::Cell::new(0),
            normalised: std::cell::Cell::new(0),
            batches: std::cell::RefCell::new(Vec::new()),
            encoded: std::cell::RefCell::new(Vec::new()),
        }
    }
}

impl Model for Scripted {
    type Spectrogram = Vec<usize>;
    type Encoding = Vec<usize>;
    type Error = String;

    fn encoder_ctx_size(&self) -> usize {
        self.ctx
    }

    fn encoder_mel_size(&self) -> usize {
        80
    }

    fn decoder_ctx_size(&self) -> usize {
        448
    }

    fn forward_encoder(&self, mel: Vec<usize>) -> Result<Vec<usize>, String> {
        if self.fails_to_encode {
            return Err("encoder".to_string());
        }
        self.encoded.borrow_mut().push(mel.len());
        let first = mel[0];
        let script = self.scripts.iter().find(|(start, _)| *start == first);
        Ok(script.map(|(_, s)| s.clone()).unwrap_or_default())
    }

    fn forward_decoder(
        &self,
        tokens: &[Vec<usize>],
        script: &Vec<usize>,
    ) -> Result<Vec<Vec<Vec<i64>>>, String> {
        if self.fails_to_decode {
            return Err("decoder".to_string());
        }
        self.calls.set(self.calls.get() + 1);
        self.batches.borrow_mut().push(tokens.len());
        Ok(tokens
            .iter()
            .map(|seq| {
                (0..seq.len())
                    .map(|position| {
                        let said = position + 1 - 4;
                        let next = if said < script.len() { script[said] } else { EOT };
                        let mut row = vec![-1000i64; self.rows];
                        if next < row.len() {
                            row[next] = 0;
                        }
                        row
                    })
                    .collect()
            })
            .collect())
    }

    fn log_softmax(&self, rows: &[Vec<i64>]) -> Vec<Vec<i64>> {
        self.normalised.set(self.normalised.get() + 1);
        rows.to_vec()
    }
}

fn prompt() -> Prompt {
    Prompt { start: SOT, language: LANG, task: TASK, no_timestamps: NOTS, end: EOT }
}

fn mask() -> SpecialTokenMask {
    let special: Vec<bool> = (0..VOCAB).map(|t| t >= 20).collect();
    SpecialTokenMask::from_flags(&special)
}

#[test]
fn the_policy_constants() {
    assert_eq!(PADDING, 200);
    assert_eq!(BEAM_SIZE, 5);
    assert_eq!(MAX_DEPTH, 30);
    assert_eq!(MAX_N_OFFSETS, 40);
    assert_eq!(MIN_N_OVERLAPS, 3);
}

#[test]
fn the_prompt_is_made_of_the_five_lookups() {
    let p = prompt_from::<()>(Ok(1), Ok(2), Ok(3), Ok(4), Ok(5)).unwrap();
    assert_eq!((p.start, p.language, p.task, p.no_timestamps, p.end), (1, 2, 3, 4, 5));
    let beam = initial_beam(&p);
    assert_eq!(beam.seq, vec![1, 2, 3, 4]);
    assert_eq!(beam.log_prob, 0);
}

#[test]
fn a_failed_language_lookup_is_an_unknown_language() {
    let r = prompt_from(Ok(1), Err("x"), Ok(3), Ok(4), Ok(5));
    assert!(matches!(r, Err(TranscribeError::UnknownLanguage)));
    let r = prompt_from(Ok(1), Err("x"), Err("y"), Err("z"), Err("w"));
    assert!(matches!(r, Err(TranscribeError::UnknownLanguage)));
}

#[test]
fn another_failed_lookup_is_a_tokenizer_error() {
    assert!(matches!(
        prompt_from(Err("x"), Ok(2), Ok(3), Ok(4), Ok(5)),
        Err(TranscribeError::TokenizerError)
    ));
    assert!(matches!(
        prompt_from(Err("x"), Err("y"), Ok(3), Ok(4), Ok(5)),
        Err(TranscribeError::TokenizerError)
    ));
    assert!(matches!(
        prompt_from(Ok(1), Ok(2), Err("x"), Ok(4), Ok(5)),
        Err(TranscribeError::TokenizerError)
    ));
    assert!(matches!(
        prompt_from(Ok(1), Ok(2), Ok(3), Err("x"), Ok(5)),
        Err(TranscribeError::TokenizerError)
    ));
    assert!(matches!(
        prompt_from(Ok(1), Ok(2), Ok(3), Ok(4), Err("x")),
        Err(TranscribeError::TokenizerError)
    ));
}

#[test]
fn frames_beyond_the_context_are_cut_off() {
    assert_eq!(kept_frames(1000, 1300), (1000, false));
    assert_eq!(kept_frames(1300, 1300), (1300, false));
    assert_eq!(kept_frames(1301, 1300), (1300, true));
    assert_eq!(kept_frames(5000, 1300), (1300, true));
    assert_eq!(kept_frames(0, 0), (0, false));
    assert_eq!(kept_frames(1, 0), (0, true));
    assert_eq!(kept_frames(usize::MAX, 0), (0, true));
}

#[test]
fn the_context_leaves_room_beside_the_padding() {
    assert!(matches!(context_frames(1500, 200), Ok(1300)));
    assert!(matches!(context_frames(200, 200), Ok(0)));
    assert!(matches!(context_frames(1500, 0), Ok(1500)));
    assert!(matches!(
        context_frames(199, 200),
        Err(TranscribeError::ModelInferenceError)
    ));
    assert!(matches!(
        context_frames(0, 1),
        Err(TranscribeError::ModelInferenceError)
    ));
}

#[test]
fn the_row_of_the_last_token_is_masked_while_the_sequence_is_short() {
    let mask = SpecialTokenMask::from_flags(&[false, true, false]);
    let scores = vec![vec![1, 2, 3], vec![4, 5, 6], vec![7, 8, 9]];
    assert_eq!(masked_row(&scores, &mask, 1).unwrap(), vec![1, NEG_INFINITY, 3]);
    assert_eq!(masked_row(&scores, &mask, 2).unwrap(), vec![4, NEG_INFINITY, 6]);
    assert_eq!(masked_row(&scores, &mask, 3).unwrap(), vec![7, NEG_INFINITY, 9]);
    let long = vec![vec![0, 0, 0]; 6];
    let mut rows = long.clone();
    rows[4] = vec![10, 11, 12];
    rows[5] = vec![13, 14, 15];
    assert_eq!(masked_row(&rows, &mask, 5).unwrap(), vec![10, NEG_INFINITY, 12]);
    assert_eq!(masked_row(&rows, &mask, 6).unwrap(), vec![13, 14, 15]);
}

#[test]
fn a_row_that_is_missing_or_of_another_width_is_a_model_error() {
    let mask = SpecialTokenMask::from_flags(&[false, true, false]);
    let scores = vec![vec![1, 2, 3], vec![4, 5]];
    assert!(matches!(
        masked_row(&scores, &mask, 0),
        Err(TranscribeError::ModelInferenceError)
    ));
    assert!(matches!(
        masked_row(&scores, &mask, 2),
        Err(TranscribeError::ModelInferenceError)
    ));
    assert!(matches!(
        masked_row(&scores, &mask, 3),
        Err(TranscribeError::ModelInferenceError)
    ));
    assert!(masked_row(&scores, &mask, 1).is_ok());
}

#[test]
fn every_beam_gets_the_masked_row_at_its_own_last_token() {
    let mask = SpecialTokenMask::from_flags(&[false, true]);
    let beams = [
        BeamNode { seq: vec![7], log_prob: 0 },
        BeamNode { seq: vec![7, 8, 9, 7, 8, 9], log_prob: -1 },
    ];
    let mut long = vec![vec![0, 0]; 6];
    long[5] = vec![5, 6];
    let scores = vec![vec![vec![1, 2], vec![3, 4]], long];
    assert_eq!(
        masked_rows(&scores, &mask, &beams).unwrap(),
        vec![vec![1, NEG_INFINITY], vec![5, 6]]
    );
    assert_eq!(masked_rows(&[], &mask, &[]).unwrap(), Vec::<Vec<i64>>::new());
}

#[test]
fn an_answer_that_does_not_fit_the_beams_is_a_model_error() {
    let mask = SpecialTokenMask::from_flags(&[false, true]);
    let beams = [
        BeamNode { seq: vec![7], log_prob: 0 },
        BeamNode { seq: vec![7, 8], log_prob: -1 },
    ];
    let one = vec![vec![vec![1, 2]]];
    assert!(matches!(
        masked_rows(&one, &mask, &beams),
        Err(TranscribeError::ModelInferenceError)
    ));
    let short = vec![vec![vec![1, 2]], vec![vec![3, 4]]];
    assert!(matches!(
        masked_rows(&short, &mask, &beams),
        Err(TranscribeError::ModelInferenceError)
    ));
    let wide = vec![vec![vec![1, 2]], vec![vec![3, 4], vec![5, 6, 7]]];
    assert!(matches!(
        masked_rows(&wide, &mask, &beams),
        Err(TranscribeError::ModelInferenceError)
    ));
    let fits = vec![vec![vec![1, 2]], vec![vec![3], vec![5, 6]]];
    assert_eq!(
        masked_rows(&fits, &mask, &beams).unwrap(),
        vec![vec![1, NEG_INFINITY], vec![5, NEG_INFINITY]]
    );
}

#[test]
fn the_log_probabilities_of_a_batch_are_offered_beam_by_beam() {
    assert_eq!(
        offered_lists(&[vec![-3, -1], vec![NEG_INFINITY, 0]], 2, 2).unwrap(),
        vec![vec![(0, -3), (1, -1)], vec![(0, NEG_INFINITY), (1, 0)]]
    );
    assert_eq!(offered_lists(&[], 0, 7).unwrap(), Vec::<Vec<(usize, i64)>>::new());
    assert!(matches!(
        offered_lists(&[vec![-3, -1]], 2, 2),
        Err(TranscribeError::ModelInferenceError)
    ));
    assert!(matches!(
        offered_lists(&[vec![-3, -1], vec![-2]], 2, 2),
        Err(TranscribeError::ModelInferenceError)
    ));
    assert!(matches!(
        offered_lists(&[vec![-3, -1], vec![-2, -4]], 2, 3),
        Err(TranscribeError::ModelInferenceError)
    ));
}

#[test]
fn log_probabilities_of_the_vocabulary_are_offered_token_by_token() {
    assert_eq!(
        offered_from(&[-3, -1, NEG_INFINITY], 3).unwrap(),
        vec![(0, -3), (1, -1), (2, NEG_INFINITY)]
    );
    assert_eq!(offered_from(&[], 0).unwrap(), vec![]);
    assert!(matches!(
        offered_from(&[-3, -1], 3),
        Err(TranscribeError::ModelInferenceError)
    ));
    assert!(matches!(
        offered_from(&[-3, -1, -2, -4], 3),
        Err(TranscribeError::ModelInferenceError)
    ));
}

#[test]
fn a_sequence_is_finished_by_the_end_token() {
    assert!(ends_with(&[1, 2, EOT], EOT));
    assert!(!ends_with(&[1, EOT, 2], EOT));
    assert!(!ends_with(&[], EOT));
}

#[test]
fn a_batch_is_filled_up_with_zeros() {
    let beams = [
        BeamNode { seq: vec![1, 2, 3], log_prob: 0 },
        BeamNode { seq: vec![4], log_prob: 0 },
        BeamNode { seq: vec![], log_prob: 0 },
    ];
    assert_eq!(token_batch(&beams), vec![vec![1, 2, 3], vec![4, 0, 0], vec![0, 0, 0]]);
    assert!(token_batch(&[]).is_empty());
}

#[test]
fn continuations_offer_every_token_in_turn() {
    assert_eq!(continuations_of(&[-5, -1, NEG_INFINITY]), vec![(0, -5), (1, -1), (2, NEG_INFINITY)]);
    assert!(continuations_of(&[]).is_empty());
}

#[test]
fn short_sequences_are_scored_with_the_special_tokens_masked() {
    let model = Scripted::new(vec![]);
    // The script is empty: the model wants the end token at once.
    let script: Vec<usize> = Vec::new();
    let beams = [BeamNode { seq: vec![SOT, LANG, TASK, NOTS], log_prob: -7 }];
    let lists = score_beams(&model, &script, &mask(), &beams).unwrap();
    assert_eq!(lists.len(), 1);
    assert_eq!(lists[0].len(), VOCAB);
    for (t, &(token, score)) in lists[0].iter().enumerate() {
        assert_eq!(token, t);
        assert_eq!(score, if t >= 20 { NEG_INFINITY } else { -1000 });
    }
}

#[test]
fn longer_sequences_are_scored_unmasked() {
    let model = Scripted::new(vec![]);
    let script: Vec<usize> = Vec::new();
    let beams = [BeamNode { seq: vec![SOT, LANG, TASK, NOTS, 1, 2], log_prob: -7 }];
    let lists = score_beams(&model, &script, &mask(), &beams).unwrap();
    for (t, &(token, score)) in lists[0].iter().enumerate() {
        assert_eq!(token, t);
        assert_eq!(score, if t == EOT { 0 } else { -1000 });
    }
}

#[test]
fn every_beam_is_scored_at_its_own_last_token() {
    let model = Scripted::new(vec![]);
    let script = vec![1usize, 2, 3];
    let beams = [
        BeamNode { seq: vec![SOT, LANG, TASK, NOTS, 1, 2], log_prob: 0 },
        BeamNode { seq: vec![SOT, LANG, TASK, NOTS, 1, 2, 3], log_prob: 0 },
    ];
    let lists = score_beams(&model, &script, &mask(), &beams).unwrap();
    assert_eq!(model.calls.get(), 1);
    assert_eq!(model.normalised.get(), 1);
    assert_eq!(lists[0][3], (3, 0));
    assert_eq!(lists[0][EOT], (EOT, -1000));
    assert_eq!(lists[1][3], (3, -1000));
    assert_eq!(lists[1][EOT], (EOT, 0));
}

#[test]
fn a_wrong_shape_is_a_model_error() {
    let script: Vec<usize> = Vec::new();
    let mut model = Scripted::new(vec![]);
    model.rows = VOCAB - 1;
    let beams = [BeamNode { seq: vec![SOT, LANG, TASK, NOTS], log_prob: 0 }];
    assert!(matches!(
        score_beams(&model, &script, &mask(), &beams),
        Err(TranscribeError::ModelInferenceError)
    ));
    let model = Scripted::new(vec![]);
    let empty = [BeamNode { seq: vec![], log_prob: 0 }];
    assert!(matches!(
        score_beams(&model, &script, &mask(), &empty),
        Err(TranscribeError::ModelInferenceError)
    ));
    let mut model = Scripted::new(vec![]);
    model.fails_to_decode = true;
    assert!(matches!(
        score_beams(&model, &script, &mask(), &beams),
        Err(TranscribeError::ModelInferenceError)
    ));
}

#[test]
fn a_window_is_decoded_from_the_prompt_to_the_end_token() {
    let model = Scripted::new(vec![(7, vec![1, 2, 3])]);
    let (text, tokens) =
        mels_to_text(&model, &Numbers::new(), &Frames { window_len: 8 }, &prompt(), &mask(), vec![7, 8, 9], PADDING)
            .unwrap();
    assert_eq!(tokens, vec![SOT, LANG, TASK, NOTS, 1, 2, 3, EOT]);
    assert_eq!(text, "20 21 22 23 1 2 3 24");
    // Three frames and the padding were encoded.
    assert_eq!(*model.encoded.borrow(), vec![3 + PADDING]);
    // One call of the decoder for every step, with all unfinished beams: the
    // winner is finished after four steps and is not handed over in the
    // fifth, after which every beam is finished.
    assert_eq!(model.calls.get(), 5);
    assert_eq!(*model.batches.borrow(), vec![1, 5, 5, 5, 4]);
}

#[test]
fn a_long_spectrogram_is_clipped_to_the_context() {
    let model = Scripted::new(vec![(1, vec![4, 5])]);
    let mel: Vec<usize> = vec![1; 500];
    let (_, tokens) =
        mels_to_text(&model, &Numbers::new(), &Frames { window_len: 8 }, &prompt(), &mask(), mel, PADDING)
            .unwrap();
    assert_eq!(tokens, vec![SOT, LANG, TASK, NOTS, 4, 5, EOT]);
    assert_eq!(*model.encoded.borrow(), vec![300]);
}

#[test]
fn special_tokens_cannot_be_among_the_first_two() {
    // The model wants the end token at once, but it is masked for sequences
    // of four and five tokens: two other tokens come first.
    let model = Scripted::new(vec![(1, vec![])]);
    let (_, tokens) =
        mels_to_text(&model, &Numbers::new(), &Frames { window_len: 8 }, &prompt(), &mask(), vec![1], PADDING)
            .unwrap();
    assert_eq!(tokens, vec![SOT, LANG, TASK, NOTS, 0, 0, EOT]);
}

#[test]
fn the_depth_bounds_a_window_that_never_ends() {
    let model = Scripted::new(vec![(1, vec![3; 100])]);
    let (_, tokens) =
        mels_to_text(&model, &Numbers::new(), &Frames { window_len: 8 }, &prompt(), &mask(), vec![1], PADDING)
            .unwrap();
    assert_eq!(tokens.len(), 4 + MAX_DEPTH);
    assert_eq!(tokens[..4], [SOT, LANG, TASK, NOTS]);
    assert!(tokens[4..].iter().all(|&t| t == 3));
    assert_eq!(model.calls.get(), MAX_DEPTH);
}

#[test]
fn a_context_shorter_than_the_padding_is_a_model_error() {
    let mut model = Scripted::new(vec![(1, vec![4])]);
    model.ctx = 199;
    let r = mels_to_text(&model, &Numbers::new(), &Frames { window_len: 8 }, &prompt(), &mask(), vec![1], PADDING);
    assert!(matches!(r, Err(TranscribeError::ModelInferenceError)));
    let waveform: Vec<usize> = (0..10).collect();
    let r = waveform_to_text(&model, &Numbers::new(), &Frames { window_len: 8 }, "en", waveform, 1, false);
    assert!(matches!(r, Err(TranscribeError::ModelInferenceError)));
}

#[test]
fn two_overlapping_windows_give_the_shared_tokens_once() {
    // Windows of 8 samples, overlap 3, shift 5: [0, 8) and [5, 10).
    let model = Scripted::new(vec![
        (0, vec![1, 2, 3, 4, 5, 6, 7, 8]),
        (5, vec![5, 6, 7, 8, 9]),
    ]);
    let waveform: Vec<usize> = (0..10).collect();
    let (text, tokens) =
        waveform_to_text(&model, &Numbers::new(), &Frames { window_len: 8 }, "en", waveform, 1, false)
            .unwrap();
    assert_eq!(tokens, vec![SOT, LANG, TASK, NOTS, 1, 2, 3, 4, 5, 6, 7, 8, 9, EOT]);
    assert_eq!(text, "1 2 3 4 5 6 7 8 9");
    assert_eq!(*model.encoded.borrow(), vec![8 + PADDING, 5 + PADDING]);
}

#[test]
fn windows_that_agree_in_their_prompt_alone_are_cut_at_the_prompt() {
    let model = Scripted::new(vec![(0, vec![1, 2]), (5, vec![3, 4])]);
    let waveform: Vec<usize> = (0..10).collect();
    let (text, tokens) =
        waveform_to_text(&model, &Numbers::new(), &Frames { window_len: 8 }, "en", waveform, 1, true)
            .unwrap();
    // Both sequences have seven tokens. At the offset where they face each
    // other in full, the four prompt tokens and the end token agree: the
    // transcript is cut at its start and the second sequence replaces it.
    assert_eq!(tokens, vec![SOT, LANG, TASK, NOTS, 3, 4, EOT]);
    assert_eq!(text, "3 4");
}

#[test]
fn a_waveform_without_samples_gives_an_empty_transcript() {
    let model = Scripted::new(vec![]);
    let (text, tokens) =
        waveform_to_text(&model, &Numbers::new(), &Frames { window_len: 8 }, "en", Vec::new(), 16000, false)
            .unwrap();
    assert_eq!(text, "");
    assert!(tokens.is_empty());
    assert_eq!(model.calls.get(), 0);
}

#[test]
fn an_unknown_language_fails_before_any_window() {
    let model = Scripted::new(vec![(0, vec![1])]);
    let waveform: Vec<usize> = (0..10).collect();
    let r = waveform_to_text(&model, &Numbers::new(), &Frames { window_len: 8 }, "xx", waveform, 1, false);
    assert!(matches!(r, Err(TranscribeError::UnknownLanguage)));
    assert_eq!(model.calls.get(), 0);
}

#[test]
fn a_tokenizer_failure_ends_the_transcription() {
    let model = Scripted::new(vec![(0, vec![1]), (5, vec![2])]);
    let waveform: Vec<usize> = (0..10).collect();
    let mut bpe = Numbers::new();
    bpe.known_task = false;
    let r = waveform_to_text(&model, &bpe, &Frames { window_len: 8 }, "en", waveform.clone(), 1, false);
    assert!(matches!(r, Err(TranscribeError::TokenizerError)));
    let mut bpe = Numbers::new();
    bpe.decodes = false;
    let r = waveform_to_text(&model, &bpe, &Frames { window_len: 8 }, "en", waveform, 1, false);
    assert!(matches!(r, Err(TranscribeError::TokenizerError)));
}

#[test]
fn a_model_failure_ends_the_transcription() {
    let waveform: Vec<usize> = (0..10).collect();
    let mut model = Scripted::new(vec![(0, vec![1])]);
    model.fails_to_encode = true;
    let r = waveform_to_text(&model, &Numbers::new(), &Frames { window_len: 8 }, "en", waveform.clone(), 1, false);
    assert!(matches!(r, Err(TranscribeError::ModelInferenceError)));
    let mut model = Scripted::new(vec![(0, vec![1])]);
    model.fails_to_decode = true;
    let r = waveform_to_text(&model, &Numbers::new(), &Frames { window_len: 8 }, "en", waveform, 1, false);
    assert!(matches!(r, Err(TranscribeError::ModelInferenceError)));
}
