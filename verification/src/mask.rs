//! The special-token mask.
//!
//! Control tokens are held back while a sequence is short, so that decoding
//! begins with transcript content; later they are allowed, and end-of-text
//! can close the sequence. The mask is a vector over the vocabulary, negative
//! infinity at every special token and zero elsewhere, that is added to the
//! raw scores of the next token before they are normalised.

use crate::score::score_add;
use crate::score::score_sum;
use crate::score::NEG_INFINITY;
use vstd::prelude::*;

verus! {

/// The mask is applied to sequences of at most this many tokens, the prompt
/// included.
pub const MASKED_LENGTH: usize = 5;

/// The bias that the mask holds for a token.
pub open spec fn bias_of(special: bool) -> i64 {
    if special {
        NEG_INFINITY
    } else {
        0
    }
}

/// The scores of the next token after masking: the bias is added while the
/// sequence has at most [`MASKED_LENGTH`] tokens, and nothing is changed once
/// it is longer.
pub open spec fn masked_scores(scores: Seq<i64>, bias: Seq<i64>, seq_len: nat) -> Seq<i64> {
    if seq_len <= MASKED_LENGTH {
        Seq::new(scores.len(), |t: int| score_sum(scores[t], bias[t]))
    } else {
        scores
    }
}

/// A vector of additive biases, one for each entry of the vocabulary.
pub struct SpecialTokenMask {
    bias: Vec<i64>,
}

impl View for SpecialTokenMask {
    type V = Seq<i64>;

    closed spec fn view(&self) -> Seq<i64> {
        self.bias@
    }
}

impl SpecialTokenMask {
    #[verifier::type_invariant]
    spec fn well_formed(&self) -> bool {
        forall|t: int| 0 <= t < self.bias@.len() ==> self.bias@[t] == 0 || self.bias@[t] == NEG_INFINITY
    }

    /// The mask for a vocabulary of which `special[t]` says whether token `t`
    /// is special.
    pub fn from_flags(special: &[bool]) -> (mask: Self)
        ensures
            mask@.len() == special@.len(),
            forall|t: int| 0 <= t < special@.len() ==> mask@[t] == bias_of(special@[t]),
    {
        let mut bias: Vec<i64> = Vec::with_capacity(special.len());
        let mut t: usize = 0;
        while t < special.len()
            invariant
                t <= special.len(),
                bias.len() == t,
                forall|u: int| 0 <= u < t ==> bias@[u] == bias_of(special@[u]),
            decreases special.len() - t,
        {
            bias.push(if special[t] {
                NEG_INFINITY
            } else {
                0
            });
            t = t + 1;
        }
        SpecialTokenMask { bias }
    }

    /// The size of the vocabulary.
    pub fn len(&self) -> (n: usize)
        ensures
            n == self@.len(),
    {
        self.bias.len()
    }

    /// Whether the mask holds a token back.
    pub fn blocks(&self, token: usize) -> (b: bool)
        requires
            token < self@.len(),
        ensures
            b == (self@[token as int] == NEG_INFINITY),
            !b ==> self@[token as int] == 0,
    {
        proof {
            use_type_invariant(self);
        }
        self.bias[token] == NEG_INFINITY
    }

    /// Whether the mask is applied to a sequence of `seq_len` tokens.
    pub fn applies(seq_len: usize) -> (b: bool)
        ensures
            b == (seq_len <= MASKED_LENGTH),
    {
        seq_len <= MASKED_LENGTH
    }

    /// The raw scores of the next token of a sequence of `seq_len` tokens,
    /// masked.
    pub fn apply(&self, scores: &[i64], seq_len: usize) -> (masked: Vec<i64>)
        requires
            scores@.len() == self@.len(),
        ensures
            masked@ == masked_scores(scores@, self@, seq_len as nat),
    {
        let mut masked: Vec<i64> = Vec::with_capacity(scores.len());
        let add = Self::applies(seq_len);
        let mut t: usize = 0;
        while t < scores.len()
            invariant
                t <= scores.len(),
                scores@.len() == self.bias@.len(),
                add == (seq_len <= MASKED_LENGTH),
                masked.len() == t,
                forall|u: int|
                    0 <= u < t ==> masked@[u] == if add {
                        score_sum(scores@[u], self.bias@[u])
                    } else {
                        scores@[u]
                    },
            decreases scores.len() - t,
        {
            masked.push(if add {
                score_add(scores[t], self.bias[t])
            } else {
                scores[t]
            });
            t = t + 1;
        }
        assert(masked@ =~= masked_scores(scores@, self@, seq_len as nat));
        masked
    }
}

/// While a sequence has at most [`MASKED_LENGTH`] tokens, the masked score of
/// every special token is negative infinity and that of every other token is
/// its raw score; once it is longer, every token keeps its raw score.
pub proof fn lemma_masking(scores: Seq<i64>, special: Seq<bool>, bias: Seq<i64>, seq_len: nat, t: int)
    requires
        scores.len() == special.len(),
        bias.len() == special.len(),
        forall|u: int| 0 <= u < special.len() ==> bias[u] == bias_of(special[u]),
        0 <= t < scores.len(),
    ensures
        seq_len <= MASKED_LENGTH && special[t] ==> masked_scores(scores, bias, seq_len)[t]
            == NEG_INFINITY,
        seq_len <= MASKED_LENGTH && !special[t] ==> masked_scores(scores, bias, seq_len)[t]
            == scores[t],
        seq_len > MASKED_LENGTH ==> masked_scores(scores, bias, seq_len)[t] == scores[t],
{
}

} // verus!
