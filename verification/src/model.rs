//! The shape of the model.
//!
//! The configurations say how large each part of the encoder and of the
//! decoder is. Building the parts is left to the tensor backend; what is
//! decided here is which sizes fit together, which configuration each part is
//! built from, and where the decoder may attend.

use crate::score::NEG_INFINITY;
use vstd::prelude::*;

verus! {

/// Why a configuration cannot be built.
#[derive(Clone, Copy, Debug)]
pub enum ConfigError {
    /// The encoder's and the decoder's state sizes differ.
    StateSize,
    /// The state size is no multiple of the number of attention heads, or
    /// there is no head at all.
    HeadCount,
    /// Four times the state size, the width of the feed-forward layer, does
    /// not fit the machine's word.
    HiddenSize,
    /// The decoder's context holds no token.
    EmptyContext,
}

/// Self-attention over `n_state` channels, split among `n_head` heads.
#[derive(Clone, Copy, Debug)]
pub struct MultiHeadSelfAttentionConfig {
    pub n_state: usize,
    pub n_head: usize,
}

/// Cross-attention over `n_state` channels, split among `n_head` heads.
#[derive(Clone, Copy, Debug)]
pub struct MultiHeadCrossAttentionConfig {
    pub n_state: usize,
    pub n_head: usize,
}

/// The feed-forward layer of a block.
#[derive(Clone, Copy, Debug)]
pub struct MLPConfig {
    pub n_state: usize,
}

/// One block of the encoder.
#[derive(Clone, Copy, Debug)]
pub struct ResidualEncoderAttentionBlockConfig {
    pub n_state: usize,
    pub n_head: usize,
}

/// One block of the decoder.
#[derive(Clone, Copy, Debug)]
pub struct ResidualDecoderAttentionBlockConfig {
    pub n_state: usize,
    pub n_head: usize,
}

/// The audio encoder.
#[derive(Clone, Copy, Debug)]
pub struct AudioEncoderConfig {
    pub n_mels: usize,
    pub n_audio_ctx: usize,
    pub n_audio_state: usize,
    pub n_audio_head: usize,
    pub n_audio_layer: usize,
}

/// The text decoder.
#[derive(Clone, Copy, Debug)]
pub struct TextDecoderConfig {
    pub n_vocab: usize,
    pub n_text_ctx: usize,
    pub n_text_state: usize,
    pub n_text_head: usize,
    pub n_text_layer: usize,
}

/// The whole model.
#[derive(Clone, Copy, Debug)]
pub struct WhisperConfig {
    pub audio_encoder_config: AudioEncoderConfig,
    pub text_decoder_config: TextDecoderConfig,
}

/// The heads divide the state evenly.
pub open spec fn heads_fit(n_state: usize, n_head: usize) -> bool {
    n_head > 0 && n_state % n_head == 0
}

/// The feed-forward layer over `n_state` channels can be sized.
pub open spec fn hidden_fits(n_state: usize) -> bool {
    4 * n_state <= usize::MAX
}

/// What stands in the way of building a block over `n_state` channels with
/// `n_head` heads: the attention is built first, the feed-forward layer after
/// it.
pub open spec fn block_fault(n_state: usize, n_head: usize) -> Option<ConfigError> {
    if !heads_fit(n_state, n_head) {
        Some(ConfigError::HeadCount)
    } else if !hidden_fits(n_state) {
        Some(ConfigError::HiddenSize)
    } else {
        None
    }
}

fn check_heads(n_state: usize, n_head: usize) -> (r: Result<(), ConfigError>)
    ensures
        r is Ok <==> heads_fit(n_state, n_head),
        r matches Err(e) ==> e == ConfigError::HeadCount,
{
    if n_head == 0 || n_state % n_head != 0 {
        Err(ConfigError::HeadCount)
    } else {
        Ok(())
    }
}

fn check_block(n_state: usize, n_head: usize) -> (r: Result<(), ConfigError>)
    ensures
        match r {
            Ok(_) => block_fault(n_state, n_head) is None,
            Err(e) => block_fault(n_state, n_head) == Some(e),
        },
{
    if n_head == 0 || n_state % n_head != 0 {
        Err(ConfigError::HeadCount)
    } else if n_state > usize::MAX / 4 {
        Err(ConfigError::HiddenSize)
    } else {
        Ok(())
    }
}

impl MultiHeadSelfAttentionConfig {
    pub fn new(n_state: usize, n_head: usize) -> (config: Self)
        ensures
            config.n_state == n_state,
            config.n_head == n_head,
    {
        MultiHeadSelfAttentionConfig { n_state, n_head }
    }

    /// The attention can be built.
    pub open spec fn valid(&self) -> bool {
        heads_fit(self.n_state, self.n_head)
    }

    /// Says whether the attention can be built.
    pub fn check(&self) -> (r: Result<(), ConfigError>)
        ensures
            r is Ok <==> self.valid(),
            r matches Err(e) ==> e == ConfigError::HeadCount,
    {
        check_heads(self.n_state, self.n_head)
    }

    /// The number of channels of one head.
    pub fn head_size(&self) -> (n: usize)
        requires
            self.valid(),
        ensures
            n == self.n_state / self.n_head,
            n * self.n_head == self.n_state,
    {
        let n = self.n_state / self.n_head;
        assert(n * self.n_head == self.n_state) by (nonlinear_arith)
            requires
                n == self.n_state / self.n_head,
                self.n_head > 0,
                self.n_state % self.n_head == 0,
        ;
        n
    }
}

impl MultiHeadCrossAttentionConfig {
    pub fn new(n_state: usize, n_head: usize) -> (config: Self)
        ensures
            config.n_state == n_state,
            config.n_head == n_head,
    {
        MultiHeadCrossAttentionConfig { n_state, n_head }
    }

    /// The attention can be built.
    pub open spec fn valid(&self) -> bool {
        heads_fit(self.n_state, self.n_head)
    }

    /// Says whether the attention can be built.
    pub fn check(&self) -> (r: Result<(), ConfigError>)
        ensures
            r is Ok <==> self.valid(),
            r matches Err(e) ==> e == ConfigError::HeadCount,
    {
        check_heads(self.n_state, self.n_head)
    }

    /// The number of channels of one head.
    pub fn head_size(&self) -> (n: usize)
        requires
            self.valid(),
        ensures
            n == self.n_state / self.n_head,
            n * self.n_head == self.n_state,
    {
        let n = self.n_state / self.n_head;
        assert(n * self.n_head == self.n_state) by (nonlinear_arith)
            requires
                n == self.n_state / self.n_head,
                self.n_head > 0,
                self.n_state % self.n_head == 0,
        ;
        n
    }
}

impl MLPConfig {
    pub fn new(n_state: usize) -> (config: Self)
        ensures
            config.n_state == n_state,
    {
        MLPConfig { n_state }
    }

    /// The layer can be sized.
    pub open spec fn valid(&self) -> bool {
        hidden_fits(self.n_state)
    }

    /// The width of the layer between its two projections, four times the
    /// state size, or `None` where that does not fit.
    pub fn hidden_size(&self) -> (n: Option<usize>)
        ensures
            match n {
                Some(width) => self.valid() && width == 4 * self.n_state,
                None => !self.valid(),
            },
    {
        self.n_state.checked_mul(4)
    }
}

impl ResidualEncoderAttentionBlockConfig {
    pub fn new(n_state: usize, n_head: usize) -> (config: Self)
        ensures
            config.n_state == n_state,
            config.n_head == n_head,
    {
        ResidualEncoderAttentionBlockConfig { n_state, n_head }
    }

    /// The block can be built.
    pub open spec fn valid(&self) -> bool {
        block_fault(self.n_state, self.n_head) is None
    }

    /// Says whether the block can be built, and if not, what fails first.
    pub fn check(&self) -> (r: Result<(), ConfigError>)
        ensures
            match r {
                Ok(_) => self.valid(),
                Err(e) => block_fault(self.n_state, self.n_head) == Some(e),
            },
    {
        check_block(self.n_state, self.n_head)
    }

    /// The configuration of the block's self-attention.
    pub fn attn_config(&self) -> (config: MultiHeadSelfAttentionConfig)
        ensures
            config.n_state == self.n_state,
            config.n_head == self.n_head,
            self.valid() ==> config.valid(),
    {
        MultiHeadSelfAttentionConfig::new(self.n_state, self.n_head)
    }

    /// The configuration of the block's feed-forward layer.
    pub fn mlp_config(&self) -> (config: MLPConfig)
        ensures
            config.n_state == self.n_state,
            self.valid() ==> config.valid(),
    {
        MLPConfig::new(self.n_state)
    }
}

impl ResidualDecoderAttentionBlockConfig {
    pub fn new(n_state: usize, n_head: usize) -> (config: Self)
        ensures
            config.n_state == n_state,
            config.n_head == n_head,
    {
        ResidualDecoderAttentionBlockConfig { n_state, n_head }
    }

    /// The block can be built.
    pub open spec fn valid(&self) -> bool {
        block_fault(self.n_state, self.n_head) is None
    }

    /// Says whether the block can be built, and if not, what fails first.
    pub fn check(&self) -> (r: Result<(), ConfigError>)
        ensures
            match r {
                Ok(_) => self.valid(),
                Err(e) => block_fault(self.n_state, self.n_head) == Some(e),
            },
    {
        check_block(self.n_state, self.n_head)
    }

    /// The configuration of the block's self-attention.
    pub fn attn_config(&self) -> (config: MultiHeadSelfAttentionConfig)
        ensures
            config.n_state == self.n_state,
            config.n_head == self.n_head,
            self.valid() ==> config.valid(),
    {
        MultiHeadSelfAttentionConfig::new(self.n_state, self.n_head)
    }

    /// The configuration of the block's attention to the encoder's output.
    pub fn cross_attn_config(&self) -> (config: MultiHeadCrossAttentionConfig)
        ensures
            config.n_state == self.n_state,
            config.n_head == self.n_head,
            self.valid() ==> config.valid(),
    {
        MultiHeadCrossAttentionConfig::new(self.n_state, self.n_head)
    }

    /// The configuration of the block's feed-forward layer.
    pub fn mlp_config(&self) -> (config: MLPConfig)
        ensures
            config.n_state == self.n_state,
            self.valid() ==> config.valid(),
    {
        MLPConfig::new(self.n_state)
    }
}

impl AudioEncoderConfig {
    pub fn new(
        n_mels: usize,
        n_audio_ctx: usize,
        n_audio_state: usize,
        n_audio_head: usize,
        n_audio_layer: usize,
    ) -> (config: Self)
        ensures
            config.n_mels == n_mels,
            config.n_audio_ctx == n_audio_ctx,
            config.n_audio_state == n_audio_state,
            config.n_audio_head == n_audio_head,
            config.n_audio_layer == n_audio_layer,
    {
        AudioEncoderConfig { n_mels, n_audio_ctx, n_audio_state, n_audio_head, n_audio_layer }
    }

    /// What stands in the way of building the encoder: the fault of its
    /// blocks, if it has any block.
    pub open spec fn fault(&self) -> Option<ConfigError> {
        if self.n_audio_layer == 0 {
            None
        } else {
            block_fault(self.n_audio_state, self.n_audio_head)
        }
    }

    /// The encoder can be built.
    pub open spec fn valid(&self) -> bool {
        self.fault() is None
    }

    /// Says whether the encoder can be built, and if not, what fails first.
    pub fn check(&self) -> (r: Result<(), ConfigError>)
        ensures
            match r {
                Ok(_) => self.valid(),
                Err(e) => self.fault() == Some(e),
            },
    {
        if self.n_audio_layer == 0 {
            Ok(())
        } else {
            check_block(self.n_audio_state, self.n_audio_head)
        }
    }

    /// The configuration from which each of the `n_audio_layer` blocks is
    /// built.
    pub fn block_config(&self) -> (config: ResidualEncoderAttentionBlockConfig)
        ensures
            config.n_state == self.n_audio_state,
            config.n_head == self.n_audio_head,
            self.valid() && self.n_audio_layer > 0 ==> config.valid(),
    {
        ResidualEncoderAttentionBlockConfig::new(self.n_audio_state, self.n_audio_head)
    }
}

impl TextDecoderConfig {
    pub fn new(
        n_vocab: usize,
        n_text_ctx: usize,
        n_text_state: usize,
        n_text_head: usize,
        n_text_layer: usize,
    ) -> (config: Self)
        ensures
            config.n_vocab == n_vocab,
            config.n_text_ctx == n_text_ctx,
            config.n_text_state == n_text_state,
            config.n_text_head == n_text_head,
            config.n_text_layer == n_text_layer,
    {
        TextDecoderConfig { n_vocab, n_text_ctx, n_text_state, n_text_head, n_text_layer }
    }

    /// What stands in the way of building the decoder: the fault of its
    /// blocks, if it has any block, else an empty context, which leaves the
    /// attention mask without a row.
    pub open spec fn fault(&self) -> Option<ConfigError> {
        if self.n_text_layer > 0 && block_fault(self.n_text_state, self.n_text_head) is Some {
            block_fault(self.n_text_state, self.n_text_head)
        } else if self.n_text_ctx == 0 {
            Some(ConfigError::EmptyContext)
        } else {
            None
        }
    }

    /// The decoder can be built.
    pub open spec fn valid(&self) -> bool {
        self.fault() is None
    }

    /// Says whether the decoder can be built, and if not, what fails first.
    pub fn check(&self) -> (r: Result<(), ConfigError>)
        ensures
            match r {
                Ok(_) => self.valid(),
                Err(e) => self.fault() == Some(e),
            },
    {
        if self.n_text_layer > 0 {
            match check_block(self.n_text_state, self.n_text_head) {
                Ok(_) => {},
                Err(e) => {
                    return Err(e);
                },
            }
        }
        if self.n_text_ctx == 0 {
            Err(ConfigError::EmptyContext)
        } else {
            Ok(())
        }
    }

    /// The configuration from which each of the `n_text_layer` blocks is
    /// built.
    pub fn block_config(&self) -> (config: ResidualDecoderAttentionBlockConfig)
        ensures
            config.n_state == self.n_text_state,
            config.n_head == self.n_text_head,
            self.valid() && self.n_text_layer > 0 ==> config.valid(),
    {
        ResidualDecoderAttentionBlockConfig::new(self.n_text_state, self.n_text_head)
    }
}

impl WhisperConfig {
    pub fn new(audio_encoder_config: AudioEncoderConfig, text_decoder_config: TextDecoderConfig) -> (config:
        Self)
        ensures
            config.audio_encoder_config == audio_encoder_config,
            config.text_decoder_config == text_decoder_config,
    {
        WhisperConfig { audio_encoder_config, text_decoder_config }
    }

    /// What stands in the way of building the model: differing state sizes,
    /// else the encoder's fault, else the decoder's.
    pub open spec fn fault(&self) -> Option<ConfigError> {
        if self.audio_encoder_config.n_audio_state != self.text_decoder_config.n_text_state {
            Some(ConfigError::StateSize)
        } else if self.audio_encoder_config.fault() is Some {
            self.audio_encoder_config.fault()
        } else {
            self.text_decoder_config.fault()
        }
    }

    /// The model can be built.
    pub open spec fn valid(&self) -> bool {
        self.fault() is None
    }

    /// Says whether the model can be built, and if not, what fails first.
    pub fn check(&self) -> (r: Result<(), ConfigError>)
        ensures
            match r {
                Ok(_) => self.valid(),
                Err(e) => self.fault() == Some(e),
            },
    {
        if self.audio_encoder_config.n_audio_state != self.text_decoder_config.n_text_state {
            return Err(ConfigError::StateSize);
        }
        match self.audio_encoder_config.check() {
            Ok(_) => {},
            Err(e) => {
                return Err(e);
            },
        }
        self.text_decoder_config.check()
    }

    /// The most frames that the encoder takes.
    pub fn encoder_ctx_size(&self) -> (n: usize)
        ensures
            n == self.audio_encoder_config.n_audio_ctx,
    {
        self.audio_encoder_config.n_audio_ctx
    }

    /// The number of mel channels that the encoder takes.
    pub fn encoder_mel_size(&self) -> (n: usize)
        ensures
            n == self.audio_encoder_config.n_mels,
    {
        self.audio_encoder_config.n_mels
    }

    /// The most tokens that the decoder takes.
    pub fn decoder_ctx_size(&self) -> (n: usize)
        ensures
            n == self.text_decoder_config.n_text_ctx,
    {
        self.text_decoder_config.n_text_ctx
    }
}

/// The bias that keeps the decoder from attending to later positions:
/// negative infinity where the column lies behind the row, zero elsewhere.
pub open spec fn causal_bias(row: int, column: int) -> i64 {
    if column > row {
        NEG_INFINITY
    } else {
        0
    }
}

/// The decoder's attention mask for `seq_length` positions, row by row.
pub fn attn_decoder_mask(seq_length: usize) -> (mask: Vec<Vec<i64>>)
    ensures
        mask@.len() == seq_length,
        forall|i: int| 0 <= i < seq_length ==> (#[trigger] mask@[i])@.len() == seq_length,
        forall|i: int, j: int|
            0 <= i < seq_length && 0 <= j < seq_length ==> #[trigger] mask@[i]@[j] == causal_bias(
                i,
                j,
            ),
{
    let mut mask: Vec<Vec<i64>> = Vec::with_capacity(seq_length);
    let mut i: usize = 0;
    while i < seq_length
        invariant
            i <= seq_length,
            mask@.len() == i,
            forall|r: int| 0 <= r < i ==> (#[trigger] mask@[r])@.len() == seq_length,
            forall|r: int, c: int|
                0 <= r < i && 0 <= c < seq_length ==> #[trigger] mask@[r]@[c] == causal_bias(r, c),
        decreases seq_length - i,
    {
        let mut row: Vec<i64> = Vec::with_capacity(seq_length);
        let mut j: usize = 0;
        while j < seq_length
            invariant
                j <= seq_length,
                row@.len() == j,
                forall|c: int| 0 <= c < j ==> #[trigger] row@[c] == causal_bias(i as int, c),
            decreases seq_length - j,
        {
            row.push(if j > i {
                NEG_INFINITY
            } else {
                0
            });
            j = j + 1;
        }
        mask.push(row);
        i = i + 1;
    }
    mask
}

} // verus!
