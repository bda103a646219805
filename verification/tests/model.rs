use whisper_stream::model::attn_decoder_mask;
use whisper_stream::model::AudioEncoderConfig;
use whisper_stream::model::ConfigError;
use whisper_stream::model::MLPConfig;
use whisper_stream::model::MultiHeadCrossAttentionConfig;
use whisper_stream::model::MultiHeadSelfAttentionConfig;
use whisper_stream::model::ResidualDecoderAttentionBlockConfig;
use whisper_stream::model::ResidualEncoderAttentionBlockConfig;
use whisper_stream::model::TextDecoderConfig;
use whisper_stream::model::WhisperConfig;
use whisper_stream::score::NEG_INFINITY;

fn tiny() -> WhisperConfig {
    WhisperConfig::new(
        AudioEncoderConfig::new(80, 1500, 384, 6, 4),
        TextDecoderConfig::new(51865, 448, 384, 6, 4),
    )
}

#[test]
fn a_fitting_model_can_be_built() {
    let config = tiny();
    assert!(config.check().is_ok());
    assert_eq!(config.encoder_ctx_size(), 1500);
    assert_eq!(config.encoder_mel_size(), 80);
    assert_eq!(config.decoder_ctx_size(), 448);
}

#[test]
fn differing_state_sizes_fail_first() {
    let config = WhisperConfig::new(
        AudioEncoderConfig::new(80, 1500, 384, 5, 4),
        TextDecoderConfig::new(51865, 0, 512, 6, 4),
    );
    assert!(matches!(config.check(), Err(ConfigError::StateSize)));
}

#[test]
fn heads_must_divide_the_state() {
    assert!(MultiHeadSelfAttentionConfig::new(384, 6).check().is_ok());
    assert!(matches!(MultiHeadSelfAttentionConfig::new(384, 5).check(), Err(ConfigError::HeadCount)));
    assert!(matches!(MultiHeadSelfAttentionConfig::new(384, 0).check(), Err(ConfigError::HeadCount)));
    assert!(matches!(MultiHeadCrossAttentionConfig::new(7, 2).check(), Err(ConfigError::HeadCount)));
    assert_eq!(MultiHeadSelfAttentionConfig::new(384, 6).head_size(), 64);
    assert_eq!(MultiHeadCrossAttentionConfig::new(512, 8).head_size(), 64);
}

#[test]
fn the_hidden_layer_is_four_times_the_state() {
    assert_eq!(MLPConfig::new(384).hidden_size(), Some(1536));
    assert_eq!(MLPConfig::new(usize::MAX / 4).hidden_size(), Some(usize::MAX / 4 * 4));
    assert_eq!(MLPConfig::new(usize::MAX / 4 + 1).hidden_size(), None);
}

#[test]
fn blocks_are_built_from_the_state_and_the_heads() {
    let encoder = AudioEncoderConfig::new(80, 1500, 384, 6, 4);
    let block = encoder.block_config();
    assert_eq!((block.n_state, block.n_head), (384, 6));
    assert_eq!(block.attn_config().n_head, 6);
    assert_eq!(block.mlp_config().n_state, 384);
    let decoder = TextDecoderConfig::new(51865, 448, 512, 8, 4);
    let block = decoder.block_config();
    assert_eq!((block.n_state, block.n_head), (512, 8));
    assert_eq!(block.cross_attn_config().n_state, 512);
    assert_eq!(block.attn_config().n_state, 512);
    assert_eq!(block.mlp_config().n_state, 512);
}

#[test]
fn a_block_fails_on_its_heads_before_its_hidden_layer() {
    let big = usize::MAX / 4 + 1;
    assert!(matches!(
        ResidualEncoderAttentionBlockConfig::new(big, 0).check(),
        Err(ConfigError::HeadCount)
    ));
    assert!(matches!(
        ResidualEncoderAttentionBlockConfig::new(big, 1).check(),
        Err(ConfigError::HiddenSize)
    ));
    assert!(matches!(
        ResidualDecoderAttentionBlockConfig::new(big, 1).check(),
        Err(ConfigError::HiddenSize)
    ));
    assert!(ResidualDecoderAttentionBlockConfig::new(64, 4).check().is_ok());
}

#[test]
fn a_part_without_blocks_asks_nothing_of_its_heads() {
    assert!(AudioEncoderConfig::new(80, 1500, 384, 5, 0).check().is_ok());
    assert!(matches!(
        AudioEncoderConfig::new(80, 1500, 384, 5, 1).check(),
        Err(ConfigError::HeadCount)
    ));
    assert!(TextDecoderConfig::new(100, 448, 384, 5, 0).check().is_ok());
}

#[test]
fn a_decoder_needs_a_context() {
    assert!(matches!(
        TextDecoderConfig::new(100, 0, 384, 6, 4).check(),
        Err(ConfigError::EmptyContext)
    ));
    // The blocks are built before the mask.
    assert!(matches!(
        TextDecoderConfig::new(100, 0, 384, 5, 4).check(),
        Err(ConfigError::HeadCount)
    ));
}

#[test]
fn the_encoder_fails_before_the_decoder() {
    let config = WhisperConfig::new(
        AudioEncoderConfig::new(80, 1500, 384, 5, 4),
        TextDecoderConfig::new(51865, 0, 384, 6, 4),
    );
    assert!(matches!(config.check(), Err(ConfigError::HeadCount)));
    let config = WhisperConfig::new(
        AudioEncoderConfig::new(80, 1500, 384, 6, 4),
        TextDecoderConfig::new(51865, 0, 384, 6, 4),
    );
    assert!(matches!(config.check(), Err(ConfigError::EmptyContext)));
}

#[test]
fn the_decoder_attends_to_no_later_position() {
    let mask = attn_decoder_mask(3);
    assert_eq!(
        mask,
        vec![
            vec![0, NEG_INFINITY, NEG_INFINITY],
            vec![0, 0, NEG_INFINITY],
            vec![0, 0, 0],
        ]
    );
    assert!(attn_decoder_mask(0).is_empty());
    assert_eq!(attn_decoder_mask(1), vec![vec![0]]);
}
