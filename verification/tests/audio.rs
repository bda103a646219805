use whisper_stream::audio::check_audio_format;
use whisper_stream::audio::max_sample_value;
use whisper_stream::transcribe::TranscribeError;

#[test]
fn mono_at_sixteen_kilohertz_is_accepted() {
    assert!(check_audio_format(1, 16000).is_ok());
}

#[test]
fn other_formats_are_invalid() {
    assert!(matches!(check_audio_format(2, 16000), Err(TranscribeError::InvalidAudioFormat)));
    assert!(matches!(check_audio_format(1, 44100), Err(TranscribeError::InvalidAudioFormat)));
    assert!(matches!(check_audio_format(0, 0), Err(TranscribeError::InvalidAudioFormat)));
}

#[test]
fn the_largest_sample_value_is_two_to_the_bits_less_one_less_one() {
    assert_eq!(max_sample_value(1), Some(0));
    assert_eq!(max_sample_value(8), Some(127));
    assert_eq!(max_sample_value(16), Some(32767));
    assert_eq!(max_sample_value(24), Some(8_388_607));
    assert_eq!(max_sample_value(32), Some(2_147_483_647));
}

#[test]
fn widths_of_no_bits_or_beyond_thirty_two_have_none() {
    assert_eq!(max_sample_value(0), None);
    assert_eq!(max_sample_value(33), None);
    assert_eq!(max_sample_value(u16::MAX), None);
}
