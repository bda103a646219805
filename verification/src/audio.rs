//! What is asked of the audio before it is transcribed.
//!
//! The features are computed for mono audio at 16 kHz. Integer samples are
//! scaled by the largest value that their width can hold.

use crate::transcribe::TranscribeError;
use vstd::prelude::*;

verus! {

/// The sample rate, in Hz, that the features are computed for.
pub const SAMPLE_RATE: usize = 16000;

/// The number of channels that the features are computed for.
pub const CHANNELS: usize = 1;

/// Says whether audio of `channels` channels at `sample_rate` Hz can be
/// transcribed.
pub fn check_audio_format(channels: usize, sample_rate: usize) -> (r: Result<(), TranscribeError>)
    ensures
        r is Ok <==> channels == CHANNELS && sample_rate == SAMPLE_RATE,
        r matches Err(e) ==> e == TranscribeError::InvalidAudioFormat,
{
    if channels == CHANNELS && sample_rate == SAMPLE_RATE {
        Ok(())
    } else {
        Err(TranscribeError::InvalidAudioFormat)
    }
}

/// Two to the power `n`.
pub open spec fn pow2(n: nat) -> nat
    decreases n,
{
    if n == 0 {
        1
    } else {
        2 * pow2((n - 1) as nat)
    }
}

/// The largest value of a signed sample of `bits_per_sample` bits, by which
/// integer samples are divided: two to the power of one bit less, less one.
/// `None` for a width of no bits or of more than 32.
pub fn max_sample_value(bits_per_sample: u16) -> (r: Option<u32>)
    ensures
        match r {
            Some(v) => 1 <= bits_per_sample <= 32 && v == pow2((bits_per_sample - 1) as nat) - 1,
            None => bits_per_sample == 0 || bits_per_sample > 32,
        },
{
    if bits_per_sample == 0 || bits_per_sample > 32 {
        return None;
    }
    let mut value: u32 = 0;
    let mut n: u16 = 1;
    while n < bits_per_sample
        invariant
            1 <= n <= bits_per_sample <= 32,
            value == pow2((n - 1) as nat) - 1,
        decreases bits_per_sample - n,
    {
        proof {
            lemma_pow2_monotone((n - 1) as nat, 30);
            lemma_pow2_31();
        }
        value = 2 * value + 1;
        n = n + 1;
    }
    Some(value)
}

proof fn lemma_pow2_monotone(a: nat, b: nat)
    requires
        a <= b,
    ensures
        pow2(a) <= pow2(b),
        pow2(a) >= 1,
    decreases b,
{
    if a < b {
        lemma_pow2_monotone(a, (b - 1) as nat);
    } else if a > 0 {
        lemma_pow2_monotone((a - 1) as nat, (a - 1) as nat);
    }
}

proof fn lemma_pow2_31()
    ensures
        pow2(30) == 0x4000_0000,
{
    reveal_with_fuel(pow2, 32);
}

} // verus!
