//! Control pipeline for windowed speech transcription: audio windowing, beam
//! search over a scoring callback, special-token masking and the stitching of
//! overlapping token sequences into one transcript.

pub mod audio;
pub mod beam;
pub mod mask;
pub mod model;
pub mod score;
pub mod stitch;
pub mod transcribe;
pub mod window;
