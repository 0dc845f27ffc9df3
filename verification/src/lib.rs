//! Bit-exact, integer core of an audio decoder: Opus framing and range
//! coding, CELT bit allocation, MP3 framing, FLAC, ALAC, MP4 and WAV parsing.

pub mod arith;
pub mod engine;
pub mod error;
pub mod fft;
pub mod m4a;
pub mod flac;
pub mod mp3;
pub mod opus;
pub mod player;
pub mod repl_fmt;
pub mod wav;

