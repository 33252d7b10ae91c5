//! Fritz!Box telephone answering machine recordings: container parsing and
//! the decisions around decoding them into PCM.

pub mod container;
pub mod decode;
pub mod g722;
pub mod speex;
mod text;

use vstd::prelude::*;
use std::time::Duration;

verus! {

/// PCM samples produced per codec frame. Both Speex NB (38 bytes @ 8 kHz,
/// 20 ms) and G.722 (80 bytes @ 16 kHz, 10 ms) output 160 samples per frame.
pub const FRAME_SAMPLES: usize = 160;

#[derive(Debug, Clone, Copy, PartialEq, Eq)]
pub enum Codec {
    SpeexNb,
    G722,
    Raw38,
}

#[derive(Debug)]
pub struct DecodeResult {
    pub sample_rate: u32,
    pub samples: Vec<i16>,
    pub audio_frames: usize,
    pub silence_frames: usize,
}

/// The duration of `micros` microseconds, as `Duration::from_micros` builds it.
pub uninterp spec fn duration_of_micros(micros: u64) -> Duration;

/// `std::time::Duration::from_micros`, a duration of exactly `micros`
/// microseconds; named by [`duration_of_micros`].
#[verifier::external_body]
fn micros_to_duration(micros: u64) -> (d: Duration)
    ensures
        d == duration_of_micros(micros),
{
    Duration::from_micros(micros)
}

impl DecodeResult {
    /// Microseconds of audio in `samples` at `sample_rate`, rounded down.
    pub open spec fn duration_micros(&self) -> int {
        (self.samples@.len() as int) * 1_000_000 / (self.sample_rate as int)
    }

    /// How long the decoded audio plays.
    #[must_use]
    pub fn total_duration(&self) -> (d: Duration)
        requires
            self.sample_rate > 0,
            self.samples@.len() * 1_000_000 <= u64::MAX,
        ensures
            d == duration_of_micros(self.duration_micros() as u64),
    {
        let micros: u64 = self.samples.len() as u64 * 1_000_000 / self.sample_rate as u64;
        micros_to_duration(micros)
    }
}

/// Codec choice on the command line; `Auto` leaves it to detection.
#[derive(Debug, Clone, Copy)]
pub enum CodecArg {
    Auto,
    Speex,
    G722,
    Raw38,
}

impl Default for CodecArg {
    fn default() -> (r: Self)
        ensures
            r == CodecArg::Auto,
    {
        CodecArg::Auto
    }
}

/// The codec that a command-line choice forces, if any.
pub open spec fn codec_arg_option(arg: CodecArg) -> Option<Codec> {
    match arg {
        CodecArg::Auto => None,
        CodecArg::Speex => Some(Codec::SpeexNb),
        CodecArg::G722 => Some(Codec::G722),
        CodecArg::Raw38 => Some(Codec::Raw38),
    }
}

impl CodecArg {
    pub fn option(self) -> (r: Option<Codec>)
        ensures
            r == codec_arg_option(self),
    {
        match self {
            CodecArg::Auto => None,
            CodecArg::Speex => Some(Codec::SpeexNb),
            CodecArg::G722 => Some(Codec::G722),
            CodecArg::Raw38 => Some(Codec::Raw38),
        }
    }
}

/// The result of decoding a raw stream of 38-byte Speex frames into
/// `samples` at `sample_rate`: every 160 samples count as one audio frame.
pub fn decode_raw38(sample_rate: u32, samples: Vec<i16>) -> (r: DecodeResult)
    ensures
        r.sample_rate == sample_rate,
        r.samples@ == samples@,
        r.audio_frames == samples@.len() / 160,
        r.silence_frames == 0,
{
    let frames: usize = samples.len() / FRAME_SAMPLES;
    DecodeResult { sample_rate, samples, audio_frames: frames, silence_frames: 0 }
}

} // verus!
