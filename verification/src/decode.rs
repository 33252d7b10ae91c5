//! From parsed frames to a PCM stream: which payloads go to the decoder, and
//! how decoded payloads, silence and decode failures make up the samples.

use vstd::prelude::*;
use crate::container::Frame;
use crate::container::FrameModel;
use crate::container::frames_model;
use crate::DecodeResult;
use crate::FRAME_SAMPLES;
use crate::Codec;
use crate::container::ParseError;
use crate::container::ParseFailure;
use crate::container::StreamKind;
use crate::container::detect_stream_kind;
use crate::container::failure_reason;
use crate::container::parse_container;
use crate::container::parse_spec;
use crate::container::payloads_within_u16;
use crate::container::lemma_payloads_within_u16;
use crate::container::stream_kind_spec;
use crate::text::decimal_digits;
use crate::text::usize_to_decimal;
use vstd::string::StringExecFns;
use crate::g722::decode_payload;
use crate::g722::probe_failures;
use crate::g722::G722Stream;
use crate::g722::g722_samples;
use crate::g722::g722_sample_rate;

verus! {

/// The block of samples that stands for a silence frame or an audio frame
/// that failed to decode: 160 zero samples.
pub open spec fn silence_block() -> Seq<i16> {
    Seq::new(160, |i: int| 0i16)
}

/// The samples an audio frame contributes: what was decoded from it, or a
/// silent block when decoding failed.
pub open spec fn decoded_block(d: Option<Seq<i16>>) -> Seq<i16> {
    match d {
        Some(s) => s,
        None => silence_block(),
    }
}

/// The payloads of the audio frames before the first end frame, in order.
pub open spec fn audio_payloads_spec(frames: Seq<FrameModel>) -> Seq<Seq<u8>>
    decreases frames.len(),
{
    if frames.len() == 0 {
        Seq::empty()
    } else {
        match frames[0] {
            FrameModel::End => Seq::empty(),
            FrameModel::Silence => audio_payloads_spec(frames.drop_first()),
            FrameModel::Audio(p) => seq![p] + audio_payloads_spec(frames.drop_first()),
        }
    }
}

/// The number of silence frames before the first end frame.
pub open spec fn silence_count(frames: Seq<FrameModel>) -> nat
    decreases frames.len(),
{
    if frames.len() == 0 {
        0
    } else {
        match frames[0] {
            FrameModel::End => 0,
            FrameModel::Silence => 1 + silence_count(frames.drop_first()),
            FrameModel::Audio(_) => silence_count(frames.drop_first()),
        }
    }
}

/// The PCM stream of the frames before the first end frame: for the k-th
/// audio frame the block `decoded[k]` stands for, a silent block for each
/// silence frame.
pub open spec fn frame_samples(frames: Seq<FrameModel>, decoded: Seq<Option<Seq<i16>>>) -> Seq<i16>
    decreases frames.len(),
{
    if frames.len() == 0 {
        Seq::empty()
    } else {
        match frames[0] {
            FrameModel::End => Seq::empty(),
            FrameModel::Silence => silence_block() + frame_samples(frames.drop_first(), decoded),
            FrameModel::Audio(_) => decoded_block(decoded[0]) + frame_samples(
                frames.drop_first(),
                decoded.drop_first(),
            ),
        }
    }
}

/// The decoded payloads as sequences of samples.
pub open spec fn decoded_model(decoded: Seq<Option<Vec<i16>>>) -> Seq<Option<Seq<i16>>> {
    decoded.map_values(
        |o: Option<Vec<i16>>|
            match o {
                Some(v) => Some(v@),
                None => None,
            },
    )
}

/// The byte sequences of a list of payload slices.
pub open spec fn payloads_model(payloads: Seq<&[u8]>) -> Seq<Seq<u8>> {
    payloads.map_values(|p: &[u8]| p@)
}

fn push_silence(samples: &mut Vec<i16>)
    ensures
        final(samples)@ == old(samples)@ + silence_block(),
{
    let ghost before = samples@;
    let mut j: usize = 0;
    while j < FRAME_SAMPLES
        invariant
            j <= 160,
            samples@ == before + Seq::new(j as nat, |i: int| 0i16),
        decreases 160 - j,
    {
        samples.push(0);
        assert(before + Seq::new((j + 1) as nat, |i: int| 0i16) =~= (before + Seq::new(
            j as nat,
            |i: int| 0i16,
        )).push(0));
        j = j + 1;
    }
    assert(Seq::new(160 as nat, |i: int| 0i16) =~= silence_block());
}

fn push_samples(samples: &mut Vec<i16>, block: &Vec<i16>)
    ensures
        final(samples)@ == old(samples)@ + block@,
{
    let ghost before = samples@;
    let mut j: usize = 0;
    while j < block.len()
        invariant
            j <= block@.len(),
            samples@ == before + block@.take(j as int),
        decreases block@.len() - j,
    {
        samples.push(block[j]);
        assert(block@.take(j + 1) =~= block@.take(j as int).push(block@[j as int]));
        j = j + 1;
    }
    assert(block@.take(block@.len() as int) =~= block@);
}

/// The payloads that go to the decoder: those of the audio frames before the
/// first end frame, in order.
pub fn audio_payloads(frames: &[Frame]) -> (r: Vec<&[u8]>)
    ensures
        payloads_model(r@) == audio_payloads_spec(frames_model(frames@)),
{
    let ghost fm = frames_model(frames@);
    assert(fm.len() == frames@.len());
    let mut r: Vec<&[u8]> = Vec::new();
    let mut i: usize = 0;
    assert(fm.skip(0) =~= fm);
    assert(payloads_model(r@) =~= Seq::<Seq<u8>>::empty());
    assert(Seq::<Seq<u8>>::empty() + audio_payloads_spec(fm) =~= audio_payloads_spec(fm));
    while i < frames.len()
        invariant_except_break
            i <= frames@.len(),
            fm == frames_model(frames@),
            fm.len() == frames@.len(),
            audio_payloads_spec(fm) == payloads_model(r@) + audio_payloads_spec(fm.skip(i as int)),
        ensures
            audio_payloads_spec(fm) == payloads_model(r@),
        decreases frames@.len() - i,
    {
        let ghost rest = fm.skip(i as int);
        assert(rest[0] == frames@[i as int]@);
        assert(rest.drop_first() =~= fm.skip(i + 1));
        match &frames[i] {
            Frame::Audio(p) => {
                let ghost before = payloads_model(r@);
                r.push(p.as_slice());
                assert(payloads_model(r@) =~= before.push(p@));
                assert(before + (seq![p@] + audio_payloads_spec(fm.skip(i + 1))) =~= before.push(p@)
                    + audio_payloads_spec(fm.skip(i + 1)));
            },
            Frame::Silence => {},
            Frame::End => {
                assert(payloads_model(r@) + Seq::<Seq<u8>>::empty() =~= payloads_model(r@));
                break;
            },
        }
        i = i + 1;
    }
    r
}

/// Puts the PCM stream together from the frames and what the decoder made of
/// each audio payload: `decoded[k]` is the result for the k-th audio frame
/// before the first end frame, `None` where decoding failed. Failed audio
/// frames and silence frames each become 160 zero samples; decoding stops at
/// the first end frame.
pub fn assemble_frames(sample_rate: u32, frames: &[Frame], decoded: &[Option<Vec<i16>>]) -> (r:
    DecodeResult)
    requires
        decoded@.len() == audio_payloads_spec(frames_model(frames@)).len(),
    ensures
        r.sample_rate == sample_rate,
        r.audio_frames == audio_payloads_spec(frames_model(frames@)).len(),
        r.silence_frames == silence_count(frames_model(frames@)),
        r.samples@ == frame_samples(frames_model(frames@), decoded_model(decoded@)),
{
    let ghost fm = frames_model(frames@);
    assert(fm.len() == frames@.len());
    let ghost dm = decoded_model(decoded@);
    let mut samples: Vec<i16> = Vec::new();
    let mut audio_frames: usize = 0;
    let mut silence_frames: usize = 0;
    let mut i: usize = 0;
    assert(fm.skip(0) =~= fm);
    assert(dm.skip(0) =~= dm);
    assert(Seq::<i16>::empty() + frame_samples(fm, dm) =~= frame_samples(fm, dm));
    while i < frames.len()
        invariant_except_break
            i <= frames@.len(),
            audio_frames <= i,
            silence_frames <= i,
            fm == frames_model(frames@),
            fm.len() == frames@.len(),
            dm == decoded_model(decoded@),
            dm.len() == decoded@.len(),
            audio_payloads_spec(fm).len() == audio_frames + audio_payloads_spec(fm.skip(i as int)).len(),
            decoded@.len() == audio_payloads_spec(fm).len(),
            silence_count(fm) == silence_frames + silence_count(fm.skip(i as int)),
            frame_samples(fm, dm) == samples@ + frame_samples(fm.skip(i as int), dm.skip(audio_frames as int)),
        ensures
            audio_payloads_spec(fm).len() == audio_frames,
            silence_count(fm) == silence_frames,
            frame_samples(fm, dm) == samples@,
        decreases frames@.len() - i,
    {
        let ghost rest = fm.skip(i as int);
        let ghost drest = dm.skip(audio_frames as int);
        assert(rest[0] == frames@[i as int]@);
        assert(rest.drop_first() =~= fm.skip(i + 1));
        match &frames[i] {
            Frame::Audio(_) => {
                let ghost before = samples@;
                assert(audio_frames < decoded@.len());
                assert(drest[0] == dm[audio_frames as int]);
                assert(drest.drop_first() =~= dm.skip(audio_frames + 1));
                match &decoded[audio_frames] {
                    Some(block) => push_samples(&mut samples, block),
                    None => push_silence(&mut samples),
                }
                assert(samples@ == before + decoded_block(dm[audio_frames as int]));
                audio_frames = audio_frames + 1;
                assert(before + (decoded_block(drest[0]) + frame_samples(rest.drop_first(), drest.drop_first()))
                    =~= samples@ + frame_samples(fm.skip(i + 1), dm.skip(audio_frames as int)));
            },
            Frame::Silence => {
                let ghost before = samples@;
                push_silence(&mut samples);
                silence_frames = silence_frames + 1;
                assert(before + (silence_block() + frame_samples(rest.drop_first(), drest)) =~= samples@
                    + frame_samples(fm.skip(i + 1), dm.skip(audio_frames as int)));
            },
            Frame::End => {
                assert(samples@ + Seq::<i16>::empty() =~= samples@);
                break;
            },
        }
        i = i + 1;
    }
    DecodeResult { sample_rate, samples, audio_frames, silence_frames }
}

/// What a fresh G.722 decoder makes of the payloads, fed to it one after
/// the other: for each payload, the samples it writes after the ones before.
pub open spec fn g722_outputs(payloads: Seq<Seq<u8>>) -> Seq<Option<Seq<i16>>> {
    Seq::new(payloads.len(), |k: int| Some(g722_samples(payloads.take(k), payloads[k])))
}

/// Every payload that goes to the decoder is shorter than half the address
/// space, as every allocated buffer is.
pub open spec fn payloads_fit(payloads: Seq<Seq<u8>>) -> bool {
    forall|k: int| 0 <= k < payloads.len() ==> (#[trigger] payloads[k]).len() <= usize::MAX / 2
}

/// Decodes the frames with a fresh G.722 decoder: the payloads of the audio
/// frames before the first end frame go to the decoder once each, in order,
/// and the stream is put together from its output as [`assemble_frames`]
/// does.
pub fn decode_frames_g722(frames: &[Frame]) -> (r: DecodeResult)
    requires
        payloads_fit(audio_payloads_spec(frames_model(frames@))),
    ensures
        r.sample_rate == 16000,
        r.audio_frames == audio_payloads_spec(frames_model(frames@)).len(),
        r.silence_frames == silence_count(frames_model(frames@)),
        r.samples@ == frame_samples(
            frames_model(frames@),
            g722_outputs(audio_payloads_spec(frames_model(frames@))),
        ),
{
    let ghost fm = frames_model(frames@);
    let payloads = audio_payloads(frames);
    let ghost pm = payloads_model(payloads@);
    let mut dec = G722Stream::new();
    let mut decoded: Vec<Option<Vec<i16>>> = Vec::new();
    let mut k: usize = 0;
    while k < payloads.len()
        invariant
            k <= payloads@.len(),
            decoded@.len() == k,
            pm == payloads_model(payloads@),
            pm == audio_payloads_spec(fm),
            pm.len() == payloads@.len(),
            payloads_fit(pm),
            dec.history() == pm.take(k as int),
            forall|j: int|
                0 <= j < k ==> (#[trigger] decoded@[j] matches Some(v) && v@ == g722_samples(
                    pm.take(j),
                    pm[j],
                )),
        decreases payloads@.len() - k,
    {
        assert(pm[k as int] == payloads@[k as int]@);
        let d = decode_payload(&mut dec, payloads[k]);
        assert(pm.take(k + 1) =~= pm.take(k as int).push(pm[k as int]));
        decoded.push(d);
        k = k + 1;
    }
    let sample_rate = g722_sample_rate(&dec);
    let r = assemble_frames(sample_rate, frames, decoded.as_slice());
    let ghost dm = decoded_model(decoded@);
    assert(dm =~= g722_outputs(pm));
    r
}

/// The non-empty payloads of all audio frames, in order.
pub open spec fn nonempty_payloads(frames: Seq<FrameModel>) -> Seq<Seq<u8>>
    decreases frames.len(),
{
    if frames.len() == 0 {
        Seq::empty()
    } else {
        let rest = nonempty_payloads(frames.drop_last());
        match frames.last() {
            FrameModel::Audio(p) => if p.len() > 0 {
                rest.push(p)
            } else {
                rest
            },
            _ => rest,
        }
    }
}

/// How many payloads codec detection probes at most.
pub const PROBE_FRAMES: usize = 64;

/// The payloads that codec detection probes: the first 64 non-empty audio
/// payloads.
pub open spec fn probe_payloads_spec(frames: Seq<FrameModel>) -> Seq<Seq<u8>> {
    let all = nonempty_payloads(frames);
    if all.len() <= 64 {
        all
    } else {
        all.take(64)
    }
}

proof fn lemma_nonempty_payloads_prefix(frames: Seq<FrameModel>, i: int, j: int)
    requires
        0 <= i <= j <= frames.len(),
    ensures
        nonempty_payloads(frames.take(i)).len() <= nonempty_payloads(frames.take(j)).len(),
        nonempty_payloads(frames.take(i)) =~= nonempty_payloads(frames.take(j)).take(
            nonempty_payloads(frames.take(i)).len() as int,
        ),
    decreases j - i,
{
    if i < j {
        lemma_nonempty_payloads_prefix(frames, i, j - 1);
        assert(frames.take(j).drop_last() =~= frames.take(j - 1));
    } else {
        assert(nonempty_payloads(frames.take(j)).take(nonempty_payloads(frames.take(j)).len() as int)
            =~= nonempty_payloads(frames.take(j)));
    }
}

/// The payloads to probe codecs with: the first 64 non-empty audio payloads.
pub fn probe_payloads(frames: &[Frame]) -> (r: Vec<&[u8]>)
    ensures
        payloads_model(r@) == probe_payloads_spec(frames_model(frames@)),
{
    let ghost fm = frames_model(frames@);
    assert(fm.len() == frames@.len());
    let mut r: Vec<&[u8]> = Vec::new();
    let mut i: usize = 0;
    assert(fm.take(0) =~= Seq::<FrameModel>::empty());
    assert(payloads_model(r@) =~= Seq::<Seq<u8>>::empty());
    while i < frames.len() && r.len() < PROBE_FRAMES
        invariant
            i <= frames@.len(),
            fm == frames_model(frames@),
            fm.len() == frames@.len(),
            r@.len() <= 64,
            payloads_model(r@) == nonempty_payloads(fm.take(i as int)),
        decreases frames@.len() - i,
    {
        assert(fm.take(i + 1).drop_last() =~= fm.take(i as int));
        assert(fm.take(i + 1).last() == frames@[i as int]@);
        match &frames[i] {
            Frame::Audio(p) => {
                if p.len() > 0 {
                    let ghost before = payloads_model(r@);
                    r.push(p.as_slice());
                    assert(payloads_model(r@) =~= before.push(p@));
                }
            },
            _ => {},
        }
        i = i + 1;
    }
    proof {
        lemma_nonempty_payloads_prefix(fm, i as int, fm.len() as int);
        assert(fm.take(fm.len() as int) =~= fm);
    }
    r
}

/// How many payloads failed to decode.
pub open spec fn failed_count(decoded: Seq<Option<Seq<i16>>>) -> nat
    decreases decoded.len(),
{
    if decoded.len() == 0 {
        0
    } else {
        failed_count(decoded.drop_last()) + if decoded.last() is None {
            1nat
        } else {
            0nat
        }
    }
}

/// Counts the payloads a decoder refused, for codec detection.
pub fn count_failed(decoded: &[Option<Vec<i16>>]) -> (n: usize)
    ensures
        n == failed_count(decoded_model(decoded@)),
{
    let ghost dm = decoded_model(decoded@);
    let mut n: usize = 0;
    let mut i: usize = 0;
    assert(dm.take(0) =~= Seq::<Option<Seq<i16>>>::empty());
    while i < decoded.len()
        invariant
            i <= decoded@.len(),
            dm == decoded_model(decoded@),
            dm.len() == decoded@.len(),
            n <= i,
            n == failed_count(dm.take(i as int)),
        decreases decoded@.len() - i,
    {
        assert(dm.take(i + 1).drop_last() =~= dm.take(i as int));
        assert(dm.take(i + 1).last() == dm[i as int]);
        if decoded[i].is_none() {
            n = n + 1;
        }
        i = i + 1;
    }
    assert(dm.take(dm.len() as int) =~= dm);
    n
}

/// Why codec detection did not settle on a codec.
#[derive(Debug, Clone, Copy, PartialEq, Eq)]
pub enum CodecDetectError {
    /// Both codecs decoded every probed frame.
    Ambiguous,
    /// Both codecs failed on some probed frames.
    Failed { speex_failed: usize, g722_failed: usize },
}

/// The codec that the probe counts point to: the one that decoded every
/// probed payload where only one did.
pub open spec fn codec_choice(speex_failed: usize, g722_failed: usize) -> Result<
    Codec,
    CodecDetectError,
> {
    if speex_failed == 0 && g722_failed == 0 {
        Err(CodecDetectError::Ambiguous)
    } else if g722_failed == 0 {
        Ok(Codec::G722)
    } else if speex_failed == 0 {
        Ok(Codec::SpeexNb)
    } else {
        Err(CodecDetectError::Failed { speex_failed, g722_failed })
    }
}

/// Picks the codec from how many probed payloads each decoder refused.
pub fn choose_codec(speex_failed: usize, g722_failed: usize) -> (r: Result<Codec, CodecDetectError>)
    ensures
        r == codec_choice(speex_failed, g722_failed),
{
    if speex_failed == 0 && g722_failed == 0 {
        Err(CodecDetectError::Ambiguous)
    } else if g722_failed == 0 {
        Ok(Codec::G722)
    } else if speex_failed == 0 {
        Ok(Codec::SpeexNb)
    } else {
        Err(CodecDetectError::Failed { speex_failed, g722_failed })
    }
}

/// Detects the codec of the probed payloads, given how many of them a fresh
/// Speex decoder refused: a fresh G.722 decoder is run over them in order and
/// the two counts decide.
pub fn detect_codec(payloads: &[&[u8]], speex_failed: usize) -> (r: Result<Codec, CodecDetectError>)
    requires
        payloads_fit(payloads_model(payloads@)),
    ensures
        r == codec_choice(speex_failed, 0),
{
    assert forall|i: int| 0 <= i < payloads@.len() implies (#[trigger] payloads@[i])@.len()
        <= usize::MAX / 2 by {
        assert(payloads_model(payloads@)[i] == payloads@[i]@);
    }
    let g722_failed = probe_failures(payloads);
    choose_codec(speex_failed, g722_failed)
}

impl CodecDetectError {
    /// The message the error is reported with.
    pub fn to_string(&self) -> (s: String)
        ensures
            s@ == match *self {
                CodecDetectError::Ambiguous =>
                    "codec detection ambiguous (both codecs decoded every frame); specify it with --codec"@,
                CodecDetectError::Failed { speex_failed, g722_failed } => "codec detection failed (both codecs dropped "@
                    + decimal_digits(speex_failed as nat) + " and "@ + decimal_digits(g722_failed as nat)
                    + " frames); specify the codec with --codec"@,
            },
    {
        match self {
            CodecDetectError::Ambiguous => String::from_str(
                "codec detection ambiguous (both codecs decoded every frame); specify it with --codec",
            ),
            CodecDetectError::Failed { speex_failed, g722_failed } => {
                let speex = usize_to_decimal(*speex_failed);
                let g722 = usize_to_decimal(*g722_failed);
                String::from_str("codec detection failed (both codecs dropped ").concat(speex.as_str()).concat(
                    " and ",
                ).concat(g722.as_str()).concat(" frames); specify the codec with --codec")
            },
        }
    }
}

/// When every decoded payload is one block of 160 samples (both codecs
/// deliver 160 samples per frame), the stream holds exactly 160 samples per
/// audio or silence frame.
pub proof fn lemma_frame_samples_len(frames: Seq<FrameModel>, decoded: Seq<Option<Seq<i16>>>)
    requires
        decoded.len() == audio_payloads_spec(frames).len(),
        forall|k: int| 0 <= k < decoded.len() ==> (#[trigger] decoded[k] matches Some(s) ==> s.len() == 160),
    ensures
        frame_samples(frames, decoded).len() == 160 * (audio_payloads_spec(frames).len()
            + silence_count(frames)),
    decreases frames.len(),
{
    if frames.len() > 0 {
        match frames[0] {
            FrameModel::End => {},
            FrameModel::Silence => {
                lemma_frame_samples_len(frames.drop_first(), decoded);
            },
            FrameModel::Audio(_) => {
                let rest = decoded.drop_first();
                assert forall|k: int| 0 <= k < rest.len() implies (#[trigger] rest[k] matches Some(s)
                    ==> s.len() == 160) by {
                    assert(rest[k] == decoded[k + 1]);
                }
                lemma_frame_samples_len(frames.drop_first(), rest);
                assert(decoded[0] matches Some(s) ==> s.len() == 160);
            },
        }
    }
}

/// How a recording is to be decoded.
pub enum DecodePlan {
    /// A raw stream of 38-byte Speex frames.
    Raw38,
    /// A container with its frames, in the given codec or, with `None`, in
    /// the one detection finds.
    Container { frames: Vec<Frame>, codec: Option<Codec> },
}

/// Decides how to decode `data`: a forced raw Speex codec, or a stream that
/// is not a container, goes to the raw decoder; otherwise the container is
/// parsed and its frames go to `codec`, or to detection when none is given.
///
/// # Errors
///
/// [`ParseError`] if the container is malformed.
pub fn plan_decode(data: &[u8], codec: Option<Codec>) -> (r: Result<DecodePlan, ParseError>)
    ensures
        (codec == Some(Codec::Raw38) || stream_kind_spec(data@) == StreamKind::Raw38) ==> r matches Ok(
            DecodePlan::Raw38,
        ),
        !(codec == Some(Codec::Raw38) || stream_kind_spec(data@) == StreamKind::Raw38) ==> match r {
            Ok(DecodePlan::Container { frames, codec: c }) => c == codec && parse_spec(data@) == Ok::<
                Seq<FrameModel>,
                (int, ParseFailure),
            >(frames_model(frames@)),
            Ok(DecodePlan::Raw38) => false,
            Err(e) => parse_spec(data@) matches Err((off, why)) && e.offset == off && e.reason@
                == failure_reason(why),
        },
{
    if let Some(Codec::Raw38) = codec {
        return Ok(DecodePlan::Raw38);
    }
    match detect_stream_kind(data) {
        StreamKind::Raw38 => Ok(DecodePlan::Raw38),
        StreamKind::Container => {
            let frames = parse_container(data)?;
            Ok(DecodePlan::Container { frames, codec })
        },
    }
}

proof fn lemma_audio_payloads_within_u16(frames: Seq<FrameModel>)
    requires
        payloads_within_u16(frames),
    ensures
        forall|k: int|
            0 <= k < audio_payloads_spec(frames).len() ==> (#[trigger] audio_payloads_spec(frames)[k]).len()
                <= 0xFFFF,
    decreases frames.len(),
{
    if frames.len() > 0 {
        let rest = frames.drop_first();
        assert forall|i: int| 0 <= i < rest.len() implies (#[trigger] rest[i] matches FrameModel::Audio(
            p,
        ) ==> p.len() <= 0xFFFF) by {
            assert(rest[i] == frames[i + 1]);
        }
        lemma_audio_payloads_within_u16(rest);
        assert(frames[0] matches FrameModel::Audio(p) ==> p.len() <= 0xFFFF);
        if let FrameModel::Audio(p) = frames[0] {
            let ps = audio_payloads_spec(frames);
            assert forall|k: int| 0 <= k < ps.len() implies (#[trigger] ps[k]).len() <= 0xFFFF by {
                if k > 0 {
                    assert(ps[k] == audio_payloads_spec(rest)[k - 1]);
                }
            }
        }
    }
}

/// The frames of any parsed container can go to the G.722 decoder: none of
/// their payloads is too long for a decode buffer.
pub proof fn lemma_parsed_payloads_fit(data: Seq<u8>)
    ensures
        parse_spec(data) matches Ok(fs) ==> payloads_fit(audio_payloads_spec(fs)),
{
    lemma_payloads_within_u16(data);
    if let Ok(fs) = parse_spec(data) {
        lemma_audio_payloads_within_u16(fs);
    }
}

/// Nothing after the first end frame counts: frames `fs`, an end frame and
/// any further frames `gs` hand the decoder the same payloads, count the same
/// silence frames and make the same stream as `fs` alone.
pub proof fn lemma_end_cuts_frames(
    fs: Seq<FrameModel>,
    gs: Seq<FrameModel>,
    decoded: Seq<Option<Seq<i16>>>,
)
    ensures
        audio_payloads_spec(fs + seq![FrameModel::End] + gs) == audio_payloads_spec(fs),
        silence_count(fs + seq![FrameModel::End] + gs) == silence_count(fs),
        frame_samples(fs + seq![FrameModel::End] + gs, decoded) == frame_samples(fs, decoded),
    decreases fs.len(),
{
    let all = fs + seq![FrameModel::End] + gs;
    if fs.len() == 0 {
        assert(all[0] == FrameModel::End);
    } else {
        assert(all[0] == fs[0]);
        assert(all.drop_first() =~= fs.drop_first() + seq![FrameModel::End] + gs);
        match fs[0] {
            FrameModel::Audio(_) => lemma_end_cuts_frames(fs.drop_first(), gs, decoded.drop_first()),
            _ => lemma_end_cuts_frames(fs.drop_first(), gs, decoded),
        }
    }
}

/// G.722 decoding ignores everything after the first end frame: the frames
/// `fs`, an end frame and any further frames `gs` decode to the same stream,
/// frame counts included, as `fs` alone.
pub proof fn lemma_g722_ignores_after_end(fs: Seq<FrameModel>, gs: Seq<FrameModel>)
    ensures
        frame_samples(
            fs + seq![FrameModel::End] + gs,
            g722_outputs(audio_payloads_spec(fs + seq![FrameModel::End] + gs)),
        ) == frame_samples(fs, g722_outputs(audio_payloads_spec(fs))),
        audio_payloads_spec(fs + seq![FrameModel::End] + gs).len() == audio_payloads_spec(fs).len(),
        silence_count(fs + seq![FrameModel::End] + gs) == silence_count(fs),
{
    lemma_end_cuts_frames(fs, gs, g722_outputs(audio_payloads_spec(fs)));
}

/// Detection never picks the raw Speex codec: that one is only ever forced.
pub proof fn lemma_detection_never_raw38(speex_failed: usize, g722_failed: usize)
    ensures
        codec_choice(speex_failed, g722_failed) != Ok::<Codec, CodecDetectError>(Codec::Raw38),
{
}

/// Frames without an end frame, followed by more frames: the payloads to
/// decode, the silence count and the stream of the whole are those of the
/// two parts one after the other, the decoded blocks (one for each audio
/// frame of the first part, and then some) split where the first part's
/// audio frames end.
pub proof fn lemma_frames_concat(
    fs: Seq<FrameModel>,
    gs: Seq<FrameModel>,
    decoded: Seq<Option<Seq<i16>>>,
)
    requires
        !fs.contains(FrameModel::End),
        decoded.len() >= audio_payloads_spec(fs).len(),
    ensures
        audio_payloads_spec(fs + gs) == audio_payloads_spec(fs) + audio_payloads_spec(gs),
        silence_count(fs + gs) == silence_count(fs) + silence_count(gs),
        frame_samples(fs + gs, decoded) == frame_samples(fs, decoded) + frame_samples(
            gs,
            decoded.skip(audio_payloads_spec(fs).len() as int),
        ),
    decreases fs.len(),
{
    if fs.len() == 0 {
        assert(fs + gs =~= gs);
        assert(decoded.skip(0) =~= decoded);
        assert(Seq::<Seq<u8>>::empty() + audio_payloads_spec(gs) =~= audio_payloads_spec(gs));
        assert(Seq::<i16>::empty() + frame_samples(gs, decoded) =~= frame_samples(gs, decoded));
    } else {
        let all = fs + gs;
        let tail = fs.drop_first();
        assert(all[0] == fs[0]);
        assert(all.drop_first() =~= tail + gs);
        assert(!tail.contains(FrameModel::End)) by {
            if tail.contains(FrameModel::End) {
                let i = choose|i: int| 0 <= i < tail.len() && tail[i] == FrameModel::End;
                assert(fs[i + 1] == FrameModel::End);
            }
        }
        assert(fs[0] != FrameModel::End) by {
            if fs[0] == FrameModel::End {
                assert(fs.contains(FrameModel::End));
            }
        }
        match fs[0] {
            FrameModel::Audio(p) => {
                lemma_frames_concat(tail, gs, decoded.drop_first());
                let na = audio_payloads_spec(tail).len() as int;
                assert(decoded.drop_first().skip(na) =~= decoded.skip(na + 1));
                assert(seq![p] + audio_payloads_spec(tail) + audio_payloads_spec(gs) =~= seq![p] + (
                audio_payloads_spec(tail) + audio_payloads_spec(gs)));
                assert(decoded_block(decoded[0]) + frame_samples(tail, decoded.drop_first())
                    + frame_samples(gs, decoded.skip(na + 1)) =~= decoded_block(decoded[0]) + (
                frame_samples(tail, decoded.drop_first()) + frame_samples(gs, decoded.skip(na + 1))));
            },
            FrameModel::Silence => {
                lemma_frames_concat(tail, gs, decoded);
                assert(silence_block() + frame_samples(tail, decoded) + frame_samples(
                    gs,
                    decoded.skip(audio_payloads_spec(tail).len() as int),
                ) =~= silence_block() + (frame_samples(tail, decoded) + frame_samples(
                    gs,
                    decoded.skip(audio_payloads_spec(tail).len() as int),
                )));
            },
            FrameModel::End => {},
        }
    }
}

/// Single frames: a silence frame counts once and stands for 160 zero
/// samples; an audio frame hands its payload to the decoder and stands for
/// its decoded samples, or 160 zero samples when decoding failed.
pub proof fn lemma_single_frames(p: Seq<u8>, decoded: Seq<Option<Seq<i16>>>)
    ensures
        silence_count(seq![FrameModel::Silence]) == 1,
        audio_payloads_spec(seq![FrameModel::Silence]) == Seq::<Seq<u8>>::empty(),
        frame_samples(seq![FrameModel::Silence], decoded) == Seq::new(160, |i: int| 0i16),
        silence_count(seq![FrameModel::Audio(p)]) == 0,
        audio_payloads_spec(seq![FrameModel::Audio(p)]) == seq![p],
        decoded.len() > 0 ==> frame_samples(seq![FrameModel::Audio(p)], decoded) == match decoded[0] {
            Some(s) => s,
            None => Seq::new(160, |i: int| 0i16),
        },
{
    let none = Seq::<FrameModel>::empty();
    assert(silence_count(none) == 0);
    assert(audio_payloads_spec(none) == Seq::<Seq<u8>>::empty());
    assert(frame_samples(none, decoded) == Seq::<i16>::empty());
    assert(seq![FrameModel::Silence].drop_first() =~= none);
    assert(seq![FrameModel::Silence][0] == FrameModel::Silence);
    assert(seq![FrameModel::Audio(p)].drop_first() =~= none);
    assert(seq![FrameModel::Audio(p)][0] == FrameModel::Audio(p));
    if decoded.len() > 0 {
        assert(frame_samples(none, decoded.drop_first()) == Seq::<i16>::empty());
    }
    assert(silence_block() + Seq::<i16>::empty() =~= Seq::new(160, |i: int| 0i16));
    assert(seq![p] + Seq::<Seq<u8>>::empty() =~= seq![p]);
    if decoded.len() > 0 {
        assert(decoded_block(decoded[0]) + Seq::<i16>::empty() =~= match decoded[0] {
            Some(s) => s,
            None => Seq::new(160, |i: int| 0i16),
        });
    }
}

/// A run of `k` silence frames counts `k` silences, hands nothing to the
/// decoder, and stands for `160 * k` zero samples.
pub proof fn lemma_silence_run(k: nat, decoded: Seq<Option<Seq<i16>>>)
    ensures
        silence_count(Seq::new(k, |i: int| FrameModel::Silence)) == k,
        audio_payloads_spec(Seq::new(k, |i: int| FrameModel::Silence)) == Seq::<Seq<u8>>::empty(),
        frame_samples(Seq::new(k, |i: int| FrameModel::Silence), decoded) == Seq::new(
            160 * k,
            |i: int| 0i16,
        ),
    decreases k,
{
    let run = Seq::new(k, |i: int| FrameModel::Silence);
    if k == 0 {
        assert(Seq::new(0, |i: int| 0i16) =~= Seq::<i16>::empty());
    } else {
        let shorter = Seq::new((k - 1) as nat, |i: int| FrameModel::Silence);
        lemma_silence_run((k - 1) as nat, decoded);
        assert(run.drop_first() =~= shorter);
        assert(run[0] == FrameModel::Silence);
        assert(silence_block() + Seq::new((160 * (k - 1)) as nat, |i: int| 0i16) =~= Seq::new(
            160 * k,
            |i: int| 0i16,
        ));
    }
}

} // verus!
