//! TAM container format parser.
//!
//! A container is a chain of markers:
//! - `0x01..=0xFA`: audio frame, the byte is the payload length;
//! - `0xFB xx`: silence / comfort-noise frame (two bytes);
//! - `0xFF lo hi`: extended audio frame, little-endian 16-bit payload length;
//! - `0x00`, `0xFC`, `0xFD`, `0xFE`: end of stream.

use vstd::prelude::*;
use vstd::string::StringExecFns;
use vstd::slice::slice_subrange;
use vstd::slice::slice_to_vec;
use crate::text::decimal_digits;
use crate::text::usize_to_decimal;

verus! {

#[derive(Debug, Clone, PartialEq, Eq)]
pub enum Frame {
    /// Speech/audio frame with its payload (G.722 or Speex bytes).
    Audio(Vec<u8>),
    /// Silence/CNG frame. Carries no codec payload.
    Silence,
    /// End-of-stream or terminator marker.
    End,
}

/// What a [`Frame`] holds, with the payload as a sequence of bytes.
pub enum FrameModel {
    Audio(Seq<u8>),
    Silence,
    End,
}

impl View for Frame {
    type V = FrameModel;

    open spec fn view(&self) -> FrameModel {
        match self {
            Frame::Audio(p) => FrameModel::Audio(p@),
            Frame::Silence => FrameModel::Silence,
            Frame::End => FrameModel::End,
        }
    }
}

/// The models of a list of frames, in order.
pub open spec fn frames_model(frames: Seq<Frame>) -> Seq<FrameModel> {
    frames.map_values(|f: Frame| f@)
}

#[derive(Debug, Clone, Copy, PartialEq, Eq)]
pub enum EndCode {
    /// `0x00` end-of-stream
    Eos,
    /// `0xFC` / `0xFD` / `0xFE` touch terminator
    Terminator(u8),
}

#[derive(Debug)]
pub struct ParseError {
    pub offset: usize,
    pub reason: String,
}

/// Why a container failed to parse.
pub enum ParseFailure {
    /// An `0xFF` marker without its two length bytes.
    TruncatedExtended,
    /// An extended frame whose payload runs past the end of the input.
    ExtendedOverrun(nat),
    /// A short frame whose payload runs past the end of the input.
    FrameOverrun(nat),
}

/// The text of [`ParseError::reason`] for each failure.
pub open spec fn failure_reason(f: ParseFailure) -> Seq<char> {
    match f {
        ParseFailure::TruncatedExtended => "truncated extended length"@,
        ParseFailure::ExtendedOverrun(len) => "extended frame of "@ + decimal_digits(len)
            + " bytes overruns input"@,
        ParseFailure::FrameOverrun(len) => "frame of "@ + decimal_digits(len)
            + " bytes overruns input"@,
    }
}

/// `0x00` and `0xFC..=0xFE` end the stream.
pub open spec fn is_end_marker(b: u8) -> bool {
    b == 0x00 || (0xFC <= b && b <= 0xFE)
}

/// A little-endian 16-bit value.
pub open spec fn le_u16(lo: u8, hi: u8) -> nat {
    lo as nat + 256 * (hi as nat)
}

/// Distance to the end of `data` from `pos`, zero past it; it shrinks along a chain.
pub open spec fn remaining(data: Seq<u8>, pos: int) -> nat {
    if pos < data.len() {
        (data.len() - pos) as nat
    } else {
        0
    }
}

/// Puts `f` in front of the frames of a successful parse.
pub open spec fn cons_frame(
    f: FrameModel,
    r: Result<Seq<FrameModel>, (int, ParseFailure)>,
) -> Result<Seq<FrameModel>, (int, ParseFailure)> {
    match r {
        Ok(fs) => Ok(seq![f] + fs),
        Err(e) => Err(e),
    }
}

/// Puts `fs` in front of the frames of a successful parse.
pub open spec fn prefix_frames(
    fs: Seq<FrameModel>,
    r: Result<Seq<FrameModel>, (int, ParseFailure)>,
) -> Result<Seq<FrameModel>, (int, ParseFailure)> {
    match r {
        Ok(rest) => Ok(fs + rest),
        Err(e) => Err(e),
    }
}

/// The frames of the container that starts at `pos` in `data`, or the offset
/// and cause of the first malformed marker.
pub open spec fn parse_from(data: Seq<u8>, pos: int) -> Result<Seq<FrameModel>, (int, ParseFailure)>
    decreases remaining(data, pos),
{
    if pos < 0 || pos >= data.len() {
        Ok(Seq::empty())
    } else {
        let b = data[pos];
        if is_end_marker(b) {
            Ok(seq![FrameModel::End])
        } else if b == 0xFB {
            cons_frame(FrameModel::Silence, parse_from(data, pos + 2))
        } else if b == 0xFF {
            if pos + 2 >= data.len() {
                Err((pos, ParseFailure::TruncatedExtended))
            } else {
                let len = le_u16(data[pos + 1], data[pos + 2]);
                if pos + 3 + len > data.len() {
                    Err((pos + 3, ParseFailure::ExtendedOverrun(len)))
                } else {
                    cons_frame(
                        FrameModel::Audio(data.subrange(pos + 3, pos + 3 + len)),
                        parse_from(data, pos + 3 + len),
                    )
                }
            }
        } else {
            let len = b as nat;
            if pos + 1 + len > data.len() {
                Err((pos, ParseFailure::FrameOverrun(len)))
            } else {
                cons_frame(
                    FrameModel::Audio(data.subrange(pos + 1, pos + 1 + len)),
                    parse_from(data, pos + 1 + len),
                )
            }
        }
    }
}

/// The frames of the container `data`, or where and why it is malformed.
pub open spec fn parse_spec(data: Seq<u8>) -> Result<Seq<FrameModel>, (int, ParseFailure)> {
    parse_from(data, 0)
}

/// Whether the chain of markers from `pos` reaches exactly the end of `data`:
/// an end marker as the last byte, or a frame ending at the last byte.
pub open spec fn chain_reaches_end(data: Seq<u8>, pos: int) -> bool
    decreases remaining(data, pos),
{
    if pos < 0 {
        false
    } else if pos >= data.len() {
        pos == data.len()
    } else {
        let b = data[pos];
        if is_end_marker(b) {
            pos + 1 == data.len()
        } else if b == 0xFB {
            chain_reaches_end(data, pos + 2)
        } else if b == 0xFF {
            if pos + 2 >= data.len() {
                false
            } else {
                chain_reaches_end(data, pos + 3 + le_u16(data[pos + 1], data[pos + 2]))
            }
        } else {
            chain_reaches_end(data, pos + 1 + b)
        }
    }
}

/// Try to detect whether `data` is a raw 38-byte Speex stream (TTS/fvp files)
/// or a length-prefixed container (rec files).
#[derive(Debug, Clone, Copy, PartialEq, Eq)]
pub enum StreamKind {
    Container,
    Raw38,
}

/// What [`detect_stream_kind`] decides: a leading container marker other
/// than a short frame means a container; otherwise the whole input must be
/// one chain of markers.
pub open spec fn stream_kind_spec(data: Seq<u8>) -> StreamKind {
    if data.len() == 0 {
        StreamKind::Raw38
    } else if is_end_marker(data[0]) || data[0] == 0xFB || data[0] == 0xFF {
        StreamKind::Container
    } else if chain_reaches_end(data, 0) {
        StreamKind::Container
    } else {
        StreamKind::Raw38
    }
}

proof fn lemma_prefix_cons(fs: Seq<FrameModel>, f: FrameModel, r: Result<Seq<FrameModel>, (int, ParseFailure)>)
    ensures
        prefix_frames(fs, cons_frame(f, r)) == prefix_frames(fs.push(f), r),
{
    match r {
        Ok(rest) => {
            assert(fs + (seq![f] + rest) =~= fs.push(f) + rest);
        },
        Err(_) => {},
    }
}

proof fn lemma_frames_model_push(frames: Seq<Frame>, f: Frame)
    ensures
        frames_model(frames.push(f)) == frames_model(frames).push(f@),
{
    assert(frames_model(frames.push(f)) =~= frames_model(frames).push(f@));
}

fn overrun_reason(prefix: &str, len: usize) -> (s: String)
    ensures
        s@ == prefix@ + decimal_digits(len as nat) + " bytes overruns input"@,
{
    let digits = usize_to_decimal(len);
    String::from_str(prefix).concat(digits.as_str()).concat(" bytes overruns input")
}

impl ParseError {
    /// `offset {offset}: {reason}`, as the error is displayed.
    pub fn to_string(&self) -> (s: String)
        ensures
            s@ == "offset "@ + decimal_digits(self.offset as nat) + ": "@ + self.reason@,
    {
        let digits = usize_to_decimal(self.offset);
        String::from_str("offset ").concat(digits.as_str()).concat(": ").concat(self.reason.as_str())
    }
}

/// Parse the container into an ordered frame list.
///
/// # Errors
///
/// [`ParseError`] if a frame length overruns the input.
pub fn parse_container(data: &[u8]) -> (r: Result<Vec<Frame>, ParseError>)
    ensures
        match r {
            Ok(frames) => parse_spec(data@) == Ok::<Seq<FrameModel>, (int, ParseFailure)>(
                frames_model(frames@),
            ),
            Err(e) => parse_spec(data@) matches Err((off, why)) && e.offset == off
                && e.reason@ == failure_reason(why),
        },
{
    let mut frames: Vec<Frame> = Vec::new();
    let mut pos: usize = 0;
    loop
        invariant_except_break
            parse_spec(data@) == prefix_frames(frames_model(frames@), parse_from(data@, pos as int)),
        ensures
            parse_spec(data@) == Ok::<Seq<FrameModel>, (int, ParseFailure)>(frames_model(frames@)),
        decreases remaining(data@, pos as int),
    {
        if pos >= data.len() {
            assert(frames_model(frames@) + Seq::<FrameModel>::empty() =~= frames_model(frames@));
            break;
        }
        let b: u8 = data[pos];
        let ghost fs = frames_model(frames@);
        if b == 0x00 || (0xFC <= b && b <= 0xFE) {
            proof {
                lemma_frames_model_push(frames@, Frame::End);
                lemma_prefix_cons(fs, FrameModel::End, Ok(Seq::empty()));
                assert(fs.push(FrameModel::End) + Seq::<FrameModel>::empty() =~= fs.push(FrameModel::End));
            }
            frames.push(Frame::End);
            break;
        } else if b == 0xFB {
            proof {
                lemma_frames_model_push(frames@, Frame::Silence);
                lemma_prefix_cons(fs, FrameModel::Silence, parse_from(data@, pos + 2));
            }
            frames.push(Frame::Silence);
            if data.len() - pos <= 2 {
                assert(parse_from(data@, pos + 2) == Ok::<Seq<FrameModel>, (int, ParseFailure)>(Seq::empty()));
                assert(fs.push(FrameModel::Silence) + Seq::<FrameModel>::empty() =~= fs.push(FrameModel::Silence));
                break;
            }
            pos = pos + 2;
        } else if b == 0xFF {
            if data.len() - pos <= 2 {
                return Err(ParseError { offset: pos, reason: String::from_str("truncated extended length") });
            }
            let len: usize = data[pos + 1] as usize + 256 * (data[pos + 2] as usize);
            pos = pos + 3;
            if len > data.len() - pos {
                let reason = overrun_reason("extended frame of ", len);
                return Err(ParseError { offset: pos, reason });
            }
            let payload = slice_to_vec(slice_subrange(data, pos, pos + len));
            proof {
                lemma_frames_model_push(frames@, Frame::Audio(payload));
                lemma_prefix_cons(fs, FrameModel::Audio(payload@), parse_from(data@, pos + len));
            }
            frames.push(Frame::Audio(payload));
            pos = pos + len;
        } else {
            let len: usize = b as usize;
            if len >= data.len() - pos {
                let reason = overrun_reason("frame of ", len);
                return Err(ParseError { offset: pos, reason });
            }
            let payload = slice_to_vec(slice_subrange(data, pos + 1, pos + 1 + len));
            proof {
                lemma_frames_model_push(frames@, Frame::Audio(payload));
                lemma_prefix_cons(fs, FrameModel::Audio(payload@), parse_from(data@, pos + 1 + len));
            }
            frames.push(Frame::Audio(payload));
            pos = pos + 1 + len;
        }
    }
    Ok(frames)
}

/// Walk the container chain from `start`.
///
/// Returns `true` when the markers form a valid sequence reaching exactly
/// `data.len()`, i.e. the whole file is a container. Distinguishes a
/// length-prefixed container from a raw 38-byte Speex stream during format
/// auto-detection.
pub fn is_container_stream(data: &[u8], start: usize) -> (r: bool)
    ensures
        r == chain_reaches_end(data@, start as int),
{
    let mut pos = start;
    while pos < data.len()
        invariant
            chain_reaches_end(data@, start as int) == chain_reaches_end(data@, pos as int),
        decreases remaining(data@, pos as int),
    {
        let b: u8 = data[pos];
        if b == 0x00 || (0xFC <= b && b <= 0xFE) {
            return data.len() - pos == 1;
        } else if b == 0xFB {
            // A jump past the end can no longer land on it.
            if data.len() - pos < 2 {
                assert(!chain_reaches_end(data@, pos + 2));
                return false;
            }
            pos = pos + 2;
        } else if b == 0xFF {
            if data.len() - pos <= 2 {
                return false;
            }
            let len: usize = data[pos + 1] as usize + 256 * (data[pos + 2] as usize);
            if len > data.len() - pos - 3 {
                assert(!chain_reaches_end(data@, pos + 3 + len));
                return false;
            }
            pos = pos + 3 + len;
        } else {
            let len: usize = b as usize;
            if len > data.len() - pos - 1 {
                assert(!chain_reaches_end(data@, pos + 1 + len));
                return false;
            }
            pos = pos + 1 + len;
        }
    }
    pos == data.len()
}

pub fn detect_stream_kind(data: &[u8]) -> (r: StreamKind)
    ensures
        r == stream_kind_spec(data@),
{
    if data.len() == 0 {
        return StreamKind::Raw38;
    }
    let b0: u8 = data[0];
    if b0 == 0 || b0 == 0xFB || b0 == 0xFF || (0xFC <= b0 && b0 <= 0xFE) {
        // Starts with a container marker -> container.
        return StreamKind::Container;
    }
    if b0 > 0xFA {
        return StreamKind::Raw38;
    }
    if is_container_stream(data, 0) {
        StreamKind::Container
    } else {
        StreamKind::Raw38
    }
}

/// A chain of markers that reaches exactly the end of the input parses
/// without error: whatever [`is_container_stream`] accepts from `pos`,
/// [`parse_container`] accepts from there too.
pub proof fn lemma_chain_parses(data: Seq<u8>, pos: int)
    requires
        chain_reaches_end(data, pos),
    ensures
        parse_from(data, pos) is Ok,
    decreases remaining(data, pos),
{
    if 0 <= pos < data.len() {
        let b = data[pos];
        if is_end_marker(b) {
        } else if b == 0xFB {
            lemma_chain_parses(data, pos + 2);
        } else if b == 0xFF {
            let next = pos + 3 + le_u16(data[pos + 1], data[pos + 2]);
            if next > data.len() {
                assert(!chain_reaches_end(data, next));
            }
            lemma_chain_parses(data, next);
        } else {
            let next = pos + 1 + b;
            if next > data.len() {
                assert(!chain_reaches_end(data, next));
            }
            lemma_chain_parses(data, next);
        }
    }
}

/// Whatever [`is_container_stream`] accepts as a whole container,
/// [`parse_container`] parses without error.
pub proof fn lemma_container_stream_parses(data: Seq<u8>)
    requires
        chain_reaches_end(data, 0),
    ensures
        parse_spec(data) is Ok,
{
    lemma_chain_parses(data, 0);
}

/// An end marker closes a chain: no frame follows it.
pub open spec fn end_only_last(fs: Seq<FrameModel>) -> bool {
    forall|i: int| 0 <= i < fs.len() - 1 ==> !(#[trigger] fs[i] is End)
}

proof fn lemma_parse_from_end_only_last(data: Seq<u8>, pos: int)
    ensures
        parse_from(data, pos) matches Ok(fs) ==> end_only_last(fs),
    decreases remaining(data, pos),
{
    if 0 <= pos < data.len() {
        let b = data[pos];
        if is_end_marker(b) {
        } else {
            let next = if b == 0xFB {
                pos + 2
            } else if b == 0xFF {
                pos + 3 + le_u16(data[pos + 1], data[pos + 2])
            } else {
                pos + 1 + b
            };
            lemma_parse_from_end_only_last(data, next);
            if let Ok(fs) = parse_from(data, pos) {
                let rest = parse_from(data, next)->Ok_0;
                assert(fs == seq![fs[0]] + rest);
                assert forall|i: int| 0 <= i < fs.len() - 1 implies !(#[trigger] fs[i] is End) by {
                    if i > 0 {
                        assert(fs[i] == rest[i - 1]);
                    }
                }
            }
        }
    }
}

/// The frame list of a container holds at most one end frame, and only as
/// its last element.
pub proof fn lemma_end_only_last(data: Seq<u8>)
    ensures
        parse_spec(data) matches Ok(fs) ==> end_only_last(fs),
{
    lemma_parse_from_end_only_last(data, 0);
}

/// Every audio payload is at most 65535 bytes long, the most a 16-bit
/// length can announce.
pub open spec fn payloads_within_u16(fs: Seq<FrameModel>) -> bool {
    forall|i: int|
        0 <= i < fs.len() ==> (#[trigger] fs[i] matches FrameModel::Audio(p) ==> p.len() <= 0xFFFF)
}

proof fn lemma_parse_from_payloads_within_u16(data: Seq<u8>, pos: int)
    ensures
        parse_from(data, pos) matches Ok(fs) ==> payloads_within_u16(fs),
    decreases remaining(data, pos),
{
    if 0 <= pos < data.len() {
        let b = data[pos];
        if !is_end_marker(b) {
            let next = if b == 0xFB {
                pos + 2
            } else if b == 0xFF {
                pos + 3 + le_u16(data[pos + 1], data[pos + 2])
            } else {
                pos + 1 + b
            };
            lemma_parse_from_payloads_within_u16(data, next);
            if let Ok(fs) = parse_from(data, pos) {
                let rest = parse_from(data, next)->Ok_0;
                assert(fs == seq![fs[0]] + rest);
                assert forall|i: int| 0 <= i < fs.len() implies (#[trigger] fs[i] matches FrameModel::Audio(
                    p,
                ) ==> p.len() <= 0xFFFF) by {
                    if i > 0 {
                        assert(fs[i] == rest[i - 1]);
                    }
                }
            }
        }
    }
}

/// No audio frame of a parsed container is longer than 65535 bytes.
pub proof fn lemma_payloads_within_u16(data: Seq<u8>)
    ensures
        parse_spec(data) matches Ok(fs) ==> payloads_within_u16(fs),
{
    lemma_parse_from_payloads_within_u16(data, 0);
}

proof fn lemma_parse_after_prefix(a: Seq<u8>, b: Seq<u8>, q: int)
    requires
        0 <= q,
    ensures
        parse_from(a + b, a.len() + q) == (match parse_from(b, q) {
            Ok(fs) => Ok(fs),
            Err((off, why)) => Err((off + a.len(), why)),
        }),
    decreases remaining(b, q),
{
    let ab = a + b;
    let p = a.len() + q;
    if q < b.len() {
        let x = b[q];
        assert(ab[p] == x);
        if is_end_marker(x) {
        } else if x == 0xFB {
            lemma_parse_after_prefix(a, b, q + 2);
        } else if x == 0xFF {
            if q + 2 < b.len() {
                assert(ab[p + 1] == b[q + 1]);
                assert(ab[p + 2] == b[q + 2]);
                let len = le_u16(b[q + 1], b[q + 2]);
                if q + 3 + len <= b.len() {
                    assert(ab.subrange(p + 3, p + 3 + len) =~= b.subrange(q + 3, q + 3 + len));
                    lemma_parse_after_prefix(a, b, q + 3 + len);
                }
            }
        } else {
            let len = x as int;
            if q + 1 + len <= b.len() {
                assert(ab.subrange(p + 1, p + 1 + len) =~= b.subrange(q + 1, q + 1 + len));
                lemma_parse_after_prefix(a, b, q + 1 + len);
            }
        }
    }
}

proof fn lemma_parse_prefix_chain(a: Seq<u8>, b: Seq<u8>, pos: int)
    requires
        0 <= pos,
        chain_reaches_end(a, pos),
        parse_from(a, pos) matches Ok(fs) && !fs.contains(FrameModel::End),
        parse_from(b, 0) is Ok,
    ensures
        parse_from(a + b, pos) == prefix_frames(parse_from(a, pos)->Ok_0, parse_from(b, 0)),
    decreases remaining(a, pos),
{
    let ab = a + b;
    let fb = parse_from(b, 0)->Ok_0;
    let fs = parse_from(a, pos)->Ok_0;
    if pos >= a.len() {
        lemma_parse_after_prefix(a, b, 0);
        assert(pos == a.len() + 0);
        assert(fs =~= Seq::<FrameModel>::empty());
        assert(fs + fb =~= fb);
    } else {
        let x = a[pos];
        assert(ab[pos] == x);
        if is_end_marker(x) {
            assert(fs[0] == FrameModel::End);
        } else {
            let next = if x == 0xFB {
                pos + 2
            } else if x == 0xFF {
                pos + 3 + le_u16(a[pos + 1], a[pos + 2])
            } else {
                pos + 1 + x
            };
            if x == 0xFF {
                assert(pos + 2 < a.len());
                assert(ab[pos + 1] == a[pos + 1]);
                assert(ab[pos + 2] == a[pos + 2]);
            }
            assert(chain_reaches_end(a, next));
            if next > a.len() {
                assert(!chain_reaches_end(a, next));
            }
            assert(next <= a.len());
            let rest = parse_from(a, next)->Ok_0;
            let f = fs[0];
            assert(fs =~= seq![f] + rest);
            assert(!rest.contains(FrameModel::End)) by {
                if rest.contains(FrameModel::End) {
                    let i = choose|i: int| 0 <= i < rest.len() && rest[i] == FrameModel::End;
                    assert(fs[i + 1] == FrameModel::End);
                }
            }
            lemma_parse_prefix_chain(a, b, next);
            if x == 0xFF {
                let len = le_u16(a[pos + 1], a[pos + 2]);
                assert(ab.subrange(pos + 3, pos + 3 + len) =~= a.subrange(pos + 3, pos + 3 + len));
            } else if x != 0xFB {
                let len = x as int;
                assert(ab.subrange(pos + 1, pos + 1 + len) =~= a.subrange(pos + 1, pos + 1 + len));
            }
            assert(seq![f] + (rest + fb) =~= fs + fb);
        }
    }
}

/// A marker-complete container without an end marker, followed by another
/// container that parses: the frames of the whole are the frames of the
/// first followed by those of the second.
pub proof fn lemma_parse_concat(a: Seq<u8>, b: Seq<u8>)
    requires
        chain_reaches_end(a, 0),
        parse_spec(a) matches Ok(fa) && !fa.contains(FrameModel::End),
        parse_spec(b) is Ok,
    ensures
        parse_spec(a + b) == Ok::<Seq<FrameModel>, (int, ParseFailure)>(
            parse_spec(a)->Ok_0 + parse_spec(b)->Ok_0,
        ),
{
    lemma_parse_prefix_chain(a, b, 0);
}

proof fn lemma_chain_after_prefix(a: Seq<u8>, b: Seq<u8>, q: int)
    requires
        0 <= q,
    ensures
        chain_reaches_end(a + b, a.len() + q) == chain_reaches_end(b, q),
    decreases remaining(b, q),
{
    let ab = a + b;
    let p = a.len() + q;
    if q < b.len() {
        let x = b[q];
        assert(ab[p] == x);
        if is_end_marker(x) {
        } else if x == 0xFB {
            lemma_chain_after_prefix(a, b, q + 2);
        } else if x == 0xFF {
            if q + 2 < b.len() {
                assert(ab[p + 1] == b[q + 1]);
                assert(ab[p + 2] == b[q + 2]);
                lemma_chain_after_prefix(a, b, q + 3 + le_u16(b[q + 1], b[q + 2]));
            }
        } else {
            lemma_chain_after_prefix(a, b, q + 1 + x);
        }
    }
}

/// Where a chain starts does not matter, only what follows: the walk over
/// `b` from `q` reaches the end exactly when it does with any bytes `a`
/// in front.
pub proof fn lemma_chain_ignores_prefix(a: Seq<u8>, b: Seq<u8>, q: int)
    requires
        0 <= q,
    ensures
        chain_reaches_end(a + b, a.len() + q) == chain_reaches_end(b, q),
{
    lemma_chain_after_prefix(a, b, q);
}

/// The empty input is an empty container: it parses to no frames, and the
/// walk from its start is already at its end.
pub proof fn lemma_empty_container()
    ensures
        parse_spec(Seq::empty()) == Ok::<Seq<FrameModel>, (int, ParseFailure)>(Seq::empty()),
        chain_reaches_end(Seq::empty(), 0),
{
}

/// A short frame: a length byte `b` in `0x01..=0xFA` and the `b` bytes right
/// after it make one audio frame that holds exactly those bytes, never the
/// length byte; what follows parses on its own, with its error offsets moved
/// past the frame.
pub proof fn lemma_parse_short_frame(payload: Seq<u8>, rest: Seq<u8>)
    requires
        1 <= payload.len() <= 0xFA,
    ensures
        ({
            let data = seq![payload.len() as u8] + payload + rest;
            match parse_spec(rest) {
                Ok(gs) => parse_spec(data) == Ok::<Seq<FrameModel>, (int, ParseFailure)>(
                    seq![FrameModel::Audio(payload)] + gs,
                ),
                Err((off, why)) => parse_spec(data) == Err::<Seq<FrameModel>, (int, ParseFailure)>(
                    (off + 1 + payload.len(), why),
                ),
            }
        }),
{
    let h = seq![payload.len() as u8] + payload;
    let data = seq![payload.len() as u8] + payload + rest;
    assert(data =~= h + rest);
    assert(data[0] == payload.len() as u8);
    assert(data.subrange(1, 1 + payload.len() as int) =~= payload);
    lemma_parse_after_prefix(h, rest, 0);
    assert(h.len() + 0 == 1 + payload.len());
}

/// A short frame whose length byte announces more bytes than follow it is an
/// overrun at the frame's own offset.
pub proof fn lemma_parse_short_overrun(b: u8, tail: Seq<u8>)
    requires
        1 <= b <= 0xFA,
        tail.len() < b,
    ensures
        parse_spec(seq![b] + tail) == Err::<Seq<FrameModel>, (int, ParseFailure)>(
            (0, ParseFailure::FrameOverrun(b as nat)),
        ),
{
    assert((seq![b] + tail)[0] == b);
}

/// A silence frame: `0xFB` and the byte after it make one silence frame;
/// what follows parses on its own, with its error offsets moved past it.
pub proof fn lemma_parse_silence(x: u8, rest: Seq<u8>)
    ensures
        ({
            let data = seq![0xFBu8, x] + rest;
            match parse_spec(rest) {
                Ok(gs) => parse_spec(data) == Ok::<Seq<FrameModel>, (int, ParseFailure)>(
                    seq![FrameModel::Silence] + gs,
                ),
                Err((off, why)) => parse_spec(data) == Err::<Seq<FrameModel>, (int, ParseFailure)>(
                    (off + 2, why),
                ),
            }
        }),
{
    let h = seq![0xFBu8, x];
    let data = h + rest;
    assert(data[0] == 0xFBu8);
    lemma_parse_after_prefix(h, rest, 0);
    assert(h.len() + 0 == 2);
}

/// An extended frame: `0xFF`, the payload length as two little-endian bytes,
/// and that many bytes make one audio frame holding exactly those bytes;
/// what follows parses on its own, with its error offsets moved past it.
pub proof fn lemma_parse_extended_frame(payload: Seq<u8>, rest: Seq<u8>)
    requires
        payload.len() <= 0xFFFF,
    ensures
        ({
            let n = payload.len();
            let data = seq![0xFFu8, (n % 256) as u8, (n / 256) as u8] + payload + rest;
            match parse_spec(rest) {
                Ok(gs) => parse_spec(data) == Ok::<Seq<FrameModel>, (int, ParseFailure)>(
                    seq![FrameModel::Audio(payload)] + gs,
                ),
                Err((off, why)) => parse_spec(data) == Err::<Seq<FrameModel>, (int, ParseFailure)>(
                    (off + 3 + n, why),
                ),
            }
        }),
{
    let n = payload.len();
    let h = seq![0xFFu8, (n % 256) as u8, (n / 256) as u8] + payload;
    let data = seq![0xFFu8, (n % 256) as u8, (n / 256) as u8] + payload + rest;
    assert(data =~= h + rest);
    assert(data[0] == 0xFFu8);
    assert(data[1] == (n % 256) as u8);
    assert(data[2] == (n / 256) as u8);
    assert(le_u16(data[1], data[2]) == n);
    assert(data.subrange(3, 3 + n as int) =~= payload);
    lemma_parse_after_prefix(h, rest, 0);
    assert(h.len() + 0 == 3 + n);
}

/// An end marker (`0x00`, `0xFC`, `0xFD`, `0xFE`) closes the container: it
/// gives one end frame, and nothing after it is read.
pub proof fn lemma_parse_end(e: u8, rest: Seq<u8>)
    requires
        e == 0x00 || (0xFC <= e && e <= 0xFE),
    ensures
        parse_spec(seq![e] + rest) == Ok::<Seq<FrameModel>, (int, ParseFailure)>(
            seq![FrameModel::End],
        ),
{
    assert((seq![e] + rest)[0] == e);
}

/// A short frame that fits moves the walk past itself, whatever its length
/// byte: the chain from the frame reaches the end exactly when the chain
/// from just after it does.
pub proof fn lemma_chain_short_frame(data: Seq<u8>, p: int)
    requires
        0 <= p < data.len(),
        1 <= data[p] <= 0xFA,
        p + 1 + data[p] <= data.len(),
    ensures
        chain_reaches_end(data, p) == chain_reaches_end(data, p + 1 + data[p]),
{
}

/// A silence frame that fits moves the walk two bytes on.
pub proof fn lemma_chain_silence(data: Seq<u8>, p: int)
    requires
        0 <= p < data.len(),
        data[p] == 0xFB,
        p + 2 <= data.len(),
    ensures
        chain_reaches_end(data, p) == chain_reaches_end(data, p + 2),
{
}

/// An extended frame whose length bytes are present moves the walk past its
/// header and the payload length they announce.
pub proof fn lemma_chain_extended_frame(data: Seq<u8>, p: int)
    requires
        0 <= p,
        p + 2 < data.len(),
        data[p] == 0xFF,
    ensures
        chain_reaches_end(data, p) == chain_reaches_end(
            data,
            p + 3 + data[p + 1] + 256 * data[p + 2],
        ),
{
}

/// An end marker ends the walk: it reaches the end exactly when the marker
/// is the last byte.
pub proof fn lemma_chain_end(data: Seq<u8>, p: int)
    requires
        0 <= p < data.len(),
        data[p] == 0x00 || (0xFC <= data[p] && data[p] <= 0xFE),
    ensures
        chain_reaches_end(data, p) == (p + 1 == data.len()),
{
}

/// A walk that jumps past the end never reaches it; one at the end has.
pub proof fn lemma_chain_bounds(data: Seq<u8>, p: int)
    ensures
        p > data.len() ==> !chain_reaches_end(data, p),
        p == data.len() ==> chain_reaches_end(data, p),
{
}

/// Detection by the first byte: an empty input is raw; a leading end,
/// silence or extended marker means a container; a leading short-frame
/// length byte means a container exactly when the whole input is one chain
/// of markers, whatever that length byte is.
pub proof fn lemma_stream_kind(data: Seq<u8>)
    ensures
        data.len() == 0 ==> stream_kind_spec(data) == StreamKind::Raw38,
        data.len() > 0 && (data[0] == 0x00 || data[0] >= 0xFB) ==> stream_kind_spec(data)
            == StreamKind::Container,
        data.len() > 0 && 0x01 <= data[0] <= 0xFA ==> (stream_kind_spec(data)
            == StreamKind::Container <==> chain_reaches_end(data, 0)),
{
}

} // verus!
