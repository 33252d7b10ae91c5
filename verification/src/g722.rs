//! G.722 decoding through the `audio_codec` crate.

use vstd::prelude::*;
use audio_codec::g722::G722Decoder;
use audio_codec::CodecError;
use audio_codec::Decoder;

verus! {

#[verifier::external_type_specification]
#[verifier::external_body]
pub struct ExG722Decoder(G722Decoder);

#[verifier::external_type_specification]
#[verifier::external_body]
pub struct ExCodecError(CodecError);

/// The samples that a decoder made by `G722Decoder::default()` writes for
/// `data` after it has decoded the payloads of `history`, one after the
/// other, each into a buffer with room for all its samples. The decoder's
/// state is a fixed function of those payloads, so the samples are too.
pub uninterp spec fn g722_samples(history: Seq<Seq<u8>>, data: Seq<u8>) -> Seq<i16>;

/// A G.722 decoder as `G722Decoder::default()` makes it: 64 kbit/s codes,
/// one per byte (unpacked), 16 kHz output (two samples per code). Decoding
/// changes its band state but never this configuration, and no other
/// decoder is ever put into a stream. `history` holds the payloads it has
/// decoded, in order; only the decoding wrapper extends it.
pub struct G722Stream {
    dec: G722Decoder,
    history: Ghost<Seq<Seq<u8>>>,
}

impl G722Stream {
    /// The payloads this stream has decoded, in order.
    pub closed spec fn history(&self) -> Seq<Seq<u8>> {
        self.history@
    }

    /// A stream over a fresh decoder.
    pub fn new() -> (s: Self)
        ensures
            s.history() == Seq::<Seq<u8>>::empty(),
    {
        G722Stream { dec: g722_decoder(), history: Ghost(Seq::empty()) }
    }
}

/// `G722Decoder::default()`: a fresh decoder (64 kbit/s, 16 kHz output,
/// unpacked codes). Nothing is claimed of its state.
#[verifier::external_body]
fn g722_decoder() -> G722Decoder {
    G722Decoder::default()
}

/// `Decoder::sample_rate` of `G722Decoder`, which returns 16000 for every decoder.
#[verifier::external_body]
pub(crate) fn g722_sample_rate(stream: &G722Stream) -> (r: u32)
    ensures
        r == 16000,
{
    stream.dec.sample_rate()
}

/// `Decoder::max_decode_samples` of `G722Decoder`: `2 * n_bytes` for a
/// decoder with 16 kHz output, as every stream holds (the doubling
/// overflows for larger inputs).
#[verifier::external_body]
pub(crate) fn g722_max_decode_samples(stream: &G722Stream, n_bytes: usize) -> (r: usize)
    requires
        n_bytes <= usize::MAX / 2,
    ensures
        r == 2 * n_bytes,
{
    stream.dec.max_decode_samples(n_bytes)
}

/// `Decoder::decode_into` of `G722Decoder`, given room for two samples per
/// byte of `data` (with less room it fails with `BufferTooSmall` after
/// decoding part of `data`, which leaves the decoder in a state that no
/// history describes; this library never asks for that). For an unpacked
/// 16 kHz decoder, as every stream holds, it writes two samples per byte at
/// the front of `out`, the ones [`g722_samples`] names for the payloads
/// decoded so far, and returns their number. `out` keeps its length, and the
/// stream's history gains `data`.
#[verifier::external_body]
pub(crate) fn g722_decode_into(stream: &mut G722Stream, data: &[u8], out: &mut Vec<i16>) -> (r:
    Result<usize, CodecError>)
    requires
        old(out)@.len() >= 2 * data@.len(),
    ensures
        final(out)@.len() == old(out)@.len(),
        r is Ok,
        r->Ok_0 == 2 * data@.len(),
        final(out)@.take(2 * (data@.len() as int)) == g722_samples(old(stream).history(), data@),
        final(stream).history() == old(stream).history().push(data@),
{
    stream.dec.decode_into(data, out.as_mut_slice())
}

/// Decodes one payload with `dec`: the samples the decoder writes for it,
/// two per payload byte, which it always delivers into a buffer sized for
/// them. The payload joins the stream's history.
pub fn decode_payload(dec: &mut G722Stream, payload: &[u8]) -> (r: Option<Vec<i16>>)
    requires
        payload@.len() <= usize::MAX / 2,
    ensures
        r matches Some(s) && s@ == g722_samples(old(dec).history(), payload@),
        r matches Some(s) && s@.len() == 2 * payload@.len(),
        final(dec).history() == old(dec).history().push(payload@),
{
    let max: usize = g722_max_decode_samples(dec, payload.len());
    let mut buf: Vec<i16> = vec![0i16; max];
    match g722_decode_into(dec, payload, &mut buf) {
        Ok(n) => {
            buf.truncate(n);
            Some(buf)
        },
        Err(_) => None,
    }
}

/// Counts the payloads that a fresh decoder, fed them in order, refuses:
/// none, as every payload gets a buffer of two samples per byte.
pub fn probe_failures(payloads: &[&[u8]]) -> (failed: usize)
    requires
        forall|i: int| 0 <= i < payloads@.len() ==> (#[trigger] payloads@[i])@.len() <= usize::MAX / 2,
    ensures
        failed == 0,
{
    let mut dec = G722Stream::new();
    let mut failed: usize = 0;
    let mut i: usize = 0;
    while i < payloads.len()
        invariant
            i <= payloads@.len(),
            failed == 0,
            forall|i: int| 0 <= i < payloads@.len() ==> (#[trigger] payloads@[i])@.len() <= usize::MAX / 2,
        decreases payloads@.len() - i,
    {
        let p = payloads[i];
        let max: usize = g722_max_decode_samples(&dec, p.len());
        let mut buf: Vec<i16> = vec![0i16; max];
        if g722_decode_into(&mut dec, p, &mut buf).is_err() {
            failed = failed + 1;
        }
        i = i + 1;
    }
    failed
}

} // verus!
