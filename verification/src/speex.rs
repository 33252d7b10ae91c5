//! Framing rules of Speex NB streams: raw 38-byte frame streams (TTS files)
//! and the sizes the decoder works with.

use vstd::prelude::*;

verus! {

pub const RAW38_FRAME_LEN: usize = 38;

/// Samples a decoder state delivers per frame: what the state reports,
/// but never fewer than 160.
pub fn speex_frame_size(reported: i32) -> (n: usize)
    ensures
        n == (if reported > 160 { reported as int } else { 160 }),
{
    if reported > 160 {
        reported as usize
    } else {
        160
    }
}

/// Number of frames needed for `n_bytes` bytes of raw 38-byte frames,
/// counting a partial frame as a whole one.
pub open spec fn raw38_frame_count(n_bytes: nat) -> nat {
    (n_bytes + 37) / 38
}

/// Upper bound on the samples decoded from `n_bytes` bytes: one frame of
/// `frame_size` samples per started 38-byte frame; `None` where that
/// product does not fit in `usize`.
pub fn speex_max_decode_samples(n_bytes: usize, frame_size: usize) -> (r: Option<usize>)
    ensures
        match r {
            Some(n) => n == raw38_frame_count(n_bytes as nat) * frame_size,
            None => raw38_frame_count(n_bytes as nat) * frame_size > usize::MAX,
        },
{
    let frames: usize = n_bytes / RAW38_FRAME_LEN + if n_bytes % RAW38_FRAME_LEN == 0 { 0 } else { 1 };
    assert(frames == raw38_frame_count(n_bytes as nat));
    frames.checked_mul(frame_size)
}

/// Why the Speex decoder did not decode a frame.
#[derive(Debug, Clone, Copy, PartialEq, Eq)]
pub enum SpeexFrameError {
    /// The output buffer holds less than one frame of samples.
    BufferTooSmall,
    /// The payload is longer than the decoder's length type can say.
    InvalidInput,
    /// The decoder reported a corrupt frame.
    DecodeFailed,
}

/// Checks a decode call before it goes to the decoder: the output must hold
/// a whole frame, and the payload length must fit the decoder's `int`; the
/// result is that length.
pub fn speex_frame_request(out_len: usize, frame_size: usize, data_len: usize) -> (r: Result<
    i32,
    SpeexFrameError,
>)
    ensures
        out_len < frame_size ==> r == Err::<i32, SpeexFrameError>(SpeexFrameError::BufferTooSmall),
        out_len >= frame_size && data_len > i32::MAX ==> r == Err::<i32, SpeexFrameError>(
            SpeexFrameError::InvalidInput,
        ),
        out_len >= frame_size && data_len <= i32::MAX ==> r == Ok::<i32, SpeexFrameError>(
            data_len as i32,
        ),
{
    if out_len < frame_size {
        return Err(SpeexFrameError::BufferTooSmall);
    }
    if data_len > 0x7fff_ffff {
        return Err(SpeexFrameError::InvalidInput);
    }
    Ok(data_len as i32)
}

/// What a decode call yields from the decoder's return code: a whole frame of
/// samples on `0`, a failure on anything else.
pub fn speex_frame_result(ret: i32, frame_size: usize) -> (r: Result<usize, SpeexFrameError>)
    ensures
        ret == 0 ==> r == Ok::<usize, SpeexFrameError>(frame_size),
        ret != 0 ==> r == Err::<usize, SpeexFrameError>(SpeexFrameError::DecodeFailed),
{
    if ret == 0 {
        Ok(frame_size)
    } else {
        Err(SpeexFrameError::DecodeFailed)
    }
}

/// A raw stream whose length is not a whole number of 38-byte frames.
#[derive(Debug, Clone, Copy, PartialEq, Eq)]
pub struct Raw38LengthError {
    pub len: usize,
}

/// Splits a raw Speex stream into its consecutive 38-byte frames.
///
/// # Errors
///
/// [`Raw38LengthError`] if the length of `data` is not a multiple of 38.
pub fn raw38_frames(data: &[u8]) -> (r: Result<Vec<&[u8]>, Raw38LengthError>)
    ensures
        match r {
            Ok(frames) => {
                &&& data@.len() % 38 == 0
                &&& frames@.len() == data@.len() / 38
                &&& forall|i: int|
                    0 <= i < frames@.len() ==> (#[trigger] frames@[i])@ == data@.subrange(
                        38 * i,
                        38 * i + 38,
                    )
            },
            Err(e) => data@.len() % 38 != 0 && e.len == data@.len(),
        },
{
    if data.len() % RAW38_FRAME_LEN != 0 {
        return Err(Raw38LengthError { len: data.len() });
    }
    let n: usize = data.len() / RAW38_FRAME_LEN;
    let mut frames: Vec<&[u8]> = Vec::new();
    let mut i: usize = 0;
    assert(38 * n == data@.len());
    while i < n
        invariant
            n == data@.len() / 38,
            38 * n == data@.len(),
            data@.len() <= usize::MAX,
            data@.len() % 38 == 0,
            i <= n,
            frames@.len() == i,
            forall|j: int|
                0 <= j < i ==> (#[trigger] frames@[j])@ == data@.subrange(38 * j, 38 * j + 38),
        decreases n - i,
    {
        let start: usize = i * RAW38_FRAME_LEN;
        frames.push(vstd::slice::slice_subrange(data, start, start + RAW38_FRAME_LEN));
        i = i + 1;
    }
    Ok(frames)
}

/// The samples of all chunks, one after the other.
pub open spec fn concat_samples(chunks: Seq<Seq<i16>>) -> Seq<i16>
    decreases chunks.len(),
{
    if chunks.len() == 0 {
        Seq::empty()
    } else {
        concat_samples(chunks.drop_last()) + chunks.last()
    }
}

/// The samples of each chunk as a sequence.
pub open spec fn chunks_model(chunks: Seq<Vec<i16>>) -> Seq<Seq<i16>> {
    chunks.map_values(|c: Vec<i16>| c@)
}

/// Joins the samples decoded from consecutive frames into one stream.
pub fn join_samples(chunks: &[Vec<i16>]) -> (out: Vec<i16>)
    ensures
        out@ == concat_samples(chunks_model(chunks@)),
{
    let mut out: Vec<i16> = Vec::new();
    let mut i: usize = 0;
    while i < chunks.len()
        invariant
            i <= chunks@.len(),
            out@ == concat_samples(chunks_model(chunks@).take(i as int)),
        decreases chunks@.len() - i,
    {
        let chunk = &chunks[i];
        let ghost before = out@;
        let mut j: usize = 0;
        while j < chunk.len()
            invariant
                j <= chunk@.len(),
                out@ == before + chunk@.take(j as int),
            decreases chunk@.len() - j,
        {
            out.push(chunk[j]);
            assert(chunk@.take(j + 1) =~= chunk@.take(j as int).push(chunk@[j as int]));
            j = j + 1;
        }
        assert(chunk@.take(chunk@.len() as int) =~= chunk@);
        assert(chunks_model(chunks@).take(i + 1).drop_last() =~= chunks_model(chunks@).take(i as int));
        i = i + 1;
    }
    assert(chunks_model(chunks@).take(chunks@.len() as int) =~= chunks_model(chunks@));
    out
}

/// Joining is concatenation: the chunks `cs` followed by the chunks `ds`
/// join to the join of `cs` followed by the join of `ds`, however many
/// chunks there are.
pub proof fn lemma_concat_samples_append(cs: Seq<Seq<i16>>, ds: Seq<Seq<i16>>)
    ensures
        concat_samples(cs + ds) == concat_samples(cs) + concat_samples(ds),
    decreases ds.len(),
{
    if ds.len() == 0 {
        assert(cs + ds =~= cs);
        assert(concat_samples(cs) + Seq::<i16>::empty() =~= concat_samples(cs));
    } else {
        lemma_concat_samples_append(cs, ds.drop_last());
        assert((cs + ds).drop_last() =~= cs + ds.drop_last());
        assert((cs + ds).last() == ds.last());
        assert(concat_samples(cs) + concat_samples(ds.drop_last()) + ds.last() =~= concat_samples(cs)
            + (concat_samples(ds.drop_last()) + ds.last()));
    }
}

/// No chunks join to no samples, and a single chunk joins to its own
/// samples.
pub proof fn lemma_concat_samples_single(c: Seq<i16>)
    ensures
        concat_samples(Seq::empty()) == Seq::<i16>::empty(),
        concat_samples(seq![c]) == c,
{
    assert(seq![c].drop_last() =~= Seq::<Seq<i16>>::empty());
    assert(Seq::<i16>::empty() + c =~= c);
}

} // verus!
