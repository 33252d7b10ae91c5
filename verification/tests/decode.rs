use tamcodec::container::parse_container;
use tamcodec::container::Frame;
use tamcodec::decode::assemble_frames;
use tamcodec::decode::audio_payloads;
use tamcodec::decode::choose_codec;
use tamcodec::decode::count_failed;
use tamcodec::decode::decode_frames_g722;
use tamcodec::decode::detect_codec;
use tamcodec::decode::plan_decode;
use tamcodec::decode::probe_payloads;
use tamcodec::decode::CodecDetectError;
use tamcodec::decode::DecodePlan;
use tamcodec::decode_raw38;
use tamcodec::g722::decode_payload;
use tamcodec::g722::probe_failures;
use tamcodec::g722::G722Stream;
use tamcodec::speex::join_samples;
use tamcodec::speex::raw38_frames;
use tamcodec::speex::speex_frame_size;
use tamcodec::speex::speex_max_decode_samples;
use tamcodec::speex::speex_frame_request;
use tamcodec::speex::speex_frame_result;
use tamcodec::speex::SpeexFrameError;
use tamcodec::speex::Raw38LengthError;
use tamcodec::Codec;
use tamcodec::CodecArg;
use tamcodec::DecodeResult;

#[test]
fn assemble_pads_silence_and_failures() {
    let frames = vec![
        Frame::Audio(vec![1]),
        Frame::Silence,
        Frame::Audio(vec![2]),
        Frame::End,
        Frame::Audio(vec![3]),
    ];
    let decoded = vec![Some(vec![5i16, 6, 7]), None];
    let r = assemble_frames(8000, &frames, &decoded);
    assert_eq!(r.sample_rate, 8000);
    assert_eq!(r.audio_frames, 2);
    assert_eq!(r.silence_frames, 1);
    let mut expected = vec![5i16, 6, 7];
    expected.extend(std::iter::repeat(0i16).take(320));
    assert_eq!(r.samples, expected);
}

#[test]
fn full_blocks_give_160_samples_per_frame() {
    let frames = vec![Frame::Audio(vec![1]), Frame::Silence, Frame::Audio(vec![2])];
    let decoded = vec![Some(vec![1i16; 160]), Some(vec![2i16; 160])];
    let r = assemble_frames(16000, &frames, &decoded);
    assert_eq!(r.samples.len(), 160 * (r.audio_frames + r.silence_frames));
}

#[test]
fn payloads_before_end() {
    let frames = vec![
        Frame::Silence,
        Frame::Audio(vec![1, 2]),
        Frame::Audio(vec![]),
        Frame::End,
        Frame::Audio(vec![3]),
    ];
    let p = audio_payloads(&frames);
    assert_eq!(p, vec![&[1u8, 2][..], &[][..]]);
}

#[test]
fn probes_first_64_nonempty_payloads() {
    let mut frames = vec![Frame::Audio(vec![]), Frame::Silence];
    for i in 0..70u8 {
        frames.push(Frame::Audio(vec![i]));
    }
    let p = probe_payloads(&frames);
    assert_eq!(p.len(), 64);
    assert_eq!(p[0], &[0u8][..]);
    assert_eq!(p[63], &[63u8][..]);
    let few = vec![Frame::Audio(vec![]), Frame::Audio(vec![4]), Frame::End];
    assert_eq!(probe_payloads(&few), vec![&[4u8][..]]);
}

#[test]
fn codec_choice() {
    assert_eq!(choose_codec(0, 0), Err(CodecDetectError::Ambiguous));
    assert_eq!(choose_codec(3, 0), Ok(Codec::G722));
    assert_eq!(choose_codec(0, 2), Ok(Codec::SpeexNb));
    assert_eq!(
        choose_codec(3, 2),
        Err(CodecDetectError::Failed { speex_failed: 3, g722_failed: 2 })
    );
}

#[test]
fn codec_detection_messages() {
    assert_eq!(
        CodecDetectError::Ambiguous.to_string(),
        "codec detection ambiguous (both codecs decoded every frame); specify it with --codec"
    );
    assert_eq!(
        CodecDetectError::Failed { speex_failed: 12, g722_failed: 7 }.to_string(),
        "codec detection failed (both codecs dropped 12 and 7 frames); specify the codec with --codec"
    );
}

#[test]
fn g722_decodes_two_samples_per_byte() {
    let mut dec = G722Stream::new();
    let out = decode_payload(&mut dec, &[0x12u8; 80]).unwrap();
    assert_eq!(out.len(), 160);
}

#[test]
fn g722_probe_counts_no_failures() {
    let a = [1u8; 80];
    let b = [2u8; 10];
    assert_eq!(probe_failures(&[&a[..], &b[..]]), 0);
    assert_eq!(detect_codec(&[&a[..], &b[..]], 5), Ok(Codec::G722));
    assert_eq!(detect_codec(&[&a[..]], 0), Err(CodecDetectError::Ambiguous));
}

#[test]
fn g722_frames_decode() {
    let data = [0x50u8]
        .iter()
        .copied()
        .chain(std::iter::repeat(0x33).take(80))
        .chain([0xFB, 0x00, 0x02, 1, 2, 0x00])
        .collect::<Vec<u8>>();
    let frames = parse_container(&data).unwrap();
    let r = decode_frames_g722(&frames);
    assert_eq!(r.sample_rate, 16000);
    assert_eq!(r.audio_frames, 2);
    assert_eq!(r.silence_frames, 1);
    assert_eq!(r.samples.len(), 160 + 160 + 4);
    assert!(r.samples[160..320].iter().all(|&s| s == 0));
}

#[test]
fn failures_are_counted() {
    assert_eq!(count_failed(&[None, Some(vec![1i16]), None]), 2);
    assert_eq!(count_failed(&[]), 0);
}

#[test]
fn plan_follows_codec_and_stream_kind() {
    let container = [0x01u8, 9, 0x00];
    assert!(matches!(plan_decode(&container, Some(Codec::Raw38)), Ok(DecodePlan::Raw38)));
    match plan_decode(&container, None) {
        Ok(DecodePlan::Container { frames, codec }) => {
            assert_eq!(frames, vec![Frame::Audio(vec![9]), Frame::End]);
            assert_eq!(codec, None);
        }
        _ => panic!(),
    }
    match plan_decode(&container, Some(Codec::G722)) {
        Ok(DecodePlan::Container { codec, .. }) => assert_eq!(codec, Some(Codec::G722)),
        _ => panic!(),
    }
    let raw = [0x26u8; 76];
    assert!(matches!(plan_decode(&raw, None), Ok(DecodePlan::Raw38)));
    match plan_decode(&[0xFF, 0x09, 0x00, 1], None) {
        Err(e) => {
            assert_eq!(e.offset, 3);
            assert_eq!(e.reason, "extended frame of 9 bytes overruns input");
        }
        _ => panic!(),
    }
}

#[test]
fn raw38_result_counts_frames() {
    let r = decode_raw38(8000, vec![1i16; 330]);
    assert_eq!(r.sample_rate, 8000);
    assert_eq!(r.samples.len(), 330);
    assert_eq!(r.audio_frames, 2);
    assert_eq!(r.silence_frames, 0);
}

#[test]
fn raw38_framing() {
    let data: Vec<u8> = (0..76u8).collect();
    let frames = raw38_frames(&data).unwrap();
    assert_eq!(frames.len(), 2);
    assert_eq!(frames[0], &data[..38]);
    assert_eq!(frames[1], &data[38..]);
    assert_eq!(raw38_frames(&[]).unwrap().len(), 0);
    assert_eq!(raw38_frames(&data[..40]), Err(Raw38LengthError { len: 40 }));
}

#[test]
fn samples_are_joined_in_order() {
    let joined = join_samples(&[vec![1i16, 2], vec![], vec![3]]);
    assert_eq!(joined, vec![1, 2, 3]);
}

#[test]
fn speex_sizes() {
    assert_eq!(speex_frame_size(0), 160);
    assert_eq!(speex_frame_size(-4), 160);
    assert_eq!(speex_frame_size(320), 320);
    assert_eq!(speex_max_decode_samples(38, 160), Some(160));
    assert_eq!(speex_max_decode_samples(39, 160), Some(320));
    assert_eq!(speex_max_decode_samples(0, 160), Some(0));
    assert_eq!(speex_max_decode_samples(usize::MAX, 160), None);
}

#[test]
fn total_duration_of_samples() {
    let r = DecodeResult { sample_rate: 16000, samples: vec![0; 24000], audio_frames: 0, silence_frames: 0 };
    assert_eq!(r.total_duration(), std::time::Duration::from_millis(1500));
    let r = DecodeResult { sample_rate: 8000, samples: vec![0; 3], audio_frames: 0, silence_frames: 0 };
    assert_eq!(r.total_duration().as_micros(), 375);
}

#[test]
fn codec_argument() {
    assert_eq!(CodecArg::default().option(), None);
    assert_eq!(CodecArg::Auto.option(), None);
    assert_eq!(CodecArg::Speex.option(), Some(Codec::SpeexNb));
    assert_eq!(CodecArg::G722.option(), Some(Codec::G722));
    assert_eq!(CodecArg::Raw38.option(), Some(Codec::Raw38));
}

#[test]
fn speex_frame_checks() {
    assert_eq!(speex_frame_request(159, 160, 38), Err(SpeexFrameError::BufferTooSmall));
    assert_eq!(speex_frame_request(160, 160, 38), Ok(38));
    assert_eq!(
        speex_frame_request(160, 160, 0x8000_0000),
        Err(SpeexFrameError::InvalidInput)
    );
    assert_eq!(speex_frame_result(0, 160), Ok(160));
    assert_eq!(speex_frame_result(-2, 160), Err(SpeexFrameError::DecodeFailed));
}

#[test]
fn g722_stream_decodes_deterministically() {
    let mut a = G722Stream::new();
    let mut b = G722Stream::new();
    let p1 = [0x21u8, 0x7f, 0xc0];
    let p2 = [0x05u8; 6];
    let a1 = decode_payload(&mut a, &p1).unwrap();
    let b1 = decode_payload(&mut b, &p1).unwrap();
    assert_eq!(a1, b1);
    assert_eq!(decode_payload(&mut a, &p2), decode_payload(&mut b, &p2));
}

#[test]
fn g722_frames_match_payload_decoding() {
    let frames = vec![
        Frame::Audio(vec![0x40, 0x41]),
        Frame::Silence,
        Frame::Audio(vec![0x99]),
        Frame::End,
        Frame::Audio(vec![0x11]),
    ];
    let r = decode_frames_g722(&frames);
    let mut dec = G722Stream::new();
    let mut expected = decode_payload(&mut dec, &[0x40, 0x41]).unwrap();
    expected.extend(std::iter::repeat(0i16).take(160));
    expected.extend(decode_payload(&mut dec, &[0x99]).unwrap());
    assert_eq!(r.samples, expected);
    let cut = decode_frames_g722(&frames[..3]);
    assert_eq!(cut.samples, r.samples);
    assert_eq!(cut.audio_frames, r.audio_frames);
}
