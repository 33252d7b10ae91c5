use tamcodec::container::detect_stream_kind;
use tamcodec::container::is_container_stream;
use tamcodec::container::parse_container;
use tamcodec::container::Frame;
use tamcodec::container::StreamKind;

#[test]
fn silence_and_audio() {
    let data = [
        0x03, b'a', b'b', b'c', // audio frame, len 3
        0xFB, 0x12, // silence + ctrl
        0x02, b'd', b'e', // audio frame, len 2
        0x00, // end
    ];
    let frames = parse_container(&data).unwrap();
    assert_eq!(frames.len(), 4);
    match &frames[0] {
        Frame::Audio(p) => assert_eq!(p, b"abc"),
        _ => panic!(),
    }
    assert_eq!(frames[1], Frame::Silence);
    match &frames[2] {
        Frame::Audio(p) => assert_eq!(p, b"de"),
        _ => panic!(),
    }
    assert_eq!(frames[3], Frame::End);
}

#[test]
fn extended_length() {
    let data = [0xFF, 0x05, 0x00, 1, 2, 3, 4, 5, 0x00];
    let frames = parse_container(&data).unwrap();
    match &frames[0] {
        Frame::Audio(p) => assert_eq!(p, &[1, 2, 3, 4, 5]),
        _ => panic!(),
    }
}

#[test]
fn chain_detection() {
    let container = [0x03, 1, 2, 3, 0x05, 4, 5, 6, 7, 8, 0x00];
    assert_eq!(detect_stream_kind(&container), StreamKind::Container);
    // Raw 38-byte stream with a plausible header byte.
    let mut raw = vec![0u8; 38];
    raw[0] = 0x26;
    let mut raw2 = raw.clone();
    raw2.extend_from_slice(&raw);
    assert_eq!(detect_stream_kind(&raw2), StreamKind::Raw38);
}

#[test]
fn extended_length_is_little_endian() {
    let mut data = vec![0xFF, 0x00, 0x01];
    data.extend(std::iter::repeat(7u8).take(256));
    let frames = parse_container(&data).unwrap();
    assert_eq!(frames, vec![Frame::Audio(vec![7u8; 256])]);
}

#[test]
fn empty_extended_frame() {
    let frames = parse_container(&[0xFF, 0x00, 0x00, 0xFB, 0x00]).unwrap();
    assert_eq!(frames, vec![Frame::Audio(vec![]), Frame::Silence]);
}

#[test]
fn terminators_end_the_stream() {
    for t in [0x00u8, 0xFC, 0xFD, 0xFE] {
        let frames = parse_container(&[0x01, 9, t, 0x02, 1, 2]).unwrap();
        assert_eq!(frames, vec![Frame::Audio(vec![9]), Frame::End]);
    }
}

#[test]
fn empty_input_has_no_frames() {
    assert_eq!(parse_container(&[]).unwrap(), Vec::<Frame>::new());
}

#[test]
fn silence_at_the_very_end() {
    assert_eq!(parse_container(&[0xFB]).unwrap(), vec![Frame::Silence]);
}

#[test]
fn truncated_extended_length() {
    let e = parse_container(&[0x01, 5, 0xFF, 0x03]).unwrap_err();
    assert_eq!(e.offset, 2);
    assert_eq!(e.reason, "truncated extended length");
    assert_eq!(e.to_string(), "offset 2: truncated extended length");
}

#[test]
fn extended_frame_overrun() {
    let e = parse_container(&[0xFF, 0x10, 0x00, 1, 2]).unwrap_err();
    assert_eq!(e.offset, 3);
    assert_eq!(e.reason, "extended frame of 16 bytes overruns input");
    assert_eq!(e.to_string(), "offset 3: extended frame of 16 bytes overruns input");
}

#[test]
fn short_frame_overrun() {
    let e = parse_container(&[0xFB, 0x00, 0x26, 1, 2, 3]).unwrap_err();
    assert_eq!(e.offset, 2);
    assert_eq!(e.reason, "frame of 38 bytes overruns input");
}

#[test]
fn chain_must_reach_the_end_exactly() {
    assert!(is_container_stream(&[0x02, 1, 2, 0xFB, 0, 0x00], 0));
    assert!(is_container_stream(&[0x02, 1, 2, 0xFB, 0], 0));
    assert!(is_container_stream(&[], 0));
    // end marker before the last byte
    assert!(!is_container_stream(&[0x00, 0x00], 0));
    // silence jumping past the end
    assert!(!is_container_stream(&[0x01, 1, 0xFB], 0));
    // frame longer than the input
    assert!(!is_container_stream(&[0x05, 1, 2], 0));
    // truncated extended length
    assert!(!is_container_stream(&[0xFF, 0x01], 0));
    assert!(is_container_stream(&[0xFF, 0x02, 0x00, 1, 2], 0));
    // walking from an offset
    assert!(is_container_stream(&[0x99, 0x01, 7, 0xFE], 1));
    assert!(!is_container_stream(&[0x01, 2], 5));
}

#[test]
fn stream_kind_from_first_byte() {
    assert_eq!(detect_stream_kind(&[]), StreamKind::Raw38);
    assert_eq!(detect_stream_kind(&[0xFF]), StreamKind::Container);
    assert_eq!(detect_stream_kind(&[0xFB, 0x01, 0x02]), StreamKind::Container);
    assert_eq!(detect_stream_kind(&[0x00, 1, 2, 3]), StreamKind::Container);
    assert_eq!(detect_stream_kind(&[0xFD]), StreamKind::Container);
    assert_eq!(detect_stream_kind(&[0x05, 1, 2]), StreamKind::Raw38);
}

#[test]
fn whole_chain_always_parses() {
    let data = [0x02, 1, 2, 0xFF, 0x01, 0x00, 3, 0xFB, 0x00, 0xFC];
    assert!(is_container_stream(&data, 0));
    let frames = parse_container(&data).unwrap();
    assert_eq!(
        frames,
        vec![Frame::Audio(vec![1, 2]), Frame::Audio(vec![3]), Frame::Silence, Frame::End]
    );
}

#[test]
fn complete_prefix_then_more_frames() {
    let a = [0x01u8, 5, 0xFB, 0x00];
    let b = [0x02u8, 6, 7, 0xFD];
    assert!(is_container_stream(&a, 0));
    let fa = parse_container(&a).unwrap();
    let fb = parse_container(&b).unwrap();
    let joined = parse_container(&[a.as_slice(), b.as_slice()].concat()).unwrap();
    assert_eq!(joined, [fa, fb].concat());
}
