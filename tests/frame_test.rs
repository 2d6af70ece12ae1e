use tokio_netstring_trait::decoder::{FrameDecoder, Progress};
use tokio_netstring_trait::encoder::FrameWriter;
use tokio_netstring_trait::frame::{decimal_digits, encode_frame, parse_length, FrameError};
use tokio_netstring_trait::memory::{ChunkedSink, ChunkedSource};
use tokio_netstring_trait::stream::{AsyncNetstringRead, AsyncNetstringWrite, FramePoll};

fn read(chunks: Vec<Vec<u8>>, mut decoder: FrameDecoder) -> Result<Vec<u8>, FrameError> {
    let mut source = ChunkedSource::new(chunks);
    loop {
        if let FramePoll::Ready(r) = source.poll_netstring(&mut decoder) {
            return r;
        }
    }
}

fn all_modes() -> Vec<(FrameDecoder, bool)> {
    vec![
        (FrameDecoder::bounded(64), true),
        (FrameDecoder::allocating(), true),
        (FrameDecoder::discarding(), false),
    ]
}

#[test]
fn encode_gives_length_colon_payload_comma() {
    assert_eq!(encode_frame(b"Hello, World!"), b"13:Hello, World!,".to_vec());
    assert_eq!(encode_frame(b""), b"0:,".to_vec());
    assert_eq!(encode_frame(&[0u8, 255, b',']), b"3:\x00\xff,,".to_vec());
}

#[test]
fn decimal_digits_of_lengths() {
    assert_eq!(decimal_digits(0), b"0".to_vec());
    assert_eq!(decimal_digits(7), b"7".to_vec());
    assert_eq!(decimal_digits(10), b"10".to_vec());
    assert_eq!(decimal_digits(4096), b"4096".to_vec());
}

#[test]
fn parse_length_values_and_overflow() {
    assert_eq!(parse_length(b""), Some(0));
    assert_eq!(parse_length(b"13"), Some(13));
    assert_eq!(parse_length(b"007"), Some(7));
    assert_eq!(parse_length(usize::MAX.to_string().as_bytes()), Some(usize::MAX));
    assert_eq!(parse_length(b"99999999999999999999"), None);
}

#[test]
fn round_trip_through_every_keeping_reader() {
    let payloads: Vec<Vec<u8>> = vec![vec![], b"x".to_vec(), b"Hello, World!".to_vec(), (0..=255u8).collect()];
    for p in payloads {
        let frame = encode_frame(&p);
        assert_eq!(read(vec![frame.clone()], FrameDecoder::allocating()), Ok(p.clone()));
        assert_eq!(read(vec![frame.clone()], FrameDecoder::bounded(p.len())), Ok(p.clone()));
        assert_eq!(read(vec![frame], FrameDecoder::discarding()), Ok(vec![]));
    }
}

#[test]
fn chunking_does_not_change_result() {
    let frame = b"13:Hello, World!,".to_vec();
    let whole = read(vec![frame.clone()], FrameDecoder::allocating());
    for cut in 0..=frame.len() {
        let chunks = vec![frame[..cut].to_vec(), frame[cut..].to_vec()];
        assert_eq!(read(chunks, FrameDecoder::allocating()), whole);
    }
    let single: Vec<Vec<u8>> = frame.iter().map(|b| vec![*b]).collect();
    assert_eq!(read(single, FrameDecoder::allocating()), whole);
    let bad = b"5:helloX".to_vec();
    let single_bad: Vec<Vec<u8>> = bad.iter().map(|b| vec![*b]).collect();
    assert_eq!(read(vec![bad], FrameDecoder::allocating()), read(single_bad, FrameDecoder::allocating()));
}

#[test]
fn zero_length_frame_in_all_modes() {
    for (decoder, _) in all_modes() {
        assert_eq!(read(vec![b"0:,".to_vec()], decoder), Ok(vec![]));
    }
}

#[test]
fn empty_length_digits_mean_zero() {
    assert_eq!(read(vec![b":,".to_vec()], FrameDecoder::allocating()), Ok(vec![]));
}

#[test]
fn malformed_separator_is_reported_with_byte() {
    for (decoder, _) in all_modes() {
        assert_eq!(read(vec![b"5;hello,".to_vec()], decoder), Err(FrameError::MalformedSeparator(b';')));
    }
}

#[test]
fn malformed_terminator_is_reported_with_byte() {
    for (decoder, _) in all_modes() {
        assert_eq!(read(vec![b"5:helloX".to_vec()], decoder), Err(FrameError::MalformedTerminator(b'X')));
    }
}

#[test]
fn truncated_stream_is_unexpected_eof() {
    for (decoder, _) in all_modes() {
        assert_eq!(read(vec![b"5:hel".to_vec()], decoder), Err(FrameError::UnexpectedEof));
    }
    assert_eq!(read(vec![], FrameDecoder::allocating()), Err(FrameError::UnexpectedEof));
    assert_eq!(read(vec![b"12".to_vec()], FrameDecoder::allocating()), Err(FrameError::UnexpectedEof));
}

#[test]
fn oversized_length_overflows() {
    for (decoder, _) in all_modes() {
        assert_eq!(read(vec![b"99999999999999999999:x,".to_vec()], decoder), Err(FrameError::IntegerOverflow));
    }
    assert_eq!(
        read(vec![b"999999999999999999999999:x,".to_vec()], FrameDecoder::allocating()),
        Err(FrameError::IntegerOverflow)
    );
}

#[test]
fn twenty_digits_force_the_separator() {
    assert_eq!(
        read(vec![b"000000000000000000003:abc,".to_vec()], FrameDecoder::allocating()),
        Err(FrameError::MalformedSeparator(b'3'))
    );
    assert_eq!(
        read(vec![b"00000000000000000003:abc,".to_vec()], FrameDecoder::allocating()),
        Ok(b"abc".to_vec())
    );
}

#[test]
fn buffer_too_small_only_in_bounded_mode() {
    assert_eq!(read(vec![b"5:hello,".to_vec()], FrameDecoder::bounded(4)), Err(FrameError::BufferTooSmall));
    assert_eq!(read(vec![b"5:hello,".to_vec()], FrameDecoder::allocating()), Ok(b"hello".to_vec()));
    assert_eq!(read(vec![b"5:hello,".to_vec()], FrameDecoder::discarding()), Ok(vec![]));
}

#[test]
fn decoder_feed_directly() {
    let mut d = FrameDecoder::allocating();
    assert_eq!(d.wants(), 1);
    assert!(matches!(d.feed(b"2"), Progress::Pending));
    assert!(matches!(d.feed(b":"), Progress::Pending));
    assert_eq!(d.wants(), 2);
    assert!(matches!(d.feed(b"ab"), Progress::Pending));
    assert_eq!(d.wants(), 1);
    match d.feed(b",") {
        Progress::Complete(v) => assert_eq!(v, b"ab".to_vec()),
        other => panic!("unexpected {:?}", other),
    }
    assert!(d.finished());
}

#[test]
fn decoder_caps_body_pieces_at_scratch_size() {
    let mut d = FrameDecoder::discarding();
    for b in b"10000:" {
        assert!(matches!(d.feed(&[*b]), Progress::Pending));
    }
    assert_eq!(d.wants(), tokio_netstring_trait::decoder::SCRATCH_LEN);
}

#[test]
fn one_byte_sink_receives_whole_frame() {
    let data = b"partial writes";
    let expected = encode_frame(data);
    let mut sink = ChunkedSink::new(vec![1; expected.len()]);
    let mut writer = FrameWriter::new(data);
    let mut polls = 0;
    let r = loop {
        polls += 1;
        if let FramePoll::Ready(r) = sink.poll_write_netstring(&mut writer) {
            break r;
        }
    };
    assert_eq!(r, Ok(()));
    assert_eq!(polls, 1);
    assert_eq!(sink.contents(), expected);
    assert_eq!(sink.flush_count(), 1);
}
