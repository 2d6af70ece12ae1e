use tokio_netstring_trait::frame::{BodyMode, FrameError};
use tokio_netstring_trait::memory::{ChunkedSink, ChunkedSource};

fn cut_everywhere(msg: &[u8]) -> Vec<Vec<Vec<u8>>> {
    let mut ways = vec![vec![msg.to_vec()], msg.iter().map(|b| vec![*b]).collect()];
    for cut in 0..=msg.len() {
        ways.push(vec![msg[..cut].to_vec(), vec![], msg[cut..].to_vec()]);
    }
    ways
}

#[test]
fn read_frame_same_result_for_every_cut() {
    for mode in [BodyMode::Bounded(13), BodyMode::Allocating, BodyMode::Discarding] {
        let expected = match mode {
            BodyMode::Discarding => Ok(vec![]),
            _ => Ok(b"Hello, World!".to_vec()),
        };
        for chunks in cut_everywhere(b"13:Hello, World!,") {
            let mut source = ChunkedSource::new(chunks);
            assert_eq!(source.read_frame(mode), expected);
        }
    }
}

#[test]
fn read_frame_errors_for_every_cut() {
    let cases: Vec<(&[u8], FrameError)> = vec![
        (b"5;hello,", FrameError::MalformedSeparator(b';')),
        (b"5:helloX", FrameError::MalformedTerminator(b'X')),
        (b"5:hel", FrameError::UnexpectedEof),
        (b"99999999999999999999:x,", FrameError::IntegerOverflow),
    ];
    for (msg, err) in cases {
        for mode in [BodyMode::Bounded(64), BodyMode::Allocating, BodyMode::Discarding] {
            for chunks in cut_everywhere(msg) {
                let mut source = ChunkedSource::new(chunks);
                assert_eq!(source.read_frame(mode), Err(err));
            }
        }
    }
}

#[test]
fn read_frame_stops_at_frame_end() {
    let mut source = ChunkedSource::new(vec![b"1:a,".to_vec(), b"2:bc,".to_vec()]);
    assert_eq!(source.read_frame(BodyMode::Allocating), Ok(b"a".to_vec()));
    assert_eq!(source.read_frame(BodyMode::Allocating), Ok(b"bc".to_vec()));
    assert_eq!(source.read_frame(BodyMode::Allocating), Err(FrameError::UnexpectedEof));
}

#[test]
fn read_frame_zero_length_in_all_modes() {
    for mode in [BodyMode::Bounded(0), BodyMode::Allocating, BodyMode::Discarding] {
        let mut source = ChunkedSource::new(vec![b"0:,".to_vec()]);
        assert_eq!(source.read_frame(mode), Ok(vec![]));
    }
}

#[test]
fn read_frame_bounded_too_small() {
    let mut source = ChunkedSource::new(vec![b"5:hello,".to_vec()]);
    assert_eq!(source.read_frame(BodyMode::Bounded(4)), Err(FrameError::BufferTooSmall));
}

#[test]
fn write_frame_with_one_byte_writes() {
    let mut sink = ChunkedSink::new(vec![1; 17]);
    assert_eq!(sink.write_frame(b"Hello, World!"), Ok(()));
    assert_eq!(sink.contents(), b"13:Hello, World!,".to_vec());
    assert_eq!(sink.flush_count(), 1);
}

#[test]
fn write_frame_with_uneven_writes() {
    let mut sink = ChunkedSink::new(vec![8, 3, 100]);
    assert_eq!(sink.write_frame(b"Hello, World!"), Ok(()));
    assert_eq!(sink.contents(), b"13:Hello, World!,".to_vec());
}

#[test]
fn write_frame_rejected_when_limits_run_out() {
    let mut sink = ChunkedSink::new(vec![1; 16]);
    assert_eq!(sink.write_frame(b"Hello, World!"), Err(FrameError::WriteRejected));
    assert_eq!(sink.contents(), b"13:Hello, World!".to_vec());
    assert_eq!(sink.flush_count(), 0);
}

#[test]
fn write_frame_rejected_on_zero_write() {
    let mut sink = ChunkedSink::new(vec![2, 0, 100]);
    assert_eq!(sink.write_frame(b"abc"), Err(FrameError::WriteRejected));
    assert_eq!(sink.contents(), b"3:".to_vec());
}

#[test]
fn write_frame_zero_length_payload() {
    let mut sink = ChunkedSink::new(vec![1, 1, 1]);
    assert_eq!(sink.write_frame(b""), Ok(()));
    assert_eq!(sink.contents(), b"0:,".to_vec());
}

#[test]
fn written_frame_reads_back() {
    let mut sink = ChunkedSink::new(vec![5; 100]);
    let payload: Vec<u8> = (0..=255u8).collect();
    sink.write_frame(&payload).unwrap();
    let mut source = ChunkedSource::new(vec![sink.contents()]);
    assert_eq!(source.read_frame(BodyMode::Allocating), Ok(payload));
}
