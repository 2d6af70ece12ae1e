use tokio_netstring_trait::decoder::FrameDecoder;
use tokio_netstring_trait::frame::FrameError;
use tokio_netstring_trait::memory::ChunkedSource;
use tokio_netstring_trait::stream::{AsyncNetstringRead, FramePoll};

fn drop_frame(source: &mut ChunkedSource) -> Result<(), FrameError> {
    let mut decoder = FrameDecoder::discarding();
    loop {
        if let FramePoll::Ready(r) = source.poll_netstring(&mut decoder) {
            return r.map(|payload| assert!(payload.is_empty()));
        }
    }
}

#[test]
fn should_drop_netstring() {
    let msg = "13:Hello, World!,";

    let mut test = ChunkedSource::new(vec![msg.as_bytes().to_vec()]);

    drop_frame(&mut test).expect("Test should pass");
}

#[test]
fn should_drop_netstring_in_two_steps() {
    let msg = "13:Hello, World!,";
    let split = 10;

    let mut test = ChunkedSource::new(vec![
        msg.as_bytes()[..split].to_vec(),
        msg.as_bytes()[split..].to_vec(),
    ]);

    drop_frame(&mut test).expect("Test should pass");
}

#[test]
fn should_drop_netstring_byte_by_byte() {
    let msg = "13:Hello, World!,";
    let chunks: Vec<Vec<u8>> = msg.as_bytes().iter().map(|b| vec![*b]).collect();

    let mut test = ChunkedSource::new(chunks);

    drop_frame(&mut test).expect("Test should pass");
}

#[test]
fn dropped_frame_leaves_stream_at_next_frame() {
    let mut source = ChunkedSource::new(vec![b"5:skip!,3:abc,".to_vec()]);
    drop_frame(&mut source).unwrap();
    let mut decoder = FrameDecoder::allocating();
    let r = loop {
        if let FramePoll::Ready(r) = source.poll_netstring(&mut decoder) {
            break r;
        }
    };
    assert_eq!(r, Ok(b"abc".to_vec()));
}

#[test]
fn dropping_large_frame_reads_it_in_scratch_pieces() {
    let mut msg = b"10000:".to_vec();
    msg.extend(std::iter::repeat(b'z').take(10000));
    msg.push(b',');
    let mut source = ChunkedSource::new(vec![msg]);
    drop_frame(&mut source).unwrap();
}
