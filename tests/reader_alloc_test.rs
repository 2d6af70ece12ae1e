use tokio_netstring_trait::decoder::FrameDecoder;
use tokio_netstring_trait::frame::FrameError;
use tokio_netstring_trait::memory::ChunkedSource;
use tokio_netstring_trait::stream::{copy_payload, AsyncNetstringRead, FramePoll};

fn read_alloc(chunks: Vec<Vec<u8>>) -> Result<Vec<u8>, FrameError> {
    let mut source = ChunkedSource::new(chunks);
    let mut decoder = FrameDecoder::allocating();
    loop {
        if let FramePoll::Ready(r) = source.poll_netstring(&mut decoder) {
            return r;
        }
    }
}

fn read_bounded(chunks: Vec<Vec<u8>>, buf: &mut [u8]) -> Result<usize, FrameError> {
    let mut source = ChunkedSource::new(chunks);
    let mut decoder = FrameDecoder::bounded(buf.len());
    loop {
        if let FramePoll::Ready(r) = source.poll_netstring(&mut decoder) {
            return r.map(|p| copy_payload(buf, &p));
        }
    }
}

#[test]
fn reader_alloc_test_should_parse_netstring() {
    let msg = "13:Hello, World!,";
    let expected = "Hello, World!";

    let res = read_alloc(vec![msg.as_bytes().to_vec()]).expect("Test should pass");

    assert_eq!(expected.as_bytes(), &res);
}

#[test]
fn reader_alloc_test_should_parse_netstring_in_two_steps() {
    let msg = "13:Hello, World!,";
    let expected = "Hello, World!";
    let split = 10;

    let chunks = vec![msg.as_bytes()[..split].to_vec(), msg.as_bytes()[split..].to_vec()];
    let res = read_alloc(chunks).expect("Test should pass");

    assert_eq!(expected.as_bytes(), &res);
}

#[test]
fn reader_alloc_test_should_parse_netstring_byte_by_byte() {
    let msg = "13:Hello, World!,";
    let expected = "Hello, World!";

    let chunks: Vec<Vec<u8>> = msg.as_bytes().iter().map(|b| vec![*b]).collect();
    let res = read_alloc(chunks).expect("Test should pass");

    assert_eq!(expected.as_bytes(), &res);
}

#[test]
fn reader_alloc_test_should_fail_on_incomplete_message() {
    let msg = "13:Hello, World!,";
    let split = 10;

    read_alloc(vec![msg.as_bytes()[..split].to_vec()]).expect_err("Message not finished");
}

#[test]
fn reader_alloc_test_should_fail_on_incomplete_message_missing_terminator() {
    let msg = "13:Hello, World!";
    let split = 10;
    let mut buf = [0; 13];

    read_bounded(vec![msg.as_bytes()[..split].to_vec()], &mut buf)
        .expect_err("Message not finished");
}

#[test]
fn alloc_read_returns_exact_length() {
    let res = read_alloc(vec![b"3:abc,".to_vec()]).unwrap();
    assert_eq!(res, b"abc".to_vec());
    assert_eq!(res.len(), 3);
}
