use futures_tutorial::async_await::{poll_outcome, AsyncYield, GenFuture, Readiness, Resumed};
use futures_tutorial::blocks::BlockReader;

#[test]
fn gen_future_wraps_generator() {
    let _future = GenFuture::new(42u32);
    let _unit = AsyncYield;
}

#[test]
fn poll_answers_from_generator_state() {
    let yielded: Resumed<Result<u32, String>> = Resumed::Yielded(AsyncYield);
    assert!(matches!(poll_outcome(yielded), Ok(Readiness::NotReady)));
    let done: Resumed<Result<u32, String>> = Resumed::Complete(Ok(5));
    assert!(matches!(poll_outcome(done), Ok(Readiness::Ready(5))));
    let failed: Resumed<Result<u32, String>> = Resumed::Complete(Err("boom".to_string()));
    match poll_outcome(failed) {
        Err(e) => assert_eq!(e, "boom"),
        Ok(_) => panic!("error expected"),
    }
}

#[test]
fn block_reader_fills_up_to_block_size() {
    let mut reader = BlockReader::new(4);
    assert_eq!(reader.room(), 4);
    assert!(reader.fill(b"ab"));
    assert_eq!(reader.room(), 2);
    assert!(reader.fill(b"cd"));
    assert_eq!(reader.room(), 0);
    assert!(!reader.fill(b""));
    assert_eq!(reader.finish(), Some(b"abcd".to_vec()));
}

#[test]
fn block_reader_short_block_at_end_of_file() {
    let mut reader = BlockReader::new(8);
    assert!(reader.fill(b"xyz"));
    assert!(!reader.fill(b""));
    assert_eq!(reader.finish(), Some(b"xyz".to_vec()));
}

#[test]
fn block_reader_exhausted_file() {
    let mut reader = BlockReader::new(8);
    assert!(!reader.fill(b""));
    assert_eq!(reader.finish(), None);
    assert_eq!(BlockReader::new(8).finish(), None);
}
