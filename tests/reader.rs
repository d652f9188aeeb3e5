use frame_relay::codec::{encode, FRAME_SIZE};
use frame_relay::reader::{on_read, CloseReason, ReadOutcome, ReaderAction};

#[test]
fn would_block_retries() {
    assert!(matches!(on_read(ReadOutcome::WouldBlock), ReaderAction::Retry));
}

#[test]
fn failed_read_closes() {
    assert!(matches!(
        on_read(ReadOutcome::Failed),
        ReaderAction::Close(CloseReason::ReadFailure)
    ));
}

#[test]
fn short_read_closes() {
    let bytes = b"hello".to_vec();
    assert!(matches!(
        on_read(ReadOutcome::Data(bytes)),
        ReaderAction::Close(CloseReason::ReadFailure)
    ));
}

#[test]
fn full_frame_is_forwarded() {
    let frame = encode("hello").unwrap();
    match on_read(ReadOutcome::Data(frame)) {
        ReaderAction::Forward(s) => assert_eq!(s, "hello"),
        _ => panic!("expected the message to be forwarded"),
    }
}

#[test]
fn invalid_frame_closes() {
    let mut frame = vec![0u8; FRAME_SIZE];
    frame[0] = 0xC3;
    frame[1] = 0x28;
    assert!(matches!(
        on_read(ReadOutcome::Data(frame)),
        ReaderAction::Close(CloseReason::InvalidEncoding)
    ));
}
