use frame_relay::codec::{decode, encode, CodecError};
use frame_relay::relay::Relay;

fn clients_of(relay: &Relay<u32>) -> Vec<u32> {
    (0..relay.client_count()).map(|i| *relay.client(i)).collect()
}

#[test]
fn new_relay_is_empty() {
    let relay: Relay<u32> = Relay::new();
    assert_eq!(relay.client_count(), 0);
    assert_eq!(relay.pending_count(), 0);
}

#[test]
fn broadcast_reaches_every_client_once() {
    let mut relay = Relay::new();
    for id in 0..4u32 {
        relay.connect(id);
    }
    relay.submit(String::from("m"));
    let frame = relay.next_frame().unwrap().unwrap();
    assert_eq!(decode(&frame), Ok(String::from("m")));
    assert_eq!(clients_of(&relay), vec![0, 1, 2, 3]);
    relay.retain_delivered(&vec![true; 4]);
    assert_eq!(clients_of(&relay), vec![0, 1, 2, 3]);
    assert!(relay.next_frame().is_none());
}

#[test]
fn failed_client_is_pruned() {
    let mut relay = Relay::new();
    for id in [10u32, 11, 12] {
        relay.connect(id);
    }
    relay.submit(String::from("one"));
    relay.submit(String::from("two"));
    let _ = relay.next_frame().unwrap().unwrap();
    relay.retain_delivered(&vec![true, false, true]);
    assert_eq!(clients_of(&relay), vec![10, 12]);
    let _ = relay.next_frame().unwrap().unwrap();
    relay.retain_delivered(&vec![true, true]);
    assert_eq!(clients_of(&relay), vec![10, 12]);
}

#[test]
fn all_writes_failing_empties_the_set() {
    let mut relay = Relay::new();
    relay.connect(1u32);
    relay.connect(2u32);
    relay.retain_delivered(&vec![false, false]);
    assert_eq!(relay.client_count(), 0);
}

#[test]
fn messages_of_one_sender_keep_their_order() {
    let mut relay: Relay<u32> = Relay::new();
    relay.connect(1);
    relay.submit(String::from("m1"));
    relay.submit(String::from("other"));
    relay.submit(String::from("m2"));
    let a = relay.next_frame().unwrap().unwrap();
    let b = relay.next_frame().unwrap().unwrap();
    let c = relay.next_frame().unwrap().unwrap();
    assert_eq!(decode(&a), Ok(String::from("m1")));
    assert_eq!(decode(&b), Ok(String::from("other")));
    assert_eq!(decode(&c), Ok(String::from("m2")));
    assert!(relay.next_frame().is_none());
}

#[test]
fn one_message_per_dispatch() {
    let mut relay: Relay<u32> = Relay::new();
    relay.submit(String::from("x"));
    relay.submit(String::from("y"));
    assert_eq!(relay.pending_count(), 2);
    let _ = relay.next_frame();
    assert_eq!(relay.pending_count(), 1);
}

#[test]
fn oversized_message_is_reported_and_dropped() {
    let mut relay: Relay<u32> = Relay::new();
    relay.connect(7);
    relay.submit("z".repeat(40));
    relay.submit(String::from("ok"));
    assert_eq!(relay.next_frame(), Some(Err(CodecError::FrameTooLarge)));
    assert_eq!(relay.next_frame(), Some(Ok(encode("ok").unwrap())));
    assert_eq!(clients_of(&relay), vec![7]);
}

#[test]
fn hello_reaches_clients_connected_before_the_send_only() {
    let mut relay: Relay<char> = Relay::new();
    relay.connect('A');
    relay.connect('B');
    relay.submit(String::from("hello"));
    let frame = relay.next_frame().unwrap().unwrap();
    let mut expected = b"hello".to_vec();
    expected.extend(std::iter::repeat(0u8).take(27));
    assert_eq!(frame, expected);
    assert_eq!(decode(&frame), Ok(String::from("hello")));
    let recipients: Vec<char> = (0..relay.client_count()).map(|i| *relay.client(i)).collect();
    assert_eq!(recipients, vec!['A', 'B']);
    relay.retain_delivered(&vec![true, true]);
    relay.connect('C');
    assert!(relay.next_frame().is_none());
    assert_eq!(relay.client_count(), 3);
}
