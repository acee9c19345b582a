use tcp_relay::frame::{decode_frame, encode_frame};
use tcp_relay::reader::{next_action, ReadOutcome, ReaderAction};
use tcp_relay::relay::Relay;

fn hello_frame() -> Vec<u8> {
    let mut f = b"hello".to_vec();
    f.resize(32, 0);
    f
}

#[test]
fn new_relay_is_empty() {
    let r = Relay::new();
    assert!(r.live().is_empty());
    assert_eq!(r.pending(), 0);
}

#[test]
fn register_hands_out_fresh_ids_in_order() {
    let mut r = Relay::new();
    assert_eq!(r.register(), Some(0));
    assert_eq!(r.register(), Some(1));
    assert_eq!(r.register(), Some(2));
    assert_eq!(r.live(), &[0, 1, 2]);
}

#[test]
fn no_broadcast_without_message() {
    let mut r = Relay::new();
    r.register();
    assert!(r.next_broadcast().is_none());
    assert_eq!(r.live(), &[0]);
}

#[test]
fn fan_out_reaches_every_live_connection() {
    let mut r = Relay::new();
    for _ in 0..4 {
        r.register();
    }
    r.enqueue("ping".to_string());
    let b = r.next_broadcast().unwrap();
    assert_eq!(b.targets, vec![0, 1, 2, 3]);
    assert_eq!(b.frame, encode_frame("ping"));
    assert_eq!(r.pending(), 0);
}

#[test]
fn one_message_per_cycle() {
    let mut r = Relay::new();
    r.register();
    r.enqueue("a".to_string());
    r.enqueue("b".to_string());
    assert_eq!(r.next_broadcast().unwrap().frame, encode_frame("a"));
    assert_eq!(r.pending(), 1);
}

#[test]
fn failed_write_prunes_connection_for_good() {
    let mut r = Relay::new();
    r.register();
    r.register();
    r.register();
    r.enqueue("m1".to_string());
    let b = r.next_broadcast().unwrap();
    assert_eq!(b.targets, vec![0, 1, 2]);
    r.prune(&[1]);
    assert_eq!(r.live(), &[0, 2]);
    assert_eq!(r.register(), Some(3));
    r.enqueue("m2".to_string());
    let b = r.next_broadcast().unwrap();
    assert_eq!(b.targets, vec![0, 2, 3]);
    assert_eq!(b.frame, encode_frame("m2"));
}

#[test]
fn prune_of_unknown_id_changes_nothing() {
    let mut r = Relay::new();
    r.register();
    r.register();
    r.prune(&[7, 9]);
    assert_eq!(r.live(), &[0, 1]);
    r.prune(&[]);
    assert_eq!(r.live(), &[0, 1]);
}

#[test]
fn broadcast_order_follows_arrival_order() {
    let mut r = Relay::new();
    r.register();
    r.register();
    r.enqueue("first".to_string());
    r.enqueue("second".to_string());
    assert_eq!(r.next_broadcast().unwrap().frame, encode_frame("first"));
    assert_eq!(r.next_broadcast().unwrap().frame, encode_frame("second"));
    assert!(r.next_broadcast().is_none());
}

#[test]
fn reader_forwards_decoded_frame() {
    assert_eq!(
        next_action(ReadOutcome::Frame(hello_frame())),
        ReaderAction::Forward("hello".to_string())
    );
}

#[test]
fn reader_waits_when_no_data() {
    assert_eq!(next_action(ReadOutcome::WouldBlock), ReaderAction::Idle);
}

#[test]
fn reader_closes_on_failure() {
    assert_eq!(next_action(ReadOutcome::Failed), ReaderAction::Close);
}

#[test]
fn reader_closes_on_malformed_frame() {
    let mut f = vec![0xc3u8, 0x28];
    f.resize(32, 0);
    assert_eq!(next_action(ReadOutcome::Frame(f)), ReaderAction::Close);
    assert_eq!(next_action(ReadOutcome::Frame(vec![b'h'; 5])), ReaderAction::Close);
}

#[test]
fn reader_closes_on_frame_without_zero_byte() {
    assert_eq!(next_action(ReadOutcome::Frame(vec![b'h'; 32])), ReaderAction::Close);
}

#[test]
fn hello_reaches_sender_and_other_client() {
    let mut r = Relay::new();
    let a = r.register().unwrap();
    let b = r.register().unwrap();
    let text = match next_action(ReadOutcome::Frame(hello_frame())) {
        ReaderAction::Forward(t) => t,
        other => panic!("unexpected {:?}", other),
    };
    assert_eq!(text, "hello");
    r.enqueue(text);
    let cycle = r.next_broadcast().unwrap();
    assert_eq!(cycle.targets, vec![a, b]);
    assert_eq!(cycle.frame.len(), 32);
    assert_eq!(&cycle.frame[..5], b"hello");
    assert!(cycle.frame[5..].iter().all(|&x| x == 0));
    assert_eq!(decode_frame(&cycle.frame), Ok("hello".to_string()));
}

#[test]
fn closed_client_gets_no_broadcast() {
    let mut r = Relay::new();
    let a = r.register().unwrap();
    let b = r.register().unwrap();
    assert_eq!(next_action(ReadOutcome::Failed), ReaderAction::Close);
    r.close(a);
    r.enqueue("from b".to_string());
    let cycle = r.next_broadcast().unwrap();
    assert_eq!(cycle.targets, vec![b]);
    assert_eq!(cycle.frame, encode_frame("from b"));
    assert_eq!(r.live(), &[b]);
}
