use peer_cluster::chunk::{encode_chunk, Chunk, MAX_PAYLOAD};
use peer_cluster::reconcile::{request_datagram, GapSet, ReconcileAction, ReconcileReceiver};
use peer_cluster::sender::BulkSender;

fn stream(chunks: usize) -> (Vec<u8>, Vec<Vec<u8>>) {
    let data: Vec<u8> = (0..chunks * MAX_PAYLOAD - 17).map(|i| (i * 13 % 256) as u8).collect();
    let frames = data
        .chunks(MAX_PAYLOAD)
        .enumerate()
        .map(|(k, part)| encode_chunk(&Chunk { sequence: k as u32, data: part.to_vec() }))
        .collect();
    (data, frames)
}

#[test]
fn dropped_chunks_are_asked_for_and_the_stream_is_rebuilt() {
    let (data, frames) = stream(8);
    let dropped = [1usize, 2, 5];
    let mut receiver = ReconcileReceiver::new();
    for k in [7usize, 0, 3, 4, 6] {
        assert!(matches!(receiver.on_datagram(&frames[k]), ReconcileAction::Filed));
    }
    let gaps = match receiver.on_datagram(b"END") {
        ReconcileAction::Request(gaps) => gaps,
        other => panic!("expected a request, got {:?}", other),
    };
    assert_eq!(gaps, vec![1, 2, 5]);
    assert_eq!(gaps.len(), dropped.len());
    assert!(matches!(receiver.on_datagram(&frames[5]), ReconcileAction::Filed));
    assert!(matches!(receiver.on_datagram(&frames[1]), ReconcileAction::Filed));
    match receiver.on_datagram(&frames[2]) {
        ReconcileAction::Deliver(bytes) => assert_eq!(bytes, data),
        other => panic!("expected the stream, got {:?}", other),
    }
    assert!(matches!(receiver.on_datagram(&frames[2]), ReconcileAction::Ignore));
}

#[test]
fn nothing_dropped_nothing_asked() {
    let (data, frames) = stream(3);
    let mut receiver = ReconcileReceiver::new();
    for frame in &frames {
        assert!(matches!(receiver.on_datagram(frame), ReconcileAction::Filed));
    }
    match receiver.on_datagram(b"END") {
        ReconcileAction::Deliver(bytes) => assert_eq!(bytes, data),
        other => panic!("expected the stream, got {:?}", other),
    }
}

#[test]
fn the_marker_again_asks_again() {
    let (_, frames) = stream(3);
    let mut receiver = ReconcileReceiver::new();
    receiver.on_datagram(&frames[2]);
    assert!(matches!(receiver.on_datagram(b"END"), ReconcileAction::Request(g) if g == vec![0, 1]));
    receiver.on_datagram(&frames[0]);
    assert!(matches!(receiver.on_datagram(b"END"), ReconcileAction::Request(g) if g == vec![1]));
}

#[test]
fn a_filled_number_stays_as_it_is() {
    let mut store = GapSet::new();
    assert!(store.insert(0, vec![1, 1]));
    assert!(!store.insert(0, vec![2, 2]));
    assert!(store.insert(2, vec![3]));
    assert!(!store.insert(2, vec![]));
    assert_eq!(store.span(), 3);
    assert!(store.contains(0));
    assert!(!store.contains(1));
    assert!(store.contains(2));
    assert!(!store.contains(3));
    assert_eq!(store.missing(), vec![1]);
    assert_eq!(store.assemble(), None);
    assert!(store.insert(1, vec![9]));
    assert_eq!(store.missing(), Vec::<u32>::new());
    assert_eq!(store.assemble(), Some(vec![1, 1, 9, 3]));
}

#[test]
fn an_empty_store() {
    let store = GapSet::new();
    assert_eq!(store.span(), 0);
    assert_eq!(store.missing(), Vec::<u32>::new());
    assert_eq!(store.assemble(), Some(Vec::new()));
    let mut receiver = ReconcileReceiver::new();
    assert!(matches!(receiver.on_datagram(b"END"), ReconcileAction::Deliver(b) if b.is_empty()));
}

#[test]
fn malformed_datagrams_are_ignored() {
    let mut receiver = ReconcileReceiver::new();
    assert!(matches!(receiver.on_datagram(&[1, 2, 3]), ReconcileAction::Ignore));
    assert!(matches!(receiver.on_datagram(&vec![0u8; MAX_PAYLOAD + 5]), ReconcileAction::Ignore));
    assert!(matches!(receiver.on_datagram(b"END"), ReconcileAction::Deliver(b) if b.is_empty()));
}

#[test]
fn a_request_is_the_sequence_number() {
    assert_eq!(request_datagram(0x0102_0304), vec![1, 2, 3, 4]);
    assert_eq!(request_datagram(0), vec![0, 0, 0, 0]);
}

#[test]
fn bulk_sender_and_receiver_together() {
    let data: Vec<u8> = (0..6 * MAX_PAYLOAD + 5).map(|i| (i * 31 % 256) as u8).collect();
    let sender = BulkSender::new(data.clone()).unwrap();
    assert_eq!(sender.total_chunks(), 7);
    assert_eq!(sender.frame(7), None);
    let mut receiver = ReconcileReceiver::new();
    for k in [6u64, 4, 0, 1] {
        receiver.on_datagram(&sender.frame(k).unwrap());
    }
    let gaps = match receiver.on_datagram(b"END") {
        ReconcileAction::Request(gaps) => gaps,
        other => panic!("expected a request, got {:?}", other),
    };
    assert_eq!(gaps, vec![2, 3, 5]);
    let mut delivered = None;
    for gap in gaps {
        let frame = sender.on_request(&request_datagram(gap)).unwrap();
        if let ReconcileAction::Deliver(bytes) = receiver.on_datagram(&frame) {
            delivered = Some(bytes);
        }
    }
    assert_eq!(delivered, Some(data));
    assert_eq!(sender.on_request(&[0, 0, 0, 7]), None);
    assert_eq!(sender.on_request(&[0, 0, 0]), None);
    assert_eq!(sender.on_request(&[0, 0, 0, 0, 0]), None);
}

#[test]
fn a_stray_high_number_takes_no_more_room_than_its_chunk() {
    let mut store = GapSet::new();
    assert!(store.insert(u32::MAX, vec![7]));
    assert_eq!(store.span(), 0x1_0000_0000);
    assert!(store.contains(u32::MAX));
    assert!(!store.contains(0));
    assert!(!store.contains(u32::MAX - 1));
    assert!(!store.insert(u32::MAX, vec![8]));
    assert!(store.insert(0, vec![1]));
    assert!(store.contains(0));
    assert_eq!(store.span(), 0x1_0000_0000);

    let mut receiver = ReconcileReceiver::new();
    let stray = encode_chunk(&Chunk { sequence: 4_000_000_000, data: vec![1, 2, 3] });
    assert!(matches!(receiver.on_datagram(&stray), ReconcileAction::Filed));
    assert!(matches!(receiver.on_datagram(&stray), ReconcileAction::Filed));
}
