use peer_cluster::chunk::{encode_chunk, Chunk, MAX_PAYLOAD};
use peer_cluster::coordinator::{CoordinatorAction, TransferCoordinator};
use peer_cluster::gallery::{add_image, delete_image, strip_extent, strip_offset, ImageData};

fn chunk_of(action: CoordinatorAction) -> Vec<u8> {
    match action {
        CoordinatorAction::SendChunk(frame) => frame,
        other => panic!("expected a chunk, got {:?}", other),
    }
}

#[test]
fn receive_transform_send_back() {
    let mut leader = TransferCoordinator::new(Some(3));
    let first = encode_chunk(&Chunk { sequence: 0, data: vec![1, 2] });
    let second = encode_chunk(&Chunk { sequence: 1, data: vec![3] });
    assert!(matches!(leader.on_datagram(&first), CoordinatorAction::SendAck));
    assert!(matches!(leader.on_datagram(&first), CoordinatorAction::SendAck));
    assert!(matches!(leader.on_datagram(&[9]), CoordinatorAction::Nothing));
    assert!(matches!(leader.on_timeout(), CoordinatorAction::Nothing));
    assert!(matches!(leader.on_datagram(&second), CoordinatorAction::SendAck));
    let payload = match leader.on_datagram(b"END") {
        CoordinatorAction::Transform(payload) => payload,
        other => panic!("expected the payload, got {:?}", other),
    };
    assert_eq!(payload, vec![1, 2, 3]);
    assert!(matches!(leader.on_datagram(&first), CoordinatorAction::Nothing));

    let result: Vec<u8> = (0..MAX_PAYLOAD + 2).map(|i| (i % 200) as u8).collect();
    let frame = chunk_of(leader.on_transformed(result.clone()));
    assert_eq!(&frame[..4], &[0, 0, 0, 0]);
    assert_eq!(&frame[4..], &result[..MAX_PAYLOAD]);
    assert_eq!(chunk_of(leader.on_timeout()), frame);
    assert!(matches!(leader.on_datagram(b"NAK"), CoordinatorAction::Nothing));
    let last = chunk_of(leader.on_datagram(b"ACK"));
    assert_eq!(last, vec![0, 0, 0, 1, result[MAX_PAYLOAD], result[MAX_PAYLOAD + 1]]);
    assert!(!leader.is_done());
    assert!(matches!(leader.on_datagram(b"ACK"), CoordinatorAction::SendEnd));
    assert!(leader.is_done());
    assert!(!leader.has_failed());
    assert!(matches!(leader.on_datagram(b"ACK"), CoordinatorAction::Nothing));
    assert!(matches!(leader.on_transformed(vec![1]), CoordinatorAction::Nothing));
}

#[test]
fn the_transfer_fails_after_the_allowed_attempts() {
    let mut leader = TransferCoordinator::new(Some(2));
    assert!(matches!(leader.on_datagram(b"END"), CoordinatorAction::Transform(p) if p.is_empty()));
    chunk_of(leader.on_transformed(vec![7]));
    chunk_of(leader.on_timeout());
    assert!(matches!(leader.on_timeout(), CoordinatorAction::Abort));
    assert!(leader.has_failed());
    assert!(matches!(leader.on_datagram(b"ACK"), CoordinatorAction::Nothing));
}

#[test]
fn an_empty_result_ends_at_once() {
    let mut leader = TransferCoordinator::new(None);
    leader.on_datagram(b"END");
    assert!(matches!(leader.on_transformed(Vec::new()), CoordinatorAction::SendEnd));
    assert!(leader.is_done());
}

fn image(id: u32, owner: &str) -> ImageData {
    ImageData { id, owner: owner.to_string(), path: format!("/tmp/{}.jpg", id), width: 100, height: 100 }
}

#[test]
fn deleting_an_image_keeps_the_others_in_order() {
    let mut images: Vec<ImageData> = Vec::new();
    add_image(&mut images, image(1, "client1"));
    add_image(&mut images, image(2, "client2"));
    add_image(&mut images, image(3, "client3"));
    add_image(&mut images, image(2, "client4"));
    delete_image(&mut images, 2);
    let left: Vec<(u32, &str)> = images.iter().map(|i| (i.id, i.owner.as_str())).collect();
    assert_eq!(left, vec![(1, "client1"), (3, "client3")]);
    delete_image(&mut images, 9);
    assert_eq!(images.len(), 2);
    delete_image(&mut images, 1);
    delete_image(&mut images, 3);
    assert!(images.is_empty());
    delete_image(&mut images, 3);
    assert!(images.is_empty());
}

#[test]
fn the_strip_is_as_wide_as_all_and_as_high_as_the_highest() {
    let mut images: Vec<ImageData> = Vec::new();
    assert_eq!(strip_extent(&images), Some((0, 0)));
    for (id, width, height) in [(1u32, 100u32, 80u32), (2, 640, 480), (3, 30, 500)] {
        images.push(ImageData {
            id,
            owner: "o".to_string(),
            path: "p".to_string(),
            width,
            height,
        });
    }
    assert_eq!(strip_extent(&images), Some((770, 500)));
    assert_eq!(strip_offset(&images, 0), Some(0));
    assert_eq!(strip_offset(&images, 1), Some(100));
    assert_eq!(strip_offset(&images, 2), Some(740));
    assert_eq!(strip_offset(&images, 3), Some(770));
    images.push(ImageData {
        id: 4,
        owner: "o".to_string(),
        path: "p".to_string(),
        width: u32::MAX - 769,
        height: 1,
    });
    assert_eq!(strip_extent(&images), None);
    assert_eq!(strip_offset(&images, 3), Some(770));
    assert_eq!(strip_offset(&images, 4), None);
    images[3].width = u32::MAX - 770;
    assert_eq!(strip_extent(&images), Some((u32::MAX, 500)));
}
