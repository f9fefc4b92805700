use peer_cluster::election::{add_sample, ElectionAction, Elector};
use peer_cluster::fault::{skip_for_draw, skip_round};
use peer_cluster::ranking::{LoadSample, MAX_UTILIZATION};
use peer_cluster::wire::{election_trigger_datagram, classify_request, parse_leader_announcement, Request};

const A: &[u8] = b"127.0.0.1:8080";
const B: &[u8] = b"127.0.0.1:8081";
const C: &[u8] = b"127.0.0.1:8082";
const CLIENT: &[u8] = b"127.0.0.1:40000";

fn broadcast_of(action: ElectionAction) -> Vec<u8> {
    match action {
        ElectionAction::Broadcast(message) => message,
        other => panic!("expected a broadcast, got {:?}", other),
    }
}

#[test]
fn three_peers_least_loaded_leads() {
    assert_eq!(classify_request(&election_trigger_datagram()), Request::ElectionTrigger);
    let mut a = Elector::new(A.to_vec(), 2);
    let mut b = Elector::new(B.to_vec(), 2);
    let mut c = Elector::new(C.to_vec(), 2);
    let from_a = broadcast_of(a.begin_round(CLIENT.to_vec(), 40_000_000));
    let from_b = broadcast_of(b.begin_round(CLIENT.to_vec(), 10_000_000));
    let from_c = broadcast_of(c.begin_round(CLIENT.to_vec(), 70_000_000));
    assert_eq!(from_b, b"127.0.0.1:8081,10,0".to_vec());
    assert!(a.in_round() && b.in_round() && c.in_round());

    assert!(matches!(a.on_datagram(&from_b), ElectionAction::Wait));
    assert!(matches!(a.on_datagram(&from_c), ElectionAction::StandDown));
    assert!(matches!(c.on_datagram(&from_a), ElectionAction::Wait));
    assert!(matches!(c.on_datagram(&from_b), ElectionAction::StandDown));
    assert!(matches!(b.on_datagram(&from_c), ElectionAction::Wait));
    let announced = match b.on_datagram(&from_a) {
        ElectionAction::Announce { to, message } => {
            assert_eq!(to, CLIENT.to_vec());
            message
        },
        other => panic!("expected an announcement, got {:?}", other),
    };
    assert_eq!(announced, b"LEADER,127.0.0.1:8081".to_vec());
    assert_eq!(parse_leader_announcement(&announced), Some(B.to_vec()));

    assert!(b.is_leader());
    assert!(!a.is_leader());
    assert!(!c.is_leader());
    assert_eq!(b.leadership_count(), 1);
    assert_eq!(a.leadership_count(), 0);
    assert_eq!(c.leadership_count(), 0);
    assert!(!a.in_round() && !b.in_round() && !c.in_round());
}

#[test]
fn leadership_rotates_on_equal_load() {
    let mut a = Elector::new(A.to_vec(), 1);
    let mut b = Elector::new(B.to_vec(), 1);
    let from_a = broadcast_of(a.begin_round(CLIENT.to_vec(), 5_000_000));
    let from_b = broadcast_of(b.begin_round(CLIENT.to_vec(), 5_000_000));
    assert!(matches!(a.on_datagram(&from_b), ElectionAction::Announce { .. }));
    assert!(matches!(b.on_datagram(&from_a), ElectionAction::StandDown));
    assert_eq!(a.leadership_count(), 1);

    let from_a = broadcast_of(a.begin_round(CLIENT.to_vec(), 5_000_000));
    let from_b = broadcast_of(b.begin_round(CLIENT.to_vec(), 5_000_000));
    assert_eq!(from_a, b"127.0.0.1:8080,5,1".to_vec());
    assert!(matches!(a.on_datagram(&from_b), ElectionAction::StandDown));
    assert!(matches!(b.on_datagram(&from_a), ElectionAction::Announce { .. }));
    assert!(!a.is_leader());
    assert!(b.is_leader());
    assert_eq!(b.leadership_count(), 1);
}

#[test]
fn silent_peers_do_not_block_the_round() {
    let mut a = Elector::new(A.to_vec(), 2);
    broadcast_of(a.begin_round(CLIENT.to_vec(), 99_000_000));
    assert!(matches!(a.on_timeout(), ElectionAction::Wait));
    match a.on_timeout() {
        ElectionAction::Announce { to, message } => {
            assert_eq!(to, CLIENT.to_vec());
            assert_eq!(message, b"LEADER,127.0.0.1:8080".to_vec());
        },
        other => panic!("expected an announcement, got {:?}", other),
    }
    assert!(a.is_leader());
    assert_eq!(a.leadership_count(), 1);
}

#[test]
fn a_node_without_peers_leads_at_once() {
    let mut a = Elector::new(A.to_vec(), 0);
    assert!(matches!(a.begin_round(CLIENT.to_vec(), 1), ElectionAction::Announce { .. }));
    assert!(a.is_leader());
    assert!(!a.in_round());
}

#[test]
fn a_datagram_that_is_no_sample_uses_up_a_wait() {
    let mut a = Elector::new(A.to_vec(), 2);
    broadcast_of(a.begin_round(CLIENT.to_vec(), 50_000_000));
    assert!(matches!(a.on_datagram(b"garbage"), ElectionAction::Wait));
    assert!(matches!(a.on_datagram(b"127.0.0.1:8081,10,0"), ElectionAction::StandDown));
    assert!(!a.is_leader());
}

#[test]
fn events_outside_a_round_change_nothing() {
    let mut a = Elector::new(A.to_vec(), 2);
    assert!(matches!(a.on_timeout(), ElectionAction::Nothing));
    assert!(matches!(a.on_datagram(b"127.0.0.1:8081,10,0"), ElectionAction::Nothing));
    assert!(!a.in_round());
    broadcast_of(a.begin_round(CLIENT.to_vec(), 50_000_000));
    assert!(matches!(a.begin_round(b"other:1".to_vec(), 1), ElectionAction::Nothing));
    assert!(a.in_round());
}

#[test]
fn own_utilization_is_capped() {
    let mut a = Elector::new(A.to_vec(), 1);
    let message = broadcast_of(a.begin_round(CLIENT.to_vec(), MAX_UTILIZATION + 5));
    assert_eq!(message, b"127.0.0.1:8080,100,0".to_vec());
}

#[test]
fn a_later_sample_replaces_an_earlier_one() {
    let mut samples: Vec<LoadSample> = Vec::new();
    add_sample(&mut samples, LoadSample { peer: b"a".to_vec(), utilization: 1, leadership_count: 0 });
    add_sample(&mut samples, LoadSample { peer: b"b".to_vec(), utilization: 2, leadership_count: 0 });
    add_sample(&mut samples, LoadSample { peer: b"a".to_vec(), utilization: 9, leadership_count: 4 });
    assert_eq!(samples.len(), 2);
    assert_eq!(samples[0].peer, b"a".to_vec());
    assert_eq!(samples[0].utilization, 9);
    assert_eq!(samples[0].leadership_count, 4);
    assert_eq!(samples[1].peer, b"b".to_vec());

    let mut a = Elector::new(A.to_vec(), 2);
    broadcast_of(a.begin_round(CLIENT.to_vec(), 50_000_000));
    assert!(matches!(a.on_datagram(b"127.0.0.1:8081,10,0"), ElectionAction::Wait));
    assert!(matches!(a.on_datagram(b"127.0.0.1:8081,90,0"), ElectionAction::Announce { .. }));
}

#[test]
fn skipping_a_round() {
    assert!(skip_for_draw(0));
    assert!(!skip_for_draw(1));
    assert!(!skip_for_draw(u32::MAX));
    for _ in 0..50 {
        assert!(!skip_round(0));
        assert!(skip_round(1));
    }
    let mut skipped = 0;
    let mut kept = 0;
    for _ in 0..400 {
        if skip_round(2) {
            skipped += 1;
        } else {
            kept += 1;
        }
    }
    assert!(skipped > 0 && kept > 0);
}

#[test]
fn the_broadcast_carries_the_count_before_the_win() {
    let mut a = Elector::new(A.to_vec(), 2);
    let first = broadcast_of(a.begin_round(CLIENT.to_vec(), 10_000_000));
    assert_eq!(first, b"127.0.0.1:8080,10,0".to_vec());
    assert!(matches!(a.on_datagram(b"127.0.0.1:8081,40,0"), ElectionAction::Wait));
    match a.on_datagram(b"127.0.0.1:8082,70,0") {
        ElectionAction::Announce { to, message } => {
            assert_eq!(to, CLIENT.to_vec());
            assert_eq!(message, b"LEADER,127.0.0.1:8080".to_vec());
        },
        other => panic!("expected an announcement, got {:?}", other),
    }
    assert_eq!(a.leadership_count(), 1);
    let second = broadcast_of(a.begin_round(CLIENT.to_vec(), 12_500_000));
    assert_eq!(second, b"127.0.0.1:8080,12.5,1".to_vec());
}
