use peer_cluster::bytes::{bytes_eq, bytes_lt, copy_bytes, copy_range, starts_with};
use peer_cluster::ranking::{elect, LoadSample, MAX_UTILIZATION, UTILIZATION_SCALE};

fn sample(peer: &str, utilization: u32, leadership_count: u32) -> LoadSample {
    LoadSample { peer: peer.as_bytes().to_vec(), utilization, leadership_count }
}

#[test]
fn lowest_utilization_wins() {
    let samples = vec![
        sample("127.0.0.1:8080", 40 * UTILIZATION_SCALE, 0),
        sample("127.0.0.1:8081", 10 * UTILIZATION_SCALE, 9),
        sample("127.0.0.1:8082", 70 * UTILIZATION_SCALE, 0),
    ];
    assert_eq!(elect(&samples), Some(1));
}

#[test]
fn equal_utilization_goes_to_lower_leadership_count() {
    let samples = vec![
        sample("127.0.0.1:8080", 5_000_000, 3),
        sample("127.0.0.1:8081", 5_000_000, 2),
        sample("127.0.0.1:8082", 5_000_001, 0),
    ];
    assert_eq!(elect(&samples), Some(1));
}

#[test]
fn remaining_tie_goes_to_smallest_address() {
    let samples = vec![
        sample("127.0.0.1:8082", 5_000_000, 2),
        sample("127.0.0.1:8080", 5_000_000, 2),
        sample("127.0.0.1:8081", 5_000_000, 2),
    ];
    assert_eq!(elect(&samples), Some(1));
}

#[test]
fn election_does_not_depend_on_order() {
    let peers = ["10.0.0.1:1", "10.0.0.2:1", "10.0.0.3:1", "10.0.0.4:1"];
    let loads = [(30u32, 1u32), (20, 5), (20, 5), (20, 6)];
    let orders: [[usize; 4]; 4] = [[0, 1, 2, 3], [3, 2, 1, 0], [2, 0, 3, 1], [1, 3, 0, 2]];
    for order in orders {
        let samples: Vec<LoadSample> =
            order.iter().map(|&i| sample(peers[i], loads[i].0, loads[i].1)).collect();
        let winner = elect(&samples).unwrap();
        assert_eq!(samples[winner].peer, b"10.0.0.2:1".to_vec());
    }
}

#[test]
fn no_samples_no_winner() {
    assert_eq!(elect(&Vec::new()), None);
}

#[test]
fn one_sample_wins() {
    assert_eq!(elect(&vec![sample("a:1", MAX_UTILIZATION, u32::MAX)]), Some(0));
}

#[test]
fn ranks_before_by_each_field() {
    let a = sample("b", 1, 9);
    let b = sample("a", 2, 0);
    assert!(a.ranks_before(&b));
    assert!(!b.ranks_before(&a));
    let c = sample("b", 1, 8);
    assert!(c.ranks_before(&a));
    let d = sample("a", 1, 9);
    assert!(d.ranks_before(&a));
    assert!(!a.ranks_before(&a));
}

#[test]
fn duplicate_keeps_every_field() {
    let a = sample("10.7.17.50:8081", 12_345_678, 4);
    let b = a.duplicate();
    assert_eq!(b.peer, a.peer);
    assert_eq!(b.utilization, 12_345_678);
    assert_eq!(b.leadership_count, 4);
}

#[test]
fn byte_order_is_lexicographic() {
    assert!(bytes_lt(b"", b"a"));
    assert!(!bytes_lt(b"", b""));
    assert!(bytes_lt(b"ab", b"abc"));
    assert!(!bytes_lt(b"abc", b"ab"));
    assert!(bytes_lt(b"abc", b"abd"));
    assert!(bytes_lt(b"10.0.0.1:9", b"10.0.0.2:1"));
    assert!(!bytes_lt(b"b", b"a"));
    assert!(bytes_lt(&[0x7f], &[0x80]));
}

#[test]
fn byte_helpers() {
    assert!(bytes_eq(b"abc", b"abc"));
    assert!(!bytes_eq(b"abc", b"abd"));
    assert!(!bytes_eq(b"abc", b"ab"));
    assert_eq!(copy_bytes(b"xyz"), b"xyz".to_vec());
    assert_eq!(copy_range(b"abcdef", 2, 5), b"cde".to_vec());
    assert!(copy_range(b"abcdef", 3, 3).is_empty());
    assert!(starts_with(b"LEADER,x", b"LEADER,"));
    assert!(!starts_with(b"LEADER", b"LEADER,"));
    assert!(!starts_with(b"LEADEr,x", b"LEADER,"));
    assert!(starts_with(b"abc", b""));
}
