use peer_cluster::decimal::{read_fixed, read_number, write_fixed, write_number};
use peer_cluster::ranking::{LoadSample, MAX_UTILIZATION};
use peer_cluster::wire::{
    classify_request, election_trigger_datagram, find_byte, format_leader_announcement,
    format_sample, parse_leader_announcement, parse_sample, transfer_start_datagram, Request,
};

#[test]
fn requests_are_told_apart() {
    assert_eq!(classify_request(b"REQUEST_LEADER"), Request::ElectionTrigger);
    assert_eq!(classify_request(b"IMAGE_TRANSFER"), Request::TransferStart);
    assert_eq!(classify_request(b"REQUEST_LEADER "), Request::Other);
    assert_eq!(classify_request(b"request_leader"), Request::Other);
    assert_eq!(classify_request(b""), Request::Other);
    assert_eq!(classify_request(b"ACK"), Request::Other);
}

#[test]
fn literal_datagrams() {
    assert_eq!(election_trigger_datagram(), b"REQUEST_LEADER".to_vec());
    assert_eq!(transfer_start_datagram(), b"IMAGE_TRANSFER".to_vec());
}

#[test]
fn leader_announcement_round_trip() {
    let message = format_leader_announcement(b"127.0.0.1:8081");
    assert_eq!(message, b"LEADER,127.0.0.1:8081".to_vec());
    assert_eq!(parse_leader_announcement(&message), Some(b"127.0.0.1:8081".to_vec()));
}

#[test]
fn leader_announcement_needs_its_prefix() {
    assert_eq!(parse_leader_announcement(b"LEADER"), None);
    assert_eq!(parse_leader_announcement(b"leader,1.2.3.4:5"), None);
    assert_eq!(parse_leader_announcement(b""), None);
    assert_eq!(parse_leader_announcement(b"LEADER,"), Some(Vec::new()));
    assert_eq!(parse_leader_announcement(b"LEADER,a,b"), Some(b"a,b".to_vec()));
}

#[test]
fn sample_message_exact_text() {
    let sample =
        LoadSample { peer: b"127.0.0.1:8080".to_vec(), utilization: 12_500_000, leadership_count: 3 };
    assert_eq!(format_sample(&sample), b"127.0.0.1:8080,12.5,3".to_vec());
    let idle = LoadSample { peer: b"h:1".to_vec(), utilization: 0, leadership_count: 0 };
    assert_eq!(format_sample(&idle), b"h:1,0,0".to_vec());
    let busy = LoadSample {
        peer: b"h:1".to_vec(),
        utilization: MAX_UTILIZATION,
        leadership_count: u32::MAX,
    };
    assert_eq!(format_sample(&busy), b"h:1,100,4294967295".to_vec());
}

#[test]
fn sample_message_round_trip() {
    for (utilization, count) in
        [(0u32, 0u32), (1, 1), (999_999, 7), (1_000_000, 8), (37_123_456, 12), (MAX_UTILIZATION, u32::MAX)]
    {
        let sample =
            LoadSample { peer: b"10.7.17.88:8080".to_vec(), utilization, leadership_count: count };
        let back = parse_sample(&format_sample(&sample)).unwrap();
        assert_eq!(back.peer, sample.peer);
        assert_eq!(back.utilization, utilization);
        assert_eq!(back.leadership_count, count);
    }
}

#[test]
fn sample_as_a_float_would_print_it() {
    let a = parse_sample(b"10.7.17.50:8081,12.5,3").unwrap();
    assert_eq!(a.utilization, 12_500_000);
    let b = parse_sample(b"h:1,7,0").unwrap();
    assert_eq!(b.utilization, 7_000_000);
    let c = parse_sample(b"h:1,3.2258065,2").unwrap();
    assert_eq!(c.utilization, 3_225_806);
    let d = parse_sample(b"h:1,100,2").unwrap();
    assert_eq!(d.utilization, MAX_UTILIZATION);
    let e = parse_sample(b"h:1,0.0000001,2").unwrap();
    assert_eq!(e.utilization, 0);
    let f = parse_sample(b"h:1,5.,2").unwrap();
    assert_eq!(f.utilization, 5_000_000);
}

#[test]
fn messages_that_are_no_samples() {
    assert!(parse_sample(b"").is_none());
    assert!(parse_sample(b"REQUEST_LEADER").is_none());
    assert!(parse_sample(b"h:1,12.5").is_none());
    assert!(parse_sample(b"h:1,12.5,3,4").is_none());
    assert!(parse_sample(b"h:1,12.5,").is_none());
    assert!(parse_sample(b"h:1,,3").is_none());
    assert!(parse_sample(b"h:1,abc,3").is_none());
    assert!(parse_sample(b"h:1,12.5,x").is_none());
    assert!(parse_sample(b"h:1,-1,3").is_none());
    assert!(parse_sample(b"h:1,.5,3").is_none());
    assert!(parse_sample(b"h:1,1.2.3,3").is_none());
    assert!(parse_sample(b"h:1,100.000001,3").is_none());
    assert!(parse_sample(b"h:1,101,3").is_none());
    assert!(parse_sample(b"h:1,12.5,4294967296").is_none());
    assert!(parse_sample(b"h:1,12.5,-3").is_none());
}

#[test]
fn empty_address_is_taken() {
    let s = parse_sample(b",1,2").unwrap();
    assert!(s.peer.is_empty());
    assert_eq!(s.utilization, 1_000_000);
    assert_eq!(s.leadership_count, 2);
}

#[test]
fn find_byte_from_an_offset() {
    assert_eq!(find_byte(b"a,b,c", 0, b','), 1);
    assert_eq!(find_byte(b"a,b,c", 2, b','), 3);
    assert_eq!(find_byte(b"a,b,c", 4, b','), 5);
    assert_eq!(find_byte(b"", 0, b','), 0);
}

#[test]
fn numbers_in_decimal() {
    assert_eq!(write_number(0), b"0".to_vec());
    assert_eq!(write_number(9), b"9".to_vec());
    assert_eq!(write_number(10), b"10".to_vec());
    assert_eq!(write_number(4_294_967_295), b"4294967295".to_vec());
    assert_eq!(write_number(u64::MAX), b"18446744073709551615".to_vec());
    assert_eq!(read_number(b"0", 0, 1, 10), Some(0));
    assert_eq!(read_number(b"007", 0, 3, 10), Some(7));
    assert_eq!(read_number(b"x42y", 1, 3, 100), Some(42));
    assert_eq!(read_number(b"42", 0, 2, 41), None);
    assert_eq!(read_number(b"42", 0, 2, 42), Some(42));
    assert_eq!(read_number(b"", 0, 0, 42), None);
    assert_eq!(read_number(b"4a", 0, 2, 100), None);
    assert_eq!(read_number(b"+4", 0, 2, 100), None);
    assert_eq!(read_number(b"18446744073709551615", 0, 20, u64::MAX), Some(u64::MAX));
    assert_eq!(read_number(b"18446744073709551616", 0, 20, u64::MAX), None);
    assert_eq!(read_number(b"99999999999999999999999", 0, 23, u64::MAX), None);
}

#[test]
fn millionths_in_decimal() {
    assert_eq!(write_fixed(0), b"0".to_vec());
    assert_eq!(write_fixed(1), b"0.000001".to_vec());
    assert_eq!(write_fixed(10), b"0.00001".to_vec());
    assert_eq!(write_fixed(500_000), b"0.5".to_vec());
    assert_eq!(write_fixed(10_000_000), b"10".to_vec());
    assert_eq!(write_fixed(12_500_000), b"12.5".to_vec());
    assert_eq!(write_fixed(12_050_000), b"12.05".to_vec());
    assert_eq!(write_fixed(12_345_678), b"12.345678".to_vec());
    assert_eq!(write_fixed(12_345_600), b"12.3456".to_vec());
    assert_eq!(write_fixed(100_000_000), b"100".to_vec());
    for n in [0u64, 1, 9, 10, 99, 100, 1_000, 10_000, 100_000, 999_999, 1_000_000, 1_000_001,
        37_120_000, 99_999_990, 100_000_000]
    {
        assert_eq!(read_fixed(&write_fixed(n), 100_000_000), Some(n));
    }
    assert_eq!(read_fixed(b"12.345678", 100_000_000), Some(12_345_678));
    assert_eq!(read_fixed(b"12.3456789", 100_000_000), Some(12_345_678));
    assert_eq!(read_fixed(b"12", 100_000_000), Some(12_000_000));
    assert_eq!(read_fixed(b"12.", 100_000_000), Some(12_000_000));
    assert_eq!(read_fixed(b"0.5", 100_000_000), Some(500_000));
    assert_eq!(read_fixed(b"100", 100_000_000), Some(100_000_000));
    assert_eq!(read_fixed(b"100.0000009", 100_000_000), Some(100_000_000));
    assert_eq!(read_fixed(b"100.000001", 100_000_000), None);
    assert_eq!(read_fixed(b".5", 100_000_000), None);
    assert_eq!(read_fixed(b"", 100_000_000), None);
    assert_eq!(read_fixed(b"1e2", 100_000_000), None);
    assert_eq!(read_fixed(b"1.5x", 100_000_000), None);
    assert_eq!(read_fixed(b"1.2.3", 100_000_000), None);
}
