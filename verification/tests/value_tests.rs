use rand::rngs::StdRng;
use rand::Rng;
use rand::SeedableRng;
use ring_cluster::bytes::{bytes_equal, contains_bytes, split_bytes};
use ring_cluster::clock::{get_epoch_ms, millis_from_parts};
use ring_cluster::decimal::{format_i32, parse_i32};
use ring_cluster::metrics::{get_cpu_util, ClientStats, TallyStats};
use ring_cluster::random::{election_value, election_value_from, ELECTION_MODULUS};

#[test]
fn decimal_text_matches_to_string() {
    for v in [0i32, 7, -1, 10, 123456, i32::MAX, i32::MIN] {
        assert_eq!(format_i32(v), v.to_string().into_bytes());
    }
}

#[test]
fn decimal_parse_matches_str_parse() {
    let cases: [&str; 12] = ["5", "+5", "-5", "-0", "007", "", "-", "+", "12a", "2147483647", "2147483648", "-2147483648"];
    for c in cases {
        assert_eq!(parse_i32(c.as_bytes()), c.parse::<i32>().ok(), "case {:?}", c);
    }
    assert_eq!(parse_i32(b"-2147483649"), None);
    assert_eq!(parse_i32(b"99999999999999999999"), None);
}

#[test]
fn decimal_round_trip() {
    for v in [0i32, 1, -1, 99999, -100007, i32::MAX, i32::MIN] {
        assert_eq!(parse_i32(&format_i32(v)), Some(v));
    }
}

#[test]
fn splitting_follows_str_split() {
    let pieces = split_bytes(b"e,127.0.0.1:4242,77", b',');
    assert_eq!(pieces, vec![b"e".to_vec(), b"127.0.0.1:4242".to_vec(), b"77".to_vec()]);
    assert_eq!(split_bytes(b"", b','), vec![Vec::<u8>::new()]);
    assert_eq!(split_bytes(b",", b','), vec![Vec::<u8>::new(), Vec::<u8>::new()]);
    assert!(bytes_equal(b"ab", b"ab"));
    assert!(!bytes_equal(b"ab", b"abc"));
    assert!(contains_bytes(&vec![b"x".to_vec(), b"y".to_vec()], b"y"));
    assert!(!contains_bytes(&vec![b"x".to_vec()], b"z"));
}

#[test]
fn election_values_fold_into_range() {
    assert_eq!(election_value_from(5), 5);
    assert_eq!(election_value_from(-1), 100006);
    assert_eq!(election_value_from(100007), 0);
    assert_eq!(election_value_from(i32::MIN), 66670);
    assert_eq!(election_value_from(i32::MAX), 33336);
    let raw: i32 = -123456789;
    assert_eq!(election_value_from(raw), (raw % 100007 + 100007) % 100007);
    let mut rng = StdRng::seed_from_u64(42);
    for _ in 0..50 {
        let v = election_value(&mut rng);
        assert!(0 <= v && v < ELECTION_MODULUS);
    }
}

#[test]
fn election_values_follow_the_seeded_stream() {
    let mut a = StdRng::seed_from_u64(42);
    let mut b = StdRng::seed_from_u64(42);
    let raw: i32 = b.gen::<i32>();
    assert_eq!(election_value(&mut a), (raw % 100007 + 100007) % 100007);
}

#[test]
fn client_stats_count_and_sum() {
    let mut s = ClientStats::new();
    s.record_sent();
    s.record_sent();
    s.record_response(1000, 1015);
    assert_eq!(s.number_of_sent_requests, 2);
    assert_eq!(s.number_of_received_responses, 1);
    assert_eq!(s.sum_response_time, 15);
    s.record_response(2000, 2000);
    assert_eq!(s.number_of_received_responses, 2);
    assert_eq!(s.sum_response_time, 15);
}

#[test]
fn tally_stats_cut_response_time_to_u32() {
    let mut t = TallyStats::new();
    t.record_response(0, (1u128 << 32) + 5);
    assert_eq!(t.number_of_received_responses, 1);
    assert_eq!(t.sum_response_time, 5);
    t.record_response(10, 30);
    assert_eq!(t.sum_response_time, 25);
}

#[test]
fn cpu_util_formula() {
    assert_eq!(get_cpu_util(&[10, 20]), 1265);
    assert_eq!(get_cpu_util(&[0]), 2500);
    assert_eq!(get_cpu_util(&[-3000]), -500);
    assert_eq!(get_cpu_util(&[-3001, 0]), -250);
    assert_eq!(get_cpu_util(&[1, 2, 3, 4]), 627);
}

#[test]
fn epoch_clock_reads_after_2020() {
    let t = get_epoch_ms().unwrap();
    assert!(t > 1_577_836_800_000);
}

#[test]
fn millis_are_whole_and_truncated() {
    assert_eq!(millis_from_parts(1, 999_999_999), 1999);
    assert_eq!(millis_from_parts(0, 999_999), 0);
    assert_eq!(millis_from_parts(0, 1_000_000), 1);
    assert_eq!(millis_from_parts(1_700_000_000, 0), 1_700_000_000_000);
    assert_eq!(millis_from_parts(u64::MAX, 999_999_999), (u64::MAX as u128) * 1000 + 999);
}

#[test]
fn millis_match_duration_as_millis() {
    for (s, n) in [(0u64, 0u32), (3, 500_000), (12345, 999_999_999), (1_700_000_000, 123_456_789)] {
        let d = std::time::Duration::new(s, n);
        assert_eq!(millis_from_parts(d.as_secs(), d.subsec_nanos()), d.as_millis());
    }
}

#[test]
fn later_readings_count_no_fewer_millis() {
    // 0.9995 s and 1.0004 s lie 0.0009 s apart: the counts differ by one.
    let a = millis_from_parts(0, 999_500_000);
    let b = millis_from_parts(1, 400_000);
    assert!(a <= b);
    assert_eq!(b - a, 1);
    let c = millis_from_parts(5, 0);
    let d = millis_from_parts(5, 2_500_000);
    assert_eq!(d - c, 2);
}
