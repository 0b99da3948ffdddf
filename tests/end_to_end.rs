use station_stats::engine::summarize;
use station_stats::map::StatsMap;

const INPUT: &[u8] = b"Paris;12.3\nLondon;-1.0\nParis;15.0\n";
const EXPECTED: &[u8] = b"London=-1.0/-1.0/-1.0\nParis=12.3/13.7/15.0\n";

fn report_of(file: &[u8], threads: usize) -> Vec<u8> {
    let map: StatsMap = summarize(file, threads).expect("well-formed input");
    map.report()
}

#[test]
fn one_thread_scenario() {
    assert_eq!(report_of(INPUT, 1), EXPECTED.to_vec());
}

#[test]
fn four_threads_match_one_thread() {
    assert_eq!(report_of(INPUT, 4), report_of(INPUT, 1));
    assert_eq!(report_of(INPUT, 4), EXPECTED.to_vec());
}

#[test]
fn every_thread_count_gives_the_same_report() {
    for threads in 1..=50 {
        assert_eq!(report_of(INPUT, threads), EXPECTED.to_vec(), "threads = {}", threads);
    }
}

#[test]
fn repeated_extremes_of_one_key() {
    let map = summarize(b"A;0.0\nA;99.9\nA;-99.9\n", 2).unwrap();
    assert_eq!(map.len(), 1);
    let r = map.record_at(0);
    assert_eq!(r.count, 3);
    assert_eq!(r.min, -999);
    assert_eq!(r.max, 999);
    assert_eq!(r.sum, 0);
    assert_eq!(map.report(), b"A=-99.9/0.0/99.9\n".to_vec());
}

#[test]
fn negative_mean_rounds_half_away_from_zero() {
    let map = summarize(b"X;-12.3\nX;-15.0\n", 1).unwrap();
    assert_eq!(map.report(), b"X=-15.0/-13.7/-12.3\n".to_vec());
}

#[test]
fn keys_come_out_in_byte_order() {
    let file = b"b;1.0\nab;2.0\na;3.0\nB;4.0\nb;5.0\n";
    let map = summarize(file, 3).unwrap();
    assert_eq!(map.report(), b"B=4.0/4.0/4.0\na=3.0/3.0/3.0\nab=2.0/2.0/2.0\nb=1.0/3.0/5.0\n".to_vec());
}

#[test]
fn empty_file_gives_empty_report() {
    let map = summarize(b"", 4).unwrap();
    assert_eq!(map.len(), 0);
    assert_eq!(map.report(), Vec::<u8>::new());
}

#[test]
fn many_lines_across_many_threads() {
    let mut file = Vec::new();
    for i in 0..500u32 {
        let key = format!("city{}", i % 7);
        let v = (i % 200) as i32 - 100;
        let sign = if v < 0 { "-" } else { "" };
        let a = v.abs();
        file.extend_from_slice(format!("{};{}{}.{}\n", key, sign, a / 10, a % 10).as_bytes());
    }
    let single = report_of(&file, 1);
    for threads in [2usize, 3, 4, 7, 8, 16, 64] {
        assert_eq!(report_of(&file, threads), single, "threads = {}", threads);
    }
}

#[test]
fn malformed_row_is_rejected() {
    assert!(summarize(b"Paris12.3\n", 1).is_none());
    assert!(summarize(b"Paris;12.34\n", 1).is_none());
    assert!(summarize(b"Paris;1x.3\n", 1).is_none());
    assert!(summarize(b"\n", 1).is_none());
}

#[test]
fn missing_final_newline_is_rejected() {
    assert!(summarize(b"A;1.0\nB;2.0", 1).is_none());
}

#[test]
fn line_longer_than_window_across_a_boundary_is_rejected() {
    let key = "k".repeat(120);
    let file = format!("{};1.0\n{};2.0\n", key, key);
    assert!(summarize(file.as_bytes(), 4).is_none());
    assert!(summarize(file.as_bytes(), 1).is_some());
}
