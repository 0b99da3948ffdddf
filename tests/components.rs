use station_stats::bytes::{bytes_equal, compare_bytes};
use station_stats::chunk::{chunk_size_for, new_offset, plan_chunk, resolve_chunk, line_start_at_or_before};
use station_stats::hasher::{hash_key, FastHasher, KEY};
use station_stats::map::StatsMap;
use station_stats::number::{format_tenths, parse_float};
use station_stats::record::Record;
use station_stats::report::mean_tenths;
use station_stats::scan::{parse_chunk, parse_row};

#[test]
fn parser_reads_each_layout() {
    assert_eq!(parse_float(b"5.0"), Some(50));
    assert_eq!(parse_float(b"12.3"), Some(123));
    assert_eq!(parse_float(b"-1.0"), Some(-10));
    assert_eq!(parse_float(b"-99.9"), Some(-999));
    assert_eq!(parse_float(b"0.0"), Some(0));
}

#[test]
fn parser_rejects_other_layouts() {
    for bad in [&b""[..], b"-", b"1", b"12", b"123", b"1.23", b"100.0", b"-100.0", b"12.", b".5", b"1,5", b"+1.5", b"a.b"] {
        assert_eq!(parse_float(bad), None, "{:?}", bad);
    }
}

#[test]
fn parse_then_format_round_trips() {
    for t in -999i64..=999 {
        let text = format_tenths(t);
        assert_eq!(parse_float(&text), Some(t));
        assert_eq!(format_tenths(parse_float(&text).unwrap()), text);
    }
    assert_eq!(format_tenths(-5), b"-0.5".to_vec());
    assert_eq!(format_tenths(137), b"13.7".to_vec());
}

#[test]
fn row_splits_at_delimiter() {
    let (key, v) = parse_row(b"London;-1.0").unwrap();
    assert_eq!(key, b"London");
    assert_eq!(v, -10);
    assert!(parse_row(b"London-1.0").is_none());
    assert!(parse_row(b"a;b;1.0").is_none());
}

#[test]
fn record_update_and_merge() {
    let mut a = Record::new(123);
    a.update(150);
    assert_eq!((a.count, a.min, a.max, a.sum), (2, 123, 150, 273));
    let mut b = Record::new(-10);
    b.merge(a);
    assert_eq!((b.count, b.min, b.max, b.sum), (3, -10, 150, 263));
}

#[test]
fn merge_order_does_not_matter() {
    let x = Record::new(10);
    let mut y = Record::new(-50);
    y.update(70);
    let z = Record::new(999);
    let mut left = x;
    left.merge(y);
    left.merge(z);
    let mut right = y;
    let mut zx = z;
    zx.merge(x);
    right.merge(zx);
    assert_eq!((left.count, left.min, left.max, left.sum), (right.count, right.min, right.max, right.sum));
}

#[test]
fn chunk_maps_merge_in_any_order() {
    let a = parse_chunk(b"Paris;12.3\nLondon;-1.0\n").unwrap();
    let b = parse_chunk(b"Paris;15.0\nRome;3.3\n").unwrap();
    let mut ab = StatsMap::new();
    ab.merge_from(&a);
    ab.merge_from(&b);
    let mut ba = StatsMap::new();
    ba.merge_from(&b);
    ba.merge_from(&a);
    assert_eq!(ab.report(), ba.report());
    let whole = parse_chunk(b"Paris;12.3\nLondon;-1.0\nParis;15.0\nRome;3.3\n").unwrap();
    assert_eq!(ab.report(), whole.report());
}

#[test]
fn map_add_keeps_keys_sorted_and_merges_equal_keys() {
    let mut m = StatsMap::new();
    m.add(b"b", Record::new(1));
    m.add(b"a", Record::new(2));
    m.add(b"b", Record::new(3));
    assert_eq!(m.len(), 2);
    assert_eq!(m.key_at(0), &b"a".to_vec());
    assert_eq!(m.key_at(1), &b"b".to_vec());
    assert_eq!(m.record_at(1).count, 2);
    assert_eq!(m.record_at(1).sum, 4);
}

#[test]
fn mean_rounds_half_away_from_zero() {
    let mut r = Record::new(123);
    r.update(150);
    assert_eq!(mean_tenths(&r), 137);
    let mut n = Record::new(-123);
    n.update(-150);
    assert_eq!(mean_tenths(&n), -137);
    let mut e = Record::new(10);
    e.update(11);
    e.update(11);
    assert_eq!(mean_tenths(&e), 11);
}

#[test]
fn first_chunk_is_not_trimmed_at_its_head() {
    let file = b"Paris;12.3\nLondon;-1.0\nParis;15.0\n";
    let plan = plan_chunk(file.len(), 4, 0);
    assert_eq!((plan.start, plan.read_start), (0, 0));
    let buf = &file[plan.read_start..plan.end];
    let (h, _t) = resolve_chunk(buf, &plan).unwrap();
    assert_eq!(h, 0);
}

#[test]
fn last_chunk_is_clamped_to_end_of_file() {
    let file = b"Paris;12.3\nLondon;-1.0\nParis;15.0\n";
    let cs = chunk_size_for(file.len(), 4);
    assert_eq!(cs, 8);
    let plan = plan_chunk(file.len(), 4, 3 * cs);
    assert_eq!(plan.end, file.len());
    let buf = &file[plan.read_start..plan.end];
    let (_h, t) = resolve_chunk(buf, &plan).unwrap();
    assert_eq!(plan.read_start + t, file.len());
}

#[test]
fn boundary_on_a_newline_byte_keeps_the_line_once() {
    // byte 10 is the newline that ends "Paris;12.3"
    let file = b"Paris;12.3\nLondon;-1.0\nParis;15.0\n";
    assert_eq!(file[10], b'\n');
    assert_eq!(line_start_at_or_before(file, true, 10), Some(0));
    assert_eq!(line_start_at_or_before(file, true, 11), Some(11));
    let first = plan_chunk(file.len(), 3, 0);
    let second = plan_chunk(file.len(), 3, 11);
    assert_eq!(first.end, 11);
    let (h1, t1) = resolve_chunk(&file[first.read_start..first.end], &first).unwrap();
    let (h2, _) = resolve_chunk(&file[second.read_start..second.end], &second).unwrap();
    assert_eq!((h1, t1), (0, 11));
    assert_eq!(second.read_start + h2, 11);
}

#[test]
fn resolved_chunks_tile_the_file() {
    let mut file = Vec::new();
    for i in 0..300u32 {
        file.extend_from_slice(format!("k{};{}.{}\n", i % 13, i % 90, i % 10).as_bytes());
    }
    for threads in [1usize, 2, 3, 5, 8, 13, 100, 5000] {
        let cs = chunk_size_for(file.len(), threads);
        let mut cursor = new_offset();
        let mut joined = Vec::new();
        for _ in 0..threads {
            let offset = cursor.fetch_add(cs);
            let plan = plan_chunk(file.len(), threads, offset);
            let buf = &file[plan.read_start..plan.end];
            let (h, t) = resolve_chunk(buf, &plan).unwrap();
            assert!(h == t || buf[t - 1] == b'\n');
            joined.extend_from_slice(&buf[h..t]);
        }
        assert_eq!(joined, file, "threads = {}", threads);
    }
}

#[test]
fn offsets_are_successive_multiples() {
    let mut cursor = new_offset();
    assert_eq!(cursor.fetch_add(7), 0);
    assert_eq!(cursor.fetch_add(7), 7);
    assert_eq!(cursor.fetch_add(7), 14);
    assert_eq!(cursor.next, 21);
}

#[test]
fn hasher_mixes_words() {
    let mut h = FastHasher::default();
    h.compute_hash(1);
    assert_eq!(h.finish(), KEY);
    let mut w = FastHasher::default();
    w.write(b"abcdefgh");
    let mut c = FastHasher::default();
    c.compute_hash(u64::from_le_bytes(*b"abcdefgh"));
    assert_eq!(w.finish(), c.finish());
    let mut t = FastHasher::default();
    t.write(b"abcdefghXYZWuvq");
    let mut u = FastHasher::default();
    u.compute_hash(u64::from_le_bytes(*b"abcdefgh"));
    u.compute_hash(u32::from_le_bytes(*b"XYZW") as u64);
    u.compute_hash(u16::from_le_bytes(*b"uv") as u64);
    u.compute_hash(b'q' as u64);
    assert_eq!(t.finish(), u.finish());
    assert_ne!(hash_key(b"Paris"), hash_key(b"London"));
    assert_eq!(hash_key(b""), 0);
}

#[test]
fn byte_comparison() {
    assert!(compare_bytes(b"a", b"b") < 0);
    assert!(compare_bytes(b"ab", b"a") > 0);
    assert_eq!(compare_bytes(b"same", b"same"), 0);
    assert!(compare_bytes(b"", b"x") < 0);
    assert!(bytes_equal(b"xy", b"xy"));
    assert!(!bytes_equal(b"xy", b"xz"));
}
