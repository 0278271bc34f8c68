use fwdl::range::{split_range, ByteRange};

const MIB: u64 = 1024 * 1024;

fn assert_partition(r: ByteRange, parts: &[ByteRange]) {
    assert!(!parts.is_empty());
    assert_eq!(parts[0].start, r.start);
    assert_eq!(parts[parts.len() - 1].end, r.end);
    for w in parts.windows(2) {
        assert_eq!(w[0].end, w[1].start);
    }
    for p in parts {
        assert!(p.start <= p.end);
    }
}

#[test]
fn split_even_partition() {
    let r = ByteRange::new(0, 40 * MIB);
    let parts = split_range(r, 4, MIB);
    assert_eq!(parts.len(), 4);
    assert_partition(r, &parts);
    for p in &parts[..parts.len() - 1] {
        assert!(p.end - p.start >= MIB);
    }
    assert_eq!(parts[0], ByteRange::new(0, 10 * MIB));
    assert_eq!(parts[3], ByteRange::new(30 * MIB, 40 * MIB));
}

#[test]
fn split_too_small_returns_whole() {
    let r = ByteRange::new(100, 100 + 2 * MIB - 1);
    let parts = split_range(r, 4, MIB);
    assert_eq!(parts.len(), 1);
    assert_eq!(parts[0], r);
}

#[test]
fn split_in_two_for_rebalance() {
    let r = ByteRange::new(30 * MIB, 40 * MIB);
    let parts = split_range(r, 2, MIB);
    assert_eq!(parts.len(), 2);
    assert_partition(r, &parts);
    assert_eq!(parts[0], ByteRange::new(30 * MIB, 35 * MIB));
    assert_eq!(parts[1], ByteRange::new(35 * MIB, 40 * MIB));
}

#[test]
fn split_uneven_tail() {
    let r = ByteRange::new(0, 10 * MIB + 3);
    let parts = split_range(r, 3, MIB);
    assert!(parts.len() <= 3);
    assert_partition(r, &parts);
    for p in &parts[..parts.len() - 1] {
        assert!(p.end - p.start >= MIB);
    }
    let total: u64 = parts.iter().map(|p| p.end - p.start).sum();
    assert_eq!(total, 10 * MIB + 3);
}

#[test]
fn split_respects_count_cap() {
    let r = ByteRange::new(0, 100 * MIB);
    let parts = split_range(r, 16, MIB);
    assert!(parts.len() <= 16);
    assert_partition(r, &parts);
}

#[test]
fn split_empty_range() {
    let r = ByteRange::new(7, 7);
    let parts = split_range(r, 4, MIB);
    assert_eq!(parts.len(), 1);
    assert_eq!(parts[0], r);
}

#[test]
fn range_len_and_empty() {
    let r = ByteRange::new(3, 8);
    assert_eq!(r.len(), 5);
    assert!(!r.is_empty());
    assert!(ByteRange::new(4, 4).is_empty());
}
