use fwdl::range::ByteRange;
use fwdl::state::{DownloadState, StateError};

fn pairs(s: &DownloadState) -> Vec<(u64, u64)> {
    s.remaining.clone()
}

#[test]
fn encodes_fixed_width_text() {
    let s = DownloadState { remaining: vec![(1, 2)] };
    let bytes = s.to_bytes();
    let expected =
        "{\"remaining\":[[00000000000000000001,00000000000000000002]]}".as_bytes().to_vec();
    assert_eq!(bytes, expected);
}

#[test]
fn encodes_empty_state() {
    let s = DownloadState { remaining: vec![] };
    assert_eq!(s.to_bytes(), "{\"remaining\":[]}".as_bytes().to_vec());
}

#[test]
fn parse_round_trip() {
    let s = DownloadState { remaining: vec![(0, 7), (1024, 4096), (u64::MAX - 1, u64::MAX)] };
    let bytes = s.to_bytes();
    let back = DownloadState::parse(&bytes).unwrap();
    assert_eq!(pairs(&back), vec![(0, 7), (1024, 4096), (u64::MAX - 1, u64::MAX)]);
}

#[test]
fn parse_round_trip_empty() {
    let s = DownloadState { remaining: vec![] };
    let back = DownloadState::parse(&s.to_bytes()).unwrap();
    assert!(pairs(&back).is_empty());
}

#[test]
fn parse_rejects_truncation() {
    let s = DownloadState { remaining: vec![(3, 9), (12, 20)] };
    let mut bytes = s.to_bytes();
    bytes.pop();
    assert!(matches!(DownloadState::parse(&bytes), Err(StateError::Corrupt)));
    assert!(matches!(DownloadState::parse(&vec![]), Err(StateError::Corrupt)));
}

#[test]
fn parse_rejects_mangled_digit() {
    let s = DownloadState { remaining: vec![(3, 9)] };
    let mut bytes = s.to_bytes();
    bytes[20] = b'x';
    assert!(matches!(DownloadState::parse(&bytes), Err(StateError::Corrupt)));
}

#[test]
fn parse_rejects_wrong_field_name() {
    let bytes = "{\"remaining?\":[]}".as_bytes().to_vec();
    assert!(matches!(DownloadState::parse(&bytes), Err(StateError::Corrupt)));
}

#[test]
fn load_sorts_and_drops_empty_ranges() {
    // The canonical form of a saved state: sorted by start, empties gone.
    let s = DownloadState { remaining: vec![(40, 50), (10, 20), (30, 30), (25, 25)] };
    let back = DownloadState::parse(&s.to_bytes()).unwrap();
    let ranges = back.load_ranges(100).unwrap();
    assert_eq!(ranges, vec![ByteRange::new(10, 20), ByteRange::new(40, 50)]);
}

#[test]
fn load_rejects_overlap() {
    let s = DownloadState { remaining: vec![(10, 25), (20, 30)] };
    assert_eq!(s.load_ranges(100), Err(StateError::Corrupt));
}

#[test]
fn load_rejects_backwards_range() {
    let s = DownloadState { remaining: vec![(9, 3)] };
    assert_eq!(s.load_ranges(100), Err(StateError::Corrupt));
}

#[test]
fn load_rejects_range_past_size() {
    let s = DownloadState { remaining: vec![(10, 200)] };
    assert_eq!(s.load_ranges(100), Err(StateError::Corrupt));
}

#[test]
fn load_accepts_touching_ranges() {
    let s = DownloadState { remaining: vec![(0, 10), (10, 20)] };
    let ranges = s.load_ranges(20).unwrap();
    assert_eq!(ranges, vec![ByteRange::new(0, 10), ByteRange::new(10, 20)]);
}

#[test]
fn from_ranges_to_ranges_mirror() {
    let rs = vec![ByteRange::new(5, 9), ByteRange::new(12, 40)];
    let s = DownloadState::from_ranges(&rs);
    assert_eq!(pairs(&s), vec![(5, 9), (12, 40)]);
    assert_eq!(s.to_ranges(), rs);
}
