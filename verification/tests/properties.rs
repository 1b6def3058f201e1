use memsearch::query::{BuildError, MaskedByte, Query};
use memsearch::scan::{find_in, find_n_in};

/// Comparing two masked bytes uses the intersection of both masks.
#[test]
fn maskedbyte_partialeq_maskedbyte() {
    let a = MaskedByte { byte: 0x5A, mask: 0xF0 };
    let b = MaskedByte { byte: 0x5B, mask: 0xF0 };
    assert_eq!(a, b);
    let wild = MaskedByte { byte: 0x00, mask: 0x00 };
    assert_eq!(wild, MaskedByte { byte: 0x77, mask: 0xFF });
    assert_ne!(a, MaskedByte { byte: 0x6A, mask: 0xF0 });
}

/// A fully wildcarded byte matches every concrete byte.
#[test]
fn maskedbyte_wildcard_matches_anything() {
    let wild = MaskedByte { byte: 0x00, mask: 0x00 };
    assert!(wild.matches_byte(0x00));
    assert!(wild.matches_byte(0xFF));
    assert!(wild.matches_byte(0x5A));
}

/// Each rejected input reports its own error variant.
#[test]
fn query_build_err_variants() {
    assert_eq!(Query::build("00 11+22").unwrap_err(), BuildError::InvalidCharacter);
    assert_eq!(Query::build("00 11 2").unwrap_err(), BuildError::UnterminatedByte);
    assert_eq!(Query::build("00|11|22").unwrap_err(), BuildError::DuplicateAnchor);
    assert_eq!(Query::build("00 1|1 22").unwrap_err(), BuildError::MisplacedAnchor);
}

/// An odd nibble count is reported even when a later character is invalid.
#[test]
fn query_build_err_unterminated_beats_invalid() {
    assert_eq!(Query::build("34 5+").unwrap_err(), BuildError::UnterminatedByte);
}

/// An empty signature compiles to the empty pattern with anchor zero.
#[test]
fn query_build_ok_empty() {
    let query = Query::build("").unwrap();
    assert_eq!(query.len(), 0);
    assert_eq!(query.anchor, 0);
    let blank = Query::build(" \t \n ").unwrap();
    assert_eq!(blank.len(), 0);
}

/// The wildcard letter is accepted in either case.
#[test]
fn query_build_ok_uppercase_wildcard() {
    let query = Query::build("X2").unwrap();
    assert_eq!(query, Query { bytes: vec![MaskedByte { byte: 0x02, mask: 0x0F }], anchor: 0 });
}

/// The anchor may sit at the very start or the very end of the pattern.
#[test]
fn query_build_ok_anchor_at_ends() {
    let head = Query::build("|11 22").unwrap();
    assert_eq!(head.anchor, 0);
    let tail = Query::build("11 22|").unwrap();
    assert_eq!(tail.anchor, 2);
}

/// An empty pattern matches at every address in the half-open region, and
/// nowhere on an empty region.
#[test]
fn scan_empty_pattern_matches_everywhere() {
    let query = Query::build("").unwrap();
    let matches = query.find_matches_in(&[0x12, 0x34, 0x56], 0);
    assert_eq!(matches, vec![0, 1, 2]);
    let none = query.find_matches_in(&[], 0);
    assert_eq!(none, vec![]);
}

/// Reported addresses are shifted by the region's base address.
#[test]
fn scan_reports_base_shifted_addresses() {
    let data = [0x12, 0x34, 0x56, 0x78];
    let matches = find_in("34 56", &data, 0x4000).unwrap();
    assert_eq!(matches, vec![0x4001]);
    let anchored = find_in("34|56", &data, 0x4000).unwrap();
    assert_eq!(anchored, vec![0x4002]);
}

/// Matching a single byte against a query at an offset where it does not
/// fit yields no match rather than an error.
#[test]
fn does_match_at_out_of_range() {
    let query = Query::build("34 56").unwrap();
    let data = [0x12, 0x34, 0x56];
    assert!(query.does_match_at(&data, 1));
    assert!(!query.does_match_at(&data, 2));
    assert!(!query.does_match_at(&data, 7));
}

/// The bounded search yields a prefix of the full search, truncated to at
/// most n elements, for every n.
#[test]
fn find_n_in_is_prefix_of_find_in() {
    let data = [0x12, 0x34, 0x34, 0x34, 0x12, 0x34];
    let all = find_in("34", &data, 0).unwrap();
    assert_eq!(all, vec![1, 2, 3, 5]);
    for n in 0..8 {
        let bounded = find_n_in("34", &data, 0, n).unwrap();
        let k = n.min(all.len());
        assert_eq!(bounded, all[..k].to_vec());
    }
}

/// Repeated scans over an unchanged region with the same query yield
/// identical sequences.
#[test]
fn scan_is_deterministic() {
    let data = [0x12, 0x34, 0x56, 0x78, 0x12, 0x34, 0x56, 0x78];
    let query = Query::build("xx 34").unwrap();
    let first = query.find_matches_in(&data, 0);
    let second = query.find_matches_in(&data, 0);
    assert_eq!(first, second);
}

/// The lazy scan hands out matches one at a time, in ascending order.
#[test]
fn iter_matches_in_is_lazy() {
    let data = [0x34, 0x12, 0x34, 0x56];
    let query = Query::build("34").unwrap();
    let mut it = query.iter_matches_in(&data, 0);
    assert_eq!(it.next(), Some(0));
    assert_eq!(it.next(), Some(2));
    assert_eq!(it.next(), None);
    assert_eq!(it.next(), None);
}
