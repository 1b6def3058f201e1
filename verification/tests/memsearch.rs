use memsearch::query::{MaskedByte, Query};
use memsearch::scan::{find_in, find_n_in};

/// Tests comparing a MaskedByte to a byte.
#[test]
fn maskedbyte_partialeq_u8() {
    let masked_byte = MaskedByte { byte: 0x10, mask: 0xF0 };
    assert_eq!(masked_byte, 0x10);
    assert_eq!(masked_byte, 0x12);
    assert_ne!(masked_byte, 0x00);
    assert_ne!(masked_byte, 0x02);
}

/// Tests building query with valid query string.
#[test]
fn query_build_ok_simple() {
    let query = Query::build("12 34 56").unwrap();
    assert_eq!(
        query,
        Query {
            bytes: vec![
                MaskedByte { byte: 0x12, mask: 0xFF },
                MaskedByte { byte: 0x34, mask: 0xFF },
                MaskedByte { byte: 0x56, mask: 0xFF },
            ],
            anchor: 0,
        }
    );
    assert_eq!(query.len(), 3);

    // Coverage for Debug trait
    println!("{:?}", query);
}

/// Tests building query with anchor in query string.
#[test]
fn query_build_ok_anchor() {
    let query = Query::build("00 11|22").unwrap();
    assert_eq!(
        query,
        Query {
            bytes: vec![
                MaskedByte { byte: 0x00, mask: 0xFF },
                MaskedByte { byte: 0x11, mask: 0xFF },
                MaskedByte { byte: 0x22, mask: 0xFF },
            ],
            anchor: 2,
        }
    );
    assert_eq!(query.len(), 3);
}

/// Tests building query with masked bytes in query string.
#[test]
fn query_build_ok_masked() {
    let query = Query::build("0x xx x2").unwrap();
    assert_eq!(
        query,
        Query {
            bytes: vec![
                MaskedByte { byte: 0x00, mask: 0xF0 },
                MaskedByte { byte: 0x00, mask: 0x00 },
                MaskedByte { byte: 0x02, mask: 0x0F },
            ],
            anchor: 0,
        }
    );
    assert_eq!(query.len(), 3);
}

/// Tests building query with query string containing an invalid character.
#[test]
fn query_build_err_invalid_char() {
    Query::build("00 11+22").unwrap_err();
}

/// Tests building query with query string containing an unterminated byte.
#[test]
fn query_build_err_unterminated_byte() {
    Query::build("00 11 2").unwrap_err();
}

/// Tests building query with query string containing more than one anchor.
#[test]
fn query_build_err_multiple_anchor() {
    Query::build("00|11|22").unwrap_err();
}

/// Tests building query with query string containing an anchor in the
/// middle of a byte.
#[test]
fn query_build_err_anchor_mid_byte() {
    Query::build("00 1|1 22").unwrap_err();
}

/// Helper function for executing a query on data, reading the region as
/// based at address zero so reported addresses are offsets into it.
fn query_execute_helper(what: &str, data: &[u8], expected: &[usize]) {
    let query = Query::build(what).unwrap();
    let matches = query.find_matches_in(data, 0);
    assert_eq!(matches, expected.to_vec());
}

/// Helper function for searching data.
fn find_in_execute_helper(what: &str, data: &[u8], expected: Result<&[usize], ()>) {
    match find_in(what, data, 0) {
        Ok(matches) => assert_eq!(matches, expected.unwrap().to_vec()),
        Err(_) => assert!(expected.is_err()),
    }
}

/// Helper function for searching data and returning the first n results.
fn find_n_in_execute_helper(what: &str, data: &[u8], n: usize, expected: Result<&[usize], ()>) {
    match find_n_in(what, data, 0, n) {
        Ok(matches) => assert_eq!(matches, expected.unwrap().to_vec()),
        Err(_) => assert!(expected.is_err()),
    }
}

/// Tests executing query on block of memory, yielding 1 match.
#[test]
fn query_execute_ok_simple() {
    query_execute_helper("12 34", &[0x12, 0x34], &[0]);
}

/// Tests executing query on too small block of memory, yielding 0 matches.
#[test]
fn query_execute_ok_too_small() {
    query_execute_helper("34 56", &[0x12], &[]);
}

/// Tests executing query on block of memory, yielding more than 1 match.
#[test]
fn query_execute_ok_multiple() {
    query_execute_helper("34 56", &[0x12, 0x34, 0x56, 0x78, 0x12, 0x34, 0x56, 0x78], &[1, 5]);
}

/// Tests executing query on block of memory, yielding overlapping matches.
#[test]
fn query_execute_ok_overlapping() {
    query_execute_helper("xx 34", &[0x12, 0x34, 0x34, 0x56], &[0, 1]);
}

/// Tests executing query on block of memory, yielding all addresses.
#[test]
fn query_execute_ok_all() {
    query_execute_helper("xx", &[0x12, 0x34, 0x56, 0x78], &[0, 1, 2, 3]);
}

/// Test executing query with on block of memory with masking.
#[test]
fn query_execute_ok_masked() {
    query_execute_helper("34 xx 78", &[0x12, 0x34, 0x56, 0x78], &[1]);
}

/// Test executing query with on block of memory with masking.
#[test]
fn query_execute_ok_anchor() {
    query_execute_helper("34|56", &[0x12, 0x34, 0x56, 0x78], &[2]);
}

/// Test finding without building a query first.
#[test]
fn find_in_ok() {
    find_in_execute_helper("34 56", &[0x12, 0x34, 0x56, 0x78], Ok(&[1]));
}

/// Test finding with an invalid query string.
#[test]
fn find_in_err() {
    find_in_execute_helper("34 5", &[0x12, 0x34, 0x56, 0x78], Err(()));
}

/// Test finding the first n results.
#[test]
fn find_n_in_ok() {
    find_n_in_execute_helper("34", &[0x12, 0x34, 0x34, 0x34], 2, Ok(&[1, 2]));
}

/// Test finding the first n results with an invalid query string
#[test]
fn find_n_in_err() {
    find_n_in_execute_helper("34 5", &[0x12, 0x34, 0x34, 0x34], 2, Err(()));
}
