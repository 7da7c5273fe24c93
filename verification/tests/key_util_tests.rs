//! Tests for the raw-key utilities.

use fdb_tuple::error::{FdbError, TUPLE_KEY_UTIL_STRINC_ERROR};
use fdb_tuple::key_util::{key_after, starts_with, strinc};

#[test]
fn test_key_after() {
    assert_eq!(key_after(Vec::new()), b"\x00".to_vec());
    assert_eq!(
        key_after(b"hello_world".to_vec()),
        b"hello_world\x00".to_vec(),
    );
}

#[test]
fn test_starts_with() {
    // length mismatch
    assert!(!starts_with(&b"p".to_vec(), &b"prefix".to_vec()));

    assert!(!starts_with(&b"wrong_prefix".to_vec(), &b"prefix".to_vec()));

    assert!(starts_with(
        &b"prefix_plus_something_else".to_vec(),
        &b"prefix".to_vec()
    ));
}

#[test]
fn test_strinc() {
    assert_eq!(
        strinc(Vec::new()),
        Err(FdbError::new(TUPLE_KEY_UTIL_STRINC_ERROR))
    );
    assert_eq!(
        strinc(b"\xFF".to_vec()),
        Err(FdbError::new(TUPLE_KEY_UTIL_STRINC_ERROR))
    );
    assert_eq!(
        strinc(b"\xFF\xFF".to_vec()),
        Err(FdbError::new(TUPLE_KEY_UTIL_STRINC_ERROR))
    );
    assert_eq!(strinc(b"\x00".to_vec()), Ok(b"\x01".to_vec()));
    assert_eq!(strinc(b"\xFE".to_vec()), Ok(b"\xFF".to_vec()));
    assert_eq!(strinc(b"a\xFF".to_vec()), Ok(b"b".to_vec()));
    assert_eq!(strinc(b"hello1".to_vec()), Ok(b"hello2".to_vec()));
    assert_eq!(strinc(b"hello1\xFF".to_vec()), Ok(b"hello2".to_vec()));
    assert_eq!(strinc(b"hello1\xFF\xFF".to_vec()), Ok(b"hello2".to_vec()));
}
