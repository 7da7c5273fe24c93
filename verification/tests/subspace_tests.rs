//! Tests for subspaces.

use fdb_tuple::error::{
    FdbError, SUBSPACE_PACK_WITH_VERSIONSTAMP_PREFIX_INCOMPLETE, SUBSPACE_UNPACK_KEY_MISMATCH,
    TUPLE_PACK_WITH_VERSIONSTAMP_MULTIPLE_FOUND,
};
use fdb_tuple::range::Range;
use fdb_tuple::subspace::Subspace;
use fdb_tuple::tuple::Tuple;
use fdb_tuple::versionstamp::Versionstamp;

#[test]
fn new() {
    let s = Subspace::new(b"prefix".to_vec());
    assert!(!s.raw_prefix_has_incomplete_versionstamp && s.raw_prefix == b"prefix".to_vec());
}

#[test]
fn subspace() {
    let mut t = Tuple::new();
    t.add_string("hello".to_string());

    let s = Subspace::new(Vec::new()).subspace(&t);

    assert!(!s.raw_prefix_has_incomplete_versionstamp && s.raw_prefix == t.pack());

    let mut t = Tuple::new();
    t.add_versionstamp(Versionstamp::incomplete(0));

    let s = Subspace::new(Vec::new()).subspace(&t);

    assert!(s.raw_prefix_has_incomplete_versionstamp && s.raw_prefix == t.pack());
}

#[test]
fn contains() {
    let s = Subspace::new(b"prefix".to_vec());

    let mut t = Tuple::new();

    // length mismatch
    assert!(!s.contains(&Subspace::new(b"p".to_vec()).subspace(&t).pack()));

    t.add_string("hello".to_string());

    assert!(!s.contains(&Subspace::new(b"wrong_prefix".to_vec()).subspace(&t).pack()));

    // While this returns `true`, doing something like this will
    // cause `unpack()` to fail.
    assert!(s.contains(&Subspace::new(b"prefix_plus_garbage".to_vec()).subspace(&t).pack()));

    assert!(s.contains(&Subspace::new(b"prefix".to_vec()).subspace(&t).pack()));
}

#[test]
fn subspace_pack() {
    let mut t = Tuple::new();
    t.add_string("hello".to_string());

    let s = Subspace::new(b"prefix".to_vec());

    assert_eq!(s.subspace(&t).pack(), {
        let mut b = b"prefix".to_vec();
        b.extend_from_slice(&t.pack());
        b
    });
}

#[test]
fn subspace_pack_with_versionstamp() {
    let mut t = Tuple::new();
    t.add_versionstamp(Versionstamp::incomplete(0));

    let s = Subspace::new(Vec::new()).subspace(&t);

    assert_eq!(
        s.pack_with_versionstamp(&{
            let mut t1 = Tuple::new();
            t1.add_string("hello".to_string());
            t1
        }),
        Err(FdbError::new(
            SUBSPACE_PACK_WITH_VERSIONSTAMP_PREFIX_INCOMPLETE
        ))
    );

    let mut t = Tuple::new();
    t.add_string("foo".to_string());
    t.add_versionstamp(Versionstamp::incomplete(0));

    let s = Subspace::new(b"prefix".to_vec());

    assert_eq!(
        s.pack_with_versionstamp(&t),
        t.pack_with_versionstamp(b"prefix".to_vec())
    );

    let mut t = Tuple::new();
    t.add_null();
    t.add_versionstamp(Versionstamp::incomplete(0));
    t.add_tuple({
        let mut t1 = Tuple::new();
        t1.add_string("foo".to_string());
        t1.add_versionstamp(Versionstamp::incomplete(1));
        t1
    });

    assert_eq!(
        s.pack_with_versionstamp(&t),
        Err(FdbError::new(TUPLE_PACK_WITH_VERSIONSTAMP_MULTIPLE_FOUND))
    );
}

#[test]
fn subspace_range() {
    let s = Subspace::new(b"prefix".to_vec());

    assert_eq!(
        s.range(&{
            let mut t = Tuple::new();
            t.add_bytes(b"foo".to_vec());
            t
        }),
        Range::new(
            b"prefix\x01foo\x00\x00".to_vec(),
            b"prefix\x01foo\x00\xFF".to_vec()
        )
    );
}

#[test]
fn unpack() {
    let s = Subspace::new(b"prefix".to_vec());

    let key = Subspace::new(b"wrong_prefix".to_vec())
        .subspace(&{
            let mut t = Tuple::new();
            t.add_string("hello".to_string());
            t
        })
        .pack();

    assert_eq!(
        s.unpack(&key),
        Err(FdbError::new(SUBSPACE_UNPACK_KEY_MISMATCH))
    );

    let key = Subspace::new(b"prefix".to_vec())
        .subspace(&{
            let mut t = Tuple::new();
            t.add_string("hello".to_string());
            t
        })
        .pack();

    assert_eq!(s.unpack(&key), Ok({
        let mut t = Tuple::new();
        t.add_string("hello".to_string());
        t
    }));
}
