//! Behavioural tests: round trips, order preservation, null escaping,
//! versionstamp cardinality, successor boundaries, and the fixed vectors of
//! the wire format.

use fdb_tuple::bigint::BigInt;
use fdb_tuple::element::TupleValue;
use fdb_tuple::error::{
    FdbError, TUPLE_PACK_WITH_VERSIONSTAMP_MULTIPLE_FOUND, TUPLE_PACK_WITH_VERSIONSTAMP_NOT_FOUND,
};
use fdb_tuple::key_util::strinc;
use fdb_tuple::tuple::Tuple;
use fdb_tuple::uuid::Uuid;
use fdb_tuple::versionstamp::Versionstamp;

fn mixed_tuple() -> Tuple {
    let mut t = Tuple::new();
    t.add_null();
    t.add_bytes(b"some\x00bytes".to_vec());
    t.add_string("text with \u{0} and \u{10ffff}".to_string());
    t.add_i64(-4294967295);
    t.add_i64(72057594037927936);
    t.add_bigint(BigInt::from_sign_magnitude(
        true,
        vec![0x01, 0, 0, 0, 0, 0, 0, 0, 0],
    ));
    t.add_f32((-3.14f32).to_bits());
    t.add_f64((0.0f64).to_bits());
    t.add_bool(true);
    t.add_uuid(Uuid::from_bytes(
        b"\xFF\xFF\xFF\xFF\xBA\x5E\xBA\x11\x00\x00\x00\x00\x5C\xA1\xAB\x1E".to_vec(),
    ));
    t.add_versionstamp(Versionstamp::complete(
        b"\x01\x02\x03\x04\x05\x06\x07\x08\x09\x0A".to_vec(),
        657,
    ));
    t.add_tuple({
        let mut inner = Tuple::new();
        inner.add_null();
        inner.add_string("nested".to_string());
        inner.add_i64(42);
        inner
    });
    t
}

#[test]
fn round_trip_mixed_tuple() {
    let t = mixed_tuple();
    let packed = t.pack();
    let decoded = Tuple::from_bytes(packed.clone()).unwrap();
    assert_eq!(decoded, t);
    assert_eq!(decoded.elements, t.elements);
    // and the decoded tuple packs back to the same bytes
    assert_eq!(decoded.pack(), packed);
}

#[test]
fn round_trip_empty_tuple() {
    let t = Tuple::new();
    assert_eq!(Tuple::from_bytes(t.pack()), Ok(Tuple::new()));
}

#[test]
fn null_escaping_round_trip() {
    // embedded 0x00 bytes, including 0x00 followed by 0xFF in the input
    let tricky: Vec<u8> = b"\x00\xFF\x00\x00\xFFa\x00".to_vec();
    let mut t = Tuple::new();
    t.add_bytes(tricky.clone());
    let packed = t.pack();
    let decoded = Tuple::from_bytes(packed).unwrap();
    assert_eq!(decoded.get_bytes_ref(0).unwrap(), &tricky);

    let only_nulls: Vec<u8> = b"\x00\x00\x00".to_vec();
    let mut t = Tuple::new();
    t.add_bytes(only_nulls.clone());
    let decoded = Tuple::from_bytes(t.pack()).unwrap();
    assert_eq!(decoded.get_bytes_ref(0).unwrap(), &only_nulls);
}

fn packed_i64(i: i64) -> Vec<u8> {
    let mut t = Tuple::new();
    t.add_i64(i);
    t.pack()
}

#[test]
fn order_preservation_integers() {
    // mixed signs and widths, in increasing semantic order
    let values: Vec<i64> = vec![
        i64::MIN,
        -72057594037927936,
        -4294967296,
        -65536,
        -256,
        -255,
        -2,
        -1,
        0,
        1,
        2,
        255,
        256,
        65535,
        65536,
        4294967296,
        72057594037927936,
        i64::MAX,
    ];
    let mut i: usize = 0;
    while i + 1 < values.len() {
        assert!(packed_i64(values[i]) < packed_i64(values[i + 1]));
        i += 1;
    }
}

#[test]
fn order_preservation_equal_magnitude_widths() {
    // the same value encodes to the same bytes whatever width it arrived in
    let mut a = Tuple::new();
    a.add_i8(5);
    let mut b = Tuple::new();
    b.add_i16(5);
    let mut c = Tuple::new();
    c.add_i32(5);
    let mut d = Tuple::new();
    d.add_i64(5);
    let mut e = Tuple::new();
    e.add_bigint(BigInt::from_sign_u64(false, 5));
    assert_eq!(a.pack(), b.pack());
    assert_eq!(b.pack(), c.pack());
    assert_eq!(c.pack(), d.pack());
    assert_eq!(d.pack(), e.pack());
    assert_eq!(a, d);
}

fn packed_f32(f: f32) -> Vec<u8> {
    let mut t = Tuple::new();
    t.add_f32(f.to_bits());
    t.pack()
}

fn packed_f64(f: f64) -> Vec<u8> {
    let mut t = Tuple::new();
    t.add_f64(f.to_bits());
    t.pack()
}

#[test]
fn order_preservation_floats() {
    let values: Vec<f32> = vec![
        f32::NEG_INFINITY,
        -3.14f32,
        -1.0f32,
        -0.0f32,
        0.0f32,
        1.0f32,
        3.14f32,
        f32::INFINITY,
    ];
    let mut i: usize = 0;
    while i + 1 < values.len() {
        assert!(packed_f32(values[i]) < packed_f32(values[i + 1]));
        i += 1;
    }

    let values: Vec<f64> = vec![
        f64::NEG_INFINITY,
        -3.14f64,
        -1.0f64,
        -0.0f64,
        0.0f64,
        1.0f64,
        3.14f64,
        f64::INFINITY,
    ];
    let mut i: usize = 0;
    while i + 1 < values.len() {
        assert!(packed_f64(values[i]) < packed_f64(values[i + 1]));
        i += 1;
    }
}

#[test]
fn order_preservation_tuples() {
    // element-wise tuple order across kinds and lengths
    let mut a = Tuple::new();
    a.add_string("apple".to_string());
    a.add_i64(-1);
    let mut b = Tuple::new();
    b.add_string("apple".to_string());
    b.add_i64(1);
    let mut c = Tuple::new();
    c.add_string("banana".to_string());
    let mut d = Tuple::new();
    d.add_string("banana".to_string());
    d.add_null();

    assert!(a.pack() < b.pack());
    assert!(b.pack() < c.pack());
    assert!(c.pack() < d.pack());
    assert!(a < b && b < c && c < d);
    assert!(a == a && !(a == b));
}

#[test]
fn versionstamp_cardinality() {
    // zero unresolved versionstamps: not found
    let mut t = Tuple::new();
    t.add_string("foo".to_string());
    t.add_versionstamp(Versionstamp::complete(
        b"\x01\x02\x03\x04\x05\x06\x07\x08\x09\x0A".to_vec(),
        0,
    ));
    assert_eq!(
        t.pack_with_versionstamp(Vec::new()),
        Err(FdbError::new(TUPLE_PACK_WITH_VERSIONSTAMP_NOT_FOUND))
    );

    // exactly one, two levels deep: the offset points at the transaction
    // version, relative to the prefix
    let mut t = Tuple::new();
    t.add_string("foo".to_string());
    t.add_tuple({
        let mut inner = Tuple::new();
        inner.add_tuple({
            let mut inner2 = Tuple::new();
            inner2.add_versionstamp(Versionstamp::incomplete(9));
            inner2
        });
        inner
    });
    let prefix = b"pre".to_vec();
    let packed = t.pack_with_versionstamp(prefix.clone()).unwrap();
    let trailer = &packed[packed.len() - 4..];
    let offset =
        u32::from_le_bytes([trailer[0], trailer[1], trailer[2], trailer[3]]) as usize;
    // the ten bytes at the offset are the unresolved transaction version
    assert_eq!(&packed[offset..offset + 10], &[0xFF; 10]);
    // and they sit inside the versionstamp element, after its type code
    assert_eq!(packed[offset - 1], 0x33);

    // two unresolved versionstamps: multiple found
    let mut t = Tuple::new();
    t.add_versionstamp(Versionstamp::incomplete(0));
    t.add_tuple({
        let mut inner = Tuple::new();
        inner.add_versionstamp(Versionstamp::incomplete(1));
        inner
    });
    assert_eq!(
        t.pack_with_versionstamp(Vec::new()),
        Err(FdbError::new(TUPLE_PACK_WITH_VERSIONSTAMP_MULTIPLE_FOUND))
    );
}

#[test]
fn concrete_vectors() {
    assert_eq!(packed_i64(0), b"\x14".to_vec());
    assert_eq!(packed_i64(1), b"\x15\x01".to_vec());
    assert_eq!(packed_i64(-1), b"\x13\xFE".to_vec());
    assert_eq!(packed_i64(256), b"\x16\x01\x00".to_vec());
    let mut t = Tuple::new();
    t.add_string("hello".to_string());
    assert_eq!(t.pack(), b"\x02hello\x00".to_vec());
    let mut t = Tuple::new();
    t.add_uuid(Uuid::from_bytes(
        b"\xFF\xFF\xFF\xFF\xBA\x5E\xBA\x11\x00\x00\x00\x00\x5C\xA1\xAB\x1E".to_vec(),
    ));
    assert_eq!(
        t.pack(),
        b"\x30\xFF\xFF\xFF\xFF\xBA\x5E\xBA\x11\x00\x00\x00\x00\x5C\xA1\xAB\x1E".to_vec()
    );
    let mut t = Tuple::new();
    t.add_versionstamp(Versionstamp::complete(
        b"\x01\x02\x03\x04\x05\x06\x07\x08\x09\x0A".to_vec(),
        657,
    ));
    assert_eq!(
        t.pack(),
        b"\x33\x01\x02\x03\x04\x05\x06\x07\x08\x09\x0A\x02\x91".to_vec()
    );
}

#[test]
fn decode_rejects_malformed() {
    // unknown type code
    assert!(Tuple::from_bytes(b"\x34".to_vec()).is_err());
    // truncated fixed payload
    assert!(Tuple::from_bytes(b"\x16\x01".to_vec()).is_err());
    // unterminated string
    assert!(Tuple::from_bytes(b"\x02hello".to_vec()).is_err());
    // unterminated nested tuple
    assert!(Tuple::from_bytes(b"\x05\x00\xFF".to_vec()).is_err());
    // invalid UTF-8 in a text element
    assert!(Tuple::from_bytes(b"\x02\xC3\x28\x00".to_vec()).is_err());
    // a valid UTF-8 text element really decodes to its characters, so the
    // text is carried through, not handed back as raw bytes
    let decoded = Tuple::from_bytes(b"\x02\xE4\xB8\xAD\xE6\x96\x87\x00".to_vec()).unwrap();
    assert_eq!(decoded.get_string_ref(0).unwrap(), "中文");
}

#[test]
fn strinc_boundaries() {
    assert!(strinc(Vec::new()).is_err());
    assert!(strinc(b"\xFF".to_vec()).is_err());
    assert!(strinc(b"\xFF\xFF".to_vec()).is_err());
    assert_eq!(strinc(b"a\xFF".to_vec()).unwrap(), b"b".to_vec());
    assert_eq!(strinc(b"hello1".to_vec()).unwrap(), b"hello2".to_vec());
}

#[test]
fn versionstamp_wire_approximation() {
    // a resolved versionstamp whose transaction version happens to be all
    // 0xFF is reconstructed from its bytes as unresolved
    let vs = Versionstamp::complete(vec![0xFF; 10], 3);
    assert!(vs.is_complete());
    let back = Versionstamp::from_bytes(vs.get_bytes());
    assert!(!back.is_complete());
}

#[test]
fn decode_keeps_arrival_buckets() {
    // zero carried in the one-byte positive bucket: recognized code, full
    // payload, so it decodes, keeps its bucket, and re-encodes byte-for-byte
    let t = Tuple::from_bytes(b"\x15\x00".to_vec()).unwrap();
    assert_eq!(t.elements, vec![TupleValue::PosInt1(0)]);
    assert_eq!(t.pack(), b"\x15\x00".to_vec());
    assert_eq!(t.get_i64(0), Ok(0));
    assert_eq!(t.get_i8(0), Ok(0));

    // one carried in the five-byte bucket
    let t = Tuple::from_bytes(b"\x19\x00\x00\x00\x00\x01".to_vec()).unwrap();
    assert_eq!(t.elements, vec![TupleValue::PosInt5(1)]);
    assert_eq!(t.pack(), b"\x19\x00\x00\x00\x00\x01".to_vec());
    assert_eq!(t.get_i64(0), Ok(1));
    assert_eq!(t.get_i16(0), Ok(1));

    // a short arbitrary-precision payload with a leading zero
    let t = Tuple::from_bytes(b"\x1D\x02\x00\x05".to_vec()).unwrap();
    assert_eq!(
        t.elements,
        vec![TupleValue::PositiveArbitraryPrecisionInteger(vec![0, 5])]
    );
    assert_eq!(t.pack(), b"\x1D\x02\x00\x05".to_vec());
    assert_eq!(t.get_i64(0), Ok(5));
    assert_eq!(t.get_bigint(0).unwrap(), BigInt::from_sign_u64(false, 5));

    // zero carried as the complement-encoded eight-byte negative bucket
    let t = Tuple::from_bytes(b"\x0C\xFF\xFF\xFF\xFF\xFF\xFF\xFF\xFF".to_vec()).unwrap();
    assert_eq!(t.elements, vec![TupleValue::NegInt8(0)]);
    assert_eq!(t.pack(), b"\x0C\xFF\xFF\xFF\xFF\xFF\xFF\xFF\xFF".to_vec());
    assert_eq!(t.get_i64(0), Ok(0));

    // inside a nested tuple too
    let t = Tuple::from_bytes(b"\x05\x15\x00\x00".to_vec()).unwrap();
    let inner = t.get_tuple_ref(0).unwrap();
    assert_eq!(inner.elements, vec![TupleValue::PosInt1(0)]);
    assert_eq!(t.pack(), b"\x05\x15\x00\x00".to_vec());
}
