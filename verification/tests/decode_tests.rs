//! Byte-exact decoding tests across every element kind, adapted from the
//! packing vectors.

use fdb_tuple::bigint::BigInt;
use fdb_tuple::error::{FdbError, TUPLE_FROM_BYTES};
use fdb_tuple::tuple::Tuple;
use fdb_tuple::uuid::Uuid;
use fdb_tuple::versionstamp::Versionstamp;

fn bi(negative: bool, magnitude: &[u8]) -> BigInt {
    BigInt::from_sign_magnitude(negative, magnitude.to_vec())
}

#[test]
fn test_tuple() {
    assert_eq!(
        Tuple::from_bytes(b"\x00moredata".to_vec()),
        Err(FdbError::new(TUPLE_FROM_BYTES))
    );
    assert_eq!(
        Tuple::from_bytes(b"no_tuple".to_vec()),
        Err(FdbError::new(TUPLE_FROM_BYTES))
    );
    assert_eq!(Tuple::from_bytes(Vec::new()), Ok(Tuple::new()));
    assert_eq!(
        Tuple::from_bytes(b"\x14".to_vec()),
        Ok({
            let mut t = Tuple::new();
            t.add_i64(0);
            t
        })
    );
    assert_eq!(
        Tuple::from_bytes(b"\x14".to_vec()),
        Ok({
            let mut t = Tuple::new();
            t.add_bigint(bi(false, &[]));
            t
        })
    );
    assert_eq!(
        Tuple::from_bytes(b"\x15\x01".to_vec()),
        Ok({
            let mut t = Tuple::new();
            t.add_i64(1);
            t
        })
    );
    assert_eq!(
        Tuple::from_bytes(b"\x13\xFE".to_vec()),
        Ok({
            let mut t = Tuple::new();
            t.add_i64(-1);
            t
        })
    );
    assert_eq!(
        Tuple::from_bytes(b"\x15\xFF".to_vec()),
        Ok({
            let mut t = Tuple::new();
            t.add_i64(255);
            t
        })
    );
    assert_eq!(
        Tuple::from_bytes(b"\x13\x00".to_vec()),
        Ok({
            let mut t = Tuple::new();
            t.add_i64(-255);
            t
        })
    );
    assert_eq!(
        Tuple::from_bytes(b"\x16\x01\x00".to_vec()),
        Ok({
            let mut t = Tuple::new();
            t.add_i64(256);
            t
        })
    );
    assert_eq!(
        Tuple::from_bytes(b"\x17\x01\x00\x00".to_vec()),
        Ok({
            let mut t = Tuple::new();
            t.add_i32(65536);
            t
        })
    );
    assert_eq!(
        Tuple::from_bytes(b"\x11\xFE\xFF\xFF".to_vec()),
        Ok({
            let mut t = Tuple::new();
            t.add_i32(-65536);
            t
        })
    );
    assert_eq!(
        Tuple::from_bytes(b"\x1C\x7F\xFF\xFF\xFF\xFF\xFF\xFF\xFF".to_vec()),
        Ok({
            let mut t = Tuple::new();
            t.add_i64(i64::MAX);
            t
        })
    );
    assert_eq!(
        Tuple::from_bytes(b"\x1C\x80\x00\x00\x00\x00\x00\x00\x00".to_vec()),
        Ok({
            let mut t = Tuple::new();
            t.add_bigint(bi(false, &[0x80, 0, 0, 0, 0, 0, 0, 0]));
            t
        })
    );
    assert_eq!(
        Tuple::from_bytes(b"\x1C\xFF\xFF\xFF\xFF\xFF\xFF\xFF\xFF".to_vec()),
        Ok({
            let mut t = Tuple::new();
            t.add_bigint(bi(false, &[0xFF; 8]));
            t
        })
    );
    assert_eq!(
        Tuple::from_bytes(b"\x1D\x09\x01\x00\x00\x00\x00\x00\x00\x00\x00".to_vec()),
        Ok({
            let mut t = Tuple::new();
            t.add_bigint(bi(false, &[0x01, 0, 0, 0, 0, 0, 0, 0, 0]));
            t
        })
    );
    assert_eq!(
        Tuple::from_bytes(b"\x10\x00\x00\x00\x00".to_vec()),
        Ok({
            let mut t = Tuple::new();
            t.add_i64(-4294967295);
            t
        })
    );
    assert_eq!(
        Tuple::from_bytes(b"\x0C\x80\x00\x00\x00\x00\x00\x00\x01".to_vec()),
        Ok({
            let mut t = Tuple::new();
            t.add_i64(i64::MIN + 2);
            t
        })
    );
    assert_eq!(
        Tuple::from_bytes(b"\x0C\x80\x00\x00\x00\x00\x00\x00\x00".to_vec()),
        Ok({
            let mut t = Tuple::new();
            t.add_i64(i64::MIN + 1);
            t
        })
    );
    assert_eq!(
        Tuple::from_bytes(b"\x0C\x7F\xFF\xFF\xFF\xFF\xFF\xFF\xFF".to_vec()),
        Ok({
            let mut t = Tuple::new();
            t.add_i64(i64::MIN);
            t
        })
    );
    assert_eq!(
        Tuple::from_bytes(b"\x0C\x7F\xFF\xFF\xFF\xFF\xFF\xFF\xFE".to_vec()),
        Ok({
            let mut t = Tuple::new();
            // i64::MIN - 1
            t.add_bigint(bi(true, &[0x80, 0, 0, 0, 0, 0, 0, 0x01]));
            t
        })
    );
    assert_eq!(
        Tuple::from_bytes(b"\x0C\x00\x00\x00\x00\x00\x00\x00\x00".to_vec()),
        Ok({
            let mut t = Tuple::new();
            t.add_bigint(bi(true, &[0xFF; 8]));
            t
        })
    );
    assert_eq!(
        Tuple::from_bytes(b"\x20\xC0\x48\xF5\xC3".to_vec()),
        Ok({
            let mut t = Tuple::new();
            t.add_f32((3.14f32).to_bits());
            t
        })
    );
    assert_eq!(
        Tuple::from_bytes(b"\x20\x3F\xB7\x0A\x3C".to_vec()),
        Ok({
            let mut t = Tuple::new();
            t.add_f32((-3.14f32).to_bits());
            t
        })
    );
    assert_eq!(
        Tuple::from_bytes(b"\x21\xC0\x09\x1E\xB8\x51\xEB\x85\x1F".to_vec()),
        Ok({
            let mut t = Tuple::new();
            t.add_f64((3.14f64).to_bits());
            t
        })
    );
    assert_eq!(
        Tuple::from_bytes(b"\x21\x3F\xF6\xE1\x47\xAE\x14\x7A\xE0".to_vec()),
        Ok({
            let mut t = Tuple::new();
            t.add_f64((-3.14f64).to_bits());
            t
        })
    );
    assert_eq!(
        Tuple::from_bytes(b"\x20\x80\x00\x00\x00".to_vec()),
        Ok({
            let mut t = Tuple::new();
            t.add_f32((0.0f32).to_bits());
            t
        })
    );
    assert_eq!(
        Tuple::from_bytes(b"\x20\x7F\xFF\xFF\xFF".to_vec()),
        Ok({
            let mut t = Tuple::new();
            t.add_f32((-0.0f32).to_bits());
            t
        })
    );
    assert_eq!(
        Tuple::from_bytes(b"\x21\x80\x00\x00\x00\x00\x00\x00\x00".to_vec()),
        Ok({
            let mut t = Tuple::new();
            t.add_f64((0.0f64).to_bits());
            t
        })
    );
    assert_eq!(
        Tuple::from_bytes(b"\x21\x7F\xFF\xFF\xFF\xFF\xFF\xFF\xFF".to_vec()),
        Ok({
            let mut t = Tuple::new();
            t.add_f64((-0.0f64).to_bits());
            t
        })
    );
    assert_eq!(
        Tuple::from_bytes(b"\x20\xFF\x80\x00\x00".to_vec()),
        Ok({
            let mut t = Tuple::new();
            t.add_f32(f32::INFINITY.to_bits());
            t
        })
    );
    assert_eq!(
        Tuple::from_bytes(b"\x20\x00\x7F\xFF\xFF".to_vec()),
        Ok({
            let mut t = Tuple::new();
            t.add_f32(f32::NEG_INFINITY.to_bits());
            t
        })
    );
    assert_eq!(
        Tuple::from_bytes(b"\x21\xFF\xF0\x00\x00\x00\x00\x00\x00".to_vec()),
        Ok({
            let mut t = Tuple::new();
            t.add_f64(f64::INFINITY.to_bits());
            t
        })
    );
    assert_eq!(
        Tuple::from_bytes(b"\x21\x00\x0F\xFF\xFF\xFF\xFF\xFF\xFF".to_vec()),
        Ok({
            let mut t = Tuple::new();
            t.add_f64(f64::NEG_INFINITY.to_bits());
            t
        })
    );
    assert_eq!(
        Tuple::from_bytes(b"\x01\x00".to_vec()),
        Ok({
            let mut t = Tuple::new();
            t.add_bytes(Vec::new());
            t
        })
    );
    assert_eq!(
        Tuple::from_bytes(b"\x01\x01\x02\x03\x00".to_vec()),
        Ok({
            let mut t = Tuple::new();
            t.add_bytes(b"\x01\x02\x03".to_vec());
            t
        })
    );
    assert_eq!(
        Tuple::from_bytes(b"\x01\x00\xFF\x00\xFF\x00\xFF\x04\x00".to_vec()),
        Ok({
            let mut t = Tuple::new();
            t.add_bytes(b"\x00\x00\x00\x04".to_vec());
            t
        })
    );
    assert_eq!(
        Tuple::from_bytes(b"\x02\x00".to_vec()),
        Ok({
            let mut t = Tuple::new();
            t.add_string("".to_string());
            t
        })
    );
    assert_eq!(
        Tuple::from_bytes(b"\x02hello\x00".to_vec()),
        Ok({
            let mut t = Tuple::new();
            t.add_string("hello".to_string());
            t
        })
    );
    assert_eq!(
        Tuple::from_bytes(b"\x02\xE4\xB8\xAD\xE6\x96\x87\x00".to_vec()),
        Ok({
            let mut t = Tuple::new();
            t.add_string("中文".to_string());
            t
        })
    );
    assert_eq!(
        Tuple::from_bytes(b"\x02\xCE\xBC\xCE\xAC\xCE\xB8\xCE\xB7\xCE\xBC\xCE\xB1\x00".to_vec()),
        Ok({
            let mut t = Tuple::new();
            t.add_string("μάθημα".to_string());
            t
        })
    );
    assert_eq!(
        Tuple::from_bytes(b"\x02\xF4\x8F\xBF\xBF\x00".to_vec()),
        Ok({
            let mut t = Tuple::new();
            t.add_string("\u{10ffff}".to_string());
            t
        })
    );
    assert_eq!(
        Tuple::from_bytes(b"\x05\x00\xFF\x00".to_vec()),
        Ok({
            let mut t = Tuple::new();
            t.add_tuple({
                let mut t1 = Tuple::new();
                t1.add_null();
                t1
            });
            t
        })
    );
    assert_eq!(
        Tuple::from_bytes(b"\x05\x00\xFF\x02hello\x00\x00".to_vec()),
        Ok({
            let mut t = Tuple::new();
            t.add_tuple({
                let mut t1 = Tuple::new();
                t1.add_null();
                t1.add_string("hello".to_string());
                t1
            });
            t
        })
    );
    assert_eq!(
        Tuple::from_bytes(b"\x05\x00\xFF\x02hell\x00\xFF\x00\x00".to_vec()),
        Ok({
            let mut t = Tuple::new();
            t.add_tuple({
                let mut t1 = Tuple::new();
                t1.add_null();
                t1.add_string("hell\x00".to_string());
                t1
            });
            t
        })
    );
    assert_eq!(
        Tuple::from_bytes(b"\x05\x00\xFF\x00\x02hello\x00".to_vec()),
        Ok({
            let mut t = Tuple::new();
            t.add_tuple({
                let mut t1 = Tuple::new();
                t1.add_null();
                t1
            });
            t.add_string("hello".to_string());
            t
        })
    );
    assert_eq!(
        Tuple::from_bytes(b"\x05\x00\xFF\x00\x02hello\x00\x01\x01\x00\xFF\x00\x01\x00".to_vec()),
        Ok({
            let mut t = Tuple::new();
            t.add_tuple({
                let mut t1 = Tuple::new();
                t1.add_null();
                t1
            });
            t.add_string("hello".to_string());
            t.add_bytes(b"\x01\x00".to_vec());
            t.add_bytes(Vec::new());
            t
        })
    );
    assert_eq!(
        Tuple::from_bytes(
            b"\x30\xFF\xFF\xFF\xFF\xBA\x5E\xBA\x11\x00\x00\x00\x00\x5C\xA1\xAB\x1E".to_vec()
        ),
        Ok({
            let mut t = Tuple::new();
            t.add_uuid(Uuid::from_bytes(
                b"\xFF\xFF\xFF\xFF\xBA\x5E\xBA\x11\x00\x00\x00\x00\x5C\xA1\xAB\x1E".to_vec(),
            ));
            t
        })
    );
    assert_eq!(
        Tuple::from_bytes(b"\x26".to_vec()),
        Ok({
            let mut t = Tuple::new();
            t.add_bool(false);
            t
        })
    );
    assert_eq!(
        Tuple::from_bytes(b"\x27".to_vec()),
        Ok({
            let mut t = Tuple::new();
            t.add_bool(true);
            t
        })
    );
    assert_eq!(
        Tuple::from_bytes(b"\x15\x03".to_vec()),
        Ok({
            let mut t = Tuple::new();
            t.add_i8(3);
            t
        })
    );
    assert_eq!(
        Tuple::from_bytes(b"\x33\xAA\xBB\xCC\xDD\xEE\xFF\x00\x01\x02\x03\x00\x00".to_vec()),
        Ok({
            let mut t = Tuple::new();
            t.add_versionstamp(Versionstamp::complete(
                b"\xAA\xBB\xCC\xDD\xEE\xFF\x00\x01\x02\x03".to_vec(),
                0,
            ));
            t
        })
    );
    assert_eq!(
        Tuple::from_bytes(b"\x33\x01\x02\x03\x04\x05\x06\x07\x08\x09\x0A\x02\x91".to_vec()),
        Ok({
            let mut t = Tuple::new();
            t.add_versionstamp(Versionstamp::complete(
                b"\x01\x02\x03\x04\x05\x06\x07\x08\x09\x0A".to_vec(),
                657,
            ));
            t
        })
    );
}
