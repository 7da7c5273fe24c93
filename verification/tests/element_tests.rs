//! Byte-exact tests for each element kind, in both directions: encoding a
//! stored element and decoding it back from a stream with trailing data.

use fdb_tuple::decoder::decode_element;
use fdb_tuple::element::TupleValue;
use fdb_tuple::encoder::encode_element;
use fdb_tuple::error::{FdbError, TUPLE_FROM_BYTES};
use fdb_tuple::locator::{query_incomplete, IncompleteQuery};
use fdb_tuple::tuple::Tuple;
use fdb_tuple::uuid::Uuid;
use fdb_tuple::versionstamp::Versionstamp;

fn decode_err() -> FdbError {
    FdbError::new(TUPLE_FROM_BYTES)
}

#[test]
fn element_test_null_value() {
    assert_eq!(encode_element(&TupleValue::NullValue, false), b"\x00".to_vec());
    assert_eq!(
        decode_element(&b"\x00moredata".to_vec(), 0, false),
        Ok((TupleValue::NullValue, 1))
    );
    assert_eq!(
        decode_element(&b"no_null_value".to_vec(), 0, false),
        Err(decode_err())
    );
}

#[test]
fn element_test_nested_tuple_null_value() {
    assert_eq!(encode_element(&TupleValue::NullValue, true), b"\x00\xFF".to_vec());
    assert_eq!(
        decode_element(&b"\x00\xFFmoredata".to_vec(), 0, true),
        Ok((TupleValue::NullValue, 2))
    );
    assert_eq!(
        decode_element(&b"no_nested_tuple_null_value".to_vec(), 0, true),
        Err(decode_err())
    );
}

#[test]
fn element_test_byte_string() {
    assert_eq!(
        encode_element(&TupleValue::ByteString(b"foo\x00bar".to_vec()), false),
        b"\x01foo\x00\xFFbar\x00".to_vec(),
    );
    assert_eq!(
        encode_element(&TupleValue::ByteString(Vec::new()), false),
        b"\x01\x00".to_vec(),
    );
    assert_eq!(
        encode_element(&TupleValue::ByteString(b"\x01\x02\x03".to_vec()), false),
        b"\x01\x01\x02\x03\x00".to_vec(),
    );
    assert_eq!(
        encode_element(&TupleValue::ByteString(b"\x00\x00\x00\x04".to_vec()), false),
        b"\x01\x00\xFF\x00\xFF\x00\xFF\x04\x00".to_vec(),
    );
    assert_eq!(
        decode_element(&b"\x01\x00".to_vec(), 0, false),
        Ok((TupleValue::ByteString(Vec::new()), 2))
    );
    assert_eq!(
        decode_element(&b"\x01\x00moredata".to_vec(), 0, false),
        Ok((TupleValue::ByteString(Vec::new()), 2))
    );
    assert_eq!(
        decode_element(&b"\x01\x01\x02\x03\x00".to_vec(), 0, false),
        Ok((TupleValue::ByteString(b"\x01\x02\x03".to_vec()), 5))
    );
    assert_eq!(
        decode_element(&b"\x01\x01\x02\x03\x00moredata".to_vec(), 0, false),
        Ok((TupleValue::ByteString(b"\x01\x02\x03".to_vec()), 5))
    );
    assert_eq!(
        decode_element(&b"\x01\x00\xFF\x00\xFF\x00\xFF\x04\x00".to_vec(), 0, false),
        Ok((TupleValue::ByteString(b"\x00\x00\x00\x04".to_vec()), 9))
    );
    assert_eq!(
        decode_element(&b"\x01\x00\xFF\x00\xFF\x00\xFF\x04\x00moredata".to_vec(), 0, false),
        Ok((TupleValue::ByteString(b"\x00\x00\x00\x04".to_vec()), 9))
    );
    assert_eq!(
        decode_element(&b"no_byte_string".to_vec(), 0, false),
        Err(decode_err())
    );
}

#[test]
fn element_test_unicode_string() {
    assert_eq!(
        encode_element(
            &TupleValue::UnicodeString("F\u{00d4}O\u{0000}bar".to_string()),
            false
        ),
        b"\x02F\xC3\x94O\x00\xffbar\x00".to_vec(),
    );
    assert_eq!(
        encode_element(&TupleValue::UnicodeString("".to_string()), false),
        b"\x02\x00".to_vec(),
    );
    assert_eq!(
        encode_element(&TupleValue::UnicodeString("hello".to_string()), false),
        b"\x02hello\x00".to_vec(),
    );
    assert_eq!(
        encode_element(&TupleValue::UnicodeString("中文".to_string()), false),
        b"\x02\xE4\xB8\xAD\xE6\x96\x87\x00".to_vec(),
    );
    assert_eq!(
        encode_element(&TupleValue::UnicodeString("μάθημα".to_string()), false),
        b"\x02\xCE\xBC\xCE\xAC\xCE\xB8\xCE\xB7\xCE\xBC\xCE\xB1\x00".to_vec(),
    );
    assert_eq!(
        decode_element(&b"\x02\x00".to_vec(), 0, false),
        Ok((TupleValue::UnicodeString("".to_string()), 2))
    );
    assert_eq!(
        decode_element(&b"\x02\x00moredata".to_vec(), 0, false),
        Ok((TupleValue::UnicodeString("".to_string()), 2))
    );
    assert_eq!(
        decode_element(&b"\x02hello\x00".to_vec(), 0, false),
        Ok((TupleValue::UnicodeString("hello".to_string()), 7))
    );
    assert_eq!(
        decode_element(&b"\x02hello\x00moredata".to_vec(), 0, false),
        Ok((TupleValue::UnicodeString("hello".to_string()), 7))
    );
    assert_eq!(
        decode_element(&b"\x02\xE4\xB8\xAD\xE6\x96\x87\x00".to_vec(), 0, false),
        Ok((TupleValue::UnicodeString("中文".to_string()), 8))
    );
    assert_eq!(
        decode_element(&b"\x02\xE4\xB8\xAD\xE6\x96\x87\x00moredata".to_vec(), 0, false),
        Ok((TupleValue::UnicodeString("中文".to_string()), 8))
    );
    assert_eq!(
        decode_element(
            &b"\x02\xCE\xBC\xCE\xAC\xCE\xB8\xCE\xB7\xCE\xBC\xCE\xB1\x00".to_vec(),
            0,
            false
        ),
        Ok((TupleValue::UnicodeString("μάθημα".to_string()), 14))
    );
    assert_eq!(
        decode_element(&b"no_unicode_string".to_vec(), 0, false),
        Err(decode_err())
    );
}

#[test]
fn element_test_nested_tuple() {
    assert_eq!(
        encode_element(
            &TupleValue::NestedTuple(Tuple::from_elements(vec![TupleValue::NullValue])),
            false
        ),
        b"\x05\x00\xFF\x00".to_vec()
    );
    assert_eq!(
        encode_element(
            &TupleValue::NestedTuple(Tuple::from_elements(vec![
                TupleValue::NullValue,
                TupleValue::UnicodeString("hello".to_string()),
            ])),
            false
        ),
        b"\x05\x00\xFF\x02hello\x00\x00".to_vec()
    );
    assert_eq!(
        encode_element(
            &TupleValue::NestedTuple(Tuple::from_elements(vec![
                TupleValue::NullValue,
                TupleValue::UnicodeString("hell\u{0}".to_string()),
            ])),
            false
        ),
        b"\x05\x00\xFF\x02hell\x00\xFF\x00\x00".to_vec()
    );
    assert_eq!(
        decode_element(&b"\x05\x00\xFF\x00".to_vec(), 0, false),
        Ok((
            TupleValue::NestedTuple(Tuple::from_elements(vec![TupleValue::NullValue])),
            4
        ))
    );
    assert_eq!(
        decode_element(&b"\x05\x00\xFF\x00moredata".to_vec(), 0, false),
        Ok((
            TupleValue::NestedTuple(Tuple::from_elements(vec![TupleValue::NullValue])),
            4
        ))
    );
    assert_eq!(
        decode_element(&b"\x05\x00\xFF\x02hello\x00\x00moredata".to_vec(), 0, false),
        Ok((
            TupleValue::NestedTuple(Tuple::from_elements(vec![
                TupleValue::NullValue,
                TupleValue::UnicodeString("hello".to_string()),
            ])),
            11
        ))
    );
    assert_eq!(
        decode_element(&b"\x05\x00\xFF\x02hell\x00\xFF\x00\x00moredata".to_vec(), 0, false),
        Ok((
            TupleValue::NestedTuple(Tuple::from_elements(vec![
                TupleValue::NullValue,
                TupleValue::UnicodeString("hell\u{0}".to_string()),
            ])),
            12
        ))
    );
    assert_eq!(
        decode_element(&b"\x05\x00\xFF\x34hello\x00\x00".to_vec(), 0, false),
        Err(decode_err())
    );
    assert_eq!(decode_element(&b"\x05".to_vec(), 0, false), Err(decode_err()));
    assert_eq!(
        decode_element(&b"no_nested_tuple".to_vec(), 0, false),
        Err(decode_err())
    );
}

#[test]
fn element_test_negative_arbitrary_precision_integer() {
    // magnitude 18446744073709551616 == 2^64
    assert_eq!(
        encode_element(
            &TupleValue::NegativeArbitraryPrecisionInteger(vec![0x01, 0, 0, 0, 0, 0, 0, 0, 0]),
            false
        ),
        b"\x0B\xF6\xFE\xFF\xFF\xFF\xFF\xFF\xFF\xFF\xFF".to_vec(),
    );
    assert_eq!(
        decode_element(
            &b"\x0B\xF6\xFE\xFF\xFF\xFF\xFF\xFF\xFF\xFF\xFFmoredata".to_vec(),
            0,
            false
        ),
        Ok((
            TupleValue::NegativeArbitraryPrecisionInteger(vec![0x01, 0, 0, 0, 0, 0, 0, 0, 0]),
            11
        ))
    );
    assert_eq!(
        decode_element(&b"no_negative_arbitrary_precision_integer".to_vec(), 0, false),
        Err(decode_err())
    );
    // truncated payload
    assert_eq!(
        decode_element(&b"\x0B\xF6\xFE\xFF\xFF\xFF\xFF\xFF\xFF\xFF".to_vec(), 0, false),
        Err(decode_err())
    );
}

#[test]
fn element_test_positive_arbitrary_precision_integer() {
    assert_eq!(
        encode_element(
            &TupleValue::PositiveArbitraryPrecisionInteger(vec![0x01, 0, 0, 0, 0, 0, 0, 0, 0]),
            false
        ),
        b"\x1D\x09\x01\x00\x00\x00\x00\x00\x00\x00\x00".to_vec()
    );
    assert_eq!(
        decode_element(
            &b"\x1D\x09\x01\x00\x00\x00\x00\x00\x00\x00\x00moredata".to_vec(),
            0,
            false
        ),
        Ok((
            TupleValue::PositiveArbitraryPrecisionInteger(vec![0x01, 0, 0, 0, 0, 0, 0, 0, 0]),
            11
        ))
    );
    assert_eq!(
        decode_element(&b"no_positive_arbitrary_precision_integer".to_vec(), 0, false),
        Err(decode_err())
    );
}

#[test]
fn element_test_neg_int_8() {
    assert_eq!(
        encode_element(&TupleValue::NegInt8(18446744073709551615), false),
        b"\x0C\x00\x00\x00\x00\x00\x00\x00\x00".to_vec(),
    );
    assert_eq!(
        encode_element(&TupleValue::NegInt8(72057594037927936), false),
        b"\x0C\xFE\xFF\xFF\xFF\xFF\xFF\xFF\xFF".to_vec(),
    );
    assert_eq!(
        encode_element(&TupleValue::NegInt8(9223372036854775809), false),
        b"\x0C\x7F\xFF\xFF\xFF\xFF\xFF\xFF\xFE".to_vec(),
    );
    assert_eq!(
        encode_element(&TupleValue::NegInt8(9223372036854775808), false),
        b"\x0C\x7F\xFF\xFF\xFF\xFF\xFF\xFF\xFF".to_vec(),
    );
    assert_eq!(
        decode_element(&b"\x0C\x00\x00\x00\x00\x00\x00\x00\x00moredata".to_vec(), 0, false),
        Ok((TupleValue::NegInt8(18446744073709551615), 9))
    );
    assert_eq!(
        decode_element(&b"\x0C\xFE\xFF\xFF\xFF\xFF\xFF\xFF\xFFmoredata".to_vec(), 0, false),
        Ok((TupleValue::NegInt8(72057594037927936), 9))
    );
    assert_eq!(
        decode_element(&b"\x0C\x7F\xFF\xFF\xFF\xFF\xFF\xFF\xFEmoredata".to_vec(), 0, false),
        Ok((TupleValue::NegInt8(9223372036854775809), 9))
    );
    assert_eq!(
        decode_element(&b"no_neg_int_8".to_vec(), 0, false),
        Err(decode_err())
    );
}

#[test]
fn element_test_neg_int_7() {
    assert_eq!(
        encode_element(&TupleValue::NegInt7(72057594037927935), false),
        b"\x0D\x00\x00\x00\x00\x00\x00\x00".to_vec(),
    );
    assert_eq!(
        encode_element(&TupleValue::NegInt7(281474976710656), false),
        b"\x0D\xFE\xFF\xFF\xFF\xFF\xFF\xFF".to_vec(),
    );
    assert_eq!(
        decode_element(&b"\x0D\x00\x00\x00\x00\x00\x00\x00moredata".to_vec(), 0, false),
        Ok((TupleValue::NegInt7(72057594037927935), 8))
    );
    assert_eq!(
        decode_element(&b"\x0D\xFE\xFF\xFF\xFF\xFF\xFF\xFFmoredata".to_vec(), 0, false),
        Ok((TupleValue::NegInt7(281474976710656), 8))
    );
    assert_eq!(
        decode_element(&b"no_neg_int_7".to_vec(), 0, false),
        Err(decode_err())
    );
}

#[test]
fn element_test_neg_int_6() {
    assert_eq!(
        encode_element(&TupleValue::NegInt6(281474976710655), false),
        b"\x0E\x00\x00\x00\x00\x00\x00".to_vec(),
    );
    assert_eq!(
        encode_element(&TupleValue::NegInt6(1099511627776), false),
        b"\x0E\xFE\xFF\xFF\xFF\xFF\xFF".to_vec(),
    );
    assert_eq!(
        decode_element(&b"\x0E\x00\x00\x00\x00\x00\x00moredata".to_vec(), 0, false),
        Ok((TupleValue::NegInt6(281474976710655), 7))
    );
    assert_eq!(
        decode_element(&b"\x0E\xFE\xFF\xFF\xFF\xFF\xFFmoredata".to_vec(), 0, false),
        Ok((TupleValue::NegInt6(1099511627776), 7))
    );
    assert_eq!(
        decode_element(&b"no_neg_int_6".to_vec(), 0, false),
        Err(decode_err())
    );
}

#[test]
fn element_test_neg_int_5() {
    assert_eq!(
        encode_element(&TupleValue::NegInt5(1099511627775), false),
        b"\x0F\x00\x00\x00\x00\x00".to_vec(),
    );
    assert_eq!(
        encode_element(&TupleValue::NegInt5(4294967296), false),
        b"\x0F\xFE\xFF\xFF\xFF\xFF".to_vec(),
    );
    assert_eq!(
        decode_element(&b"\x0F\x00\x00\x00\x00\x00moredata".to_vec(), 0, false),
        Ok((TupleValue::NegInt5(1099511627775), 6))
    );
    assert_eq!(
        decode_element(&b"\x0F\xFE\xFF\xFF\xFF\xFFmoredata".to_vec(), 0, false),
        Ok((TupleValue::NegInt5(4294967296), 6))
    );
    assert_eq!(
        decode_element(&b"no_neg_int_5".to_vec(), 0, false),
        Err(decode_err())
    );
}

#[test]
fn element_test_neg_int_4() {
    assert_eq!(
        encode_element(&TupleValue::NegInt4(4294967295), false),
        b"\x10\x00\x00\x00\x00".to_vec(),
    );
    assert_eq!(
        encode_element(&TupleValue::NegInt4(16777216), false),
        b"\x10\xFE\xFF\xFF\xFF".to_vec(),
    );
    assert_eq!(
        encode_element(&TupleValue::NegInt4(2147483649), false),
        b"\x10\x7F\xFF\xFF\xFE".to_vec(),
    );
    assert_eq!(
        encode_element(&TupleValue::NegInt4(2147483648), false),
        b"\x10\x7F\xFF\xFF\xFF".to_vec(),
    );
    assert_eq!(
        decode_element(&b"\x10\x00\x00\x00\x00moredata".to_vec(), 0, false),
        Ok((TupleValue::NegInt4(4294967295), 5))
    );
    assert_eq!(
        decode_element(&b"\x10\x7F\xFF\xFF\xFEmoredata".to_vec(), 0, false),
        Ok((TupleValue::NegInt4(2147483649), 5))
    );
    assert_eq!(
        decode_element(&b"no_neg_int_4".to_vec(), 0, false),
        Err(decode_err())
    );
}

#[test]
fn element_test_neg_int_3() {
    assert_eq!(
        encode_element(&TupleValue::NegInt3(16777215), false),
        b"\x11\x00\x00\x00".to_vec(),
    );
    assert_eq!(
        encode_element(&TupleValue::NegInt3(65536), false),
        b"\x11\xFE\xFF\xFF".to_vec(),
    );
    assert_eq!(
        decode_element(&b"\x11\x00\x00\x00moredata".to_vec(), 0, false),
        Ok((TupleValue::NegInt3(16777215), 4))
    );
    assert_eq!(
        decode_element(&b"\x11\xFE\xFF\xFFmoredata".to_vec(), 0, false),
        Ok((TupleValue::NegInt3(65536), 4))
    );
    assert_eq!(
        decode_element(&b"no_neg_int_3".to_vec(), 0, false),
        Err(decode_err())
    );
}

#[test]
fn element_test_neg_int_2() {
    assert_eq!(
        encode_element(&TupleValue::NegInt2(65535), false),
        b"\x12\x00\x00".to_vec()
    );
    assert_eq!(
        encode_element(&TupleValue::NegInt2(256), false),
        b"\x12\xFE\xFF".to_vec()
    );
    assert_eq!(
        encode_element(&TupleValue::NegInt2(32769), false),
        b"\x12\x7F\xFE".to_vec()
    );
    assert_eq!(
        encode_element(&TupleValue::NegInt2(32768), false),
        b"\x12\x7F\xFF".to_vec()
    );
    assert_eq!(
        decode_element(&b"\x12\x00\x00moredata".to_vec(), 0, false),
        Ok((TupleValue::NegInt2(65535), 3))
    );
    assert_eq!(
        decode_element(&b"\x12\x7F\xFEmoredata".to_vec(), 0, false),
        Ok((TupleValue::NegInt2(32769), 3))
    );
    assert_eq!(
        decode_element(&b"no_neg_int_2".to_vec(), 0, false),
        Err(decode_err())
    );
}

#[test]
fn element_test_neg_int_1() {
    assert_eq!(encode_element(&TupleValue::NegInt1(255), false), b"\x13\x00".to_vec());
    assert_eq!(encode_element(&TupleValue::NegInt1(1), false), b"\x13\xFE".to_vec());
    assert_eq!(encode_element(&TupleValue::NegInt1(129), false), b"\x13\x7E".to_vec());
    assert_eq!(encode_element(&TupleValue::NegInt1(128), false), b"\x13\x7F".to_vec());
    assert_eq!(
        decode_element(&b"\x13\x00moredata".to_vec(), 0, false),
        Ok((TupleValue::NegInt1(255), 2))
    );
    assert_eq!(
        decode_element(&b"\x13\xFEmoredata".to_vec(), 0, false),
        Ok((TupleValue::NegInt1(1), 2))
    );
    assert_eq!(
        decode_element(&b"no_neg_int_1".to_vec(), 0, false),
        Err(decode_err())
    );
}

#[test]
fn element_test_int_zero() {
    assert_eq!(encode_element(&TupleValue::IntZero, false), b"\x14".to_vec());
    assert_eq!(
        decode_element(&b"\x14moredata".to_vec(), 0, false),
        Ok((TupleValue::IntZero, 1))
    );
    assert_eq!(
        decode_element(&b"no_int_zero".to_vec(), 0, false),
        Err(decode_err())
    );
}

#[test]
fn element_test_pos_int_1() {
    assert_eq!(encode_element(&TupleValue::PosInt1(1), false), b"\x15\x01".to_vec());
    assert_eq!(encode_element(&TupleValue::PosInt1(255), false), b"\x15\xFF".to_vec());
    assert_eq!(encode_element(&TupleValue::PosInt1(127), false), b"\x15\x7F".to_vec());
    assert_eq!(encode_element(&TupleValue::PosInt1(128), false), b"\x15\x80".to_vec());
    assert_eq!(
        decode_element(&b"\x15\x01moredata".to_vec(), 0, false),
        Ok((TupleValue::PosInt1(1), 2))
    );
    assert_eq!(
        decode_element(&b"\x15\xFFmoredata".to_vec(), 0, false),
        Ok((TupleValue::PosInt1(255), 2))
    );
    assert_eq!(
        decode_element(&b"no_pos_int_1".to_vec(), 0, false),
        Err(decode_err())
    );
}

#[test]
fn element_test_pos_int_2() {
    assert_eq!(encode_element(&TupleValue::PosInt2(256), false), b"\x16\x01\x00".to_vec());
    assert_eq!(encode_element(&TupleValue::PosInt2(65535), false), b"\x16\xFF\xFF".to_vec());
    assert_eq!(encode_element(&TupleValue::PosInt2(32767), false), b"\x16\x7F\xFF".to_vec());
    assert_eq!(encode_element(&TupleValue::PosInt2(32768), false), b"\x16\x80\x00".to_vec());
    assert_eq!(
        decode_element(&b"\x16\x01\x00moredata".to_vec(), 0, false),
        Ok((TupleValue::PosInt2(256), 3))
    );
    assert_eq!(
        decode_element(&b"\x16\xFF\xFFmoredata".to_vec(), 0, false),
        Ok((TupleValue::PosInt2(65535), 3))
    );
    assert_eq!(
        decode_element(&b"no_pos_int_2".to_vec(), 0, false),
        Err(decode_err())
    );
}

#[test]
fn element_test_pos_int_3() {
    assert_eq!(
        encode_element(&TupleValue::PosInt3(65536), false),
        b"\x17\x01\x00\x00".to_vec()
    );
    assert_eq!(
        encode_element(&TupleValue::PosInt3(16777215), false),
        b"\x17\xFF\xFF\xFF".to_vec()
    );
    assert_eq!(
        decode_element(&b"\x17\x01\x00\x00moredata".to_vec(), 0, false),
        Ok((TupleValue::PosInt3(65536), 4))
    );
    assert_eq!(
        decode_element(&b"\x17\xFF\xFF\xFFmoredata".to_vec(), 0, false),
        Ok((TupleValue::PosInt3(16777215), 4))
    );
    assert_eq!(
        decode_element(&b"no_pos_int_3".to_vec(), 0, false),
        Err(decode_err())
    );
}

#[test]
fn element_test_pos_int_4() {
    assert_eq!(
        encode_element(&TupleValue::PosInt4(16777216), false),
        b"\x18\x01\x00\x00\x00".to_vec()
    );
    assert_eq!(
        encode_element(&TupleValue::PosInt4(4294967295), false),
        b"\x18\xFF\xFF\xFF\xFF".to_vec()
    );
    assert_eq!(
        encode_element(&TupleValue::PosInt4(2147483647), false),
        b"\x18\x7F\xFF\xFF\xFF".to_vec()
    );
    assert_eq!(
        encode_element(&TupleValue::PosInt4(2147483648), false),
        b"\x18\x80\x00\x00\x00".to_vec()
    );
    assert_eq!(
        decode_element(&b"\x18\x01\x00\x00\x00moredata".to_vec(), 0, false),
        Ok((TupleValue::PosInt4(16777216), 5))
    );
    assert_eq!(
        decode_element(&b"\x18\xFF\xFF\xFF\xFFmoredata".to_vec(), 0, false),
        Ok((TupleValue::PosInt4(4294967295), 5))
    );
    assert_eq!(
        decode_element(&b"no_pos_int_4".to_vec(), 0, false),
        Err(decode_err())
    );
}

#[test]
fn element_test_pos_int_5() {
    assert_eq!(
        encode_element(&TupleValue::PosInt5(4294967296), false),
        b"\x19\x01\x00\x00\x00\x00".to_vec()
    );
    assert_eq!(
        encode_element(&TupleValue::PosInt5(1099511627775), false),
        b"\x19\xFF\xFF\xFF\xFF\xFF".to_vec()
    );
    assert_eq!(
        decode_element(&b"\x19\x01\x00\x00\x00\x00moredata".to_vec(), 0, false),
        Ok((TupleValue::PosInt5(4294967296), 6))
    );
    assert_eq!(
        decode_element(&b"\x19\xFF\xFF\xFF\xFF\xFFmoredata".to_vec(), 0, false),
        Ok((TupleValue::PosInt5(1099511627775), 6))
    );
    assert_eq!(
        decode_element(&b"no_pos_int_5".to_vec(), 0, false),
        Err(decode_err())
    );
}

#[test]
fn element_test_pos_int_6() {
    assert_eq!(
        encode_element(&TupleValue::PosInt6(1099511627776), false),
        b"\x1A\x01\x00\x00\x00\x00\x00".to_vec()
    );
    assert_eq!(
        encode_element(&TupleValue::PosInt6(281474976710655), false),
        b"\x1A\xFF\xFF\xFF\xFF\xFF\xFF".to_vec()
    );
    assert_eq!(
        decode_element(&b"\x1A\x01\x00\x00\x00\x00\x00moredata".to_vec(), 0, false),
        Ok((TupleValue::PosInt6(1099511627776), 7))
    );
    assert_eq!(
        decode_element(&b"\x1A\xFF\xFF\xFF\xFF\xFF\xFFmoredata".to_vec(), 0, false),
        Ok((TupleValue::PosInt6(281474976710655), 7))
    );
    assert_eq!(
        decode_element(&b"no_pos_int_6".to_vec(), 0, false),
        Err(decode_err())
    );
}

#[test]
fn element_test_pos_int_7() {
    assert_eq!(
        encode_element(&TupleValue::PosInt7(281474976710656), false),
        b"\x1B\x01\x00\x00\x00\x00\x00\x00".to_vec()
    );
    assert_eq!(
        encode_element(&TupleValue::PosInt7(72057594037927935), false),
        b"\x1B\xFF\xFF\xFF\xFF\xFF\xFF\xFF".to_vec()
    );
    assert_eq!(
        decode_element(&b"\x1B\x01\x00\x00\x00\x00\x00\x00moredata".to_vec(), 0, false),
        Ok((TupleValue::PosInt7(281474976710656), 8))
    );
    assert_eq!(
        decode_element(&b"\x1B\xFF\xFF\xFF\xFF\xFF\xFF\xFFmoredata".to_vec(), 0, false),
        Ok((TupleValue::PosInt7(72057594037927935), 8))
    );
    assert_eq!(
        decode_element(&b"no_pos_int_7".to_vec(), 0, false),
        Err(decode_err())
    );
}

#[test]
fn element_test_pos_int_8() {
    assert_eq!(
        encode_element(&TupleValue::PosInt8(72057594037927936), false),
        b"\x1C\x01\x00\x00\x00\x00\x00\x00\x00".to_vec()
    );
    assert_eq!(
        encode_element(&TupleValue::PosInt8(18446744073709551615), false),
        b"\x1C\xFF\xFF\xFF\xFF\xFF\xFF\xFF\xFF".to_vec()
    );
    assert_eq!(
        encode_element(&TupleValue::PosInt8(9223372036854775807), false),
        b"\x1C\x7F\xFF\xFF\xFF\xFF\xFF\xFF\xFF".to_vec()
    );
    assert_eq!(
        encode_element(&TupleValue::PosInt8(9223372036854775808), false),
        b"\x1C\x80\x00\x00\x00\x00\x00\x00\x00".to_vec()
    );
    assert_eq!(
        decode_element(&b"\x1C\x01\x00\x00\x00\x00\x00\x00\x00moredata".to_vec(), 0, false),
        Ok((TupleValue::PosInt8(72057594037927936), 9))
    );
    assert_eq!(
        decode_element(&b"\x1C\xFF\xFF\xFF\xFF\xFF\xFF\xFF\xFFmoredata".to_vec(), 0, false),
        Ok((TupleValue::PosInt8(18446744073709551615), 9))
    );
    assert_eq!(
        decode_element(&b"no_pos_int_8".to_vec(), 0, false),
        Err(decode_err())
    );
}

#[test]
fn element_test_ieee_binary_floating_point_float() {
    assert_eq!(
        encode_element(
            &TupleValue::IeeeBinaryFloatingPointFloat((3.14f32).to_bits()),
            false
        ),
        b"\x20\xC0\x48\xF5\xC3".to_vec()
    );
    assert_eq!(
        encode_element(
            &TupleValue::IeeeBinaryFloatingPointFloat((-3.14f32).to_bits()),
            false
        ),
        b"\x20\x3F\xB7\x0A\x3C".to_vec()
    );
    assert_eq!(
        encode_element(
            &TupleValue::IeeeBinaryFloatingPointFloat((0.0f32).to_bits()),
            false
        ),
        b"\x20\x80\x00\x00\x00".to_vec()
    );
    assert_eq!(
        encode_element(
            &TupleValue::IeeeBinaryFloatingPointFloat((-0.0f32).to_bits()),
            false
        ),
        b"\x20\x7F\xFF\xFF\xFF".to_vec()
    );
    assert_eq!(
        encode_element(
            &TupleValue::IeeeBinaryFloatingPointFloat(f32::INFINITY.to_bits()),
            false
        ),
        b"\x20\xFF\x80\x00\x00".to_vec()
    );
    assert_eq!(
        encode_element(
            &TupleValue::IeeeBinaryFloatingPointFloat(f32::NEG_INFINITY.to_bits()),
            false
        ),
        b"\x20\x00\x7F\xFF\xFF".to_vec()
    );
    assert_eq!(
        decode_element(&b"\x20\xC0\x48\xF5\xC3moredata".to_vec(), 0, false),
        Ok((
            TupleValue::IeeeBinaryFloatingPointFloat((3.14f32).to_bits()),
            5
        ))
    );
    assert_eq!(
        decode_element(&b"\x20\x3F\xB7\x0A\x3Cmoredata".to_vec(), 0, false),
        Ok((
            TupleValue::IeeeBinaryFloatingPointFloat((-3.14f32).to_bits()),
            5
        ))
    );
    assert_eq!(
        decode_element(&b"no_float".to_vec(), 0, false),
        Err(decode_err())
    );
}

#[test]
fn element_test_ieee_binary_floating_point_double() {
    assert_eq!(
        encode_element(
            &TupleValue::IeeeBinaryFloatingPointDouble((3.14f64).to_bits()),
            false
        ),
        b"\x21\xC0\x09\x1E\xB8\x51\xEB\x85\x1F".to_vec()
    );
    assert_eq!(
        encode_element(
            &TupleValue::IeeeBinaryFloatingPointDouble((-3.14f64).to_bits()),
            false
        ),
        b"\x21\x3F\xF6\xE1\x47\xAE\x14\x7A\xE0".to_vec()
    );
    assert_eq!(
        encode_element(
            &TupleValue::IeeeBinaryFloatingPointDouble((0.0f64).to_bits()),
            false
        ),
        b"\x21\x80\x00\x00\x00\x00\x00\x00\x00".to_vec()
    );
    assert_eq!(
        encode_element(
            &TupleValue::IeeeBinaryFloatingPointDouble((-0.0f64).to_bits()),
            false
        ),
        b"\x21\x7F\xFF\xFF\xFF\xFF\xFF\xFF\xFF".to_vec()
    );
    assert_eq!(
        encode_element(
            &TupleValue::IeeeBinaryFloatingPointDouble(f64::INFINITY.to_bits()),
            false
        ),
        b"\x21\xFF\xF0\x00\x00\x00\x00\x00\x00".to_vec()
    );
    assert_eq!(
        encode_element(
            &TupleValue::IeeeBinaryFloatingPointDouble(f64::NEG_INFINITY.to_bits()),
            false
        ),
        b"\x21\x00\x0F\xFF\xFF\xFF\xFF\xFF\xFF".to_vec()
    );
    assert_eq!(
        decode_element(&b"\x21\xC0\x09\x1E\xB8\x51\xEB\x85\x1Fmoredata".to_vec(), 0, false),
        Ok((
            TupleValue::IeeeBinaryFloatingPointDouble((3.14f64).to_bits()),
            9
        ))
    );
    assert_eq!(
        decode_element(&b"\x21\x3F\xF6\xE1\x47\xAE\x14\x7A\xE0moredata".to_vec(), 0, false),
        Ok((
            TupleValue::IeeeBinaryFloatingPointDouble((-3.14f64).to_bits()),
            9
        ))
    );
    assert_eq!(
        decode_element(&b"no_double".to_vec(), 0, false),
        Err(decode_err())
    );
}

#[test]
fn element_test_false_value() {
    assert_eq!(encode_element(&TupleValue::FalseValue, false), b"\x26".to_vec());
    assert_eq!(
        decode_element(&b"\x26moredata".to_vec(), 0, false),
        Ok((TupleValue::FalseValue, 1))
    );
    assert_eq!(
        decode_element(&b"no_false_value".to_vec(), 0, false),
        Err(decode_err())
    );
}

#[test]
fn element_test_true_value() {
    assert_eq!(encode_element(&TupleValue::TrueValue, false), b"\x27".to_vec());
    assert_eq!(
        decode_element(&b"\x27moredata".to_vec(), 0, false),
        Ok((TupleValue::TrueValue, 1))
    );
    assert_eq!(
        decode_element(&b"no_true_value".to_vec(), 0, false),
        Err(decode_err())
    );
}

#[test]
fn element_test_rfc_4122_uuid() {
    assert_eq!(
        encode_element(
            &TupleValue::Rfc4122Uuid(Uuid::from_bytes(
                b"\xFF\xFF\xFF\xFF\xBA\x5E\xBA\x11\x00\x00\x00\x00\x5C\xA1\xAB\x1E".to_vec()
            )),
            false
        ),
        b"\x30\xFF\xFF\xFF\xFF\xBA\x5E\xBA\x11\x00\x00\x00\x00\x5C\xA1\xAB\x1E".to_vec()
    );
    assert_eq!(
        decode_element(
            &b"\x30\xFF\xFF\xFF\xFF\xBA\x5E\xBA\x11\x00\x00\x00\x00\x5C\xA1\xAB\x1Emoredata"
                .to_vec(),
            0,
            false
        ),
        Ok((
            TupleValue::Rfc4122Uuid(Uuid::from_bytes(
                b"\xFF\xFF\xFF\xFF\xBA\x5E\xBA\x11\x00\x00\x00\x00\x5C\xA1\xAB\x1E".to_vec()
            )),
            17
        ))
    );
    assert_eq!(decode_element(&b"no_uuid".to_vec(), 0, false), Err(decode_err()));
}

#[test]
fn element_test_versionstamp_96_bit() {
    assert_eq!(
        encode_element(
            &TupleValue::Versionstamp96Bit(Versionstamp::complete(
                b"\xAA\xBB\xCC\xDD\xEE\xFF\x00\x01\x02\x03".to_vec(),
                0
            )),
            false
        ),
        b"\x33\xAA\xBB\xCC\xDD\xEE\xFF\x00\x01\x02\x03\x00\x00".to_vec()
    );
    assert_eq!(
        encode_element(
            &TupleValue::Versionstamp96Bit(Versionstamp::complete(
                b"\x01\x02\x03\x04\x05\x06\x07\x08\x09\x0A".to_vec(),
                657
            )),
            false
        ),
        b"\x33\x01\x02\x03\x04\x05\x06\x07\x08\x09\x0A\x02\x91".to_vec()
    );
    assert_eq!(
        decode_element(
            &b"\x33\x01\x02\x03\x04\x05\x06\x07\x08\x09\x0A\x02\x91moredata".to_vec(),
            0,
            false
        ),
        Ok((
            TupleValue::Versionstamp96Bit(Versionstamp::complete(
                b"\x01\x02\x03\x04\x05\x06\x07\x08\x09\x0A".to_vec(),
                657
            )),
            13
        ))
    );
    assert_eq!(
        decode_element(&b"no_versionstamp".to_vec(), 0, false),
        Err(decode_err())
    );
}

#[test]
fn test_query_for_incomplete_versionstamp() {
    assert_eq!(
        query_incomplete(
            &{
                let mut t = Tuple::new();
                t.add_null();
                t.add_versionstamp(Versionstamp::incomplete(0));
                t.add_string("foo".to_string());
                t
            }
            .into_elements(),
            false
        ),
        IncompleteQuery::Found(2)
    );
    assert_eq!(
        query_incomplete(
            &{
                let mut t = Tuple::new();
                t.add_null();
                t.add_string("foo".to_string());
                t
            }
            .into_elements(),
            false
        ),
        IncompleteQuery::NotFound(6)
    );
    assert_eq!(
        query_incomplete(
            &{
                let mut t = Tuple::new();
                t.add_null();
                t.add_tuple({
                    let mut t1 = Tuple::new();
                    t1.add_versionstamp(Versionstamp::incomplete(1));
                    t1
                });
                t.add_string("foo".to_string());
                t.add_tuple({
                    let mut t2 = Tuple::new();
                    t2.add_versionstamp(Versionstamp::incomplete(1));
                    t2
                });
                t.add_string("bar".to_string());
                t
            }
            .into_elements(),
            false
        ),
        IncompleteQuery::MultipleFound
    );
}

#[test]
fn test_query_for_incomplete_versionstamp_nested_tuple() {
    assert_eq!(
        query_incomplete(
            &{
                let mut t = Tuple::new();
                t.add_null();
                t.add_versionstamp(Versionstamp::incomplete(0));
                t.add_string("foo".to_string());
                t
            }
            .into_elements(),
            true
        ),
        IncompleteQuery::Found(3)
    );
    assert_eq!(
        query_incomplete(
            &{
                let mut t = Tuple::new();
                t.add_null();
                t.add_string("foo".to_string());
                t
            }
            .into_elements(),
            true
        ),
        IncompleteQuery::NotFound(7)
    );
    assert_eq!(
        query_incomplete(
            &{
                let mut t = Tuple::new();
                t.add_null();
                t.add_tuple({
                    let mut t1 = Tuple::new();
                    t1.add_versionstamp(Versionstamp::incomplete(1));
                    t1
                });
                t.add_string("foo".to_string());
                t.add_tuple({
                    let mut t2 = Tuple::new();
                    t2.add_versionstamp(Versionstamp::incomplete(1));
                    t2
                });
                t.add_string("bar".to_string());
                t
            }
            .into_elements(),
            true
        ),
        IncompleteQuery::MultipleFound
    );
}
