// Tests for the scalar vocabulary: bit-pattern decoding and the signed and
// unsigned accessors.

use charon::expressions::{scalar_of_bits, IntegerTy, Place, ProjectionElem, ScalarValue};

#[test]
fn unsigned_decoding_truncates_to_the_width() {
    assert_eq!(scalar_of_bits(IntegerTy::U8, 0), ScalarValue::U8(0));
    assert_eq!(scalar_of_bits(IntegerTy::U8, 0x1ff), ScalarValue::U8(0xff));
    assert_eq!(scalar_of_bits(IntegerTy::U16, 0x1_2345), ScalarValue::U16(0x2345));
    assert_eq!(scalar_of_bits(IntegerTy::U32, 0xdead_beef), ScalarValue::U32(0xdead_beef));
    assert_eq!(
        scalar_of_bits(IntegerTy::U64, u128::MAX),
        ScalarValue::U64(0xffff_ffff_ffff_ffff),
    );
    assert_eq!(scalar_of_bits(IntegerTy::U128, u128::MAX), ScalarValue::U128(u128::MAX));
    assert_eq!(scalar_of_bits(IntegerTy::Usize, 7), ScalarValue::Usize(7));
}

#[test]
fn signed_decoding_reads_twos_complement() {
    assert_eq!(scalar_of_bits(IntegerTy::I8, 0xff), ScalarValue::I8(-1));
    assert_eq!(scalar_of_bits(IntegerTy::I8, 0x80), ScalarValue::I8(-128));
    assert_eq!(scalar_of_bits(IntegerTy::I8, 0x7f), ScalarValue::I8(127));
    assert_eq!(scalar_of_bits(IntegerTy::I16, 0xffff), ScalarValue::I16(-1));
    assert_eq!(scalar_of_bits(IntegerTy::I32, 0x8000_0000), ScalarValue::I32(i32::MIN));
    assert_eq!(scalar_of_bits(IntegerTy::I64, 42), ScalarValue::I64(42));
    assert_eq!(
        scalar_of_bits(IntegerTy::Isize, 0xffff_ffff_ffff_fffe),
        ScalarValue::Isize(-2),
    );
    assert_eq!(scalar_of_bits(IntegerTy::I128, u128::MAX), ScalarValue::I128(-1));
    assert_eq!(
        scalar_of_bits(IntegerTy::I128, 0x8000_0000_0000_0000_0000_0000_0000_0000),
        ScalarValue::I128(i128::MIN),
    );
}

#[test]
fn signedness_accessors_partition_the_scalars() {
    let signed = ScalarValue::I32(-5);
    let unsigned = ScalarValue::U32(5);
    assert!(signed.is_int());
    assert!(!unsigned.is_int());
    assert_eq!(signed.as_int(), Some(-5));
    assert_eq!(signed.as_uint(), None);
    assert_eq!(unsigned.as_uint(), Some(5));
    assert_eq!(unsigned.as_int(), None);
}

#[test]
fn place_equality_compares_the_whole_projection() {
    let a = Place { var_id: 1, projection: vec![ProjectionElem::Deref] };
    let b = Place { var_id: 1, projection: vec![ProjectionElem::Deref] };
    let c = Place { var_id: 1, projection: vec![ProjectionElem::DerefBox] };
    let d = Place { var_id: 2, projection: vec![ProjectionElem::Deref] };
    assert!(a == b);
    assert!(a != c);
    assert!(a != d);
    let e = a.clone();
    assert!(a == e);
}
