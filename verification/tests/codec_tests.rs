use iptsdb::codec::{decode, encode, width, CellValue, FieldType, RecordValue};
use iptsdb::errors::DbError;

fn roundtrip(t: FieldType, v: RecordValue) -> CellValue {
    let mut buf: Vec<u8> = Vec::new();
    encode(t, &v, &mut buf).expect("encodable value");
    assert_eq!(buf.len(), width(t));
    decode(t, &buf, 0).expect("a whole value was just written")
}

#[test]
fn widths_are_fixed() {
    assert_eq!(width(FieldType::U8), 1);
    assert_eq!(width(FieldType::U16), 2);
    assert_eq!(width(FieldType::U32), 4);
    assert_eq!(width(FieldType::U64), 8);
    assert_eq!(width(FieldType::I8), 1);
    assert_eq!(width(FieldType::I16), 2);
    assert_eq!(width(FieldType::I32), 4);
    assert_eq!(width(FieldType::I64), 8);
    assert_eq!(width(FieldType::F32), 4);
    assert_eq!(width(FieldType::F64), 8);
}

#[test]
fn unsigned_round_trips() {
    for t in [FieldType::U8, FieldType::U16, FieldType::U32, FieldType::U64] {
        let max: u64 = match t {
            FieldType::U8 => u8::MAX as u64,
            FieldType::U16 => u16::MAX as u64,
            FieldType::U32 => u32::MAX as u64,
            _ => u64::MAX,
        };
        for v in [0u64, 1, max - 1, max] {
            assert_eq!(roundtrip(t, RecordValue::of_uint(v)), CellValue::Uint(v));
        }
    }
}

#[test]
fn signed_round_trips() {
    for t in [FieldType::I8, FieldType::I16, FieldType::I32, FieldType::I64] {
        let (min, max): (i64, i64) = match t {
            FieldType::I8 => (i8::MIN as i64, i8::MAX as i64),
            FieldType::I16 => (i16::MIN as i64, i16::MAX as i64),
            FieldType::I32 => (i32::MIN as i64, i32::MAX as i64),
            _ => (i64::MIN, i64::MAX),
        };
        for v in [0i64, 1, -1, min, min + 1, max - 1, max] {
            assert_eq!(roundtrip(t, RecordValue::of_int(v)), CellValue::Int(v));
        }
    }
}

#[test]
fn float_round_trips() {
    for v in [0.0f32, 1.5, -1.5, f32::MIN, f32::MAX, 21.5] {
        let rv = RecordValue {
            uint: None,
            int: None,
            f32_bits: Some(v.to_bits()),
            f64_bits: None,
        };
        match roundtrip(FieldType::F32, rv) {
            CellValue::F32Bits(bits) => assert_eq!(f32::from_bits(bits), v),
            other => panic!("expected f32 bits, got {:?}", other),
        }
    }
    for v in [0.0f64, 2.25, -2.25, f64::MIN, f64::MAX] {
        let rv = RecordValue {
            uint: None,
            int: None,
            f32_bits: None,
            f64_bits: Some(v.to_bits()),
        };
        match roundtrip(FieldType::F64, rv) {
            CellValue::F64Bits(bits) => assert_eq!(f64::from_bits(bits), v),
            other => panic!("expected f64 bits, got {:?}", other),
        }
    }
}

#[test]
fn encoding_is_little_endian() {
    let mut buf: Vec<u8> = Vec::new();
    encode(FieldType::U32, &RecordValue::of_uint(0x0102_0304), &mut buf).unwrap();
    assert_eq!(buf, vec![0x04, 0x03, 0x02, 0x01]);

    let mut buf2: Vec<u8> = Vec::new();
    encode(FieldType::I16, &RecordValue::of_int(-2), &mut buf2).unwrap();
    assert_eq!(buf2, vec![0xfe, 0xff]);
}

#[test]
fn narrow_types_truncate() {
    let mut buf: Vec<u8> = Vec::new();
    encode(FieldType::U8, &RecordValue::of_uint(0x1234), &mut buf).unwrap();
    assert_eq!(buf, vec![0x34]);
    assert_eq!(decode(FieldType::U8, &buf, 0), Some(CellValue::Uint(0x34)));
}

#[test]
fn type_mismatch_on_missing_reading() {
    // A negative number offers no unsigned reading.
    let mut buf: Vec<u8> = Vec::new();
    assert_eq!(
        encode(FieldType::U64, &RecordValue::of_int(-5), &mut buf),
        Err(DbError::TypeMismatch)
    );
    assert!(buf.is_empty());
    // An integer-only value offers no float bits.
    assert_eq!(
        encode(FieldType::F32, &RecordValue::of_uint(3), &mut buf),
        Err(DbError::TypeMismatch)
    );
}

#[test]
fn decode_signals_end_of_column() {
    let buf: Vec<u8> = vec![1, 0, 0, 0];
    assert_eq!(decode(FieldType::U32, &buf, 0), Some(CellValue::Uint(1)));
    // Exactly at the end: no bytes remain.
    assert_eq!(decode(FieldType::U32, &buf, 4), None);
    // Fewer than the width remain.
    assert_eq!(decode(FieldType::U32, &buf, 2), None);
}

#[test]
fn decode_successive_rows() {
    let buf: Vec<u8> = vec![0x0a, 0x00, 0x0b, 0x00, 0x0c, 0x00];
    assert_eq!(decode(FieldType::U16, &buf, 0), Some(CellValue::Uint(0x0a)));
    assert_eq!(decode(FieldType::U16, &buf, 2), Some(CellValue::Uint(0x0b)));
    assert_eq!(decode(FieldType::U16, &buf, 4), Some(CellValue::Uint(0x0c)));
    assert_eq!(decode(FieldType::U16, &buf, 6), None);
}
