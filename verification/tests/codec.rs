//! Tests of the record codec: serial-type classification, the byte layout,
//! the header length, and the decode path.
use std::mem::size_of;

use limbo_core::value::LimboText;
use limbo_core::value::OwnedRecord;
use limbo_core::value::OwnedValue;
use limbo_core::LimboError;

#[test]
fn test_serialize_null() {
    let record = OwnedRecord::new(vec![OwnedValue::Null]);
    let mut buf = Vec::new();
    record.serialize(&mut buf).unwrap();

    let header_length = record.values.len() + 1;
    let header = &buf[0..header_length];
    // First byte should be header size
    assert_eq!(header[0], header_length as u8);
    // Second byte should be serial type for NULL
    assert_eq!(header[1] as u64, OwnedValue::Null.serial_type());
    // Check that the buffer is empty after the header
    assert_eq!(buf.len(), header_length);
}

#[test]
fn test_serialize_integers() {
    let record = OwnedRecord::new(vec![
        OwnedValue::Integer(42),                // Should use SERIAL_TYPE_I8
        OwnedValue::Integer(1000),              // Should use SERIAL_TYPE_I16
        OwnedValue::Integer(1_000_000),         // Should use SERIAL_TYPE_I24
        OwnedValue::Integer(1_000_000_000),     // Should use SERIAL_TYPE_I32
        OwnedValue::Integer(1_000_000_000_000), // Should use SERIAL_TYPE_I48
        OwnedValue::Integer(i64::MAX),          // Should use SERIAL_TYPE_I64
    ]);
    let mut buf = Vec::new();
    record.serialize(&mut buf).unwrap();

    let header_length = record.values.len() + 1;
    let header = &buf[0..header_length];
    // First byte should be header size
    assert!(header[0] == header_length as u8); // Header should be larger than number of values

    // Check that correct serial types were chosen
    assert_eq!(header[1] as u64, 1);
    assert_eq!(header[2] as u64, 2);
    assert_eq!(header[3] as u64, 3);
    assert_eq!(header[4] as u64, 4);
    assert_eq!(header[5] as u64, 5);
    assert_eq!(header[6] as u64, 6);

    // test that the bytes after the header can be interpreted as the correct values
    let mut cur_offset = header_length;
    let i8_bytes = &buf[cur_offset..cur_offset + size_of::<i8>()];
    cur_offset += size_of::<i8>();
    let i16_bytes = &buf[cur_offset..cur_offset + size_of::<i16>()];
    cur_offset += size_of::<i16>();
    let i24_bytes = &buf[cur_offset..cur_offset + size_of::<i32>() - 1];
    cur_offset += size_of::<i32>() - 1; // i24
    let i32_bytes = &buf[cur_offset..cur_offset + size_of::<i32>()];
    cur_offset += size_of::<i32>();
    let i48_bytes = &buf[cur_offset..cur_offset + size_of::<i64>() - 2];
    cur_offset += size_of::<i64>() - 2; // i48
    let i64_bytes = &buf[cur_offset..cur_offset + size_of::<i64>()];

    let val_int8 = i8::from_be_bytes(i8_bytes.try_into().unwrap());
    let val_int16 = i16::from_be_bytes(i16_bytes.try_into().unwrap());

    let mut leading_0 = vec![0];
    leading_0.extend(i24_bytes);
    let val_int24 = i32::from_be_bytes(leading_0.try_into().unwrap());

    let val_int32 = i32::from_be_bytes(i32_bytes.try_into().unwrap());

    let mut leading_00 = vec![0, 0];
    leading_00.extend(i48_bytes);
    let val_int48 = i64::from_be_bytes(leading_00.try_into().unwrap());

    let val_int64 = i64::from_be_bytes(i64_bytes.try_into().unwrap());

    assert_eq!(val_int8, 42);
    assert_eq!(val_int16, 1000);
    assert_eq!(val_int24, 1_000_000);
    assert_eq!(val_int32, 1_000_000_000);
    assert_eq!(val_int48, 1_000_000_000_000);
    assert_eq!(val_int64, i64::MAX);

    // assert correct size of buffer: header + values (bytes per value depends on serial type)
    assert_eq!(
        buf.len(),
        header_length
            + size_of::<i8>()
            + size_of::<i16>()
            + (size_of::<i32>() - 1) // i24
            + size_of::<i32>()
            + (size_of::<i64>() - 2) // i48
            + size_of::<f64>()
    );
}

#[test]
fn test_serialize_float() {
    let record = OwnedRecord::new(vec![OwnedValue::Float(3.14159_f64.to_bits())]);
    let mut buf = Vec::new();
    record.serialize(&mut buf).unwrap();

    let header_length = record.values.len() + 1;
    let header = &buf[0..header_length];
    // First byte should be header size
    assert_eq!(header[0], header_length as u8);
    // Second byte should be serial type for FLOAT
    assert_eq!(header[1] as u64, 7);
    // Check that the bytes after the header can be interpreted as the float
    let float_bytes = &buf[header_length..header_length + size_of::<f64>()];
    let float = f64::from_be_bytes(float_bytes.try_into().unwrap());
    assert_eq!(float, 3.14159);
    // Check that buffer length is correct
    assert_eq!(buf.len(), header_length + size_of::<f64>());
}

#[test]
fn test_serialize_text() {
    let text = "hello".to_string();
    let record = OwnedRecord::new(vec![OwnedValue::Text(LimboText::new(text.clone()))]);
    let mut buf = Vec::new();
    record.serialize(&mut buf).unwrap();

    let header_length = record.values.len() + 1;
    let header = &buf[0..header_length];
    // First byte should be header size
    assert_eq!(header[0], header_length as u8);
    // Second byte should be serial type for TEXT, which is (len * 2 + 13)
    assert_eq!(header[1], (5 * 2 + 13) as u8);
    // Check the actual text bytes
    assert_eq!(&buf[2..7], b"hello");
    // Check that buffer length is correct
    assert_eq!(buf.len(), header_length + text.len());
}

#[test]
fn test_serialize_blob() {
    let blob: Vec<u8> = vec![1, 2, 3, 4, 5];
    let record = OwnedRecord::new(vec![OwnedValue::Blob(blob.clone())]);
    let mut buf = Vec::new();
    record.serialize(&mut buf).unwrap();

    let header_length = record.values.len() + 1;
    let header = &buf[0..header_length];
    // First byte should be header size
    assert_eq!(header[0], header_length as u8);
    // Second byte should be serial type for BLOB, which is (len * 2 + 12)
    assert_eq!(header[1], (5 * 2 + 12) as u8);
    // Check the actual blob bytes
    assert_eq!(&buf[2..7], &[1, 2, 3, 4, 5]);
    // Check that buffer length is correct
    assert_eq!(buf.len(), header_length + blob.len());
}

#[test]
fn test_serialize_mixed_types() {
    let text = "test".to_string();
    let record = OwnedRecord::new(vec![
        OwnedValue::Null,
        OwnedValue::Integer(42),
        OwnedValue::Float(3.14_f64.to_bits()),
        OwnedValue::Text(LimboText::new(text.clone())),
    ]);
    let mut buf = Vec::new();
    record.serialize(&mut buf).unwrap();

    let header_length = record.values.len() + 1;
    let header = &buf[0..header_length];
    // First byte should be header size
    assert_eq!(header[0], header_length as u8);
    // Second byte should be serial type for NULL
    assert_eq!(header[1] as u64, 0);
    // Third byte should be serial type for I8
    assert_eq!(header[2] as u64, 1);
    // Fourth byte should be serial type for F64
    assert_eq!(header[3] as u64, 7);
    // Fifth byte should be serial type for TEXT, which is (len * 2 + 13)
    assert_eq!(header[4] as u64, (4 * 2 + 13) as u64);

    // Check that the bytes after the header can be interpreted as the correct values
    let mut cur_offset = header_length;
    let i8_bytes = &buf[cur_offset..cur_offset + size_of::<i8>()];
    cur_offset += size_of::<i8>();
    let f64_bytes = &buf[cur_offset..cur_offset + size_of::<f64>()];
    cur_offset += size_of::<f64>();
    let text_bytes = &buf[cur_offset..cur_offset + text.len()];

    let val_int8 = i8::from_be_bytes(i8_bytes.try_into().unwrap());
    let val_float = f64::from_be_bytes(f64_bytes.try_into().unwrap());
    let val_text = String::from_utf8(text_bytes.to_vec()).unwrap();

    assert_eq!(val_int8, 42);
    assert_eq!(val_float, 3.14);
    assert_eq!(val_text, "test");

    // Check that buffer length is correct
    assert_eq!(
        buf.len(),
        header_length + size_of::<i8>() + size_of::<f64>() + text.len()
    );
}

#[test]
fn serialize_single_null_is_two_bytes() {
    let record = OwnedRecord::new(vec![OwnedValue::Null]);
    let mut buf = Vec::new();
    record.serialize(&mut buf).unwrap();
    assert_eq!(buf, vec![0x02, 0x00]);
}

#[test]
fn serialize_integer_forty_two() {
    let record = OwnedRecord::new(vec![OwnedValue::Integer(42)]);
    let mut buf = Vec::new();
    record.serialize(&mut buf).unwrap();
    assert_eq!(buf, vec![0x02, 0x01, 0x2a]);
}

#[test]
fn header_length_counts_single_byte_tags_plus_itself() {
    for n in [0usize, 1, 3, 10, 125] {
        let mut values = Vec::new();
        for i in 0..n {
            values.push(OwnedValue::Integer(i as i64 % 100));
        }
        let record = OwnedRecord::new(values);
        let mut buf = Vec::new();
        record.serialize(&mut buf).unwrap();
        assert_eq!(buf[0] as usize, n + 1);
    }
}

#[test]
fn serialize_rejects_oversized_header() {
    let mut values = Vec::new();
    for _ in 0..126 {
        values.push(OwnedValue::Null);
    }
    let record = OwnedRecord::new(values);
    let mut buf = Vec::new();
    buf.push(0xEE);
    let r = record.serialize(&mut buf);
    assert_eq!(r, Err(LimboError::NotSupported));
    // the buffer is untouched on failure
    assert_eq!(buf, vec![0xEE]);

    // one value fewer fits exactly
    let mut values = Vec::new();
    for _ in 0..125 {
        values.push(OwnedValue::Null);
    }
    let record = OwnedRecord::new(values);
    let mut buf = Vec::new();
    record.serialize(&mut buf).unwrap();
    assert_eq!(buf[0], 126);
}

#[test]
fn boundary_integers_classify_and_round_trip() {
    let cases: Vec<(i64, i64)> = vec![
        (-128, 1),
        (127, 1),
        (-32768, 2),
        (32767, 2),
        (-8388608, 3),
        (8388607, 3),
        (i32::MIN as i64, 4),
        (i32::MAX as i64, 4),
        (-140737488355328, 5),
        (140737488355327, 5),
        (i64::MIN, 6),
        (i64::MAX, 6),
        (0, 1),
        (-129, 2),
        (128, 2),
    ];
    for (value, expected_tag) in cases {
        let v = OwnedValue::Integer(value);
        assert_eq!(v.serial_type(), expected_tag as u64, "tag of {}", value);
        let record = OwnedRecord::new(vec![OwnedValue::Integer(value)]);
        let mut buf = Vec::new();
        record.serialize(&mut buf).unwrap();
        let back = OwnedRecord::deserialize(&buf).expect("decodes");
        assert_eq!(back.values, vec![OwnedValue::Integer(value)], "{}", value);
    }
}

#[test]
fn mixed_record_round_trips() {
    let record = OwnedRecord::new(vec![
        OwnedValue::Null,
        OwnedValue::Integer(-77),
        OwnedValue::Float(2.5_f64.to_bits()),
        OwnedValue::Text(LimboText::new("déjà vu".to_string())),
        OwnedValue::Blob(vec![0, 255, 7]),
    ]);
    let mut buf = Vec::new();
    record.serialize(&mut buf).unwrap();
    let back = OwnedRecord::deserialize(&buf).expect("decodes");
    assert_eq!(back, record);
}

#[test]
fn deserialize_rejects_corrupt_records() {
    // empty input
    assert!(OwnedRecord::deserialize(&[]).is_none());
    // header length beyond the buffer
    assert!(OwnedRecord::deserialize(&[9, 0]).is_none());
    // an undefined serial-type code
    assert!(OwnedRecord::deserialize(&[2, 8]).is_none());
    // truncated content
    assert!(OwnedRecord::deserialize(&[2, 1]).is_none());
    // trailing bytes
    assert!(OwnedRecord::deserialize(&[2, 0, 0]).is_none());
    // text content that is not valid UTF-8
    assert!(OwnedRecord::deserialize(&[2, 15, 0xff]).is_none());
}

#[test]
fn deserialize_decodes_utf8_text() {
    // relies on the UTF-8 decoding wrapper: the decoded string must equal
    // the encoded payload, not the raw argument handed back
    let record = OwnedRecord::new(vec![OwnedValue::Text(LimboText::new("αβ".to_string()))]);
    let mut buf = Vec::new();
    record.serialize(&mut buf).unwrap();
    let back = OwnedRecord::deserialize(&buf).expect("decodes");
    match &back.values[0] {
        OwnedValue::Text(t) => assert_eq!(t.value, "αβ"),
        other => panic!("expected text, got {:?}", other),
    }
}

#[test]
fn int_width_picks_narrowest() {
    // the widths behind the serial types, via the public tags
    assert_eq!(OwnedValue::Integer(0).serial_type(), 1);
    assert_eq!(OwnedValue::Integer(-32769).serial_type(), 3);
    assert_eq!(OwnedValue::Integer(8388608).serial_type(), 4);
}

#[test]
fn large_serial_types_use_multibyte_varints() {
    // a blob long enough that its tag needs a two-byte varint
    let blob = vec![7u8; 100];
    let record = OwnedRecord::new(vec![OwnedValue::Blob(blob.clone())]);
    let mut buf = Vec::new();
    record.serialize(&mut buf).unwrap();
    // tag = 100*2+12 = 212: varint [0x81, 0x54]
    assert_eq!(buf[0], 3);
    assert_eq!(buf[1], 0x81);
    assert_eq!(buf[2], 0x54);
    assert_eq!(&buf[3..], &blob[..]);
    let back = OwnedRecord::deserialize(&buf).expect("decodes");
    assert_eq!(back, record);
}
