use bellini::{
    ArchivedValue, Archiver, BelliniSerializer, BelliniWriteSerializer, Bytes, Checksum,
    CheckedArchiver, ChecksumAndLenWriter, Document, Encoder, Serializer, Text, UnsafeArchiver,
    Value, Writer,
};
use rkyv::AlignedVec;

fn value_round_trip(value: &Value) -> Vec<u8> {
    let mut serializer =
        BelliniSerializer::<256, _>::new(BelliniWriteSerializer::new(Vec::<u8>::new()));
    let pos = serializer.serialize_value(value).expect("serialize");
    assert_eq!(pos % 8, 0);
    let bytes = serializer.into_inner_serializer().into_inner();
    assert_eq!(pos + 24, bytes.len());
    let view = ArchivedValue::checked(&bytes, pos).expect("a sound value");
    assert_eq!(view.as_type(), value.as_type());
    assert_eq!(&view.to_value(), value);
    bytes
}

#[test]
fn scalars_are_read_in_place() {
    let bytes = value_round_trip(&Value::U64(0x0102_0304_0506_0708));
    assert_eq!(
        bytes,
        vec![4, 0, 0, 0, 0, 0, 0, 0, 8, 7, 6, 5, 4, 3, 2, 1, 0, 0, 0, 0, 0, 0, 0, 0]
    );
    let view = ArchivedValue::checked(&bytes, 0).unwrap();
    assert_eq!(view.as_u64(), Some(0x0102_0304_0506_0708));
    assert_eq!(view.as_i64(), None);
    assert_eq!(view.as_bool(), None);

    let bytes = value_round_trip(&Value::I64(-2));
    assert_eq!(ArchivedValue::checked(&bytes, 0).unwrap().as_i64(), Some(-2));
    let bytes = value_round_trip(&Value::Date(-3));
    assert_eq!(ArchivedValue::checked(&bytes, 0).unwrap().as_date(), Some(-3));
    let bytes = value_round_trip(&Value::F64(2.5f64.to_bits()));
    let bits = ArchivedValue::checked(&bytes, 0).unwrap().as_f64_bits().unwrap();
    assert_eq!(f64::from_bits(bits), 2.5);
    let bytes = value_round_trip(&Value::Bool(true));
    assert_eq!(ArchivedValue::checked(&bytes, 0).unwrap().as_bool(), Some(true));
    let bytes = value_round_trip(&Value::Bool(false));
    assert_eq!(ArchivedValue::checked(&bytes, 0).unwrap().as_bool(), Some(false));
    value_round_trip(&Value::Null);
}

#[test]
fn a_string_is_its_bytes_then_its_record() {
    let bytes = value_round_trip(&Value::String(Text::from("Hello, world!")));
    assert_eq!(&bytes[..13], b"Hello, world!");
    assert_eq!(&bytes[13..16], &[0, 0, 0]);
    assert_eq!(bytes[16], 2);
    // The reference lies at 24: the text begins 24 bytes before it and
    // is 13 bytes long.
    assert_eq!(&bytes[24..32], &24u64.to_le_bytes());
    assert_eq!(&bytes[32..40], &13u64.to_le_bytes());
    let view = ArchivedValue::checked(&bytes, 16).unwrap();
    let text = view.as_text().unwrap();
    assert_eq!(text.as_str(), "Hello, world!");
    assert_eq!(text.as_bytes().as_ptr(), bytes.as_ptr());
    assert_eq!(text.len(), 13);
    assert_eq!(text.to_text(), Text::from("Hello, world!"));
    assert!(view.as_bytes().is_none());
}

#[test]
fn typed_arrays_are_read_in_place() {
    let bytes = value_round_trip(&Value::ArrayU64(vec![1, 2, 3]));
    let view = ArchivedValue::checked(&bytes, bytes.len() - 24).unwrap();
    assert_eq!(view.u64s(), Some(vec![1, 2, 3]));
    assert_eq!(view.i64s(), None);
    assert!(view.items().is_none());

    let bytes = value_round_trip(&Value::ArrayI64(vec![-1, 2]));
    let view = ArchivedValue::checked(&bytes, bytes.len() - 24).unwrap();
    assert_eq!(view.i64s(), Some(vec![-1, 2]));

    let bytes = value_round_trip(&Value::ArrayDate(vec![-1, 2]));
    let view = ArchivedValue::checked(&bytes, bytes.len() - 24).unwrap();
    assert_eq!(view.dates(), Some(vec![-1, 2]));

    let bytes = value_round_trip(&Value::ArrayF64(vec![1.0f64.to_bits()]));
    let view = ArchivedValue::checked(&bytes, bytes.len() - 24).unwrap();
    assert_eq!(view.f64s_bits(), Some(vec![1.0f64.to_bits()]));

    let bytes = value_round_trip(&Value::ArrayBool(vec![true, false]));
    let view = ArchivedValue::checked(&bytes, bytes.len() - 24).unwrap();
    assert_eq!(view.bools(), Some(vec![true, false]));

    let bytes =
        value_round_trip(&Value::ArrayString(vec![Text::from("a"), Text::from("bc")]));
    let view = ArchivedValue::checked(&bytes, bytes.len() - 24).unwrap();
    let texts = view.texts().unwrap();
    assert_eq!(texts.len(), 2);
    assert_eq!(texts[0].as_str(), "a");
    assert_eq!(texts[1].as_str(), "bc");

    let bytes = value_round_trip(&Value::ArrayBytes(vec![Bytes::from(vec![9u8, 8])]));
    let view = ArchivedValue::checked(&bytes, bytes.len() - 24).unwrap();
    let blobs = view.byte_strings().unwrap();
    assert_eq!(blobs[0].as_slice(), &[9, 8]);
    assert_eq!(blobs[0].len(), 2);
    assert_eq!(blobs[0].to_bytes(), Bytes::from(vec![9u8, 8]));
}

#[test]
fn nested_values_are_reached_through_views() {
    let value = Value::Object(vec![
        (Text::from("list"), Value::ArrayDynamic(vec![Value::U64(1), Value::Null])),
        (Text::from("list"), Value::Bytes(Bytes::from(vec![1u8, 2, 3]))),
    ]);
    let bytes = value_round_trip(&value);
    let view = ArchivedValue::checked(&bytes, bytes.len() - 24).unwrap();
    let entries = view.entries().unwrap();
    assert_eq!(entries.len(), 2);
    assert_eq!(entries[0].0.as_str(), "list");
    assert_eq!(entries[1].0.as_str(), "list");
    let items = entries[0].1.items().unwrap();
    assert_eq!(items.len(), 2);
    assert_eq!(items[0].as_u64(), Some(1));
    assert_eq!(items[1].as_type(), "null");
    assert_eq!(entries[1].1.as_bytes().unwrap().as_slice(), &[1, 2, 3]);
}

#[test]
fn both_archivers_read_what_an_encoder_wrote() {
    let mut doc = Document::with_capacity(1);
    doc.set_id(42);
    doc.insert(Text::from("k"), Value::from(vec![1u64, 2]));
    let mut encoder = Encoder::<64, AlignedVec>::new(AlignedVec::new());
    let n = encoder.encode(&doc).unwrap();
    let frame = encoder.into_inner();
    assert_eq!(frame.len(), n);
    let archive = &frame[..n - 8];

    let checked = CheckedArchiver::archive(archive).unwrap();
    let trusted = UnsafeArchiver::archive(archive).unwrap();
    assert_eq!(checked.id(), 42);
    assert_eq!(trusted.id(), 42);
    assert_eq!(checked.to_document(), doc);
    assert_eq!(trusted.to_document(), doc);
    assert_eq!(trusted.as_bytes(), archive);
}

#[test]
fn sinks_append_and_count() {
    let mut aligned = AlignedVec::new();
    Writer::write_all(&mut aligned, &[1, 2]).unwrap();
    Writer::write_all(&mut aligned, &[]).unwrap();
    Writer::write_all(&mut aligned, &[3]).unwrap();
    assert_eq!(aligned.as_slice(), &[1, 2, 3]);

    let mut plain: Vec<u8> = vec![9];
    Writer::write_all(&mut plain, &[1, 2]).unwrap();
    assert_eq!(plain, vec![9, 1, 2]);

    let mut counting = BelliniWriteSerializer::new(vec![7u8]);
    assert_eq!(counting.pos(), 0);
    counting.write(&[1, 2, 3]).unwrap();
    assert_eq!(counting.pos(), 3);
    counting.pad(2).unwrap();
    assert_eq!(counting.pos(), 5);
    assert_eq!(counting.align(8).unwrap(), 8);
    assert_eq!(counting.align(4).unwrap(), 8);
    counting.writer_mut().push(0xaa);
    assert_eq!(counting.pos(), 8);
    counting.restart();
    assert_eq!(counting.pos(), 0);
    assert_eq!(counting.into_inner(), vec![7, 1, 2, 3, 0, 0, 0, 0, 0, 0xaa]);
}

#[test]
fn the_checksum_writer_closes_frames() {
    let mut writer = ChecksumAndLenWriter::new(Vec::<u8>::new());
    writer.write(b"1234").unwrap();
    writer.write(b"56789").unwrap();
    assert_eq!(writer.pos(), 9);
    writer.finish().unwrap();
    assert_eq!(writer.pos(), 0);
    writer.finish().unwrap();
    let bytes = writer.into_inner();
    let mut expected = b"123456789".to_vec();
    expected.extend_from_slice(&0xCBF4_3926u32.to_le_bytes());
    expected.extend_from_slice(&9u32.to_le_bytes());
    expected.extend_from_slice(&0u32.to_le_bytes());
    expected.extend_from_slice(&0u32.to_le_bytes());
    assert_eq!(bytes, expected);

    let mut running = Checksum::new();
    running.update(b"12345");
    running.update(b"");
    running.update(b"6789");
    assert_eq!(running.value(), 0xCBF4_3926);
}
