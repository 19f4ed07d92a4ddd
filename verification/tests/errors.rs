use bellini::layout::{ENTRY_SIZE, REF_SIZE, ROOT_SIZE};
use bellini::{
    Archiver, BelliniSerializer, BelliniSerializerError, BelliniWriteSerializer, CheckedArchiver,
    DecodeError, Document, DuplicateSharedValue, EncodeError, Encoder, ScratchError,
    SharedRegistry, StackScratch, Text, Value, FOOTER_SIZE,
};

fn archive_of(doc: &Document) -> Vec<u8> {
    let mut encoder = Encoder::<4096, Vec<u8>>::new(Vec::new());
    let n = encoder.encode(doc).expect("encode");
    let mut frame = encoder.into_inner();
    frame.truncate(n - FOOTER_SIZE);
    frame
}

fn one_field(value: Value) -> Document {
    let mut doc = Document::with_capacity(1);
    doc.insert(Text::from("k"), value);
    doc
}

#[test]
fn scratch_space_is_a_hard_limit() {
    // Two fields need four words of scratch space: 32 bytes.
    let mut doc = Document::with_capacity(2);
    doc.insert(Text::from("a"), Value::U64(1));
    doc.insert(Text::from("b"), Value::U64(2));

    let mut small = Encoder::<31, Vec<u8>>::new(Vec::new());
    assert!(matches!(
        small.encode(&doc),
        Err(EncodeError::Serializer(BelliniSerializerError::ScratchSpaceError(
            ScratchError::OutOfSpace
        )))
    ));

    let mut enough = Encoder::<32, Vec<u8>>::new(Vec::new());
    assert!(enough.encode(&doc).is_ok());

    // A nested list needs its own words above those of its parent: one
    // for the key, one for the first item, two for the inner items.
    let nested = one_field(Value::ArrayDynamic(vec![
        Value::Null,
        Value::ArrayDynamic(vec![Value::Null, Value::Null]),
    ]));
    let mut small = Encoder::<31, Vec<u8>>::new(Vec::new());
    assert!(small.encode(&nested).is_err());
    let mut enough = Encoder::<32, Vec<u8>>::new(Vec::new());
    assert!(enough.encode(&nested).is_ok());

    // Texts in an array need one word each.
    let texts = one_field(Value::ArrayString(vec![Text::from("a"), Text::from("a")]));
    let mut small = Encoder::<23, Vec<u8>>::new(Vec::new());
    assert!(small.encode(&texts).is_err());
    let mut enough = Encoder::<24, Vec<u8>>::new(Vec::new());
    assert!(enough.encode(&texts).is_ok());

    // A document without fields needs none.
    let mut none = Encoder::<0, Vec<u8>>::new(Vec::new());
    assert!(none.encode(&Document::default()).is_ok());
}

#[test]
fn an_encoder_works_again_after_a_failure() {
    let mut encoder = Encoder::<16, Vec<u8>>::new(Vec::new());
    let mut big = Document::with_capacity(2);
    big.insert(Text::from("a"), Value::U64(1));
    big.insert(Text::from("b"), Value::U64(2));
    assert!(encoder.encode(&big).is_err());
    let small = one_field(Value::U64(1));
    assert!(encoder.encode(&small).is_ok());
}

#[test]
fn scratch_space_pushes_and_pops() {
    let mut scratch = StackScratch::<16>::new();
    assert_eq!(scratch.len(), 0);
    assert_eq!(scratch.push_scratch(7), Ok(()));
    assert_eq!(scratch.push_scratch(8), Ok(()));
    assert_eq!(scratch.push_scratch(9), Err(ScratchError::OutOfSpace));
    assert_eq!(scratch.len(), 2);
    assert_eq!(scratch.get(0), Some(7));
    assert_eq!(scratch.get(1), Some(8));
    assert_eq!(scratch.get(2), None);
    assert_eq!(scratch.pop_scratch(3), Err(ScratchError::NotPoppedInReverseOrder));
    assert_eq!(scratch.pop_scratch(1), Ok(()));
    assert_eq!(scratch.len(), 1);
    assert_eq!(scratch.get(0), Some(7));

    let mut none = StackScratch::<7>::default();
    assert_eq!(none.push_scratch(1), Err(ScratchError::OutOfSpace));
}

#[test]
fn registry_entries_are_written_once() {
    let mut registry = SharedRegistry::new();
    assert_eq!(registry.get_shared_ptr(b"abc"), None);
    assert_eq!(registry.add_shared_ptr(b"abc", 5), Ok(()));
    assert_eq!(registry.add_shared_ptr(b"", 9), Ok(()));
    assert_eq!(registry.get_shared_ptr(b"abc"), Some(5));
    assert_eq!(registry.get_shared_ptr(b""), Some(9));
    assert_eq!(registry.get_shared_ptr(b"abd"), None);
    assert_eq!(registry.add_shared_ptr(b"abc", 6), Err(DuplicateSharedValue));
    assert_eq!(registry.get_shared_ptr(b"abc"), Some(5));
    registry.clear();
    assert_eq!(registry.get_shared_ptr(b"abc"), None);
}

#[test]
fn serializer_reports_a_registry_conflict() {
    let mut serializer =
        BelliniSerializer::<64, _>::new(BelliniWriteSerializer::new(Vec::<u8>::new()));
    assert!(serializer.add_shared_ptr(b"x", 0).is_ok());
    let e = serializer.add_shared_ptr(b"x", 1).unwrap_err();
    assert!(matches!(e, BelliniSerializerError::SharedError(DuplicateSharedValue)));
    assert_eq!(e.message(), "shared memory error");
    assert_eq!(serializer.get_shared_ptr(b"x"), Some(0));

    let mut tiny = BelliniSerializer::<8, _>::new(BelliniWriteSerializer::new(Vec::<u8>::new()));
    assert!(tiny.push_scratch(1).is_ok());
    let e = tiny.push_scratch(2).unwrap_err();
    assert_eq!(e.message(), "scratch space error");
    assert!(tiny.pop_scratch(0).is_ok());
    assert!(tiny.pop_scratch(1).is_err());
}

#[test]
fn a_shared_run_is_written_once_by_the_serializer() {
    let mut serializer =
        BelliniSerializer::<64, _>::new(BelliniWriteSerializer::new(Vec::<u8>::new()));
    let first = serializer.serialize_bytes(b"shared").unwrap();
    let after_first = serializer.pos();
    let second = serializer.serialize_bytes(b"shared").unwrap();
    assert_eq!(first, 0);
    assert_eq!(second, first);
    assert_eq!(serializer.pos(), after_first);
    let third = serializer.serialize_bytes(b"other").unwrap();
    assert_eq!(third, 6);
    assert_eq!(serializer.align(16).unwrap(), 16);
    serializer.write(&[1, 2, 3]).unwrap();
    let bytes = serializer.into_inner_serializer().into_inner();
    assert_eq!(bytes, b"sharedother\0\0\0\0\0\x01\x02\x03");
}

#[test]
fn truncated_archive() {
    assert_eq!(CheckedArchiver::archive(&[]).err(), Some(DecodeError::Truncated));
    assert_eq!(CheckedArchiver::archive(&[0u8; 23]).err(), Some(DecodeError::Truncated));
    // Twenty-four zero bytes are long enough, but their reference to the
    // fields points at itself.
    assert_eq!(CheckedArchiver::archive(&[0u8; 24]).err(), Some(DecodeError::OutOfBounds));
    let mut empty = [0u8; 24];
    empty[0] = 5;
    empty[8] = 8;
    let view = CheckedArchiver::archive(&empty).expect("an empty document");
    assert_eq!(view.id(), 5);
    assert_eq!(view.len(), 0);
}

#[test]
fn malformed_tag() {
    let mut archive = archive_of(&one_field(Value::U64(3)));
    let root = archive.len() - ROOT_SIZE;
    // The only entry lies just before the document record; its value
    // record begins sixteen bytes in.
    let tag_at = root - ENTRY_SIZE + REF_SIZE;
    assert_eq!(archive[tag_at], 4);
    archive[tag_at] = 17;
    assert_eq!(
        CheckedArchiver::archive(&archive).err(),
        Some(DecodeError::MalformedTag { tag: 17 })
    );
    archive[tag_at] = 255;
    assert_eq!(
        CheckedArchiver::archive(&archive).err(),
        Some(DecodeError::MalformedTag { tag: 255 })
    );
}

#[test]
fn offset_out_of_bounds() {
    let archive = archive_of(&one_field(Value::String(Text::from("text"))));
    let root = archive.len() - ROOT_SIZE;

    // The field count of the document points before the start.
    let mut bad = archive.clone();
    bad[root + 16] = 200;
    assert_eq!(CheckedArchiver::archive(&bad).err(), Some(DecodeError::OutOfBounds));

    // The distance back of the fields is larger than the position.
    let mut bad = archive.clone();
    bad[root + 8 + 7] = 1;
    assert_eq!(CheckedArchiver::archive(&bad).err(), Some(DecodeError::OutOfBounds));

    // The length of the text reaches into its own record.
    let mut bad = archive.clone();
    let count_at = root - ENTRY_SIZE + REF_SIZE + 8 + 8;
    assert_eq!(bad[count_at], 4);
    bad[count_at] = 100;
    assert_eq!(CheckedArchiver::archive(&bad).err(), Some(DecodeError::OutOfBounds));
}

#[test]
fn text_that_is_not_utf8() {
    let mut archive = archive_of(&one_field(Value::String(Text::from("text"))));
    let at = archive.iter().position(|b| *b == b't').unwrap();
    archive[at] = 0xff;
    assert_eq!(CheckedArchiver::archive(&archive).err(), Some(DecodeError::InvalidUtf8));

    assert!(Text::from_utf8(vec![0xff, 0xfe]).is_none());
    assert!(Text::from_utf8(vec![0xc3]).is_none());
    let text = Text::from_utf8("grüße".as_bytes().to_vec()).expect("utf8");
    assert_eq!(text.as_str(), "grüße");
    assert_eq!(text.as_bytes(), "grüße".as_bytes());
    assert_eq!(text.len(), 7);
    assert_eq!(text.to_string(), "grüße".to_string());
}

#[test]
fn bytes_need_not_be_utf8() {
    let doc = one_field(Value::Bytes(vec![0xffu8, 0xfe].into()));
    let archive = archive_of(&doc);
    assert_eq!(CheckedArchiver::archive(&archive).unwrap().to_document(), doc);
}

#[test]
fn error_messages() {
    assert_eq!(DecodeError::Truncated.message(), "truncated frame");
    assert_eq!(DecodeError::OutOfBounds.to_string(), "offset out of bounds");
    assert_eq!(DecodeError::InvalidUtf8.message(), "text is not UTF-8");
    assert_eq!(DecodeError::MalformedTag { tag: 1 }.message(), "malformed variant tag");
    assert_eq!(
        DecodeError::ChecksumMismatch { expected: 1, actual: 2 }.message(),
        "checksum mismatch"
    );
}
