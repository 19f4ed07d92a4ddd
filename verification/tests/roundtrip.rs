use bellini::{
    checksum, from_bytes, to_bytes, ArchivedIterator, Archiver, BufferWalker, Bytes,
    CheckedArchiver, DecodeError, Decoder, DeserializerIterator, Document, Encoder, Text, Value,
    FOOTER_SIZE,
};

fn sample() -> Document {
    let mut doc = Document::with_capacity(2);
    doc.set_id(7);
    doc.insert(Text::from("name"), Value::String(Text::from("a")));
    doc.insert(Text::from("age"), Value::U64(3));
    doc
}

fn encode_one(doc: &Document) -> Vec<u8> {
    to_bytes::<4096>(doc).expect("encode")
}

#[test]
fn one_document_to_bytes_and_back() {
    let frame = to_bytes::<64>(&sample()).expect("encode");
    assert_eq!(from_bytes(&frame), Ok(sample()));
    assert_eq!(from_bytes(&[]), Err(DecodeError::Truncated));
    assert_eq!(from_bytes(&frame[1..]), Err(DecodeError::Truncated));

    // Of several frames, the one that closes the buffer is decoded.
    let mut other = sample();
    other.set_id(8);
    let mut both = frame.clone();
    both.extend_from_slice(&to_bytes::<64>(&other).unwrap());
    assert_eq!(from_bytes(&both), Ok(other));

    let mut bad = frame.clone();
    bad[0] ^= 1;
    assert!(matches!(from_bytes(&bad), Err(DecodeError::ChecksumMismatch { .. })));
    assert!(to_bytes::<8>(&sample()).is_err());
}

#[test]
fn worked_example() {
    let frame = encode_one(&sample());
    let n = frame.len() - FOOTER_SIZE;
    let declared = u32::from_le_bytes(frame[n + 4..].try_into().unwrap());
    let stored = u32::from_le_bytes(frame[n..n + 4].try_into().unwrap());
    assert_eq!(declared as usize, n);
    assert_eq!(stored, checksum(&frame[..n]));

    let view = CheckedArchiver::archive(&frame[..n]).expect("archive");
    assert_eq!(view.id(), 7);
    let fields = view.fields();
    assert_eq!(fields.len(), 2);
    assert_eq!(fields[0].0.as_str(), "name");
    assert_eq!(fields[0].1.as_text().unwrap().as_str(), "a");
    assert_eq!(fields[1].0.as_str(), "age");
    assert_eq!(fields[1].1.as_u64(), Some(3));
    assert_eq!(view.to_document(), sample());
}

#[test]
fn worked_example_byte_by_byte() {
    fn word(x: u64) -> [u8; 8] {
        x.to_le_bytes()
    }
    let frame = encode_one(&sample());
    let mut expected: Vec<u8> = Vec::new();
    // The keys and the text, each once, in the order of the fields.
    expected.extend_from_slice(b"name");
    expected.extend_from_slice(b"a");
    expected.extend_from_slice(b"age");
    // The first entry at 8: the key lies 8 back and is 4 long; the
    // string record refers 28 back from 32 to 1 byte.
    expected.extend_from_slice(&word(8));
    expected.extend_from_slice(&word(4));
    expected.extend_from_slice(&word(2));
    expected.extend_from_slice(&word(28));
    expected.extend_from_slice(&word(1));
    // The second entry at 48: the key lies 43 back and is 3 long; the
    // number lies in its record.
    expected.extend_from_slice(&word(43));
    expected.extend_from_slice(&word(3));
    expected.extend_from_slice(&word(4));
    expected.extend_from_slice(&word(3));
    expected.extend_from_slice(&word(0));
    // The document record at 88: the identifier, then the fields, which
    // lie 88 back from 96 and are 2.
    expected.extend_from_slice(&word(7));
    expected.extend_from_slice(&word(88));
    expected.extend_from_slice(&word(2));
    assert_eq!(expected.len(), 112);
    let sum = checksum(&expected);
    expected.extend_from_slice(&sum.to_le_bytes());
    expected.extend_from_slice(&112u32.to_le_bytes());
    assert_eq!(frame, expected);
}

#[test]
fn round_trip_of_every_kind() {
    let mut doc = Document::with_capacity(20);
    doc.set_id(u64::MAX);
    doc.insert(Text::from("null"), Value::Null);
    doc.insert(Text::from("yes"), Value::Bool(true));
    doc.insert(Text::from("no"), Value::Bool(false));
    doc.insert(Text::from("s"), Value::String(Text::from("héllo")));
    doc.insert(Text::from("b"), Value::Bytes(Bytes::from(vec![0u8, 255, 7])));
    doc.insert(Text::from("u"), Value::U64(u64::MAX));
    doc.insert(Text::from("i"), Value::I64(i64::MIN));
    doc.insert(Text::from("f"), Value::F64(1.5f64.to_bits()));
    doc.insert(Text::from("d"), Value::Date(-1));
    doc.insert(Text::from("ab"), Value::ArrayBool(vec![true, false, true]));
    doc.insert(
        Text::from("as"),
        Value::ArrayString(vec![Text::from("x"), Text::from(""), Text::from("x")]),
    );
    doc.insert(
        Text::from("aby"),
        Value::ArrayBytes(vec![Bytes::from(vec![1u8]), Bytes::from(vec![])]),
    );
    doc.insert(Text::from("au"), Value::ArrayU64(vec![1, 2, 3]));
    doc.insert(Text::from("ai"), Value::ArrayI64(vec![-1, 0, 1]));
    doc.insert(Text::from("af"), Value::ArrayF64(vec![0.25f64.to_bits(), (-2.0f64).to_bits()]));
    doc.insert(Text::from("ad"), Value::ArrayDate(vec![i64::MAX, i64::MIN]));
    doc.insert(
        Text::from("dyn"),
        Value::ArrayDynamic(vec![
            Value::U64(1),
            Value::String(Text::from("two")),
            Value::ArrayDynamic(vec![Value::Null, Value::ArrayU64(vec![9])]),
        ]),
    );
    doc.insert(
        Text::from("obj"),
        Value::Object(vec![
            (Text::from("k"), Value::Object(vec![(Text::from("k"), Value::I64(-5))])),
            (Text::from("k"), Value::Null),
        ]),
    );
    doc.insert(Text::from("empty"), Value::ArrayDynamic(vec![]));
    doc.insert(Text::from("s"), Value::Object(vec![]));

    let frame = encode_one(&doc);
    let decoded = Decoder::new(&frame).decode().expect("decode");
    assert_eq!(decoded.len(), 1);
    assert_eq!(decoded[0], doc);

    let bits = decoded[0].fields()[7].1.clone();
    match bits {
        Value::F64(b) => assert_eq!(f64::from_bits(b), 1.5),
        other => panic!("unexpected {:?}", other),
    }
}

#[test]
fn empty_document_round_trips() {
    let doc = Document::default();
    let frame = encode_one(&doc);
    assert_eq!(frame.len(), 24 + FOOTER_SIZE);
    let decoded = Decoder::new(&frame).decode().expect("decode");
    assert_eq!(decoded, vec![doc]);
}

#[test]
fn array_typing_distinction() {
    let mut typed = Document::with_capacity(1);
    typed.insert(Text::from("v"), Value::ArrayU64(vec![1, 2, 3]));
    let mut dynamic = Document::with_capacity(1);
    dynamic.insert(
        Text::from("v"),
        Value::ArrayDynamic(vec![Value::U64(1), Value::U64(2), Value::U64(3)]),
    );

    let a = encode_one(&typed);
    let b = encode_one(&dynamic);
    assert_ne!(a, b);

    let a = Decoder::new(&a).decode().unwrap();
    let b = Decoder::new(&b).decode().unwrap();
    assert_eq!(a[0].fields()[0].1, Value::ArrayU64(vec![1, 2, 3]));
    assert_eq!(a[0].fields()[0].1.as_type(), "array<u64>");
    assert_eq!(b[0].fields()[0].1.as_type(), "array<any>");
    assert_ne!(a[0], b[0]);
}

#[test]
fn identical_text_is_written_once() {
    let long = "a text long enough to be seen in the size of a frame";
    let other = "b text long enough to be seen in the size of a frame";
    let mut twice = Document::with_capacity(2);
    twice.insert(Text::from("x"), Value::String(Text::from(long)));
    twice.insert(Text::from("y"), Value::String(Text::from(long)));
    let mut distinct = Document::with_capacity(2);
    distinct.insert(Text::from("x"), Value::String(Text::from(long)));
    distinct.insert(Text::from("y"), Value::String(Text::from(other)));

    let shared = encode_one(&twice);
    let copies = encode_one(&distinct);
    assert!(shared.len() < copies.len());
    assert!(copies.len() - shared.len() >= long.len());

    let decoded = Decoder::new(&shared).decode().unwrap();
    assert_eq!(decoded[0], twice);
    assert_eq!(decoded[0].fields()[0].1, decoded[0].fields()[1].1);
}

#[test]
fn short_identical_texts_vanish_in_the_padding() {
    let mut twice = Document::with_capacity(2);
    twice.insert(Text::from("x"), Value::String(Text::from("a")));
    twice.insert(Text::from("y"), Value::String(Text::from("a")));
    let mut distinct = Document::with_capacity(2);
    distinct.insert(Text::from("x"), Value::String(Text::from("a")));
    distinct.insert(Text::from("y"), Value::String(Text::from("b")));
    assert_eq!(encode_one(&twice).len(), encode_one(&distinct).len());

    // Eight bytes or more always show.
    let mut twice = Document::with_capacity(2);
    twice.insert(Text::from("x"), Value::String(Text::from("12345678")));
    twice.insert(Text::from("y"), Value::String(Text::from("12345678")));
    let mut distinct = Document::with_capacity(2);
    distinct.insert(Text::from("x"), Value::String(Text::from("12345678")));
    distinct.insert(Text::from("y"), Value::String(Text::from("1234567x")));
    assert_eq!(encode_one(&twice).len() + 8, encode_one(&distinct).len());
}

#[test]
fn frames_come_back_in_encode_order() {
    let mut encoder = Encoder::<4096, Vec<u8>>::new(Vec::new());
    let mut lengths = 0usize;
    for id in 0..5u64 {
        let mut doc = sample();
        doc.set_id(id);
        doc.insert(Text::from("n"), Value::ArrayU64(vec![id; id as usize]));
        lengths += encoder.encode(&doc).expect("encode");
    }
    let buffer = encoder.into_inner();
    assert_eq!(lengths, buffer.len());

    let mut walk = ArchivedIterator::new(&buffer);
    assert_eq!(walk.remaining(), 5);
    let mut sum = 0usize;
    for id in 0..5u64 {
        let view = walk.next().expect("a frame").expect("a sound frame");
        assert_eq!(view.id(), id);
        assert_eq!(view.len(), 3);
        sum += view.as_bytes().len() + FOOTER_SIZE;
    }
    assert!(walk.next().is_none());
    assert_eq!(sum, buffer.len());

    let mut owned = DeserializerIterator::new(&buffer);
    for id in 0..5u64 {
        assert_eq!(owned.next().unwrap().unwrap().id(), id);
    }
    assert!(owned.next().is_none());
}

#[test]
fn every_single_bit_flip_is_a_checksum_mismatch() {
    let frame = encode_one(&sample());
    let n = frame.len() - FOOTER_SIZE;
    for index in 0..n {
        for bit in 0..8 {
            let mut bad = frame.clone();
            bad[index] ^= 1 << bit;
            assert_ne!(checksum(&bad[..n]), checksum(&frame[..n]));
            let mut walker = BufferWalker::new(&bad);
            match walker.next_frame() {
                Some(Err(DecodeError::ChecksumMismatch { expected, actual })) => {
                    assert_eq!(expected, checksum(&frame[..n]));
                    assert_eq!(actual, checksum(&bad[..n]));
                }
                other => panic!("unexpected {:?}", other),
            }
            assert_eq!(walker.cursor(), 0);
            assert!(walker.next_frame().is_none());
        }
    }
}

#[test]
fn a_corrupt_frame_does_not_stop_the_walk() {
    let mut encoder = Encoder::<4096, Vec<u8>>::new(Vec::new());
    let first = encoder.encode(&sample()).unwrap();
    encoder.encode(&sample()).unwrap();
    encoder.encode(&sample()).unwrap();
    let mut buffer = encoder.into_inner();
    buffer[first + 3] ^= 0x40;

    let mut walk = DeserializerIterator::new(&buffer);
    assert_eq!(walk.next().unwrap().unwrap(), sample());
    assert!(matches!(walk.next(), Some(Err(DecodeError::ChecksumMismatch { .. }))));
    assert_eq!(walk.next().unwrap().unwrap(), sample());
    assert!(walk.next().is_none());

    assert!(matches!(
        Decoder::new(&buffer).decode(),
        Err(DecodeError::ChecksumMismatch { .. })
    ));
}

#[test]
fn truncated_buffers_are_reported() {
    let frame = encode_one(&sample());
    for cut in 1..frame.len() {
        let short = &frame[cut..];
        let mut walker = BufferWalker::new(short);
        assert_eq!(walker.next_frame(), Some(Err(DecodeError::Truncated)));
        assert_eq!(walker.cursor(), 0);
        assert_eq!(walker.next_frame(), None);

        let mut walk = ArchivedIterator::new(short);
        assert_eq!(walk.remaining(), 1);
        assert!(matches!(walk.next(), Some(Err(DecodeError::Truncated))));
        assert!(walk.next().is_none());
    }
    let mut empty = BufferWalker::new(&[]);
    assert_eq!(empty.next_frame(), None);
    assert!(BufferWalker::at(&frame, frame.len() + 1).is_none());
}

#[test]
fn leading_garbage_is_one_truncation_before_the_frames() {
    let frame = encode_one(&sample());
    let mut buffer = vec![1u8, 2, 3];
    buffer.extend_from_slice(&frame);
    buffer.extend_from_slice(&frame);
    let mut walk = DeserializerIterator::new(&buffer);
    assert_eq!(walk.remaining(), 3);
    assert_eq!(walk.next(), Some(Err(DecodeError::Truncated)));
    assert_eq!(walk.next(), Some(Ok(sample())));
    assert_eq!(walk.next(), Some(Ok(sample())));
    assert_eq!(walk.next(), None);
}
