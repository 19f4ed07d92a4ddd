use bellini::{checksum, Bytes, Document, Text, Value};

#[test]
fn checksum_of_check_string() {
    assert_eq!(checksum(b"123456789"), 0xCBF4_3926);
}

#[test]
fn checksum_of_nothing() {
    assert_eq!(checksum(b""), 0);
}

#[test]
fn checksum_of_known_strings() {
    assert_eq!(checksum(b"a"), 0xE8B7_BE43);
    assert_eq!(checksum(b"The quick brown fox jumps over the lazy dog"), 0x414F_A339);
    assert_eq!(checksum(&[0u8; 32]), 0x190A_55AD);
}

#[test]
fn document_keeps_insertion_order() {
    let mut doc = Document::with_capacity(2);
    assert_eq!(doc.id(), 0);
    assert_eq!(doc.len(), 0);
    doc.insert("name", Value::String(Text::from("a")));
    doc.insert("age".to_string(), Value::U64(3));
    doc.push(Text::from("last"), Value::Null);
    assert_eq!(doc.len(), 3);
    assert_eq!(doc.fields()[2].0.as_str(), "last");
    let mut fields = doc.into_fields();
    fields.pop();
    let mut doc = Document::from(fields);
    doc.set_id(7);
    assert_eq!(doc.id(), 7);
    assert_eq!(doc.fields().len(), 2);
    assert_eq!(doc.fields()[0].0.as_str(), "name");
    assert_eq!(doc.fields()[1].1, Value::U64(3));
}

#[test]
fn duplicate_keys_are_all_kept() {
    let mut doc = Document::default();
    doc.insert(Text::from("k"), Value::U64(1));
    doc.insert(Text::from("k"), Value::U64(2));
    assert_eq!(doc.len(), 2);
    assert_eq!(doc.fields()[0].1, Value::U64(1));
    assert_eq!(doc.fields()[1].1, Value::U64(2));
}

#[test]
fn fields_can_be_changed_in_place_and_taken_out() {
    let mut doc = Document::from(vec![(Text::from("k"), Value::Null)]);
    assert_eq!(doc.id(), 0);
    doc.fields_mut()[0].1 = Value::Bool(true);
    let copy = doc.clone();
    assert_eq!(copy, doc);
    let fields = doc.into_fields();
    assert_eq!(fields, vec![(Text::from("k"), Value::Bool(true))]);
    assert_eq!(Document::from_fields(fields), copy);
}

#[test]
fn kinds_have_stable_names() {
    let names = [
        (Value::Null, "null"),
        (Value::Bool(true), "bool"),
        (Value::String(Text::from("")), "string"),
        (Value::Bytes(Bytes::new(vec![])), "bytes"),
        (Value::U64(0), "u64"),
        (Value::I64(0), "i64"),
        (Value::F64(0), "f64"),
        (Value::Date(0), "datetime"),
        (Value::ArrayBool(vec![]), "array<bool>"),
        (Value::ArrayString(vec![]), "array<string>"),
        (Value::ArrayBytes(vec![]), "array<bytes>"),
        (Value::ArrayU64(vec![]), "array<u64>"),
        (Value::ArrayI64(vec![]), "array<i64>"),
        (Value::ArrayF64(vec![]), "array<f64>"),
        (Value::ArrayDate(vec![]), "array<datetime>"),
        (Value::ArrayDynamic(vec![]), "array<any>"),
        (Value::Object(vec![]), "object"),
    ];
    for (value, name) in names.iter() {
        assert_eq!(value.as_type(), *name);
        assert_eq!(value.to_string(), name.to_string());
    }
    // The name depends on the kind alone.
    assert_eq!(Value::U64(1).as_type(), Value::U64(2).as_type());
    assert_ne!(Value::U64(1), Value::U64(2));
}

#[test]
fn values_from_plain_values() {
    assert_eq!(Value::from(true), Value::Bool(true));
    assert_eq!(Value::from(3u64), Value::U64(3));
    assert_eq!(Value::from(-3i64), Value::I64(-3));
    assert_eq!(Value::from("s"), Value::String(Text::from("s")));
    assert_eq!(Value::from("s".to_string()), Value::String(Text::from("s")));
    assert_eq!(Value::from(Text::from("s")), Value::String(Text::from("s")));
    assert_eq!(Value::from(vec![1u8]), Value::Bytes(Bytes::from(vec![1u8])));
    assert_eq!(Value::from(Bytes::from(vec![1u8])), Value::Bytes(Bytes::new(vec![1u8])));
    assert_eq!(Value::from(vec![true]), Value::ArrayBool(vec![true]));
    assert_eq!(Value::from(vec![1u64]), Value::ArrayU64(vec![1]));
    assert_eq!(Value::from(vec![1i64]), Value::ArrayI64(vec![1]));
    assert_eq!(Value::from(vec![Text::from("a")]), Value::ArrayString(vec![Text::from("a")]));
    assert_eq!(
        Value::from(vec![Bytes::new(vec![1])]),
        Value::ArrayBytes(vec![Bytes::new(vec![1])])
    );
}

#[test]
fn text_and_bytes_compare_by_their_bytes() {
    assert_eq!(Text::from("a"), Text::from("a".to_string()));
    assert_ne!(Text::from("a"), Text::from("A"));
    assert_eq!(Text::from("ab").clone().as_str(), "ab");
    let bytes = Bytes::from(vec![1u8, 2]);
    assert_eq!(bytes.as_slice(), &[1, 2]);
    assert_eq!(bytes.len(), 2);
    assert_eq!(bytes.clone(), bytes);
    assert_ne!(bytes, Bytes::new(vec![1u8, 3]));
}

#[test]
fn equality_is_structural() {
    let a = Value::Object(vec![(Text::from("k"), Value::ArrayU64(vec![1, 2]))]);
    let b = Value::Object(vec![(Text::from("k"), Value::ArrayU64(vec![1, 2]))]);
    let c = Value::Object(vec![(Text::from("K"), Value::ArrayU64(vec![1, 2]))]);
    let d = Value::Object(vec![(Text::from("k"), Value::ArrayI64(vec![1, 2]))]);
    assert!(a.equals(&b));
    assert!(!a.equals(&c));
    assert!(!a.equals(&d));
    assert!(!Value::ArrayU64(vec![1]).equals(&Value::ArrayDynamic(vec![Value::U64(1)])));
    assert!(!Value::ArrayU64(vec![1]).equals(&Value::ArrayU64(vec![1, 1])));
    assert!(Value::Null.equals(&Value::Null));
    assert!(Text::from("a").equals(&Text::from("a")));
    assert!(!Bytes::new(vec![1]).equals(&Bytes::new(vec![2])));

    let mut x = Document::default();
    x.insert("k", Value::Bool(true));
    let mut y = Document::default();
    y.insert("k", Value::Bool(true));
    assert!(x.equals(&y));
    y.set_id(1);
    assert!(!x.equals(&y));
    // Equality of every kind agrees with the derived one.
    for (p, q) in [(&a, &b), (&a, &c), (&a, &d)] {
        assert_eq!(p.equals(q), p == q);
    }
}

#[test]
fn a_deep_copy_is_equal() {
    let value = Value::Object(vec![(
        Text::from("k"),
        Value::ArrayDynamic(vec![
            Value::ArrayString(vec![Text::from("x")]),
            Value::ArrayBytes(vec![Bytes::new(vec![1])]),
            Value::ArrayBool(vec![true]),
            Value::ArrayU64(vec![1]),
            Value::ArrayI64(vec![-1]),
            Value::ArrayF64(vec![7]),
            Value::ArrayDate(vec![8]),
            Value::Null,
        ]),
    )]);
    assert_eq!(value.clone(), value);
    assert_eq!(value.duplicate(), value);
}
