use bellini::{ArchivedValue, BelliniSerializer, BelliniWriteSerializer, Text, Value};
use rkyv::ser::serializers::AlignedSerializer;
use rkyv::AlignedVec;
use std::io::Write;

#[test]
fn test_bellini_serializer() {
    let mut serializer =
        BelliniSerializer::<64, _>::new(AlignedSerializer::new(AlignedVec::new()));

    let msg = "Hello, world!".to_string();
    let pos = serializer
        .serialize_value(&Value::String(Text::from(msg.clone())))
        .expect("Serialize string");

    assert_eq!(pos, 16, "Position start should be 0");
    let data = serializer.into_inner_serializer().into_inner();

    let msg_returned = ArchivedValue::checked(&data, pos)
        .expect("Deserialize type.")
        .as_text()
        .expect("Deserialize type.")
        .as_str()
        .to_string();
    assert_eq!(msg, msg_returned);
}

#[test]
fn test_bellini_writer_serializer() {
    let mut serializer =
        BelliniSerializer::<64, _>::new(BelliniWriteSerializer::new(AlignedVec::new()));

    let msg = "Hello, world!".to_string();
    let pos = serializer
        .serialize_value(&Value::String(Text::from(msg.clone())))
        .expect("Serialize string");

    assert_eq!(pos, 16, "Position start should be 0");
    let mut serializer = serializer.into_inner_serializer();
    serializer.writer_mut().flush().expect("Flush data");
    let data = serializer.into_inner();

    let msg_returned = ArchivedValue::checked(&data, pos)
        .expect("Deserialize type.")
        .as_text()
        .expect("Deserialize type.")
        .as_str()
        .to_string();
    assert_eq!(msg, msg_returned);
}
