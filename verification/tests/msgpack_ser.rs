use rmp::decode::{read_array_len, read_bin_len, read_int, read_map_len, read_marker, read_str, Bytes, RmpRead};
use rmp::encode::{write_array_len, write_bin, write_nil, write_sint, write_str, write_uint};
use rmp::Marker;
use socketioxide::packet::{BinaryPacket, MsgPackValue, Packet, PacketData, Value};
use socketioxide::parser::msgpack::ser::{serialize_ack_data, serialize_event_data, serialize_packet};

const BIN: [u8; 4] = [1, 2, 3, 4];

fn assert_str(bytes: &mut Bytes<'_>, val: &str) {
    let mut buff = [0; 256];
    assert_eq!(read_str(bytes, &mut buff).unwrap(), val);
}

fn msgpack(data: Vec<u8>, attachments: usize) -> Value {
    Value::MsgPack(MsgPackValue::new(data, attachments))
}

#[test]
fn serialize_packet_event() {
    let mut data = Vec::new();
    write_array_len(&mut data, 3).unwrap();
    write_uint(&mut data, 1).unwrap();
    write_uint(&mut data, 2).unwrap();
    write_uint(&mut data, 3).unwrap();
    let packet = Packet {
        ns: "/test".into(),
        inner: PacketData::Event("test_event".into(), msgpack(data, 0), Some(42)),
    };
    let index = packet.inner.index();
    let serialized = serialize_packet(packet);
    let mut bytes = Bytes::new(&serialized);

    assert_eq!(read_map_len(&mut bytes).unwrap(), 4);
    assert_str(&mut bytes, "type");
    assert_eq!(read_int::<usize, _>(&mut bytes).unwrap(), index);
    assert_str(&mut bytes, "nsp");
    assert_str(&mut bytes, "/test");
    assert_str(&mut bytes, "data");

    // Check the event data structure
    assert_eq!(read_array_len(&mut bytes).unwrap(), 4);
    assert_str(&mut bytes, "test_event");
    assert_eq!(read_int::<u8, _>(&mut bytes).unwrap(), 1);
    assert_eq!(read_int::<u8, _>(&mut bytes).unwrap(), 2);
    assert_eq!(read_int::<u8, _>(&mut bytes).unwrap(), 3);

    // Check the ID
    assert_str(&mut bytes, "id");
    assert_eq!(read_int::<usize, _>(&mut bytes).unwrap(), 42);
}

#[test]
fn serialize_packet_binary_event() {
    let mut data = Vec::new();
    write_array_len(&mut data, 5).unwrap();
    write_uint(&mut data, 1).unwrap();
    write_uint(&mut data, 2).unwrap();
    write_uint(&mut data, 3).unwrap();
    write_bin(&mut data, &BIN).unwrap();
    write_bin(&mut data, &BIN).unwrap();
    let packet = Packet {
        ns: "/binary".into(),
        inner: PacketData::BinaryEvent(
            "bin_event".into(),
            BinaryPacket { data: msgpack(data, 2), bin: vec![], payload_count: 0 },
            Some(99),
        ),
    };
    let index = packet.inner.index();
    let serialized = serialize_packet(packet);
    let mut bytes = Bytes::new(&serialized);

    assert_eq!(read_map_len(&mut bytes).unwrap(), 5);
    assert_str(&mut bytes, "type");
    assert_eq!(read_int::<usize, _>(&mut bytes).unwrap(), index);
    assert_str(&mut bytes, "nsp");
    assert_str(&mut bytes, "/binary");
    assert_str(&mut bytes, "data");

    // Check the event data structure
    assert_eq!(read_array_len(&mut bytes).unwrap(), 6);
    assert_str(&mut bytes, "bin_event");
    assert_eq!(read_int::<u8, _>(&mut bytes).unwrap(), 1);
    assert_eq!(read_int::<u8, _>(&mut bytes).unwrap(), 2);
    assert_eq!(read_int::<u8, _>(&mut bytes).unwrap(), 3);

    let mut buff = [0; 4];
    assert_eq!(read_bin_len(&mut bytes).unwrap(), 4);
    bytes.read_exact_buf(&mut buff).unwrap();
    assert_eq!(&buff, &BIN);

    assert_eq!(read_bin_len(&mut bytes).unwrap(), 4);
    bytes.read_exact_buf(&mut buff).unwrap();
    assert_eq!(&buff, &BIN);

    // Check the attachments
    assert_str(&mut bytes, "attachments");
    assert_eq!(read_int::<usize, _>(&mut bytes).unwrap(), 2);

    // Check the ID
    assert_str(&mut bytes, "id");
    assert_eq!(read_int::<usize, _>(&mut bytes).unwrap(), 99);
}

#[test]
fn serialize_packet_event_ack() {
    let mut data = Vec::new();
    write_array_len(&mut data, 3).unwrap();
    write_uint(&mut data, 4).unwrap();
    write_uint(&mut data, 5).unwrap();
    write_uint(&mut data, 6).unwrap();
    let packet = Packet { ns: "/ack".into(), inner: PacketData::EventAck(msgpack(data, 0), 100) };

    let index = packet.inner.index();
    let serialized = serialize_packet(packet);
    let mut bytes = Bytes::new(&serialized);

    assert_eq!(read_map_len(&mut bytes).unwrap(), 4);
    assert_str(&mut bytes, "type");
    assert_eq!(read_int::<usize, _>(&mut bytes).unwrap(), index);
    assert_str(&mut bytes, "nsp");
    assert_str(&mut bytes, "/ack");
    assert_str(&mut bytes, "data");

    // Check the ack data structure
    let data_len = read_array_len(&mut bytes).unwrap();
    assert_eq!(data_len, 3); // Acknowledgement wraps the data in an array
    assert_eq!(read_int::<u8, _>(&mut bytes).unwrap(), 4);
    assert_eq!(read_int::<u8, _>(&mut bytes).unwrap(), 5);
    assert_eq!(read_int::<u8, _>(&mut bytes).unwrap(), 6);

    // Check the ID
    assert_str(&mut bytes, "id");
    assert_eq!(read_int::<usize, _>(&mut bytes).unwrap(), 100);
}

#[test]
fn serialize_packet_connect_error() {
    let packet = Packet { ns: "/error".into(), inner: PacketData::ConnectError("Error message".into()) };
    let index = packet.inner.index();
    let serialized = serialize_packet(packet);
    let mut bytes = Bytes::new(&serialized);

    assert_eq!(read_map_len(&mut bytes).unwrap(), 3);
    assert_str(&mut bytes, "type");
    assert_eq!(read_int::<usize, _>(&mut bytes).unwrap(), index);
    assert_str(&mut bytes, "nsp");
    assert_str(&mut bytes, "/error");
    assert_str(&mut bytes, "data");

    assert_eq!(read_map_len(&mut bytes).unwrap(), 1);
    assert_str(&mut bytes, "message");
    assert_str(&mut bytes, "Error message");
}

#[test]
fn serialize_event_data_with_array() {
    // Test when data is an array
    let mut data = Vec::new();
    write_array_len(&mut data, 2).unwrap();
    write_sint(&mut data, 42).unwrap();
    write_sint(&mut data, 43).unwrap();

    const EVENT: &str = "test_event";
    let mut buff = Vec::new();

    serialize_event_data(EVENT, &data, &mut buff);

    // Verify that the buffer contains the expected serialized data
    let marker = read_marker(&mut Bytes::new(&buff)).unwrap();
    assert!(matches!(marker, Marker::FixArray(3)));

    let mut bytes = Bytes::new(&buff);

    assert_eq!(read_array_len(&mut bytes).unwrap(), 3);
    assert_str(&mut bytes, EVENT);
    assert_eq!(read_int::<usize, _>(&mut bytes).unwrap(), 42);
    assert_eq!(read_int::<usize, _>(&mut bytes).unwrap(), 43);
}

#[test]
fn serialize_event_data_with_non_array() {
    // Test when data is a non-array (e.g., integer)
    let mut data = Vec::new();
    write_sint(&mut data, 42).unwrap();

    const EVENT: &str = "test_event";
    let mut buff = Vec::new();

    serialize_event_data(EVENT, &data, &mut buff);

    // Verify that the buffer contains the expected serialized data
    let marker = read_marker(&mut Bytes::new(&buff)).unwrap();
    assert!(matches!(marker, Marker::FixArray(2)));

    let mut bytes = Bytes::new(&buff);
    assert_eq!(read_array_len(&mut bytes).unwrap(), 2);
    assert_str(&mut bytes, EVENT);
    assert_eq!(read_int::<usize, _>(&mut bytes).unwrap(), 42);
}

#[test]
fn serialize_event_data_with_string() {
    // Test when data is a non-array (e.g., string)
    let mut data = Vec::new();
    write_str(&mut data, "hello").unwrap();

    const EVENT: &str = "test_event";
    let mut buff = Vec::new();

    serialize_event_data(EVENT, &data, &mut buff);

    // Verify that the buffer contains the expected serialized data
    let marker = read_marker(&mut Bytes::new(&buff)).unwrap();
    assert!(matches!(marker, Marker::FixArray(2)));

    let mut bytes = Bytes::new(&buff);
    assert_eq!(read_array_len(&mut bytes).unwrap(), 2);

    assert_str(&mut bytes, EVENT);
    assert_str(&mut bytes, "hello");
}

#[test]
fn serialize_ack_data_array() {
    // Test when buff already contains an array
    let mut data = Vec::new();
    let mut buff = Vec::new();
    write_array_len(&mut data, 2).unwrap();
    write_uint(&mut data, 42).unwrap();
    write_uint(&mut data, 43).unwrap();

    serialize_ack_data(&data, &mut buff);

    // Verify that the marker is still an array and nothing changed
    let marker = read_marker(&mut Bytes::new(&buff)).unwrap();
    assert!(matches!(marker, Marker::FixArray(2)));
}

#[test]
fn serialize_ack_data_null() {
    // Test when buff contains a null value
    let mut buff = Vec::new();
    let mut data = Vec::new();
    write_nil(&mut data).unwrap();

    serialize_ack_data(&data, &mut buff);

    // Verify that the buff is now an empty array
    let marker = read_marker(&mut Bytes::new(&buff)).unwrap();
    assert!(matches!(marker, Marker::FixArray(0)));
}

#[test]
fn serialize_ack_data_integer() {
    // Test when buff contains an integer (non-array, non-null data)
    let mut data = Vec::new();
    let mut buff = Vec::new();
    write_uint(&mut data, 42).unwrap();

    serialize_ack_data(&data, &mut buff);
    // Verify that the integer has been wrapped in an array
    let marker = read_marker(&mut Bytes::new(&buff)).unwrap();
    assert_eq!(marker, Marker::FixArray(1));
    assert_eq!(buff, [145, 42]);
}

#[test]
fn serialize_ack_data_string() {
    // Test when buff contains a string (non-array, non-null data)
    let mut buff = Vec::new();
    let mut data = Vec::new();

    write_str(&mut data, "test").unwrap();

    serialize_ack_data(&data, &mut buff);

    // Verify that the string has been wrapped in an array
    let marker = read_marker(&mut Bytes::new(&buff)).unwrap();
    assert!(matches!(marker, Marker::FixArray(1)));
}

#[test]
fn serialize_negative_and_large_integers() {
    // ack ids and counts in every integer form
    let mut buff = Vec::new();
    let packet = Packet { ns: "/".into(), inner: PacketData::EventAck(msgpack(vec![0x90], 0), -5000) };
    buff.extend(serialize_packet(packet));
    let mut bytes = Bytes::new(&buff);
    assert_eq!(read_map_len(&mut bytes).unwrap(), 4);
    assert_str(&mut bytes, "type");
    assert_eq!(read_int::<u8, _>(&mut bytes).unwrap(), 3);
    assert_str(&mut bytes, "nsp");
    assert_str(&mut bytes, "/");
    assert_str(&mut bytes, "data");
    assert_eq!(read_array_len(&mut bytes).unwrap(), 0);
    assert_str(&mut bytes, "id");
    assert_eq!(read_int::<i64, _>(&mut bytes).unwrap(), -5000);
}
