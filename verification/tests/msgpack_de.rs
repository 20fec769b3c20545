use rmp::Marker;
use socketioxide::packet::{BinaryPacket, MsgPackValue, PacketData, Value};
use socketioxide::parser::msgpack::de::{deserialize_packet, move_to_next_element};

fn create_packet_with_type(packet_type: u8, nsp: &'static str, len: u32) -> Vec<u8> {
    let mut data = Vec::new();
    rmp::encode::write_map_len(&mut data, len + 2).unwrap(); // Map length is 1
    rmp::encode::write_str(&mut data, "type").unwrap();
    rmp::encode::write_pfix(&mut data, packet_type).unwrap();
    rmp::encode::write_str(&mut data, "nsp").unwrap();
    rmp::encode::write_str(&mut data, nsp).unwrap();
    data
}

fn str_bytes(s: &str) -> Vec<u8> {
    let mut d = Vec::new();
    rmp::encode::write_str(&mut d, s).unwrap();
    d
}

/// `{ binary_data: <bytes 1 2 3 4>, test: 1 }`
fn test_struct(data: &mut Vec<u8>) {
    rmp::encode::write_map_len(data, 2).unwrap();
    rmp::encode::write_str(data, "binary_data").unwrap();
    rmp::encode::write_bin(data, &[1, 2, 3, 4]).unwrap();
    rmp::encode::write_str(data, "test").unwrap();
    rmp::encode::write_sint(data, 1).unwrap();
}

#[test]
fn deserialize_connect_packet() {
    let mut data = create_packet_with_type(0, "/", 1);
    rmp::encode::write_str(&mut data, "data").unwrap();
    rmp::encode::write_str(&mut data, "connect_data").unwrap();
    let packet = deserialize_packet(&data).unwrap();

    if let PacketData::Connect(Some(Value::MsgPack(MsgPackValue { data, .. }))) = packet.inner {
        assert_eq!(data, str_bytes("connect_data"));
    } else {
        panic!("Expected PacketData::Connect with data, found: {:?}", packet);
    }
}

#[test]
fn deserialize_disconnect_packet() {
    let data = create_packet_with_type(1, "/", 0);

    let packet = deserialize_packet(&data).unwrap();

    if let PacketData::Disconnect = packet.inner {
        // Successfully deserialized Disconnect packet
    } else {
        panic!("Expected PacketData::Disconnect");
    }
}

#[test]
fn deserialize_event_packet() {
    let mut data = create_packet_with_type(2, "/", 1);
    rmp::encode::write_str(&mut data, "data").unwrap();
    rmp::encode::write_array_len(&mut data, 2).unwrap(); // Event name and one argument
    rmp::encode::write_str(&mut data, "event_name").unwrap();
    rmp::encode::write_str(&mut data, "event_data").unwrap();

    let packet = deserialize_packet(&data).unwrap();

    if let PacketData::Event(event_name, Value::MsgPack(MsgPackValue { data, .. }), _) = packet.inner {
        assert_eq!(event_name, "event_name");
        let mut expected = Vec::new();
        rmp::encode::write_array_len(&mut expected, 1).unwrap();
        rmp::encode::write_str(&mut expected, "event_data").unwrap();
        assert_eq!(data, expected);
    } else {
        panic!("Expected PacketData::Event");
    }
}

#[test]
fn deserialize_event_ack_packet() {
    let mut data = create_packet_with_type(3, "/", 2);
    rmp::encode::write_str(&mut data, "data").unwrap();
    rmp::encode::write_array_len(&mut data, 1).unwrap();
    rmp::encode::write_str(&mut data, "ack_data").unwrap();
    rmp::encode::write_str(&mut data, "id").unwrap();
    rmp::encode::write_sint(&mut data, 123).unwrap();

    let packet = deserialize_packet(&data).unwrap();

    if let PacketData::EventAck(Value::MsgPack(MsgPackValue { data, .. }), id) = packet.inner {
        assert_eq!(id, 123);
        let mut expected = Vec::new();
        rmp::encode::write_array_len(&mut expected, 1).unwrap();
        rmp::encode::write_str(&mut expected, "ack_data").unwrap();
        assert_eq!(data, expected);
    } else {
        panic!("Expected PacketData::EventAck");
    }
}

#[test]
fn deserialize_connect_error_packet() {
    let mut data = create_packet_with_type(4, "/", 1);
    rmp::encode::write_str(&mut data, "data").unwrap();
    rmp::encode::write_map_len(&mut data, 1).unwrap();
    rmp::encode::write_str(&mut data, "message").unwrap();
    rmp::encode::write_str(&mut data, "error_message").unwrap();

    let packet = deserialize_packet(&data).unwrap();

    if let PacketData::ConnectError(error_message) = packet.inner {
        assert_eq!(error_message, "error_message");
    } else {
        panic!("Expected PacketData::ConnectError");
    }
}

#[test]
fn deserialize_binary_event_packet() {
    let mut data = create_packet_with_type(5, "/", 1);
    rmp::encode::write_str(&mut data, "data").unwrap();
    rmp::encode::write_array_len(&mut data, 2).unwrap(); // Event name and one argument
    rmp::encode::write_str(&mut data, "binary_event").unwrap();
    test_struct(&mut data);

    let packet = deserialize_packet(&data).unwrap();

    if let PacketData::BinaryEvent(event_name, BinaryPacket { data: Value::MsgPack(MsgPackValue { data, .. }), bin, .. }, _) =
        packet.inner
    {
        assert_eq!(event_name, "binary_event");
        let mut expected = Vec::new();
        rmp::encode::write_array_len(&mut expected, 1).unwrap();
        test_struct(&mut expected);
        assert_eq!(data, expected);
        assert!(bin.is_empty());
    } else {
        panic!("Expected PacketData::BinaryEvent");
    }
}

#[test]
fn deserialize_binary_ack_packet() {
    let mut data = create_packet_with_type(6, "/", 2);
    rmp::encode::write_str(&mut data, "data").unwrap();
    rmp::encode::write_array_len(&mut data, 1).unwrap();
    test_struct(&mut data);

    rmp::encode::write_str(&mut data, "id").unwrap();
    rmp::encode::write_sint(&mut data, 456).unwrap();

    let packet = deserialize_packet(&data).unwrap();

    if let PacketData::BinaryAck(BinaryPacket { data: Value::MsgPack(MsgPackValue { data, .. }), bin, .. }, id) =
        packet.inner
    {
        assert_eq!(id, 456);
        let mut expected = Vec::new();
        rmp::encode::write_array_len(&mut expected, 1).unwrap();
        test_struct(&mut expected);
        assert_eq!(data, expected);
        assert!(bin.is_empty());
    } else {
        panic!("Expected PacketData::BinaryAck");
    }
}

fn bytelen(data: &[u8]) -> usize {
    move_to_next_element(data, 0).unwrap()
}

#[test]
pub fn data_bytelen_fixpos() {
    let mut data = Vec::new();
    rmp::encode::write_pfix(&mut data, 0).unwrap();
    assert_eq!(bytelen(&data), data.len());
}

#[test]
pub fn data_bytelen_fixneg() {
    let mut data = Vec::new();
    rmp::encode::write_nfix(&mut data, -1).unwrap();
    assert_eq!(bytelen(&data), data.len());
}

#[test]
pub fn data_bytelen_fixmap() {
    let mut data = Vec::new();
    data.push(Marker::FixMap(1).to_u8());
    rmp::encode::write_str(&mut data, "test").unwrap();
    rmp::encode::write_u8(&mut data, 132).unwrap(); // { "test": 132 }
    assert_eq!(bytelen(&data), data.len());
}

#[test]
pub fn data_bytelen_fixarray() {
    let mut data = Vec::new();
    data.push(Marker::FixArray(3).to_u8());
    rmp::encode::write_str(&mut data, "foo").unwrap(); // ["foo"]
    rmp::encode::write_bin(&mut data, &[1, 2, 3]).unwrap();
    rmp::encode::write_bin(&mut data, &[4, 5, 6]).unwrap();
    assert_eq!(bytelen(&data), data.len());
}

#[test]
pub fn data_bytelen_fixstr() {
    let mut data = Vec::new();
    rmp::encode::write_str(&mut data, "a").unwrap(); // ["a"]
    assert_eq!(bytelen(&data), data.len());
}

#[test]
pub fn data_bytelen_null() {
    let mut data = Vec::new();
    data.push(Marker::Null.to_u8());
    assert_eq!(bytelen(&data), data.len());
}

#[test]
pub fn data_bytelen_reserved() {
    let mut data = Vec::new();
    data.push(Marker::Reserved.to_u8());
    assert_eq!(bytelen(&data), data.len());
}

#[test]
pub fn data_bytelen_false() {
    let mut data = Vec::new();
    data.push(Marker::False.to_u8());
    assert_eq!(bytelen(&data), data.len());
}

#[test]
pub fn data_bytelen_true() {
    let mut data = Vec::new();
    data.push(Marker::True.to_u8());
    assert_eq!(bytelen(&data), data.len());
}

#[test]
pub fn data_bytelen_u8() {
    let mut data = Vec::new();
    rmp::encode::write_u8(&mut data, 0xff).unwrap();
    assert_eq!(bytelen(&data), data.len());
}

#[test]
pub fn data_bytelen_u16() {
    let mut data = Vec::new();
    rmp::encode::write_u16(&mut data, 0xffff).unwrap();
    assert_eq!(bytelen(&data), data.len());
}

#[test]
pub fn data_bytelen_u32() {
    let mut data = Vec::new();
    rmp::encode::write_u32(&mut data, 0xffffff).unwrap();
    assert_eq!(bytelen(&data), data.len());
}

#[test]
pub fn data_bytelen_u64() {
    let mut data = Vec::new();
    rmp::encode::write_u32(&mut data, 0xffffffff).unwrap();
    assert_eq!(bytelen(&data), data.len());
}

#[test]
pub fn data_bytelen_i8() {
    let mut data = Vec::new();
    rmp::encode::write_i8(&mut data, 1).unwrap();
    assert_eq!(bytelen(&data), data.len());
}

#[test]
pub fn data_bytelen_i16() {
    let mut data = Vec::new();
    rmp::encode::write_i16(&mut data, 13).unwrap();
    assert_eq!(bytelen(&data), data.len());
}

#[test]
pub fn data_bytelen_i32() {
    let mut data = Vec::new();
    rmp::encode::write_i32(&mut data, 132).unwrap();
    assert_eq!(bytelen(&data), data.len());
}

#[test]
pub fn data_bytelen_i64() {
    let mut data = Vec::new();
    rmp::encode::write_i16(&mut data, 123).unwrap();
    assert_eq!(bytelen(&data), data.len());
}

#[test]
pub fn data_bytelen_f32() {
    let mut data = Vec::new();
    rmp::encode::write_f32(&mut data, 23.1).unwrap();
    assert_eq!(bytelen(&data), data.len());
}

#[test]
pub fn data_bytelen_f64() {
    let mut data = Vec::new();
    rmp::encode::write_f64(&mut data, 23.1).unwrap();
    assert_eq!(bytelen(&data), data.len());
}

#[test]
pub fn data_bytelen_bin8() {
    let mut data = Vec::new();
    rmp::encode::write_bin(&mut data, &[b't', b'e', b's', b't']).unwrap();
    assert_eq!(bytelen(&data), data.len());
}

#[test]
pub fn data_bytelen_bin16() {
    let mut data = Vec::new();
    data.push(Marker::Bin16.to_u8());
    data.extend_from_slice(&[0x00, 0x04, b't', b'e', b's', b't']);
    assert_eq!(bytelen(&data), data.len());
}

#[test]
pub fn data_bytelen_bin32() {
    let mut data = Vec::new();
    data.push(Marker::Bin32.to_u8());
    data.extend_from_slice(&[0x00, 0x00, 0x00, 0x04, b't', b'e', b's', b't']);
    assert_eq!(bytelen(&data), data.len());
}

#[test]
pub fn data_bytelen_str8() {
    let mut data = Vec::new();
    rmp::encode::write_str(&mut data, "test").unwrap();
    assert_eq!(bytelen(&data), data.len());
}

#[test]
pub fn data_bytelen_str16() {
    let mut data = Vec::new();
    data.push(Marker::Str16.to_u8());
    data.extend_from_slice(&[0x00, 0x04, b't', b'e', b's', b't']);
    assert_eq!(bytelen(&data), data.len());
}

#[test]
pub fn data_bytelen_str32() {
    let mut data = Vec::new();
    data.push(Marker::Str32.to_u8());
    data.extend_from_slice(&[0x00, 0x00, 0x00, 0x04, b't', b'e', b's', b't']);
    assert_eq!(bytelen(&data), data.len());
}

#[test]
pub fn data_bytelen_array16() {
    let mut data = Vec::new();
    data.push(Marker::Array16.to_u8());
    data.extend_from_slice(&[0x00, 0x02]);
    rmp::encode::write_str(&mut data, "foo").unwrap();
    rmp::encode::write_str(&mut data, "foo").unwrap();
    assert_eq!(bytelen(&data), data.len());
}

#[test]
pub fn data_bytelen_array32() {
    let mut data = Vec::new();
    data.push(Marker::Array32.to_u8());
    data.extend_from_slice(&[0x00, 0x00, 0x00, 0x02]);
    rmp::encode::write_str(&mut data, "foo").unwrap();
    rmp::encode::write_str(&mut data, "foo").unwrap();
    assert_eq!(bytelen(&data), data.len());
}

#[test]
pub fn data_bytelen_map16() {
    let mut data = Vec::new();
    data.push(Marker::Map16.to_u8());
    data.extend_from_slice(&[0x00, 0x01]);
    rmp::encode::write_str(&mut data, "foo").unwrap();
    rmp::encode::write_str(&mut data, "foo").unwrap();
    assert_eq!(bytelen(&data), data.len());
}

#[test]
pub fn data_bytelen_map32() {
    let mut data = Vec::new();
    data.push(Marker::Map32.to_u8());
    data.extend_from_slice(&[0x00, 0x00, 0x00, 0x01]);
    rmp::encode::write_str(&mut data, "foo").unwrap();
    rmp::encode::write_str(&mut data, "foo").unwrap();
    assert_eq!(bytelen(&data), data.len());
}

#[test]
pub fn data_bytelen_truncated_header_is_an_error() {
    // a str16 whose length is cut short
    assert!(move_to_next_element(&[0xda, 0x00], 0).is_err());
    // no marker at all
    assert!(move_to_next_element(&[], 0).is_err());
}

#[test]
fn data_bytelen_ext_counts_the_type_byte() {
    assert_eq!(move_to_next_element(&[0xc7, 0x01, 0x05, 0xaa], 0).unwrap(), 4);
    assert_eq!(move_to_next_element(&[0xc8, 0x00, 0x02, 0x05, 0x01, 0x02], 0).unwrap(), 6);
    assert_eq!(move_to_next_element(&[0xc9, 0x00, 0x00, 0x00, 0x01, 0x05, 0xaa], 0).unwrap(), 7);
    assert_eq!(move_to_next_element(&[0xc7, 0x00, 0x05], 0).unwrap(), 3);
    assert_eq!(move_to_next_element(&[0x92, 0xc7, 0x01, 0x05, 0xaa, 0x01], 0).unwrap(), 6);
}

#[test]
fn deserialize_event_with_ext_data() {
    let mut data = Vec::new();
    rmp::encode::write_map_len(&mut data, 3).unwrap();
    rmp::encode::write_str(&mut data, "type").unwrap();
    rmp::encode::write_uint(&mut data, 2).unwrap();
    rmp::encode::write_str(&mut data, "nsp").unwrap();
    rmp::encode::write_str(&mut data, "/").unwrap();
    rmp::encode::write_str(&mut data, "data").unwrap();
    data.extend_from_slice(&[0x92, 0xa2, b'e', b'v', 0xc7, 0x01, 0x05, 0xaa]);
    let packet = deserialize_packet(&data).unwrap();
    match packet.inner {
        PacketData::Event(e, Value::MsgPack(m), None) => {
            assert_eq!(e, "ev");
            assert_eq!(m.data, vec![0x91, 0xc7, 0x01, 0x05, 0xaa]);
        },
        other => panic!("expected an event, found {:?}", other),
    }
}
