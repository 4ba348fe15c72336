use socketio_codec::socket::Error;
use socketio_codec::socket::Packet;
use socketio_codec::socket::PacketId;

#[test]
fn test_decode() {
    let payload = b"0{\"token\":\"123\"}";
    let packet = Packet::decode(payload);
    assert!(packet.is_ok());

    assert_eq!(
        Packet::new(
            PacketId::Connect,
            "/".to_owned(),
            Some(String::from("{\"token\":\"123\"}")),
            None,
            0,
            None,
        ),
        packet.unwrap()
    );

    let utf8_data = "{\"token™\":\"123\"}".to_owned();
    let utf8_payload = format!("0/admin™,{}", utf8_data);
    let packet = Packet::decode(utf8_payload.as_bytes());
    assert!(packet.is_ok());

    assert_eq!(
        Packet::new(
            PacketId::Connect,
            "/admin™".to_owned(),
            Some(utf8_data),
            None,
            0,
            None,
        ),
        packet.unwrap()
    );

    let payload = b"1/admin,";
    let packet = Packet::decode(payload);
    assert!(packet.is_ok());

    assert_eq!(
        Packet::new(
            PacketId::Disconnect,
            "/admin".to_owned(),
            None,
            None,
            0,
            None,
        ),
        packet.unwrap()
    );

    let payload = b"2[\"hello\",1]";
    let packet = Packet::decode(payload);
    assert!(packet.is_ok());

    assert_eq!(
        Packet::new(
            PacketId::Event,
            "/".to_owned(),
            Some(String::from("[\"hello\",1]")),
            None,
            0,
            None,
        ),
        packet.unwrap()
    );

    let payload = b"2/admin,456[\"project:delete\",123]";
    let packet = Packet::decode(payload);
    assert!(packet.is_ok());

    assert_eq!(
        Packet::new(
            PacketId::Event,
            "/admin".to_owned(),
            Some(String::from("[\"project:delete\",123]")),
            Some(456),
            0,
            None,
        ),
        packet.unwrap()
    );

    let payload = b"3/admin,456[]";
    let packet = Packet::decode(payload);
    assert!(packet.is_ok());

    assert_eq!(
        Packet::new(
            PacketId::Ack,
            "/admin".to_owned(),
            Some(String::from("[]")),
            Some(456),
            0,
            None,
        ),
        packet.unwrap()
    );

    let payload = b"4/admin,{\"message\":\"Not authorized\"}";
    let packet = Packet::decode(payload);
    assert!(packet.is_ok());

    assert_eq!(
        Packet::new(
            PacketId::ConnectError,
            "/admin".to_owned(),
            Some(String::from("{\"message\":\"Not authorized\"}")),
            None,
            0,
            None,
        ),
        packet.unwrap()
    );

    let payload = b"51-[\"hello\",{\"_placeholder\":true,\"num\":0}]";
    let packet = Packet::decode(payload);
    assert!(packet.is_ok());

    assert_eq!(
        Packet::new(
            PacketId::BinaryEvent,
            "/".to_owned(),
            Some(String::from("\"hello\"")),
            None,
            1,
            None,
        ),
        packet.unwrap()
    );

    let payload = b"51-/admin,456[\"project:delete\",{\"_placeholder\":true,\"num\":0}]";
    let packet = Packet::decode(payload);
    assert!(packet.is_ok());

    assert_eq!(
        Packet::new(
            PacketId::BinaryEvent,
            "/admin".to_owned(),
            Some(String::from("\"project:delete\"")),
            Some(456),
            1,
            None,
        ),
        packet.unwrap()
    );

    let payload = b"61-/admin,456[{\"_placeholder\":true,\"num\":0}]";
    let packet = Packet::decode(payload);
    assert!(packet.is_ok());

    assert_eq!(
        Packet::new(
            PacketId::BinaryAck,
            "/admin".to_owned(),
            None,
            Some(456),
            1,
            None,
        ),
        packet.unwrap()
    );
}

#[test]
fn test_encode() {
    let packet = Packet::new(
        PacketId::Connect,
        "/".to_owned(),
        Some(String::from("{\"token\":\"123\"}")),
        None,
        0,
        None,
    );

    assert_eq!(packet.encode(), "0{\"token\":\"123\"}");

    let packet = Packet::new(
        PacketId::Connect,
        "/admin".to_owned(),
        Some(String::from("{\"token\":\"123\"}")),
        None,
        0,
        None,
    );

    assert_eq!(packet.encode(), "0/admin,{\"token\":\"123\"}");

    let packet = Packet::new(
        PacketId::Disconnect,
        "/admin".to_owned(),
        None,
        None,
        0,
        None,
    );

    assert_eq!(packet.encode(), "1/admin,");

    let packet = Packet::new(
        PacketId::Event,
        "/".to_owned(),
        Some(String::from("[\"hello\",1]")),
        None,
        0,
        None,
    );

    assert_eq!(packet.encode(), "2[\"hello\",1]");

    let packet = Packet::new(
        PacketId::Event,
        "/admin".to_owned(),
        Some(String::from("[\"project:delete\",123]")),
        Some(456),
        0,
        None,
    );

    assert_eq!(packet.encode(), "2/admin,456[\"project:delete\",123]");

    let packet = Packet::new(
        PacketId::Ack,
        "/admin".to_owned(),
        Some(String::from("[]")),
        Some(456),
        0,
        None,
    );

    assert_eq!(packet.encode(), "3/admin,456[]");

    let packet = Packet::new(
        PacketId::ConnectError,
        "/admin".to_owned(),
        Some(String::from("{\"message\":\"Not authorized\"}")),
        None,
        0,
        None,
    );

    assert_eq!(packet.encode(), "4/admin,{\"message\":\"Not authorized\"}");

    let packet = Packet::new(
        PacketId::BinaryEvent,
        "/".to_owned(),
        Some(String::from("\"hello\"")),
        None,
        1,
        Some(vec![vec![1, 2, 3]]),
    );

    assert_eq!(
        packet.encode(),
        "51-[\"hello\",{\"_placeholder\":true,\"num\":0}]"
    );

    let packet = Packet::new(
        PacketId::BinaryEvent,
        "/admin".to_owned(),
        Some(String::from("\"project:delete\"")),
        Some(456),
        1,
        Some(vec![vec![1, 2, 3]]),
    );

    assert_eq!(
        packet.encode(),
        "51-/admin,456[\"project:delete\",{\"_placeholder\":true,\"num\":0}]"
    );

    let packet = Packet::new(
        PacketId::BinaryAck,
        "/admin".to_owned(),
        None,
        Some(456),
        1,
        Some(vec![vec![3, 2, 1]]),
    );

    assert_eq!(packet.encode(), "61-/admin,456[{\"_placeholder\":true,\"num\":0}]");
}

#[test]
fn test_illegal_packet_id() {
    let _sut = PacketId::try_from(42).expect_err("error!");
    assert!(matches!(Error::InvalidPacketId(42 as char), _sut))
}

#[test]
fn test_decode_errors() {
    assert!(matches!(
        Packet::decode(b"").unwrap_err(),
        Error::IncompletePacket
    ));
    assert!(matches!(
        Packet::decode(b"9[]").unwrap_err(),
        Error::InvalidPacketId('9')
    ));
    assert!(matches!(
        Packet::decode(b"5[]").unwrap_err(),
        Error::IncompletePacket
    ));
    assert!(matches!(
        Packet::decode(b"5x-[]").unwrap_err(),
        Error::InvalidPacket
    ));
    assert!(matches!(
        Packet::decode(b"5999-[]").unwrap_err(),
        Error::InvalidPacket
    ));
    assert!(matches!(
        Packet::decode(b"2/admin[]").unwrap_err(),
        Error::IncompletePacket
    ));
    assert!(matches!(
        Packet::decode(b"2{").unwrap_err(),
        Error::InvalidJson
    ));
    assert!(matches!(
        Packet::decode(b"299999999999999999[]").unwrap_err(),
        Error::InvalidPacket
    ));
    assert!(matches!(
        Packet::decode(&[0x32, 0xff]).unwrap_err(),
        Error::InvalidUtf8
    ));
}

#[test]
fn test_all_digit_rest_is_no_ack_id() {
    let packet = Packet::decode(b"2/admin,456").unwrap();
    assert_eq!(
        packet,
        Packet::new(PacketId::Event, "/admin".to_owned(), None, None, 0, None)
    );
}

#[test]
fn test_socket_round_trip() {
    let packet = Packet::new(
        PacketId::Event,
        "/chat".to_owned(),
        Some(String::from("[\"msg\",42]")),
        Some(7),
        0,
        None,
    );
    let decoded = Packet::decode(packet.encode().as_bytes()).unwrap();
    assert_eq!(packet, decoded);

    let packet = Packet::new(
        PacketId::BinaryEvent,
        "/".to_owned(),
        Some(String::from("{\"a\":1}")),
        None,
        3,
        None,
    );
    let decoded = Packet::decode(packet.encode().as_bytes()).unwrap();
    assert_eq!(packet, decoded);
}

#[test]
fn test_default_packet() {
    let packet = Packet::default();
    assert_eq!(
        packet,
        Packet::new(PacketId::Event, "/".to_owned(), None, None, 0, None)
    );
}

#[test]
fn test_attachment_count_accepts_leading_plus() {
    let packet = Packet::decode(b"5+1-[]").unwrap();
    assert_eq!(packet.packet_type, PacketId::BinaryEvent);
    assert_eq!(packet.attachment_count, 1);
}
