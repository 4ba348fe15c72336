use socketio_codec::engine::handshake::HandshakePacket;
use socketio_codec::engine::packet::Error;
use socketio_codec::engine::packet::Packet;
use socketio_codec::engine::packet::PacketId;
use socketio_codec::engine::payload;
use socketio_codec::engine::payload::PayloadPacket;

#[test]
fn test_packet_error() {
    let err = Packet::decode(&[]);
    assert!(err.is_err())
}

#[test]
fn test_is_reflexive() {
    let data = b"1Hello World";
    let packet = Packet::decode(data).unwrap();

    assert_eq!(packet.packet_id, PacketId::Close);
    assert_eq!(packet.data, b"Hello World".to_vec());

    assert_eq!(packet.encode(), b"1Hello World".to_vec());
}

#[test]
fn test_binary_packet() {
    // SGVsbG8= is the encoded string for 'Hello'
    let data = b"10:b4SGVsbG8=";
    let packets = payload::decode_str(data).unwrap();

    assert_eq!(packets.len(), 1);
    assert!(packets[0].is_binary);
    assert_eq!(packets[0].packet.packet_id, PacketId::Message);
    assert_eq!(packets[0].packet.data, b"Hello".to_vec());

    assert_eq!(payload::encode_str(&packets).unwrap(), data.to_vec());
}

#[test]
fn test_decode_payload() {
    // A record separator is not this format's delimiter: the length
    // prefix is, so this input has no valid frame.
    let data = b"1Hello\x1e1HelloWorld";
    assert!(payload::decode_str(data).is_err());

    let data = b"6:1Hello";
    let packets = payload::decode_str(data).unwrap();
    assert_eq!(packets.len(), 1);
    assert_eq!(packets[0].packet.packet_id, PacketId::Close);
    assert_eq!(packets[0].packet.data, b"Hello".to_vec());
    assert_eq!(payload::encode_str(&packets).unwrap(), data.to_vec());

    let data = b"6:1Hello11:1HelloWorld";
    let packets = payload::decode_str(data).unwrap();
    assert_eq!(packets.len(), 2);
    assert_eq!(packets[0].packet.packet_id, PacketId::Close);
    assert_eq!(packets[0].packet.data, b"Hello".to_vec());
    assert_eq!(packets[1].packet.packet_id, PacketId::Close);
    assert_eq!(packets[1].packet.data, b"HelloWorld".to_vec());
    assert_eq!(payload::encode_str(&packets).unwrap(), data.to_vec());
}

#[test]
fn test_binary_payload() {
    let data = b"10:b4SGVsbG8=18:b4SGVsbG9Xb3JsZA==10:b4SGVsbG8=";
    let packets = payload::decode_str(data).unwrap();

    assert!(packets.len() == 3);
    assert!(packets[0].is_binary);
    assert_eq!(packets[0].packet.packet_id, PacketId::Message);
    assert_eq!(packets[0].packet.data, b"Hello".to_vec());
    assert!(packets[1].is_binary);
    assert_eq!(packets[1].packet.packet_id, PacketId::Message);
    assert_eq!(packets[1].packet.data, b"HelloWorld".to_vec());
    assert!(packets[2].is_binary);
    assert_eq!(packets[2].packet.packet_id, PacketId::Message);
    assert_eq!(packets[2].packet.data, b"Hello".to_vec());

    assert_eq!(payload::encode_str(&packets).unwrap(), data.to_vec());
}

#[test]
fn test_packet_id_conversion_and_incompl_packet() {
    let sut = Packet::decode(b"");
    assert!(sut.is_err());
    assert!(matches!(sut.unwrap_err(), Error::IncompletePacket));

    let sut = Packet::decode(b"4").unwrap();
    assert_eq!(sut.packet_id, PacketId::Message);
    assert_eq!(sut.data, Vec::<u8>::new());

    let sut = PacketId::try_from(b'0').unwrap();
    assert_eq!(sut, PacketId::Open);
    assert_eq!(sut.to_string_byte(), b'0');

    let sut = PacketId::try_from(b'1').unwrap();
    assert_eq!(sut, PacketId::Close);
    assert_eq!(sut.to_string_byte(), b'1');

    let sut = PacketId::try_from(b'2').unwrap();
    assert_eq!(sut, PacketId::Ping);
    assert_eq!(sut.to_string_byte(), b'2');

    let sut = PacketId::try_from(b'3').unwrap();
    assert_eq!(sut, PacketId::Pong);
    assert_eq!(sut.to_string_byte(), b'3');

    let sut = PacketId::try_from(b'4').unwrap();
    assert_eq!(sut, PacketId::Message);
    assert_eq!(sut.to_string_byte(), b'4');

    let sut = PacketId::try_from(b'5').unwrap();
    assert_eq!(sut, PacketId::Upgrade);
    assert_eq!(sut.to_string_byte(), b'5');

    let sut = PacketId::try_from(b'6').unwrap();
    assert_eq!(sut, PacketId::Noop);
    assert_eq!(sut.to_string_byte(), b'6');

    let sut = PacketId::try_from(42);
    assert!(sut.is_err());
    assert!(matches!(sut.unwrap_err(), Error::InvalidPacketId(42)));
}

#[test]
fn test_handshake_packet() {
    assert!(HandshakePacket::try_from(Packet::new(PacketId::Message, b"test".to_vec())).is_err());

    let encoded = "{\"sid\":\"Test\",\"upgrades\":[\"websocket\",\"test\"],\"pingInterval\":10000,\"pingTimeout\":1000}";
    let packet =
        HandshakePacket::try_from(Packet::new(PacketId::Message, encoded.as_bytes().to_vec()))
            .unwrap();

    assert_eq!(packet.sid, "Test");
    assert_eq!(
        packet.upgrades,
        vec!["websocket".to_string(), "test".to_string()]
    );
    assert_eq!(packet.ping_interval, 10000);
    assert_eq!(packet.ping_timeout, 1000);
}

#[test]
fn test_handshake_missing_field() {
    let encoded = "{\"sid\":\"Test\",\"upgrades\":[],\"pingInterval\":10000}";
    let err =
        HandshakePacket::try_from(Packet::new(PacketId::Open, encoded.as_bytes().to_vec()));
    assert!(matches!(err.unwrap_err(), Error::InvalidJson));

    let encoded = "{\"sid\":7,\"upgrades\":[],\"pingInterval\":1,\"pingTimeout\":2}";
    let err =
        HandshakePacket::try_from(Packet::new(PacketId::Open, encoded.as_bytes().to_vec()));
    assert!(matches!(err.unwrap_err(), Error::InvalidJson));
}

#[test]
fn test_packet_round_trip() {
    let packet = Packet::new(PacketId::Upgrade, b"anything at all \xff\x00".to_vec());
    let decoded = Packet::decode(&packet.encode()).unwrap();
    assert_eq!(decoded.packet_id, PacketId::Upgrade);
    assert_eq!(decoded.data, b"anything at all \xff\x00".to_vec());
}

#[test]
fn test_payload_errors() {
    assert!(matches!(
        payload::decode_str(b"").unwrap_err(),
        Error::IncompletePacket
    ));
    assert!(matches!(
        payload::decode_str(b"0:").unwrap_err(),
        Error::IncompletePacket
    ));
    assert!(matches!(
        payload::decode_str(b"3:").unwrap_err(),
        Error::IncompletePacket
    ));
    assert!(matches!(
        payload::decode_str(b"2:7a").unwrap_err(),
        Error::InvalidPacketId(7)
    ));
    assert!(matches!(
        payload::decode_str(b"5:babc").unwrap_err(),
        Error::IncompletePacket
    ));
    assert!(matches!(
        payload::decode_str(b"6:b4!!!!").unwrap_err(),
        Error::InvalidPacket
    ));
    assert!(matches!(
        payload::decode_str(b"9:4abc").unwrap_err(),
        Error::IncompletePacket
    ));
    assert!(matches!(
        payload::decode_str(&[0x32, 0x3a, 0x34, 0xff]).unwrap_err(),
        Error::InvalidUtf8
    ));
}

#[test]
fn test_payload_encode_rejects_non_utf8_text() {
    let packets = vec![PayloadPacket {
        packet: Packet::new(PacketId::Message, vec![0xff, 0xfe]),
        is_binary: false,
    }];
    assert!(matches!(
        payload::encode_str(&packets).unwrap_err(),
        Error::InvalidUtf8
    ));

    let packets = vec![PayloadPacket {
        packet: Packet::new(PacketId::Message, vec![0xff, 0xfe]),
        is_binary: true,
    }];
    assert_eq!(payload::encode_str(&packets).unwrap(), b"6:b4//4=".to_vec());
}

#[test]
fn test_binary_format_round_trip() {
    let packets = vec![
        PayloadPacket {
            packet: Packet::new(PacketId::Message, b"hello".to_vec()),
            is_binary: false,
        },
        PayloadPacket {
            packet: Packet::new(PacketId::Message, vec![1, 2, 3, 4]),
            is_binary: true,
        },
    ];
    let encoded = payload::encode_bin(&packets);
    assert_eq!(
        encoded,
        vec![0, 6, 255, 52, 104, 101, 108, 108, 111, 1, 5, 255, 4, 1, 2, 3, 4]
    );

    let decoded = payload::decode_bin(&encoded).unwrap();
    assert_eq!(decoded.len(), 2);
    assert!(!decoded[0].is_binary);
    assert_eq!(decoded[0].packet.packet_id, PacketId::Message);
    assert_eq!(decoded[0].packet.data, b"hello".to_vec());
    assert!(decoded[1].is_binary);
    assert_eq!(decoded[1].packet.packet_id, PacketId::Message);
    assert_eq!(decoded[1].packet.data, vec![1, 2, 3, 4]);
}

#[test]
fn test_binary_format_errors() {
    assert!(matches!(
        payload::decode_bin(&[]).unwrap_err(),
        Error::IncompletePacket
    ));
    assert!(matches!(
        payload::decode_bin(&[7, 1, 255, 52]).unwrap_err(),
        Error::InvalidPacket
    ));
    assert!(matches!(
        payload::decode_bin(&[0, 1, 2]).unwrap_err(),
        Error::IncompletePacket
    ));
    assert!(matches!(
        payload::decode_bin(&[0, 9, 255, 52]).unwrap_err(),
        Error::IncompletePacket
    ));
    assert!(matches!(
        payload::decode_bin(&[0, 1, 77, 255, 52]).unwrap_err(),
        Error::InvalidPacket
    ));
}

#[test]
fn test_payload_counts_characters_not_bytes() {
    let data = "6:4hello2:4€".as_bytes();
    let packets = payload::decode_str(data).unwrap();
    assert_eq!(packets.len(), 2);
    assert_eq!(packets[0].packet.packet_id, PacketId::Message);
    assert_eq!(packets[0].packet.data, b"hello".to_vec());
    assert_eq!(packets[1].packet.packet_id, PacketId::Message);
    assert_eq!(packets[1].packet.data, "€".as_bytes().to_vec());
    assert_eq!(payload::encode_str(&packets).unwrap(), data.to_vec());
}

#[test]
fn test_non_canonical_input_normalizes() {
    let packets = payload::decode_str(b"03:4ab").unwrap();
    assert_eq!(packets.len(), 1);
    assert_eq!(packets[0].packet.data, b"ab".to_vec());
    assert_eq!(payload::encode_str(&packets).unwrap(), b"3:4ab".to_vec());

    let packets = payload::decode_bin(&[0, 0x31, 255, 52]).unwrap();
    assert_eq!(packets.len(), 1);
    assert_eq!(packets[0].packet.packet_id, PacketId::Message);
    assert_eq!(packets[0].packet.data, Vec::<u8>::new());
    assert_eq!(payload::encode_bin(&packets), vec![0, 1, 255, 52]);
}

#[test]
fn test_packet_type_dual_acceptance() {
    let packet = Packet::decode(&[4, 104, 105]).unwrap();
    assert_eq!(packet.packet_id, PacketId::Message);
    assert_eq!(packet.data, b"hi".to_vec());

    let packet = Packet::decode(&[b'4', 104, 105]).unwrap();
    assert_eq!(packet.packet_id, PacketId::Message);
    assert_eq!(packet.data, b"hi".to_vec());

    assert!(matches!(
        Packet::decode(&[7, 104]).unwrap_err(),
        Error::InvalidPacketId(7)
    ));
}
