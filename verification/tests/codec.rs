use rcon::packet::{MAX_BODY_LEN, MIN_FRAME_LEN};
use rcon::wire::{push_i32_le, read_i32_le};
use rcon::{RconError, RconPacket, RconPacketType};

#[test]
fn smallest_packet() {
    let packet = RconPacket::new(1, RconPacketType::ResponseValue.into(), "");
    assert_eq!(packet.as_bytes(), [10, 0, 0, 0, 1, 0, 0, 0, 0, 0, 0, 0, 0, 0]);
}

#[test]
fn packet_with_body_auth() {
    let packet = RconPacket::new(0, RconPacketType::Auth.into(), "passwrd");
    assert_eq!(
        packet.as_bytes(),
        [
            0x11, 0x00, 0x00, 0x00, 0x00, 0x00, 0x00, 0x00, 0x03, 0x00, 0x00, 0x00, 0x70, 0x61,
            0x73, 0x73, 0x77, 0x72, 0x64, 0x00, 0x00
        ]
    );
}

#[test]
fn parse_packet_auth() {
    let buffer: [u8; 14] = [
        0x0a, 0x00, 0x00, 0x00, 0x01, 0x00, 0x00, 0x00, 0x02, 0x00, 0x00, 0x00, 0x00, 0x00,
    ];
    let packet = RconPacket::from_bytes(&buffer).unwrap();

    assert_eq!(packet.p_id, 1);
    assert_eq!(packet.p_type, 2);
    assert_eq!(packet.body, "");
}

#[test]
fn parse_packet_resp() {
    let buffer: [u8; 29] = [
        0x19, 0x00, 0x00, 0x00, 0x00, 0x00, 0x00, 0x00, 0x00, 0x00, 0x00, 0x00, 0x65, 0x63, 0x68,
        0x6f, 0x20, 0x48, 0x4c, 0x53, 0x57, 0x3a, 0x20, 0x54, 0x65, 0x73, 0x74, 0x00, 0x00,
    ];
    let packet = RconPacket::from_bytes(&buffer).unwrap();

    assert_eq!(packet.p_id, 0);
    assert_eq!(packet.p_type, 0);
    assert_eq!(packet.body, "echo HLSW: Test");
}

#[test]
#[should_panic]
fn parse_invalid_size() {
    let buffer: [u8; 29] = [
        0x17, 0x00, 0x00, 0x00, 0x00, 0x00, 0x00, 0x00, 0x00, 0x00, 0x00, 0x00, 0x65, 0x63, 0x68,
        0x6f, 0x20, 0x48, 0x4c, 0x53, 0x57, 0x3a, 0x20, 0x54, 0x65, 0x73, 0x74, 0x00, 0x00,
    ];
    RconPacket::from_bytes(&buffer).unwrap();
}

fn length_fault(buffer: &[u8]) -> bool {
    match RconPacket::from_bytes(buffer) {
        Err(RconError::InvalidPacket { buffer: held, message }) => {
            held == buffer && message == "length different from expected"
        }
        _ => false,
    }
}

#[test]
fn length_mismatch_is_an_invalid_packet() {
    let mut frame = RconPacket::new(7, 0, "status").as_bytes();
    assert!(RconPacket::from_bytes(&frame).is_ok());
    frame[0] += 1;
    assert!(length_fault(&frame));
    frame[0] -= 2;
    assert!(length_fault(&frame));
    frame[0] += 1;
    frame.push(0);
    assert!(length_fault(&frame));
}

#[test]
fn short_buffers_are_invalid_packets() {
    assert!(length_fault(&[]));
    assert!(length_fault(&[0, 0, 0]));
    assert!(length_fault(&[0, 0, 0, 0]));
    assert!(length_fault(&[9, 0, 0, 0, 1, 0, 0, 0, 0, 0, 0, 0, 0]));
    assert!(length_fault(&[0xfc, 0xff, 0xff, 0xff]));
}

#[test]
fn from_bytes_does_not_look_at_the_terminator() {
    let buffer = [11, 0, 0, 0, 1, 0, 0, 0, 0, 0, 0, 0, 0x61, 0x62, 0x63];
    let packet = RconPacket::from_bytes(&buffer).unwrap();
    assert_eq!(packet.body, "a");
}

#[test]
fn from_frame_refuses_a_missing_terminator() {
    let buffer = [11, 0, 0, 0, 1, 0, 0, 0, 0, 0, 0, 0, 0x61, 0x62, 0x00];
    match RconPacket::from_frame(&buffer) {
        Err(RconError::InvalidPacket { buffer: held, message }) => {
            assert_eq!(held, buffer);
            assert_eq!(message, "packet didn't end with 0x0000");
        }
        other => panic!("{:?}", other),
    }
    let buffer = [11, 0, 0, 0, 1, 0, 0, 0, 0, 0, 0, 0, 0x61, 0x00, 0x62];
    assert!(matches!(
        RconPacket::from_frame(&buffer),
        Err(RconError::InvalidPacket { message: "packet didn't end with 0x0000", .. })
    ));
    assert!(matches!(
        RconPacket::from_frame(&[0]),
        Err(RconError::InvalidPacket { message: "packet didn't end with 0x0000", .. })
    ));
}

#[test]
fn from_frame_checks_the_length_after_the_terminator() {
    let buffer = [12, 0, 0, 0, 1, 0, 0, 0, 0, 0, 0, 0, 0x61, 0x00, 0x00];
    assert!(matches!(
        RconPacket::from_frame(&buffer),
        Err(RconError::InvalidPacket { message: "length different from expected", .. })
    ));
    let buffer = [11, 0, 0, 0, 0xff, 0xff, 0xff, 0xff, 2, 0, 0, 0, 0x61, 0x00, 0x00];
    let packet = RconPacket::from_frame(&buffer).unwrap();
    assert_eq!((packet.p_id, packet.p_type, packet.body.as_str()), (-1, 2, "a"));
}

#[test]
fn round_trip_keeps_the_fields() {
    let bodies = ["", "a", "say hello", "gr\u{fc}\u{df}e \u{4e16}\u{754c} \u{1f600}"];
    let ids = [0, 1, -1, i32::MAX, i32::MIN, 0x0102_0304];
    let kinds = [0, 2, 3, -7, 1 << 30];
    for body in bodies {
        for id in ids {
            for kind in kinds {
                let frame = RconPacket::new(id, kind, body).as_bytes();
                assert_eq!(frame.len(), body.len() + MIN_FRAME_LEN);
                let back = RconPacket::from_bytes(&frame).unwrap();
                assert_eq!((back.p_id, back.p_type, back.body.as_str()), (id, kind, body));
                let back = RconPacket::from_frame(&frame).unwrap();
                assert_eq!((back.p_id, back.p_type, back.body.as_str()), (id, kind, body));
            }
        }
    }
}

#[test]
fn longest_body_round_trips() {
    let body = "x".repeat(MAX_BODY_LEN);
    let frame = RconPacket::new(1, 0, &body).as_bytes();
    assert_eq!(frame.len(), 4100);
    assert_eq!(&frame[..4], &[0x00, 0x10, 0, 0]);
    assert_eq!(&frame[4098..], &[0, 0]);
    let back = RconPacket::from_bytes(&frame).unwrap();
    assert_eq!(back.body, body);
}

#[test]
fn invalid_text_is_replaced_not_refused() {
    let buffer = [12, 0, 0, 0, 1, 0, 0, 0, 0, 0, 0, 0, 0xff, 0x61, 0x00, 0x00];
    let packet = RconPacket::from_bytes(&buffer).unwrap();
    assert_eq!(packet.body, "\u{fffd}a");
}

#[test]
fn new_keeps_its_arguments() {
    let packet = RconPacket::new(-5, 9, "body");
    assert_eq!(packet.p_id, -5);
    assert_eq!(packet.p_type, 9);
    assert_eq!(packet.body, "body");
}

#[test]
fn type_codes() {
    assert_eq!(RconPacketType::Auth.to_i32(), 3);
    assert_eq!(RconPacketType::ExecCommand.to_i32(), 2);
    assert_eq!(RconPacketType::AuthResponse.to_i32(), 2);
    assert_eq!(RconPacketType::ResponseValue.to_i32(), 0);
    assert_eq!(RconPacketType::Unknown(-42).to_i32(), -42);
    assert_eq!(i32::from(RconPacketType::Auth), 3);
    assert_eq!(i32::from(RconPacketType::Unknown(17)), 17);
}

#[test]
fn little_endian_integers() {
    let mut out = vec![0xaa];
    push_i32_le(&mut out, 0x0403_0201);
    push_i32_le(&mut out, -2);
    push_i32_le(&mut out, i32::MIN);
    assert_eq!(out, [0xaa, 1, 2, 3, 4, 0xfe, 0xff, 0xff, 0xff, 0, 0, 0, 0x80]);
    assert_eq!(read_i32_le(&out, 1), 0x0403_0201);
    assert_eq!(read_i32_le(&out, 5), -2);
    assert_eq!(read_i32_le(&out, 9), i32::MIN);
    for x in [0, 1, -1, 255, 256, 65535, 65536, i32::MAX, i32::MIN, -123_456_789] {
        let mut bytes = Vec::new();
        push_i32_le(&mut bytes, x);
        assert_eq!(bytes, x.to_le_bytes());
        assert_eq!(read_i32_le(&bytes, 0), x);
    }
}

#[test]
fn a_transport_error_becomes_an_io_error() {
    let source = std::io::Error::from(std::io::ErrorKind::ConnectionReset);
    match RconError::from(source) {
        RconError::IoError(e) => assert_eq!(e.kind(), std::io::ErrorKind::ConnectionReset),
        other => panic!("{:?}", other),
    }
}
