use myscontroller_rs::message::{Command, DecodeError, Message};

fn msg(node: u8, child: u8, command: Command, ack: bool, sub: u8, payload: &[u8]) -> Message {
    Message {
        node_id: node,
        child_sensor_id: child,
        command,
        ack,
        sub_type: sub,
        payload: payload.to_vec(),
    }
}

#[test]
fn decodes_set_message_from_gateway_line() {
    let m = Message::decode(b"5;1;1;0;0;23.4\n").unwrap();
    assert_eq!(m.node_id, 5);
    assert_eq!(m.child_sensor_id, 1);
    assert_eq!(m.command, Command::SetValue);
    assert!(!m.ack);
    assert_eq!(m.sub_type, 0);
    assert_eq!(m.payload, b"23.4".to_vec());
}

#[test]
fn decodes_line_without_newline() {
    let m = Message::decode(b"255;255;3;1;13;").unwrap();
    assert_eq!(m.node_id, 255);
    assert_eq!(m.command, Command::Internal);
    assert!(m.ack);
    assert_eq!(m.sub_type, 13);
    assert!(m.payload.is_empty());
}

#[test]
fn encodes_in_decimal_with_newline() {
    let m = msg(12, 0, Command::Req, false, 2, b"abc");
    assert_eq!(m.encode(), b"12;0;2;0;2;abc\n".to_vec());
    let m = msg(200, 7, Command::Stream, true, 255, b"");
    assert_eq!(m.encode(), b"200;7;4;1;255;\n".to_vec());
}

#[test]
fn escapes_reserved_payload_bytes() {
    let m = msg(1, 2, Command::SetValue, false, 3, b"a;b\\c\nd");
    let line = m.encode();
    assert_eq!(line, b"1;2;1;0;3;a\\sb\\\\c\\nd\n".to_vec());
    let back = Message::decode(&line).unwrap();
    assert_eq!(back, m);
}

#[test]
fn round_trip_of_several_messages() {
    let cases = vec![
        msg(0, 0, Command::Presentation, false, 0, b""),
        msg(255, 255, Command::Internal, true, 255, b"x"),
        msg(9, 10, Command::Stream, false, 2, &[b'\\'; 64]),
        msg(42, 1, Command::SetValue, true, 17, b";;;\n\n"),
    ];
    for m in cases {
        assert_eq!(Message::decode(&m.encode()).unwrap(), m);
    }
}

#[test]
fn four_fields_is_malformed() {
    assert_eq!(Message::decode(b"1;2;3;4\n").unwrap_err(), DecodeError::Malformed);
}

#[test]
fn seven_fields_is_malformed() {
    assert_eq!(Message::decode(b"1;2;1;0;0;a;b\n").unwrap_err(), DecodeError::Malformed);
}

#[test]
fn non_numeric_field_is_malformed() {
    assert_eq!(Message::decode(b"x;2;1;0;0;a\n").unwrap_err(), DecodeError::Malformed);
    assert_eq!(Message::decode(b";2;1;0;0;a\n").unwrap_err(), DecodeError::Malformed);
}

#[test]
fn numbers_out_of_range() {
    assert_eq!(Message::decode(b"256;2;1;0;0;a\n").unwrap_err(), DecodeError::FieldOutOfRange);
    assert_eq!(Message::decode(b"1;2;5;0;0;a\n").unwrap_err(), DecodeError::FieldOutOfRange);
    assert_eq!(Message::decode(b"1;2;1;2;0;a\n").unwrap_err(), DecodeError::FieldOutOfRange);
    assert_eq!(
        Message::decode(b"1;2;1;0;99999999999999999999;a\n").unwrap_err(),
        DecodeError::FieldOutOfRange
    );
}

#[test]
fn bad_escape_is_malformed() {
    assert_eq!(Message::decode(b"1;2;1;0;0;a\\x\n").unwrap_err(), DecodeError::Malformed);
    assert_eq!(Message::decode(b"1;2;1;0;0;a\\\n").unwrap_err(), DecodeError::Malformed);
}

#[test]
fn payload_too_long() {
    let mut line = b"1;2;1;0;0;".to_vec();
    line.extend(std::iter::repeat(b'a').take(65));
    line.push(b'\n');
    assert_eq!(Message::decode(&line).unwrap_err(), DecodeError::TooLong);
    let mut ok = b"1;2;1;0;0;".to_vec();
    ok.extend(std::iter::repeat(b'a').take(64));
    assert!(Message::decode(&ok).is_ok());
}

#[test]
fn command_codes() {
    assert_eq!(Command::from_code(2), Some(Command::Req));
    assert_eq!(Command::from_code(5), None);
    assert_eq!(Command::Stream.code(), 4);
}
