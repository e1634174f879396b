use nvim_bridge::message::{as_id, decode, encode_message, from_value, Decoded, Message};
use nvim_bridge::value::Value;

fn msg_text(s: &str) -> Value {
    Value::Str(s.as_bytes().to_vec())
}

fn msg_samples() -> Vec<Message> {
    vec![
        Message::Request { id: 0, method: b"nvim_get_mode".to_vec(), params: vec![] },
        Message::Request {
            id: u64::MAX,
            method: b"nvim_ui_attach".to_vec(),
            params: vec![
                Value::UInt(80),
                Value::UInt(24),
                Value::Mapping(vec![(msg_text("rgb"), Value::Bool(true))]),
            ],
        },
        Message::Response { id: 7, outcome: Ok(msg_text("normal")) },
        Message::Response { id: 8, outcome: Ok(Value::Nil) },
        Message::Response {
            id: 9,
            outcome: Err(Value::Array(vec![Value::UInt(0), msg_text("Invalid method")])),
        },
        Message::Notification { method: b"redraw".to_vec(), params: vec![] },
        Message::Notification {
            method: vec![],
            params: vec![Value::Int(-5), Value::Bin(vec![1, 2]), Value::Ext(1, vec![3])],
        },
    ]
}

#[test]
fn a_request_is_written_as_an_array_of_four() {
    let m = Message::Request { id: 7, method: b"get_mode".to_vec(), params: vec![] };
    let bytes = encode_message(&m).unwrap();
    assert_eq!(
        bytes,
        vec![0x94, 0x00, 0x07, 0xa8, b'g', b'e', b't', b'_', b'm', b'o', b'd', b'e', 0x90]
    );
}

#[test]
fn a_response_is_written_with_nil_for_the_part_it_lacks() {
    let ok = Message::Response { id: 7, outcome: Ok(msg_text("normal")) };
    assert_eq!(
        encode_message(&ok).unwrap(),
        vec![0x94, 0x01, 0x07, 0xc0, 0xa6, b'n', b'o', b'r', b'm', b'a', b'l']
    );
    let failed = Message::Response { id: 300, outcome: Err(msg_text("no")) };
    assert_eq!(
        encode_message(&failed).unwrap(),
        vec![0x94, 0x01, 0xcd, 0x01, 0x2c, 0xa2, b'n', b'o', 0xc0]
    );
}

#[test]
fn a_notification_is_written_as_an_array_of_three() {
    let m = Message::Notification { method: b"redraw".to_vec(), params: vec![Value::UInt(1)] };
    assert_eq!(
        encode_message(&m).unwrap(),
        vec![0x93, 0x02, 0xa6, b'r', b'e', b'd', b'r', b'a', b'w', 0x91, 0x01]
    );
}

#[test]
fn every_message_reads_back_as_itself() {
    for m in msg_samples() {
        let bytes = encode_message(&m).unwrap();
        assert_eq!(decode(&bytes, 0), Decoded::Message(m.clone(), bytes.len()));
    }
}

#[test]
fn a_message_reads_back_whatever_surrounds_it() {
    for m in msg_samples() {
        let mut bytes = vec![0xc1, 0x05];
        let start = bytes.len();
        bytes.extend_from_slice(&encode_message(&m).unwrap());
        let end = bytes.len();
        bytes.extend_from_slice(&[0x94, 0x00]);
        assert_eq!(decode(&bytes, start), Decoded::Message(m, end));
    }
}

#[test]
fn a_beginning_of_a_message_needs_more_data() {
    for m in msg_samples() {
        let bytes = encode_message(&m).unwrap();
        for n in 0..bytes.len() {
            assert_eq!(decode(&bytes[..n], 0), Decoded::NeedMoreData);
        }
    }
}

#[test]
fn a_value_that_is_no_message_is_a_malformed_frame_of_its_length() {
    assert_eq!(decode(&[0x05], 0), Decoded::MalformedFrame(1));
    assert_eq!(decode(&[0xa3, b'a', b'b', b'c', 0x01], 0), Decoded::MalformedFrame(4));
    assert_eq!(decode(&[0x90], 0), Decoded::MalformedFrame(1));
    // kind 5 does not exist
    assert_eq!(decode(&[0x93, 0x05, 0xa1, b'm', 0x90], 0), Decoded::MalformedFrame(5));
    // a request of three parts
    assert_eq!(decode(&[0x93, 0x00, 0x01, 0xa1, b'm'], 0), Decoded::MalformedFrame(5));
    // a notification of four parts
    assert_eq!(decode(&[0x94, 0x02, 0xa1, b'm', 0x90, 0xc0], 0), Decoded::MalformedFrame(6));
    // the method is no string
    assert_eq!(decode(&[0x93, 0x02, 0x01, 0x90], 0), Decoded::MalformedFrame(4));
    // the parameters are no array
    assert_eq!(decode(&[0x93, 0x02, 0xa1, b'm', 0xc0], 0), Decoded::MalformedFrame(5));
    // the id is negative
    assert_eq!(decode(&[0x94, 0x01, 0xff, 0xc0, 0xc0], 0), Decoded::MalformedFrame(5));
    // the id is a string
    assert_eq!(decode(&[0x94, 0x00, 0xa1, b'1', 0xa1, b'm', 0x90], 0), Decoded::MalformedFrame(7));
}

#[test]
fn bytes_that_are_no_value_are_a_malformed_frame_of_one_byte() {
    assert_eq!(decode(&[0xc1], 0), Decoded::MalformedFrame(1));
    assert_eq!(decode(&[0x00, 0xc1, 0x00], 1), Decoded::MalformedFrame(2));
    assert_eq!(decode(&[0x93, 0x02, 0xc1], 0), Decoded::MalformedFrame(1));
}

#[test]
fn a_response_with_an_error_is_a_failure_whatever_its_result() {
    // [1, 3, "bad", 5]
    let bytes = [0x94, 0x01, 0x03, 0xa3, b'b', b'a', b'd', 0x05];
    assert_eq!(
        decode(&bytes, 0),
        Decoded::Message(Message::Response { id: 3, outcome: Err(msg_text("bad")) }, 8)
    );
    // [1, 3, nil, nil]
    assert_eq!(
        decode(&[0x94, 0x01, 0x03, 0xc0, 0xc0], 0),
        Decoded::Message(Message::Response { id: 3, outcome: Ok(Value::Nil) }, 5)
    );
}

#[test]
fn from_value_reads_the_three_shapes() {
    let request = Value::Array(vec![
        Value::UInt(0),
        Value::UInt(4),
        msg_text("m"),
        Value::Array(vec![Value::Nil]),
    ]);
    assert_eq!(
        from_value(request),
        Some(Message::Request { id: 4, method: b"m".to_vec(), params: vec![Value::Nil] })
    );
    let response = Value::Array(vec![Value::Int(1), Value::Int(4), Value::Nil, Value::UInt(9)]);
    assert_eq!(from_value(response), Some(Message::Response { id: 4, outcome: Ok(Value::UInt(9)) }));
    let note = Value::Array(vec![Value::UInt(2), msg_text("n"), Value::Array(vec![])]);
    assert_eq!(from_value(note), Some(Message::Notification { method: b"n".to_vec(), params: vec![] }));
    assert_eq!(from_value(Value::Nil), None);
    assert_eq!(from_value(Value::Array(vec![])), None);
    assert_eq!(from_value(Value::Array(vec![Value::Bool(true), Value::Nil, Value::Nil])), None);
    assert_eq!(
        from_value(Value::Array(vec![Value::UInt(2), Value::Bin(b"n".to_vec()), Value::Array(vec![])])),
        None
    );
}

#[test]
fn an_id_is_an_integer_that_is_not_negative() {
    assert_eq!(as_id(&Value::UInt(5)), Some(5));
    assert_eq!(as_id(&Value::Int(5)), Some(5));
    assert_eq!(as_id(&Value::UInt(u64::MAX)), Some(u64::MAX));
    assert_eq!(as_id(&Value::Int(-1)), None);
    assert_eq!(as_id(&Value::Nil), None);
    assert_eq!(as_id(&msg_text("5")), None);
    assert_eq!(as_id(&Value::F64(0)), None);
}

#[test]
fn a_failed_response_without_an_error_is_not_written() {
    assert_eq!(encode_message(&Message::Response { id: 1, outcome: Err(Value::Nil) }), None);
    assert!(encode_message(&Message::Response { id: 1, outcome: Ok(Value::Nil) }).is_some());
    assert!(encode_message(&Message::Response { id: 1, outcome: Err(Value::Bool(false)) }).is_some());
}
