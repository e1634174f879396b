use nvim_bridge::message::{encode_message, Message};
use nvim_bridge::stream::{Decoder, Incoming};
use nvim_bridge::value::Value;

fn stream_messages() -> Vec<Message> {
    vec![
        Message::Notification {
            method: b"redraw".to_vec(),
            params: vec![Value::Array(vec![Value::Str(b"flush".to_vec())])],
        },
        Message::Response { id: 1, outcome: Ok(Value::Str(vec![b'x'; 40])) },
        Message::Request { id: 2, method: b"ask".to_vec(), params: vec![Value::Int(-70000)] },
        Message::Response { id: 3, outcome: Err(Value::Bin(vec![9; 5])) },
    ]
}

/// The messages one after the other, with a value that is no message and
/// a byte that is no value in between.
fn stream_bytes() -> (Vec<u8>, Vec<Incoming>) {
    let mut bytes = Vec::new();
    let mut expected = Vec::new();
    let all = stream_messages();
    for (i, m) in all.iter().enumerate() {
        bytes.extend_from_slice(&encode_message(m).unwrap());
        expected.push(Incoming::Message(m.clone()));
        if i == 0 {
            bytes.extend_from_slice(&[0x92, 0x01, 0x02]);
            expected.push(Incoming::Malformed);
        }
        if i == 2 {
            bytes.push(0xc1);
            expected.push(Incoming::Malformed);
        }
    }
    (bytes, expected)
}

#[test]
fn the_whole_stream_gives_its_frames_in_order() {
    let (bytes, expected) = stream_bytes();
    let mut d = Decoder::new();
    assert_eq!(d.feed(&bytes), expected);
    assert_eq!(d.kept_len(), 0);
}

#[test]
fn a_stream_cut_in_two_gives_the_same_frames() {
    let (bytes, expected) = stream_bytes();
    for cut in 0..=bytes.len() {
        let mut d = Decoder::new();
        let mut got = d.feed(&bytes[..cut]);
        got.extend(d.feed(&bytes[cut..]));
        assert_eq!(got, expected);
        assert_eq!(d.kept_len(), 0);
    }
}

#[test]
fn a_stream_fed_byte_by_byte_gives_the_same_frames() {
    let (bytes, expected) = stream_bytes();
    let mut d = Decoder::new();
    let mut got = Vec::new();
    for b in &bytes {
        got.extend(d.feed(&[*b]));
    }
    assert_eq!(got, expected);
    assert_eq!(d.kept_len(), 0);
}

#[test]
fn a_stream_cut_in_three_gives_the_same_frames() {
    let (bytes, expected) = stream_bytes();
    let n = bytes.len();
    let mut first = 0;
    while first <= n {
        let mut second = first;
        while second <= n {
            let mut d = Decoder::new();
            let mut got = d.feed(&bytes[..first]);
            got.extend(d.feed(&bytes[first..second]));
            got.extend(d.feed(&bytes[second..]));
            assert_eq!(got, expected);
            second += 7;
        }
        first += 5;
    }
}

#[test]
fn what_is_no_whole_frame_is_kept() {
    let m = Message::Response { id: 1, outcome: Ok(Value::Nil) };
    let bytes = encode_message(&m).unwrap();
    let mut d = Decoder::new();
    assert_eq!(d.feed(&bytes[..3]), vec![]);
    assert_eq!(d.kept_len(), 3);
    assert_eq!(d.feed(&[]), vec![]);
    assert_eq!(d.kept_len(), 3);
    let mut rest = bytes[3..].to_vec();
    rest.extend_from_slice(&bytes[..2]);
    assert_eq!(d.feed(&rest), vec![Incoming::Message(m)]);
    assert_eq!(d.kept_len(), 2);
}

#[test]
fn a_byte_that_is_no_value_is_dropped_alone() {
    let mut d = Decoder::new();
    let m = Message::Notification { method: b"n".to_vec(), params: vec![] };
    let mut bytes = vec![0xc1, 0xc1];
    bytes.extend_from_slice(&encode_message(&m).unwrap());
    assert_eq!(
        d.feed(&bytes),
        vec![Incoming::Malformed, Incoming::Malformed, Incoming::Message(m)]
    );
}
