use nvim_bridge::message::{encode_message, Message};
use nvim_bridge::rpc::{CallError, Client, Event};
use nvim_bridge::stream::Incoming;
use nvim_bridge::value::Value;

fn rpc_text(s: &str) -> Value {
    Value::Str(s.as_bytes().to_vec())
}

fn rpc_response(id: u64, outcome: Result<Value, Value>) -> Vec<u8> {
    encode_message(&Message::Response { id, outcome }).unwrap()
}

#[test]
fn a_call_gets_the_next_id_and_its_bytes() {
    let mut c: Client<&str> = Client::new(3);
    let (id, bytes) = c.call(b"nvim_get_mode".to_vec(), vec![], "first").unwrap();
    assert_eq!(id, 0);
    assert_eq!(
        bytes,
        encode_message(&Message::Request { id: 0, method: b"nvim_get_mode".to_vec(), params: vec![] })
            .unwrap()
    );
    let (id, _) = c.call(b"x".to_vec(), vec![Value::Nil], "second").unwrap();
    assert_eq!(id, 1);
    assert_eq!(c.waiting(), 2);
    assert!(c.is_waiting(0));
    assert!(c.is_waiting(1));
    assert!(!c.is_waiting(2));
}

#[test]
fn the_answer_to_request_seven_completes_it_and_a_stray_answer_is_dropped() {
    let mut c: Client<u32> = Client::new(3);
    let mut last = 0;
    for i in 0..8u32 {
        let method = if i == 7 { b"get_mode".to_vec() } else { b"other".to_vec() };
        let (id, _) = c.call(method, vec![], 100 + i).unwrap();
        last = id;
    }
    assert_eq!(last, 7);
    // [1, 7, nil, "normal"]
    let answer = [0x94, 0x01, 0x07, 0xc0, 0xa6, b'n', b'o', b'r', b'm', b'a', b'l'];
    let events = c.receive(&answer);
    assert_eq!(events, vec![Event::Completed { id: 7, token: 107, outcome: Ok(rpc_text("normal")) }]);
    assert_eq!(c.waiting(), 7);
    assert!(!c.is_waiting(7));
    // [1, 99, nil, "x"]
    let stray = [0x94, 0x01, 0x63, 0xc0, 0xa1, b'x'];
    let events = c.receive(&stray);
    assert_eq!(events, vec![Event::Unmatched { id: 99 }]);
    assert_eq!(c.waiting(), 7);
    assert!(!c.is_lost());
}

#[test]
fn an_answer_completes_its_call_only_once() {
    let mut c: Client<u8> = Client::new(3);
    let (id, _) = c.call(b"m".to_vec(), vec![], 1).unwrap();
    let answer = rpc_response(id, Ok(Value::UInt(5)));
    assert_eq!(
        c.receive(&answer),
        vec![Event::Completed { id, token: 1, outcome: Ok(Value::UInt(5)) }]
    );
    assert_eq!(c.receive(&answer), vec![Event::Unmatched { id }]);
}

#[test]
fn an_error_of_the_peer_comes_with_its_payload() {
    let mut c: Client<u8> = Client::new(3);
    let (id, _) = c.call(b"m".to_vec(), vec![], 1).unwrap();
    let payload = Value::Array(vec![Value::UInt(1), rpc_text("E492: Not an editor command")]);
    let events = c.receive(&rpc_response(id, Err(payload.clone())));
    assert_eq!(events, vec![Event::Completed { id, token: 1, outcome: Err(payload) }]);
}

#[test]
fn a_call_that_waits_when_the_connection_is_lost_is_cancelled() {
    let mut c: Client<&str> = Client::new(3);
    let (a, _) = c.call(b"one".to_vec(), vec![], "a").unwrap();
    let (b, _) = c.call(b"two".to_vec(), vec![], "b").unwrap();
    let cancelled = c.connection_lost();
    assert_eq!(cancelled, vec![(a, "a"), (b, "b")]);
    assert!(c.is_lost());
    assert_eq!(c.waiting(), 0);
    assert_eq!(c.connection_lost(), vec![]);
}

#[test]
fn a_lost_connection_takes_no_calls_and_gives_no_events() {
    let mut c: Client<u8> = Client::new(3);
    c.connection_lost();
    assert_eq!(c.call(b"m".to_vec(), vec![], 9), Err((CallError::ConnectionLost, 9)));
    assert_eq!(c.notify(b"m".to_vec(), vec![]), Err(CallError::ConnectionLost));
    assert_eq!(c.receive(&rpc_response(0, Ok(Value::Nil))), vec![]);
    assert_eq!(c.handle(Incoming::Malformed), vec![]);
}

#[test]
fn notifications_come_in_the_order_of_arrival() {
    let mut c: Client<u8> = Client::new(3);
    let (id, _) = c.call(b"m".to_vec(), vec![], 1).unwrap();
    let mut bytes = Vec::new();
    let n = |name: &str, v: u64| Message::Notification {
        method: name.as_bytes().to_vec(),
        params: vec![Value::UInt(v)],
    };
    bytes.extend_from_slice(&encode_message(&n("redraw", 1)).unwrap());
    bytes.extend_from_slice(&encode_message(&n("redraw", 2)).unwrap());
    bytes.extend_from_slice(&rpc_response(id, Ok(Value::Nil)));
    bytes.extend_from_slice(&encode_message(&n("other", 3)).unwrap());
    let expected = vec![
        Event::Notification { method: b"redraw".to_vec(), params: vec![Value::UInt(1)] },
        Event::Notification { method: b"redraw".to_vec(), params: vec![Value::UInt(2)] },
        Event::Completed { id, token: 1, outcome: Ok(Value::Nil) },
        Event::Notification { method: b"other".to_vec(), params: vec![Value::UInt(3)] },
    ];
    assert_eq!(c.receive(&bytes), expected);
}

#[test]
fn events_do_not_depend_on_where_the_stream_is_cut() {
    let mut whole = Vec::new();
    whole.extend_from_slice(&rpc_response(1, Ok(rpc_text("one"))));
    whole.push(0xc1);
    whole.extend_from_slice(
        &encode_message(&Message::Notification { method: b"redraw".to_vec(), params: vec![] })
            .unwrap(),
    );
    whole.extend_from_slice(&rpc_response(0, Err(rpc_text("zero"))));
    whole.extend_from_slice(&rpc_response(5, Ok(Value::Nil)));
    let run = |cuts: &[usize]| {
        let mut c: Client<u8> = Client::new(3);
        c.call(b"a".to_vec(), vec![], 10).unwrap();
        c.call(b"b".to_vec(), vec![], 11).unwrap();
        let mut events = Vec::new();
        let mut from = 0;
        for &cut in cuts {
            events.extend(c.receive(&whole[from..cut]));
            from = cut;
        }
        events.extend(c.receive(&whole[from..]));
        (events, c.waiting())
    };
    let expected = run(&[]);
    assert_eq!(
        expected.0,
        vec![
            Event::Completed { id: 1, token: 11, outcome: Ok(rpc_text("one")) },
            Event::Malformed,
            Event::Notification { method: b"redraw".to_vec(), params: vec![] },
            Event::Completed { id: 0, token: 10, outcome: Err(rpc_text("zero")) },
            Event::Unmatched { id: 5 },
        ]
    );
    assert_eq!(expected.1, 0);
    for cut in 0..=whole.len() {
        assert_eq!(run(&[cut]), expected);
    }
    let all: Vec<usize> = (1..whole.len()).collect();
    assert_eq!(run(&all), expected);
}

#[test]
fn malformed_frames_beyond_the_tolerance_lose_the_connection() {
    let mut c: Client<&str> = Client::new(2);
    let (id, _) = c.call(b"m".to_vec(), vec![], "t").unwrap();
    assert_eq!(c.receive(&[0xc1]), vec![Event::Malformed]);
    assert_eq!(c.receive(&[0xc1]), vec![Event::Malformed]);
    assert!(!c.is_lost());
    assert_eq!(
        c.receive(&[0xc1]),
        vec![Event::Malformed, Event::Lost { cancelled: vec![(id, "t")] }]
    );
    assert!(c.is_lost());
    assert_eq!(c.waiting(), 0);
    assert_eq!(c.receive(&[0xc1]), vec![]);
}

#[test]
fn a_message_between_malformed_frames_starts_the_count_anew() {
    let mut c: Client<u8> = Client::new(1);
    let note = encode_message(&Message::Notification { method: b"n".to_vec(), params: vec![] })
        .unwrap();
    for _ in 0..5 {
        assert_eq!(c.receive(&[0xc1]), vec![Event::Malformed]);
        assert_eq!(
            c.receive(&note),
            vec![Event::Notification { method: b"n".to_vec(), params: vec![] }]
        );
    }
    assert!(!c.is_lost());
    assert_eq!(c.receive(&[0xc1, 0xc1]).len(), 3);
    assert!(c.is_lost());
}

#[test]
fn with_no_tolerance_the_first_malformed_frame_loses_the_connection() {
    let mut c: Client<u8> = Client::new(0);
    assert_eq!(c.receive(&[0x05]), vec![Event::Malformed, Event::Lost { cancelled: vec![] }]);
    assert!(c.is_lost());
}

#[test]
fn a_request_of_the_peer_is_handed_on() {
    let mut c: Client<u8> = Client::new(3);
    let bytes = encode_message(&Message::Request {
        id: 4,
        method: b"ask".to_vec(),
        params: vec![Value::Bool(true)],
    })
    .unwrap();
    assert_eq!(
        c.receive(&bytes),
        vec![Event::Request { id: 4, method: b"ask".to_vec(), params: vec![Value::Bool(true)] }]
    );
}

#[test]
fn a_notification_is_written_and_nothing_waits() {
    let c: Client<u8> = Client::new(3);
    let bytes = c.notify(b"nvim_input".to_vec(), vec![rpc_text("i")]).unwrap();
    assert_eq!(
        bytes,
        vec![0x93, 0x02, 0xaa, b'n', b'v', b'i', b'm', b'_', b'i', b'n', b'p', b'u', b't', 0x91, 0xa1, b'i']
    );
    assert_eq!(c.waiting(), 0);
}

#[test]
fn handle_takes_one_frame_at_a_time() {
    let mut c: Client<u8> = Client::new(3);
    let (id, _) = c.call(b"m".to_vec(), vec![], 42).unwrap();
    let answer = Message::Response { id, outcome: Ok(Value::Nil) };
    assert_eq!(
        c.handle(Incoming::Message(answer)),
        vec![Event::Completed { id, token: 42, outcome: Ok(Value::Nil) }]
    );
    assert_eq!(c.handle(Incoming::Malformed), vec![Event::Malformed]);
}

#[test]
fn a_client_can_start_at_any_id() {
    let mut c: Client<u8> = Client::starting_at(3, 7);
    let (id, bytes) = c.call(b"get_mode".to_vec(), vec![], 1).unwrap();
    assert_eq!(id, 7);
    assert_eq!(
        bytes,
        vec![0x94, 0x00, 0x07, 0xa8, b'g', b'e', b't', b'_', b'm', b'o', b'd', b'e', 0x90]
    );
    let (id, _) = c.call(b"get_mode".to_vec(), vec![], 2).unwrap();
    assert_eq!(id, 8);
}

#[test]
fn when_no_id_is_left_no_call_is_made() {
    let mut c: Client<u8> = Client::starting_at(3, u64::MAX - 1);
    let (id, _) = c.call(b"m".to_vec(), vec![], 1).unwrap();
    assert_eq!(id, u64::MAX - 1);
    assert_eq!(c.call(b"m".to_vec(), vec![], 2), Err((CallError::IdsExhausted, 2)));
    assert_eq!(c.waiting(), 1);
    assert!(c.notify(b"m".to_vec(), vec![]).is_ok());
}

#[test]
fn a_message_nested_too_deep_is_not_sent() {
    let mut deep = Value::Nil;
    for _ in 0..1023 {
        deep = Value::Array(vec![deep]);
    }
    let mut c: Client<u8> = Client::new(3);
    assert_eq!(c.call(b"m".to_vec(), vec![deep.clone()], 1), Err((CallError::TooLarge, 1)));
    assert_eq!(c.notify(b"m".to_vec(), vec![deep]), Err(CallError::TooLarge));
    assert_eq!(c.waiting(), 0);
    let mut fits = Value::Nil;
    for _ in 0..1022 {
        fits = Value::Array(vec![fits]);
    }
    let (id, bytes) = c.call(b"m".to_vec(), vec![fits], 1).unwrap();
    assert_eq!(id, 0);
    // the head of the message, kind, id, method, the head of the
    // parameters, the heads of the nested arrays, and nil
    assert_eq!(bytes.len(), 1 + 1 + 1 + 2 + 1 + 1022 + 1);
}
