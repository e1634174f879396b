//! The three kinds of protocol message and their form on the wire.
//!
//! A request is the array `[0, id, method, params]`, a response is
//! `[1, id, error, result]` with one of the two `nil`, and a notification
//! is `[2, method, params]`.

use vstd::prelude::*;
use crate::codec::{
    append_bytes, decode_value, encode_array, encode_in, lemma_encode_all_push, push_array_head,
    push_str_head, push_uint, wire_len, DecodeError, MAX_DEPTH,
};
use crate::value::{copy_bytes, duplicate, duplicate_all, lemma_views, views, Val, Value};
use crate::wire::{
    array_head, encodable, encodable_in, encode, encode_all, max_depth, parse, str_head, Parsed,
};
use crate::wire_laws::lemma_round_trip;

verus! {

/// A message as a mathematical object.
pub enum Msg {
    Request { id: u64, method: Seq<u8>, params: Seq<Val> },
    Response { id: u64, outcome: Result<Val, Val> },
    Notification { method: Seq<u8>, params: Seq<Val> },
}

/// A protocol message.
///
/// `method` holds the bytes of the method's name. The `outcome` of a
/// response is the result of the call, or the error payload that the peer
/// answered with.
#[derive(Debug, PartialEq)]
pub enum Message {
    Request { id: u64, method: Vec<u8>, params: Vec<Value> },
    Response { id: u64, outcome: Result<Value, Value> },
    Notification { method: Vec<u8>, params: Vec<Value> },
}

impl View for Message {
    type V = Msg;

    open spec fn view(&self) -> Msg {
        match self {
            Message::Request { id, method, params } => Msg::Request {
                id: *id,
                method: method@,
                params: views(params@),
            },
            Message::Response { id, outcome } => Msg::Response {
                id: *id,
                outcome: match outcome {
                    Ok(v) => Ok(v@),
                    Err(e) => Err(e@),
                },
            },
            Message::Notification { method, params } => Msg::Notification {
                method: method@,
                params: views(params@),
            },
        }
    }
}

impl Clone for Message {
    fn clone(&self) -> (r: Self)
        ensures
            r@ == self@,
    {
        match self {
            Message::Request { id, method, params } => Message::Request {
                id: *id,
                method: copy_bytes(method),
                params: duplicate_all(params),
            },
            Message::Response { id, outcome } => Message::Response {
                id: *id,
                outcome: match outcome {
                    Ok(v) => Ok(duplicate(v)),
                    Err(e) => Err(duplicate(e)),
                },
            },
            Message::Notification { method, params } => Message::Notification {
                method: copy_bytes(method),
                params: duplicate_all(params),
            },
        }
    }
}

/// The value that a message travels as.
pub open spec fn to_val(m: Msg) -> Val {
    match m {
        Msg::Request { id, method, params } => Val::Array(
            seq![Val::Int(0), Val::Int(id as int), Val::Str(method), Val::Array(params)],
        ),
        Msg::Response { id, outcome } => match outcome {
            Ok(v) => Val::Array(seq![Val::Int(1), Val::Int(id as int), Val::Nil, v]),
            Err(e) => Val::Array(seq![Val::Int(1), Val::Int(id as int), e, Val::Nil]),
        },
        Msg::Notification { method, params } => Val::Array(
            seq![Val::Int(2), Val::Str(method), Val::Array(params)],
        ),
    }
}

/// The identifier that `v` states, if it is an integer that fits one.
pub open spec fn id_of(v: Val) -> Option<u64> {
    match v {
        Val::Int(i) => if 0 <= i <= u64::MAX {
            Some(i as u64)
        } else {
            None
        },
        _ => None,
    }
}

/// The message that a value is, if it has the shape of one.
///
/// A response whose error is not `nil` is a failure, whatever stands in
/// the place of its result.
pub open spec fn of_val(v: Val) -> Option<Msg> {
    match v {
        Val::Array(items) => if items.len() == 4 && items[0] == Val::Int(0) {
            match (id_of(items[1]), items[2], items[3]) {
                (Some(id), Val::Str(method), Val::Array(params)) => Some(
                    Msg::Request { id, method, params },
                ),
                _ => None,
            }
        } else if items.len() == 4 && items[0] == Val::Int(1) {
            match id_of(items[1]) {
                Some(id) => if items[2] == Val::Nil {
                    Some(Msg::Response { id, outcome: Ok(items[3]) })
                } else {
                    Some(Msg::Response { id, outcome: Err(items[2]) })
                },
                None => None,
            }
        } else if items.len() == 3 && items[0] == Val::Int(2) {
            match (items[1], items[2]) {
                (Val::Str(method), Val::Array(params)) => Some(
                    Msg::Notification { method, params },
                ),
                _ => None,
            }
        } else {
            None
        },
        _ => None,
    }
}

/// The error of a failed response is not `nil`: `nil` in the place of the
/// error is how the wire says that a call succeeded.
pub open spec fn well_formed(m: Msg) -> bool {
    match m {
        Msg::Response { id, outcome } => match outcome {
            Ok(_) => true,
            Err(e) => e != Val::Nil,
        },
        _ => true,
    }
}

/// The message can be written: it is well formed, and the value that it
/// travels as can be written (see `encodable`).
pub open spec fn sendable(m: Msg) -> bool {
    well_formed(m) && encodable(to_val(m))
}

/// The bytes that a message is written as.
pub open spec fn wire_bytes(m: Msg) -> Seq<u8> {
    encode(to_val(m))
}

/// What the start of a byte stream holds.
pub enum Frame {
    /// A message, and the number of bytes that it takes.
    Message(Msg, int),
    /// The bytes end before the first frame does.
    NeedMoreData,
    /// No message, and the number of bytes to drop: those of a whole
    /// value that is no message, or one byte where no value can be read.
    Malformed(int),
}

/// What the start of `s` holds.
pub open spec fn frame(s: Seq<u8>) -> Frame {
    match parse(s) {
        Parsed::Done(v, k) => match of_val(v) {
            Some(m) => Frame::Message(m, k),
            None => Frame::Malformed(k),
        },
        Parsed::Incomplete => Frame::NeedMoreData,
        Parsed::Invalid => Frame::Malformed(1),
    }
}

/// What `decode` found at a position of a buffer.
#[derive(Debug, PartialEq)]
pub enum Decoded {
    /// A message, and the position after it.
    Message(Message, usize),
    /// The buffer ends before the frame does.
    NeedMoreData,
    /// What stands there is no message; the position after what is to be
    /// dropped.
    MalformedFrame(usize),
}

/// `r` reports what `f` says stands at position `pos`.
pub open spec fn reports_frame(r: Decoded, f: Frame, pos: int) -> bool {
    match f {
        Frame::Message(m, k) => r matches Decoded::Message(x, next) && x@ == m && next == pos + k,
        Frame::NeedMoreData => r is NeedMoreData,
        Frame::Malformed(k) => r matches Decoded::MalformedFrame(next) && next == pos + k,
    }
}

proof fn lemma_encode_all_3(a: Val, b: Val, c: Val)
    ensures
        encode_all(seq![a, b, c]) == encode(a) + encode(b) + encode(c),
{
    let e = Seq::<Val>::empty();
    lemma_encode_all_push(e, a);
    lemma_encode_all_push(e.push(a), b);
    lemma_encode_all_push(e.push(a).push(b), c);
    assert(seq![a, b, c] =~= e.push(a).push(b).push(c));
    assert(encode_all(e) =~= Seq::<u8>::empty());
    assert(Seq::<u8>::empty() + encode(a) =~= encode(a));
}

proof fn lemma_encode_all_4(a: Val, b: Val, c: Val, d: Val)
    ensures
        encode_all(seq![a, b, c, d]) == encode(a) + encode(b) + encode(c) + encode(d),
{
    lemma_encode_all_3(a, b, c);
    lemma_encode_all_push(seq![a, b, c], d);
    assert(seq![a, b, c, d] =~= seq![a, b, c].push(d));
}

/// Appends the head and the bytes of a string.
fn push_str(out: &mut Vec<u8>, bytes: &Vec<u8>) -> (ok: bool)
    ensures
        ok == encodable_in(Val::Str(bytes@), (max_depth() - 1) as nat),
        ok ==> final(out)@ == old(out)@ + encode(Val::Str(bytes@)),
{
    match wire_len(bytes.len()) {
        None => false,
        Some(n) => {
            push_str_head(out, n);
            append_bytes(out, bytes.as_slice());
            proof {
                assert(out@ =~= old(out)@ + (str_head(n as int) + bytes@));
            }
            true
        },
    }
}

/// Writes a message.
///
/// `None` says that the message cannot be written: it is a failed
/// response whose error is `nil`, one of its lengths exceeds 32 bits, or
/// it nests arrays and mappings too deep.
pub fn encode_message(msg: &Message) -> (r: Option<Vec<u8>>)
    ensures
        r is Some <==> sendable(msg@),
        r matches Some(bytes) ==> bytes@ == wire_bytes(msg@),
{
    let mut out: Vec<u8> = Vec::new();
    match msg {
        Message::Request { id, method, params } => {
            let ghost items = seq![
                Val::Int(0),
                Val::Int(*id as int),
                Val::Str(method@),
                Val::Array(views(params@)),
            ];
            proof {
                lemma_encode_all_4(items[0], items[1], items[2], items[3]);
                assert(encodable_in(items[0], 1023) && encodable_in(items[1], 1023));
            }
            push_array_head(&mut out, 4);
            push_uint(&mut out, 0);
            push_uint(&mut out, *id);
            if !push_str(&mut out, method) {
                proof {
                    assert(!encodable_in(items[2], (max_depth() - 1) as nat));
                }
                return None;
            }
            if !encode_array(params, &mut out, MAX_DEPTH - 1) {
                proof {
                    assert(!encodable_in(items[3], (max_depth() - 1) as nat));
                }
                return None;
            }
            proof {
                assert(out@ =~= array_head(4) + (encode(items[0]) + encode(items[1]) + encode(
                    items[2],
                ) + encode(items[3])));
            }
            Some(out)
        },
        Message::Response { id, outcome } => {
            push_array_head(&mut out, 4);
            push_uint(&mut out, 1);
            push_uint(&mut out, *id);
            match outcome {
                Ok(v) => {
                    let ghost items = seq![Val::Int(1), Val::Int(*id as int), Val::Nil, v@];
                    proof {
                        lemma_encode_all_4(items[0], items[1], items[2], items[3]);
                        assert(encodable_in(items[0], 1023) && encodable_in(items[1], 1023) && encodable_in(
                            items[2],
                            1023,
                        ));
                    }
                    out.push(0xc0);
                    if !encode_in(v, &mut out, MAX_DEPTH - 1) {
                        proof {
                            assert(!encodable_in(items[3], (max_depth() - 1) as nat));
                        }
                        return None;
                    }
                    proof {
                        assert(out@ =~= array_head(4) + (encode(items[0]) + encode(items[1])
                            + encode(items[2]) + encode(items[3])));
                    }
                },
                Err(e) => {
                    match e {
                        Value::Nil => {
                            return None;
                        },
                        _ => {},
                    }
                    let ghost items = seq![Val::Int(1), Val::Int(*id as int), e@, Val::Nil];
                    proof {
                        lemma_encode_all_4(items[0], items[1], items[2], items[3]);
                        assert(encodable_in(items[0], 1023) && encodable_in(items[1], 1023) && encodable_in(
                            items[3],
                            1023,
                        ));
                    }
                    if !encode_in(e, &mut out, MAX_DEPTH - 1) {
                        proof {
                            assert(!encodable_in(items[2], (max_depth() - 1) as nat));
                        }
                        return None;
                    }
                    out.push(0xc0);
                    proof {
                        assert(out@ =~= array_head(4) + (encode(items[0]) + encode(items[1])
                            + encode(items[2]) + encode(items[3])));
                    }
                },
            }
            Some(out)
        },
        Message::Notification { method, params } => {
            let ghost items = seq![Val::Int(2), Val::Str(method@), Val::Array(views(params@))];
            proof {
                lemma_encode_all_3(items[0], items[1], items[2]);
                assert(encodable_in(items[0], 1023));
            }
            push_array_head(&mut out, 3);
            push_uint(&mut out, 2);
            if !push_str(&mut out, method) {
                proof {
                    assert(!encodable_in(items[1], (max_depth() - 1) as nat));
                }
                return None;
            }
            if !encode_array(params, &mut out, MAX_DEPTH - 1) {
                proof {
                    assert(!encodable_in(items[2], (max_depth() - 1) as nat));
                }
                return None;
            }
            proof {
                assert(out@ =~= array_head(3) + (encode(items[0]) + encode(items[1]) + encode(
                    items[2],
                )));
            }
            Some(out)
        },
    }
}

/// The identifier that a value states, if it is an integer that fits one.
pub fn as_id(v: &Value) -> (r: Option<u64>)
    ensures
        r == id_of(v@),
{
    match v {
        Value::UInt(u) => Some(*u),
        Value::Int(i) => if *i >= 0 {
            Some(*i as u64)
        } else {
            None
        },
        _ => None,
    }
}

/// The message that a value is, if it has the shape of one.
pub fn from_value(v: Value) -> (r: Option<Message>)
    ensures
        match of_val(v@) {
            Some(m) => r matches Some(x) && x@ == m,
            None => r is None,
        },
{
    match v {
        Value::Array(items) => from_items(items),
        _ => None,
    }
}

fn from_items(items: Vec<Value>) -> (r: Option<Message>)
    ensures
        match of_val(Val::Array(views(items@))) {
            Some(m) => r matches Some(x) && x@ == m,
            None => r is None,
        },
{
    proof {
        lemma_views(items@);
    }
    let n: usize = items.len();
    if n != 3 && n != 4 {
        return None;
    }
    let kind: Option<u64> = as_id(&items[0]);
    let mut items = items;
    match kind {
        Some(0) => {
            if n != 4 {
                return None;
            }
            let params = items.pop();
            let method = items.pop();
            let id = as_id(&items[1]);
            match id {
                Some(id) => match method {
                    Some(Value::Str(method)) => match params {
                        Some(Value::Array(params)) => Some(
                            Message::Request { id, method, params },
                        ),
                        _ => None,
                    },
                    _ => None,
                },
                None => None,
            }
        },
        Some(1) => {
            if n != 4 {
                return None;
            }
            let result = items.pop();
            let error = items.pop();
            let id = as_id(&items[1]);
            match id {
                Some(id) => match error {
                    Some(Value::Nil) => match result {
                        Some(v) => Some(Message::Response { id, outcome: Ok(v) }),
                        None => None,
                    },
                    Some(e) => Some(Message::Response { id, outcome: Err(e) }),
                    None => None,
                },
                None => None,
            }
        },
        Some(2) => {
            if n != 3 {
                return None;
            }
            let params = items.pop();
            let method = items.pop();
            match method {
                Some(Value::Str(method)) => match params {
                    Some(Value::Array(params)) => Some(Message::Notification { method, params }),
                    _ => None,
                },
                _ => None,
            }
        },
        _ => None,
    }
}

/// Reads the frame that begins at `pos`.
///
/// A message comes with the position after it. `NeedMoreData` says that
/// the buffer ends inside the frame. `MalformedFrame` says that no
/// message stands at `pos`, and gives the position after what is to be
/// dropped: a whole value that is no message, or one byte.
pub fn decode(buf: &[u8], pos: usize) -> (r: Decoded)
    requires
        pos <= buf.len(),
    ensures
        reports_frame(r, frame(buf@.skip(pos as int)), pos as int),
{
    match decode_value(buf, pos) {
        Ok((v, next)) => match from_value(v) {
            Some(m) => Decoded::Message(m, next),
            None => Decoded::MalformedFrame(next),
        },
        Err(DecodeError::NeedMoreData) => Decoded::NeedMoreData,
        Err(DecodeError::Malformed) => {
            proof {
                assert(buf@.skip(pos as int).len() > 0);
            }
            Decoded::MalformedFrame(pos + 1)
        },
    }
}

/// A message reads back from the value it travels as.
pub proof fn lemma_of_val_to_val(m: Msg)
    requires
        well_formed(m),
    ensures
        of_val(to_val(m)) == Some(m),
{
}

/// Writing a message and reading the bytes gives the message back, with
/// all its bytes used, whatever follows them.
pub proof fn lemma_message_round_trip(m: Msg, rest: Seq<u8>)
    requires
        sendable(m),
    ensures
        frame(wire_bytes(m) + rest) == Frame::Message(m, wire_bytes(m).len() as int),
{
    lemma_round_trip(to_val(m), rest);
    lemma_of_val_to_val(m);
}

} // verus!
