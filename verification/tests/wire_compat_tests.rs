use nvim_bridge::codec::{decode_value, encode_value, DecodeError};
use nvim_bridge::value::Value;

fn compat_to_rmpv(v: &Value) -> rmpv::Value {
    match v {
        Value::Nil => rmpv::Value::Nil,
        Value::Bool(b) => rmpv::Value::Boolean(*b),
        Value::Int(i) => rmpv::Value::Integer(rmpv::Integer::from(*i)),
        Value::UInt(u) => rmpv::Value::Integer(rmpv::Integer::from(*u)),
        Value::F32(bits) => rmpv::Value::F32(f32::from_bits(*bits)),
        Value::F64(bits) => rmpv::Value::F64(f64::from_bits(*bits)),
        Value::Str(bytes) => {
            rmpv::Value::String(rmpv::Utf8String::from(String::from_utf8(bytes.clone()).unwrap()))
        }
        Value::Bin(bytes) => rmpv::Value::Binary(bytes.clone()),
        Value::Array(items) => rmpv::Value::Array(items.iter().map(compat_to_rmpv).collect()),
        Value::Mapping(pairs) => rmpv::Value::Map(
            pairs.iter().map(|(k, v)| (compat_to_rmpv(k), compat_to_rmpv(v))).collect(),
        ),
        Value::Ext(tag, bytes) => rmpv::Value::Ext(*tag, bytes.clone()),
    }
}

fn compat_from_rmpv(v: &rmpv::Value) -> Value {
    match v {
        rmpv::Value::Nil => Value::Nil,
        rmpv::Value::Boolean(b) => Value::Bool(*b),
        rmpv::Value::Integer(i) => match i.as_u64() {
            Some(u) => Value::UInt(u),
            None => Value::Int(i.as_i64().unwrap()),
        },
        rmpv::Value::F32(f) => Value::F32(f.to_bits()),
        rmpv::Value::F64(f) => Value::F64(f.to_bits()),
        rmpv::Value::String(s) => Value::Str(s.as_bytes().to_vec()),
        rmpv::Value::Binary(b) => Value::Bin(b.clone()),
        rmpv::Value::Array(items) => Value::Array(items.iter().map(compat_from_rmpv).collect()),
        rmpv::Value::Map(pairs) => Value::Mapping(
            pairs.iter().map(|(k, v)| (compat_from_rmpv(k), compat_from_rmpv(v))).collect(),
        ),
        rmpv::Value::Ext(tag, bytes) => Value::Ext(*tag, bytes.clone()),
    }
}

fn compat_samples() -> Vec<Value> {
    let text = |s: &str| Value::Str(s.as_bytes().to_vec());
    let mut out = vec![
        Value::Nil,
        Value::Bool(true),
        Value::Bool(false),
        Value::F32(0x4048_f5c3),
        Value::F64(0x4009_1eb8_51eb_851f),
        text(""),
        text("grid_line"),
        text("żółw"),
        Value::Str(vec![b'a'; 31]),
        Value::Str(vec![b'a'; 32]),
        Value::Str(vec![b'a'; 255]),
        Value::Str(vec![b'a'; 256]),
        Value::Str(vec![b'a'; 70000]),
        Value::Bin(vec![]),
        Value::Bin(vec![0, 255, 7]),
        Value::Bin(vec![3; 300]),
        Value::Bin(vec![3; 66000]),
        Value::Ext(0, vec![1]),
        Value::Ext(1, vec![1, 2]),
        Value::Ext(-3, vec![1, 2, 3]),
        Value::Ext(4, vec![1, 2, 3, 4]),
        Value::Ext(5, vec![0; 8]),
        Value::Ext(6, vec![0; 16]),
        Value::Ext(7, vec![0; 17]),
        Value::Ext(8, vec![0; 300]),
        Value::Array(vec![]),
        Value::Array(vec![Value::Nil; 15]),
        Value::Array(vec![Value::Nil; 16]),
        Value::Array(vec![Value::UInt(9); 70000]),
        Value::Mapping(vec![(text("rgb"), Value::Bool(true))]),
        Value::Array(vec![
            Value::UInt(2),
            text("redraw"),
            Value::Array(vec![Value::Array(vec![
                text("grid_line"),
                Value::UInt(1),
                Value::UInt(0),
                Value::UInt(0),
                Value::Array(vec![Value::Array(vec![text("H"), Value::UInt(1)])]),
            ])]),
        ]),
    ];
    let edges: [i128; 24] = [
        0,
        1,
        127,
        128,
        255,
        256,
        65535,
        65536,
        4294967295,
        4294967296,
        i64::MAX as i128,
        i64::MAX as i128 + 1,
        u64::MAX as i128,
        -1,
        -32,
        -33,
        -128,
        -129,
        -32768,
        -32769,
        -2147483648,
        -2147483649,
        i64::MIN as i128 + 1,
        i64::MIN as i128,
    ];
    for e in edges {
        if e >= 0 {
            out.push(Value::UInt(e as u64));
        } else {
            out.push(Value::Int(e as i64));
        }
    }
    let mut pairs = Vec::new();
    for i in 0..20u64 {
        pairs.push((Value::UInt(i), Value::Array(vec![Value::UInt(i)])));
    }
    out.push(Value::Mapping(pairs));
    out
}

#[test]
fn written_bytes_are_those_of_rmpv() {
    for v in compat_samples() {
        let ours = encode_value(&v).unwrap();
        let mut theirs = Vec::new();
        rmpv::encode::write_value(&mut theirs, &compat_to_rmpv(&v)).unwrap();
        assert_eq!(ours, theirs);
    }
}

#[test]
fn written_bytes_are_read_by_rmpv() {
    for v in compat_samples() {
        let ours = encode_value(&v).unwrap();
        let mut slice: &[u8] = &ours;
        let theirs = rmpv::decode::read_value(&mut slice).unwrap();
        assert!(slice.is_empty());
        assert_eq!(compat_from_rmpv(&theirs), v);
    }
}

#[test]
fn bytes_of_rmpv_are_read() {
    for v in compat_samples() {
        let mut theirs = Vec::new();
        rmpv::encode::write_value(&mut theirs, &compat_to_rmpv(&v)).unwrap();
        let (back, next) = decode_value(&theirs, 0).unwrap();
        assert_eq!(next, theirs.len());
        assert_eq!(back, v);
    }
}

#[test]
fn every_marker_in_use_is_read_as_rmpv_reads_it() {
    for marker in 0..=255u8 {
        if marker == 0xc1 {
            // The format leaves this marker unused; rmpv
            // reads it as nil, this library refuses it.
            assert_eq!(decode_value(&[marker], 0), Err(DecodeError::Malformed));
            continue;
        }
        let mut bytes = vec![marker];
        bytes.extend_from_slice(&[0u8; 40]);
        let mut slice: &[u8] = &bytes;
        let theirs = rmpv::decode::read_value(&mut slice);
        let ours = decode_value(&bytes, 0);
        match theirs {
            Ok(v) => {
                let used = bytes.len() - slice.len();
                assert_eq!(ours, Ok((compat_from_rmpv(&v), used)));
            }
            Err(_) => assert!(ours.is_err()),
        }
    }
}
