//! Reading and writing protocol values as bytes.

use vstd::prelude::*;
use vstd::slice::{slice_subrange, slice_to_vec};
use crate::value::{lemma_pair_views, lemma_pair_views_push, lemma_views, lemma_views_push, pair_views, views, Val, Value};
use crate::wire::{
    after, array_head, be16, be32, be64, bin_head, encodable, encodable_in, encode, encode_all,
    encode_int, encode_pairs, ext_head, head, head_len, lemma_parse_consumed_in, map_head,
    parse, parse_all, parse_in, parse_pairs, str_head, tag_byte, tag_of,
    u16_at, u32_at, u64_at, Head, Parsed,
};

verus! {

/// How deep arrays and mappings may be nested, one in the other, to be
/// read or written.
pub const MAX_DEPTH: u32 = 1024;

/// Why no value could be read.
#[derive(Debug, Clone, Copy, PartialEq, Eq, Structural)]
pub enum DecodeError {
    /// The bytes end before the value does.
    NeedMoreData,
    /// The bytes are not a value, or nest arrays and mappings too deep.
    Malformed,
}

/// Every integer in `v` that is not negative is held as `UInt`.
pub open spec fn normal(v: Value) -> bool
    decreases v,
{
    match v {
        Value::Int(i) => i < 0,
        Value::Array(items) => forall|i: int| 0 <= i < items.len() ==> normal(#[trigger] items[i]),
        Value::Mapping(pairs) => forall|i: int|
            0 <= i < pairs.len() ==> normal((#[trigger] pairs[i]).0) && normal(pairs[i].1),
        _ => true,
    }
}

/// `r` reports what `p` says was read from position `pos`.
pub open spec fn reports(r: Result<(Value, usize), DecodeError>, p: Parsed<Val>, pos: int) -> bool {
    match p {
        Parsed::Done(v, k) => r matches Ok((val, next)) && val@ == v && next == pos + k && normal(
            val,
        ),
        Parsed::Incomplete => r matches Err(e) && e == DecodeError::NeedMoreData,
        Parsed::Invalid => r matches Err(e) && e == DecodeError::Malformed,
    }
}

/// What the first bytes of a value announce.
enum Lead {
    Leaf(Value),
    Str(u32),
    Bin(u32),
    Ext(i8, u32),
    Array(u32),
    Mapping(u32),
    Invalid,
}

impl Lead {
    spec fn meaning(self) -> Head {
        match self {
            Lead::Leaf(v) => Head::Leaf(v@),
            Lead::Str(n) => Head::Str(n as int),
            Lead::Bin(n) => Head::Bin(n as int),
            Lead::Ext(tag, n) => Head::Ext(tag, n as int),
            Lead::Array(n) => Head::Array(n as int),
            Lead::Mapping(n) => Head::Mapping(n as int),
            Lead::Invalid => Head::Invalid,
        }
    }

    spec fn leaf_normal(self) -> bool {
        self matches Lead::Leaf(v) ==> normal(v) && !(v is Array) && !(v is Mapping)
    }
}

fn head_size(b: u8) -> (r: usize)
    ensures
        r == head_len(b),
        1 <= r <= 9,
{
    if b < 0xc4 {
        1
    } else if b == 0xc4 {
        2
    } else if b == 0xc5 {
        3
    } else if b == 0xc6 {
        5
    } else if b == 0xc7 {
        3
    } else if b == 0xc8 {
        4
    } else if b == 0xc9 {
        6
    } else if b == 0xca {
        5
    } else if b == 0xcb {
        9
    } else if b == 0xcc {
        2
    } else if b == 0xcd {
        3
    } else if b == 0xce {
        5
    } else if b == 0xcf {
        9
    } else if b == 0xd0 {
        2
    } else if b == 0xd1 {
        3
    } else if b == 0xd2 {
        5
    } else if b == 0xd3 {
        9
    } else if b <= 0xd8 {
        2
    } else if b == 0xd9 {
        2
    } else if b == 0xda {
        3
    } else if b == 0xdb {
        5
    } else if b == 0xdc {
        3
    } else if b == 0xdd {
        5
    } else if b == 0xde {
        3
    } else if b == 0xdf {
        5
    } else {
        1
    }
}

fn read_u16(buf: &[u8], at: usize) -> (r: u16)
    requires
        at + 2 <= buf.len(),
    ensures
        r == u16_at(buf@, at as int),
{
    let hi: u16 = buf[at] as u16;
    let lo: u16 = buf[at + 1] as u16;
    hi * 0x100 + lo
}

fn read_u32(buf: &[u8], at: usize) -> (r: u32)
    requires
        at + 4 <= buf.len(),
    ensures
        r == u32_at(buf@, at as int),
{
    let hi: u32 = read_u16(buf, at) as u32;
    let lo: u32 = read_u16(buf, at + 2) as u32;
    hi * 0x1_0000 + lo
}

fn read_u64(buf: &[u8], at: usize) -> (r: u64)
    requires
        at + 8 <= buf.len(),
    ensures
        r == u64_at(buf@, at as int),
{
    let hi: u64 = read_u32(buf, at) as u64;
    let lo: u64 = read_u32(buf, at + 4) as u64;
    hi * 0x1_0000_0000 + lo
}

fn read_tag(b: u8) -> (r: i8)
    ensures
        r == tag_of(b),
{
    if b >= 0x80 {
        (b as i16 - 0x100) as i8
    } else {
        b as i8
    }
}

/// The value that stands for the integer `i`.
pub fn integer(i: i64) -> (r: Value)
    ensures
        r@ == Val::Int(i as int),
        normal(r),
{
    if i < 0 {
        Value::Int(i)
    } else {
        Value::UInt(i as u64)
    }
}

/// Reads the head at `pos`, of which all bytes are there.
fn read_head(buf: &[u8], pos: usize) -> (r: Lead)
    requires
        pos < buf.len(),
        pos + head_len(buf@[pos as int]) <= buf.len(),
    ensures
        r.meaning() == head(buf@.skip(pos as int)),
        r.leaf_normal(),
{
    let ghost s = buf@.skip(pos as int);
    proof {
        assert(s[0] == buf@[pos as int]);
        assert(forall|i: int| 0 <= i < s.len() ==> s[i] == buf@[pos + i]);
    }
    let b: u8 = buf[pos];
    if b < 0x80 {
        Lead::Leaf(Value::UInt(b as u64))
    } else if b < 0x90 {
        Lead::Mapping((b - 0x80) as u32)
    } else if b < 0xa0 {
        Lead::Array((b - 0x90) as u32)
    } else if b < 0xc0 {
        Lead::Str((b - 0xa0) as u32)
    } else if b == 0xc0 {
        Lead::Leaf(Value::Nil)
    } else if b == 0xc1 {
        Lead::Invalid
    } else if b == 0xc2 {
        Lead::Leaf(Value::Bool(false))
    } else if b == 0xc3 {
        Lead::Leaf(Value::Bool(true))
    } else if b == 0xc4 {
        Lead::Bin(buf[pos + 1] as u32)
    } else if b == 0xc5 {
        Lead::Bin(read_u16(buf, pos + 1) as u32)
    } else if b == 0xc6 {
        Lead::Bin(read_u32(buf, pos + 1))
    } else if b == 0xc7 {
        Lead::Ext(read_tag(buf[pos + 2]), buf[pos + 1] as u32)
    } else if b == 0xc8 {
        Lead::Ext(read_tag(buf[pos + 3]), read_u16(buf, pos + 1) as u32)
    } else if b == 0xc9 {
        Lead::Ext(read_tag(buf[pos + 5]), read_u32(buf, pos + 1))
    } else if b == 0xca {
        Lead::Leaf(Value::F32(read_u32(buf, pos + 1)))
    } else if b == 0xcb {
        Lead::Leaf(Value::F64(read_u64(buf, pos + 1)))
    } else if b == 0xcc {
        Lead::Leaf(Value::UInt(buf[pos + 1] as u64))
    } else if b == 0xcd {
        Lead::Leaf(Value::UInt(read_u16(buf, pos + 1) as u64))
    } else if b == 0xce {
        Lead::Leaf(Value::UInt(read_u32(buf, pos + 1) as u64))
    } else if b == 0xcf {
        Lead::Leaf(Value::UInt(read_u64(buf, pos + 1)))
    } else if b == 0xd0 {
        let n: i64 = buf[pos + 1] as i64;
        Lead::Leaf(
            integer(
                if n >= 0x80 {
                    n - 0x100
                } else {
                    n
                },
            ),
        )
    } else if b == 0xd1 {
        let n: i64 = read_u16(buf, pos + 1) as i64;
        Lead::Leaf(
            integer(
                if n >= 0x8000 {
                    n - 0x1_0000
                } else {
                    n
                },
            ),
        )
    } else if b == 0xd2 {
        let n: i64 = read_u32(buf, pos + 1) as i64;
        Lead::Leaf(
            integer(
                if n >= 0x8000_0000 {
                    n - 0x1_0000_0000
                } else {
                    n
                },
            ),
        )
    } else if b == 0xd3 {
        let n: u64 = read_u64(buf, pos + 1);
        if n >= 0x8000_0000_0000_0000 {
            let low: i64 = (n - 0x8000_0000_0000_0000) as i64;
            Lead::Leaf(Value::Int(low + i64::MIN))
        } else {
            Lead::Leaf(Value::UInt(n))
        }
    } else if b == 0xd4 {
        Lead::Ext(read_tag(buf[pos + 1]), 1)
    } else if b == 0xd5 {
        Lead::Ext(read_tag(buf[pos + 1]), 2)
    } else if b == 0xd6 {
        Lead::Ext(read_tag(buf[pos + 1]), 4)
    } else if b == 0xd7 {
        Lead::Ext(read_tag(buf[pos + 1]), 8)
    } else if b == 0xd8 {
        Lead::Ext(read_tag(buf[pos + 1]), 16)
    } else if b == 0xd9 {
        Lead::Str(buf[pos + 1] as u32)
    } else if b == 0xda {
        Lead::Str(read_u16(buf, pos + 1) as u32)
    } else if b == 0xdb {
        Lead::Str(read_u32(buf, pos + 1))
    } else if b == 0xdc {
        Lead::Array(read_u16(buf, pos + 1) as u32)
    } else if b == 0xdd {
        Lead::Array(read_u32(buf, pos + 1))
    } else if b == 0xde {
        Lead::Mapping(read_u16(buf, pos + 1) as u32)
    } else if b == 0xdf {
        Lead::Mapping(read_u32(buf, pos + 1))
    } else {
        Lead::Leaf(Value::Int(b as i64 - 0x100))
    }
}

/// The `n` bytes of `buf` from `from` on, if they are all there.
fn payload(buf: &[u8], from: usize, n: u32) -> (r: Option<Vec<u8>>)
    requires
        from <= buf.len(),
    ensures
        match r {
            Some(bytes) => from + n <= buf.len() && bytes@ == buf@.subrange(
                from as int,
                from + n,
            ),
            None => from + n > buf.len(),
        },
{
    if (buf.len() - from) as u64 >= n as u64 {
        let count: usize = n as usize;
        Some(slice_to_vec(slice_subrange(buf, from, from + count)))
    } else {
        None
    }
}

/// Reads the value that begins at `pos`.
///
/// On success the result holds the value and the position after it.
/// `NeedMoreData` says that `buf` ends inside the value; `Malformed` says
/// that the bytes from `pos` on are not a value, or nest arrays and
/// mappings deeper than `MAX_DEPTH`.
pub fn decode_value(buf: &[u8], pos: usize) -> (r: Result<(Value, usize), DecodeError>)
    requires
        pos <= buf.len(),
    ensures
        reports(r, parse(buf@.skip(pos as int)), pos as int),
{
    decode_in(buf, pos, MAX_DEPTH)
}

/// Reads the value that begins at `pos`, where arrays and mappings may
/// be nested `depth` deep.
fn decode_in(buf: &[u8], pos: usize, depth: u32) -> (r: Result<(Value, usize), DecodeError>)
    requires
        pos <= buf.len(),
    ensures
        reports(r, parse_in(buf@.skip(pos as int), depth as nat), pos as int),
    decreases buf.len() - pos, 0nat,
{
    let ghost s = buf@.skip(pos as int);
    if pos >= buf.len() {
        return Err(DecodeError::NeedMoreData);
    }
    proof {
        assert(s[0] == buf@[pos as int]);
    }
    let h: usize = head_size(buf[pos]);
    if buf.len() - pos < h {
        return Err(DecodeError::NeedMoreData);
    }
    let from: usize = pos + h;
    match read_head(buf, pos) {
        Lead::Invalid => Err(DecodeError::Malformed),
        Lead::Leaf(v) => Ok((v, from)),
        Lead::Str(n) => match payload(buf, from, n) {
            Some(bytes) => {
                proof {
                    assert(s.subrange(h as int, h + n) =~= buf@.subrange(from as int, from + n));
                }
                Ok((Value::Str(bytes), from + n as usize))
            },
            None => Err(DecodeError::NeedMoreData),
        },
        Lead::Bin(n) => match payload(buf, from, n) {
            Some(bytes) => {
                proof {
                    assert(s.subrange(h as int, h + n) =~= buf@.subrange(from as int, from + n));
                }
                Ok((Value::Bin(bytes), from + n as usize))
            },
            None => Err(DecodeError::NeedMoreData),
        },
        Lead::Ext(tag, n) => match payload(buf, from, n) {
            Some(bytes) => {
                proof {
                    assert(s.subrange(h as int, h + n) =~= buf@.subrange(from as int, from + n));
                }
                Ok((Value::Ext(tag, bytes), from + n as usize))
            },
            None => Err(DecodeError::NeedMoreData),
        },
        Lead::Array(n) => {
            proof {
                assert(s.skip(h as int) =~= buf@.skip(from as int));
            }
            if depth == 0 {
                return Err(DecodeError::Malformed);
            }
            match decode_all(buf, from, n, depth - 1) {
                Ok((items, next)) => Ok((Value::Array(items), next)),
                Err(e) => Err(e),
            }
        },
        Lead::Mapping(n) => {
            proof {
                assert(s.skip(h as int) =~= buf@.skip(from as int));
            }
            if depth == 0 {
                return Err(DecodeError::Malformed);
            }
            match decode_pairs(buf, from, n, depth - 1) {
                Ok((pairs, next)) => Ok((Value::Mapping(pairs), next)),
                Err(e) => Err(e),
            }
        },
    }
}

proof fn lemma_after_nothing<T>(r: Parsed<Seq<T>>)
    ensures
        after(Seq::<T>::empty(), 0, r) == r,
{
    match r {
        Parsed::Done(rest, k) => {
            assert(Seq::<T>::empty() + rest =~= rest);
        },
        _ => {},
    }
}

proof fn lemma_after_after<T>(a: Seq<T>, used: int, b: Seq<T>, k: int, r: Parsed<Seq<T>>)
    ensures
        after(a, used, after(b, k, r)) == after(a + b, used + k, r),
{
    match r {
        Parsed::Done(rest, m) => {
            assert(a + (b + rest) =~= (a + b) + rest);
        },
        _ => {},
    }
}

/// Reads `n` values one after the other, from `pos` on.
fn decode_all(buf: &[u8], pos: usize, n: u32, depth: u32) -> (r: Result<
    (Vec<Value>, usize),
    DecodeError,
>)
    requires
        pos <= buf.len(),
    ensures
        match parse_all(buf@.skip(pos as int), n as nat, depth as nat) {
            Parsed::Done(items, k) => r matches Ok((out, next)) && views(out@) == items && next
                == pos + k && forall|i: int| 0 <= i < out.len() ==> normal(#[trigger] out[i]),
            Parsed::Incomplete => r matches Err(e) && e == DecodeError::NeedMoreData,
            Parsed::Invalid => r matches Err(e) && e == DecodeError::Malformed,
        },
    decreases buf.len() - pos, 1nat,
{
    let mut out: Vec<Value> = Vec::new();
    let mut cur: usize = pos;
    let mut i: u32 = 0;
    proof {
        lemma_after_nothing(parse_all(buf@.skip(pos as int), n as nat, depth as nat));
    }
    while i < n
        invariant
            pos <= cur <= buf.len(),
            i <= n,
            parse_all(buf@.skip(pos as int), n as nat, depth as nat) == after(
                views(out@),
                cur - pos,
                parse_all(buf@.skip(cur as int), (n - i) as nat, depth as nat),
            ),
            forall|k: int| 0 <= k < out.len() ==> normal(#[trigger] out[k]),
        decreases n - i,
    {
        let ghost rest = buf@.skip(cur as int);
        match decode_in(buf, cur, depth) {
            Err(e) => {
                return Err(e);
            },
            Ok((v, next)) => {
                proof {
                    lemma_parse_consumed_in(rest, depth as nat);
                    assert(rest.skip(next - cur) =~= buf@.skip(next as int));
                    lemma_views_push(out@, v);
                    assert(views(out@).push(v@) =~= views(out@) + seq![v@]);
                    lemma_after_after(
                        views(out@),
                        cur - pos,
                        seq![v@],
                        next - cur,
                        parse_all(buf@.skip(next as int), (n - i - 1) as nat, depth as nat),
                    );
                }
                out.push(v);
                cur = next;
                i = i + 1;
            },
        }
    }
    proof {
        assert(views(out@) + Seq::<Val>::empty() =~= views(out@));
    }
    Ok((out, cur))
}

/// Reads `n` entries one after the other, from `pos` on.
fn decode_pairs(buf: &[u8], pos: usize, n: u32, depth: u32) -> (r: Result<
    (Vec<(Value, Value)>, usize),
    DecodeError,
>)
    requires
        pos <= buf.len(),
    ensures
        match parse_pairs(buf@.skip(pos as int), n as nat, depth as nat) {
            Parsed::Done(pairs, k) => r matches Ok((out, next)) && pair_views(out@) == pairs
                && next == pos + k && forall|i: int|
                0 <= i < out.len() ==> normal((#[trigger] out[i]).0) && normal(out[i].1),
            Parsed::Incomplete => r matches Err(e) && e == DecodeError::NeedMoreData,
            Parsed::Invalid => r matches Err(e) && e == DecodeError::Malformed,
        },
    decreases buf.len() - pos, 1nat,
{
    let mut out: Vec<(Value, Value)> = Vec::new();
    let mut cur: usize = pos;
    let mut i: u32 = 0;
    proof {
        lemma_after_nothing(parse_pairs(buf@.skip(pos as int), n as nat, depth as nat));
    }
    while i < n
        invariant
            pos <= cur <= buf.len(),
            i <= n,
            parse_pairs(buf@.skip(pos as int), n as nat, depth as nat) == after(
                pair_views(out@),
                cur - pos,
                parse_pairs(buf@.skip(cur as int), (n - i) as nat, depth as nat),
            ),
            forall|k: int| 0 <= k < out.len() ==> normal((#[trigger] out[k]).0) && normal(out[k].1),
        decreases n - i,
    {
        let ghost rest = buf@.skip(cur as int);
        let (key, mid) = match decode_in(buf, cur, depth) {
            Err(e) => {
                return Err(e);
            },
            Ok(read) => read,
        };
        proof {
            lemma_parse_consumed_in(rest, depth as nat);
            assert(rest.skip(mid - cur) =~= buf@.skip(mid as int));
        }
        let (value, next) = match decode_in(buf, mid, depth) {
            Err(e) => {
                return Err(e);
            },
            Ok(read) => read,
        };
        proof {
            lemma_parse_consumed_in(buf@.skip(mid as int), depth as nat);
            assert(rest.skip(next - cur) =~= buf@.skip(next as int));
            lemma_pair_views_push(out@, key, value);
            assert(pair_views(out@).push((key@, value@)) =~= pair_views(out@) + seq![
                (key@, value@),
            ]);
            lemma_after_after(
                pair_views(out@),
                cur - pos,
                seq![(key@, value@)],
                next - cur,
                parse_pairs(buf@.skip(next as int), (n - i - 1) as nat, depth as nat),
            );
        }
        out.push((key, value));
        cur = next;
        i = i + 1;
    }
    proof {
        assert(pair_views(out@) + Seq::<(Val, Val)>::empty() =~= pair_views(out@));
    }
    Ok((out, cur))
}


fn push_u16(out: &mut Vec<u8>, n: u16)
    ensures
        final(out)@ == old(out)@ + be16(n as int),
{
    out.push((n / 0x100) as u8);
    out.push((n % 0x100) as u8);
    proof {
        assert(out@ =~= old(out)@ + be16(n as int));
    }
}

fn push_u32(out: &mut Vec<u8>, n: u32)
    ensures
        final(out)@ == old(out)@ + be32(n as int),
{
    out.push((n / 0x100_0000) as u8);
    out.push((n / 0x1_0000 % 0x100) as u8);
    out.push((n / 0x100 % 0x100) as u8);
    out.push((n % 0x100) as u8);
    proof {
        assert(out@ =~= old(out)@ + be32(n as int));
    }
}

fn push_u64(out: &mut Vec<u8>, n: u64)
    ensures
        final(out)@ == old(out)@ + be64(n as int),
{
    push_u32(out, (n / 0x1_0000_0000) as u32);
    push_u32(out, (n % 0x1_0000_0000) as u32);
    proof {
        assert(out@ =~= old(out)@ + be64(n as int));
    }
}

pub(crate) fn push_uint(out: &mut Vec<u8>, n: u64)
    ensures
        final(out)@ == old(out)@ + encode_int(n as int),
{
    if n < 0x80 {
        out.push(n as u8);
    } else if n < 0x100 {
        out.push(0xcc);
        out.push(n as u8);
    } else if n < 0x1_0000 {
        out.push(0xcd);
        push_u16(out, n as u16);
    } else if n < 0x1_0000_0000 {
        out.push(0xce);
        push_u32(out, n as u32);
    } else {
        out.push(0xcf);
        push_u64(out, n);
    }
    proof {
        assert(out@ =~= old(out)@ + encode_int(n as int));
    }
}

fn push_int(out: &mut Vec<u8>, i: i64)
    ensures
        final(out)@ == old(out)@ + encode_int(i as int),
{
    if i >= 0 {
        push_uint(out, i as u64);
    } else {
        if i >= -0x20 {
            out.push((i + 0x100) as u8);
        } else if i >= -0x80 {
            out.push(0xd0);
            out.push((i + 0x100) as u8);
        } else if i >= -0x8000 {
            out.push(0xd1);
            push_u16(out, (i + 0x1_0000) as u16);
        } else if i >= -0x8000_0000 {
            out.push(0xd2);
            push_u32(out, (i + 0x1_0000_0000) as u32);
        } else {
            out.push(0xd3);
            let low: u64 = (i - i64::MIN) as u64;
            push_u64(out, low + 0x8000_0000_0000_0000);
        }
        proof {
            assert(out@ =~= old(out)@ + encode_int(i as int));
        }
    }
}

pub(crate) fn push_str_head(out: &mut Vec<u8>, n: u32)
    ensures
        final(out)@ == old(out)@ + str_head(n as int),
{
    if n < 0x20 {
        out.push(0xa0 + n as u8);
    } else if n < 0x100 {
        out.push(0xd9);
        out.push(n as u8);
    } else if n < 0x1_0000 {
        out.push(0xda);
        push_u16(out, n as u16);
    } else {
        out.push(0xdb);
        push_u32(out, n);
    }
    proof {
        assert(out@ =~= old(out)@ + str_head(n as int));
    }
}

fn push_bin_head(out: &mut Vec<u8>, n: u32)
    ensures
        final(out)@ == old(out)@ + bin_head(n as int),
{
    if n < 0x100 {
        out.push(0xc4);
        out.push(n as u8);
    } else if n < 0x1_0000 {
        out.push(0xc5);
        push_u16(out, n as u16);
    } else {
        out.push(0xc6);
        push_u32(out, n);
    }
    proof {
        assert(out@ =~= old(out)@ + bin_head(n as int));
    }
}

pub(crate) fn push_array_head(out: &mut Vec<u8>, n: u32)
    ensures
        final(out)@ == old(out)@ + array_head(n as int),
{
    if n < 0x10 {
        out.push(0x90 + n as u8);
    } else if n < 0x1_0000 {
        out.push(0xdc);
        push_u16(out, n as u16);
    } else {
        out.push(0xdd);
        push_u32(out, n);
    }
    proof {
        assert(out@ =~= old(out)@ + array_head(n as int));
    }
}

fn push_map_head(out: &mut Vec<u8>, n: u32)
    ensures
        final(out)@ == old(out)@ + map_head(n as int),
{
    if n < 0x10 {
        out.push(0x80 + n as u8);
    } else if n < 0x1_0000 {
        out.push(0xde);
        push_u16(out, n as u16);
    } else {
        out.push(0xdf);
        push_u32(out, n);
    }
    proof {
        assert(out@ =~= old(out)@ + map_head(n as int));
    }
}

fn tag_to_byte(tag: i8) -> (r: u8)
    ensures
        r == tag_byte(tag),
{
    if tag < 0 {
        (tag as i16 + 0x100) as u8
    } else {
        tag as u8
    }
}

fn push_ext_head(out: &mut Vec<u8>, n: u32, tag: i8)
    ensures
        final(out)@ == old(out)@ + ext_head(n as int, tag),
{
    let t: u8 = tag_to_byte(tag);
    if n == 1 {
        out.push(0xd4);
        out.push(t);
    } else if n == 2 {
        out.push(0xd5);
        out.push(t);
    } else if n == 4 {
        out.push(0xd6);
        out.push(t);
    } else if n == 8 {
        out.push(0xd7);
        out.push(t);
    } else if n == 16 {
        out.push(0xd8);
        out.push(t);
    } else if n < 0x100 {
        out.push(0xc7);
        out.push(n as u8);
        out.push(t);
    } else if n < 0x1_0000 {
        out.push(0xc8);
        push_u16(out, n as u16);
        out.push(t);
    } else {
        out.push(0xc9);
        push_u32(out, n);
        out.push(t);
    }
    proof {
        assert(out@ =~= old(out)@ + ext_head(n as int, tag));
    }
}

/// Appends `bytes` to `out`.
pub fn append_bytes(out: &mut Vec<u8>, bytes: &[u8])
    ensures
        final(out)@ == old(out)@ + bytes@,
{
    let mut i: usize = 0;
    while i < bytes.len()
        invariant
            i <= bytes.len(),
            out@ == old(out)@ + bytes@.take(i as int),
        decreases bytes.len() - i,
    {
        out.push(bytes[i]);
        proof {
            assert(out@ =~= old(out)@ + bytes@.take(i + 1));
        }
        i = i + 1;
    }
    proof {
        assert(bytes@.take(i as int) =~= bytes@);
    }
}

/// The length as the format states it, if it can.
pub(crate) fn wire_len(n: usize) -> (r: Option<u32>)
    ensures
        match r {
            Some(m) => m == n,
            None => n > 0xffff_ffff,
        },
{
    if n as u64 > 0xffff_ffff {
        None
    } else {
        Some(n as u32)
    }
}

/// The bytes of items with one more item at their end.
pub proof fn lemma_encode_all_push(items: Seq<Val>, v: Val)
    ensures
        encode_all(items.push(v)) == encode_all(items) + encode(v),
    decreases items.len(),
{
    if items.len() == 0 {
        assert(items.push(v).drop_first() =~= Seq::<Val>::empty());
        assert(encode_all(Seq::<Val>::empty()) =~= Seq::<u8>::empty());
        assert(encode_all(items) =~= Seq::<u8>::empty());
        assert(items.push(v)[0] == v);
        assert(encode(v) + Seq::<u8>::empty() =~= Seq::<u8>::empty() + encode(v));
    } else {
        assert(items.push(v)[0] == items[0]);
        assert(items.push(v).drop_first() =~= items.drop_first().push(v));
        lemma_encode_all_push(items.drop_first(), v);
        assert(encode(items[0]) + (encode_all(items.drop_first()) + encode(v)) =~= (encode(
            items[0],
        ) + encode_all(items.drop_first())) + encode(v));
    }
}

/// The bytes of entries with one more entry at their end.
pub proof fn lemma_encode_pairs_push(pairs: Seq<(Val, Val)>, k: Val, v: Val)
    ensures
        encode_pairs(pairs.push((k, v))) == encode_pairs(pairs) + encode(k) + encode(v),
    decreases pairs.len(),
{
    if pairs.len() == 0 {
        assert(pairs.push((k, v)).drop_first() =~= Seq::<(Val, Val)>::empty());
        assert(encode_pairs(Seq::<(Val, Val)>::empty()) =~= Seq::<u8>::empty());
        assert(encode_pairs(pairs) =~= Seq::<u8>::empty());
        assert(pairs.push((k, v))[0] == (k, v));
        assert(encode(k) + encode(v) + Seq::<u8>::empty() =~= Seq::<u8>::empty() + encode(k)
            + encode(v));
    } else {
        assert(pairs.push((k, v))[0] == pairs[0]);
        assert(pairs.push((k, v)).drop_first() =~= pairs.drop_first().push((k, v)));
        lemma_encode_pairs_push(pairs.drop_first(), k, v);
        assert(encode(pairs[0].0) + encode(pairs[0].1) + (encode_pairs(pairs.drop_first())
            + encode(k) + encode(v)) =~= (encode(pairs[0].0) + encode(pairs[0].1) + encode_pairs(
            pairs.drop_first(),
        )) + encode(k) + encode(v));
    }
}

/// Writes a value.
///
/// `None` says that the value cannot be written: one of its lengths
/// exceeds 32 bits, or its arrays and mappings are nested deeper than
/// `MAX_DEPTH`.
pub fn encode_value(v: &Value) -> (r: Option<Vec<u8>>)
    ensures
        r is Some <==> encodable(v@),
        r matches Some(bytes) ==> bytes@ == encode(v@),
{
    let mut out: Vec<u8> = Vec::new();
    if encode_in(v, &mut out, MAX_DEPTH) {
        proof {
            assert(out@ =~= encode(v@));
        }
        Some(out)
    } else {
        None
    }
}

/// Appends the bytes of `v` to `out`, where arrays and mappings may be
/// nested `depth` deep, and returns whether it could.
pub(crate) fn encode_in(v: &Value, out: &mut Vec<u8>, depth: u32) -> (ok: bool)
    ensures
        ok == encodable_in(v@, depth as nat),
        ok ==> final(out)@ == old(out)@ + encode(v@),
    decreases v, 0nat,
{
    match v {
        Value::Nil => {
            out.push(0xc0);
            proof {
                assert(out@ =~= old(out)@ + encode(v@));
            }
            true
        },
        Value::Bool(b) => {
            out.push(
                if *b {
                    0xc3
                } else {
                    0xc2
                },
            );
            proof {
                assert(out@ =~= old(out)@ + encode(v@));
            }
            true
        },
        Value::Int(i) => {
            push_int(out, *i);
            true
        },
        Value::UInt(u) => {
            push_uint(out, *u);
            true
        },
        Value::F32(bits) => {
            out.push(0xca);
            push_u32(out, *bits);
            proof {
                assert(out@ =~= old(out)@ + encode(v@));
            }
            true
        },
        Value::F64(bits) => {
            out.push(0xcb);
            push_u64(out, *bits);
            proof {
                assert(out@ =~= old(out)@ + encode(v@));
            }
            true
        },
        Value::Str(bytes) => match wire_len(bytes.len()) {
            None => false,
            Some(n) => {
                push_str_head(out, n);
                append_bytes(out, bytes.as_slice());
                proof {
                    assert(out@ =~= old(out)@ + (str_head(n as int) + bytes@));
                }
                true
            },
        },
        Value::Bin(bytes) => match wire_len(bytes.len()) {
            None => false,
            Some(n) => {
                push_bin_head(out, n);
                append_bytes(out, bytes.as_slice());
                proof {
                    assert(out@ =~= old(out)@ + (bin_head(n as int) + bytes@));
                }
                true
            },
        },
        Value::Ext(tag, bytes) => match wire_len(bytes.len()) {
            None => false,
            Some(n) => {
                push_ext_head(out, n, *tag);
                append_bytes(out, bytes.as_slice());
                proof {
                    assert(out@ =~= old(out)@ + (ext_head(n as int, *tag) + bytes@));
                }
                true
            },
        },
        Value::Array(items) => encode_array(items, out, depth),
        Value::Mapping(pairs) => encode_mapping(pairs, out, depth),
    }
}

pub(crate) fn encode_array(items: &Vec<Value>, out: &mut Vec<u8>, depth: u32) -> (ok: bool)
    ensures
        ok == encodable_in(Val::Array(views(items@)), depth as nat),
        ok ==> final(out)@ == old(out)@ + encode(Val::Array(views(items@))),
    decreases items, 1nat,
{
    proof {
        lemma_views(items@);
    }
    if depth == 0 {
        return false;
    }
    match wire_len(items.len()) {
        None => false,
        Some(n) => {
            push_array_head(out, n);
            let ok = encode_items(items, out, depth - 1);
            proof {
                if ok {
                    assert(out@ =~= old(out)@ + (array_head(n as int) + encode_all(views(items@))));
                    assert forall|i: int| 0 <= i < items.len() implies encodable_in(
                        #[trigger] views(items@)[i],
                        (depth - 1) as nat,
                    ) by {
                        assert(encodable_in(items[i]@, (depth - 1) as nat));
                    }
                } else {
                    let k = choose|k: int| 0 <= k < items.len() && !encodable_in(
                        #[trigger] items[k]@,
                        (depth - 1) as nat,
                    );
                    assert(views(items@)[k] == items[k]@);
                }
            }
            ok
        },
    }
}

fn encode_mapping(pairs: &Vec<(Value, Value)>, out: &mut Vec<u8>, depth: u32) -> (ok: bool)
    ensures
        ok == encodable_in(Val::Mapping(pair_views(pairs@)), depth as nat),
        ok ==> final(out)@ == old(out)@ + encode(Val::Mapping(pair_views(pairs@))),
    decreases pairs, 1nat,
{
    proof {
        lemma_pair_views(pairs@);
    }
    if depth == 0 {
        return false;
    }
    match wire_len(pairs.len()) {
        None => false,
        Some(n) => {
            push_map_head(out, n);
            let ok = encode_entries(pairs, out, depth - 1);
            proof {
                if ok {
                    assert(out@ =~= old(out)@ + (map_head(n as int) + encode_pairs(
                        pair_views(pairs@),
                    )));
                    assert forall|i: int| 0 <= i < pairs.len() implies encodable_in(
                        (#[trigger] pair_views(pairs@)[i]).0,
                        (depth - 1) as nat,
                    ) && encodable_in(pair_views(pairs@)[i].1, (depth - 1) as nat) by {
                        assert(encodable_in(pairs[i].0@, (depth - 1) as nat));
                    }
                } else {
                    let k = choose|k: int|
                        0 <= k < pairs.len() && !(encodable_in(
                            (#[trigger] pairs[k]).0@,
                            (depth - 1) as nat,
                        ) && encodable_in(pairs[k].1@, (depth - 1) as nat));
                    assert(pair_views(pairs@)[k] == (pairs[k].0@, pairs[k].1@));
                }
            }
            ok
        },
    }
}

/// Appends the bytes of each item to `out`, in order.
fn encode_items(items: &Vec<Value>, out: &mut Vec<u8>, depth: u32) -> (ok: bool)
    ensures
        ok == (forall|i: int| 0 <= i < items.len() ==> encodable_in(#[trigger] items[i]@, depth as nat)),
        ok ==> final(out)@ == old(out)@ + encode_all(views(items@)),
    decreases items, 0nat,
{
    let mut i: usize = 0;
    proof {
        lemma_views(items@);
        assert(out@ =~= old(out)@ + encode_all(views(items@).take(0)));
    }
    while i < items.len()
        invariant
            i <= items.len(),
            out@ == old(out)@ + encode_all(views(items@).take(i as int)),
            forall|k: int| 0 <= k < i ==> encodable_in(#[trigger] items[k]@, depth as nat),
            views(items@).len() == items.len(),
            forall|k: int| 0 <= k < items.len() ==> (#[trigger] views(items@)[k]) == items[k]@,
        decreases items.len() - i,
    {
        if !encode_in(&items[i], out, depth) {
            return false;
        }
        proof {
            let done = views(items@).take(i as int);
            lemma_encode_all_push(done, items[i as int]@);
            assert(views(items@).take(i + 1) =~= done.push(items[i as int]@));
            assert(out@ =~= old(out)@ + encode_all(views(items@).take(i + 1)));
        }
        i = i + 1;
    }
    proof {
        assert(views(items@).take(i as int) =~= views(items@));
    }
    true
}

/// Appends the bytes of each entry to `out`, in order.
fn encode_entries(pairs: &Vec<(Value, Value)>, out: &mut Vec<u8>, depth: u32) -> (ok: bool)
    ensures
        ok == (forall|i: int|
            0 <= i < pairs.len() ==> encodable_in((#[trigger] pairs[i]).0@, depth as nat)
                && encodable_in(pairs[i].1@, depth as nat)),
        ok ==> final(out)@ == old(out)@ + encode_pairs(pair_views(pairs@)),
    decreases pairs, 0nat,
{
    let mut i: usize = 0;
    proof {
        lemma_pair_views(pairs@);
        assert(out@ =~= old(out)@ + encode_pairs(pair_views(pairs@).take(0)));
    }
    while i < pairs.len()
        invariant
            i <= pairs.len(),
            out@ == old(out)@ + encode_pairs(pair_views(pairs@).take(i as int)),
            forall|k: int|
                0 <= k < i ==> encodable_in((#[trigger] pairs[k]).0@, depth as nat)
                    && encodable_in(pairs[k].1@, depth as nat),
            pair_views(pairs@).len() == pairs.len(),
            forall|k: int|
                0 <= k < pairs.len() ==> (#[trigger] pair_views(pairs@)[k]) == (
                    pairs[k].0@,
                    pairs[k].1@,
                ),
        decreases pairs.len() - i,
    {
        if !encode_in(&pairs[i].0, out, depth) {
            return false;
        }
        if !encode_in(&pairs[i].1, out, depth) {
            return false;
        }
        proof {
            let done = pair_views(pairs@).take(i as int);
            lemma_encode_pairs_push(done, pairs[i as int].0@, pairs[i as int].1@);
            assert(pair_views(pairs@).take(i + 1) =~= done.push(
                (pairs[i as int].0@, pairs[i as int].1@),
            ));
            assert(out@ =~= old(out)@ + encode_pairs(pair_views(pairs@).take(i + 1)));
        }
        i = i + 1;
    }
    proof {
        assert(pair_views(pairs@).take(i as int) =~= pair_views(pairs@));
    }
    true
}

} // verus!
