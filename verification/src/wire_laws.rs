//! What holds of the wire format: a value that was written reads back as
//! itself, and what was read stays what it is when more bytes follow.

use vstd::prelude::*;
use crate::value::Val;
use crate::wire::{
    array_head, be16, be32, be64, bin_head, encodable, encodable_in, encode, encode_all,
    encode_int, encode_pairs, ext_head, head, head_len, lemma_parse_consumed_in, map_head,
    max_depth, parse, parse_all, parse_in, parse_pairs, str_head, tag_byte, tag_of, u16_at,
    u32_at, u64_at, Head, Parsed,
};

verus! {

proof fn lemma_be16(n: int, s: Seq<u8>, at: int)
    requires
        0 <= n < 0x1_0000,
        0 <= at,
        at + 2 <= s.len(),
        s.subrange(at, at + 2) == be16(n),
    ensures
        u16_at(s, at) == n,
{
    assert(s[at] == s.subrange(at, at + 2)[0]);
    assert(s[at + 1] == s.subrange(at, at + 2)[1]);
}

proof fn lemma_be32(n: int, s: Seq<u8>, at: int)
    requires
        0 <= n < 0x1_0000_0000,
        0 <= at,
        at + 4 <= s.len(),
        s.subrange(at, at + 4) == be32(n),
    ensures
        u32_at(s, at) == n,
{
    let t = s.subrange(at, at + 4);
    assert(s[at] == t[0]);
    assert(s[at + 1] == t[1]);
    assert(s[at + 2] == t[2]);
    assert(s[at + 3] == t[3]);
}

proof fn lemma_be64(n: int, s: Seq<u8>, at: int)
    requires
        0 <= n < 0x1_0000_0000_0000_0000,
        0 <= at,
        at + 8 <= s.len(),
        s.subrange(at, at + 8) == be64(n),
    ensures
        u64_at(s, at) == n,
{
    let t = s.subrange(at, at + 8);
    let hi = n / 0x1_0000_0000;
    let lo = n % 0x1_0000_0000;
    assert(s.subrange(at, at + 4) =~= t.subrange(0, 4));
    assert(s.subrange(at + 4, at + 8) =~= t.subrange(4, 8));
    assert(t.subrange(0, 4) =~= be32(hi));
    assert(t.subrange(4, 8) =~= be32(lo));
    lemma_be32(hi, s, at);
    lemma_be32(lo, s, at + 4);
}

/// An integer that was written reads back as itself.
proof fn lemma_round_trip_int(i: int, rest: Seq<u8>, depth: nat)
    requires
        -0x8000_0000_0000_0000 <= i <= 0xffff_ffff_ffff_ffff,
    ensures
        parse_in(encode_int(i) + rest, depth) == Parsed::Done(
            Val::Int(i),
            encode_int(i).len() as int,
        ),
{
    let e = encode_int(i);
    let s = e + rest;
    assert(s[0] == e[0]);
    if 0 <= i < 0x80 {
    } else if -0x20 <= i < 0 {
    } else if 0 <= i {
        if i < 0x100 {
            assert(s[1] == e[1]);
        } else if i < 0x1_0000 {
            assert(s.subrange(1, 3) =~= be16(i));
            lemma_be16(i, s, 1);
        } else if i < 0x1_0000_0000 {
            assert(s.subrange(1, 5) =~= be32(i));
            lemma_be32(i, s, 1);
        } else {
            assert(s.subrange(1, 9) =~= be64(i));
            lemma_be64(i, s, 1);
        }
    } else {
        if i >= -0x80 {
            assert(s[1] == e[1]);
        } else if i >= -0x8000 {
            assert(s.subrange(1, 3) =~= be16(i + 0x1_0000));
            lemma_be16(i + 0x1_0000, s, 1);
        } else if i >= -0x8000_0000 {
            assert(s.subrange(1, 5) =~= be32(i + 0x1_0000_0000));
            lemma_be32(i + 0x1_0000_0000, s, 1);
        } else {
            assert(s.subrange(1, 9) =~= be64(i + 0x1_0000_0000_0000_0000));
            lemma_be64(i + 0x1_0000_0000_0000_0000, s, 1);
        }
    }
}

proof fn lemma_str_head(n: int, tail: Seq<u8>)
    requires
        0 <= n <= 0xffff_ffff,
    ensures
        str_head(n).len() == head_len(str_head(n)[0]),
        head(str_head(n) + tail) == Head::Str(n),
{
    let e = str_head(n);
    let s = e + tail;
    assert(s[0] == e[0]);
    if n < 0x20 {
    } else if n < 0x100 {
        assert(s[1] == e[1]);
    } else if n < 0x1_0000 {
        assert(s.subrange(1, 3) =~= be16(n));
        lemma_be16(n, s, 1);
    } else {
        assert(s.subrange(1, 5) =~= be32(n));
        lemma_be32(n, s, 1);
    }
}

proof fn lemma_bin_head(n: int, tail: Seq<u8>)
    requires
        0 <= n <= 0xffff_ffff,
    ensures
        bin_head(n).len() == head_len(bin_head(n)[0]),
        head(bin_head(n) + tail) == Head::Bin(n),
{
    let e = bin_head(n);
    let s = e + tail;
    assert(s[0] == e[0]);
    if n < 0x100 {
        assert(s[1] == e[1]);
    } else if n < 0x1_0000 {
        assert(s.subrange(1, 3) =~= be16(n));
        lemma_be16(n, s, 1);
    } else {
        assert(s.subrange(1, 5) =~= be32(n));
        lemma_be32(n, s, 1);
    }
}

proof fn lemma_array_head(n: int, tail: Seq<u8>)
    requires
        0 <= n <= 0xffff_ffff,
    ensures
        array_head(n).len() == head_len(array_head(n)[0]),
        head(array_head(n) + tail) == Head::Array(n),
{
    let e = array_head(n);
    let s = e + tail;
    assert(s[0] == e[0]);
    if n < 0x10 {
    } else if n < 0x1_0000 {
        assert(s.subrange(1, 3) =~= be16(n));
        lemma_be16(n, s, 1);
    } else {
        assert(s.subrange(1, 5) =~= be32(n));
        lemma_be32(n, s, 1);
    }
}

proof fn lemma_map_head(n: int, tail: Seq<u8>)
    requires
        0 <= n <= 0xffff_ffff,
    ensures
        map_head(n).len() == head_len(map_head(n)[0]),
        head(map_head(n) + tail) == Head::Mapping(n),
{
    let e = map_head(n);
    let s = e + tail;
    assert(s[0] == e[0]);
    if n < 0x10 {
    } else if n < 0x1_0000 {
        assert(s.subrange(1, 3) =~= be16(n));
        lemma_be16(n, s, 1);
    } else {
        assert(s.subrange(1, 5) =~= be32(n));
        lemma_be32(n, s, 1);
    }
}

proof fn lemma_tag(tag: i8)
    ensures
        tag_of(tag_byte(tag)) == tag,
{
}

proof fn lemma_ext_head(n: int, tag: i8, tail: Seq<u8>)
    requires
        0 <= n <= 0xffff_ffff,
    ensures
        ext_head(n, tag).len() == head_len(ext_head(n, tag)[0]),
        head(ext_head(n, tag) + tail) == Head::Ext(tag, n),
{
    let e = ext_head(n, tag);
    let s = e + tail;
    lemma_tag(tag);
    assert(s[0] == e[0]);
    if n == 1 || n == 2 || n == 4 || n == 8 || n == 16 {
        assert(s[1] == e[1]);
    } else if n < 0x100 {
        assert(s[1] == e[1]);
        assert(s[2] == e[2]);
    } else if n < 0x1_0000 {
        assert(s.subrange(1, 3) =~= be16(n));
        lemma_be16(n, s, 1);
        assert(s[3] == e[3]);
    } else {
        assert(s.subrange(1, 5) =~= be32(n));
        lemma_be32(n, s, 1);
        assert(s[5] == e[5]);
    }
}

proof fn lemma_round_trip_plain(v: Val, rest: Seq<u8>, depth: nat)
    requires
        v is Nil || v is Bool || v is F32 || v is F64,
    ensures
        parse_in(encode(v) + rest, depth) == Parsed::Done(v, encode(v).len() as int),
{
    let e = encode(v);
    let s = e + rest;
    assert(s[0] == e[0]);
    match v {
        Val::F32(bits) => {
            assert(s.subrange(1, 5) =~= be32(bits as int));
            lemma_be32(bits as int, s, 1);
        },
        Val::F64(bits) => {
            assert(s.subrange(1, 9) =~= be64(bits as int));
            lemma_be64(bits as int, s, 1);
        },
        _ => {},
    }
}

proof fn lemma_round_trip_str(b: Seq<u8>, rest: Seq<u8>, depth: nat)
    requires
        b.len() <= 0xffff_ffff,
    ensures
        parse_in(encode(Val::Str(b)) + rest, depth) == Parsed::Done(
            Val::Str(b),
            encode(Val::Str(b)).len() as int,
        ),
{
    let n = b.len() as int;
    let h = str_head(n);
    let s = encode(Val::Str(b)) + rest;
    lemma_str_head(n, b + rest);
    assert(s =~= h + (b + rest));
    assert(s[0] == h[0]);
    assert(s.subrange(h.len() as int, h.len() + n) =~= b);
}

proof fn lemma_round_trip_bin(b: Seq<u8>, rest: Seq<u8>, depth: nat)
    requires
        b.len() <= 0xffff_ffff,
    ensures
        parse_in(encode(Val::Bin(b)) + rest, depth) == Parsed::Done(
            Val::Bin(b),
            encode(Val::Bin(b)).len() as int,
        ),
{
    let n = b.len() as int;
    let h = bin_head(n);
    let s = encode(Val::Bin(b)) + rest;
    lemma_bin_head(n, b + rest);
    assert(s =~= h + (b + rest));
    assert(s[0] == h[0]);
    assert(s.subrange(h.len() as int, h.len() + n) =~= b);
}

proof fn lemma_round_trip_ext(tag: i8, b: Seq<u8>, rest: Seq<u8>, depth: nat)
    requires
        b.len() <= 0xffff_ffff,
    ensures
        parse_in(encode(Val::Ext(tag, b)) + rest, depth) == Parsed::Done(
            Val::Ext(tag, b),
            encode(Val::Ext(tag, b)).len() as int,
        ),
{
    let n = b.len() as int;
    let h = ext_head(n, tag);
    let s = encode(Val::Ext(tag, b)) + rest;
    lemma_ext_head(n, tag, b + rest);
    assert(s =~= h + (b + rest));
    assert(s[0] == h[0]);
    assert(s.subrange(h.len() as int, h.len() + n) =~= b);
}

proof fn lemma_round_trip_array(items: Seq<Val>, rest: Seq<u8>, depth: nat)
    requires
        depth > 0,
        items.len() <= 0xffff_ffff,
        parse_all(encode_all(items) + rest, items.len(), (depth - 1) as nat) == Parsed::Done(
            items,
            encode_all(items).len() as int,
        ),
    ensures
        parse_in(encode(Val::Array(items)) + rest, depth) == Parsed::Done(
            Val::Array(items),
            encode(Val::Array(items)).len() as int,
        ),
{
    let n = items.len() as int;
    let h = array_head(n);
    let s = encode(Val::Array(items)) + rest;
    lemma_array_head(n, encode_all(items) + rest);
    assert(s =~= h + (encode_all(items) + rest));
    assert(s[0] == h[0]);
    assert(s.skip(h.len() as int) =~= encode_all(items) + rest);
}

proof fn lemma_round_trip_mapping(pairs: Seq<(Val, Val)>, rest: Seq<u8>, depth: nat)
    requires
        depth > 0,
        pairs.len() <= 0xffff_ffff,
        parse_pairs(encode_pairs(pairs) + rest, pairs.len(), (depth - 1) as nat) == Parsed::Done(
            pairs,
            encode_pairs(pairs).len() as int,
        ),
    ensures
        parse_in(encode(Val::Mapping(pairs)) + rest, depth) == Parsed::Done(
            Val::Mapping(pairs),
            encode(Val::Mapping(pairs)).len() as int,
        ),
{
    let n = pairs.len() as int;
    let h = map_head(n);
    let s = encode(Val::Mapping(pairs)) + rest;
    lemma_map_head(n, encode_pairs(pairs) + rest);
    assert(s =~= h + (encode_pairs(pairs) + rest));
    assert(s[0] == h[0]);
    assert(s.skip(h.len() as int) =~= encode_pairs(pairs) + rest);
}

/// A value that was written reads back as itself, whatever follows it.
pub proof fn lemma_round_trip_in(v: Val, rest: Seq<u8>, depth: nat)
    requires
        encodable_in(v, depth),
    ensures
        parse_in(encode(v) + rest, depth) == Parsed::Done(v, encode(v).len() as int),
    decreases v, 0nat,
{
    match v {
        Val::Int(i) => {
            lemma_round_trip_int(i, rest, depth);
        },
        Val::Str(b) => {
            lemma_round_trip_str(b, rest, depth);
        },
        Val::Bin(b) => {
            lemma_round_trip_bin(b, rest, depth);
        },
        Val::Ext(tag, b) => {
            lemma_round_trip_ext(tag, b, rest, depth);
        },
        Val::Array(items) => {
            lemma_round_trip_all(items, rest, (depth - 1) as nat);
            lemma_round_trip_array(items, rest, depth);
        },
        Val::Mapping(pairs) => {
            lemma_round_trip_pairs(pairs, rest, (depth - 1) as nat);
            lemma_round_trip_mapping(pairs, rest, depth);
        },
        _ => {
            lemma_round_trip_plain(v, rest, depth);
        },
    }
}

/// A value that was written reads back as itself, whatever follows it.
pub proof fn lemma_round_trip(v: Val, rest: Seq<u8>)
    requires
        encodable(v),
    ensures
        parse(encode(v) + rest) == Parsed::Done(v, encode(v).len() as int),
{
    lemma_round_trip_in(v, rest, max_depth());
}

/// Values written one after the other read back as themselves.
pub proof fn lemma_round_trip_all(items: Seq<Val>, rest: Seq<u8>, depth: nat)
    requires
        forall|i: int| 0 <= i < items.len() ==> encodable_in(#[trigger] items[i], depth),
    ensures
        parse_all(encode_all(items) + rest, items.len(), depth) == Parsed::Done(
            items,
            encode_all(items).len() as int,
        ),
    decreases items, 1nat,
{
    if items.len() == 0 {
        assert(items =~= Seq::<Val>::empty());
    } else {
        let first = encode(items[0]);
        let tail = items.drop_first();
        let s = encode_all(items) + rest;
        assert(encodable_in(items[0], depth));
        assert(s =~= first + (encode_all(tail) + rest));
        lemma_round_trip_in(items[0], encode_all(tail) + rest, depth);
        lemma_parse_consumed_in(s, depth);
        assert(s.skip(first.len() as int) =~= encode_all(tail) + rest);
        assert forall|i: int| 0 <= i < tail.len() implies encodable_in(
            #[trigger] tail[i],
            depth,
        ) by {
            assert(tail[i] == items[i + 1]);
        }
        lemma_round_trip_all(tail, rest, depth);
        assert(seq![items[0]] + tail =~= items);
    }
}

/// Entries written one after the other read back as themselves.
pub proof fn lemma_round_trip_pairs(pairs: Seq<(Val, Val)>, rest: Seq<u8>, depth: nat)
    requires
        forall|i: int|
            0 <= i < pairs.len() ==> encodable_in((#[trigger] pairs[i]).0, depth) && encodable_in(
                pairs[i].1,
                depth,
            ),
    ensures
        parse_pairs(encode_pairs(pairs) + rest, pairs.len(), depth) == Parsed::Done(
            pairs,
            encode_pairs(pairs).len() as int,
        ),
    decreases pairs, 1nat,
{
    if pairs.len() == 0 {
        assert(pairs =~= Seq::<(Val, Val)>::empty());
    } else {
        let key = encode(pairs[0].0);
        let value = encode(pairs[0].1);
        let tail = pairs.drop_first();
        let s = encode_pairs(pairs) + rest;
        assert(encodable_in(pairs[0].0, depth) && encodable_in(pairs[0].1, depth));
        assert(s =~= key + (value + (encode_pairs(tail) + rest)));
        lemma_round_trip_in(pairs[0].0, value + (encode_pairs(tail) + rest), depth);
        lemma_parse_consumed_in(s, depth);
        assert(s.skip(key.len() as int) =~= value + (encode_pairs(tail) + rest));
        lemma_round_trip_in(pairs[0].1, encode_pairs(tail) + rest, depth);
        lemma_parse_consumed_in(s.skip(key.len() as int), depth);
        assert(s.skip((key.len() + value.len()) as int) =~= encode_pairs(tail) + rest);
        assert forall|i: int| 0 <= i < tail.len() implies encodable_in(
            (#[trigger] tail[i]).0,
            depth,
        ) && encodable_in(tail[i].1, depth) by {
            assert(tail[i] == pairs[i + 1]);
        }
        lemma_round_trip_pairs(tail, rest, depth);
        assert(seq![pairs[0]] + tail =~= pairs);
    }
}

/// What `a` begins with, it still begins with when `b` follows it: a
/// reading that ended, with a value or with the finding that the bytes
/// are not the format, does not change when more bytes arrive.
pub proof fn lemma_parse_extend_in(a: Seq<u8>, b: Seq<u8>, depth: nat)
    requires
        !(parse_in(a, depth) is Incomplete),
    ensures
        parse_in(a + b, depth) == parse_in(a, depth),
    decreases a.len(), 0nat,
{
    let s = a + b;
    let h = head_len(a[0]);
    assert(s[0] == a[0]);
    assert(forall|i: int| 0 <= i < a.len() ==> s[i] == a[i]);
    assert(head(s) == head(a));
    match head(a) {
        Head::Str(n) => {
            assert(s.subrange(h, h + n) =~= a.subrange(h, h + n));
        },
        Head::Bin(n) => {
            assert(s.subrange(h, h + n) =~= a.subrange(h, h + n));
        },
        Head::Ext(tag, n) => {
            assert(s.subrange(h, h + n) =~= a.subrange(h, h + n));
        },
        Head::Array(n) => {
            if depth > 0 {
                assert(s.skip(h) =~= a.skip(h) + b);
                lemma_parse_all_extend(a.skip(h), b, n as nat, (depth - 1) as nat);
            }
        },
        Head::Mapping(n) => {
            if depth > 0 {
                assert(s.skip(h) =~= a.skip(h) + b);
                lemma_parse_pairs_extend(a.skip(h), b, n as nat, (depth - 1) as nat);
            }
        },
        _ => {},
    }
}

/// What `a` begins with, it still begins with when `b` follows it.
pub proof fn lemma_parse_extend(a: Seq<u8>, b: Seq<u8>)
    requires
        !(parse(a) is Incomplete),
    ensures
        parse(a + b) == parse(a),
{
    lemma_parse_extend_in(a, b, max_depth());
}

/// The values that `a` begins with, it still begins with when `b`
/// follows it.
pub proof fn lemma_parse_all_extend(a: Seq<u8>, b: Seq<u8>, n: nat, depth: nat)
    requires
        !(parse_all(a, n, depth) is Incomplete),
    ensures
        parse_all(a + b, n, depth) == parse_all(a, n, depth),
    decreases a.len(), n + 1,
{
    if n > 0 {
        lemma_parse_extend_in(a, b, depth);
        lemma_parse_consumed_in(a, depth);
        match parse_in(a, depth) {
            Parsed::Done(v, k) => {
                assert((a + b).skip(k) =~= a.skip(k) + b);
                lemma_parse_all_extend(a.skip(k), b, (n - 1) as nat, depth);
            },
            _ => {},
        }
    }
}

/// The entries that `a` begins with, it still begins with when `b`
/// follows it.
pub proof fn lemma_parse_pairs_extend(a: Seq<u8>, b: Seq<u8>, n: nat, depth: nat)
    requires
        !(parse_pairs(a, n, depth) is Incomplete),
    ensures
        parse_pairs(a + b, n, depth) == parse_pairs(a, n, depth),
    decreases a.len(), 2 * n + 1,
{
    if n > 0 {
        lemma_parse_extend_in(a, b, depth);
        lemma_parse_consumed_in(a, depth);
        match parse_in(a, depth) {
            Parsed::Done(key, k) => {
                assert((a + b).skip(k) =~= a.skip(k) + b);
                lemma_parse_extend_in(a.skip(k), b, depth);
                lemma_parse_consumed_in(a.skip(k), depth);
                match parse_in(a.skip(k), depth) {
                    Parsed::Done(value, j) => {
                        assert((a + b).skip(k + j) =~= a.skip(k + j) + b);
                        lemma_parse_pairs_extend(a.skip(k + j), b, (n - 1) as nat, depth);
                    },
                    _ => {},
                }
            },
            _ => {},
        }
    }
}

} // verus!
