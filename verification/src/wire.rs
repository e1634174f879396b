//! The wire format of protocol values, as a mathematical definition.
//!
//! A value is written as one marker byte, a big-endian length or number
//! where the marker calls for one, and then its payload or its items.
//! `encode` says which bytes a value is written as (always the shortest
//! form); `parse` says what a byte sequence reads as.

use vstd::prelude::*;
use crate::value::Val;

verus! {

/// The two bytes of `n`, most significant first.
pub open spec fn be16(n: int) -> Seq<u8> {
    seq![(n / 0x100 % 0x100) as u8, (n % 0x100) as u8]
}

/// The four bytes of `n`, most significant first.
pub open spec fn be32(n: int) -> Seq<u8> {
    seq![
        (n / 0x100_0000 % 0x100) as u8,
        (n / 0x1_0000 % 0x100) as u8,
        (n / 0x100 % 0x100) as u8,
        (n % 0x100) as u8,
    ]
}

/// The eight bytes of `n`, most significant first.
pub open spec fn be64(n: int) -> Seq<u8> {
    be32(n / 0x1_0000_0000) + be32(n % 0x1_0000_0000)
}

/// The number that the two bytes of `s` from `i` on denote.
pub open spec fn u16_at(s: Seq<u8>, i: int) -> int {
    s[i] * 0x100 + s[i + 1]
}

/// The number that the four bytes of `s` from `i` on denote.
pub open spec fn u32_at(s: Seq<u8>, i: int) -> int {
    u16_at(s, i) * 0x1_0000 + u16_at(s, i + 2)
}

/// The number that the eight bytes of `s` from `i` on denote.
pub open spec fn u64_at(s: Seq<u8>, i: int) -> int {
    u32_at(s, i) * 0x1_0000_0000 + u32_at(s, i + 4)
}

/// Two's complement: the signed reading of `n`, a number below `modulus`.
pub open spec fn signed(n: int, modulus: int) -> int {
    if 2 * n >= modulus {
        n - modulus
    } else {
        n
    }
}

/// The byte that stands for an extension type tag.
pub open spec fn tag_byte(tag: i8) -> u8 {
    if tag < 0 {
        (tag + 0x100) as u8
    } else {
        tag as u8
    }
}

/// The extension type tag that a byte stands for.
pub open spec fn tag_of(b: u8) -> i8 {
    signed(b as int, 0x100) as i8
}

/// The bytes of an integer: a single byte for -32 to 127, else a marker
/// and the shortest of 1, 2, 4 and 8 bytes that holds it, unsigned where
/// it is not negative.
pub open spec fn encode_int(i: int) -> Seq<u8> {
    if 0 <= i < 0x80 {
        seq![i as u8]
    } else if -0x20 <= i < 0 {
        seq![(i + 0x100) as u8]
    } else if 0 <= i {
        if i < 0x100 {
            seq![0xccu8, i as u8]
        } else if i < 0x1_0000 {
            seq![0xcdu8] + be16(i)
        } else if i < 0x1_0000_0000 {
            seq![0xceu8] + be32(i)
        } else {
            seq![0xcfu8] + be64(i)
        }
    } else {
        if i >= -0x80 {
            seq![0xd0u8, (i + 0x100) as u8]
        } else if i >= -0x8000 {
            seq![0xd1u8] + be16(i + 0x1_0000)
        } else if i >= -0x8000_0000 {
            seq![0xd2u8] + be32(i + 0x1_0000_0000)
        } else {
            seq![0xd3u8] + be64(i + 0x1_0000_0000_0000_0000)
        }
    }
}

/// The head of a string of `n` bytes.
pub open spec fn str_head(n: int) -> Seq<u8> {
    if n < 0x20 {
        seq![(0xa0 + n) as u8]
    } else if n < 0x100 {
        seq![0xd9u8, n as u8]
    } else if n < 0x1_0000 {
        seq![0xdau8] + be16(n)
    } else {
        seq![0xdbu8] + be32(n)
    }
}

/// The head of a binary blob of `n` bytes.
pub open spec fn bin_head(n: int) -> Seq<u8> {
    if n < 0x100 {
        seq![0xc4u8, n as u8]
    } else if n < 0x1_0000 {
        seq![0xc5u8] + be16(n)
    } else {
        seq![0xc6u8] + be32(n)
    }
}

/// The head of an array of `n` items.
pub open spec fn array_head(n: int) -> Seq<u8> {
    if n < 0x10 {
        seq![(0x90 + n) as u8]
    } else if n < 0x1_0000 {
        seq![0xdcu8] + be16(n)
    } else {
        seq![0xddu8] + be32(n)
    }
}

/// The head of a mapping of `n` entries.
pub open spec fn map_head(n: int) -> Seq<u8> {
    if n < 0x10 {
        seq![(0x80 + n) as u8]
    } else if n < 0x1_0000 {
        seq![0xdeu8] + be16(n)
    } else {
        seq![0xdfu8] + be32(n)
    }
}

/// The head of an extension value of `n` bytes with this type tag.
pub open spec fn ext_head(n: int, tag: i8) -> Seq<u8> {
    if n == 1 {
        seq![0xd4u8, tag_byte(tag)]
    } else if n == 2 {
        seq![0xd5u8, tag_byte(tag)]
    } else if n == 4 {
        seq![0xd6u8, tag_byte(tag)]
    } else if n == 8 {
        seq![0xd7u8, tag_byte(tag)]
    } else if n == 16 {
        seq![0xd8u8, tag_byte(tag)]
    } else if n < 0x100 {
        seq![0xc7u8, n as u8, tag_byte(tag)]
    } else if n < 0x1_0000 {
        seq![0xc8u8] + be16(n) + seq![tag_byte(tag)]
    } else {
        seq![0xc9u8] + be32(n) + seq![tag_byte(tag)]
    }
}

/// The largest length that the format can state.
pub open spec fn max_len() -> int {
    0xffff_ffff
}

/// How deep arrays and mappings may be nested, one in the other, to be
/// read or written.
pub open spec fn max_depth() -> nat {
    1024
}

/// The value can be written and read where arrays and mappings may be
/// nested `depth` deep: its integers fit in 64 bits, none of its lengths
/// exceeds 32 bits, and its arrays and mappings are nested no deeper.
pub open spec fn encodable_in(v: Val, depth: nat) -> bool
    decreases v,
{
    match v {
        Val::Int(i) => -0x8000_0000_0000_0000 <= i <= 0xffff_ffff_ffff_ffff,
        Val::Str(b) => b.len() <= max_len(),
        Val::Bin(b) => b.len() <= max_len(),
        Val::Ext(_, b) => b.len() <= max_len(),
        Val::Array(items) => depth > 0 && items.len() <= max_len() && forall|i: int|
            0 <= i < items.len() ==> encodable_in(#[trigger] items[i], (depth - 1) as nat),
        Val::Mapping(pairs) => depth > 0 && pairs.len() <= max_len() && forall|i: int|
            0 <= i < pairs.len() ==> encodable_in((#[trigger] pairs[i]).0, (depth - 1) as nat)
                && encodable_in(pairs[i].1, (depth - 1) as nat),
        _ => true,
    }
}

/// The value can be written and read: its integers fit in 64 bits, none
/// of its lengths exceeds 32 bits, and its arrays and mappings are nested
/// no deeper than `max_depth()`.
pub open spec fn encodable(v: Val) -> bool {
    encodable_in(v, max_depth())
}

/// The bytes that `v` is written as.
pub open spec fn encode(v: Val) -> Seq<u8>
    decreases v,
{
    match v {
        Val::Nil => seq![0xc0u8],
        Val::Bool(b) => if b {
            seq![0xc3u8]
        } else {
            seq![0xc2u8]
        },
        Val::Int(i) => encode_int(i),
        Val::F32(bits) => seq![0xcau8] + be32(bits as int),
        Val::F64(bits) => seq![0xcbu8] + be64(bits as int),
        Val::Str(b) => str_head(b.len() as int) + b,
        Val::Bin(b) => bin_head(b.len() as int) + b,
        Val::Array(items) => array_head(items.len() as int) + encode_all(items),
        Val::Mapping(pairs) => map_head(pairs.len() as int) + encode_pairs(pairs),
        Val::Ext(tag, b) => ext_head(b.len() as int, tag) + b,
    }
}

/// The items' bytes, one after the other.
pub open spec fn encode_all(items: Seq<Val>) -> Seq<u8>
    decreases items,
{
    if items.len() == 0 {
        Seq::empty()
    } else {
        encode(items[0]) + encode_all(items.drop_first())
    }
}

/// The entries' bytes, one after the other, each key before its value.
pub open spec fn encode_pairs(pairs: Seq<(Val, Val)>) -> Seq<u8>
    decreases pairs,
{
    if pairs.len() == 0 {
        Seq::empty()
    } else {
        encode(pairs[0].0) + encode(pairs[0].1) + encode_pairs(pairs.drop_first())
    }
}

/// What reading from the start of a byte sequence gives.
#[verifier::ext_equal]
pub enum Parsed<T> {
    /// What was read, and how many bytes it took.
    Done(T, int),
    /// The bytes end before what is being read does.
    Incomplete,
    /// The bytes are not the format, or nest arrays and mappings deeper
    /// than is read.
    Invalid,
}

/// What the first bytes of a value announce.
pub enum Head {
    /// A value that the head holds whole.
    Leaf(Val),
    /// A string of so many bytes.
    Str(int),
    /// A binary blob of so many bytes.
    Bin(int),
    /// An extension value of this type tag and so many bytes.
    Ext(i8, int),
    /// An array of so many items.
    Array(int),
    /// A mapping of so many entries.
    Mapping(int),
    /// The marker that the format leaves unused.
    Invalid,
}

/// The number of bytes of the head that begins with marker `b`, the
/// marker counted.
pub open spec fn head_len(b: u8) -> int {
    if b < 0xc4 {
        1
    } else if b == 0xc4 {
        2
    } else if b == 0xc5 {
        3
    } else if b == 0xc6 {
        5
    } else if b == 0xc7 {
        3
    } else if b == 0xc8 {
        4
    } else if b == 0xc9 {
        6
    } else if b == 0xca {
        5
    } else if b == 0xcb {
        9
    } else if b == 0xcc {
        2
    } else if b == 0xcd {
        3
    } else if b == 0xce {
        5
    } else if b == 0xcf {
        9
    } else if b == 0xd0 {
        2
    } else if b == 0xd1 {
        3
    } else if b == 0xd2 {
        5
    } else if b == 0xd3 {
        9
    } else if b <= 0xd8 {
        2
    } else if b == 0xd9 {
        2
    } else if b == 0xda {
        3
    } else if b == 0xdb {
        5
    } else if b == 0xdc {
        3
    } else if b == 0xdd {
        5
    } else if b == 0xde {
        3
    } else if b == 0xdf {
        5
    } else {
        1
    }
}

/// What the head at the start of `s` announces.
pub open spec fn head(s: Seq<u8>) -> Head
    recommends
        s.len() > 0,
        s.len() >= head_len(s[0]),
{
    let b = s[0];
    if b < 0x80 {
        Head::Leaf(Val::Int(b as int))
    } else if b < 0x90 {
        Head::Mapping(b - 0x80)
    } else if b < 0xa0 {
        Head::Array(b - 0x90)
    } else if b < 0xc0 {
        Head::Str(b - 0xa0)
    } else if b == 0xc0 {
        Head::Leaf(Val::Nil)
    } else if b == 0xc1 {
        Head::Invalid
    } else if b == 0xc2 {
        Head::Leaf(Val::Bool(false))
    } else if b == 0xc3 {
        Head::Leaf(Val::Bool(true))
    } else if b == 0xc4 {
        Head::Bin(s[1] as int)
    } else if b == 0xc5 {
        Head::Bin(u16_at(s, 1))
    } else if b == 0xc6 {
        Head::Bin(u32_at(s, 1))
    } else if b == 0xc7 {
        Head::Ext(tag_of(s[2]), s[1] as int)
    } else if b == 0xc8 {
        Head::Ext(tag_of(s[3]), u16_at(s, 1))
    } else if b == 0xc9 {
        Head::Ext(tag_of(s[5]), u32_at(s, 1))
    } else if b == 0xca {
        Head::Leaf(Val::F32(u32_at(s, 1) as u32))
    } else if b == 0xcb {
        Head::Leaf(Val::F64(u64_at(s, 1) as u64))
    } else if b == 0xcc {
        Head::Leaf(Val::Int(s[1] as int))
    } else if b == 0xcd {
        Head::Leaf(Val::Int(u16_at(s, 1)))
    } else if b == 0xce {
        Head::Leaf(Val::Int(u32_at(s, 1)))
    } else if b == 0xcf {
        Head::Leaf(Val::Int(u64_at(s, 1)))
    } else if b == 0xd0 {
        Head::Leaf(Val::Int(signed(s[1] as int, 0x100)))
    } else if b == 0xd1 {
        Head::Leaf(Val::Int(signed(u16_at(s, 1), 0x1_0000)))
    } else if b == 0xd2 {
        Head::Leaf(Val::Int(signed(u32_at(s, 1), 0x1_0000_0000)))
    } else if b == 0xd3 {
        Head::Leaf(Val::Int(signed(u64_at(s, 1), 0x1_0000_0000_0000_0000)))
    } else if b == 0xd4 {
        Head::Ext(tag_of(s[1]), 1)
    } else if b == 0xd5 {
        Head::Ext(tag_of(s[1]), 2)
    } else if b == 0xd6 {
        Head::Ext(tag_of(s[1]), 4)
    } else if b == 0xd7 {
        Head::Ext(tag_of(s[1]), 8)
    } else if b == 0xd8 {
        Head::Ext(tag_of(s[1]), 16)
    } else if b == 0xd9 {
        Head::Str(s[1] as int)
    } else if b == 0xda {
        Head::Str(u16_at(s, 1))
    } else if b == 0xdb {
        Head::Str(u32_at(s, 1))
    } else if b == 0xdc {
        Head::Array(u16_at(s, 1))
    } else if b == 0xdd {
        Head::Array(u32_at(s, 1))
    } else if b == 0xde {
        Head::Mapping(u16_at(s, 1))
    } else if b == 0xdf {
        Head::Mapping(u32_at(s, 1))
    } else {
        Head::Leaf(Val::Int(b - 0x100))
    }
}

/// The value that `s` begins with, where arrays and mappings may be
/// nested `depth` deep.
pub open spec fn parse_in(s: Seq<u8>, depth: nat) -> Parsed<Val>
    decreases s.len(), 0nat,
{
    if s.len() == 0 || s.len() < head_len(s[0]) {
        Parsed::Incomplete
    } else {
        let h = head_len(s[0]);
        match head(s) {
            Head::Invalid => Parsed::Invalid,
            Head::Leaf(v) => Parsed::Done(v, h),
            Head::Str(n) => if s.len() < h + n {
                Parsed::Incomplete
            } else {
                Parsed::Done(Val::Str(s.subrange(h, h + n)), h + n)
            },
            Head::Bin(n) => if s.len() < h + n {
                Parsed::Incomplete
            } else {
                Parsed::Done(Val::Bin(s.subrange(h, h + n)), h + n)
            },
            Head::Ext(tag, n) => if s.len() < h + n {
                Parsed::Incomplete
            } else {
                Parsed::Done(Val::Ext(tag, s.subrange(h, h + n)), h + n)
            },
            Head::Array(n) => if depth == 0 {
                Parsed::Invalid
            } else {
                match parse_all(s.skip(h), n as nat, (depth - 1) as nat) {
                    Parsed::Done(items, k) => Parsed::Done(Val::Array(items), h + k),
                    Parsed::Incomplete => Parsed::Incomplete,
                    Parsed::Invalid => Parsed::Invalid,
                }
            },
            Head::Mapping(n) => if depth == 0 {
                Parsed::Invalid
            } else {
                match parse_pairs(s.skip(h), n as nat, (depth - 1) as nat) {
                    Parsed::Done(pairs, k) => Parsed::Done(Val::Mapping(pairs), h + k),
                    Parsed::Incomplete => Parsed::Incomplete,
                    Parsed::Invalid => Parsed::Invalid,
                }
            },
        }
    }
}

/// The value that `s` begins with.
pub open spec fn parse(s: Seq<u8>) -> Parsed<Val> {
    parse_in(s, max_depth())
}

/// `items`, then what `r` read, as one reading that began `used` bytes
/// earlier.
pub open spec fn after<T>(items: Seq<T>, used: int, r: Parsed<Seq<T>>) -> Parsed<Seq<T>> {
    match r {
        Parsed::Done(rest, k) => Parsed::Done(items + rest, used + k),
        Parsed::Incomplete => Parsed::Incomplete,
        Parsed::Invalid => Parsed::Invalid,
    }
}

/// The `n` values that `s` begins with.
pub open spec fn parse_all(s: Seq<u8>, n: nat, depth: nat) -> Parsed<Seq<Val>>
    decreases s.len(), n + 1,
{
    if n == 0 {
        Parsed::Done(Seq::empty(), 0)
    } else {
        match parse_in(s, depth) {
            Parsed::Done(v, k) => if 0 < k <= s.len() {
                after(seq![v], k, parse_all(s.skip(k), (n - 1) as nat, depth))
            } else {
                Parsed::Invalid
            },
            Parsed::Incomplete => Parsed::Incomplete,
            Parsed::Invalid => Parsed::Invalid,
        }
    }
}

/// The `n` entries that `s` begins with, each a key and then a value.
pub open spec fn parse_pairs(s: Seq<u8>, n: nat, depth: nat) -> Parsed<Seq<(Val, Val)>>
    decreases s.len(), 2 * n + 1,
{
    if n == 0 {
        Parsed::Done(Seq::empty(), 0)
    } else {
        match parse_in(s, depth) {
            Parsed::Done(key, k) => if 0 < k <= s.len() {
                match parse_in(s.skip(k), depth) {
                    Parsed::Done(value, j) => if 0 < j <= s.len() - k {
                        after(
                            seq![(key, value)],
                            k + j,
                            parse_pairs(s.skip(k + j), (n - 1) as nat, depth),
                        )
                    } else {
                        Parsed::Invalid
                    },
                    Parsed::Incomplete => Parsed::Incomplete,
                    Parsed::Invalid => Parsed::Invalid,
                }
            } else {
                Parsed::Invalid
            },
            Parsed::Incomplete => Parsed::Incomplete,
            Parsed::Invalid => Parsed::Invalid,
        }
    }
}

/// A value that was read took at least one byte and no more than there are.
pub proof fn lemma_parse_consumed_in(s: Seq<u8>, depth: nat)
    ensures
        parse_in(s, depth) matches Parsed::Done(_, k) ==> 0 < k <= s.len(),
    decreases s.len(), 0nat,
{
    if s.len() > 0 && s.len() >= head_len(s[0]) && depth > 0 {
        let h = head_len(s[0]);
        match head(s) {
            Head::Array(n) => {
                lemma_parse_all_consumed(s.skip(h), n as nat, (depth - 1) as nat);
            },
            Head::Mapping(n) => {
                lemma_parse_pairs_consumed(s.skip(h), n as nat, (depth - 1) as nat);
            },
            _ => {},
        }
    }
}

/// A value that was read took at least one byte and no more than there are.
pub proof fn lemma_parse_consumed(s: Seq<u8>)
    ensures
        parse(s) matches Parsed::Done(_, k) ==> 0 < k <= s.len(),
{
    lemma_parse_consumed_in(s, max_depth());
}

/// Values that were read took no more bytes than there are, and are as
/// many as were asked for.
pub proof fn lemma_parse_all_consumed(s: Seq<u8>, n: nat, depth: nat)
    ensures
        parse_all(s, n, depth) matches Parsed::Done(items, k) ==> 0 <= k <= s.len()
            && items.len() == n,
    decreases s.len(), n + 1,
{
    if n > 0 {
        match parse_in(s, depth) {
            Parsed::Done(v, k) => {
                if 0 < k <= s.len() {
                    lemma_parse_all_consumed(s.skip(k), (n - 1) as nat, depth);
                }
            },
            _ => {},
        }
    }
}

/// Entries that were read took no more bytes than there are, and are as
/// many as were asked for.
pub proof fn lemma_parse_pairs_consumed(s: Seq<u8>, n: nat, depth: nat)
    ensures
        parse_pairs(s, n, depth) matches Parsed::Done(pairs, k) ==> 0 <= k <= s.len()
            && pairs.len() == n,
    decreases s.len(), 2 * n + 1,
{
    if n > 0 {
        match parse_in(s, depth) {
            Parsed::Done(key, k) => {
                if 0 < k <= s.len() {
                    match parse_in(s.skip(k), depth) {
                        Parsed::Done(value, j) => {
                            if 0 < j <= s.len() - k {
                                lemma_parse_pairs_consumed(s.skip(k + j), (n - 1) as nat, depth);
                            }
                        },
                        _ => {},
                    }
                }
            },
            _ => {},
        }
    }
}

} // verus!
