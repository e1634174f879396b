//! The dynamically typed values that travel in protocol messages.

use vstd::prelude::*;
use vstd::slice::slice_to_vec;

verus! {

/// A protocol value as a mathematical object.
///
/// Integers are unbounded here; strings and binary blobs are the bytes
/// they consist of on the wire; a floating-point number is its IEEE 754
/// bit pattern.
pub enum Val {
    Nil,
    Bool(bool),
    Int(int),
    F32(u32),
    F64(u64),
    Str(Seq<u8>),
    Bin(Seq<u8>),
    Array(Seq<Val>),
    Mapping(Seq<(Val, Val)>),
    Ext(i8, Seq<u8>),
}

/// A protocol value.
///
/// `Int` and `UInt` both stand for an integer; decoding yields `UInt` for
/// every integer that is not negative, and `Int` for the negative ones.
/// `Str` holds the bytes of a string (UTF-8 is expected, not enforced),
/// `F32` and `F64` hold the bit pattern of the number, `Mapping` keeps its
/// entries in wire order, and `Ext` is an application-defined type tag
/// with its payload (Neovim uses it for buffer, window and tab handles).
#[derive(Debug, PartialEq)]
pub enum Value {
    Nil,
    Bool(bool),
    Int(i64),
    UInt(u64),
    F32(u32),
    F64(u64),
    Str(Vec<u8>),
    Bin(Vec<u8>),
    Array(Vec<Value>),
    Mapping(Vec<(Value, Value)>),
    Ext(i8, Vec<u8>),
}

impl View for Value {
    type V = Val;

    open spec fn view(&self) -> Val {
        model(*self)
    }
}

/// The mathematical value that `v` stands for.
pub open spec fn model(v: Value) -> Val
    decreases v,
{
    match v {
        Value::Nil => Val::Nil,
        Value::Bool(b) => Val::Bool(b),
        Value::Int(i) => Val::Int(i as int),
        Value::UInt(u) => Val::Int(u as int),
        Value::F32(bits) => Val::F32(bits),
        Value::F64(bits) => Val::F64(bits),
        Value::Str(bytes) => Val::Str(bytes@),
        Value::Bin(bytes) => Val::Bin(bytes@),
        Value::Array(items) => Val::Array(views(items@)),
        Value::Mapping(pairs) => Val::Mapping(pair_views(pairs@)),
        Value::Ext(tag, bytes) => Val::Ext(tag, bytes@),
    }
}

/// The views of a sequence of values, item by item.
pub open spec fn views(items: Seq<Value>) -> Seq<Val>
    decreases items,
{
    if items.len() == 0 {
        Seq::empty()
    } else {
        views(items.drop_last()).push(model(items.last()))
    }
}

/// The views of a sequence of pairs, pair by pair.
pub open spec fn pair_views(pairs: Seq<(Value, Value)>) -> Seq<(Val, Val)>
    decreases pairs,
{
    if pairs.len() == 0 {
        Seq::empty()
    } else {
        pair_views(pairs.drop_last()).push((model(pairs.last().0), model(pairs.last().1)))
    }
}

/// `views` keeps the length and maps each item to its view.
pub proof fn lemma_views(items: Seq<Value>)
    ensures
        views(items).len() == items.len(),
        forall|i: int| 0 <= i < items.len() ==> (#[trigger] views(items)[i]) == items[i]@,
    decreases items.len(),
{
    if items.len() > 0 {
        lemma_views(items.drop_last());
    }
}

/// `pair_views` keeps the length and maps each pair to the views of its
/// two parts.
pub proof fn lemma_pair_views(pairs: Seq<(Value, Value)>)
    ensures
        pair_views(pairs).len() == pairs.len(),
        forall|i: int|
            0 <= i < pairs.len() ==> (#[trigger] pair_views(pairs)[i]) == (pairs[i].0@, pairs[i].1@),
    decreases pairs.len(),
{
    if pairs.len() > 0 {
        lemma_pair_views(pairs.drop_last());
    }
}

/// The views of items with one more item at their end.
pub proof fn lemma_views_push(a: Seq<Value>, v: Value)
    ensures
        views(a.push(v)) == views(a).push(v@),
{
    assert(a.push(v).drop_last() =~= a);
}

/// The views of pairs with one more pair at their end.
pub proof fn lemma_pair_views_push(a: Seq<(Value, Value)>, k: Value, v: Value)
    ensures
        pair_views(a.push((k, v))) == pair_views(a).push((k@, v@)),
{
    assert(a.push((k, v)).drop_last() =~= a);
}

/// A copy of a byte vector.
pub fn copy_bytes(bytes: &Vec<u8>) -> (r: Vec<u8>)
    ensures
        r@ == bytes@,
{
    slice_to_vec(bytes.as_slice())
}

/// A copy of a value.
pub fn duplicate(v: &Value) -> (r: Value)
    ensures
        r@ == v@,
    decreases v,
{
    match v {
        Value::Nil => Value::Nil,
        Value::Bool(b) => Value::Bool(*b),
        Value::Int(i) => Value::Int(*i),
        Value::UInt(u) => Value::UInt(*u),
        Value::F32(bits) => Value::F32(*bits),
        Value::F64(bits) => Value::F64(*bits),
        Value::Str(bytes) => Value::Str(copy_bytes(bytes)),
        Value::Bin(bytes) => Value::Bin(copy_bytes(bytes)),
        Value::Array(items) => {
            Value::Array(duplicate_all(items))
        },
        Value::Mapping(pairs) => {
            Value::Mapping(duplicate_pairs(pairs))
        },
        Value::Ext(tag, bytes) => Value::Ext(*tag, copy_bytes(bytes)),
    }
}

/// A copy of a vector of values.
pub fn duplicate_all(items: &Vec<Value>) -> (r: Vec<Value>)
    ensures
        views(r@) == views(items@),
    decreases items,
{
    let mut out: Vec<Value> = Vec::new();
    let mut i: usize = 0;
    while i < items.len()
        invariant
            i <= items.len(),
            out.len() == i,
            views(out@) == views(items@.take(i as int)),
        decreases items.len() - i,
    {
        proof {
            lemma_views_push(items@.take(i as int), items[i as int]);
            assert(items@.take(i + 1) =~= items@.take(i as int).push(items[i as int]));
            lemma_views_push(out@, items[i as int]);
        }
        let ghost before = out@;
        let item = duplicate(&items[i]);
        out.push(item);
        proof {
            lemma_views_push(before, item);
        }
        i = i + 1;
    }
    proof {
        assert(items@.take(i as int) =~= items@);
    }
    out
}

fn duplicate_pairs(pairs: &Vec<(Value, Value)>) -> (r: Vec<(Value, Value)>)
    ensures
        pair_views(r@) == pair_views(pairs@),
    decreases pairs,
{
    let mut out: Vec<(Value, Value)> = Vec::new();
    let mut i: usize = 0;
    while i < pairs.len()
        invariant
            i <= pairs.len(),
            out.len() == i,
            pair_views(out@) == pair_views(pairs@.take(i as int)),
        decreases pairs.len() - i,
    {
        proof {
            lemma_pair_views_push(pairs@.take(i as int), pairs[i as int].0, pairs[i as int].1);
            assert(pairs@.take(i + 1) =~= pairs@.take(i as int).push(pairs[i as int]));
        }
        let ghost before = out@;
        let key = duplicate(&pairs[i].0);
        let value = duplicate(&pairs[i].1);
        out.push((key, value));
        proof {
            lemma_pair_views_push(before, key, value);
        }
        i = i + 1;
    }
    proof {
        assert(pairs@.take(i as int) =~= pairs@);
    }
    out
}

impl Clone for Value {
    fn clone(&self) -> (r: Self)
        ensures
            r@ == self@,
    {
        duplicate(self)
    }
}

} // verus!
