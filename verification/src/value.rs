//! Values, and what each looks like in contracts.

use vstd::prelude::*;
use crate::bignum::{Int, Nat};
use crate::error::EncodeError;
use crate::label::{label_key, Label};
use crate::order::{arrange, ascending, has_duplicate_key, same_members, Keyed};

verus! {

/// A named member of a record value.
#[derive(Debug, PartialEq, Eq)]
pub struct FieldValue {
    pub key: u32,
    pub value: Value,
}

/// A value of any type of the algebra.
///
/// Floating-point numbers are held as their IEEE 754 bit patterns, an
/// identity as its bytes.
#[derive(Debug, PartialEq, Eq)]
pub enum Value {
    Null,
    Bool(bool),
    Nat(Nat),
    Int(Int),
    Nat8(u8),
    Nat16(u16),
    Nat32(u32),
    Nat64(u64),
    Int8(i8),
    Int16(i16),
    Int32(i32),
    Int64(i64),
    Float32(u32),
    Float64(u64),
    Text(String),
    Reserved,
    Principal(Vec<u8>),
    Opt(Option<Box<Value>>),
    Vec(Vec<Value>),
    /// The members, their keys ascending.
    Record(Vec<FieldValue>),
    /// The chosen member's key and its payload.
    Variant(u32, Box<Value>),
    /// A function of a service: the service's identity and the method's name.
    Func(Vec<u8>, String),
    /// A service's identity.
    Service(Vec<u8>),
}

/// A member of a record value, as contracts see it.
pub struct FieldView {
    pub key: u32,
    pub value: ValueView,
}

/// A value, as contracts see it.
pub enum ValueView {
    Null,
    Bool(bool),
    Nat(nat),
    Int(int),
    Nat8(u8),
    Nat16(u16),
    Nat32(u32),
    Nat64(u64),
    Int8(i8),
    Int16(i16),
    Int32(i32),
    Int64(i64),
    Float32(u32),
    Float64(u64),
    Text(Seq<char>),
    Reserved,
    Principal(Seq<u8>),
    Opt(Option<Box<ValueView>>),
    Vec(Seq<ValueView>),
    Record(Seq<FieldView>),
    Variant(u32, Box<ValueView>),
    Func(Seq<u8>, Seq<char>),
    Service(Seq<u8>),
}

/// What a value looks like in contracts.
#[verifier::opaque]
pub open spec fn value_view(v: Value) -> ValueView
    decreases v,
{
    match v {
        Value::Null => ValueView::Null,
        Value::Bool(b) => ValueView::Bool(b),
        Value::Nat(n) => ValueView::Nat(n@),
        Value::Int(n) => ValueView::Int(n@),
        Value::Nat8(n) => ValueView::Nat8(n),
        Value::Nat16(n) => ValueView::Nat16(n),
        Value::Nat32(n) => ValueView::Nat32(n),
        Value::Nat64(n) => ValueView::Nat64(n),
        Value::Int8(n) => ValueView::Int8(n),
        Value::Int16(n) => ValueView::Int16(n),
        Value::Int32(n) => ValueView::Int32(n),
        Value::Int64(n) => ValueView::Int64(n),
        Value::Float32(bits) => ValueView::Float32(bits),
        Value::Float64(bits) => ValueView::Float64(bits),
        Value::Text(text) => ValueView::Text(text@),
        Value::Reserved => ValueView::Reserved,
        Value::Principal(id) => ValueView::Principal(id@),
        Value::Opt(None) => ValueView::Opt(None),
        Value::Opt(Some(inner)) => ValueView::Opt(Some(Box::new(value_view(*inner)))),
        Value::Vec(items) => ValueView::Vec(
            Seq::new(
                items@.len(),
                |k: int|
                    if 0 <= k < items@.len() {
                        value_view(items@[k])
                    } else {
                        ValueView::Null
                    },
            ),
        ),
        Value::Record(members) => ValueView::Record(
            Seq::new(
                members@.len(),
                |k: int|
                    if 0 <= k < members@.len() {
                        FieldView { key: members@[k].key, value: value_view(members@[k].value) }
                    } else {
                        FieldView { key: 0, value: ValueView::Null }
                    },
            ),
        ),
        Value::Variant(key, payload) => ValueView::Variant(key, Box::new(value_view(*payload))),
        Value::Func(id, method) => ValueView::Func(id@, method@),
        Value::Service(id) => ValueView::Service(id@),
    }
}

impl View for FieldValue {
    type V = FieldView;

    open spec fn view(&self) -> FieldView {
        FieldView { key: self.key, value: value_view(self.value) }
    }
}

impl View for Value {
    type V = ValueView;

    open spec fn view(&self) -> ValueView {
        value_view(*self)
    }
}

} // verus!

verus! {

/// A vector value is seen as the vector of what its items are seen as.
pub proof fn lemma_vec_view(items: Vec<Value>)
    ensures
        Value::Vec(items)@ == ValueView::Vec(items@.map_values(|v: Value| v@)),
{
    reveal_with_fuel(value_view, 1);
    assert(Value::Vec(items)@->Vec_0 =~= items@.map_values(|v: Value| v@));
}

/// A record value is seen as the record of what its members are seen as.
pub proof fn lemma_record_view(members: Vec<FieldValue>)
    ensures
        Value::Record(members)@ == ValueView::Record(members@.map_values(|f: FieldValue| f@)),
{
    reveal_with_fuel(value_view, 1);
    assert(Value::Record(members)@->Record_0 =~= members@.map_values(|f: FieldValue| f@));
}

} // verus!

verus! {

impl Keyed for FieldValue {
    open spec fn key_of(&self) -> u32 {
        self.key
    }

    fn key(&self) -> (k: u32) {
        self.key
    }
}

impl FieldValue {
    /// The member of that label and value. Its key is the label's.
    pub fn new(label: &Label, value: Value) -> (f: FieldValue)
        ensures
            f.key as nat == label_key(*label),
            f.value == value,
    {
        FieldValue { key: label.key(), value }
    }
}

impl Value {
    /// The record value of the members, put in canonical order. Fails where
    /// two members have the same key, and only there.
    pub fn record(members: Vec<FieldValue>) -> (r: Result<Value, EncodeError>)
        ensures
            r is Err <==> has_duplicate_key(members@),
            r is Err ==> r == Err::<Value, EncodeError>(EncodeError::MalformedType),
            r matches Ok(v) ==> v matches Value::Record(out) && ascending(out@) && same_members(
                out@,
                members@,
            ) && out@.len() == members@.len(),
    {
        match arrange(members) {
            Some(out) => Ok(Value::Record(out)),
            None => Err(EncodeError::MalformedType),
        }
    }

    /// The variant value that chooses the member of that label.
    pub fn variant(label: &Label, payload: Value) -> (v: Value)
        ensures
            v matches Value::Variant(key, inner) && key as nat == label_key(*label) && *inner
                == payload,
    {
        Value::Variant(label.key(), Box::new(payload))
    }
}

} // verus!

verus! {

impl Value {
    /// A copy of the value.
    pub fn duplicate(&self) -> (r: Value)
        ensures
            r@ == self@,
        decreases self,
    {
        proof {
            reveal_with_fuel(value_view, 1);
        }
        match self {
            Value::Null => Value::Null,
            Value::Bool(b) => Value::Bool(*b),
            Value::Nat(n) => Value::Nat(n.clone()),
            Value::Int(n) => Value::Int(n.clone()),
            Value::Nat8(n) => Value::Nat8(*n),
            Value::Nat16(n) => Value::Nat16(*n),
            Value::Nat32(n) => Value::Nat32(*n),
            Value::Nat64(n) => Value::Nat64(*n),
            Value::Int8(n) => Value::Int8(*n),
            Value::Int16(n) => Value::Int16(*n),
            Value::Int32(n) => Value::Int32(*n),
            Value::Int64(n) => Value::Int64(*n),
            Value::Float32(bits) => Value::Float32(*bits),
            Value::Float64(bits) => Value::Float64(*bits),
            Value::Text(text) => Value::Text(text.clone()),
            Value::Reserved => Value::Reserved,
            Value::Principal(id) => Value::Principal(id.clone()),
            Value::Opt(None) => Value::Opt(None),
            Value::Opt(Some(inner)) => Value::Opt(Some(Box::new(inner.duplicate()))),
            Value::Vec(items) => {
                let mut out: Vec<Value> = Vec::new();
                let mut k: usize = 0;
                while k < items.len()
                    invariant
                        k <= items@.len(),
                        out@.len() == k,
                        decreases_to!(self => items),
                        forall|x: int| 0 <= x < k ==> (#[trigger] out@[x])@ == items@[x]@,
                    decreases items.len() - k,
                {
                    out.push(items[k].duplicate());
                    k = k + 1;
                }
                proof {
                    lemma_vec_view(out);
                    lemma_vec_view(*items);
                    assert(out@.map_values(|v: Value| v@) =~= items@.map_values(|v: Value| v@));
                }
                Value::Vec(out)
            },
            Value::Record(members) => {
                let mut out: Vec<FieldValue> = Vec::new();
                let mut k: usize = 0;
                while k < members.len()
                    invariant
                        k <= members@.len(),
                        out@.len() == k,
                        decreases_to!(self => members),
                        forall|x: int| 0 <= x < k ==> (#[trigger] out@[x])@ == members@[x]@,
                    decreases members.len() - k,
                {
                    out.push(
                        FieldValue { key: members[k].key, value: members[k].value.duplicate() },
                    );
                    k = k + 1;
                }
                proof {
                    lemma_record_view(out);
                    lemma_record_view(*members);
                    assert(out@.map_values(|f: FieldValue| f@) =~= members@.map_values(
                        |f: FieldValue| f@,
                    ));
                }
                Value::Record(out)
            },
            Value::Variant(key, payload) => Value::Variant(*key, Box::new(payload.duplicate())),
            Value::Func(id, method) => Value::Func(id.clone(), method.clone()),
            Value::Service(id) => Value::Service(id.clone()),
        }
    }
}

impl Clone for Value {
    fn clone(&self) -> (r: Self)
        ensures
            r@ == self@,
    {
        self.duplicate()
    }
}

impl Clone for FieldValue {
    fn clone(&self) -> (r: Self)
        ensures
            r@ == self@,
    {
        FieldValue { key: self.key, value: self.value.duplicate() }
    }
}

} // verus!
