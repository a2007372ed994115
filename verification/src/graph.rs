//! Types as a caller describes them: trees whose nodes may refer to
//! definitions by index, which is how a type comes to contain itself.

use vstd::prelude::*;
use crate::error::EncodeError;
use crate::label::{label_key, Label};
use crate::order::{arrange, ascending, has_duplicate_key, same_members, Keyed};
use crate::builder::same_shape;
use crate::types::{FuncMode, Prim};

verus! {

/// A member of a record or variant type.
#[derive(Debug, PartialEq, Eq)]
pub struct Field {
    pub key: u32,
    pub ty: Type,
}

/// A method of a service type.
#[derive(Debug, PartialEq, Eq)]
pub struct Method {
    pub name: String,
    pub ty: Type,
}

/// A type. `Reference(i)` stands for the `i`-th definition of the list that
/// the type is used with.
#[derive(Debug, PartialEq, Eq)]
pub enum Type {
    Prim(Prim),
    Opt(Box<Type>),
    Vec(Box<Type>),
    /// The members, their keys ascending.
    Record(Vec<Field>),
    /// The members, their keys ascending.
    Variant(Vec<Field>),
    Func { args: Vec<Type>, rets: Vec<Type>, modes: Vec<FuncMode> },
    Service(Vec<Method>),
    Reference(usize),
}

} // verus!

verus! {

impl Keyed for Field {
    open spec fn key_of(&self) -> u32 {
        self.key
    }

    fn key(&self) -> (k: u32) {
        self.key
    }
}

impl Field {
    /// The member of that label and type. Its key is the label's.
    pub fn new(label: &Label, ty: Type) -> (f: Field)
        ensures
            f.key as nat == label_key(*label),
            f.ty == ty,
    {
        Field { key: label.key(), ty }
    }
}

impl Type {
    /// The record type of the members, put in canonical order. Fails where two
    /// members have the same key, and only there.
    pub fn record(fields: Vec<Field>) -> (r: Result<Type, EncodeError>)
        ensures
            r is Err <==> has_duplicate_key(fields@),
            r is Err ==> r == Err::<Type, EncodeError>(EncodeError::MalformedType),
            r matches Ok(t) ==> t matches Type::Record(out) && ascending(out@) && same_members(
                out@,
                fields@,
            ) && out@.len() == fields@.len(),
    {
        match arrange(fields) {
            Some(out) => Ok(Type::Record(out)),
            None => Err(EncodeError::MalformedType),
        }
    }

    /// The variant type of the members, put in canonical order. Fails where
    /// two members have the same key, and only there.
    pub fn variant(fields: Vec<Field>) -> (r: Result<Type, EncodeError>)
        ensures
            r is Err <==> has_duplicate_key(fields@),
            r is Err ==> r == Err::<Type, EncodeError>(EncodeError::MalformedType),
            r matches Ok(t) ==> t matches Type::Variant(out) && ascending(out@) && same_members(
                out@,
                fields@,
            ) && out@.len() == fields@.len(),
    {
        match arrange(fields) {
            Some(out) => Ok(Type::Variant(out)),
            None => Err(EncodeError::MalformedType),
        }
    }
}

} // verus!

verus! {

fn duplicate_list(list: &Vec<Type>) -> (out: Vec<Type>)
    ensures
        out@.len() == list@.len(),
        forall|k: int| 0 <= k < list@.len() ==> same_shape(#[trigger] list@[k], out@[k]),
    decreases list, 0nat,
{
    let mut out: Vec<Type> = Vec::new();
    let mut k: usize = 0;
    while k < list.len()
        invariant
            k <= list@.len(),
            out@.len() == k,
            forall|x: int| 0 <= x < k ==> same_shape(#[trigger] list@[x], out@[x]),
        decreases list.len() - k,
    {
        out.push(list[k].duplicate());
        k = k + 1;
    }
    out
}

fn duplicate_fields(fields: &Vec<Field>) -> (out: Vec<Field>)
    ensures
        out@.len() == fields@.len(),
        forall|k: int|
            0 <= k < fields@.len() ==> (#[trigger] fields@[k]).key == out@[k].key && same_shape(
                fields@[k].ty,
                out@[k].ty,
            ),
    decreases fields, 0nat,
{
    let mut out: Vec<Field> = Vec::new();
    let mut k: usize = 0;
    while k < fields.len()
        invariant
            k <= fields@.len(),
            out@.len() == k,
            forall|x: int|
                0 <= x < k ==> (#[trigger] fields@[x]).key == out@[x].key && same_shape(
                    fields@[x].ty,
                    out@[x].ty,
                ),
        decreases fields.len() - k,
    {
        out.push(Field { key: fields[k].key, ty: fields[k].ty.duplicate() });
        k = k + 1;
    }
    out
}

fn duplicate_methods(methods: &Vec<Method>) -> (out: Vec<Method>)
    ensures
        out@.len() == methods@.len(),
        forall|k: int|
            0 <= k < methods@.len() ==> (#[trigger] methods@[k]).name@ == out@[k].name@
                && same_shape(methods@[k].ty, out@[k].ty),
    decreases methods, 0nat,
{
    let mut out: Vec<Method> = Vec::new();
    let mut k: usize = 0;
    while k < methods.len()
        invariant
            k <= methods@.len(),
            out@.len() == k,
            forall|x: int|
                0 <= x < k ==> (#[trigger] methods@[x]).name@ == out@[x].name@ && same_shape(
                    methods@[x].ty,
                    out@[x].ty,
                ),
        decreases methods.len() - k,
    {
        out.push(Method { name: methods[k].name.clone(), ty: methods[k].ty.duplicate() });
        k = k + 1;
    }
    out
}

impl Type {
    /// A copy of the type: the same tree.
    pub fn duplicate(&self) -> (r: Type)
        ensures
            same_shape(*self, r),
        decreases self, 1nat,
    {
        match self {
            Type::Prim(p) => Type::Prim(*p),
            Type::Opt(t) => Type::Opt(Box::new(t.duplicate())),
            Type::Vec(t) => Type::Vec(Box::new(t.duplicate())),
            Type::Record(fields) => Type::Record(duplicate_fields(fields)),
            Type::Variant(fields) => Type::Variant(duplicate_fields(fields)),
            Type::Func { args, rets, modes } => Type::Func {
                args: duplicate_list(args),
                rets: duplicate_list(rets),
                modes: modes.clone(),
            },
            Type::Service(methods) => Type::Service(duplicate_methods(methods)),
            Type::Reference(i) => Type::Reference(*i),
        }
    }
}

impl Clone for Type {
    fn clone(&self) -> (r: Self)
        ensures
            same_shape(*self, r),
    {
        self.duplicate()
    }
}

impl Clone for Field {
    fn clone(&self) -> (r: Self)
        ensures
            r.key == self.key,
            same_shape(self.ty, r.ty),
    {
        Field { key: self.key, ty: self.ty.duplicate() }
    }
}

impl Clone for Method {
    fn clone(&self) -> (r: Self)
        ensures
            r.name@ == self.name@,
            same_shape(self.ty, r.ty),
    {
        Method { name: self.name.clone(), ty: self.ty.duplicate() }
    }
}

} // verus!
