//! The type algebra, and the flat table in which types travel.

use vstd::prelude::*;

verus! {

/// The kinds of type that have no parts.
#[derive(Debug, Clone, Copy, PartialEq, Eq, Hash, Structural)]
pub enum Prim {
    Null,
    Bool,
    Nat,
    Int,
    Nat8,
    Nat16,
    Nat32,
    Nat64,
    Int8,
    Int16,
    Int32,
    Int64,
    Float32,
    Float64,
    Text,
    Reserved,
    Empty,
    Principal,
}

/// How a function may be called.
#[derive(Debug, Clone, Copy, PartialEq, Eq, Hash, Structural)]
pub enum FuncMode {
    Query,
    Oneway,
}

/// A type as a table entry names it: a primitive kind, or the index of
/// another entry.
#[derive(Debug, Clone, Copy, PartialEq, Eq, Hash, Structural)]
pub enum TypeRef {
    Prim(Prim),
    Index(usize),
}

/// A member of a record or variant entry.
#[derive(Debug, Clone, Copy, PartialEq, Eq, Hash, Structural)]
pub struct FieldRef {
    pub key: u32,
    pub ty: TypeRef,
}

/// A method of a service entry.
#[derive(Debug, Clone, PartialEq, Eq, Hash)]
pub struct MethodRef {
    pub name: String,
    pub ty: TypeRef,
}

/// One composite type of a table. Its parts are named by reference.
#[derive(Debug, Clone, PartialEq, Eq, Hash)]
pub enum Entry {
    Opt(TypeRef),
    Vec(TypeRef),
    Record(Vec<FieldRef>),
    Variant(Vec<FieldRef>),
    Func { args: Vec<TypeRef>, rets: Vec<TypeRef>, modes: Vec<FuncMode> },
    Service(Vec<MethodRef>),
}

/// A method of a service entry, as contracts see it.
pub struct MethodView {
    pub name: Seq<char>,
    pub ty: TypeRef,
}

/// A table entry, as contracts see it.
pub enum EntryView {
    Opt(TypeRef),
    Vec(TypeRef),
    Record(Seq<FieldRef>),
    Variant(Seq<FieldRef>),
    Func { args: Seq<TypeRef>, rets: Seq<TypeRef>, modes: Seq<FuncMode> },
    Service(Seq<MethodView>),
}

impl View for MethodRef {
    type V = MethodView;

    open spec fn view(&self) -> MethodView {
        MethodView { name: self.name@, ty: self.ty }
    }
}

impl View for Entry {
    type V = EntryView;

    open spec fn view(&self) -> EntryView {
        match *self {
            Entry::Opt(t) => EntryView::Opt(t),
            Entry::Vec(t) => EntryView::Vec(t),
            Entry::Record(fields) => EntryView::Record(fields@),
            Entry::Variant(fields) => EntryView::Variant(fields@),
            Entry::Func { args, rets, modes } => EntryView::Func {
                args: args@,
                rets: rets@,
                modes: modes@,
            },
            Entry::Service(methods) => EntryView::Service(
                methods@.map_values(|m: MethodRef| m@),
            ),
        }
    }
}

/// A table of composite types, as contracts see it.
pub type TableView = Seq<EntryView>;

/// The composite types of one encoding, each once, referring to each other by
/// index.
#[derive(Debug, Clone, PartialEq, Eq)]
pub struct TypeTable {
    pub entries: Vec<Entry>,
}

impl View for TypeTable {
    type V = TableView;

    open spec fn view(&self) -> TableView {
        self.entries@.map_values(|e: Entry| e@)
    }
}

/// The reference names a primitive kind or an entry among the first `count`.
pub open spec fn ref_in_range(r: TypeRef, count: nat) -> bool {
    r matches TypeRef::Index(i) ==> i < count
}

pub open spec fn refs_in_range(refs: Seq<TypeRef>, count: nat) -> bool {
    forall|k: int| 0 <= k < refs.len() ==> ref_in_range(#[trigger] refs[k], count)
}

/// The members' keys ascend strictly, so none occurs twice.
pub open spec fn keys_ascend(fields: Seq<FieldRef>) -> bool {
    forall|j: int, k: int| 0 <= j < k < fields.len() ==> fields[j].key < fields[k].key
}

pub open spec fn fields_in_range(fields: Seq<FieldRef>, count: nat) -> bool {
    forall|k: int| 0 <= k < fields.len() ==> ref_in_range((#[trigger] fields[k]).ty, count)
}

/// No two methods have the same name.
pub open spec fn names_distinct(methods: Seq<MethodView>) -> bool {
    forall|a: int, b: int| 0 <= a < b < methods.len() ==> methods[a].name != methods[b].name
}

pub open spec fn methods_in_range(methods: Seq<MethodView>, count: nat) -> bool {
    forall|k: int| 0 <= k < methods.len() ==> ref_in_range((#[trigger] methods[k]).ty, count)
}

/// The entry refers only to entries among the first `count`, and its members
/// are in canonical order.
pub open spec fn entry_well_formed(e: EntryView, count: nat) -> bool {
    match e {
        EntryView::Opt(t) => ref_in_range(t, count),
        EntryView::Vec(t) => ref_in_range(t, count),
        EntryView::Record(fields) => fields_in_range(fields, count) && keys_ascend(fields),
        EntryView::Variant(fields) => fields_in_range(fields, count) && keys_ascend(fields),
        EntryView::Func { args, rets, modes } => refs_in_range(args, count) && refs_in_range(
            rets,
            count,
        ),
        EntryView::Service(methods) => methods_in_range(methods, count) && names_distinct(methods),
    }
}

/// Every entry of the table is well formed within it.
pub open spec fn table_well_formed(table: TableView) -> bool {
    forall|k: int| 0 <= k < table.len() ==> entry_well_formed(#[trigger] table[k], table.len())
}

/// The number that stands for a primitive kind where a type is named.
pub open spec fn prim_code(p: Prim) -> int {
    match p {
        Prim::Null => -1,
        Prim::Bool => -2,
        Prim::Nat => -3,
        Prim::Int => -4,
        Prim::Nat8 => -5,
        Prim::Nat16 => -6,
        Prim::Nat32 => -7,
        Prim::Nat64 => -8,
        Prim::Int8 => -9,
        Prim::Int16 => -10,
        Prim::Int32 => -11,
        Prim::Int64 => -12,
        Prim::Float32 => -13,
        Prim::Float64 => -14,
        Prim::Text => -15,
        Prim::Reserved => -16,
        Prim::Empty => -17,
        Prim::Principal => -24,
    }
}

/// The primitive kind that a number stands for, if any.
pub open spec fn prim_of_code(code: int) -> Option<Prim> {
    if code == -1 {
        Some(Prim::Null)
    } else if code == -2 {
        Some(Prim::Bool)
    } else if code == -3 {
        Some(Prim::Nat)
    } else if code == -4 {
        Some(Prim::Int)
    } else if code == -5 {
        Some(Prim::Nat8)
    } else if code == -6 {
        Some(Prim::Nat16)
    } else if code == -7 {
        Some(Prim::Nat32)
    } else if code == -8 {
        Some(Prim::Nat64)
    } else if code == -9 {
        Some(Prim::Int8)
    } else if code == -10 {
        Some(Prim::Int16)
    } else if code == -11 {
        Some(Prim::Int32)
    } else if code == -12 {
        Some(Prim::Int64)
    } else if code == -13 {
        Some(Prim::Float32)
    } else if code == -14 {
        Some(Prim::Float64)
    } else if code == -15 {
        Some(Prim::Text)
    } else if code == -16 {
        Some(Prim::Reserved)
    } else if code == -17 {
        Some(Prim::Empty)
    } else if code == -24 {
        Some(Prim::Principal)
    } else {
        None
    }
}

impl Prim {
    /// The number that stands for this kind where a type is named.
    pub fn code(self) -> (c: i64)
        ensures
            c == prim_code(self),
    {
        match self {
            Prim::Null => -1,
            Prim::Bool => -2,
            Prim::Nat => -3,
            Prim::Int => -4,
            Prim::Nat8 => -5,
            Prim::Nat16 => -6,
            Prim::Nat32 => -7,
            Prim::Nat64 => -8,
            Prim::Int8 => -9,
            Prim::Int16 => -10,
            Prim::Int32 => -11,
            Prim::Int64 => -12,
            Prim::Float32 => -13,
            Prim::Float64 => -14,
            Prim::Text => -15,
            Prim::Reserved => -16,
            Prim::Empty => -17,
            Prim::Principal => -24,
        }
    }

    /// The kind that `code` stands for, if any.
    pub fn from_code(code: i64) -> (p: Option<Prim>)
        ensures
            p == prim_of_code(code as int),
    {
        if code == -1 {
            Some(Prim::Null)
        } else if code == -2 {
            Some(Prim::Bool)
        } else if code == -3 {
            Some(Prim::Nat)
        } else if code == -4 {
            Some(Prim::Int)
        } else if code == -5 {
            Some(Prim::Nat8)
        } else if code == -6 {
            Some(Prim::Nat16)
        } else if code == -7 {
            Some(Prim::Nat32)
        } else if code == -8 {
            Some(Prim::Nat64)
        } else if code == -9 {
            Some(Prim::Int8)
        } else if code == -10 {
            Some(Prim::Int16)
        } else if code == -11 {
            Some(Prim::Int32)
        } else if code == -12 {
            Some(Prim::Int64)
        } else if code == -13 {
            Some(Prim::Float32)
        } else if code == -14 {
            Some(Prim::Float64)
        } else if code == -15 {
            Some(Prim::Text)
        } else if code == -16 {
            Some(Prim::Reserved)
        } else if code == -17 {
            Some(Prim::Empty)
        } else if code == -24 {
            Some(Prim::Principal)
        } else {
            None
        }
    }
}

/// Every kind has a code of its own, and it is negative.
pub proof fn lemma_prim_code_round_trip(p: Prim)
    ensures
        prim_of_code(prim_code(p)) == Some(p),
        prim_code(p) < 0,
{
}

} // verus!

verus! {

impl crate::order::Keyed for FieldRef {
    open spec fn key_of(&self) -> u32 {
        self.key
    }

    fn key(&self) -> (k: u32) {
        self.key
    }
}

} // verus!
