//! How a value is written under its type.

use vstd::prelude::*;
use crate::error::EncodeError;
use crate::fixed::{le_bytes, lemma_pow256_values, unsigned_of, write_le};
use crate::leb128::{sleb128, uleb128, write_uleb128};
use crate::table::{text_bytes, write_text};
use crate::types::{Entry, EntryView, FieldRef, Prim, TableView, TypeRef, TypeTable};
use crate::value::{value_view, FieldView, Value, ValueView};
use crate::wire::append_bytes;

verus! {

/// The first index from `from` on at which a member has the key, if any.
pub open spec fn find_key_from(fields: Seq<FieldRef>, key: u32, from: int) -> Option<int>
    decreases fields.len() - from,
{
    if from < 0 || from >= fields.len() {
        None
    } else if fields[from].key == key {
        Some(from)
    } else {
        find_key_from(fields, key, from + 1)
    }
}

/// The index of the member with the key, if any.
pub open spec fn find_key(fields: Seq<FieldRef>, key: u32) -> Option<int> {
    find_key_from(fields, key, 0)
}

pub proof fn lemma_find_key_from(fields: Seq<FieldRef>, key: u32, from: int)
    requires
        0 <= from,
    ensures
        match find_key_from(fields, key, from) {
            Some(i) => from <= i < fields.len() && fields[i].key == key && forall|j: int|
                from <= j < i ==> fields[j].key != key,
            None => forall|j: int| from <= j < fields.len() ==> fields[j].key != key,
        },
    decreases fields.len() - from,
{
    if from < fields.len() && fields[from].key != key {
        lemma_find_key_from(fields, key, from + 1);
    }
}

/// The index of the member with the key, if any.
pub fn index_of_key(fields: &Vec<FieldRef>, key: u32) -> (r: Option<usize>)
    ensures
        match r {
            Some(idx) => find_key(fields@, key) == Some(idx as int) && idx < fields@.len()
                && fields@[idx as int].key == key,
            None => find_key(fields@, key) is None,
        },
{
    let mut i: usize = 0;
    while i < fields.len()
        invariant
            i <= fields@.len(),
            find_key(fields@, key) == find_key_from(fields@, key, i as int),
        decreases fields.len() - i,
    {
        if fields[i].key == key {
            return Some(i);
        }
        i = i + 1;
    }
    None
}

/// Whether a value is of a primitive kind. No value is of the empty kind.
pub open spec fn prim_holds(p: Prim, v: ValueView) -> bool {
    match p {
        Prim::Null => v is Null,
        Prim::Bool => v is Bool,
        Prim::Nat => v is Nat,
        Prim::Int => v is Int,
        Prim::Nat8 => v is Nat8,
        Prim::Nat16 => v is Nat16,
        Prim::Nat32 => v is Nat32,
        Prim::Nat64 => v is Nat64,
        Prim::Int8 => v is Int8,
        Prim::Int16 => v is Int16,
        Prim::Int32 => v is Int32,
        Prim::Int64 => v is Int64,
        Prim::Float32 => v is Float32,
        Prim::Float64 => v is Float64,
        Prim::Text => v is Text,
        Prim::Reserved => v is Reserved,
        Prim::Empty => false,
        Prim::Principal => v is Principal,
    }
}

/// Whether the value has the shape that the type requires: a record holds
/// exactly the type's members in their order, a variant one of its members.
pub open spec fn conforms(table: TableView, ty: TypeRef, v: ValueView) -> bool
    decreases v,
{
    match ty {
        TypeRef::Prim(p) => prim_holds(p, v),
        TypeRef::Index(i) => i < table.len() && match table[i as int] {
            EntryView::Opt(t) => v matches ValueView::Opt(o) && (o matches Some(inner)
                ==> conforms(table, t, *inner)),
            EntryView::Vec(t) => v matches ValueView::Vec(items) && (forall|k: int|
                #![trigger items[k]]
                0 <= k < items.len() ==> conforms(table, t, items[k])),
            EntryView::Record(fields) => v matches ValueView::Record(members) && members.len()
                == fields.len() && (forall|k: int|
                0 <= k < members.len() ==> (#[trigger] members[k]).key == fields[k].key
                    && conforms(table, fields[k].ty, members[k].value)),
            EntryView::Variant(fields) => v matches ValueView::Variant(key, payload) && (find_key(
                fields,
                key,
            ) matches Some(idx) && conforms(table, fields[idx].ty, *payload)),
            EntryView::Func { .. } => v is Func,
            EntryView::Service(_) => v is Service,
        },
    }
}

/// A run of bytes: its length, then the bytes.
pub open spec fn blob_bytes(blob: Seq<u8>) -> Seq<u8> {
    uleb128(blob.len()) + blob
}

/// A reference to a service: the marker 1, then the bytes of its identity as
/// a run.
pub open spec fn id_bytes(id: Seq<u8>) -> Seq<u8> {
    seq![1u8] + blob_bytes(id)
}

/// The bytes of a value under its type.
pub open spec fn value_bytes(table: TableView, ty: TypeRef, v: ValueView) -> Seq<u8>
    decreases v, 0nat,
{
    match v {
        ValueView::Null => Seq::empty(),
        ValueView::Reserved => Seq::empty(),
        ValueView::Bool(b) => seq![if b { 1u8 } else { 0u8 }],
        ValueView::Nat(n) => uleb128(n),
        ValueView::Int(n) => sleb128(n),
        ValueView::Nat8(n) => le_bytes(n as nat, 1),
        ValueView::Nat16(n) => le_bytes(n as nat, 2),
        ValueView::Nat32(n) => le_bytes(n as nat, 4),
        ValueView::Nat64(n) => le_bytes(n as nat, 8),
        ValueView::Int8(n) => le_bytes(unsigned_of(n as int, 1), 1),
        ValueView::Int16(n) => le_bytes(unsigned_of(n as int, 2), 2),
        ValueView::Int32(n) => le_bytes(unsigned_of(n as int, 4), 4),
        ValueView::Int64(n) => le_bytes(unsigned_of(n as int, 8), 8),
        ValueView::Float32(bits) => le_bytes(bits as nat, 4),
        ValueView::Float64(bits) => le_bytes(bits as nat, 8),
        ValueView::Text(text) => text_bytes(text),
        ValueView::Principal(id) => blob_bytes(id),
        ValueView::Func(id, method) => seq![1u8] + id_bytes(id) + text_bytes(method),
        ValueView::Service(id) => id_bytes(id),
        ValueView::Opt(None) => seq![0u8],
        ValueView::Opt(Some(inner)) => match ty {
            TypeRef::Index(i) => match table[i as int] {
                EntryView::Opt(t) => seq![1u8] + value_bytes(table, t, *inner),
                _ => Seq::empty(),
            },
            _ => Seq::empty(),
        },
        ValueView::Vec(items) => match ty {
            TypeRef::Index(i) => match table[i as int] {
                EntryView::Vec(t) => uleb128(items.len()) + items_bytes(table, t, items, 0),
                _ => Seq::empty(),
            },
            _ => Seq::empty(),
        },
        ValueView::Record(members) => match ty {
            TypeRef::Index(i) => match table[i as int] {
                EntryView::Record(fields) => members_bytes(table, fields, members, 0),
                _ => Seq::empty(),
            },
            _ => Seq::empty(),
        },
        ValueView::Variant(key, payload) => match ty {
            TypeRef::Index(i) => match table[i as int] {
                EntryView::Variant(fields) => match find_key(fields, key) {
                    Some(idx) => uleb128(idx as nat) + value_bytes(table, fields[idx].ty, *payload),
                    None => Seq::empty(),
                },
                _ => Seq::empty(),
            },
            _ => Seq::empty(),
        },
    }
}

/// The bytes of the items from `from` on, each under the type `t`.
pub open spec fn items_bytes(table: TableView, t: TypeRef, items: Seq<ValueView>, from: int) -> Seq<
    u8,
>
    decreases items, items.len() - from,
{
    if from < 0 || from >= items.len() {
        Seq::empty()
    } else {
        value_bytes(table, t, items[from]) + items_bytes(table, t, items, from + 1)
    }
}

/// The bytes of the members from `from` on, each under its field's type.
pub open spec fn members_bytes(
    table: TableView,
    fields: Seq<FieldRef>,
    members: Seq<FieldView>,
    from: int,
) -> Seq<u8>
    decreases members, members.len() - from,
{
    if from < 0 || from >= members.len() || from >= fields.len() {
        Seq::empty()
    } else {
        value_bytes(table, fields[from].ty, members[from].value) + members_bytes(
            table,
            fields,
            members,
            from + 1,
        )
    }
}

} // verus!

verus! {

/// Whether a value has no parts of its own type.
pub open spec fn is_leaf(v: ValueView) -> bool {
    !(v is Opt || v is Vec || v is Record || v is Variant)
}

/// Appends a run of bytes: their number, then the bytes.
pub fn write_blob(out: &mut Vec<u8>, blob: &[u8])
    ensures
        final(out)@ == old(out)@ + blob_bytes(blob@),
{
    write_uleb128(out, blob.len() as u64);
    append_bytes(out, blob);
    proof {
        assert(out@ =~= old(out)@ + blob_bytes(blob@));
    }
}

/// Appends a reference to a service: the marker 1, the number of the bytes of
/// its identity, the bytes.
pub fn write_id(out: &mut Vec<u8>, id: &[u8])
    ensures
        final(out)@ == old(out)@ + id_bytes(id@),
{
    out.push(1);
    write_blob(out, id);
    proof {
        assert(out@ =~= old(out)@ + id_bytes(id@));
    }
}

/// Whether the value is of the primitive kind.
pub fn prim_matches(p: Prim, v: &Value) -> (b: bool)
    ensures
        b == prim_holds(p, v@),
{
    proof {
        reveal_with_fuel(value_view, 1);
    }
    match p {
        Prim::Null => matches!(v, Value::Null),
        Prim::Bool => matches!(v, Value::Bool(_)),
        Prim::Nat => matches!(v, Value::Nat(_)),
        Prim::Int => matches!(v, Value::Int(_)),
        Prim::Nat8 => matches!(v, Value::Nat8(_)),
        Prim::Nat16 => matches!(v, Value::Nat16(_)),
        Prim::Nat32 => matches!(v, Value::Nat32(_)),
        Prim::Nat64 => matches!(v, Value::Nat64(_)),
        Prim::Int8 => matches!(v, Value::Int8(_)),
        Prim::Int16 => matches!(v, Value::Int16(_)),
        Prim::Int32 => matches!(v, Value::Int32(_)),
        Prim::Int64 => matches!(v, Value::Int64(_)),
        Prim::Float32 => matches!(v, Value::Float32(_)),
        Prim::Float64 => matches!(v, Value::Float64(_)),
        Prim::Text => matches!(v, Value::Text(_)),
        Prim::Reserved => matches!(v, Value::Reserved),
        Prim::Empty => false,
        Prim::Principal => matches!(v, Value::Principal(_)),
    }
}

/// Appends the bytes of a value that has no parts. Its type has no say in
/// them.
pub fn write_leaf(out: &mut Vec<u8>, v: &Value)
    requires
        is_leaf(v@),
    ensures
        forall|table: TableView, ty: TypeRef|
            final(out)@ == old(out)@ + #[trigger] value_bytes(table, ty, v@),
{
    proof {
        reveal_with_fuel(value_view, 1);
    }
    proof {
        lemma_pow256_values();
    }
    match v {
        Value::Null => {},
        Value::Reserved => {},
        Value::Bool(b) => {
            out.push(if *b { 1 } else { 0 });
        },
        Value::Nat(n) => {
            n.write(out);
        },
        Value::Int(n) => {
            n.write(out);
        },
        Value::Nat8(n) => {
            write_le(out, *n as u64, 1);
        },
        Value::Nat16(n) => {
            write_le(out, *n as u64, 2);
        },
        Value::Nat32(n) => {
            write_le(out, *n as u64, 4);
        },
        Value::Nat64(n) => {
            write_le(out, *n, 8);
        },
        Value::Int8(n) => {
            write_le(out, if *n >= 0 { *n as u64 } else { (*n as i64 + 0x100) as u64 }, 1);
        },
        Value::Int16(n) => {
            write_le(out, if *n >= 0 { *n as u64 } else { (*n as i64 + 0x1_0000) as u64 }, 2);
        },
        Value::Int32(n) => {
            write_le(out, if *n >= 0 { *n as u64 } else { (*n as i64 + 0x1_0000_0000) as u64 }, 4);
        },
        Value::Int64(n) => {
            write_le(
                out,
                if *n >= 0 {
                    *n as u64
                } else {
                    (*n as i128 + 0x1_0000_0000_0000_0000) as u64
                },
                8,
            );
        },
        Value::Float32(bits) => {
            write_le(out, *bits as u64, 4);
        },
        Value::Float64(bits) => {
            write_le(out, *bits, 8);
        },
        Value::Text(text) => {
            write_text(out, text.as_str());
        },
        Value::Principal(id) => {
            write_blob(out, id.as_slice());
        },
        Value::Func(id, method) => {
            out.push(1);
            write_id(out, id.as_slice());
            write_text(out, method.as_str());
        },
        Value::Service(id) => {
            write_id(out, id.as_slice());
        },
        _ => {},
    }
    proof {
        assert forall|table: TableView, ty: TypeRef|
            out@ == old(out)@ + #[trigger] value_bytes(table, ty, v@) by {
            assert(out@ =~= old(out)@ + value_bytes(table, ty, v@));
        }
    }
}

/// Appends the bytes of a value under its type, if it has the shape that the
/// type requires.
pub fn write_value(out: &mut Vec<u8>, table: &TypeTable, ty: TypeRef, v: &Value) -> (r: Result<
    (),
    EncodeError,
>)
    ensures
        r is Ok <==> conforms(table@, ty, v@),
        r is Ok ==> final(out)@ == old(out)@ + value_bytes(table@, ty, v@),
        r is Err ==> r == Err::<(), EncodeError>(EncodeError::TypeMismatch),
    decreases v,
{
    proof {
        reveal_with_fuel(value_view, 1);
    }
    let i: usize = match ty {
        TypeRef::Prim(p) => {
            if prim_matches(p, v) {
                write_leaf(out, v);
                return Ok(());
            } else {
                return Err(EncodeError::TypeMismatch);
            }
        },
        TypeRef::Index(i) => i,
    };
    if i >= table.entries.len() {
        return Err(EncodeError::TypeMismatch);
    }
    let ghost tv = table@;
    proof {
        assert(tv[i as int] == table.entries@[i as int]@);
    }
    match &table.entries[i] {
        Entry::Opt(t) => match v {
            Value::Opt(None) => {
                out.push(0);
                proof {
                    assert(out@ =~= old(out)@ + value_bytes(tv, ty, v@));
                }
                Ok(())
            },
            Value::Opt(Some(inner)) => {
                out.push(1);
                let ghost before = out@;
                let r = write_value(out, table, *t, inner);
                proof {
                    if r is Ok {
                        assert(out@ =~= old(out)@ + value_bytes(tv, ty, v@));
                    }
                }
                r
            },
            _ => Err(EncodeError::TypeMismatch),
        },
        Entry::Vec(t) => match v {
            Value::Vec(items) => {
                let ghost iv = v@->Vec_0;
                write_uleb128(out, items.len() as u64);
                let ghost start = out@;
                let mut k: usize = 0;
                while k < items.len()
                    invariant
                        k <= items@.len(),
                        iv.len() == items@.len(),
                        forall|j: int| 0 <= j < iv.len() ==> iv[j] == (#[trigger] items@[j])@,
                        forall|j: int| 0 <= j < k ==> conforms(tv, *t, #[trigger] iv[j]),
                        tv == table@,
                        ty == TypeRef::Index(i),
                        i < tv.len(),
                        tv[i as int] == EntryView::Vec(*t),
                        v@ == ValueView::Vec(iv),
                        decreases_to!(v => items),
                        start + items_bytes(tv, *t, iv, 0) == out@ + items_bytes(
                            tv,
                            *t,
                            iv,
                            k as int,
                        ),
                    decreases items.len() - k,
                {
                    let ghost before = out@;
                    let r = write_value(out, table, *t, &items[k]);
                    if r.is_err() {
                        proof {
                            assert(!conforms(tv, *t, iv[k as int]));
                            assert((v@->Vec_0)[k as int] == iv[k as int]);
                        }
                        return r;
                    }
                    proof {
                        let rest = items_bytes(tv, *t, iv, k + 1);
                        assert(before + (value_bytes(tv, *t, iv[k as int]) + rest) =~= out@ + rest);
                    }
                    k = k + 1;
                }
                proof {
                    assert(out@ =~= old(out)@ + value_bytes(tv, ty, v@));
                }
                Ok(())
            },
            _ => Err(EncodeError::TypeMismatch),
        },
        Entry::Record(fields) => match v {
            Value::Record(members) => {
                let ghost mv = v@->Record_0;
                if members.len() != fields.len() {
                    return Err(EncodeError::TypeMismatch);
                }
                let ghost start = out@;
                let mut k: usize = 0;
                while k < members.len()
                    invariant
                        k <= members@.len(),
                        mv.len() == members@.len(),
                        members@.len() == fields@.len(),
                        forall|j: int| 0 <= j < mv.len() ==> mv[j] == (#[trigger] members@[j])@,
                        forall|j: int|
                            0 <= j < k ==> (#[trigger] mv[j]).key == fields@[j].key && conforms(
                                tv,
                                fields@[j].ty,
                                mv[j].value,
                            ),
                        tv == table@,
                        ty == TypeRef::Index(i),
                        i < tv.len(),
                        tv[i as int] == EntryView::Record(fields@),
                        v@ == ValueView::Record(mv),
                        decreases_to!(v => members),
                        start + members_bytes(tv, fields@, mv, 0) == out@ + members_bytes(
                            tv,
                            fields@,
                            mv,
                            k as int,
                        ),
                    decreases members.len() - k,
                {
                    let ghost before = out@;
                    if members[k].key != fields[k].key {
                        return Err(EncodeError::TypeMismatch);
                    }
                    let r = write_value(out, table, fields[k].ty, &members[k].value);
                    if r.is_err() {
                        return r;
                    }
                    proof {
                        let rest = members_bytes(tv, fields@, mv, k + 1);
                        assert(before + (value_bytes(tv, fields@[k as int].ty, mv[k as int].value)
                            + rest) =~= out@ + rest);
                    }
                    k = k + 1;
                }
                proof {
                    assert(out@ =~= old(out)@ + value_bytes(tv, ty, v@));
                }
                Ok(())
            },
            _ => Err(EncodeError::TypeMismatch),
        },
        Entry::Variant(fields) => match v {
            Value::Variant(key, payload) => match index_of_key(fields, *key) {
                None => Err(EncodeError::TypeMismatch),
                Some(idx) => {
                    write_uleb128(out, idx as u64);
                    let r = write_value(out, table, fields[idx].ty, payload);
                    proof {
                        if r is Ok {
                            assert(out@ =~= old(out)@ + value_bytes(tv, ty, v@));
                        }
                    }
                    r
                },
            },
            _ => Err(EncodeError::TypeMismatch),
        },
        Entry::Func { .. } => match v {
            Value::Func(_, _) => {
                write_leaf(out, v);
                Ok(())
            },
            _ => Err(EncodeError::TypeMismatch),
        },
        Entry::Service(_) => match v {
            Value::Service(_) => {
                write_leaf(out, v);
                Ok(())
            },
            _ => Err(EncodeError::TypeMismatch),
        },
    }
}

} // verus!
