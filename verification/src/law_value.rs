//! Reading back a value that was written, as the type it was written under,
//! gives the value.

use vstd::prelude::*;
use vstd::utf8::encode_utf8;
use crate::compat::{
    compat, compatible, entries_compat, find_method, find_method_from,
};
use crate::decode_spec::{
    decode_fields, decode_items, decode_opt, decode_record, decode_value, decode_variant,
    decode_vec, parse_func_value, parse_id, parse_prim, written_entry,
};
use crate::encode::{
    blob_bytes, conforms, find_key, id_bytes, items_bytes, lemma_find_key_from, members_bytes,
    prim_holds, value_bytes,
};
use crate::error::DecodeError;
use crate::fixed::{
    le_bytes, lemma_le_bytes_len, lemma_le_round_trip, lemma_pow256_values,
    lemma_signed_round_trip, unsigned_of,
};
use crate::law_table::{
    entry_fits, lemma_blob_round_trip, lemma_text_round_trip, table_fits,
};
use crate::leb128::{
    holds_at, law_uleb_fits_or_overflows, lemma_holds_at_index, lemma_holds_at_split, lemma_sleb_round_trip,
    lemma_uleb_round_trip, uleb128,
};
use crate::table::text_bytes;
use crate::types::{
    entry_well_formed, keys_ascend, names_distinct, ref_in_range, table_well_formed, EntryView,
    FieldRef, MethodView, Prim, TableView, TypeRef,
};
use crate::value::{FieldView, ValueView};

verus! {

/// Among members whose keys ascend, a member's key is found at the member.
pub proof fn lemma_find_key_ascend(fields: Seq<FieldRef>, k: int)
    requires
        keys_ascend(fields),
        0 <= k < fields.len(),
    ensures
        find_key(fields, fields[k].key) == Some(k),
{
    lemma_find_key_from(fields, fields[k].key, 0);
}

proof fn lemma_find_method_from(methods: Seq<MethodView>, name: Seq<char>, from: int)
    requires
        0 <= from,
    ensures
        match find_method_from(methods, name, from) {
            Some(i) => from <= i < methods.len() && methods[i].name == name && forall|j: int|
                from <= j < i ==> methods[j].name != name,
            None => forall|j: int| from <= j < methods.len() ==> methods[j].name != name,
        },
    decreases methods.len() - from,
{
    if from < methods.len() && methods[from].name != name {
        lemma_find_method_from(methods, name, from + 1);
    }
}

/// Among methods with names of their own, a method's name is found at the
/// method.
pub proof fn lemma_find_method_distinct(methods: Seq<MethodView>, k: int)
    requires
        names_distinct(methods),
        0 <= k < methods.len(),
    ensures
        find_method(methods, methods[k].name) == Some(k),
{
    lemma_find_method_from(methods, methods[k].name, 0);
}

/// Within a well-formed table every type can be read as itself, to any depth.
pub proof fn lemma_compat_reflexive(table: TableView, t: TypeRef, depth: nat)
    requires
        table_well_formed(table),
        ref_in_range(t, table.len()),
    ensures
        compat(table, t, table, t, depth),
    decreases depth, 0nat,
{
    if let TypeRef::Index(j) = t {
        if depth > 0 {
            lemma_entries_compat_reflexive(table, table[j as int], (depth - 1) as nat);
        }
    }
}

proof fn lemma_entries_compat_reflexive(table: TableView, e: EntryView, depth: nat)
    requires
        table_well_formed(table),
        entry_well_formed(e, table.len()),
    ensures
        entries_compat(table, e, table, e, depth),
    decreases depth, 1nat,
{
    match e {
        EntryView::Opt(_) => {},
        EntryView::Vec(t) => {
            lemma_compat_reflexive(table, t, depth);
        },
        EntryView::Record(fields) => {
            assert forall|k: int| 0 <= k < fields.len() implies match find_key(
                fields,
                (#[trigger] fields[k]).key,
            ) {
                Some(x) => compat(table, fields[x].ty, table, fields[k].ty, depth),
                None => crate::compat::defaultable(table, fields[k].ty),
            } by {
                lemma_find_key_ascend(fields, k);
                lemma_compat_reflexive(table, fields[k].ty, depth);
            }
        },
        EntryView::Variant(_) => {},
        EntryView::Func { args, rets, modes } => {
            assert forall|k: int| 0 <= k < args.len() implies compat(
                table,
                args[k],
                table,
                #[trigger] args[k],
                depth,
            ) by {
                lemma_compat_reflexive(table, args[k], depth);
            }
            assert forall|k: int| 0 <= k < rets.len() implies compat(
                table,
                rets[k],
                table,
                #[trigger] rets[k],
                depth,
            ) by {
                lemma_compat_reflexive(table, rets[k], depth);
            }
        },
        EntryView::Service(methods) => {
            assert forall|k: int| 0 <= k < methods.len() implies match find_method(
                methods,
                (#[trigger] methods[k]).name,
            ) {
                Some(x) => compat(table, methods[x].ty, table, methods[k].ty, depth),
                None => false,
            } by {
                lemma_find_method_distinct(methods, k);
                lemma_compat_reflexive(table, methods[k].ty, depth);
            }
        },
    }
}

/// Within a well-formed table every type can be read as itself.
pub proof fn law_compatible_reflexive(table: TableView, t: TypeRef)
    requires
        table_well_formed(table),
        ref_in_range(t, table.len()),
    ensures
        compatible(table, t, table, t),
{
    assert forall|depth: nat| compat(table, t, table, t, depth) by {
        lemma_compat_reflexive(table, t, depth);
    }
}

/// The value is nested no deeper than `depth`, and its texts, identities and
/// vectors are no longer than a machine can count.
pub open spec fn value_within(v: ValueView, depth: nat) -> bool
    decreases v,
{
    depth >= 1 && match v {
        ValueView::Text(text) => encode_utf8(text).len() <= usize::MAX,
        ValueView::Principal(id) => id.len() <= usize::MAX,
        ValueView::Service(id) => id.len() <= usize::MAX,
        ValueView::Func(id, method) => id.len() <= usize::MAX && encode_utf8(method).len()
            <= usize::MAX,
        ValueView::Opt(Some(inner)) => value_within(*inner, (depth - 1) as nat),
        ValueView::Vec(items) => items.len() <= usize::MAX && (forall|k: int|
            0 <= k < items.len() ==> value_within(#[trigger] items[k], (depth - 1) as nat)),
        ValueView::Record(members) => forall|k: int|
            0 <= k < members.len() ==> value_within(
                (#[trigger] members[k]).value,
                (depth - 1) as nat,
            ),
        ValueView::Variant(_, payload) => value_within(*payload, (depth - 1) as nat),
        _ => true,
    }
}

/// Principal identity: reading back a principal that was written, its
/// length and then its bytes, gives its bytes, whatever their number.
pub proof fn law_principal_round_trip(bytes: Seq<u8>, pos: int, id: Seq<u8>)
    requires
        holds_at(bytes, pos, blob_bytes(id)),
        id.len() <= usize::MAX,
    ensures
        parse_prim(Prim::Principal, bytes, pos) == Ok::<(ValueView, int), DecodeError>(
            (ValueView::Principal(id), pos + blob_bytes(id).len()),
        ),
{
    lemma_blob_round_trip(bytes, pos, id);
}

/// Reading back a reference to a service that was written gives the bytes of
/// its identity.
proof fn lemma_id_round_trip(bytes: Seq<u8>, pos: int, id: Seq<u8>)
    requires
        holds_at(bytes, pos, id_bytes(id)),
        id.len() <= usize::MAX,
    ensures
        parse_id(bytes, pos) == Ok::<(Seq<u8>, int), DecodeError>((id, pos + id_bytes(id).len())),
{
    lemma_holds_at_split(bytes, pos, seq![1u8], blob_bytes(id));
    lemma_holds_at_index(bytes, pos, id_bytes(id), 0);
    lemma_blob_round_trip(bytes, pos + 1, id);
}

proof fn lemma_fixed_round_trip(bytes: Seq<u8>, pos: int, v: nat, width: nat)
    requires
        holds_at(bytes, pos, le_bytes(v, width)),
        v < crate::fixed::pow256(width),
    ensures
        crate::fixed::read_le_spec(bytes, pos, width) == Ok::<(nat, int), DecodeError>(
            (v, pos + le_bytes(v, width).len()),
        ),
{
    lemma_le_round_trip(bytes, pos, v, width);
    lemma_le_bytes_len(v, width);
}

/// Reading back a value of a primitive kind gives the value.
pub proof fn lemma_prim_round_trip(
    p: Prim,
    v: ValueView,
    table: TableView,
    ty: TypeRef,
    bytes: Seq<u8>,
    pos: int,
)
    requires
        prim_holds(p, v),
        value_within(v, 1),
        holds_at(bytes, pos, value_bytes(table, ty, v)),
    ensures
        parse_prim(p, bytes, pos) == Ok::<(ValueView, int), DecodeError>(
            (v, pos + value_bytes(table, ty, v).len()),
        ),
{
    lemma_pow256_values();
    let enc = value_bytes(table, ty, v);
    match v {
        ValueView::Bool(b) => {
            lemma_holds_at_index(bytes, pos, enc, 0);
        },
        ValueView::Nat(n) => {
            lemma_uleb_round_trip(bytes, pos, n);
        },
        ValueView::Int(n) => {
            lemma_sleb_round_trip(bytes, pos, n);
        },
        ValueView::Nat8(n) => {
            lemma_fixed_round_trip(bytes, pos, n as nat, 1);
        },
        ValueView::Nat16(n) => {
            lemma_fixed_round_trip(bytes, pos, n as nat, 2);
        },
        ValueView::Nat32(n) => {
            lemma_fixed_round_trip(bytes, pos, n as nat, 4);
        },
        ValueView::Nat64(n) => {
            lemma_fixed_round_trip(bytes, pos, n as nat, 8);
        },
        ValueView::Int8(n) => {
            lemma_signed_round_trip(n as int, 1);
            lemma_fixed_round_trip(bytes, pos, unsigned_of(n as int, 1), 1);
        },
        ValueView::Int16(n) => {
            lemma_signed_round_trip(n as int, 2);
            lemma_fixed_round_trip(bytes, pos, unsigned_of(n as int, 2), 2);
        },
        ValueView::Int32(n) => {
            lemma_signed_round_trip(n as int, 4);
            lemma_fixed_round_trip(bytes, pos, unsigned_of(n as int, 4), 4);
        },
        ValueView::Int64(n) => {
            lemma_signed_round_trip(n as int, 8);
            lemma_fixed_round_trip(bytes, pos, unsigned_of(n as int, 8), 8);
        },
        ValueView::Float32(bits) => {
            lemma_fixed_round_trip(bytes, pos, bits as nat, 4);
        },
        ValueView::Float64(bits) => {
            lemma_fixed_round_trip(bytes, pos, bits as nat, 8);
        },
        ValueView::Text(text) => {
            lemma_text_round_trip(bytes, pos, text);
        },
        ValueView::Principal(id) => {
            law_principal_round_trip(bytes, pos, id);
        },
        _ => {},
    }
}

proof fn lemma_func_value_round_trip(bytes: Seq<u8>, pos: int, id: Seq<u8>, method: Seq<char>)
    requires
        holds_at(bytes, pos, seq![1u8] + id_bytes(id) + text_bytes(method)),
        id.len() <= usize::MAX,
        encode_utf8(method).len() <= usize::MAX,
    ensures
        parse_func_value(bytes, pos) == Ok::<(ValueView, int), DecodeError>(
            (
                ValueView::Func(id, method),
                pos + (seq![1u8] + id_bytes(id) + text_bytes(method)).len(),
            ),
        ),
{
    let whole = seq![1u8] + id_bytes(id) + text_bytes(method);
    lemma_holds_at_split(bytes, pos, seq![1u8] + id_bytes(id), text_bytes(method));
    lemma_holds_at_split(bytes, pos, seq![1u8], id_bytes(id));
    lemma_holds_at_index(bytes, pos, whole, 0);
    lemma_id_round_trip(bytes, pos + 1, id);
    lemma_text_round_trip(bytes, pos + 1 + id_bytes(id).len(), method);
}

} // verus!

verus! {

/// Reading back a value that was written under the type `t`, as the type
/// `t`, gives the value and stops where its bytes end.
pub proof fn lemma_value_round_trip(
    table: TableView,
    t: TypeRef,
    v: ValueView,
    bytes: Seq<u8>,
    pos: int,
    depth: nat,
)
    requires
        table_well_formed(table),
        table_fits(table),
        ref_in_range(t, table.len()),
        conforms(table, t, v),
        value_within(v, depth),
        holds_at(bytes, pos, value_bytes(table, t, v)),
    ensures
        decode_value(table, t, table, t, bytes, pos, depth) == Ok::<(ValueView, int), DecodeError>(
            (v, pos + value_bytes(table, t, v).len()),
        ),
    decreases v, 1nat, 0nat,
{
    match t {
        TypeRef::Prim(p) => {
            lemma_prim_round_trip(p, v, table, t, bytes, pos);
        },
        TypeRef::Index(j) => {
            match table[j as int] {
                EntryView::Opt(_) => {
                    lemma_opt_round_trip(table, t, v, bytes, pos, depth);
                },
                EntryView::Vec(_) => {
                    lemma_vec_round_trip(table, t, v, bytes, pos, depth);
                },
                EntryView::Record(_) => {
                    lemma_record_round_trip(table, t, v, bytes, pos, depth);
                },
                EntryView::Variant(_) => {
                    lemma_variant_round_trip(table, t, v, bytes, pos, depth);
                },
                EntryView::Func { .. } => {
                    assert(written_entry(table, t) == Some((j, table[j as int])));
                    lemma_func_value_round_trip(bytes, pos, v->Func_0, v->Func_1);
                },
                EntryView::Service(_) => {
                    assert(written_entry(table, t) == Some((j, table[j as int])));
                    lemma_id_round_trip(bytes, pos, v->Service_0);
                },
            }
        },
    }
}

/// The round trip of an option.
proof fn lemma_opt_round_trip(
    table: TableView,
    t: TypeRef,
    v: ValueView,
    bytes: Seq<u8>,
    pos: int,
    depth: nat,
)
    requires
        table_well_formed(table),
        table_fits(table),
        ref_in_range(t, table.len()),
        conforms(table, t, v),
        value_within(v, depth),
        holds_at(bytes, pos, value_bytes(table, t, v)),
        t is Index,
        table[t->Index_0 as int] is Opt,
    ensures
        decode_value(table, t, table, t, bytes, pos, depth) == Ok::<(ValueView, int), DecodeError>(
            (v, pos + value_bytes(table, t, v).len()),
        ),
    decreases v, 0nat, 0nat,
{
    let enc = value_bytes(table, t, v);
    let d = (depth - 1) as nat;
    let j = t->Index_0;
    let entry = table[j as int];
    assert(written_entry(table, t) == Some((j, entry)));
    assert(entry_well_formed(entry, table.len()));
    assert(entry_fits(entry));
    let inner_ty = entry->Opt_0;
    lemma_holds_at_index(bytes, pos, enc, 0);
    if let ValueView::Opt(Some(inner)) = v {
        lemma_holds_at_split(bytes, pos, seq![1u8], value_bytes(table, inner_ty, *inner));
        law_compatible_reflexive(table, inner_ty);
        lemma_value_round_trip(table, inner_ty, *inner, bytes, pos + 1, d);
    }
    assert(decode_opt(table, t, table, inner_ty, bytes, pos, d) == Ok::<
        (ValueView, int),
        DecodeError,
    >((v, pos + enc.len())));
}

/// The round trip of a vector.
proof fn lemma_vec_round_trip(
    table: TableView,
    t: TypeRef,
    v: ValueView,
    bytes: Seq<u8>,
    pos: int,
    depth: nat,
)
    requires
        table_well_formed(table),
        table_fits(table),
        ref_in_range(t, table.len()),
        conforms(table, t, v),
        value_within(v, depth),
        holds_at(bytes, pos, value_bytes(table, t, v)),
        t is Index,
        table[t->Index_0 as int] is Vec,
    ensures
        decode_value(table, t, table, t, bytes, pos, depth) == Ok::<(ValueView, int), DecodeError>(
            (v, pos + value_bytes(table, t, v).len()),
        ),
    decreases v, 0nat, 0nat,
{
    let enc = value_bytes(table, t, v);
    let d = (depth - 1) as nat;
    let j = t->Index_0;
    let entry = table[j as int];
    assert(written_entry(table, t) == Some((j, entry)));
    assert(entry_well_formed(entry, table.len()));
    assert(entry_fits(entry));
    let item_ty = entry->Vec_0;
    let items = v->Vec_0;
    let head = uleb128(items.len());
    lemma_holds_at_split(bytes, pos, head, items_bytes(table, item_ty, items, 0));
    law_uleb_fits_or_overflows(bytes, pos, items.len(), usize::MAX as nat);
    lemma_items_round_trip(table, item_ty, items, 0, bytes, pos + head.len(), d);
    assert(items.subrange(0, items.len() as int) =~= items);
    assert(decode_vec(table, t, table, item_ty, bytes, pos, d) == Ok::<
        (ValueView, int),
        DecodeError,
    >((v, pos + enc.len())));
}

/// The round trip of a record.
proof fn lemma_record_round_trip(
    table: TableView,
    t: TypeRef,
    v: ValueView,
    bytes: Seq<u8>,
    pos: int,
    depth: nat,
)
    requires
        table_well_formed(table),
        table_fits(table),
        ref_in_range(t, table.len()),
        conforms(table, t, v),
        value_within(v, depth),
        holds_at(bytes, pos, value_bytes(table, t, v)),
        t is Index,
        table[t->Index_0 as int] is Record,
    ensures
        decode_value(table, t, table, t, bytes, pos, depth) == Ok::<(ValueView, int), DecodeError>(
            (v, pos + value_bytes(table, t, v).len()),
        ),
    decreases v, 0nat, 0nat,
{
    let enc = value_bytes(table, t, v);
    let d = (depth - 1) as nat;
    let j = t->Index_0;
    let entry = table[j as int];
    assert(written_entry(table, t) == Some((j, entry)));
    assert(entry_well_formed(entry, table.len()));
    assert(entry_fits(entry));
    let fields = entry->Record_0;
    let members = v->Record_0;
    lemma_members_round_trip(table, j, fields, members, 0, bytes, pos, d);
    assert(members.subrange(0, members.len() as int) =~= members);
    assert(decode_record(table, t, table, fields, bytes, pos, d) == Ok::<
        (ValueView, int),
        DecodeError,
    >((v, pos + enc.len())));
}

/// The round trip of a variant.
proof fn lemma_variant_round_trip(
    table: TableView,
    t: TypeRef,
    v: ValueView,
    bytes: Seq<u8>,
    pos: int,
    depth: nat,
)
    requires
        table_well_formed(table),
        table_fits(table),
        ref_in_range(t, table.len()),
        conforms(table, t, v),
        value_within(v, depth),
        holds_at(bytes, pos, value_bytes(table, t, v)),
        t is Index,
        table[t->Index_0 as int] is Variant,
    ensures
        decode_value(table, t, table, t, bytes, pos, depth) == Ok::<(ValueView, int), DecodeError>(
            (v, pos + value_bytes(table, t, v).len()),
        ),
    decreases v, 0nat, 0nat,
{
    let enc = value_bytes(table, t, v);
    let d = (depth - 1) as nat;
    let j = t->Index_0;
    let entry = table[j as int];
    assert(written_entry(table, t) == Some((j, entry)));
    assert(entry_well_formed(entry, table.len()));
    assert(entry_fits(entry));
    let fields = entry->Variant_0;
    let key = v->Variant_0;
    let payload = v->Variant_1;
    let idx = find_key(fields, key)->Some_0;
    lemma_find_key_from(fields, key, 0);
    lemma_find_key_ascend(fields, idx);
    let head = uleb128(idx as nat);
    lemma_holds_at_split(bytes, pos, head, value_bytes(table, fields[idx].ty, *payload));
    law_uleb_fits_or_overflows(bytes, pos, idx as nat, usize::MAX as nat);
    law_compatible_reflexive(table, fields[idx].ty);
    lemma_value_round_trip(table, fields[idx].ty, *payload, bytes, pos + head.len(), d);
    assert(decode_variant(table, t, table, fields, bytes, pos, d) == Ok::<
        (ValueView, int),
        DecodeError,
    >((v, pos + enc.len())));
}

/// Reading back the items of a vector from the `from`-th on gives them.
pub proof fn lemma_items_round_trip(
    table: TableView,
    t: TypeRef,
    items: Seq<ValueView>,
    from: int,
    bytes: Seq<u8>,
    pos: int,
    depth: nat,
)
    requires
        table_well_formed(table),
        table_fits(table),
        ref_in_range(t, table.len()),
        0 <= from <= items.len(),
        forall|k: int| 0 <= k < items.len() ==> conforms(table, t, #[trigger] items[k]),
        forall|k: int| 0 <= k < items.len() ==> value_within(#[trigger] items[k], depth),
        holds_at(bytes, pos, items_bytes(table, t, items, from)),
    ensures
        decode_items(table, t, table, t, bytes, pos, (items.len() - from) as nat, depth) == Ok::<
            (Seq<ValueView>, int),
            DecodeError,
        >(
            (
                items.subrange(from, items.len() as int),
                pos + items_bytes(table, t, items, from).len(),
            ),
        ),
    decreases items, 2nat, items.len() - from,
{
    if from < items.len() {
        let first = value_bytes(table, t, items[from]);
        let rest = items_bytes(table, t, items, from + 1);
        lemma_holds_at_split(bytes, pos, first, rest);
        lemma_value_round_trip(table, t, items[from], bytes, pos, depth);
        lemma_items_round_trip(table, t, items, from + 1, bytes, pos + first.len(), depth);
        assert(seq![items[from]] + items.subrange(from + 1, items.len() as int)
            =~= items.subrange(from, items.len() as int));
    } else {
        assert(items.subrange(from, items.len() as int) =~= Seq::<ValueView>::empty());
    }
}

/// Reading back the members of a record from the `from`-th on gives them.
pub proof fn lemma_members_round_trip(
    table: TableView,
    i: usize,
    fields: Seq<FieldRef>,
    members: Seq<FieldView>,
    from: int,
    bytes: Seq<u8>,
    pos: int,
    depth: nat,
)
    requires
        table_well_formed(table),
        table_fits(table),
        crate::types::fields_in_range(fields, table.len()),
        keys_ascend(fields),
        members.len() == fields.len(),
        0 <= from <= members.len(),
        forall|k: int|
            0 <= k < members.len() ==> (#[trigger] members[k]).key == fields[k].key && conforms(
                table,
                fields[k].ty,
                members[k].value,
            ),
        forall|k: int| 0 <= k < members.len() ==> value_within((#[trigger] members[k]).value, depth),
        holds_at(bytes, pos, members_bytes(table, fields, members, from)),
    ensures
        decode_fields(table, i, fields, table, fields, bytes, pos, from, from, depth) == Ok::<
            (Seq<FieldView>, int),
            DecodeError,
        >(
            (
                members.subrange(from, members.len() as int),
                pos + members_bytes(table, fields, members, from).len(),
            ),
        ),
    decreases members, 2nat, members.len() - from,
{
    if from < members.len() {
        let first = value_bytes(table, fields[from].ty, members[from].value);
        let rest = members_bytes(table, fields, members, from + 1);
        lemma_holds_at_split(bytes, pos, first, rest);
        assert(ref_in_range(fields[from].ty, table.len()));
        lemma_value_round_trip(table, fields[from].ty, members[from].value, bytes, pos, depth);
        lemma_members_round_trip(
            table,
            i,
            fields,
            members,
            from + 1,
            bytes,
            pos + first.len(),
            depth,
        );
        assert(seq![FieldView { key: fields[from].key, value: members[from].value }]
            + members.subrange(from + 1, members.len() as int) =~= members.subrange(
            from,
            members.len() as int,
        ));
    } else {
        assert(members.subrange(from, members.len() as int) =~= Seq::<FieldView>::empty());
    }
}

} // verus!
