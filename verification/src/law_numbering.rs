//! The table of given types is well formed, so what is written under it can
//! be read back.

use vstd::prelude::*;
use crate::builder::lemma_entry_stays_well_formed;
use crate::de::deserialize_spec;
use crate::error::DecodeError;
use crate::graph::{Field, Method, Type};
use crate::law_message::law_round_trip;
use crate::law_table::table_fits;
use crate::law_value::value_within;
use crate::numbering::{
    add_fields_spec, add_list_spec, add_methods_spec, add_type_spec, build_entry_spec,
    empty_table, reserved, table_of, with_entry, with_place, Flat,
};
use crate::ser::{args_conform, message_bytes};
use crate::types::{
    entry_well_formed, fields_in_range, keys_ascend, methods_in_range, ref_in_range, refs_in_range,
    table_well_formed, EntryView, FieldRef, MethodView, TypeRef,
};
use crate::value::ValueView;

verus! {

/// No step takes an entry away.
proof fn lemma_add_type_grows(env: Seq<Type>, st: Flat, ty: Type, fuel: nat)
    requires
        add_type_spec(env, st, ty, fuel) is Some,
    ensures
        st.entries.len() <= add_type_spec(env, st, ty, fuel)->Some_0.0.entries.len(),
    decreases fuel, ty, 1nat, 0nat,
{
    match ty {
        Type::Prim(_) => {},
        Type::Reference(i) => {
            if st.places[i as int] is None {
                let target = crate::builder::resolve_spec(env, ty, env.len())->Some_0;
                if !(target is Prim) {
                    let (st1, k, fresh) = reserved(st, target);
                    let st2 = with_place(st1, i as int, TypeRef::Index(k));
                    if fresh {
                        lemma_build_entry_grows(env, st2, target, (fuel - 1) as nat);
                    }
                }
            }
        },
        _ => {
            let (st1, k, fresh) = reserved(st, ty);
            if fresh {
                lemma_build_entry_grows(env, st1, ty, fuel);
            }
        },
    }
}

proof fn lemma_build_entry_grows(env: Seq<Type>, st: Flat, ty: Type, fuel: nat)
    requires
        build_entry_spec(env, st, ty, fuel) is Some,
    ensures
        st.entries.len() <= build_entry_spec(env, st, ty, fuel)->Some_0.0.entries.len(),
    decreases fuel, ty, 0nat, 0nat,
{
    match ty {
        Type::Opt(t) => {
            lemma_add_type_grows(env, st, *t, fuel);
        },
        Type::Vec(t) => {
            lemma_add_type_grows(env, st, *t, fuel);
        },
        Type::Record(fields) => {
            lemma_add_fields_grows(env, st, fields@, 0, fuel);
        },
        Type::Variant(fields) => {
            lemma_add_fields_grows(env, st, fields@, 0, fuel);
        },
        Type::Func { args, rets, modes } => {
            lemma_add_list_grows(env, st, args@, 0, fuel);
            let st1 = add_list_spec(env, st, args@, 0, fuel)->Some_0.0;
            lemma_add_list_grows(env, st1, rets@, 0, fuel);
        },
        Type::Service(methods) => {
            lemma_add_methods_grows(env, st, methods@, 0, fuel);
        },
        _ => {},
    }
}

proof fn lemma_add_list_grows(env: Seq<Type>, st: Flat, list: Seq<Type>, from: int, fuel: nat)
    requires
        add_list_spec(env, st, list, from, fuel) is Some,
    ensures
        st.entries.len() <= add_list_spec(env, st, list, from, fuel)->Some_0.0.entries.len(),
    decreases fuel, list, 0nat, list.len() - from,
{
    if 0 <= from < list.len() {
        lemma_add_type_grows(env, st, list[from], fuel);
        let st1 = add_type_spec(env, st, list[from], fuel)->Some_0.0;
        lemma_add_list_grows(env, st1, list, from + 1, fuel);
    }
}

proof fn lemma_add_fields_grows(env: Seq<Type>, st: Flat, fields: Seq<Field>, from: int, fuel: nat)
    requires
        add_fields_spec(env, st, fields, from, fuel) is Some,
    ensures
        st.entries.len() <= add_fields_spec(env, st, fields, from, fuel)->Some_0.0.entries.len(),
    decreases fuel, fields, 0nat, fields.len() - from,
{
    if 0 <= from < fields.len() {
        lemma_add_type_grows(env, st, fields[from].ty, fuel);
        let st1 = add_type_spec(env, st, fields[from].ty, fuel)->Some_0.0;
        lemma_add_fields_grows(env, st1, fields, from + 1, fuel);
    }
}

proof fn lemma_add_methods_grows(
    env: Seq<Type>,
    st: Flat,
    methods: Seq<Method>,
    from: int,
    fuel: nat,
)
    requires
        add_methods_spec(env, st, methods, from, fuel) is Some,
    ensures
        st.entries.len() <= add_methods_spec(env, st, methods, from, fuel)->Some_0.0.entries.len(),
    decreases fuel, methods, 0nat, methods.len() - from,
{
    if 0 <= from < methods.len() {
        lemma_add_type_grows(env, st, methods[from].ty, fuel);
        let st1 = add_type_spec(env, st, methods[from].ty, fuel)->Some_0.0;
        lemma_add_methods_grows(env, st1, methods, from + 1, fuel);
    }
}

/// Every entry refers only to entries that exist, and so does the place of
/// every definition.
pub open spec fn flat_ok(st: Flat, definitions: nat) -> bool {
    &&& st.shapes.len() == st.entries.len()
    &&& st.places.len() == definitions
    &&& forall|k: int|
        0 <= k < st.entries.len() ==> entry_well_formed(#[trigger] st.entries[k], st.entries.len())
    &&& forall|i: int|
        0 <= i < st.places.len() ==> ((#[trigger] st.places[i]) matches Some(r) ==> ref_in_range(
            r,
            st.entries.len(),
        ))
}

proof fn lemma_reserved_ok(st: Flat, ty: Type, definitions: nat)
    requires
        flat_ok(st, definitions),
        reserved(st, ty).0.entries.len() <= usize::MAX,
    ensures
        flat_ok(reserved(st, ty).0, definitions),
        reserved(st, ty).1 < reserved(st, ty).0.entries.len(),
        reserved(st, ty).2 ==> reserved(st, ty).1 == st.entries.len(),
{
    let (st1, k, fresh) = reserved(st, ty);
    if fresh {
        assert forall|x: int| 0 <= x < st1.entries.len() implies entry_well_formed(
            #[trigger] st1.entries[x],
            st1.entries.len(),
        ) by {
            if x < st.entries.len() {
                lemma_entry_stays_well_formed(st.entries[x], st.entries.len(), st1.entries.len());
            }
        }
    } else {
        lemma_find_shape_bound(st.shapes, ty, 0);
    }
}

proof fn lemma_find_shape_bound(shapes: Seq<Type>, ty: Type, from: int)
    requires
        0 <= from,
    ensures
        crate::numbering::find_shape_from(shapes, ty, from) matches Some(k) ==> from <= k
            < shapes.len(),
    decreases shapes.len() - from,
{
    if from < shapes.len() && !crate::builder::same_shape(shapes[from], ty) {
        lemma_find_shape_bound(shapes, ty, from + 1);
    }
}

proof fn lemma_with_entry_ok(st: Flat, k: int, entry: EntryView, definitions: nat)
    requires
        flat_ok(st, definitions),
        0 <= k < st.entries.len(),
        entry_well_formed(entry, st.entries.len()),
    ensures
        flat_ok(with_entry(st, k, entry), definitions),
{
}

proof fn lemma_add_type_ok(env: Seq<Type>, st: Flat, ty: Type, fuel: nat)
    requires
        flat_ok(st, env.len()),
        add_type_spec(env, st, ty, fuel) is Some,
        add_type_spec(env, st, ty, fuel)->Some_0.0.entries.len() <= usize::MAX,
    ensures
        flat_ok(add_type_spec(env, st, ty, fuel)->Some_0.0, env.len()),
        ref_in_range(
            add_type_spec(env, st, ty, fuel)->Some_0.1,
            add_type_spec(env, st, ty, fuel)->Some_0.0.entries.len(),
        ),
    decreases fuel, ty, 1nat, 0nat,
{
    lemma_add_type_grows(env, st, ty, fuel);
    match ty {
        Type::Prim(_) => {},
        Type::Reference(i) => {
            if st.places[i as int] is None {
                let target = crate::builder::resolve_spec(env, ty, env.len())->Some_0;
                if !(target is Prim) {
                    let (st1, k, fresh) = reserved(st, target);
                    let st2 = with_place(st1, i as int, TypeRef::Index(k));
                    if fresh {
                        lemma_build_entry_grows(env, st2, target, (fuel - 1) as nat);
                    }
                    lemma_reserved_ok(st, target, env.len());
                    if fresh {
                        lemma_build_entry_ok(env, st2, target, (fuel - 1) as nat);
                        let (st3, entry) = build_entry_spec(
                            env,
                            st2,
                            target,
                            (fuel - 1) as nat,
                        )->Some_0;
                        lemma_with_entry_ok(st3, k as int, entry, env.len());
                    }
                }
            }
        },
        _ => {
            let (st1, k, fresh) = reserved(st, ty);
            if fresh {
                lemma_build_entry_grows(env, st1, ty, fuel);
            }
            lemma_reserved_ok(st, ty, env.len());
            if fresh {
                lemma_build_entry_ok(env, st1, ty, fuel);
                let (st2, entry) = build_entry_spec(env, st1, ty, fuel)->Some_0;
                lemma_with_entry_ok(st2, k as int, entry, env.len());
            }
        },
    }
}

proof fn lemma_build_entry_ok(env: Seq<Type>, st: Flat, ty: Type, fuel: nat)
    requires
        flat_ok(st, env.len()),
        build_entry_spec(env, st, ty, fuel) is Some,
        build_entry_spec(env, st, ty, fuel)->Some_0.0.entries.len() <= usize::MAX,
    ensures
        flat_ok(build_entry_spec(env, st, ty, fuel)->Some_0.0, env.len()),
        entry_well_formed(
            build_entry_spec(env, st, ty, fuel)->Some_0.1,
            build_entry_spec(env, st, ty, fuel)->Some_0.0.entries.len(),
        ),
    decreases fuel, ty, 0nat, 0nat,
{
    match ty {
        Type::Opt(t) => {
            lemma_add_type_ok(env, st, *t, fuel);
        },
        Type::Vec(t) => {
            lemma_add_type_ok(env, st, *t, fuel);
        },
        Type::Record(fields) => {
            lemma_add_fields_ok(env, st, fields@, 0, fuel);
            lemma_keys_ascend(add_fields_spec(env, st, fields@, 0, fuel)->Some_0.1, fields@);
        },
        Type::Variant(fields) => {
            lemma_add_fields_ok(env, st, fields@, 0, fuel);
            lemma_keys_ascend(add_fields_spec(env, st, fields@, 0, fuel)->Some_0.1, fields@);
        },
        Type::Func { args, rets, modes } => {
            let (st1, oa) = add_list_spec(env, st, args@, 0, fuel)->Some_0;
            let (st2, or) = add_list_spec(env, st1, rets@, 0, fuel)->Some_0;
            lemma_add_list_grows(env, st1, rets@, 0, fuel);
            lemma_add_list_ok(env, st, args@, 0, fuel);
            lemma_add_list_ok(env, st1, rets@, 0, fuel);
            assert forall|k: int| 0 <= k < oa.len() implies ref_in_range(
                #[trigger] oa[k],
                st2.entries.len(),
            ) by {
                assert(ref_in_range(oa[k], st1.entries.len()));
            }
        },
        Type::Service(methods) => {
            lemma_add_methods_ok(env, st, methods@, 0, fuel);
            let out = add_methods_spec(env, st, methods@, 0, fuel)->Some_0.1;
            assert forall|a: int, b: int| 0 <= a < b < out.len() implies out[a].name
                != out[b].name by {
                assert(out[a].name == methods@[a].name@);
                assert(out[b].name == methods@[b].name@);
            }
        },
        _ => {},
    }
}

proof fn lemma_keys_ascend(out: Seq<FieldRef>, fields: Seq<Field>)
    requires
        out.len() == fields.len(),
        forall|j: int| 0 <= j < out.len() ==> (#[trigger] out[j]).key == fields[j].key,
        forall|j: int| 0 < j < fields.len() ==> fields[j - 1].key < (#[trigger] fields[j]).key,
    ensures
        keys_ascend(out),
{
    assert forall|a: int, b: int| 0 <= a < b < out.len() implies out[a].key < out[b].key by {
        lemma_ascend_between(fields, a, b);
    }
}

proof fn lemma_ascend_between(fields: Seq<Field>, a: int, b: int)
    requires
        0 <= a < b < fields.len(),
        forall|j: int| 0 < j < fields.len() ==> fields[j - 1].key < (#[trigger] fields[j]).key,
    ensures
        fields[a].key < fields[b].key,
    decreases b - a,
{
    assert(fields[b - 1].key < fields[b].key);
    if a < b - 1 {
        lemma_ascend_between(fields, a, b - 1);
    }
}

proof fn lemma_add_list_ok(env: Seq<Type>, st: Flat, list: Seq<Type>, from: int, fuel: nat)
    requires
        flat_ok(st, env.len()),
        0 <= from <= list.len(),
        add_list_spec(env, st, list, from, fuel) is Some,
        add_list_spec(env, st, list, from, fuel)->Some_0.0.entries.len() <= usize::MAX,
    ensures
        flat_ok(add_list_spec(env, st, list, from, fuel)->Some_0.0, env.len()),
        add_list_spec(env, st, list, from, fuel)->Some_0.1.len() == list.len() - from,
        refs_in_range(
            add_list_spec(env, st, list, from, fuel)->Some_0.1,
            add_list_spec(env, st, list, from, fuel)->Some_0.0.entries.len(),
        ),
    decreases fuel, list, 0nat, list.len() - from,
{
    if from < list.len() {
        let (st1, r) = add_type_spec(env, st, list[from], fuel)->Some_0;
        let (st2, rest) = add_list_spec(env, st1, list, from + 1, fuel)->Some_0;
        lemma_add_list_grows(env, st1, list, from + 1, fuel);
        lemma_add_type_ok(env, st, list[from], fuel);
        lemma_add_list_ok(env, st1, list, from + 1, fuel);
        let out = seq![r] + rest;
        assert forall|k: int| 0 <= k < out.len() implies ref_in_range(
            #[trigger] out[k],
            st2.entries.len(),
        ) by {
            if k > 0 {
                assert(out[k] == rest[k - 1]);
            }
        }
    }
}

proof fn lemma_add_fields_ok(env: Seq<Type>, st: Flat, fields: Seq<Field>, from: int, fuel: nat)
    requires
        flat_ok(st, env.len()),
        0 <= from <= fields.len(),
        add_fields_spec(env, st, fields, from, fuel) is Some,
        add_fields_spec(env, st, fields, from, fuel)->Some_0.0.entries.len() <= usize::MAX,
    ensures
        flat_ok(add_fields_spec(env, st, fields, from, fuel)->Some_0.0, env.len()),
        add_fields_spec(env, st, fields, from, fuel)->Some_0.1.len() == fields.len() - from,
        fields_in_range(
            add_fields_spec(env, st, fields, from, fuel)->Some_0.1,
            add_fields_spec(env, st, fields, from, fuel)->Some_0.0.entries.len(),
        ),
        forall|j: int|
            0 <= j < fields.len() - from ==> (#[trigger] add_fields_spec(
                env,
                st,
                fields,
                from,
                fuel,
            )->Some_0.1[j]).key == fields[from + j].key,
        forall|j: int|
            from < j < fields.len() && 0 < j ==> fields[j - 1].key < (#[trigger] fields[j]).key,
        from < fields.len() && 0 < from ==> fields[from - 1].key < fields[from].key,
    decreases fuel, fields, 0nat, fields.len() - from,
{
    if from < fields.len() {
        let (st1, r) = add_type_spec(env, st, fields[from].ty, fuel)->Some_0;
        let (st2, rest) = add_fields_spec(env, st1, fields, from + 1, fuel)->Some_0;
        lemma_add_fields_grows(env, st1, fields, from + 1, fuel);
        lemma_add_type_ok(env, st, fields[from].ty, fuel);
        lemma_add_fields_ok(env, st1, fields, from + 1, fuel);
        let out = seq![FieldRef { key: fields[from].key, ty: r }] + rest;
        assert forall|k: int| 0 <= k < out.len() implies ref_in_range(
            (#[trigger] out[k]).ty,
            st2.entries.len(),
        ) by {
            if k > 0 {
                assert(out[k] == rest[k - 1]);
            }
        }
        assert forall|j: int| 0 <= j < fields.len() - from implies (#[trigger] out[j]).key
            == fields[from + j].key by {
            if j > 0 {
                assert(out[j] == rest[j - 1]);
            }
        }
    }
}

proof fn lemma_add_methods_ok(
    env: Seq<Type>,
    st: Flat,
    methods: Seq<Method>,
    from: int,
    fuel: nat,
)
    requires
        flat_ok(st, env.len()),
        0 <= from <= methods.len(),
        add_methods_spec(env, st, methods, from, fuel) is Some,
        add_methods_spec(env, st, methods, from, fuel)->Some_0.0.entries.len() <= usize::MAX,
    ensures
        flat_ok(add_methods_spec(env, st, methods, from, fuel)->Some_0.0, env.len()),
        add_methods_spec(env, st, methods, from, fuel)->Some_0.1.len() == methods.len() - from,
        methods_in_range(
            add_methods_spec(env, st, methods, from, fuel)->Some_0.1,
            add_methods_spec(env, st, methods, from, fuel)->Some_0.0.entries.len(),
        ),
        forall|j: int|
            0 <= j < methods.len() - from ==> (#[trigger] add_methods_spec(
                env,
                st,
                methods,
                from,
                fuel,
            )->Some_0.1[j]).name == methods[from + j].name@,
    decreases fuel, methods, 0nat, methods.len() - from,
{
    if from < methods.len() {
        let (st1, r) = add_type_spec(env, st, methods[from].ty, fuel)->Some_0;
        let (st2, rest) = add_methods_spec(env, st1, methods, from + 1, fuel)->Some_0;
        lemma_add_methods_grows(env, st1, methods, from + 1, fuel);
        lemma_add_type_ok(env, st, methods[from].ty, fuel);
        lemma_add_methods_ok(env, st1, methods, from + 1, fuel);
        let out = seq![MethodView { name: methods[from].name@, ty: r }] + rest;
        assert forall|k: int| 0 <= k < out.len() implies ref_in_range(
            (#[trigger] out[k]).ty,
            st2.entries.len(),
        ) by {
            if k > 0 {
                assert(out[k] == rest[k - 1]);
            }
        }
        assert forall|j: int| 0 <= j < methods.len() - from implies (#[trigger] out[j]).name
            == methods[from + j].name@ by {
            if j > 0 {
                assert(out[j] == rest[j - 1]);
            }
        }
    }
}

/// The table of given types is well formed, and names each of the types by
/// a primitive kind or by one of its entries.
pub proof fn law_table_of_well_formed(env: Seq<Type>, types: Seq<Type>)
    requires
        table_of(env, types) is Some,
        table_of(env, types)->Some_0.0.len() <= usize::MAX,
    ensures
        table_well_formed(table_of(env, types)->Some_0.0),
        refs_in_range(table_of(env, types)->Some_0.1, table_of(env, types)->Some_0.0.len()),
        table_of(env, types)->Some_0.1.len() == types.len(),
{
    lemma_add_list_ok(env, empty_table(env.len()), types, 0, env.len());
}

/// Round trip under types given as trees: values that have the shapes of
/// their types, written under the table of the types and read back as the
/// same types, are the values that were written. The table and the values are
/// of a size that a machine can hold, and the reader may descend as deep as
/// the values are nested.
pub proof fn law_round_trip_under_types(
    env: Seq<Type>,
    types: Seq<Type>,
    values: Seq<ValueView>,
    depth: nat,
)
    requires
        table_of(env, types) is Some,
        table_fits(table_of(env, types)->Some_0.0),
        types.len() <= usize::MAX,
        args_conform(table_of(env, types)->Some_0.0, table_of(env, types)->Some_0.1, values),
        forall|k: int| 0 <= k < values.len() ==> value_within(#[trigger] values[k], depth),
    ensures
        deserialize_spec(
            message_bytes(table_of(env, types)->Some_0.0, table_of(env, types)->Some_0.1, values),
            table_of(env, types)->Some_0.0,
            table_of(env, types)->Some_0.1,
            depth,
        ) == Ok::<Seq<ValueView>, DecodeError>(values),
{
    law_table_of_well_formed(env, types);
    let (table, refs) = table_of(env, types)->Some_0;
    law_round_trip(table, refs, values, depth);
}

/// Round trip under types given as trees, where the reader sets no bound of
/// its own. The table and the values are such as a machine can hold.
pub proof fn law_round_trip_under_types_unbounded(
    env: Seq<Type>,
    types: Seq<Type>,
    values: Seq<ValueView>,
)
    requires
        table_of(env, types) is Some,
        table_fits(table_of(env, types)->Some_0.0),
        types.len() <= usize::MAX,
        args_conform(table_of(env, types)->Some_0.0, table_of(env, types)->Some_0.1, values),
        forall|k: int|
            0 <= k < values.len() ==> value_within(#[trigger] values[k], usize::MAX as nat),
    ensures
        deserialize_spec(
            message_bytes(table_of(env, types)->Some_0.0, table_of(env, types)->Some_0.1, values),
            table_of(env, types)->Some_0.0,
            table_of(env, types)->Some_0.1,
            usize::MAX as nat,
        ) == Ok::<Seq<ValueView>, DecodeError>(values),
{
    law_round_trip_under_types(env, types, values, usize::MAX as nat);
}

} // verus!
