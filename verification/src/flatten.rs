//! What it means for a table to be the flat form of types given as trees.

use vstd::prelude::*;
use crate::builder::{resolve_spec, same_shape};
use crate::graph::{Field, Method, Type};
use crate::types::{EntryView, FieldRef, MethodView, TableView, TypeRef};

verus! {

/// Whether a type is one that gets a table entry: not a primitive kind and
/// not a reference.
pub open spec fn is_composite(t: Type) -> bool {
    !(t is Prim) && !(t is Reference)
}

/// Whether `r` is how the table names the type `c`. A primitive kind is
/// named by itself, a reference by the place of its definition, and a
/// composite type by the index of the entry that was made for the same tree.
/// `shapes` holds, for each entry, the type that it was made for, and
/// `places`, for each definition, how the table names it.
pub open spec fn names(
    shapes: Seq<Type>,
    places: Seq<Option<TypeRef>>,
    c: Type,
    r: TypeRef,
) -> bool {
    match c {
        Type::Prim(p) => r == TypeRef::Prim(p),
        Type::Reference(i) => i < places.len() && places[i as int] == Some(r),
        _ => r matches TypeRef::Index(k) && k < shapes.len() && same_shape(shapes[k as int], c),
    }
}

/// Whether the entry is the flat form of the composite type `c`: of the same
/// kind, with the same keys, names and call modes, and with each part of `c`
/// named as the table names it.
pub open spec fn describes(
    shapes: Seq<Type>,
    places: Seq<Option<TypeRef>>,
    entry: EntryView,
    c: Type,
) -> bool {
    match c {
        Type::Opt(t) => entry matches EntryView::Opt(r) && names(shapes, places, *t, r),
        Type::Vec(t) => entry matches EntryView::Vec(r) && names(shapes, places, *t, r),
        Type::Record(fields) => entry matches EntryView::Record(out) && fields_described(
            shapes,
            places,
            out,
            fields@,
        ),
        Type::Variant(fields) => entry matches EntryView::Variant(out) && fields_described(
            shapes,
            places,
            out,
            fields@,
        ),
        Type::Func { args, rets, modes } => entry matches EntryView::Func {
            args: oa,
            rets: or,
            modes: om,
        } && om == modes@ && list_described(shapes, places, oa, args@) && list_described(
            shapes,
            places,
            or,
            rets@,
        ),
        Type::Service(methods) => entry matches EntryView::Service(out) && methods_described(
            shapes,
            places,
            out,
            methods@,
        ),
        _ => false,
    }
}

pub open spec fn fields_described(
    shapes: Seq<Type>,
    places: Seq<Option<TypeRef>>,
    out: Seq<FieldRef>,
    fields: Seq<Field>,
) -> bool {
    out.len() == fields.len() && forall|k: int|
        0 <= k < out.len() ==> (#[trigger] out[k]).key == fields[k].key && names(
            shapes,
            places,
            fields[k].ty,
            out[k].ty,
        )
}

pub open spec fn list_described(
    shapes: Seq<Type>,
    places: Seq<Option<TypeRef>>,
    out: Seq<TypeRef>,
    list: Seq<Type>,
) -> bool {
    out.len() == list.len() && forall|k: int|
        0 <= k < out.len() ==> names(shapes, places, list[k], #[trigger] out[k])
}

pub open spec fn methods_described(
    shapes: Seq<Type>,
    places: Seq<Option<TypeRef>>,
    out: Seq<MethodView>,
    methods: Seq<Method>,
) -> bool {
    out.len() == methods.len() && forall|k: int|
        0 <= k < out.len() ==> (#[trigger] out[k]).name == methods[k].name@ && names(
            shapes,
            places,
            methods[k].ty,
            out[k].ty,
        )
}

/// Whether `r` is a right place for the `i`-th definition: how the table
/// names the type that the definition stands for once references to
/// references are followed.
pub open spec fn placed(
    env: Seq<Type>,
    shapes: Seq<Type>,
    places: Seq<Option<TypeRef>>,
    i: int,
    r: TypeRef,
) -> bool {
    match resolve_spec(env, Type::Reference(i as usize), env.len()) {
        Some(t) => !(t is Reference) && names(shapes, places, t, r),
        None => false,
    }
}

/// Whether the entries are the flat forms of the types they were made for.
/// Each entry was made for a composite type, no two for the same tree, and
/// each definition that has a place has a right one. The entries at
/// `pending` are still being put together and need not be right yet.
pub open spec fn faithful(
    env: Seq<Type>,
    entries: TableView,
    shapes: Seq<Type>,
    places: Seq<Option<TypeRef>>,
    pending: Set<int>,
) -> bool {
    &&& shapes.len() == entries.len()
    &&& places.len() == env.len()
    &&& forall|k: int| 0 <= k < shapes.len() ==> is_composite(#[trigger] shapes[k])
    &&& forall|a: int, b: int| 0 <= a < b < shapes.len() ==> !same_shape(shapes[a], shapes[b])
    &&& forall|k: int|
        0 <= k < entries.len() && !pending.contains(k) ==> describes(
            shapes,
            places,
            #[trigger] entries[k],
            shapes[k],
        )
    &&& forall|i: int|
        0 <= i < places.len() ==> ((#[trigger] places[i]) matches Some(r) ==> placed(
            env,
            shapes,
            places,
            i,
            r,
        ))
}

/// Entries were added and definitions placed, and nothing was taken back.
pub open spec fn grows(
    old_shapes: Seq<Type>,
    old_places: Seq<Option<TypeRef>>,
    new_shapes: Seq<Type>,
    new_places: Seq<Option<TypeRef>>,
) -> bool {
    &&& old_shapes.len() <= new_shapes.len()
    &&& forall|k: int| 0 <= k < old_shapes.len() ==> #[trigger] new_shapes[k] == old_shapes[k]
    &&& old_places.len() == new_places.len()
    &&& forall|i: int| 0 <= i < old_places.len() && (#[trigger] old_places[i]) is Some ==> new_places[i] == old_places[i]
}

pub proof fn lemma_names_grows(
    old_shapes: Seq<Type>,
    old_places: Seq<Option<TypeRef>>,
    new_shapes: Seq<Type>,
    new_places: Seq<Option<TypeRef>>,
    c: Type,
    r: TypeRef,
)
    requires
        grows(old_shapes, old_places, new_shapes, new_places),
        names(old_shapes, old_places, c, r),
    ensures
        names(new_shapes, new_places, c, r),
{
    match c {
        Type::Prim(_) => {},
        Type::Reference(i) => {
            assert(old_places[i as int] is Some);
        },
        _ => {
            let k = r->Index_0;
            assert(new_shapes[k as int] == old_shapes[k as int]);
        },
    }
}

pub proof fn lemma_fields_described_grows(
    old_shapes: Seq<Type>,
    old_places: Seq<Option<TypeRef>>,
    new_shapes: Seq<Type>,
    new_places: Seq<Option<TypeRef>>,
    out: Seq<FieldRef>,
    fields: Seq<Field>,
)
    requires
        grows(old_shapes, old_places, new_shapes, new_places),
        fields_described(old_shapes, old_places, out, fields),
    ensures
        fields_described(new_shapes, new_places, out, fields),
{
    assert forall|k: int| 0 <= k < out.len() implies (#[trigger] out[k]).key == fields[k].key
        && names(new_shapes, new_places, fields[k].ty, out[k].ty) by {
        lemma_names_grows(old_shapes, old_places, new_shapes, new_places, fields[k].ty, out[k].ty);
    }
}

pub proof fn lemma_list_described_grows(
    old_shapes: Seq<Type>,
    old_places: Seq<Option<TypeRef>>,
    new_shapes: Seq<Type>,
    new_places: Seq<Option<TypeRef>>,
    out: Seq<TypeRef>,
    list: Seq<Type>,
)
    requires
        grows(old_shapes, old_places, new_shapes, new_places),
        list_described(old_shapes, old_places, out, list),
    ensures
        list_described(new_shapes, new_places, out, list),
{
    assert forall|k: int| 0 <= k < out.len() implies names(new_shapes, new_places, list[k], #[trigger] out[k]) by {
        lemma_names_grows(old_shapes, old_places, new_shapes, new_places, list[k], out[k]);
    }
}

pub proof fn lemma_methods_described_grows(
    old_shapes: Seq<Type>,
    old_places: Seq<Option<TypeRef>>,
    new_shapes: Seq<Type>,
    new_places: Seq<Option<TypeRef>>,
    out: Seq<MethodView>,
    methods: Seq<Method>,
)
    requires
        grows(old_shapes, old_places, new_shapes, new_places),
        methods_described(old_shapes, old_places, out, methods),
    ensures
        methods_described(new_shapes, new_places, out, methods),
{
    assert forall|k: int| 0 <= k < out.len() implies (#[trigger] out[k]).name
        == methods[k].name@ && names(new_shapes, new_places, methods[k].ty, out[k].ty) by {
        lemma_names_grows(old_shapes, old_places, new_shapes, new_places, methods[k].ty, out[k].ty);
    }
}

pub proof fn lemma_describes_grows(
    old_shapes: Seq<Type>,
    old_places: Seq<Option<TypeRef>>,
    new_shapes: Seq<Type>,
    new_places: Seq<Option<TypeRef>>,
    entry: EntryView,
    c: Type,
)
    requires
        grows(old_shapes, old_places, new_shapes, new_places),
        describes(old_shapes, old_places, entry, c),
    ensures
        describes(new_shapes, new_places, entry, c),
{
    match c {
        Type::Opt(t) => {
            lemma_names_grows(old_shapes, old_places, new_shapes, new_places, *t, entry->Opt_0);
        },
        Type::Vec(t) => {
            lemma_names_grows(old_shapes, old_places, new_shapes, new_places, *t, entry->Vec_0);
        },
        Type::Record(fields) => {
            lemma_fields_described_grows(old_shapes, old_places, new_shapes, new_places, entry->Record_0, fields@);
        },
        Type::Variant(fields) => {
            lemma_fields_described_grows(old_shapes, old_places, new_shapes, new_places, entry->Variant_0, fields@);
        },
        Type::Func { args, rets, modes } => {
            lemma_list_described_grows(old_shapes, old_places, new_shapes, new_places, entry->Func_args, args@);
            lemma_list_described_grows(old_shapes, old_places, new_shapes, new_places, entry->Func_rets, rets@);
        },
        Type::Service(methods) => {
            lemma_methods_described_grows(old_shapes, old_places, new_shapes, new_places, entry->Service_0, methods@);
        },
        _ => {},
    }
}

/// What was faithful stays so when entries are added and definitions placed,
/// as long as what is new is right too.
pub proof fn lemma_faithful_grows(
    env: Seq<Type>,
    old_entries: TableView,
    old_shapes: Seq<Type>,
    old_places: Seq<Option<TypeRef>>,
    old_pending: Set<int>,
    new_entries: TableView,
    new_shapes: Seq<Type>,
    new_places: Seq<Option<TypeRef>>,
    new_pending: Set<int>,
)
    requires
        faithful(env, old_entries, old_shapes, old_places, old_pending),
        grows(old_shapes, old_places, new_shapes, new_places),
        new_shapes.len() == new_entries.len(),
        forall|k: int| old_shapes.len() <= k < new_shapes.len() ==> is_composite(#[trigger] new_shapes[k]),
        forall|a: int, b: int|
            0 <= a < b < new_shapes.len() && old_shapes.len() <= b ==> !same_shape(new_shapes[a], new_shapes[b]),
        forall|k: int|
            0 <= k < old_entries.len() && !old_pending.contains(k) && !new_pending.contains(k) ==> #[trigger] new_entries[k]
                == old_entries[k],
        forall|k: int|
            0 <= k < new_entries.len() && !new_pending.contains(k) && (old_pending.contains(k) || k >= old_entries.len())
                ==> describes(new_shapes, new_places, #[trigger] new_entries[k], new_shapes[k]),
        forall|i: int|
            0 <= i < new_places.len() && old_places[i] is None ==> ((#[trigger] new_places[i]) matches Some(r) ==> placed(
                env,
                new_shapes,
                new_places,
                i,
                r,
            )),
    ensures
        faithful(env, new_entries, new_shapes, new_places, new_pending),
{
    assert forall|k: int| 0 <= k < new_shapes.len() implies is_composite(#[trigger] new_shapes[k]) by {
        if k < old_shapes.len() {
            assert(new_shapes[k] == old_shapes[k]);
        }
    }
    assert forall|a: int, b: int| 0 <= a < b < new_shapes.len() implies !same_shape(new_shapes[a], new_shapes[b]) by {
        if b < old_shapes.len() {
            assert(new_shapes[a] == old_shapes[a]);
            assert(new_shapes[b] == old_shapes[b]);
        }
    }
    assert forall|k: int| 0 <= k < new_entries.len() && !new_pending.contains(k) implies describes(
        new_shapes,
        new_places,
        #[trigger] new_entries[k],
        new_shapes[k],
    ) by {
        if k < old_entries.len() && !old_pending.contains(k) {
            assert(new_entries[k] == old_entries[k]);
            assert(new_shapes[k] == old_shapes[k]);
            lemma_describes_grows(old_shapes, old_places, new_shapes, new_places, old_entries[k], old_shapes[k]);
        }
    }
    assert forall|i: int| 0 <= i < new_places.len() implies ((#[trigger] new_places[i]) matches Some(r) ==> placed(
        env,
        new_shapes,
        new_places,
        i,
        r,
    )) by {
        if old_places[i] is Some {
            let r = old_places[i]->Some_0;
            assert(new_places[i] == old_places[i]);
            let t = resolve_spec(env, Type::Reference(i as usize), env.len())->Some_0;
            lemma_names_grows(old_shapes, old_places, new_shapes, new_places, t, r);
        }
    }
}

/// Every type is the same tree as itself.
pub proof fn lemma_same_shape_reflexive(t: Type)
    ensures
        same_shape(t, t),
    decreases t,
{
    match t {
        Type::Opt(x) => {
            lemma_same_shape_reflexive(*x);
        },
        Type::Vec(x) => {
            lemma_same_shape_reflexive(*x);
        },
        Type::Record(fields) => {
            assert forall|k: int| 0 <= k < fields@.len() implies (#[trigger] fields@[k]).key
                == fields@[k].key && same_shape(fields@[k].ty, fields@[k].ty) by {
                lemma_same_shape_reflexive(fields@[k].ty);
            }
        },
        Type::Variant(fields) => {
            assert forall|k: int| 0 <= k < fields@.len() implies (#[trigger] fields@[k]).key
                == fields@[k].key && same_shape(fields@[k].ty, fields@[k].ty) by {
                lemma_same_shape_reflexive(fields@[k].ty);
            }
        },
        Type::Func { args, rets, modes } => {
            assert forall|k: int| 0 <= k < args@.len() implies same_shape(
                #[trigger] args@[k],
                args@[k],
            ) by {
                lemma_same_shape_reflexive(args@[k]);
            }
            assert forall|k: int| 0 <= k < rets@.len() implies same_shape(
                #[trigger] rets@[k],
                rets@[k],
            ) by {
                lemma_same_shape_reflexive(rets@[k]);
            }
        },
        Type::Service(methods) => {
            assert forall|k: int| 0 <= k < methods@.len() implies (#[trigger] methods@[k]).name@
                == methods@[k].name@ && same_shape(methods@[k].ty, methods@[k].ty) by {
                lemma_same_shape_reflexive(methods@[k].ty);
            }
        },
        _ => {},
    }
}

/// Whether the table and the names `refs` are the flat form of the types
/// `types`, whose references lead into `env`: every entry is the flat form of
/// a composite type, no two entries are made for the same tree, and each of
/// the types is named as the table names it.
pub open spec fn flat_form_of(
    env: Seq<Type>,
    types: Seq<Type>,
    table: TableView,
    refs: Seq<TypeRef>,
) -> bool {
    exists|shapes: Seq<Type>, places: Seq<Option<TypeRef>>|
        #![trigger faithful(env, table, shapes, places, Set::empty())]
        faithful(env, table, shapes, places, Set::empty()) && list_described(
            shapes,
            places,
            refs,
            types,
        )
}

} // verus!
