//! The one table of given types: which entry is made when.
//!
//! The types are walked in the order given, each type before its parts and
//! the parts in their order. A composite type that is met for the first time
//! gets the next entry; one that was met before, as the same tree or through
//! a reference, gets none.

use vstd::prelude::*;
use crate::builder::{resolve_spec, same_shape, source_names_distinct};
use crate::graph::{Field, Method, Type};
use crate::types::{EntryView, FieldRef, MethodView, TableView, TypeRef};

verus! {

/// A table that is being made: its entries, the type that each was made
/// for, and for each definition how the table names it, once that is known.
pub struct Flat {
    pub entries: TableView,
    pub shapes: Seq<Type>,
    pub places: Seq<Option<TypeRef>>,
}

/// The first entry from `from` on that was made for the same tree as `ty`.
pub open spec fn find_shape_from(shapes: Seq<Type>, ty: Type, from: int) -> Option<int>
    decreases shapes.len() - from,
{
    if from < 0 || from >= shapes.len() {
        None
    } else if same_shape(shapes[from], ty) {
        Some(from)
    } else {
        find_shape_from(shapes, ty, from + 1)
    }
}

/// The table after the composite type `ty` was given its entry, the index of
/// that entry, and whether the entry is new. A new entry holds an empty
/// record until it is put together.
pub open spec fn reserved(st: Flat, ty: Type) -> (Flat, usize, bool) {
    match find_shape_from(st.shapes, ty, 0) {
        Some(k) => (st, k as usize, false),
        None => (
            Flat {
                entries: st.entries.push(EntryView::Record(Seq::empty())),
                shapes: st.shapes.push(ty),
                places: st.places,
            },
            st.entries.len() as usize,
            true,
        ),
    }
}

/// The table after the `i`-th definition was given the place `r`.
pub open spec fn with_place(st: Flat, i: int, r: TypeRef) -> Flat {
    Flat { entries: st.entries, shapes: st.shapes, places: st.places.update(i, Some(r)) }
}

/// The table after the entry `k` was put together.
pub open spec fn with_entry(st: Flat, k: int, entry: EntryView) -> Flat {
    Flat { entries: st.entries.update(k, entry), shapes: st.shapes, places: st.places }
}

/// The table after a step, with one item more in front of the step's items.
pub open spec fn with_front<T>(x: T, rest: Option<(Flat, Seq<T>)>) -> Option<(Flat, Seq<T>)> {
    match rest {
        None => None,
        Some((st, xs)) => Some((st, seq![x] + xs)),
    }
}

/// The table after a step, with the items `done` in front of the step's
/// items.
pub open spec fn after<T>(done: Seq<T>, rest: Option<(Flat, Seq<T>)>) -> Option<(Flat, Seq<T>)> {
    match rest {
        None => None,
        Some((st, xs)) => Some((st, done + xs)),
    }
}

/// The table after the type `ty` and its parts were given their places, and
/// how the table names `ty`. `None` where a reference leads to no definition
/// or a type is malformed. `fuel` bounds how many definitions may still be
/// entered.
pub open spec fn add_type_spec(env: Seq<Type>, st: Flat, ty: Type, fuel: nat) -> Option<
    (Flat, TypeRef),
>
    decreases fuel, ty, 1nat, 0nat,
{
    match ty {
        Type::Prim(p) => Some((st, TypeRef::Prim(p))),
        Type::Reference(i) => if i >= env.len() || st.places.len() != env.len() {
            None
        } else {
            match st.places[i as int] {
                Some(r) => Some((st, r)),
                None => match resolve_spec(env, ty, env.len()) {
                    None => None,
                    Some(target) => match target {
                        Type::Prim(p) => Some(
                            (with_place(st, i as int, TypeRef::Prim(p)), TypeRef::Prim(p)),
                        ),
                        _ => {
                            let (st1, k, fresh) = reserved(st, target);
                            let st2 = with_place(st1, i as int, TypeRef::Index(k));
                            if !fresh {
                                Some((st2, TypeRef::Index(k)))
                            } else if fuel == 0 {
                                None
                            } else {
                                match build_entry_spec(env, st2, target, (fuel - 1) as nat) {
                                    None => None,
                                    Some((st3, entry)) => Some(
                                        (with_entry(st3, k as int, entry), TypeRef::Index(k)),
                                    ),
                                }
                            }
                        },
                    },
                },
            }
        },
        _ => {
            let (st1, k, fresh) = reserved(st, ty);
            if !fresh {
                Some((st1, TypeRef::Index(k)))
            } else {
                match build_entry_spec(env, st1, ty, fuel) {
                    None => None,
                    Some((st2, entry)) => Some(
                        (with_entry(st2, k as int, entry), TypeRef::Index(k)),
                    ),
                }
            }
        },
    }
}

/// The table after the parts of the composite type `ty` were given their
/// places, and the entry of `ty`.
pub open spec fn build_entry_spec(env: Seq<Type>, st: Flat, ty: Type, fuel: nat) -> Option<
    (Flat, EntryView),
>
    decreases fuel, ty, 0nat, 0nat,
{
    match ty {
        Type::Opt(t) => match add_type_spec(env, st, *t, fuel) {
            None => None,
            Some((st1, r)) => Some((st1, EntryView::Opt(r))),
        },
        Type::Vec(t) => match add_type_spec(env, st, *t, fuel) {
            None => None,
            Some((st1, r)) => Some((st1, EntryView::Vec(r))),
        },
        Type::Record(fields) => match add_fields_spec(env, st, fields@, 0, fuel) {
            None => None,
            Some((st1, out)) => Some((st1, EntryView::Record(out))),
        },
        Type::Variant(fields) => match add_fields_spec(env, st, fields@, 0, fuel) {
            None => None,
            Some((st1, out)) => Some((st1, EntryView::Variant(out))),
        },
        Type::Func { args, rets, modes } => match add_list_spec(env, st, args@, 0, fuel) {
            None => None,
            Some((st1, oa)) => match add_list_spec(env, st1, rets@, 0, fuel) {
                None => None,
                Some((st2, or)) => Some(
                    (st2, EntryView::Func { args: oa, rets: or, modes: modes@ }),
                ),
            },
        },
        Type::Service(methods) => if !source_names_distinct(methods@) {
            None
        } else {
            match add_methods_spec(env, st, methods@, 0, fuel) {
                None => None,
                Some((st1, out)) => Some((st1, EntryView::Service(out))),
            }
        },
        _ => Some((st, EntryView::Record(Seq::empty()))),
    }
}

/// The table after the types of the list from the `from`-th on were given
/// their places, and how the table names them.
pub open spec fn add_list_spec(env: Seq<Type>, st: Flat, list: Seq<Type>, from: int, fuel: nat) -> Option<
    (Flat, Seq<TypeRef>),
>
    decreases fuel, list, 0nat, list.len() - from,
{
    if from < 0 || from >= list.len() {
        Some((st, Seq::empty()))
    } else {
        match add_type_spec(env, st, list[from], fuel) {
            None => None,
            Some((st1, r)) => with_front(r, add_list_spec(env, st1, list, from + 1, fuel)),
        }
    }
}

/// The table after the types of the members from the `from`-th on were given
/// their places, and the members as the table has them. `None` where a key
/// does not exceed the one before it.
pub open spec fn add_fields_spec(
    env: Seq<Type>,
    st: Flat,
    fields: Seq<Field>,
    from: int,
    fuel: nat,
) -> Option<(Flat, Seq<FieldRef>)>
    decreases fuel, fields, 0nat, fields.len() - from,
{
    if from < 0 || from >= fields.len() {
        Some((st, Seq::empty()))
    } else if from > 0 && fields[from - 1].key >= fields[from].key {
        None
    } else {
        match add_type_spec(env, st, fields[from].ty, fuel) {
            None => None,
            Some((st1, r)) => with_front(
                FieldRef { key: fields[from].key, ty: r },
                add_fields_spec(env, st1, fields, from + 1, fuel),
            ),
        }
    }
}

/// The table after the types of the methods from the `from`-th on were given
/// their places, and the methods as the table has them.
pub open spec fn add_methods_spec(
    env: Seq<Type>,
    st: Flat,
    methods: Seq<Method>,
    from: int,
    fuel: nat,
) -> Option<(Flat, Seq<MethodView>)>
    decreases fuel, methods, 0nat, methods.len() - from,
{
    if from < 0 || from >= methods.len() {
        Some((st, Seq::empty()))
    } else {
        match add_type_spec(env, st, methods[from].ty, fuel) {
            None => None,
            Some((st1, r)) => with_front(
                MethodView { name: methods[from].name@, ty: r },
                add_methods_spec(env, st1, methods, from + 1, fuel),
            ),
        }
    }
}

/// The table in which nothing has a place yet.
pub open spec fn empty_table(definitions: nat) -> Flat {
    Flat {
        entries: Seq::empty(),
        shapes: Seq::empty(),
        places: Seq::new(definitions, |i: int| None::<TypeRef>),
    }
}

/// The table of the types `types`, whose references lead into `env`, and how
/// it names each of them: every composite type that the types reach has one
/// entry, numbered as it is first met. `None` where the types cannot be put
/// into a table.
pub open spec fn table_of(env: Seq<Type>, types: Seq<Type>) -> Option<(TableView, Seq<TypeRef>)> {
    match add_list_spec(env, empty_table(env.len()), types, 0, env.len()) {
        None => None,
        Some((st, refs)) => Some((st.entries, refs)),
    }
}

} // verus!
