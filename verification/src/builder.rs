//! From types as trees to the table that travels: each composite type once,
//! numbered as it is first met.

use vstd::pervasive::VecAdditionalExecFns;
use vstd::prelude::*;
use crate::compat_check::same_modes;
use crate::error::EncodeError;
use crate::flatten::{
    describes, faithful, fields_described, flat_form_of, grows, is_composite,
    lemma_faithful_grows, lemma_names_grows, lemma_same_shape_reflexive, list_described,
    methods_described, names, placed,
};
use crate::graph::{Field, Method, Type};
use crate::numbering::{
    add_fields_spec, add_list_spec, add_methods_spec, add_type_spec, after, build_entry_spec,
    empty_table, find_shape_from, reserved, table_of, with_entry, with_front, with_place, Flat,
};
use crate::types::{
    entry_well_formed, keys_ascend, names_distinct, ref_in_range, refs_in_range, table_well_formed,
    Entry, EntryView, FieldRef, MethodRef, MethodView, Prim, TableView, TypeRef, TypeTable,
};

verus! {

/// Whether two types are the same tree: kind by kind and part by part, two
/// references being the same where their indices are.
pub open spec fn same_shape(a: Type, b: Type) -> bool
    decreases a,
{
    match (a, b) {
        (Type::Prim(p), Type::Prim(q)) => p == q,
        (Type::Opt(x), Type::Opt(y)) => same_shape(*x, *y),
        (Type::Vec(x), Type::Vec(y)) => same_shape(*x, *y),
        (Type::Record(fa), Type::Record(fb)) => fa@.len() == fb@.len() && (forall|k: int|
            0 <= k < fa@.len() ==> (#[trigger] fa@[k]).key == fb@[k].key && same_shape(
                fa@[k].ty,
                fb@[k].ty,
            )),
        (Type::Variant(fa), Type::Variant(fb)) => fa@.len() == fb@.len() && (forall|k: int|
            0 <= k < fa@.len() ==> (#[trigger] fa@[k]).key == fb@[k].key && same_shape(
                fa@[k].ty,
                fb@[k].ty,
            )),
        (
            Type::Func { args: aa, rets: ra, modes: ma },
            Type::Func { args: ab, rets: rb, modes: mb },
        ) => ma@ == mb@ && aa@.len() == ab@.len() && ra@.len() == rb@.len() && (forall|k: int|
            0 <= k < aa@.len() ==> same_shape(#[trigger] aa@[k], ab@[k])) && (forall|k: int|
            0 <= k < ra@.len() ==> same_shape(#[trigger] ra@[k], rb@[k])),
        (Type::Service(ma), Type::Service(mb)) => ma@.len() == mb@.len() && (forall|k: int|
            0 <= k < ma@.len() ==> (#[trigger] ma@[k]).name@ == mb@[k].name@ && same_shape(
                ma@[k].ty,
                mb@[k].ty,
            )),
        (Type::Reference(i), Type::Reference(j)) => i == j,
        _ => false,
    }
}

fn same_fields(fa: &Vec<Field>, fb: &Vec<Field>) -> (r: bool)
    ensures
        r == (fa@.len() == fb@.len() && (forall|k: int|
            0 <= k < fa@.len() ==> (#[trigger] fa@[k]).key == fb@[k].key && same_shape(
                fa@[k].ty,
                fb@[k].ty,
            ))),
    decreases fa, 0nat,
{
    if fa.len() != fb.len() {
        return false;
    }
    let mut k: usize = 0;
    while k < fa.len()
        invariant
            k <= fa@.len(),
            fa@.len() == fb@.len(),
            forall|x: int|
                0 <= x < k ==> (#[trigger] fa@[x]).key == fb@[x].key && same_shape(
                    fa@[x].ty,
                    fb@[x].ty,
                ),
        decreases fa.len() - k,
    {
        if fa[k].key != fb[k].key || !same_type(&fa[k].ty, &fb[k].ty) {
            return false;
        }
        k = k + 1;
    }
    true
}

fn same_list(aa: &Vec<Type>, ab: &Vec<Type>) -> (r: bool)
    ensures
        r == (aa@.len() == ab@.len() && (forall|k: int|
            0 <= k < aa@.len() ==> same_shape(#[trigger] aa@[k], ab@[k]))),
    decreases aa, 0nat,
{
    if aa.len() != ab.len() {
        return false;
    }
    let mut k: usize = 0;
    while k < aa.len()
        invariant
            k <= aa@.len(),
            aa@.len() == ab@.len(),
            forall|x: int| 0 <= x < k ==> same_shape(#[trigger] aa@[x], ab@[x]),
        decreases aa.len() - k,
    {
        if !same_type(&aa[k], &ab[k]) {
            return false;
        }
        k = k + 1;
    }
    true
}

fn same_methods(ma: &Vec<Method>, mb: &Vec<Method>) -> (r: bool)
    ensures
        r == (ma@.len() == mb@.len() && (forall|k: int|
            0 <= k < ma@.len() ==> (#[trigger] ma@[k]).name@ == mb@[k].name@ && same_shape(
                ma@[k].ty,
                mb@[k].ty,
            ))),
    decreases ma, 0nat,
{
    if ma.len() != mb.len() {
        return false;
    }
    let mut k: usize = 0;
    while k < ma.len()
        invariant
            k <= ma@.len(),
            ma@.len() == mb@.len(),
            forall|x: int|
                0 <= x < k ==> (#[trigger] ma@[x]).name@ == mb@[x].name@ && same_shape(
                    ma@[x].ty,
                    mb@[x].ty,
                ),
        decreases ma.len() - k,
    {
        if !(ma[k].name == mb[k].name) || !same_type(&ma[k].ty, &mb[k].ty) {
            return false;
        }
        k = k + 1;
    }
    true
}

/// Whether two types are the same tree.
pub fn same_type(a: &Type, b: &Type) -> (r: bool)
    ensures
        r == same_shape(*a, *b),
    decreases a, 1nat,
{
    match (a, b) {
        (Type::Prim(p), Type::Prim(q)) => *p == *q,
        (Type::Opt(x), Type::Opt(y)) => same_type(x, y),
        (Type::Vec(x), Type::Vec(y)) => same_type(x, y),
        (Type::Record(fa), Type::Record(fb)) => same_fields(fa, fb),
        (Type::Variant(fa), Type::Variant(fb)) => same_fields(fa, fb),
        (
            Type::Func { args: aa, rets: ra, modes: ma },
            Type::Func { args: ab, rets: rb, modes: mb },
        ) => same_modes(ma, mb) && same_list(aa, ab) && same_list(ra, rb),
        (Type::Service(ma), Type::Service(mb)) => same_methods(ma, mb),
        (Type::Reference(i), Type::Reference(j)) => *i == *j,
        _ => false,
    }
}

} // verus!

verus! {

/// What a type stands for once references to references are followed, in at
/// most `fuel` steps: a type that is no reference, if there is one.
pub open spec fn resolve_spec(env: Seq<Type>, ty: Type, fuel: nat) -> Option<Type>
    decreases fuel,
{
    match ty {
        Type::Reference(i) => if i >= env.len() || fuel == 0 {
            None
        } else {
            resolve_spec(env, env[i as int], (fuel - 1) as nat)
        },
        _ => Some(ty),
    }
}

pub open spec fn source_keys_ascend(fields: Seq<Field>) -> bool {
    forall|j: int, k: int| 0 <= j < k < fields.len() ==> fields[j].key < fields[k].key
}

pub open spec fn source_names_distinct(methods: Seq<Method>) -> bool {
    forall|a: int, b: int| 0 <= a < b < methods.len() ==> methods[a].name@ != methods[b].name@
}

/// Whether a type can be put into a table: its references lead to
/// definitions, the members of its records and variants ascend by key, and
/// the methods of its services have names of their own.
pub open spec fn type_valid(env: Seq<Type>, ty: Type) -> bool
    decreases ty,
{
    match ty {
        Type::Prim(_) => true,
        Type::Opt(t) => type_valid(env, *t),
        Type::Vec(t) => type_valid(env, *t),
        Type::Record(fields) => source_keys_ascend(fields@) && (forall|k: int|
            0 <= k < fields@.len() ==> type_valid(env, (#[trigger] fields@[k]).ty)),
        Type::Variant(fields) => source_keys_ascend(fields@) && (forall|k: int|
            0 <= k < fields@.len() ==> type_valid(env, (#[trigger] fields@[k]).ty)),
        Type::Func { args, rets, modes } => (forall|k: int|
            0 <= k < args@.len() ==> type_valid(env, #[trigger] args@[k])) && (forall|k: int|
            0 <= k < rets@.len() ==> type_valid(env, #[trigger] rets@[k])),
        Type::Service(methods) => source_names_distinct(methods@) && (forall|k: int|
            0 <= k < methods@.len() ==> type_valid(env, (#[trigger] methods@[k]).ty)),
        Type::Reference(i) => resolve_spec(env, ty, env.len()) is Some,
    }
}

/// Whether every definition can be put into a table.
pub open spec fn env_valid(env: Seq<Type>) -> bool {
    forall|i: int| 0 <= i < env.len() ==> type_valid(env, #[trigger] env[i])
}

/// The index of the definition that a reference leads to, once references to
/// references are followed.
pub fn resolve(env: &Vec<Type>, i: usize) -> (r: Option<usize>)
    ensures
        match resolve_spec(env@, Type::Reference(i), env@.len()) {
            Some(t) => r matches Some(j) && j < env@.len() && env@[j as int] == t && !(t is Reference),
            None => r is None,
        },
{
    let mut cur: usize = i;
    let mut fuel: usize = env.len();
    loop
        invariant
            fuel <= env@.len(),
            resolve_spec(env@, Type::Reference(i), env@.len()) == resolve_spec(
                env@,
                Type::Reference(cur),
                fuel as nat,
            ),
        decreases fuel,
    {
        if cur >= env.len() || fuel == 0 {
            return None;
        }
        match &env[cur] {
            Type::Reference(j) => {
                proof {
                    assert(env@[cur as int] == Type::Reference(*j));
                }
                cur = *j;
                fuel = fuel - 1;
            },
            _ => {
                proof {
                    assert(resolve_spec(env@, env@[cur as int], (fuel - 1) as nat) == Some(
                        env@[cur as int],
                    ));
                }
                return Some(cur);
            },
        }
    }
}

/// The number of definitions that have no place in the table yet.
pub open spec fn count_open(resolved: Seq<Option<TypeRef>>) -> nat
    decreases resolved.len(),
{
    if resolved.len() == 0 {
        0
    } else {
        count_open(resolved.drop_last()) + (if resolved.last() is None { 1nat } else { 0nat })
    }
}

proof fn lemma_count_open_bound(resolved: Seq<Option<TypeRef>>)
    ensures
        count_open(resolved) <= resolved.len(),
    decreases resolved.len(),
{
    if resolved.len() > 0 {
        lemma_count_open_bound(resolved.drop_last());
    }
}

proof fn lemma_count_open_update(resolved: Seq<Option<TypeRef>>, i: int, r: TypeRef)
    requires
        0 <= i < resolved.len(),
    ensures
        count_open(resolved.update(i, Some(r))) + (if resolved[i] is None { 1nat } else { 0nat })
            == count_open(resolved),
    decreases resolved.len(),
{
    let updated = resolved.update(i, Some(r));
    if i == resolved.len() - 1 {
        assert(updated.drop_last() =~= resolved.drop_last());
    } else {
        assert(updated.drop_last() =~= resolved.drop_last().update(i, Some(r)));
        lemma_count_open_update(resolved.drop_last(), i, r);
    }
}

/// A table under construction.
struct Builder<'a> {
    /// The entries so far. One that is still being put together holds an
    /// empty record in the meantime.
    entries: Vec<Entry>,
    /// The type that each entry was made for.
    sources: Vec<&'a Type>,
    /// For each definition, the place it was given, once it has one.
    resolved: Vec<Option<TypeRef>>,
    /// The types that the entries were made for, as contracts see them.
    shapes: Ghost<Seq<Type>>,
}

impl<'a> Builder<'a> {
    /// The entries as contracts see them.
    spec fn table(&self) -> TableView {
        self.entries@.map_values(|e: Entry| e@)
    }

    /// The table as contracts see it.
    spec fn flat(&self) -> Flat {
        Flat { entries: self.table(), shapes: self.shapes@, places: self.resolved@ }
    }

    /// Every entry refers only to entries that exist, and so does the place of
    /// every definition.
    spec fn consistent(&self, env: Seq<Type>) -> bool {
        &&& self.sources@.len() == self.entries@.len()
        &&& self.shapes@.len() == self.entries@.len()
        &&& self.resolved@.len() == env.len()
        &&& forall|k: int| 0 <= k < self.sources@.len() ==> *(#[trigger] self.sources@[k]) == self.shapes@[k]
        &&& forall|k: int|
            0 <= k < self.entries@.len() ==> entry_well_formed(
                (#[trigger] self.entries@[k])@,
                self.entries@.len(),
            )
        &&& forall|i: int|
            0 <= i < self.resolved@.len() ==> ((#[trigger] self.resolved@[i]) matches Some(r)
                ==> ref_in_range(r, self.entries@.len()))
    }

    /// The entries that are done are the flat forms of the types they were
    /// made for; those at `pending` are still being put together.
    spec fn right(&self, env: Seq<Type>, pending: Set<int>) -> bool {
        &&& faithful(env, self.table(), self.shapes@, self.resolved@, pending)
        &&& forall|x: int| pending.contains(x) ==> 0 <= x < self.entries@.len()
    }

    /// What holds of a builder after a step: it is consistent, has lost no
    /// entry and changed none that it had, and has given no definition's
    /// place away.
    spec fn advanced_from(&self, before: Builder<'a>, env: Seq<Type>) -> bool {
        &&& self.consistent(env)
        &&& self.entries@.len() >= before.entries@.len()
        &&& count_open(self.resolved@) <= count_open(before.resolved@)
        &&& grows(before.shapes@, before.resolved@, self.shapes@, self.resolved@)
        &&& forall|k: int|
            0 <= k < before.entries@.len() ==> #[trigger] self.entries@[k] == before.entries@[k]
    }
}

/// An entry that is well formed among some entries is so among more.
pub proof fn lemma_entry_stays_well_formed(e: EntryView, n: nat, m: nat)
    requires
        entry_well_formed(e, n),
        n <= m,
    ensures
        entry_well_formed(e, m),
{
    match e {
        EntryView::Record(fields) => {
            assert forall|k: int| 0 <= k < fields.len() implies ref_in_range(
                (#[trigger] fields[k]).ty,
                m,
            ) by {
                assert(ref_in_range(fields[k].ty, n));
            }
        },
        EntryView::Variant(fields) => {
            assert forall|k: int| 0 <= k < fields.len() implies ref_in_range(
                (#[trigger] fields[k]).ty,
                m,
            ) by {
                assert(ref_in_range(fields[k].ty, n));
            }
        },
        EntryView::Func { args, rets, modes } => {
            assert forall|k: int| 0 <= k < args.len() implies ref_in_range(#[trigger] args[k], m) by {
                assert(ref_in_range(args[k], n));
            }
            assert forall|k: int| 0 <= k < rets.len() implies ref_in_range(#[trigger] rets[k], m) by {
                assert(ref_in_range(rets[k], n));
            }
        },
        EntryView::Service(methods) => {
            assert forall|k: int| 0 <= k < methods.len() implies ref_in_range(
                (#[trigger] methods[k]).ty,
                m,
            ) by {
                assert(ref_in_range(methods[k].ty, n));
            }
        },
        _ => {},
    }
}

/// The first entry whose source is the same tree as `ty`, if there is one.
fn find_source(sources: &Vec<&Type>, ty: &Type, Ghost(shapes): Ghost<Seq<Type>>) -> (r: Option<
    usize,
>)
    requires
        shapes.len() == sources@.len(),
        forall|k: int| 0 <= k < sources@.len() ==> *(#[trigger] sources@[k]) == shapes[k],
    ensures
        match r {
            Some(k) => k < shapes.len() && same_shape(shapes[k as int], *ty) && find_shape_from(
                shapes,
                *ty,
                0,
            ) == Some(k as int),
            None => find_shape_from(shapes, *ty, 0) is None && forall|k: int|
                0 <= k < shapes.len() ==> !same_shape(shapes[k], *ty),
        },
{
    let mut k: usize = 0;
    while k < sources.len()
        invariant
            k <= sources@.len(),
            shapes.len() == sources@.len(),
            forall|x: int| 0 <= x < sources@.len() ==> *(#[trigger] sources@[x]) == shapes[x],
            forall|x: int| 0 <= x < k ==> !same_shape(shapes[x], *ty),
            find_shape_from(shapes, *ty, 0) == find_shape_from(shapes, *ty, k as int),
        decreases sources.len() - k,
    {
        proof {
            assert(*sources@[k as int] == shapes[k as int]);
        }
        if same_type(sources[k], ty) {
            return Some(k);
        }
        k = k + 1;
    }
    None
}

/// Gives the composite type `ty` a place in the table: the place of an entry
/// made for the same tree, or a new entry that holds an empty record until
/// it is put together. The second result says whether the entry is new.
fn reserve<'a>(
    b: &mut Builder<'a>,
    ty: &'a Type,
    Ghost(env): Ghost<Seq<Type>>,
    Ghost(pending): Ghost<Set<int>>,
) -> (r: (usize, bool))
    requires
        old(b).consistent(env),
        old(b).right(env, pending),
        is_composite(*ty),
    ensures
        final(b).advanced_from(*old(b), env),
        final(b).resolved@ == old(b).resolved@,
        r.0 < final(b).entries@.len(),
        same_shape(final(b).shapes@[r.0 as int], *ty),
        r.1 ==> r.0 == old(b).entries@.len() && final(b).entries@.len() == old(b).entries@.len()
            + 1 && final(b).shapes@[r.0 as int] == *ty && final(b).right(
            env,
            pending.insert(r.0 as int),
        ),
        !r.1 ==> final(b).entries@ == old(b).entries@ && final(b).right(env, pending),
        (final(b).flat(), r.0, r.1) == reserved(old(b).flat(), *ty),
{
    match find_source(&b.sources, ty, Ghost(b.shapes@)) {
        Some(k) => (k, false),
        None => {
            let k: usize = b.entries.len();
            let ghost before = *b;
            proof {
                assert forall|x: int| 0 <= x < b.entries@.len() implies entry_well_formed(
                    (#[trigger] b.entries@[x])@,
                    b.entries@.len() + 1,
                ) by {
                    lemma_entry_stays_well_formed(
                        b.entries@[x]@,
                        b.entries@.len(),
                        b.entries@.len() + 1,
                    );
                }
                lemma_same_shape_reflexive(*ty);
            }
            b.entries.push(Entry::Record(Vec::new()));
            b.sources.push(ty);
            proof {
                b.shapes = Ghost(before.shapes@.push(*ty));
                assert forall|k: int| 0 <= k < before.table().len() implies #[trigger] b.table()[k]
                    == before.table()[k] by {
                    assert(b.entries@[k] == before.entries@[k]);
                }
                assert forall|a: int, c: int|
                    0 <= a < c < b.shapes@.len() && before.shapes@.len() <= c implies !same_shape(
                    b.shapes@[a],
                    b.shapes@[c],
                ) by {
                    assert(*before.sources@[a] == before.shapes@[a]);
                }
                lemma_faithful_grows(
                    env,
                    before.table(),
                    before.shapes@,
                    before.resolved@,
                    pending,
                    b.table(),
                    b.shapes@,
                    b.resolved@,
                    pending.insert(k as int),
                );
                assert(b.table() =~= before.table().push(EntryView::Record(Seq::empty()))) by {
                    assert(b.entries@[k as int]@ == EntryView::Record(Seq::<FieldRef>::empty()));
                }
            }
            (k, true)
        },
    }
}

/// Gives the `i`-th definition the place `r`.
fn place<'a>(
    b: &mut Builder<'a>,
    i: usize,
    r: TypeRef,
    Ghost(env): Ghost<Seq<Type>>,
    Ghost(pending): Ghost<Set<int>>,
)
    requires
        old(b).consistent(env),
        old(b).right(env, pending),
        i < env.len(),
        old(b).resolved@[i as int] is None,
        ref_in_range(r, old(b).entries@.len()),
        placed(env, old(b).shapes@, old(b).resolved@, i as int, r),
    ensures
        final(b).advanced_from(*old(b), env),
        final(b).right(env, pending),
        final(b).entries@ == old(b).entries@,
        final(b).shapes@ == old(b).shapes@,
        final(b).resolved@ == old(b).resolved@.update(i as int, Some(r)),
        count_open(final(b).resolved@) < count_open(old(b).resolved@),
        final(b).flat() == with_place(old(b).flat(), i as int, r),
{
    let ghost before = *b;
    proof {
        lemma_count_open_update(b.resolved@, i as int, r);
    }
    b.resolved.set(i, Some(r));
    proof {
        let t = resolve_spec(env, Type::Reference(i), env.len())->Some_0;
        assert(grows(before.shapes@, before.resolved@, b.shapes@, b.resolved@));
        lemma_names_grows(before.shapes@, before.resolved@, b.shapes@, b.resolved@, t, r);
        lemma_faithful_grows(
            env,
            before.table(),
            before.shapes@,
            before.resolved@,
            pending,
            b.table(),
            b.shapes@,
            b.resolved@,
            pending,
        );
    }
}

/// Puts the finished entry at its place.
fn complete<'a>(
    b: &mut Builder<'a>,
    k: usize,
    entry: Entry,
    Ghost(env): Ghost<Seq<Type>>,
    Ghost(pending): Ghost<Set<int>>,
)
    requires
        old(b).consistent(env),
        old(b).right(env, pending.insert(k as int)),
        k < old(b).entries@.len(),
        !pending.contains(k as int),
        entry_well_formed(entry@, old(b).entries@.len()),
        describes(old(b).shapes@, old(b).resolved@, entry@, old(b).shapes@[k as int]),
    ensures
        final(b).consistent(env),
        final(b).right(env, pending),
        final(b).entries@ == old(b).entries@.update(k as int, entry),
        final(b).shapes@ == old(b).shapes@,
        final(b).resolved@ == old(b).resolved@,
        final(b).flat() == with_entry(old(b).flat(), k as int, entry@),
{
    let ghost before = *b;
    b.entries.set(k, entry);
    proof {
        assert(b.table() =~= before.table().update(k as int, entry@));
        assert forall|x: int|
            0 <= x < before.table().len() && !pending.insert(k as int).contains(x)
                && !pending.contains(x) implies #[trigger] b.table()[x] == before.table()[x] by {
            assert(b.entries@[x] == before.entries@[x]);
        }
        assert(b.table()[k as int] == entry@);
        assert forall|x: int| pending.contains(x) implies 0 <= x < b.entries@.len() by {
            assert(pending.insert(k as int).contains(x));
        }
        lemma_faithful_grows(
            env,
            before.table(),
            before.shapes@,
            before.resolved@,
            pending.insert(k as int),
            b.table(),
            b.shapes@,
            b.resolved@,
            pending,
        );
    }
}

/// Gives the type a place in the table, and its parts with it. The result
/// names the type as entries name their parts.
fn add_type<'a>(
    b: &mut Builder<'a>,
    env: &'a Vec<Type>,
    ty: &'a Type,
    Ghost(pending): Ghost<Set<int>>,
    Ghost(fuel): Ghost<nat>,
) -> (r: Result<TypeRef, EncodeError>)
    requires
        old(b).consistent(env@),
        old(b).right(env@, pending),
        fuel >= count_open(old(b).resolved@),
    ensures
        match r {
            Ok(t) => add_type_spec(env@, old(b).flat(), *ty, fuel) == Some((final(b).flat(), t)),
            Err(_) => add_type_spec(env@, old(b).flat(), *ty, fuel) is None,
        },
        final(b).advanced_from(*old(b), env@),
        r matches Ok(t) ==> final(b).right(env@, pending) && ref_in_range(
            t,
            final(b).entries@.len(),
        ) && names(
            final(b).shapes@,
            final(b).resolved@,
            *ty,
            t,
        ),
        env_valid(env@) && type_valid(env@, *ty) ==> r is Ok,
    decreases count_open(old(b).resolved@), ty, 1nat,
{
    match ty {
        Type::Prim(p) => Ok(TypeRef::Prim(*p)),
        Type::Reference(i) => {
            let i: usize = *i;
            if i >= env.len() {
                return Err(EncodeError::UnresolvedReference);
            }
            match b.resolved[i] {
                Some(r) => {
                    return Ok(r);
                },
                None => {},
            }
            let j: usize = match resolve(env, i) {
                Some(j) => j,
                None => {
                    return Err(EncodeError::UnresolvedReference);
                },
            };
            let target: &'a Type = &env[j];
            match target {
                Type::Prim(p) => {
                    place(b, i, TypeRef::Prim(*p), Ghost(env@), Ghost(pending));
                    Ok(TypeRef::Prim(*p))
                },
                _ => {
                    let ghost start = *b;
                    let (k, fresh) = reserve(b, target, Ghost(env@), Ghost(pending));
                    let ghost inner = if fresh { pending.insert(k as int) } else { pending };
                    place(b, i, TypeRef::Index(k), Ghost(env@), Ghost(inner));
                    if fresh {
                        let ghost mid = *b;
                        let entry = match build_entry(b, env, target, Ghost(inner), Ghost((fuel - 1) as nat)) {
                            Ok(entry) => entry,
                            Err(e) => {
                                return Err(e);
                            },
                        };
                        proof {
                            assert(b.shapes@[k as int] == mid.shapes@[k as int]);
                            assert(b.resolved@[i as int] == mid.resolved@[i as int]);
                        }
                        let ghost late = *b;
                        complete(b, k, entry, Ghost(env@), Ghost(pending));
                        proof {
                            assert forall|x: int| 0 <= x < start.entries@.len() implies #[trigger] b.entries@[x]
                                == start.entries@[x] by {
                                assert(late.entries@[x] == mid.entries@[x]);
                            }
                        }
                    }
                    proof {
                        assert(b.resolved@[i as int] == Some(TypeRef::Index(k)));
                        assert(b.advanced_from(*old(b), env@));
                        assert(b.right(env@, pending));
                    }
                    Ok(TypeRef::Index(k))
                },
            }
        },
        _ => {
            let (k, fresh) = reserve(b, ty, Ghost(env@), Ghost(pending));
            let ghost mid = *b;
            if fresh {
                let ghost inner = pending.insert(k as int);
                let entry = match build_entry(b, env, ty, Ghost(inner), Ghost(fuel)) {
                    Ok(entry) => entry,
                    Err(e) => {
                        return Err(e);
                    },
                };
                proof {
                    assert(b.shapes@[k as int] == mid.shapes@[k as int]);
                }
                let ghost late = *b;
                complete(b, k, entry, Ghost(env@), Ghost(pending));
                proof {
                    assert forall|x: int| 0 <= x < old(b).entries@.len() implies #[trigger] b.entries@[x]
                        == old(b).entries@[x] by {
                        assert(late.entries@[x] == mid.entries@[x]);
                    }
                }
            }
            proof {
                assert(b.shapes@[k as int] == mid.shapes@[k as int]);
                assert(b.advanced_from(*old(b), env@));
                assert(b.right(env@, pending));
            }
            Ok(TypeRef::Index(k))
        },
    }
}

proof fn lemma_after_front<T>(done: Seq<T>, x: T, rest: Option<(Flat, Seq<T>)>)
    ensures
        after(done, with_front(x, rest)) == after(done.push(x), rest),
{
    match rest {
        None => {},
        Some((st, xs)) => {
            assert(done + (seq![x] + xs) =~= done.push(x) + xs);
        },
    }
}

proof fn lemma_after_nothing<T>(done: Seq<T>, st: Flat, rest: Option<(Flat, Seq<T>)>)
    ensures
        after(Seq::<T>::empty(), rest) == rest,
        after(done, Some((st, Seq::<T>::empty()))) == Some((st, done)),
{
    assert(done + Seq::<T>::empty() =~= done);
    match rest {
        None => {},
        Some((st1, xs)) => {
            assert(Seq::<T>::empty() + xs =~= xs);
        },
    }
}

/// Gives each type of the list a place in the table.
fn add_list<'a>(
    b: &mut Builder<'a>,
    env: &'a Vec<Type>,
    list: &'a Vec<Type>,
    Ghost(pending): Ghost<Set<int>>,
    Ghost(fuel): Ghost<nat>,
) -> (r: Result<Vec<TypeRef>, EncodeError>)
    requires
        old(b).consistent(env@),
        old(b).right(env@, pending),
        fuel >= count_open(old(b).resolved@),
    ensures
        match r {
            Ok(refs) => add_list_spec(env@, old(b).flat(), list@, 0, fuel) == Some(
                (final(b).flat(), refs@),
            ),
            Err(_) => add_list_spec(env@, old(b).flat(), list@, 0, fuel) is None,
        },
        final(b).advanced_from(*old(b), env@),
        r matches Ok(refs) ==> final(b).right(env@, pending) && refs_in_range(
            refs@,
            final(b).entries@.len(),
        ) && list_described(final(b).shapes@, final(b).resolved@, refs@, list@),
        env_valid(env@) && (forall|k: int|
            0 <= k < list@.len() ==> type_valid(env@, #[trigger] list@[k])) ==> r is Ok,
    decreases count_open(old(b).resolved@), list, 0nat,
{
    let mut refs: Vec<TypeRef> = Vec::new();
    let mut k: usize = 0;
    let ghost whole = add_list_spec(env@, old(b).flat(), list@, 0, fuel);
    proof {
        lemma_after_nothing(refs@, b.flat(), whole);
    }
    while k < list.len()
        invariant
            k <= list@.len(),
            b.advanced_from(*old(b), env@),
            b.right(env@, pending),
            fuel >= count_open(old(b).resolved@),
            whole == after(refs@, add_list_spec(env@, b.flat(), list@, k as int, fuel)),
            whole == add_list_spec(env@, old(b).flat(), list@, 0, fuel),
            refs@.len() == k,
            refs_in_range(refs@, b.entries@.len()),
            forall|x: int|
                0 <= x < k ==> names(b.shapes@, b.resolved@, list@[x], #[trigger] refs@[x]),
        decreases list.len() - k,
    {
        let ghost prev = *b;
        let ghost done = refs@;
        match add_type(b, env, &list[k], Ghost(pending), Ghost(fuel)) {
            Err(e) => {
                return Err(e);
            },
            Ok(t) => {
                refs.push(t);
                proof {
                    lemma_after_front(
                        done,
                        t,
                        add_list_spec(env@, b.flat(), list@, k + 1, fuel),
                    );
                    assert forall|x: int| 0 <= x < k + 1 implies names(
                        b.shapes@,
                        b.resolved@,
                        list@[x],
                        #[trigger] refs@[x],
                    ) by {
                        if x < k {
                            assert(refs@[x] == done[x]);
                            lemma_names_grows(
                                prev.shapes@,
                                prev.resolved@,
                                b.shapes@,
                                b.resolved@,
                                list@[x],
                                done[x],
                            );
                        }
                    }
                }
            },
        }
        k = k + 1;
    }
    proof {
        lemma_after_nothing(refs@, b.flat(), whole);
    }
    Ok(refs)
}

/// Gives the type of each member a place in the table.
fn add_fields<'a>(
    b: &mut Builder<'a>,
    env: &'a Vec<Type>,
    fields: &'a Vec<Field>,
    Ghost(pending): Ghost<Set<int>>,
    Ghost(fuel): Ghost<nat>,
) -> (r: Result<Vec<FieldRef>, EncodeError>)
    requires
        old(b).consistent(env@),
        old(b).right(env@, pending),
        fuel >= count_open(old(b).resolved@),
    ensures
        match r {
            Ok(out) => add_fields_spec(env@, old(b).flat(), fields@, 0, fuel) == Some(
                (final(b).flat(), out@),
            ),
            Err(_) => add_fields_spec(env@, old(b).flat(), fields@, 0, fuel) is None,
        },
        final(b).advanced_from(*old(b), env@),
        r matches Ok(out) ==> final(b).right(env@, pending) && keys_ascend(out@)
            && crate::types::fields_in_range(out@, final(b).entries@.len()) && fields_described(
            final(b).shapes@,
            final(b).resolved@,
            out@,
            fields@,
        ),
        env_valid(env@) && source_keys_ascend(fields@) && (forall|k: int|
            0 <= k < fields@.len() ==> type_valid(env@, (#[trigger] fields@[k]).ty)) ==> r is Ok,
    decreases count_open(old(b).resolved@), fields, 0nat,
{
    let mut out: Vec<FieldRef> = Vec::new();
    let mut k: usize = 0;
    let ghost whole = add_fields_spec(env@, old(b).flat(), fields@, 0, fuel);
    proof {
        lemma_after_nothing(out@, b.flat(), whole);
    }
    while k < fields.len()
        invariant
            k <= fields@.len(),
            b.advanced_from(*old(b), env@),
            b.right(env@, pending),
            fuel >= count_open(old(b).resolved@),
            whole == after(out@, add_fields_spec(env@, b.flat(), fields@, k as int, fuel)),
            whole == add_fields_spec(env@, old(b).flat(), fields@, 0, fuel),
            out@.len() == k,
            forall|x: int|
                0 <= x < k ==> (#[trigger] out@[x]).key == fields@[x].key && names(
                    b.shapes@,
                    b.resolved@,
                    fields@[x].ty,
                    out@[x].ty,
                ),
            forall|x: int, y: int| 0 <= x < y < k ==> fields@[x].key < fields@[y].key,
            crate::types::fields_in_range(out@, b.entries@.len()),
        decreases fields.len() - k,
    {
        if k > 0 && fields[k - 1].key >= fields[k].key {
            return Err(EncodeError::MalformedType);
        }
        let ghost prev = *b;
        let ghost done = out@;
        match add_type(b, env, &fields[k].ty, Ghost(pending), Ghost(fuel)) {
            Err(e) => {
                return Err(e);
            },
            Ok(t) => {
                out.push(FieldRef { key: fields[k].key, ty: t });
                proof {
                    lemma_after_front(
                        done,
                        FieldRef { key: fields@[k as int].key, ty: t },
                        add_fields_spec(env@, b.flat(), fields@, k + 1, fuel),
                    );
                    assert forall|x: int| 0 <= x < k + 1 implies (#[trigger] out@[x]).key
                        == fields@[x].key && names(
                        b.shapes@,
                        b.resolved@,
                        fields@[x].ty,
                        out@[x].ty,
                    ) by {
                        if x < k {
                            assert(out@[x] == done[x]);
                            lemma_names_grows(
                                prev.shapes@,
                                prev.resolved@,
                                b.shapes@,
                                b.resolved@,
                                fields@[x].ty,
                                done[x].ty,
                            );
                        }
                    }
                }
            },
        }
        k = k + 1;
    }
    proof {
        lemma_after_nothing(out@, b.flat(), whole);
    }
    Ok(out)
}

/// Whether no two methods have the same name.
fn source_names_are_distinct(methods: &Vec<Method>) -> (r: bool)
    ensures
        r == source_names_distinct(methods@),
{
    let mut b: usize = 0;
    while b < methods.len()
        invariant
            b <= methods@.len(),
            forall|x: int, y: int| 0 <= x < y < b ==> methods@[x].name@ != methods@[y].name@,
        decreases methods.len() - b,
    {
        let mut a: usize = 0;
        while a < b
            invariant
                a <= b,
                b < methods@.len(),
                forall|x: int| 0 <= x < a ==> methods@[x].name@ != methods@[b as int].name@,
            decreases b - a,
        {
            if methods[a].name == methods[b].name {
                return false;
            }
            a = a + 1;
        }
        b = b + 1;
    }
    true
}

/// Gives the type of each method a place in the table.
fn add_methods<'a>(
    b: &mut Builder<'a>,
    env: &'a Vec<Type>,
    methods: &'a Vec<Method>,
    Ghost(pending): Ghost<Set<int>>,
    Ghost(fuel): Ghost<nat>,
) -> (r: Result<Vec<MethodRef>, EncodeError>)
    requires
        old(b).consistent(env@),
        old(b).right(env@, pending),
        fuel >= count_open(old(b).resolved@),
        source_names_distinct(methods@),
    ensures
        match r {
            Ok(out) => add_methods_spec(env@, old(b).flat(), methods@, 0, fuel) == Some(
                (final(b).flat(), out@.map_values(|m: MethodRef| m@)),
            ),
            Err(_) => add_methods_spec(env@, old(b).flat(), methods@, 0, fuel) is None,
        },
        final(b).advanced_from(*old(b), env@),
        r matches Ok(out) ==> final(b).right(env@, pending) && names_distinct(
            out@.map_values(|m: MethodRef| m@),
        ) && crate::types::methods_in_range(
            out@.map_values(|m: MethodRef| m@),
            final(b).entries@.len(),
        ) && methods_described(
            final(b).shapes@,
            final(b).resolved@,
            out@.map_values(|m: MethodRef| m@),
            methods@,
        ),
        env_valid(env@) && source_names_distinct(methods@) && (forall|k: int|
            0 <= k < methods@.len() ==> type_valid(env@, (#[trigger] methods@[k]).ty)) ==> r is Ok,
    decreases count_open(old(b).resolved@), methods, 0nat,
{
    let mut out: Vec<MethodRef> = Vec::new();
    let mut k: usize = 0;
    let ghost whole = add_methods_spec(env@, old(b).flat(), methods@, 0, fuel);
    proof {
        lemma_after_nothing(out@.map_values(|m: MethodRef| m@), b.flat(), whole);
        assert(out@.map_values(|m: MethodRef| m@) =~= Seq::<MethodView>::empty());
    }
    while k < methods.len()
        invariant
            k <= methods@.len(),
            b.advanced_from(*old(b), env@),
            b.right(env@, pending),
            fuel >= count_open(old(b).resolved@),
            whole == after(
                out@.map_values(|m: MethodRef| m@),
                add_methods_spec(env@, b.flat(), methods@, k as int, fuel),
            ),
            whole == add_methods_spec(env@, old(b).flat(), methods@, 0, fuel),
            source_names_distinct(methods@),
            out@.len() == k,
            forall|x: int|
                0 <= x < k ==> (#[trigger] out@[x]).name@ == methods@[x].name@ && names(
                    b.shapes@,
                    b.resolved@,
                    methods@[x].ty,
                    out@[x].ty,
                ),
            forall|x: int| 0 <= x < k ==> ref_in_range((#[trigger] out@[x]).ty, b.entries@.len()),
        decreases methods.len() - k,
    {
        let ghost prev = *b;
        let ghost done = out@;
        match add_type(b, env, &methods[k].ty, Ghost(pending), Ghost(fuel)) {
            Err(e) => {
                return Err(e);
            },
            Ok(t) => {
                let m = MethodRef { name: methods[k].name.clone(), ty: t };
                proof {
                    lemma_after_front(
                        done.map_values(|m: MethodRef| m@),
                        MethodView { name: methods@[k as int].name@, ty: t },
                        add_methods_spec(env@, b.flat(), methods@, k + 1, fuel),
                    );
                    assert(done.push(m).map_values(|m: MethodRef| m@) =~= done.map_values(
                        |m: MethodRef| m@,
                    ).push(m@));
                }
                out.push(m);
                proof {
                    assert forall|x: int| 0 <= x < k + 1 implies (#[trigger] out@[x]).name@
                        == methods@[x].name@ && names(
                        b.shapes@,
                        b.resolved@,
                        methods@[x].ty,
                        out@[x].ty,
                    ) by {
                        if x < k {
                            assert(out@[x] == done[x]);
                            lemma_names_grows(
                                prev.shapes@,
                                prev.resolved@,
                                b.shapes@,
                                b.resolved@,
                                methods@[x].ty,
                                done[x].ty,
                            );
                        }
                    }
                }
            },
        }
        k = k + 1;
    }
    proof {
        let views = out@.map_values(|m: MethodRef| m@);
        assert forall|x: int, y: int| 0 <= x < y < views.len() implies views[x].name
            != views[y].name by {
            assert(out@[x].name@ == methods@[x].name@);
            assert(out@[y].name@ == methods@[y].name@);
        }
        assert forall|x: int| 0 <= x < views.len() implies ref_in_range(
            (#[trigger] views[x]).ty,
            b.entries@.len(),
        ) by {
            assert(ref_in_range(out@[x].ty, b.entries@.len()));
        }
        assert forall|x: int| 0 <= x < views.len() implies (#[trigger] views[x]).name
            == methods@[x].name@ && names(b.shapes@, b.resolved@, methods@[x].ty, views[x].ty) by {
            assert(out@[x].name@ == methods@[x].name@);
        }
        lemma_after_nothing(views, b.flat(), whole);
    }
    Ok(out)
}

/// Puts together the entry of a composite type, giving its parts their
/// places.
fn build_entry<'a>(
    b: &mut Builder<'a>,
    env: &'a Vec<Type>,
    ty: &'a Type,
    Ghost(pending): Ghost<Set<int>>,
    Ghost(fuel): Ghost<nat>,
) -> (r: Result<Entry, EncodeError>)
    requires
        old(b).consistent(env@),
        old(b).right(env@, pending),
        is_composite(*ty),
        fuel >= count_open(old(b).resolved@),
    ensures
        match r {
            Ok(entry) => build_entry_spec(env@, old(b).flat(), *ty, fuel) == Some(
                (final(b).flat(), entry@),
            ),
            Err(_) => build_entry_spec(env@, old(b).flat(), *ty, fuel) is None,
        },
        final(b).advanced_from(*old(b), env@),
        r matches Ok(entry) ==> final(b).right(env@, pending) && entry_well_formed(
            entry@,
            final(b).entries@.len(),
        ) && describes(final(b).shapes@, final(b).resolved@, entry@, *ty),
        env_valid(env@) && type_valid(env@, *ty) ==> r is Ok,
    decreases count_open(old(b).resolved@), ty, 0nat,
{
    match ty {
        Type::Opt(t) => match add_type(b, env, t, Ghost(pending), Ghost(fuel)) {
            Err(e) => Err(e),
            Ok(r) => Ok(Entry::Opt(r)),
        },
        Type::Vec(t) => match add_type(b, env, t, Ghost(pending), Ghost(fuel)) {
            Err(e) => Err(e),
            Ok(r) => Ok(Entry::Vec(r)),
        },
        Type::Record(fields) => match add_fields(b, env, fields, Ghost(pending), Ghost(fuel)) {
            Err(e) => Err(e),
            Ok(out) => Ok(Entry::Record(out)),
        },
        Type::Variant(fields) => match add_fields(b, env, fields, Ghost(pending), Ghost(fuel)) {
            Err(e) => Err(e),
            Ok(out) => Ok(Entry::Variant(out)),
        },
        Type::Func { args, rets, modes } => {
            let wargs = match add_list(b, env, args, Ghost(pending), Ghost(fuel)) {
                Ok(x) => x,
                Err(e) => {
                    return Err(e);
                },
            };
            let ghost mid = *b;
            let wrets = match add_list(b, env, rets, Ghost(pending), Ghost(fuel)) {
                Ok(x) => x,
                Err(e) => {
                    return Err(e);
                },
            };
            proof {
                crate::flatten::lemma_list_described_grows(
                    mid.shapes@,
                    mid.resolved@,
                    b.shapes@,
                    b.resolved@,
                    wargs@,
                    args@,
                );
                assert forall|k: int| 0 <= k < wargs@.len() implies ref_in_range(
                    #[trigger] wargs@[k],
                    b.entries@.len(),
                ) by {
                    assert(ref_in_range(wargs@[k], mid.entries@.len()));
                }
            }
            Ok(Entry::Func { args: wargs, rets: wrets, modes: modes.clone() })
        },
        Type::Service(methods) => {
            if !source_names_are_distinct(methods) {
                return Err(EncodeError::MalformedType);
            }
            match add_methods(b, env, methods, Ghost(pending), Ghost(fuel)) {
                Err(e) => Err(e),
                Ok(out) => Ok(Entry::Service(out)),
            }
        },
        Type::Prim(_) => Ok(Entry::Record(Vec::new())),
        Type::Reference(_) => Ok(Entry::Record(Vec::new())),
    }
}

/// Whether every definition and every type can be put into a table.
pub open spec fn types_valid(env: Seq<Type>, types: Seq<Type>) -> bool {
    env_valid(env) && forall|k: int| 0 <= k < types.len() ==> type_valid(env, #[trigger] types[k])
}

/// What is wrong with the type, if anything is: the first fault that is met
/// when the type is walked before its parts and the parts in their order. A
/// reference that leads to no definition is unresolved; members out of order
/// and methods of one name are malformed.
pub open spec fn type_fault_of(env: Seq<Type>, ty: Type) -> Option<EncodeError>
    decreases ty, 1nat, 0nat,
{
    match ty {
        Type::Prim(_) => None,
        Type::Opt(t) => type_fault_of(env, *t),
        Type::Vec(t) => type_fault_of(env, *t),
        Type::Record(fields) => if !source_keys_ascend(fields@) {
            Some(EncodeError::MalformedType)
        } else {
            fields_fault_of(env, fields@, 0)
        },
        Type::Variant(fields) => if !source_keys_ascend(fields@) {
            Some(EncodeError::MalformedType)
        } else {
            fields_fault_of(env, fields@, 0)
        },
        Type::Func { args, rets, modes } => match list_fault_of(env, args@, 0) {
            Some(e) => Some(e),
            None => list_fault_of(env, rets@, 0),
        },
        Type::Service(methods) => if !source_names_distinct(methods@) {
            Some(EncodeError::MalformedType)
        } else {
            methods_fault_of(env, methods@, 0)
        },
        Type::Reference(_) => if resolve_spec(env, ty, env.len()) is Some {
            None
        } else {
            Some(EncodeError::UnresolvedReference)
        },
    }
}

/// The first fault among the types of the list from the `from`-th on.
pub open spec fn list_fault_of(env: Seq<Type>, list: Seq<Type>, from: int) -> Option<EncodeError>
    decreases list, 0nat, list.len() - from,
{
    if from < 0 || from >= list.len() {
        None
    } else {
        match type_fault_of(env, list[from]) {
            Some(e) => Some(e),
            None => list_fault_of(env, list, from + 1),
        }
    }
}

/// The first fault among the types of the members from the `from`-th on.
pub open spec fn fields_fault_of(env: Seq<Type>, fields: Seq<Field>, from: int) -> Option<
    EncodeError,
>
    decreases fields, 0nat, fields.len() - from,
{
    if from < 0 || from >= fields.len() {
        None
    } else {
        match type_fault_of(env, fields[from].ty) {
            Some(e) => Some(e),
            None => fields_fault_of(env, fields, from + 1),
        }
    }
}

/// The first fault among the types of the methods from the `from`-th on.
pub open spec fn methods_fault_of(env: Seq<Type>, methods: Seq<Method>, from: int) -> Option<
    EncodeError,
>
    decreases methods, 0nat, methods.len() - from,
{
    if from < 0 || from >= methods.len() {
        None
    } else {
        match type_fault_of(env, methods[from].ty) {
            Some(e) => Some(e),
            None => methods_fault_of(env, methods, from + 1),
        }
    }
}

/// The first fault among the definitions and then the types.
pub open spec fn types_fault_of(env: Seq<Type>, types: Seq<Type>) -> Option<EncodeError> {
    match list_fault_of(env, env, 0) {
        Some(e) => Some(e),
        None => list_fault_of(env, types, 0),
    }
}

/// Whether the members' keys ascend strictly.
fn source_keys_ascending(fields: &Vec<Field>) -> (r: bool)
    ensures
        r == source_keys_ascend(fields@),
{
    if fields.len() < 2 {
        return true;
    }
    let mut i: usize = 0;
    while i + 1 < fields.len()
        invariant
            i < fields@.len(),
            forall|j: int, k: int| 0 <= j < k <= i ==> fields@[j].key < fields@[k].key,
        decreases fields.len() - i,
    {
        if fields[i].key >= fields[i + 1].key {
            return false;
        }
        i = i + 1;
    }
    true
}

/// What is wrong with the types of a list, if anything is.
fn list_fault(env: &Vec<Type>, list: &Vec<Type>) -> (r: Option<EncodeError>)
    ensures
        r is None <==> (forall|k: int| 0 <= k < list@.len() ==> type_valid(env@, #[trigger] list@[k])),
        r == list_fault_of(env@, list@, 0),
    decreases list, 0nat,
{
    let mut k: usize = 0;
    while k < list.len()
        invariant
            k <= list@.len(),
            forall|x: int| 0 <= x < k ==> type_valid(env@, #[trigger] list@[x]),
            list_fault_of(env@, list@, 0) == list_fault_of(env@, list@, k as int),
        decreases list.len() - k,
    {
        match type_fault(env, &list[k]) {
            Some(e) => {
                return Some(e);
            },
            None => {},
        }
        k = k + 1;
    }
    None
}

/// What is wrong with the types of the members, if anything is.
fn fields_fault(env: &Vec<Type>, fields: &Vec<Field>) -> (r: Option<EncodeError>)
    ensures
        r is None <==> source_keys_ascend(fields@) && (forall|k: int|
            0 <= k < fields@.len() ==> type_valid(env@, (#[trigger] fields@[k]).ty)),
        r == (if !source_keys_ascend(fields@) {
            Some(EncodeError::MalformedType)
        } else {
            fields_fault_of(env@, fields@, 0)
        }),
    decreases fields, 0nat,
{
    if !source_keys_ascending(fields) {
        return Some(EncodeError::MalformedType);
    }
    let mut k: usize = 0;
    while k < fields.len()
        invariant
            k <= fields@.len(),
            source_keys_ascend(fields@),
            forall|x: int| 0 <= x < k ==> type_valid(env@, (#[trigger] fields@[x]).ty),
            fields_fault_of(env@, fields@, 0) == fields_fault_of(env@, fields@, k as int),
        decreases fields.len() - k,
    {
        match type_fault(env, &fields[k].ty) {
            Some(e) => {
                return Some(e);
            },
            None => {},
        }
        k = k + 1;
    }
    None
}

/// What is wrong with the types of the methods, if anything is.
fn methods_fault(env: &Vec<Type>, methods: &Vec<Method>) -> (r: Option<EncodeError>)
    ensures
        r is None <==> source_names_distinct(methods@) && (forall|k: int|
            0 <= k < methods@.len() ==> type_valid(env@, (#[trigger] methods@[k]).ty)),
        r == (if !source_names_distinct(methods@) {
            Some(EncodeError::MalformedType)
        } else {
            methods_fault_of(env@, methods@, 0)
        }),
    decreases methods, 0nat,
{
    if !source_names_are_distinct(methods) {
        return Some(EncodeError::MalformedType);
    }
    let mut k: usize = 0;
    while k < methods.len()
        invariant
            k <= methods@.len(),
            source_names_distinct(methods@),
            forall|x: int| 0 <= x < k ==> type_valid(env@, (#[trigger] methods@[x]).ty),
            methods_fault_of(env@, methods@, 0) == methods_fault_of(env@, methods@, k as int),
        decreases methods.len() - k,
    {
        match type_fault(env, &methods[k].ty) {
            Some(e) => {
                return Some(e);
            },
            None => {},
        }
        k = k + 1;
    }
    None
}

/// What is wrong with the type, if anything is: a reference that leads to no
/// definition, members out of order, or two methods of one name.
pub fn type_fault(env: &Vec<Type>, ty: &Type) -> (r: Option<EncodeError>)
    ensures
        r is None <==> type_valid(env@, *ty),
        r == type_fault_of(env@, *ty),
    decreases ty, 1nat,
{
    match ty {
        Type::Prim(_) => None,
        Type::Opt(t) => type_fault(env, t),
        Type::Vec(t) => type_fault(env, t),
        Type::Record(fields) => fields_fault(env, fields),
        Type::Variant(fields) => fields_fault(env, fields),
        Type::Func { args, rets, modes } => match list_fault(env, args) {
            Some(e) => Some(e),
            None => list_fault(env, rets),
        },
        Type::Service(methods) => methods_fault(env, methods),
        Type::Reference(i) => match resolve(env, *i) {
            Some(_) => None,
            None => Some(EncodeError::UnresolvedReference),
        },
    }
}

/// What is wrong with the definitions or the types, if anything is.
pub fn types_fault(env: &Vec<Type>, types: &Vec<Type>) -> (r: Option<EncodeError>)
    ensures
        r is None <==> types_valid(env@, types@),
        r == types_fault_of(env@, types@),
{
    match list_fault(env, env) {
        Some(e) => Some(e),
        None => list_fault(env, types),
    }
}

/// The table of the types `types`, whose references lead into `env`, and how
/// the table names each of them.
///
/// Every composite type that the types reach has one entry, numbered as it
/// is first met; types that are the same tree share an entry. Succeeds
/// where every definition and every type is valid, and only there.
pub fn build_table(env: &Vec<Type>, types: &Vec<Type>) -> (r: Result<
    (TypeTable, Vec<TypeRef>),
    EncodeError,
>)
    ensures
        r matches Ok((table, refs)) ==> table_well_formed(table@) && refs_in_range(
            refs@,
            table@.len(),
        ) && flat_form_of(env@, types@, table@, refs@),
        r is Ok <==> types_valid(env@, types@),
        r matches Ok((table, refs)) ==> table_of(env@, types@) == Some((table@, refs@)),
        r matches Err(e) ==> types_fault_of(env@, types@) == Some(e),
{
    match types_fault(env, types) {
        Some(e) => {
            return Err(e);
        },
        None => {},
    }
    let mut resolved: Vec<Option<TypeRef>> = Vec::new();
    let mut i: usize = 0;
    while i < env.len()
        invariant
            i <= env@.len(),
            resolved@.len() == i,
            forall|x: int| 0 <= x < i ==> (#[trigger] resolved@[x]) is None,
        decreases env.len() - i,
    {
        resolved.push(None);
        i = i + 1;
    }
    let mut b = Builder {
        entries: Vec::new(),
        sources: Vec::new(),
        resolved,
        shapes: Ghost(Seq::empty()),
    };
    proof {
        assert(b.resolved@ =~= empty_table(env@.len()).places);
        assert(b.table() =~= empty_table(env@.len()).entries);
        lemma_count_open_bound(b.resolved@);
    }
    match add_list(&mut b, env, types, Ghost(Set::empty()), Ghost(env@.len())) {
        Err(e) => Err(e),
        Ok(refs) => {
            let ghost shapes = b.shapes@;
            let ghost places = b.resolved@;
            let table = TypeTable { entries: b.entries };
            proof {
                assert forall|k: int| 0 <= k < table@.len() implies entry_well_formed(
                    #[trigger] table@[k],
                    table@.len(),
                ) by {
                    assert(table@[k] == table.entries@[k]@);
                }
                assert(faithful(env@, table@, shapes, places, Set::empty()));
            }
            Ok((table, refs))
        },
    }
}

} // verus!
