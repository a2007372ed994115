//! Which written types can be read as which expected types.

use vstd::prelude::*;
use crate::encode::find_key;
use crate::types::{EntryView, MethodView, Prim, TableView, TypeRef};

verus! {

/// The first index from `from` on at which a method has the name, if any.
pub open spec fn find_method_from(methods: Seq<MethodView>, name: Seq<char>, from: int) -> Option<
    int,
>
    decreases methods.len() - from,
{
    if from < 0 || from >= methods.len() {
        None
    } else if methods[from].name == name {
        Some(from)
    } else {
        find_method_from(methods, name, from + 1)
    }
}

/// The index of the method with the name, if any.
pub open spec fn find_method(methods: Seq<MethodView>, name: Seq<char>) -> Option<int> {
    find_method_from(methods, name, 0)
}

/// Whether the expected type is an option.
pub open spec fn is_opt(expected: TableView, e: TypeRef) -> bool {
    e matches TypeRef::Index(j) && j < expected.len() && expected[j as int] is Opt
}

/// Whether a record field of the expected type may be missing from what was
/// written: an option is then absent, a reserved field is ignored anyway.
pub open spec fn defaultable(expected: TableView, e: TypeRef) -> bool {
    e == TypeRef::Prim(Prim::Reserved) || is_opt(expected, e)
}

/// Whether, looking `depth` entries deep, the written type `w` of the table
/// `wire` can be read as the type `e` of the table `expected`.
///
/// Null and reserved accept every written type, and so does an option, which
/// reads what it cannot take as absent. A primitive kind accepts itself. A
/// vector accepts a vector of an accepted type, a record a record that holds
/// each of its fields with an accepted type, or lacks it where it may be
/// missing. A variant accepts every variant: which member was written shows
/// only in the value. Functions and services are compared part by part.
pub open spec fn compat(wire: TableView, w: TypeRef, expected: TableView, e: TypeRef, depth: nat) -> bool
    decreases depth, 0nat,
{
    match e {
        TypeRef::Prim(p) => p == Prim::Null || p == Prim::Reserved || w == e,
        TypeRef::Index(j) => j < expected.len() && (expected[j as int] is Opt || (w matches TypeRef::Index(
            i,
        ) && i < wire.len() && (depth == 0 || entries_compat(
            wire,
            wire[i as int],
            expected,
            expected[j as int],
            (depth - 1) as nat,
        )))),
    }
}

/// Whether the written entry can be read as the expected one, where their
/// parts are compared `depth` entries deep.
pub open spec fn entries_compat(
    wire: TableView,
    we: EntryView,
    expected: TableView,
    ee: EntryView,
    depth: nat,
) -> bool
    decreases depth, 1nat,
{
    match ee {
        EntryView::Opt(_) => true,
        EntryView::Vec(t) => we matches EntryView::Vec(wt) && compat(wire, wt, expected, t, depth),
        EntryView::Record(efs) => we matches EntryView::Record(wfs) && (forall|k: int|
            0 <= k < efs.len() ==> match find_key(wfs, (#[trigger] efs[k]).key) {
                Some(x) => compat(wire, wfs[x].ty, expected, efs[k].ty, depth),
                None => defaultable(expected, efs[k].ty),
            }),
        EntryView::Variant(_) => we is Variant,
        EntryView::Func { args, rets, modes } => we matches EntryView::Func {
            args: wargs,
            rets: wrets,
            modes: wmodes,
        } && wmodes == modes && wargs.len() == args.len() && wrets.len() == rets.len() && (forall|
            k: int,
        |
            0 <= k < args.len() ==> compat(wire, wargs[k], expected, #[trigger] args[k], depth))
            && (forall|k: int|
            0 <= k < rets.len() ==> compat(wire, wrets[k], expected, #[trigger] rets[k], depth)),
        EntryView::Service(ems) => we matches EntryView::Service(wms) && (forall|k: int|
            0 <= k < ems.len() ==> match find_method(wms, (#[trigger] ems[k]).name) {
                Some(x) => compat(wire, wms[x].ty, expected, ems[k].ty, depth),
                None => false,
            }),
    }
}

/// Whether the written type can be read as the expected type, however deep
/// one looks.
pub open spec fn compatible(wire: TableView, w: TypeRef, expected: TableView, e: TypeRef) -> bool {
    forall|depth: nat| compat(wire, w, expected, e, depth)
}

/// Looking deeper never accepts more.
pub proof fn lemma_compat_monotonic(
    wire: TableView,
    w: TypeRef,
    expected: TableView,
    e: TypeRef,
    depth: nat,
)
    requires
        compat(wire, w, expected, e, depth + 1),
    ensures
        compat(wire, w, expected, e, depth),
    decreases depth, 0nat,
{
    if depth > 0 {
        if let TypeRef::Index(j) = e {
            if !(expected[j as int] is Opt) {
                let i = w->Index_0;
                lemma_entries_compat_monotonic(
                    wire,
                    wire[i as int],
                    expected,
                    expected[j as int],
                    (depth - 1) as nat,
                );
            }
        }
    }
}

pub proof fn lemma_entries_compat_monotonic(
    wire: TableView,
    we: EntryView,
    expected: TableView,
    ee: EntryView,
    depth: nat,
)
    requires
        entries_compat(wire, we, expected, ee, depth + 1),
    ensures
        entries_compat(wire, we, expected, ee, depth),
    decreases depth, 1nat,
{
    match ee {
        EntryView::Opt(_) => {},
        EntryView::Vec(t) => {
            lemma_compat_monotonic(wire, we->Vec_0, expected, t, depth);
        },
        EntryView::Record(efs) => {
            let wfs = we->Record_0;
            assert forall|k: int| 0 <= k < efs.len() implies match find_key(
                wfs,
                (#[trigger] efs[k]).key,
            ) {
                Some(x) => compat(wire, wfs[x].ty, expected, efs[k].ty, depth),
                None => defaultable(expected, efs[k].ty),
            } by {
                if let Some(x) = find_key(wfs, efs[k].key) {
                    lemma_compat_monotonic(wire, wfs[x].ty, expected, efs[k].ty, depth);
                }
            }
        },
        EntryView::Variant(_) => {},
        EntryView::Func { args, rets, modes } => {
            let wargs = we->Func_args;
            let wrets = we->Func_rets;
            assert forall|k: int| 0 <= k < args.len() implies compat(
                wire,
                wargs[k],
                expected,
                #[trigger] args[k],
                depth,
            ) by {
                lemma_compat_monotonic(wire, wargs[k], expected, args[k], depth);
            }
            assert forall|k: int| 0 <= k < rets.len() implies compat(
                wire,
                wrets[k],
                expected,
                #[trigger] rets[k],
                depth,
            ) by {
                lemma_compat_monotonic(wire, wrets[k], expected, rets[k], depth);
            }
        },
        EntryView::Service(ems) => {
            let wms = we->Service_0;
            assert forall|k: int| 0 <= k < ems.len() implies match find_method(
                wms,
                (#[trigger] ems[k]).name,
            ) {
                Some(x) => compat(wire, wms[x].ty, expected, ems[k].ty, depth),
                None => false,
            } by {
                if let Some(x) = find_method(wms, ems[k].name) {
                    lemma_compat_monotonic(wire, wms[x].ty, expected, ems[k].ty, depth);
                }
            }
        },
    }
}

} // verus!

verus! {

/// At the two depths, the same entries of the two tables are accepted.
pub open spec fn pairs_agree(wire: TableView, expected: TableView, a: nat, b: nat) -> bool {
    forall|i: usize, j: usize|
        i < wire.len() && j < expected.len() ==> #[trigger] compat(
            wire,
            TypeRef::Index(i),
            expected,
            TypeRef::Index(j),
            a,
        ) == compat(wire, TypeRef::Index(i), expected, TypeRef::Index(j), b)
}

proof fn lemma_agree_refs(
    wire: TableView,
    expected: TableView,
    a: nat,
    b: nat,
    w: TypeRef,
    e: TypeRef,
)
    requires
        pairs_agree(wire, expected, a, b),
    ensures
        compat(wire, w, expected, e, a) == compat(wire, w, expected, e, b),
{
    if let TypeRef::Index(j) = e {
        if j < expected.len() {
            if let TypeRef::Index(i) = w {
                if i < wire.len() {
                    assert(compat(wire, TypeRef::Index(i), expected, TypeRef::Index(j), a)
                        == compat(wire, TypeRef::Index(i), expected, TypeRef::Index(j), b));
                }
            }
        }
    }
}

proof fn lemma_agree_entries_one_way(
    wire: TableView,
    we: EntryView,
    expected: TableView,
    ee: EntryView,
    a: nat,
    b: nat,
)
    requires
        pairs_agree(wire, expected, a, b),
        entries_compat(wire, we, expected, ee, a),
    ensures
        entries_compat(wire, we, expected, ee, b),
{
    match ee {
        EntryView::Opt(_) => {},
        EntryView::Vec(t) => {
            lemma_agree_refs(wire, expected, a, b, we->Vec_0, t);
        },
        EntryView::Record(efs) => {
            let wfs = we->Record_0;
            assert forall|k: int| 0 <= k < efs.len() implies match find_key(
                wfs,
                (#[trigger] efs[k]).key,
            ) {
                Some(x) => compat(wire, wfs[x].ty, expected, efs[k].ty, b),
                None => defaultable(expected, efs[k].ty),
            } by {
                if let Some(x) = find_key(wfs, efs[k].key) {
                    lemma_agree_refs(wire, expected, a, b, wfs[x].ty, efs[k].ty);
                }
            }
        },
        EntryView::Variant(_) => {},
        EntryView::Func { args, rets, modes } => {
            let wargs = we->Func_args;
            let wrets = we->Func_rets;
            assert forall|k: int| 0 <= k < args.len() implies compat(
                wire,
                wargs[k],
                expected,
                #[trigger] args[k],
                b,
            ) by {
                lemma_agree_refs(wire, expected, a, b, wargs[k], args[k]);
            }
            assert forall|k: int| 0 <= k < rets.len() implies compat(
                wire,
                wrets[k],
                expected,
                #[trigger] rets[k],
                b,
            ) by {
                lemma_agree_refs(wire, expected, a, b, wrets[k], rets[k]);
            }
        },
        EntryView::Service(ems) => {
            let wms = we->Service_0;
            assert forall|k: int| 0 <= k < ems.len() implies match find_method(
                wms,
                (#[trigger] ems[k]).name,
            ) {
                Some(x) => compat(wire, wms[x].ty, expected, ems[k].ty, b),
                None => false,
            } by {
                if let Some(x) = find_method(wms, ems[k].name) {
                    lemma_agree_refs(wire, expected, a, b, wms[x].ty, ems[k].ty);
                }
            }
        },
    }
}

proof fn lemma_agree_entries(
    wire: TableView,
    we: EntryView,
    expected: TableView,
    ee: EntryView,
    a: nat,
    b: nat,
)
    requires
        pairs_agree(wire, expected, a, b),
    ensures
        entries_compat(wire, we, expected, ee, a) == entries_compat(wire, we, expected, ee, b),
{
    assert(pairs_agree(wire, expected, b, a));
    if entries_compat(wire, we, expected, ee, a) {
        lemma_agree_entries_one_way(wire, we, expected, ee, a, b);
    }
    if entries_compat(wire, we, expected, ee, b) {
        lemma_agree_entries_one_way(wire, we, expected, ee, b, a);
    }
}

/// Once a depth accepts what the next accepts, every greater depth does.
proof fn lemma_stable(wire: TableView, expected: TableView, k: nat, n: nat)
    requires
        pairs_agree(wire, expected, k, k + 1),
        n >= k,
    ensures
        pairs_agree(wire, expected, k, n),
    decreases n,
{
    if n > k {
        lemma_stable(wire, expected, k, (n - 1) as nat);
        let m = (n - 1) as nat;
        assert forall|i: usize, j: usize| i < wire.len() && j < expected.len() implies #[trigger] compat(
            wire,
            TypeRef::Index(i),
            expected,
            TypeRef::Index(j),
            k,
        ) == compat(wire, TypeRef::Index(i), expected, TypeRef::Index(j), n) by {
            lemma_agree_entries(wire, wire[i as int], expected, expected[j as int], k, m);
            assert(compat(wire, TypeRef::Index(i), expected, TypeRef::Index(j), k) == compat(
                wire,
                TypeRef::Index(i),
                expected,
                TypeRef::Index(j),
                k + 1,
            ));
        }
    }
}

proof fn lemma_compat_shallower(
    wire: TableView,
    w: TypeRef,
    expected: TableView,
    e: TypeRef,
    deep: nat,
    shallow: nat,
)
    requires
        compat(wire, w, expected, e, deep),
        shallow <= deep,
    ensures
        compat(wire, w, expected, e, shallow),
    decreases deep,
{
    if shallow < deep {
        lemma_compat_monotonic(wire, w, expected, e, (deep - 1) as nat);
        lemma_compat_shallower(wire, w, expected, e, (deep - 1) as nat, shallow);
    }
}

/// At a depth that accepts what the next accepts, what is accepted is what
/// is accepted however deep one looks.
pub proof fn lemma_fixpoint(
    wire: TableView,
    expected: TableView,
    k: nat,
    w: TypeRef,
    e: TypeRef,
)
    requires
        pairs_agree(wire, expected, k, k + 1),
    ensures
        compatible(wire, w, expected, e) == compat(wire, w, expected, e, k),
{
    if compat(wire, w, expected, e, k) {
        assert forall|depth: nat| compat(wire, w, expected, e, depth) by {
            if depth <= k {
                lemma_compat_shallower(wire, w, expected, e, k, depth);
            } else {
                lemma_stable(wire, expected, k, depth);
                lemma_agree_refs(wire, expected, k, depth, w, e);
            }
        }
    }
}

/// The number of rows that hold `true`.
pub open spec fn count_row(row: Seq<bool>) -> nat
    decreases row.len(),
{
    if row.len() == 0 {
        0
    } else {
        count_row(row.drop_last()) + (if row.last() { 1nat } else { 0nat })
    }
}

/// The number of cells that hold `true`.
pub open spec fn count_cells(m: Seq<Vec<bool>>) -> nat
    decreases m.len(),
{
    if m.len() == 0 {
        0
    } else {
        count_cells(m.drop_last()) + count_row(m.last()@)
    }
}

/// Every cell that holds in `a` holds in `b`.
pub open spec fn cells_within(a: Seq<Vec<bool>>, b: Seq<Vec<bool>>) -> bool {
    &&& a.len() == b.len()
    &&& forall|i: int| 0 <= i < a.len() ==> (#[trigger] a[i])@.len() == b[i]@.len()
    &&& forall|i: int, j: int|
        0 <= i < a.len() && 0 <= j < a[i]@.len() && #[trigger] a[i]@[j] ==> b[i]@[j]
}

proof fn lemma_count_row(a: Seq<bool>, b: Seq<bool>)
    requires
        a.len() == b.len(),
        forall|j: int| 0 <= j < a.len() && #[trigger] a[j] ==> b[j],
    ensures
        count_row(a) <= count_row(b),
        (exists|j: int| 0 <= j < a.len() && #[trigger] b[j] && !a[j]) ==> count_row(a) < count_row(
            b,
        ),
    decreases a.len(),
{
    if a.len() > 0 {
        let a0 = a.drop_last();
        let b0 = b.drop_last();
        assert forall|j: int| 0 <= j < a0.len() && #[trigger] a0[j] implies b0[j] by {
            assert(a[j]);
        }
        lemma_count_row(a0, b0);
        assert(a.last() ==> b.last()) by {
            if a.last() {
                assert(a[a.len() - 1]);
            }
        }
        if exists|j: int| 0 <= j < a.len() && #[trigger] b[j] && !a[j] {
            let j = choose|j: int| 0 <= j < a.len() && #[trigger] b[j] && !a[j];
            if j < a.len() - 1 {
                assert(b0[j] && !a0[j]);
            }
        }
    }
}

pub proof fn lemma_count_cells(a: Seq<Vec<bool>>, b: Seq<Vec<bool>>)
    requires
        cells_within(a, b),
    ensures
        count_cells(a) <= count_cells(b),
        (exists|i: int, j: int|
            0 <= i < a.len() && 0 <= j < a[i]@.len() && #[trigger] b[i]@[j] && !a[i]@[j])
            ==> count_cells(a) < count_cells(b),
    decreases a.len(),
{
    if a.len() > 0 {
        let a0 = a.drop_last();
        let b0 = b.drop_last();
        let last = a.len() - 1;
        assert(cells_within(a0, b0)) by {
            assert forall|i: int| 0 <= i < a0.len() implies (#[trigger] a0[i])@.len()
                == b0[i]@.len() by {
                assert(a0[i] == a[i]);
            }
            assert forall|i: int, j: int|
                0 <= i < a0.len() && 0 <= j < a0[i]@.len() && #[trigger] a0[i]@[j] implies b0[i]@[j] by {
                assert(a0[i] == a[i]);
                assert(a[i]@[j]);
            }
        }
        lemma_count_cells(a0, b0);
        assert(a[last]@.len() == b[last]@.len());
        assert forall|j: int| 0 <= j < a.last()@.len() && #[trigger] a.last()@[j] implies b.last()@[j] by {
            assert(a[last]@[j]);
        }
        lemma_count_row(a.last()@, b.last()@);
        if exists|i: int, j: int|
            0 <= i < a.len() && 0 <= j < a[i]@.len() && #[trigger] b[i]@[j] && !a[i]@[j] {
            let (i, j) = choose|i: int, j: int|
                0 <= i < a.len() && 0 <= j < a[i]@.len() && #[trigger] b[i]@[j] && !a[i]@[j];
            if i < last {
                assert(a0[i] == a[i]);
                assert(b0[i]@[j] && !a0[i]@[j]);
            } else {
                assert(b.last()@[j] && !a.last()@[j]);
            }
        }
    }
}

} // verus!
