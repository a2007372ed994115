//! Deciding which written types can be read as which expected types.
//!
//! The answer for every pair of entries is computed depth by depth, each
//! depth from the one before, until a depth accepts what the next accepts.

use vstd::prelude::*;
use crate::compat::{
    cells_within, compat, compatible, count_cells, defaultable, entries_compat, find_method,
    find_method_from, lemma_compat_monotonic, lemma_fixpoint, pairs_agree,
};
use crate::encode::index_of_key;
use crate::types::{Entry, EntryView, FuncMode, MethodRef, Prim, TableView, TypeRef, TypeTable};

verus! {

/// The cell of row `i` and column `j` says whether, looking `depth` entries
/// deep, the written entry `i` can be read as the expected entry `j`.
pub open spec fn matrix_at(m: Seq<Vec<bool>>, wire: TableView, expected: TableView, depth: nat) -> bool {
    &&& m.len() == wire.len()
    &&& forall|i: int| 0 <= i < m.len() ==> (#[trigger] m[i])@.len() == expected.len()
    &&& forall|i: int, j: int|
        0 <= i < wire.len() && 0 <= j < expected.len() ==> #[trigger] m[i]@[j] == compat(
            wire,
            TypeRef::Index(i as usize),
            expected,
            TypeRef::Index(j as usize),
            depth,
        )
}

/// Whether the entry is an option.
pub fn entry_is_opt(entry: &Entry) -> (b: bool)
    ensures
        b == (entry@ is Opt),
{
    matches!(entry, Entry::Opt(_))
}

/// Whether a record field of the expected type may be missing.
pub fn may_be_missing(expected: &TypeTable, e: TypeRef) -> (b: bool)
    ensures
        b == defaultable(expected@, e),
{
    match e {
        TypeRef::Prim(p) => p == Prim::Reserved,
        TypeRef::Index(j) => j < expected.entries.len() && entry_is_opt(&expected.entries[j]),
    }
}

fn lookup(
    rel: &Vec<Vec<bool>>,
    wire: &TypeTable,
    expected: &TypeTable,
    w: TypeRef,
    e: TypeRef,
    Ghost(depth): Ghost<nat>,
) -> (b: bool)
    requires
        matrix_at(rel@, wire@, expected@, depth),
    ensures
        b == compat(wire@, w, expected@, e, depth),
{
    match e {
        TypeRef::Prim(p) => p == Prim::Null || p == Prim::Reserved || w == e,
        TypeRef::Index(j) => {
            if j >= expected.entries.len() {
                return false;
            }
            proof {
                assert(expected@[j as int] == expected.entries@[j as int]@);
            }
            match w {
                TypeRef::Index(i) => {
                    if i < wire.entries.len() {
                        proof {
                            assert(rel@[i as int]@[j as int] == compat(
                                wire@,
                                TypeRef::Index(i as int as usize),
                                expected@,
                                TypeRef::Index(j as int as usize),
                                depth,
                            ));
                        }
                        rel[i][j]
                    } else {
                        entry_is_opt(&expected.entries[j])
                    }
                },
                TypeRef::Prim(_) => entry_is_opt(&expected.entries[j]),
            }
        },
    }
}

/// Whether the two lists of call modes are the same.
pub fn same_modes(a: &Vec<FuncMode>, b: &Vec<FuncMode>) -> (r: bool)
    ensures
        r == (a@ == b@),
{
    if a.len() != b.len() {
        return false;
    }
    let mut k: usize = 0;
    while k < a.len()
        invariant
            k <= a@.len(),
            a@.len() == b@.len(),
            forall|x: int| 0 <= x < k ==> a@[x] == b@[x],
        decreases a.len() - k,
    {
        if a[k] != b[k] {
            return false;
        }
        k = k + 1;
    }
    proof {
        assert(a@ =~= b@);
    }
    true
}

/// The index of the method with the name, if any.
pub fn index_of_method(methods: &Vec<MethodRef>, name: &String) -> (r: Option<usize>)
    ensures
        match r {
            Some(x) => find_method(methods@.map_values(|m: MethodRef| m@), name@) == Some(
                x as int,
            ) && x < methods@.len(),
            None => find_method(methods@.map_values(|m: MethodRef| m@), name@) is None,
        },
{
    let ghost views = methods@.map_values(|m: MethodRef| m@);
    let mut i: usize = 0;
    while i < methods.len()
        invariant
            i <= methods@.len(),
            views == methods@.map_values(|m: MethodRef| m@),
            find_method(views, name@) == find_method_from(views, name@, i as int),
        decreases methods.len() - i,
    {
        proof {
            assert(views[i as int] == methods@[i as int]@);
        }
        if methods[i].name == *name {
            return Some(i);
        }
        i = i + 1;
    }
    None
}

fn refs_step(
    rel: &Vec<Vec<bool>>,
    wire: &TypeTable,
    expected: &TypeTable,
    wrefs: &Vec<TypeRef>,
    erefs: &Vec<TypeRef>,
    Ghost(depth): Ghost<nat>,
) -> (b: bool)
    requires
        matrix_at(rel@, wire@, expected@, depth),
    ensures
        b == (wrefs@.len() == erefs@.len() && forall|k: int|
            0 <= k < erefs@.len() ==> compat(
                wire@,
                wrefs@[k],
                expected@,
                #[trigger] erefs@[k],
                depth,
            )),
{
    if wrefs.len() != erefs.len() {
        return false;
    }
    let mut k: usize = 0;
    while k < erefs.len()
        invariant
            k <= erefs@.len(),
            wrefs@.len() == erefs@.len(),
            matrix_at(rel@, wire@, expected@, depth),
            forall|x: int|
                0 <= x < k ==> compat(wire@, wrefs@[x], expected@, #[trigger] erefs@[x], depth),
        decreases erefs.len() - k,
    {
        if !lookup(rel, wire, expected, wrefs[k], erefs[k], Ghost(depth)) {
            return false;
        }
        k = k + 1;
    }
    true
}

fn entries_step(
    rel: &Vec<Vec<bool>>,
    wire: &TypeTable,
    expected: &TypeTable,
    we: &Entry,
    ee: &Entry,
    Ghost(depth): Ghost<nat>,
) -> (b: bool)
    requires
        matrix_at(rel@, wire@, expected@, depth),
    ensures
        b == entries_compat(wire@, we@, expected@, ee@, depth),
{
    match ee {
        Entry::Opt(_) => true,
        Entry::Vec(t) => match we {
            Entry::Vec(wt) => lookup(rel, wire, expected, *wt, *t, Ghost(depth)),
            _ => false,
        },
        Entry::Record(efs) => match we {
            Entry::Record(wfs) => {
                let mut k: usize = 0;
                while k < efs.len()
                    invariant
                        k <= efs@.len(),
                        matrix_at(rel@, wire@, expected@, depth),
                        we@ == EntryView::Record(wfs@),
                        ee@ == EntryView::Record(efs@),
                        forall|x: int|
                            0 <= x < k ==> match crate::encode::find_key(
                                wfs@,
                                (#[trigger] efs@[x]).key,
                            ) {
                                Some(y) => compat(wire@, wfs@[y].ty, expected@, efs@[x].ty, depth),
                                None => defaultable(expected@, efs@[x].ty),
                            },
                    decreases efs.len() - k,
                {
                    let ok = match index_of_key(wfs, efs[k].key) {
                        Some(y) => lookup(rel, wire, expected, wfs[y].ty, efs[k].ty, Ghost(depth)),
                        None => may_be_missing(expected, efs[k].ty),
                    };
                    if !ok {
                        return false;
                    }
                    k = k + 1;
                }
                true
            },
            _ => false,
        },
        Entry::Variant(_) => matches!(we, Entry::Variant(_)),
        Entry::Func { args, rets, modes } => match we {
            Entry::Func { args: wargs, rets: wrets, modes: wmodes } => {
                same_modes(wmodes, modes) && refs_step(
                    rel,
                    wire,
                    expected,
                    wargs,
                    args,
                    Ghost(depth),
                ) && refs_step(rel, wire, expected, wrets, rets, Ghost(depth))
            },
            _ => false,
        },
        Entry::Service(ems) => match we {
            Entry::Service(wms) => {
                let ghost emv = ems@.map_values(|m: MethodRef| m@);
                let ghost wmv = wms@.map_values(|m: MethodRef| m@);
                let mut k: usize = 0;
                while k < ems.len()
                    invariant
                        k <= ems@.len(),
                        matrix_at(rel@, wire@, expected@, depth),
                        emv == ems@.map_values(|m: MethodRef| m@),
                        wmv == wms@.map_values(|m: MethodRef| m@),
                        we@ == EntryView::Service(wmv),
                        ee@ == EntryView::Service(emv),
                        forall|x: int|
                            0 <= x < k ==> match find_method(wmv, (#[trigger] emv[x]).name) {
                                Some(y) => compat(wire@, wmv[y].ty, expected@, emv[x].ty, depth),
                                None => false,
                            },
                    decreases ems.len() - k,
                {
                    proof {
                        assert(emv[k as int] == ems@[k as int]@);
                    }
                    let ok = match index_of_method(wms, &ems[k].name) {
                        Some(y) => {
                            proof {
                                assert(wmv[y as int] == wms@[y as int]@);
                            }
                            lookup(rel, wire, expected, wms[y].ty, ems[k].ty, Ghost(depth))
                        },
                        None => false,
                    };
                    if !ok {
                        return false;
                    }
                    k = k + 1;
                }
                true
            },
            _ => false,
        },
    }
}

} // verus!

verus! {

/// A matrix of `rows` rows and `cols` columns whose cells all hold `true`.
fn all_true(rows: usize, cols: usize) -> (m: Vec<Vec<bool>>)
    ensures
        m@.len() == rows,
        forall|i: int| 0 <= i < rows ==> (#[trigger] m@[i])@.len() == cols,
        forall|i: int, j: int| 0 <= i < rows && 0 <= j < cols ==> #[trigger] m@[i]@[j],
{
    let mut m: Vec<Vec<bool>> = Vec::new();
    let mut i: usize = 0;
    while i < rows
        invariant
            i <= rows,
            m@.len() == i,
            forall|x: int| 0 <= x < i ==> (#[trigger] m@[x])@.len() == cols,
            forall|x: int, y: int| 0 <= x < i && 0 <= y < cols ==> #[trigger] m@[x]@[y],
        decreases rows - i,
    {
        let mut row: Vec<bool> = Vec::new();
        let mut j: usize = 0;
        while j < cols
            invariant
                j <= cols,
                row@.len() == j,
                forall|y: int| 0 <= y < j ==> #[trigger] row@[y],
            decreases cols - j,
        {
            row.push(true);
            j = j + 1;
        }
        m.push(row);
        i = i + 1;
    }
    m
}

/// From the answers at one depth, the answers one entry deeper.
fn next_depth(
    rel: &Vec<Vec<bool>>,
    wire: &TypeTable,
    expected: &TypeTable,
    Ghost(depth): Ghost<nat>,
) -> (next: Vec<Vec<bool>>)
    requires
        matrix_at(rel@, wire@, expected@, depth),
    ensures
        matrix_at(next@, wire@, expected@, depth + 1),
{
    let rows: usize = wire.entries.len();
    let cols: usize = expected.entries.len();
    let mut next: Vec<Vec<bool>> = Vec::new();
    let mut i: usize = 0;
    while i < rows
        invariant
            i <= rows,
            rows == wire@.len(),
            cols == expected@.len(),
            matrix_at(rel@, wire@, expected@, depth),
            next@.len() == i,
            forall|x: int| 0 <= x < i ==> (#[trigger] next@[x])@.len() == cols,
            forall|x: int, y: int|
                0 <= x < i && 0 <= y < cols ==> #[trigger] next@[x]@[y] == compat(
                    wire@,
                    TypeRef::Index(x as usize),
                    expected@,
                    TypeRef::Index(y as usize),
                    depth + 1,
                ),
        decreases rows - i,
    {
        let mut row: Vec<bool> = Vec::new();
        let mut j: usize = 0;
        while j < cols
            invariant
                j <= cols,
                i < rows,
                rows == wire@.len(),
                cols == expected@.len(),
                matrix_at(rel@, wire@, expected@, depth),
                row@.len() == j,
                forall|y: int|
                    0 <= y < j ==> #[trigger] row@[y] == compat(
                        wire@,
                        TypeRef::Index(i),
                        expected@,
                        TypeRef::Index(y as usize),
                        depth + 1,
                    ),
            decreases cols - j,
        {
            proof {
                assert(expected@[j as int] == expected.entries@[j as int]@);
                assert(wire@[i as int] == wire.entries@[i as int]@);
            }
            let cell = entry_is_opt(&expected.entries[j]) || entries_step(
                rel,
                wire,
                expected,
                &wire.entries[i],
                &expected.entries[j],
                Ghost(depth),
            );
            row.push(cell);
            j = j + 1;
        }
        next.push(row);
        i = i + 1;
    }
    next
}

/// Whether two matrices of one shape hold the same cells.
fn same_cells(a: &Vec<Vec<bool>>, b: &Vec<Vec<bool>>, Ghost(cols): Ghost<nat>) -> (r: bool)
    requires
        a@.len() == b@.len(),
        forall|i: int| 0 <= i < a@.len() ==> (#[trigger] a@[i])@.len() == cols,
        forall|i: int| 0 <= i < b@.len() ==> (#[trigger] b@[i])@.len() == cols,
    ensures
        r == (forall|i: int, j: int|
            0 <= i < a@.len() && 0 <= j < cols ==> #[trigger] a@[i]@[j] == b@[i]@[j]),
{
    let mut i: usize = 0;
    while i < a.len()
        invariant
            i <= a@.len(),
            a@.len() == b@.len(),
            forall|x: int| 0 <= x < a@.len() ==> (#[trigger] a@[x])@.len() == cols,
            forall|x: int| 0 <= x < b@.len() ==> (#[trigger] b@[x])@.len() == cols,
            forall|x: int, y: int|
                0 <= x < i && 0 <= y < cols ==> #[trigger] a@[x]@[y] == b@[x]@[y],
        decreases a.len() - i,
    {
        let mut j: usize = 0;
        let n: usize = a[i].len();
        proof {
            assert(a@[i as int]@.len() == cols);
            assert(b@[i as int]@.len() == cols);
        }
        while j < n
            invariant
                j <= n,
                n == cols,
                i < a@.len(),
                a@.len() == b@.len(),
                a@[i as int]@.len() == cols,
                b@[i as int]@.len() == cols,
                forall|y: int| 0 <= y < j ==> a@[i as int]@[y] == b@[i as int]@[y],
            decreases n - j,
        {
            if a[i][j] != b[i][j] {
                proof {
                    assert(a@[i as int]@[j as int] != b@[i as int]@[j as int]);
                }
                return false;
            }
            j = j + 1;
        }
        i = i + 1;
    }
    true
}

/// For each written entry and each expected entry, whether the one can be
/// read as the other.
pub struct Compat {
    rel: Vec<Vec<bool>>,
    depth: Ghost<nat>,
}

impl Compat {
    /// The answers are those for the two tables.
    pub closed spec fn answers_for(&self, wire: TableView, expected: TableView) -> bool {
        &&& matrix_at(self.rel@, wire, expected, self.depth@)
        &&& pairs_agree(wire, expected, self.depth@, self.depth@ + 1)
    }

    /// Decides, for every pair of entries of the two tables, whether the
    /// written one can be read as the expected one.
    pub fn compute(wire: &TypeTable, expected: &TypeTable) -> (c: Compat)
        ensures
            c.answers_for(wire@, expected@),
    {
        let mut rel = all_true(wire.entries.len(), expected.entries.len());
        let ghost mut depth: nat = 0;
        loop
            invariant
                matrix_at(rel@, wire@, expected@, depth),
            decreases count_cells(rel@),
        {
            let next = next_depth(&rel, wire, expected, Ghost(depth));
            let same = same_cells(&rel, &next, Ghost(expected@.len()));
            if same {
                proof {
                    assert forall|i: usize, j: usize|
                        i < wire@.len() && j < expected@.len() implies #[trigger] compat(
                        wire@,
                        TypeRef::Index(i),
                        expected@,
                        TypeRef::Index(j),
                        depth,
                    ) == compat(
                        wire@,
                        TypeRef::Index(i),
                        expected@,
                        TypeRef::Index(j),
                        depth + 1,
                    ) by {
                        assert(rel@[i as int]@[j as int] == next@[i as int]@[j as int]);
                    }
                }
                return Compat { rel, depth: Ghost(depth) };
            }
            proof {
                assert(cells_within(next@, rel@)) by {
                    assert forall|i: int, j: int|
                        0 <= i < next@.len() && 0 <= j < next@[i]@.len()
                            && #[trigger] next@[i]@[j] implies rel@[i]@[j] by {
                        lemma_compat_monotonic(
                            wire@,
                            TypeRef::Index(i as usize),
                            expected@,
                            TypeRef::Index(j as usize),
                            depth,
                        );
                    }
                }
                let (i, j) = choose|i: int, j: int|
                    0 <= i < rel@.len() && 0 <= j < expected@.len() && #[trigger] rel@[i]@[j]
                        != next@[i]@[j];
                assert(next@[i]@[j] ==> rel@[i]@[j]);
                assert(rel@[i]@[j] && !next@[i]@[j]);
                crate::compat::lemma_count_cells(next@, rel@);
            }
            rel = next;
            proof {
                depth = depth + 1;
            }
        }
    }

    /// Whether the written type can be read as the expected type.
    pub fn accepts(&self, wire: &TypeTable, expected: &TypeTable, w: TypeRef, e: TypeRef) -> (b:
        bool)
        requires
            self.answers_for(wire@, expected@),
        ensures
            b == compatible(wire@, w, expected@, e),
    {
        proof {
            lemma_fixpoint(wire@, expected@, self.depth@, w, e);
        }
        lookup(&self.rel, wire, expected, w, e, Ghost(self.depth@))
    }
}

} // verus!
