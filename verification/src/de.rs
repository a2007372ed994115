//! Reading a whole message as the types that the caller expects.

use vstd::prelude::*;
use crate::compat::{compatible, defaultable};
use crate::compat_check::{may_be_missing, Compat};
use crate::decode::{decode, default_for, entry_of};
use crate::decode_spec::{decode_value, default_value, written_entry};
use crate::encode::{find_key, index_of_key};
use crate::error::DecodeError;
use crate::table_parse::{parse_header, read_header};
use crate::types::{Entry, EntryView, FieldRef, TableView, TypeRef, TypeTable};
use crate::value::{Value, ValueView};
use crate::wire::{lemma_prepend_first, lemma_prepend_nothing, prepend, with_first};

verus! {

/// The position of a value among the values of a message, as an error names
/// it.
pub open spec fn slot_key(k: int) -> u32 {
    if 0 <= k <= u32::MAX {
        k as u32
    } else {
        u32::MAX
    }
}

/// The first expected field from `from` on that the written record lacks
/// though it is required, or holds with a type that cannot be read as the
/// expected one; and the error that says so.
pub open spec fn first_bad_field(
    wire: TableView,
    i: usize,
    wfs: Seq<FieldRef>,
    expected: TableView,
    efs: Seq<FieldRef>,
    from: int,
) -> Option<DecodeError>
    decreases efs.len() - from,
{
    if from < 0 || from >= efs.len() {
        None
    } else {
        let key = efs[from].key;
        match find_key(wfs, key) {
            None => if defaultable(expected, efs[from].ty) {
                first_bad_field(wire, i, wfs, expected, efs, from + 1)
            } else {
                Some(DecodeError::MissingRequiredField { table_index: i, key })
            },
            Some(x) => if compatible(wire, wfs[x].ty, expected, efs[from].ty) {
                first_bad_field(wire, i, wfs, expected, efs, from + 1)
            } else {
                Some(DecodeError::FieldSubtypeMismatch { table_index: i, key })
            },
        }
    }
}

/// The error for a value whose written type cannot be read as the expected
/// one. Between two records it names the written record and the first field
/// at fault. Otherwise it names the value's position in the message, with a
/// table index one past the last entry.
pub open spec fn mismatch_error(
    wire: TableView,
    w: TypeRef,
    expected: TableView,
    e: TypeRef,
    k: int,
) -> DecodeError {
    let plain = DecodeError::FieldSubtypeMismatch {
        table_index: wire.len() as usize,
        key: slot_key(k),
    };
    match (written_entry(wire, w), written_entry(expected, e)) {
        (Some((i, EntryView::Record(wfs))), Some((_, EntryView::Record(efs)))) => {
            match first_bad_field(wire, i, wfs, expected, efs, 0) {
                Some(error) => error,
                None => plain,
            }
        },
        _ => plain,
    }
}

/// What reading the values from the `k`-th on gives. A value that was not
/// written is filled in where its expected type may be missing. Values
/// written beyond the expected ones are left unread.
pub open spec fn decode_args(
    wire: TableView,
    wtypes: Seq<TypeRef>,
    expected: TableView,
    etypes: Seq<TypeRef>,
    bytes: Seq<u8>,
    pos: int,
    k: int,
    depth: nat,
) -> Result<(Seq<ValueView>, int), DecodeError>
    decreases etypes.len() - k,
{
    if k < 0 || k >= etypes.len() {
        Ok((Seq::empty(), pos))
    } else if k >= wtypes.len() {
        match default_value(expected, etypes[k]) {
            None => Err(
                DecodeError::MissingRequiredField {
                    table_index: wire.len() as usize,
                    key: slot_key(k),
                },
            ),
            Some(v) => with_first(
                v,
                decode_args(wire, wtypes, expected, etypes, bytes, pos, k + 1, depth),
            ),
        }
    } else if !compatible(wire, wtypes[k], expected, etypes[k]) {
        Err(mismatch_error(wire, wtypes[k], expected, etypes[k], k))
    } else {
        match decode_value(wire, wtypes[k], expected, etypes[k], bytes, pos, depth) {
            Err(e) => Err(e),
            Ok((v, next)) => with_first(
                v,
                decode_args(wire, wtypes, expected, etypes, bytes, next, k + 1, depth),
            ),
        }
    }
}

/// What reading a message as the expected types gives. `depth` is how many
/// values within values may be entered.
pub open spec fn deserialize_spec(
    bytes: Seq<u8>,
    expected: TableView,
    etypes: Seq<TypeRef>,
    depth: nat,
) -> Result<Seq<ValueView>, DecodeError> {
    match parse_header(bytes) {
        Err(e) => Err(e),
        Ok((wire, wtypes, start)) => match decode_args(
            wire,
            wtypes,
            expected,
            etypes,
            bytes,
            start,
            0,
            depth,
        ) {
            Err(e) => Err(e),
            Ok((values, _)) => Ok(values),
        },
    }
}

fn slot(k: usize) -> (key: u32)
    ensures
        key == slot_key(k as int),
{
    if k > u32::MAX as usize {
        u32::MAX
    } else {
        k as u32
    }
}

/// The error for a value whose written type cannot be read as the expected
/// one.
fn mismatch(
    wire: &TypeTable,
    w: TypeRef,
    expected: &TypeTable,
    e: TypeRef,
    compat: &Compat,
    k: usize,
) -> (error: DecodeError)
    requires
        compat.answers_for(wire@, expected@),
    ensures
        error == mismatch_error(wire@, w, expected@, e, k as int),
{
    let plain = DecodeError::FieldSubtypeMismatch { table_index: wire.entries.len(), key: slot(k) };
    let (i, wfs): (usize, &Vec<FieldRef>) = match entry_of(wire, w) {
        Some((i, Entry::Record(wfs))) => (i, wfs),
        _ => {
            return plain;
        },
    };
    let efs: &Vec<FieldRef> = match entry_of(expected, e) {
        Some((_, Entry::Record(efs))) => efs,
        _ => {
            return plain;
        },
    };
    let mut x: usize = 0;
    while x < efs.len()
        invariant
            x <= efs@.len(),
            compat.answers_for(wire@, expected@),
            written_entry(wire@, w) == Some((i, EntryView::Record(wfs@))),
            written_entry(expected@, e) matches Some((_, EntryView::Record(f))) && f == efs@,
            first_bad_field(wire@, i, wfs@, expected@, efs@, 0) == first_bad_field(
                wire@,
                i,
                wfs@,
                expected@,
                efs@,
                x as int,
            ),
        decreases efs.len() - x,
    {
        let key: u32 = efs[x].key;
        match index_of_key(wfs, key) {
            None => {
                if !may_be_missing(expected, efs[x].ty) {
                    return DecodeError::MissingRequiredField { table_index: i, key };
                }
            },
            Some(y) => {
                if !compat.accepts(wire, expected, wfs[y].ty, efs[x].ty) {
                    return DecodeError::FieldSubtypeMismatch { table_index: i, key };
                }
            },
        }
        x = x + 1;
    }
    plain
}

/// Reads a message as the expected types, which the table `expected`
/// describes. Values may be nested as deep as a machine can count.
pub fn deserialize(bytes: &[u8], expected: &TypeTable, etypes: &Vec<TypeRef>) -> (r: Result<
    Vec<Value>,
    DecodeError,
>)
    ensures
        match deserialize_spec(bytes@, expected@, etypes@, usize::MAX as nat) {
            Ok(values) => r matches Ok(rv) && rv@.map_values(|v: Value| v@) == values,
            Err(e) => r == Err::<Vec<Value>, DecodeError>(e),
        },
{
    deserialize_within(bytes, expected, etypes, usize::MAX)
}

/// Reads a message as the expected types, which the table `expected`
/// describes, for a reader that wants to bound its descent: `depth` is how
/// many values within values may be entered.
pub fn deserialize_within(
    bytes: &[u8],
    expected: &TypeTable,
    etypes: &Vec<TypeRef>,
    depth: usize,
) -> (r: Result<Vec<Value>, DecodeError>)
    ensures
        match deserialize_spec(bytes@, expected@, etypes@, depth as nat) {
            Ok(values) => r matches Ok(rv) && rv@.map_values(|v: Value| v@) == values,
            Err(e) => r == Err::<Vec<Value>, DecodeError>(e),
        },
{
    let (wire, wtypes, start) = match read_header(bytes) {
        Ok(x) => x,
        Err(e) => { return Err(e); },
    };
    let compat = Compat::compute(&wire, expected);
    let ghost d = depth as nat;
    let ghost all = decode_args(wire@, wtypes@, expected@, etypes@, bytes@, start as int, 0, d);
    let mut acc: Vec<Value> = Vec::new();
    let mut cur: usize = start;
    let mut k: usize = 0;
    proof {
        lemma_prepend_nothing(all, Seq::<ValueView>::empty(), 0);
        assert(acc@.map_values(|v: Value| v@) =~= Seq::<ValueView>::empty());
    }
    while k < etypes.len()
        invariant
            k <= etypes@.len(),
            compat.answers_for(wire@, expected@),
            d == depth,
            parse_header(bytes@) == Ok::<(TableView, Seq<TypeRef>, int), DecodeError>(
                (wire@, wtypes@, start as int),
            ),
            all == decode_args(wire@, wtypes@, expected@, etypes@, bytes@, start as int, 0, d),
            prepend(
                acc@.map_values(|v: Value| v@),
                decode_args(wire@, wtypes@, expected@, etypes@, bytes@, cur as int, k as int, d),
            ) == all,
        decreases etypes.len() - k,
    {
        let ghost done = acc@.map_values(|v: Value| v@);
        if k >= wtypes.len() {
            match default_for(expected, etypes[k]) {
                None => {
                    return Err(
                        DecodeError::MissingRequiredField {
                            table_index: wire.entries.len(),
                            key: slot(k),
                        },
                    );
                },
                Some(v) => {
                    proof {
                        lemma_prepend_first(
                            done,
                            v@,
                            decode_args(
                                wire@,
                                wtypes@,
                                expected@,
                                etypes@,
                                bytes@,
                                cur as int,
                                k + 1,
                                d,
                            ),
                        );
                        assert(acc@.push(v).map_values(|v: Value| v@) =~= done.push(v@));
                    }
                    acc.push(v);
                },
            }
        } else if !compat.accepts(&wire, expected, wtypes[k], etypes[k]) {
            return Err(mismatch(&wire, wtypes[k], expected, etypes[k], &compat, k));
        } else {
            match decode(&wire, wtypes[k], expected, etypes[k], &compat, bytes, cur, depth) {
                Err(e) => {
                    return Err(e);
                },
                Ok((v, next)) => {
                    proof {
                        lemma_prepend_first(
                            done,
                            v@,
                            decode_args(
                                wire@,
                                wtypes@,
                                expected@,
                                etypes@,
                                bytes@,
                                next as int,
                                k + 1,
                                d,
                            ),
                        );
                        assert(acc@.push(v).map_values(|v: Value| v@) =~= done.push(v@));
                    }
                    acc.push(v);
                    cur = next;
                },
            }
        }
        k = k + 1;
    }
    proof {
        lemma_prepend_nothing(all, acc@.map_values(|v: Value| v@), cur as int);
    }
    Ok(acc)
}

} // verus!
