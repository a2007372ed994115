//! Reading values.

use vstd::prelude::*;
use crate::bignum::{Int, Nat};
use crate::compat_check::Compat;
use crate::decode_spec::{
    decode_fields, decode_items, decode_opt, decode_record, decode_value, decode_variant,
    decode_vec, default_value, parse_func_value, parse_id, parse_prim, skip_fields, skip_items,
    skip_value, wraps, written_entry,
};
use crate::encode::index_of_key;
use crate::error::DecodeError;
use crate::fixed::{lemma_le_value_bound, lemma_pow256_values, read_le};
use crate::leb128::read_uleb_spec;
use crate::text::{read_blob, read_text};
use crate::types::{Entry, EntryView, FieldRef, Prim, TypeRef, TypeTable};
use crate::value::{
    lemma_record_view, lemma_vec_view, value_view, FieldValue, FieldView, Value, ValueView,
};
use crate::wire::{lemma_prepend_first, lemma_prepend_nothing, prepend, read_count};

verus! {

/// An exec result says what a spec result says.
pub open spec fn same_value(
    r: Result<(Value, usize), DecodeError>,
    s: Result<(ValueView, int), DecodeError>,
) -> bool {
    match s {
        Ok((v, end)) => r matches Ok((rv, rend)) && rv@ == v && rend == end,
        Err(e) => r == Err::<(Value, usize), DecodeError>(e),
    }
}

/// An exec result says what a spec result says.
pub open spec fn same_end(r: Result<usize, DecodeError>, s: Result<int, DecodeError>) -> bool {
    match s {
        Ok(end) => r matches Ok(rend) && rend == end,
        Err(e) => r == Err::<usize, DecodeError>(e),
    }
}

/// Reads a reference to a service at `pos`.
pub fn read_id(bytes: &[u8], pos: usize) -> (r: Result<(Vec<u8>, usize), DecodeError>)
    ensures
        match parse_id(bytes@, pos as int) {
            Ok((id, end)) => r matches Ok((rid, rend)) && rid@ == id && rend == end,
            Err(e) => r == Err::<(Vec<u8>, usize), DecodeError>(e),
        },
{
    if pos >= bytes.len() {
        return Err(DecodeError::UnexpectedEof);
    }
    if bytes[pos] != 1 {
        return Err(DecodeError::MalformedValue);
    }
    read_blob(bytes, pos + 1)
}

/// Reads a function value at `pos`.
pub fn read_func_value(bytes: &[u8], pos: usize) -> (r: Result<(Value, usize), DecodeError>)
    ensures
        same_value(r, parse_func_value(bytes@, pos as int)),
{
    proof {
        reveal_with_fuel(value_view, 1);
    }
    if pos >= bytes.len() {
        return Err(DecodeError::UnexpectedEof);
    }
    if bytes[pos] != 1 {
        return Err(DecodeError::MalformedValue);
    }
    let (id, next) = match read_id(bytes, pos + 1) {
        Ok(x) => x,
        Err(e) => { return Err(e); },
    };
    match read_text(bytes, next) {
        Err(e) => Err(e),
        Ok((method, end)) => Ok((Value::Func(id, method), end)),
    }
}

/// Reads a value of a primitive kind at `pos`.
pub fn read_prim(p: Prim, bytes: &[u8], pos: usize) -> (r: Result<(Value, usize), DecodeError>)
    ensures
        same_value(r, parse_prim(p, bytes@, pos as int)),
{
    proof {
        reveal_with_fuel(value_view, 1);
    }
    proof {
        lemma_pow256_values();
        lemma_le_value_bound(bytes@, pos as int, 1);
        lemma_le_value_bound(bytes@, pos as int, 2);
        lemma_le_value_bound(bytes@, pos as int, 4);
        lemma_le_value_bound(bytes@, pos as int, 8);
    }
    match p {
        Prim::Null => Ok((Value::Null, pos)),
        Prim::Reserved => Ok((Value::Reserved, pos)),
        Prim::Empty => Err(DecodeError::MalformedValue),
        Prim::Bool => {
            if pos >= bytes.len() {
                Err(DecodeError::UnexpectedEof)
            } else if bytes[pos] == 0 {
                Ok((Value::Bool(false), pos + 1))
            } else if bytes[pos] == 1 {
                Ok((Value::Bool(true), pos + 1))
            } else {
                Err(DecodeError::MalformedValue)
            }
        },
        Prim::Nat => match Nat::read(bytes, pos) {
            Err(e) => Err(e),
            Ok((n, end)) => Ok((Value::Nat(n), end)),
        },
        Prim::Int => match Int::read(bytes, pos) {
            Err(e) => Err(e),
            Ok((n, end)) => Ok((Value::Int(n), end)),
        },
        Prim::Nat8 => match read_le(bytes, pos, 1) {
            Err(e) => Err(e),
            Ok((v, end)) => Ok((Value::Nat8(v as u8), end)),
        },
        Prim::Nat16 => match read_le(bytes, pos, 2) {
            Err(e) => Err(e),
            Ok((v, end)) => Ok((Value::Nat16(v as u16), end)),
        },
        Prim::Nat32 => match read_le(bytes, pos, 4) {
            Err(e) => Err(e),
            Ok((v, end)) => Ok((Value::Nat32(v as u32), end)),
        },
        Prim::Nat64 => match read_le(bytes, pos, 8) {
            Err(e) => Err(e),
            Ok((v, end)) => Ok((Value::Nat64(v), end)),
        },
        Prim::Int8 => match read_le(bytes, pos, 1) {
            Err(e) => Err(e),
            Ok((v, end)) => {
                let n: i8 = if v >= 0x80 { (v as i64 - 0x100) as i8 } else { v as i8 };
                Ok((Value::Int8(n), end))
            },
        },
        Prim::Int16 => match read_le(bytes, pos, 2) {
            Err(e) => Err(e),
            Ok((v, end)) => {
                let n: i16 = if v >= 0x8000 { (v as i64 - 0x1_0000) as i16 } else { v as i16 };
                Ok((Value::Int16(n), end))
            },
        },
        Prim::Int32 => match read_le(bytes, pos, 4) {
            Err(e) => Err(e),
            Ok((v, end)) => {
                let n: i32 = if v >= 0x8000_0000 {
                    (v as i64 - 0x1_0000_0000) as i32
                } else {
                    v as i32
                };
                Ok((Value::Int32(n), end))
            },
        },
        Prim::Int64 => match read_le(bytes, pos, 8) {
            Err(e) => Err(e),
            Ok((v, end)) => {
                let n: i64 = if v >= 0x8000_0000_0000_0000 {
                    (v as i128 - 0x1_0000_0000_0000_0000) as i64
                } else {
                    v as i64
                };
                Ok((Value::Int64(n), end))
            },
        },
        Prim::Float32 => match read_le(bytes, pos, 4) {
            Err(e) => Err(e),
            Ok((v, end)) => Ok((Value::Float32(v as u32), end)),
        },
        Prim::Float64 => match read_le(bytes, pos, 8) {
            Err(e) => Err(e),
            Ok((v, end)) => Ok((Value::Float64(v), end)),
        },
        Prim::Text => match read_text(bytes, pos) {
            Err(e) => Err(e),
            Ok((text, end)) => Ok((Value::Text(text), end)),
        },
        Prim::Principal => match read_blob(bytes, pos) {
            Err(e) => Err(e),
            Ok((id, end)) => Ok((Value::Principal(id), end)),
        },
    }
}

/// Passes over the value of type `w` at `pos`.
pub fn skip(wire: &TypeTable, w: TypeRef, bytes: &[u8], pos: usize, depth: usize) -> (r: Result<
    usize,
    DecodeError,
>)
    ensures
        same_end(r, skip_value(wire@, w, bytes@, pos as int, depth as nat)),
    decreases depth,
{
    if depth == 0 {
        return Err(DecodeError::DepthLimit);
    }
    let i: usize = match w {
        TypeRef::Prim(p) => {
            return match read_prim(p, bytes, pos) {
                Err(e) => Err(e),
                Ok((_, end)) => Ok(end),
            };
        },
        TypeRef::Index(i) => i,
    };
    if i >= wire.entries.len() {
        return Err(DecodeError::MalformedTable);
    }
    let ghost wv = wire@;
    let ghost d = (depth - 1) as nat;
    proof {
        assert(wv[i as int] == wire.entries@[i as int]@);
    }
    match &wire.entries[i] {
        Entry::Opt(t) => {
            if pos >= bytes.len() {
                Err(DecodeError::UnexpectedEof)
            } else if bytes[pos] == 0 {
                Ok(pos + 1)
            } else if bytes[pos] == 1 {
                skip(wire, *t, bytes, pos + 1, depth - 1)
            } else {
                Err(DecodeError::MalformedValue)
            }
        },
        Entry::Vec(t) => {
            let (n, start) = match read_count(bytes, pos) {
                Ok(x) => x,
                Err(e) => { return Err(e); },
            };
            let mut cur: usize = start;
            let mut k: usize = 0;
            while k < n
                invariant
                    k <= n,
                    wv == wire@,
                    d == depth - 1,
                    depth > 0,
                    w == TypeRef::Index(i),
                    i < wv.len(),
                    wv[i as int] == EntryView::Vec(*t),
                    read_uleb_spec(bytes@, pos as int, usize::MAX as nat) == Ok::<
                        (nat, int),
                        DecodeError,
                    >((n as nat, start as int)),
                    skip_items(wv, *t, bytes@, start as int, n as nat, d) == skip_items(
                        wv,
                        *t,
                        bytes@,
                        cur as int,
                        (n - k) as nat,
                        d,
                    ),
                decreases n - k,
            {
                cur = match skip(wire, *t, bytes, cur, depth - 1) {
                    Ok(next) => next,
                    Err(e) => {
                        return Err(e);
                    },
                };
                k = k + 1;
            }
            Ok(cur)
        },
        Entry::Record(fields) => {
            let mut cur: usize = pos;
            let mut k: usize = 0;
            while k < fields.len()
                invariant
                    k <= fields@.len(),
                    wv == wire@,
                    d == depth - 1,
                    depth > 0,
                    w == TypeRef::Index(i),
                    i < wv.len(),
                    wv[i as int] == EntryView::Record(fields@),
                    skip_fields(wv, fields@, bytes@, pos as int, 0, d) == skip_fields(
                        wv,
                        fields@,
                        bytes@,
                        cur as int,
                        k as int,
                        d,
                    ),
                decreases fields.len() - k,
            {
                cur = match skip(wire, fields[k].ty, bytes, cur, depth - 1) {
                    Ok(next) => next,
                    Err(e) => {
                        return Err(e);
                    },
                };
                k = k + 1;
            }
            Ok(cur)
        },
        Entry::Variant(fields) => {
            let (idx, next) = match read_count(bytes, pos) {
                Ok(x) => x,
                Err(e) => { return Err(e); },
            };
            if idx >= fields.len() {
                return Err(DecodeError::MalformedValue);
            }
            skip(wire, fields[idx].ty, bytes, next, depth - 1)
        },
        Entry::Func { .. } => match read_func_value(bytes, pos) {
            Err(e) => Err(e),
            Ok((_, end)) => Ok(end),
        },
        Entry::Service(_) => match read_id(bytes, pos) {
            Err(e) => Err(e),
            Ok((_, end)) => Ok(end),
        },
    }
}

} // verus!

verus! {

/// What stands for a record field that was not written, if anything may.
pub fn default_for(expected: &TypeTable, e: TypeRef) -> (r: Option<Value>)
    ensures
        match default_value(expected@, e) {
            Some(v) => r matches Some(rv) && rv@ == v,
            None => r is None,
        },
{
    proof {
        reveal_with_fuel(value_view, 1);
    }
    match e {
        TypeRef::Prim(p) => if p == Prim::Reserved {
            Some(Value::Reserved)
        } else {
            None
        },
        TypeRef::Index(j) => {
            if j < expected.entries.len() {
                proof {
                    assert(expected@[j as int] == expected.entries@[j as int]@);
                }
                if crate::compat_check::entry_is_opt(&expected.entries[j]) {
                    Some(Value::Opt(None))
                } else {
                    None
                }
            } else {
                None
            }
        },
    }
}

/// Whether a value that was written bare may be read as a present option of
/// the type `t`.
pub fn may_wrap(expected: &TypeTable, t: TypeRef) -> (b: bool)
    ensures
        b == wraps(expected@, t),
{
    match t {
        TypeRef::Prim(p) => p != Prim::Null && p != Prim::Reserved,
        TypeRef::Index(j) => {
            if j < expected.entries.len() {
                proof {
                    assert(expected@[j as int] == expected.entries@[j as int]@);
                }
                !crate::compat_check::entry_is_opt(&expected.entries[j])
            } else {
                false
            }
        },
    }
}

/// Reads the value at `pos`, written as the type `w` of the table `wire`, as
/// the type `e` of the table `expected`. `depth` is how many values within
/// values may be entered.
pub fn decode(
    wire: &TypeTable,
    w: TypeRef,
    expected: &TypeTable,
    e: TypeRef,
    compat: &Compat,
    bytes: &[u8],
    pos: usize,
    depth: usize,
) -> (r: Result<(Value, usize), DecodeError>)
    requires
        compat.answers_for(wire@, expected@),
    ensures
        same_value(r, decode_value(wire@, w, expected@, e, bytes@, pos as int, depth as nat)),
    decreases depth, 0nat,
{
    proof {
        reveal_with_fuel(value_view, 1);
    }
    if depth == 0 {
        return Err(DecodeError::DepthLimit);
    }
    let j: usize = match e {
        TypeRef::Prim(p) => {
            if p == Prim::Null {
                return match skip(wire, w, bytes, pos, depth) {
                    Err(e) => Err(e),
                    Ok(end) => Ok((Value::Null, end)),
                };
            }
            if p == Prim::Reserved {
                return match skip(wire, w, bytes, pos, depth) {
                    Err(e) => Err(e),
                    Ok(end) => Ok((Value::Reserved, end)),
                };
            }
            if w == e {
                return read_prim(p, bytes, pos);
            }
            return Err(
                DecodeError::FieldSubtypeMismatch { table_index: wire.entries.len(), key: 0 },
            );
        },
        TypeRef::Index(j) => j,
    };
    if j >= expected.entries.len() {
        return Err(DecodeError::MalformedTable);
    }
    proof {
        assert(expected@[j as int] == expected.entries@[j as int]@);
    }
    match &expected.entries[j] {
        Entry::Opt(t) => read_opt(wire, w, expected, *t, compat, bytes, pos, depth - 1),
        Entry::Vec(t) => read_vec(wire, w, expected, *t, compat, bytes, pos, depth - 1),
        Entry::Record(efs) => read_record(wire, w, expected, efs, compat, bytes, pos, depth - 1),
        Entry::Variant(efs) => read_variant(wire, w, expected, efs, compat, bytes, pos, depth - 1),
        Entry::Func { .. } => match entry_of(wire, w) {
            Some((_, Entry::Func { .. })) => read_func_value(bytes, pos),
            _ => Err(DecodeError::FieldSubtypeMismatch { table_index: wire.entries.len(), key: 0 }),
        },
        Entry::Service(_) => match entry_of(wire, w) {
            Some((_, Entry::Service(_))) => match read_id(bytes, pos) {
                Err(e) => Err(e),
                Ok((id, end)) => Ok((Value::Service(id), end)),
            },
            _ => Err(DecodeError::FieldSubtypeMismatch { table_index: wire.entries.len(), key: 0 }),
        },
    }
}

/// The written type, if it is an entry of the table, and that entry.
pub fn entry_of<'a>(wire: &'a TypeTable, w: TypeRef) -> (r: Option<(usize, &'a Entry)>)
    ensures
        match written_entry(wire@, w) {
            Some((i, entry)) => r matches Some((ri, re)) && ri == i && re@ == entry && i
                < wire.entries@.len() && *re == wire.entries@[i as int],
            None => r is None,
        },
{
    match w {
        TypeRef::Prim(_) => None,
        TypeRef::Index(i) => {
            if i < wire.entries.len() {
                proof {
                    assert(wire@[i as int] == wire.entries@[i as int]@);
                }
                Some((i, &wire.entries[i]))
            } else {
                None
            }
        },
    }
}

/// Reads a value that is expected as an option of the type `t`.
fn read_opt(
    wire: &TypeTable,
    w: TypeRef,
    expected: &TypeTable,
    t: TypeRef,
    compat: &Compat,
    bytes: &[u8],
    pos: usize,
    depth: usize,
) -> (r: Result<(Value, usize), DecodeError>)
    requires
        compat.answers_for(wire@, expected@),
    ensures
        same_value(r, decode_opt(wire@, w, expected@, t, bytes@, pos as int, depth as nat)),
    decreases depth, 2nat,
{
    proof {
        reveal_with_fuel(value_view, 1);
    }
    if w == TypeRef::Prim(Prim::Null) || w == TypeRef::Prim(Prim::Reserved) {
        return Ok((Value::Opt(None), pos));
    }
    match entry_of(wire, w) {
        Some((_, Entry::Opt(wt))) => {
            if pos >= bytes.len() {
                Err(DecodeError::UnexpectedEof)
            } else if bytes[pos] == 0 {
                Ok((Value::Opt(None), pos + 1))
            } else if bytes[pos] == 1 {
                if compat.accepts(wire, expected, *wt, t) {
                    match decode(wire, *wt, expected, t, compat, bytes, pos + 1, depth) {
                        Err(e) => Err(e),
                        Ok((v, end)) => Ok((Value::Opt(Some(Box::new(v))), end)),
                    }
                } else {
                    match skip(wire, *wt, bytes, pos + 1, depth) {
                        Err(e) => Err(e),
                        Ok(end) => Ok((Value::Opt(None), end)),
                    }
                }
            } else {
                Err(DecodeError::MalformedValue)
            }
        },
        _ => {
            if may_wrap(expected, t) && compat.accepts(wire, expected, w, t) {
                match decode(wire, w, expected, t, compat, bytes, pos, depth) {
                    Err(e) => Err(e),
                    Ok((v, end)) => Ok((Value::Opt(Some(Box::new(v))), end)),
                }
            } else {
                match skip(wire, w, bytes, pos, depth) {
                    Err(e) => Err(e),
                    Ok(end) => Ok((Value::Opt(None), end)),
                }
            }
        },
    }
}

/// Reads a value that is expected as a vector of the type `t`.
fn read_vec(
    wire: &TypeTable,
    w: TypeRef,
    expected: &TypeTable,
    t: TypeRef,
    compat: &Compat,
    bytes: &[u8],
    pos: usize,
    depth: usize,
) -> (r: Result<(Value, usize), DecodeError>)
    requires
        compat.answers_for(wire@, expected@),
    ensures
        same_value(r, decode_vec(wire@, w, expected@, t, bytes@, pos as int, depth as nat)),
    decreases depth, 2nat,
{
    let wt: TypeRef = match entry_of(wire, w) {
        Some((_, Entry::Vec(wt))) => *wt,
        _ => {
            return Err(
                DecodeError::FieldSubtypeMismatch { table_index: wire.entries.len(), key: 0 },
            );
        },
    };
    let (n, start) = match read_count(bytes, pos) {
        Ok(x) => x,
        Err(e) => { return Err(e); },
    };
    match read_items(wire, wt, expected, t, compat, bytes, start, n, depth) {
        Err(e) => Err(e),
        Ok((items, end)) => {
            proof {
                lemma_vec_view(items);
            }
            Ok((Value::Vec(items), end))
        },
    }
}

/// Reads `n` items of a vector in a row.
fn read_items(
    wire: &TypeTable,
    wt: TypeRef,
    expected: &TypeTable,
    t: TypeRef,
    compat: &Compat,
    bytes: &[u8],
    start: usize,
    n: usize,
    depth: usize,
) -> (r: Result<(Vec<Value>, usize), DecodeError>)
    requires
        compat.answers_for(wire@, expected@),
    ensures
        match decode_items(wire@, wt, expected@, t, bytes@, start as int, n as nat, depth as nat) {
            Ok((items, end)) => r matches Ok((ri, rend)) && ri@.map_values(|v: Value| v@) == items
                && rend == end,
            Err(e) => r == Err::<(Vec<Value>, usize), DecodeError>(e),
        },
    decreases depth, 1nat,
{
    let ghost d = depth as nat;
    let ghost all = decode_items(wire@, wt, expected@, t, bytes@, start as int, n as nat, d);
    let mut acc: Vec<Value> = Vec::new();
    let mut cur: usize = start;
    let mut k: usize = 0;
    proof {
        lemma_prepend_nothing(all, Seq::<ValueView>::empty(), 0);
        assert(acc@.map_values(|v: Value| v@) =~= Seq::<ValueView>::empty());
    }
    while k < n
        invariant
            k <= n,
            compat.answers_for(wire@, expected@),
            d == depth,
            all == decode_items(wire@, wt, expected@, t, bytes@, start as int, n as nat, d),
            prepend(
                acc@.map_values(|v: Value| v@),
                decode_items(wire@, wt, expected@, t, bytes@, cur as int, (n - k) as nat, d),
            ) == all,
        decreases n - k,
    {
        let ghost done = acc@.map_values(|v: Value| v@);
        match decode(wire, wt, expected, t, compat, bytes, cur, depth) {
            Err(e) => {
                return Err(e);
            },
            Ok((v, next)) => {
                proof {
                    lemma_prepend_first(
                        done,
                        v@,
                        decode_items(
                            wire@,
                            wt,
                            expected@,
                            t,
                            bytes@,
                            next as int,
                            (n - k - 1) as nat,
                            d,
                        ),
                    );
                    assert(acc@.push(v).map_values(|v: Value| v@) =~= done.push(v@));
                }
                acc.push(v);
                cur = next;
            },
        }
        k = k + 1;
    }
    proof {
        lemma_prepend_nothing(all, acc@.map_values(|v: Value| v@), cur as int);
    }
    Ok((acc, cur))
}

/// Reads a value that is expected as a record of the fields `efs`.
fn read_record(
    wire: &TypeTable,
    w: TypeRef,
    expected: &TypeTable,
    efs: &Vec<FieldRef>,
    compat: &Compat,
    bytes: &[u8],
    pos: usize,
    depth: usize,
) -> (r: Result<(Value, usize), DecodeError>)
    requires
        compat.answers_for(wire@, expected@),
    ensures
        same_value(r, decode_record(wire@, w, expected@, efs@, bytes@, pos as int, depth as nat)),
    decreases depth, 2nat,
{
    let (i, wfs): (usize, &Vec<FieldRef>) = match entry_of(wire, w) {
        Some((i, Entry::Record(wfs))) => (i, wfs),
        _ => {
            return Err(
                DecodeError::FieldSubtypeMismatch { table_index: wire.entries.len(), key: 0 },
            );
        },
    };
    match read_members(wire, i, wfs, expected, efs, compat, bytes, pos, depth) {
        Err(e) => Err(e),
        Ok((members, end)) => {
            proof {
                lemma_record_view(members);
            }
            Ok((Value::Record(members), end))
        },
    }
}

/// Reads the fields of a record: those of `efs`, from the written `wfs`.
fn read_members(
    wire: &TypeTable,
    i: usize,
    wfs: &Vec<FieldRef>,
    expected: &TypeTable,
    efs: &Vec<FieldRef>,
    compat: &Compat,
    bytes: &[u8],
    pos: usize,
    depth: usize,
) -> (r: Result<(Vec<FieldValue>, usize), DecodeError>)
    requires
        compat.answers_for(wire@, expected@),
    ensures
        match decode_fields(
            wire@,
            i,
            wfs@,
            expected@,
            efs@,
            bytes@,
            pos as int,
            0,
            0,
            depth as nat,
        ) {
            Ok((members, end)) => r matches Ok((rm, rend)) && rm@.map_values(|f: FieldValue| f@)
                == members && rend == end,
            Err(e) => r == Err::<(Vec<FieldValue>, usize), DecodeError>(e),
        },
    decreases depth, 1nat,
{
    let ghost d = depth as nat;
    let ghost all = decode_fields(wire@, i, wfs@, expected@, efs@, bytes@, pos as int, 0, 0, d);
    let mut acc: Vec<FieldValue> = Vec::new();
    let mut cur: usize = pos;
    let mut wi: usize = 0;
    let mut ei: usize = 0;
    proof {
        assert(acc@.map_values(|f: FieldValue| f@) =~= Seq::<FieldView>::empty());
        lemma_prepend_nothing(all, Seq::<FieldView>::empty(), 0);
    }
    while wi < wfs.len() || ei < efs.len()
        invariant
            wi <= wfs@.len(),
            ei <= efs@.len(),
            compat.answers_for(wire@, expected@),
            d == depth,
            all == decode_fields(wire@, i, wfs@, expected@, efs@, bytes@, pos as int, 0, 0, d),
            prepend(
                acc@.map_values(|f: FieldValue| f@),
                decode_fields(
                    wire@,
                    i,
                    wfs@,
                    expected@,
                    efs@,
                    bytes@,
                    cur as int,
                    wi as int,
                    ei as int,
                    d,
                ),
            ) == all,
        decreases (wfs.len() - wi) + (efs.len() - ei),
    {
        let ghost done = acc@.map_values(|f: FieldValue| f@);
        if ei < efs.len() && (wi >= wfs.len() || efs[ei].key < wfs[wi].key) {
            let key: u32 = efs[ei].key;
            match default_for(expected, efs[ei].ty) {
                None => {
                    return Err(DecodeError::MissingRequiredField { table_index: i, key });
                },
                Some(v) => {
                    proof {
                        lemma_prepend_first(
                            done,
                            FieldView { key, value: v@ },
                            decode_fields(
                                wire@,
                                i,
                                wfs@,
                                expected@,
                                efs@,
                                bytes@,
                                cur as int,
                                wi as int,
                                ei + 1,
                                d,
                            ),
                        );
                        let m = FieldValue { key, value: v };
                        assert(acc@.push(m).map_values(|f: FieldValue| f@) =~= done.push(m@));
                    }
                    acc.push(FieldValue { key, value: v });
                    ei = ei + 1;
                },
            }
        } else if ei < efs.len() && efs[ei].key == wfs[wi].key {
            let key: u32 = efs[ei].key;
            match decode(wire, wfs[wi].ty, expected, efs[ei].ty, compat, bytes, cur, depth) {
                Err(e) => {
                    return Err(e);
                },
                Ok((v, next)) => {
                    proof {
                        lemma_prepend_first(
                            done,
                            FieldView { key, value: v@ },
                            decode_fields(
                                wire@,
                                i,
                                wfs@,
                                expected@,
                                efs@,
                                bytes@,
                                next as int,
                                wi + 1,
                                ei + 1,
                                d,
                            ),
                        );
                        let m = FieldValue { key, value: v };
                        assert(acc@.push(m).map_values(|f: FieldValue| f@) =~= done.push(m@));
                    }
                    acc.push(FieldValue { key, value: v });
                    cur = next;
                    wi = wi + 1;
                    ei = ei + 1;
                },
            }
        } else {
            match skip(wire, wfs[wi].ty, bytes, cur, depth) {
                Err(e) => {
                    return Err(e);
                },
                Ok(next) => {
                    cur = next;
                    wi = wi + 1;
                },
            }
        }
    }
    proof {
        lemma_prepend_nothing(all, acc@.map_values(|f: FieldValue| f@), cur as int);
    }
    Ok((acc, cur))
}

/// Reads a value that is expected as a variant of the members `efs`.
fn read_variant(
    wire: &TypeTable,
    w: TypeRef,
    expected: &TypeTable,
    efs: &Vec<FieldRef>,
    compat: &Compat,
    bytes: &[u8],
    pos: usize,
    depth: usize,
) -> (r: Result<(Value, usize), DecodeError>)
    requires
        compat.answers_for(wire@, expected@),
    ensures
        same_value(r, decode_variant(wire@, w, expected@, efs@, bytes@, pos as int, depth as nat)),
    decreases depth, 2nat,
{
    proof {
        reveal_with_fuel(value_view, 1);
    }
    let (i, wfs): (usize, &Vec<FieldRef>) = match entry_of(wire, w) {
        Some((i, Entry::Variant(wfs))) => (i, wfs),
        _ => {
            return Err(
                DecodeError::FieldSubtypeMismatch { table_index: wire.entries.len(), key: 0 },
            );
        },
    };
    let (idx, next) = match read_count(bytes, pos) {
        Ok(x) => x,
        Err(e) => { return Err(e); },
    };
    if idx >= wfs.len() {
        return Err(DecodeError::MalformedValue);
    }
    let key: u32 = wfs[idx].key;
    let x: usize = match index_of_key(efs, key) {
        None => {
            return Err(DecodeError::UnknownVariantTag { table_index: i, key });
        },
        Some(x) => x,
    };
    if !compat.accepts(wire, expected, wfs[idx].ty, efs[x].ty) {
        return Err(DecodeError::UnknownVariantTag { table_index: i, key });
    }
    match decode(wire, wfs[idx].ty, expected, efs[x].ty, compat, bytes, next, depth) {
        Err(e) => Err(e),
        Ok((v, end)) => Ok((Value::Variant(key, Box::new(v)), end)),
    }
}

} // verus!
