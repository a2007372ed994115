//! What reading a value gives: the written type says how the bytes are laid
//! out, the expected type says what is made of them.

use vstd::prelude::*;
use crate::compat::compatible;
use crate::encode::find_key;
use crate::error::DecodeError;
use crate::fixed::{read_le_spec, signed_of};
use crate::leb128::{leb_end, read_uleb_spec, sleb_value, uleb_value};
use crate::text::{parse_blob, parse_text};
use crate::types::{EntryView, FieldRef, Prim, TableView, TypeRef};
use crate::value::{FieldView, ValueView};
use crate::wire::with_first;

verus! {

/// What reading a reference to a service at `pos` gives: the marker 1, then
/// the bytes of its identity as a run.
pub open spec fn parse_id(bytes: Seq<u8>, pos: int) -> Result<(Seq<u8>, int), DecodeError> {
    if pos < 0 || pos >= bytes.len() {
        Err(DecodeError::UnexpectedEof)
    } else if bytes[pos] != 1 {
        Err(DecodeError::MalformedValue)
    } else {
        parse_blob(bytes, pos + 1)
    }
}

/// What reading a function value at `pos` gives: the marker 1, the identity
/// of the service, the name of the method.
pub open spec fn parse_func_value(bytes: Seq<u8>, pos: int) -> Result<(ValueView, int), DecodeError> {
    if pos < 0 || pos >= bytes.len() {
        Err(DecodeError::UnexpectedEof)
    } else if bytes[pos] != 1 {
        Err(DecodeError::MalformedValue)
    } else {
        match parse_id(bytes, pos + 1) {
            Err(e) => Err(e),
            Ok((id, next)) => match parse_text(bytes, next) {
                Err(e) => Err(e),
                Ok((method, end)) => Ok((ValueView::Func(id, method), end)),
            },
        }
    }
}

/// A value of `width` bytes, made by `make` from the number they spell.
pub open spec fn parse_fixed(
    bytes: Seq<u8>,
    pos: int,
    width: nat,
    make: spec_fn(nat) -> ValueView,
) -> Result<(ValueView, int), DecodeError> {
    match read_le_spec(bytes, pos, width) {
        Err(e) => Err(e),
        Ok((v, end)) => Ok((make(v), end)),
    }
}

/// What reading a value of a primitive kind at `pos` gives.
pub open spec fn parse_prim(p: Prim, bytes: Seq<u8>, pos: int) -> Result<(ValueView, int), DecodeError> {
    match p {
        Prim::Null => Ok((ValueView::Null, pos)),
        Prim::Reserved => Ok((ValueView::Reserved, pos)),
        Prim::Empty => Err(DecodeError::MalformedValue),
        Prim::Bool => if pos < 0 || pos >= bytes.len() {
            Err(DecodeError::UnexpectedEof)
        } else if bytes[pos] == 0 {
            Ok((ValueView::Bool(false), pos + 1))
        } else if bytes[pos] == 1 {
            Ok((ValueView::Bool(true), pos + 1))
        } else {
            Err(DecodeError::MalformedValue)
        },
        Prim::Nat => match leb_end(bytes, pos) {
            None => Err(DecodeError::UnexpectedEof),
            Some(end) => Ok((ValueView::Nat(uleb_value(bytes, pos)), end)),
        },
        Prim::Int => match leb_end(bytes, pos) {
            None => Err(DecodeError::UnexpectedEof),
            Some(end) => Ok((ValueView::Int(sleb_value(bytes, pos)), end)),
        },
        Prim::Nat8 => parse_fixed(bytes, pos, 1, |v: nat| ValueView::Nat8(v as u8)),
        Prim::Nat16 => parse_fixed(bytes, pos, 2, |v: nat| ValueView::Nat16(v as u16)),
        Prim::Nat32 => parse_fixed(bytes, pos, 4, |v: nat| ValueView::Nat32(v as u32)),
        Prim::Nat64 => parse_fixed(bytes, pos, 8, |v: nat| ValueView::Nat64(v as u64)),
        Prim::Int8 => parse_fixed(bytes, pos, 1, |v: nat| ValueView::Int8(signed_of(v, 1) as i8)),
        Prim::Int16 => parse_fixed(
            bytes,
            pos,
            2,
            |v: nat| ValueView::Int16(signed_of(v, 2) as i16),
        ),
        Prim::Int32 => parse_fixed(
            bytes,
            pos,
            4,
            |v: nat| ValueView::Int32(signed_of(v, 4) as i32),
        ),
        Prim::Int64 => parse_fixed(
            bytes,
            pos,
            8,
            |v: nat| ValueView::Int64(signed_of(v, 8) as i64),
        ),
        Prim::Float32 => parse_fixed(bytes, pos, 4, |v: nat| ValueView::Float32(v as u32)),
        Prim::Float64 => parse_fixed(bytes, pos, 8, |v: nat| ValueView::Float64(v as u64)),
        Prim::Text => match parse_text(bytes, pos) {
            Err(e) => Err(e),
            Ok((text, end)) => Ok((ValueView::Text(text), end)),
        },
        Prim::Principal => match parse_blob(bytes, pos) {
            Err(e) => Err(e),
            Ok((id, end)) => Ok((ValueView::Principal(id), end)),
        },
    }
}

/// The index just past the value of type `w` at `pos`, read without making
/// anything of it. `depth` is how many values within values may be entered.
pub open spec fn skip_value(wire: TableView, w: TypeRef, bytes: Seq<u8>, pos: int, depth: nat) -> Result<
    int,
    DecodeError,
>
    decreases depth, 0nat, 0nat,
{
    if depth == 0 {
        Err(DecodeError::DepthLimit)
    } else {
        match w {
            TypeRef::Prim(p) => match parse_prim(p, bytes, pos) {
                Err(e) => Err(e),
                Ok((_, end)) => Ok(end),
            },
            TypeRef::Index(i) => if i >= wire.len() {
                Err(DecodeError::MalformedTable)
            } else {
                match wire[i as int] {
                    EntryView::Opt(t) => if pos < 0 || pos >= bytes.len() {
                        Err(DecodeError::UnexpectedEof)
                    } else if bytes[pos] == 0 {
                        Ok(pos + 1)
                    } else if bytes[pos] == 1 {
                        skip_value(wire, t, bytes, pos + 1, (depth - 1) as nat)
                    } else {
                        Err(DecodeError::MalformedValue)
                    },
                    EntryView::Vec(t) => match read_uleb_spec(bytes, pos, usize::MAX as nat) {
                        Err(e) => Err(e),
                        Ok((n, start)) => skip_items(wire, t, bytes, start, n, (depth - 1) as nat),
                    },
                    EntryView::Record(fields) => skip_fields(
                        wire,
                        fields,
                        bytes,
                        pos,
                        0,
                        (depth - 1) as nat,
                    ),
                    EntryView::Variant(fields) => match read_uleb_spec(
                        bytes,
                        pos,
                        usize::MAX as nat,
                    ) {
                        Err(e) => Err(e),
                        Ok((idx, next)) => if idx >= fields.len() {
                            Err(DecodeError::MalformedValue)
                        } else {
                            skip_value(wire, fields[idx as int].ty, bytes, next, (depth - 1) as nat)
                        },
                    },
                    EntryView::Func { .. } => match parse_func_value(bytes, pos) {
                        Err(e) => Err(e),
                        Ok((_, end)) => Ok(end),
                    },
                    EntryView::Service(_) => match parse_id(bytes, pos) {
                        Err(e) => Err(e),
                        Ok((_, end)) => Ok(end),
                    },
                }
            },
        }
    }
}

/// The index just past `n` values of type `t` in a row.
pub open spec fn skip_items(wire: TableView, t: TypeRef, bytes: Seq<u8>, pos: int, n: nat, depth: nat) -> Result<
    int,
    DecodeError,
>
    decreases depth, 1nat, n,
{
    if n == 0 {
        Ok(pos)
    } else {
        match skip_value(wire, t, bytes, pos, depth) {
            Err(e) => Err(e),
            Ok(next) => skip_items(wire, t, bytes, next, (n - 1) as nat, depth),
        }
    }
}

/// The index just past the values of the fields from `from` on.
pub open spec fn skip_fields(
    wire: TableView,
    fields: Seq<FieldRef>,
    bytes: Seq<u8>,
    pos: int,
    from: int,
    depth: nat,
) -> Result<int, DecodeError>
    decreases depth, 1nat, fields.len() - from,
{
    if from < 0 || from >= fields.len() {
        Ok(pos)
    } else {
        match skip_value(wire, fields[from].ty, bytes, pos, depth) {
            Err(e) => Err(e),
            Ok(next) => skip_fields(wire, fields, bytes, next, from + 1, depth),
        }
    }
}

/// What a decoder reports where the written type cannot be read as the
/// expected one and no field or member is to blame: the table index is one
/// past the last entry.
pub open spec fn shape_mismatch(wire: TableView, key: u32) -> DecodeError {
    DecodeError::FieldSubtypeMismatch { table_index: wire.len() as usize, key }
}

/// What stands for a record field that was not written, if anything may.
pub open spec fn default_value(expected: TableView, e: TypeRef) -> Option<ValueView> {
    match e {
        TypeRef::Prim(Prim::Reserved) => Some(ValueView::Reserved),
        TypeRef::Index(j) => if j < expected.len() && expected[j as int] is Opt {
            Some(ValueView::Opt(None))
        } else {
            None
        },
        _ => None,
    }
}

/// Whether a value that was written bare may be read as a present option of
/// the type `t`: not where `t` is itself an option, null or reserved.
pub open spec fn wraps(expected: TableView, t: TypeRef) -> bool {
    match t {
        TypeRef::Prim(p) => p != Prim::Null && p != Prim::Reserved,
        TypeRef::Index(j) => j < expected.len() && !(expected[j as int] is Opt),
    }
}

/// The value with its end, as a present option.
pub open spec fn as_present(r: Result<(ValueView, int), DecodeError>) -> Result<
    (ValueView, int),
    DecodeError,
> {
    match r {
        Err(e) => Err(e),
        Ok((v, end)) => Ok((ValueView::Opt(Some(Box::new(v))), end)),
    }
}

/// An absent option that ends where the skipped value ends.
pub open spec fn as_absent(r: Result<int, DecodeError>) -> Result<(ValueView, int), DecodeError> {
    match r {
        Err(e) => Err(e),
        Ok(end) => Ok((ValueView::Opt(None), end)),
    }
}

/// The written type, if it is an entry of the table, and that entry.
pub open spec fn written_entry(wire: TableView, w: TypeRef) -> Option<(usize, EntryView)> {
    match w {
        TypeRef::Index(i) => if i < wire.len() {
            Some((i, wire[i as int]))
        } else {
            None
        },
        TypeRef::Prim(_) => None,
    }
}

/// What reading the value at `pos` gives, where it was written as the type
/// `w` of the table `wire` and is expected as the type `e` of the table
/// `expected`. `depth` is how many values within values may be entered.
///
/// Null and reserved take any value and discard it. A primitive kind is read
/// as it was written. Options, vectors, records and variants are read as
/// `decode_opt`, `decode_vec`, `decode_record` and `decode_variant` say.
pub open spec fn decode_value(
    wire: TableView,
    w: TypeRef,
    expected: TableView,
    e: TypeRef,
    bytes: Seq<u8>,
    pos: int,
    depth: nat,
) -> Result<(ValueView, int), DecodeError>
    decreases depth, 0nat, 0nat,
{
    if depth == 0 {
        Err(DecodeError::DepthLimit)
    } else {
        let d = (depth - 1) as nat;
        match e {
            TypeRef::Prim(Prim::Null) => match skip_value(wire, w, bytes, pos, depth) {
                Err(e) => Err(e),
                Ok(end) => Ok((ValueView::Null, end)),
            },
            TypeRef::Prim(Prim::Reserved) => match skip_value(wire, w, bytes, pos, depth) {
                Err(e) => Err(e),
                Ok(end) => Ok((ValueView::Reserved, end)),
            },
            TypeRef::Prim(p) => if w == e {
                parse_prim(p, bytes, pos)
            } else {
                Err(shape_mismatch(wire, 0))
            },
            TypeRef::Index(j) => if j >= expected.len() {
                Err(DecodeError::MalformedTable)
            } else {
                match expected[j as int] {
                    EntryView::Opt(t) => decode_opt(wire, w, expected, t, bytes, pos, d),
                    EntryView::Vec(t) => decode_vec(wire, w, expected, t, bytes, pos, d),
                    EntryView::Record(efs) => decode_record(wire, w, expected, efs, bytes, pos, d),
                    EntryView::Variant(efs) => decode_variant(
                        wire,
                        w,
                        expected,
                        efs,
                        bytes,
                        pos,
                        d,
                    ),
                    EntryView::Func { .. } => match written_entry(wire, w) {
                        Some((_, EntryView::Func { .. })) => parse_func_value(bytes, pos),
                        _ => Err(shape_mismatch(wire, 0)),
                    },
                    EntryView::Service(_) => match written_entry(wire, w) {
                        Some((_, EntryView::Service(_))) => match parse_id(bytes, pos) {
                            Err(e) => Err(e),
                            Ok((id, end)) => Ok((ValueView::Service(id), end)),
                        },
                        _ => Err(shape_mismatch(wire, 0)),
                    },
                }
            },
        }
    }
}

/// What reading a value gives that is expected as an option of the type `t`.
///
/// Written as null or reserved, it is absent. Written as an option, it is
/// absent or present as its first byte says; what is present and can be read
/// as `t` is read so, and what cannot is passed over and taken as absent.
/// Written bare, it is present where `t` may wrap it and can read it, and
/// passed over and absent otherwise. `depth` is for what the option holds.
pub open spec fn decode_opt(
    wire: TableView,
    w: TypeRef,
    expected: TableView,
    t: TypeRef,
    bytes: Seq<u8>,
    pos: int,
    depth: nat,
) -> Result<(ValueView, int), DecodeError>
    decreases depth, 2nat, 0nat,
{
    if w == TypeRef::Prim(Prim::Null) || w == TypeRef::Prim(Prim::Reserved) {
        Ok((ValueView::Opt(None), pos))
    } else {
        match written_entry(wire, w) {
            Some((_, EntryView::Opt(wt))) => if pos < 0 || pos >= bytes.len() {
                Err(DecodeError::UnexpectedEof)
            } else if bytes[pos] == 0 {
                Ok((ValueView::Opt(None), pos + 1))
            } else if bytes[pos] == 1 {
                if compatible(wire, wt, expected, t) {
                    as_present(decode_value(wire, wt, expected, t, bytes, pos + 1, depth))
                } else {
                    as_absent(skip_value(wire, wt, bytes, pos + 1, depth))
                }
            } else {
                Err(DecodeError::MalformedValue)
            },
            _ => if wraps(expected, t) && compatible(wire, w, expected, t) {
                as_present(decode_value(wire, w, expected, t, bytes, pos, depth))
            } else {
                as_absent(skip_value(wire, w, bytes, pos, depth))
            },
        }
    }
}

/// What reading a value gives that is expected as a vector of the type `t`:
/// a count, then as many items.
pub open spec fn decode_vec(
    wire: TableView,
    w: TypeRef,
    expected: TableView,
    t: TypeRef,
    bytes: Seq<u8>,
    pos: int,
    depth: nat,
) -> Result<(ValueView, int), DecodeError>
    decreases depth, 2nat, 0nat,
{
    match written_entry(wire, w) {
        Some((_, EntryView::Vec(wt))) => match read_uleb_spec(bytes, pos, usize::MAX as nat) {
            Err(e) => Err(e),
            Ok((n, start)) => match decode_items(wire, wt, expected, t, bytes, start, n, depth) {
                Err(e) => Err(e),
                Ok((items, end)) => Ok((ValueView::Vec(items), end)),
            },
        },
        _ => Err(shape_mismatch(wire, 0)),
    }
}

/// What reading a value gives that is expected as a record of the fields
/// `efs`.
pub open spec fn decode_record(
    wire: TableView,
    w: TypeRef,
    expected: TableView,
    efs: Seq<FieldRef>,
    bytes: Seq<u8>,
    pos: int,
    depth: nat,
) -> Result<(ValueView, int), DecodeError>
    decreases depth, 2nat, 0nat,
{
    match written_entry(wire, w) {
        Some((i, EntryView::Record(wfs))) => match decode_fields(
            wire,
            i,
            wfs,
            expected,
            efs,
            bytes,
            pos,
            0,
            0,
            depth,
        ) {
            Err(e) => Err(e),
            Ok((members, end)) => Ok((ValueView::Record(members), end)),
        },
        _ => Err(shape_mismatch(wire, 0)),
    }
}

/// What reading a value gives that is expected as a variant of the members
/// `efs`: the index of the written member, then its payload. A member that
/// the expected variant lacks, or has with a payload type that cannot read
/// the written one, is an unknown tag.
pub open spec fn decode_variant(
    wire: TableView,
    w: TypeRef,
    expected: TableView,
    efs: Seq<FieldRef>,
    bytes: Seq<u8>,
    pos: int,
    depth: nat,
) -> Result<(ValueView, int), DecodeError>
    decreases depth, 2nat, 0nat,
{
    match written_entry(wire, w) {
        Some((i, EntryView::Variant(wfs))) => match read_uleb_spec(bytes, pos, usize::MAX as nat) {
            Err(e) => Err(e),
            Ok((idx, next)) => if idx >= wfs.len() {
                Err(DecodeError::MalformedValue)
            } else {
                let key = wfs[idx as int].key;
                let unknown = DecodeError::UnknownVariantTag { table_index: i, key };
                match find_key(efs, key) {
                    None => Err(unknown),
                    Some(x) => if !compatible(wire, wfs[idx as int].ty, expected, efs[x].ty) {
                        Err(unknown)
                    } else {
                        match decode_value(
                            wire,
                            wfs[idx as int].ty,
                            expected,
                            efs[x].ty,
                            bytes,
                            next,
                            depth,
                        ) {
                            Err(e) => Err(e),
                            Ok((v, end)) => Ok((ValueView::Variant(key, Box::new(v)), end)),
                        }
                    },
                }
            },
        },
        _ => Err(shape_mismatch(wire, 0)),
    }
}

/// What reading `n` items of a vector in a row gives.
pub open spec fn decode_items(
    wire: TableView,
    wt: TypeRef,
    expected: TableView,
    t: TypeRef,
    bytes: Seq<u8>,
    pos: int,
    n: nat,
    depth: nat,
) -> Result<(Seq<ValueView>, int), DecodeError>
    decreases depth, 1nat, n,
{
    if n == 0 {
        Ok((Seq::empty(), pos))
    } else {
        match decode_value(wire, wt, expected, t, bytes, pos, depth) {
            Err(e) => Err(e),
            Ok((v, next)) => with_first(
                v,
                decode_items(wire, wt, expected, t, bytes, next, (n - 1) as nat, depth),
            ),
        }
    }
}

/// A member put before the members that follow it.
pub open spec fn with_member(
    key: u32,
    value: ValueView,
    rest: Result<(Seq<FieldView>, int), DecodeError>,
) -> Result<(Seq<FieldView>, int), DecodeError> {
    with_first(FieldView { key, value }, rest)
}

/// What reading the fields of a record gives, from the written field `wi` and
/// the expected field `ei` on. Both lists ascend by key. The record is entry
/// `i` of the written table.
pub open spec fn decode_fields(
    wire: TableView,
    i: usize,
    wfs: Seq<FieldRef>,
    expected: TableView,
    efs: Seq<FieldRef>,
    bytes: Seq<u8>,
    pos: int,
    wi: int,
    ei: int,
    depth: nat,
) -> Result<(Seq<FieldView>, int), DecodeError>
    decreases depth, 1nat, (if wi < wfs.len() { wfs.len() - wi } else { 0 }) + (if ei
        < efs.len() { efs.len() - ei } else { 0 }),
{
    if wi < 0 || ei < 0 || (wi >= wfs.len() && ei >= efs.len()) {
        Ok((Seq::empty(), pos))
    } else if ei < efs.len() && (wi >= wfs.len() || efs[ei].key < wfs[wi].key) {
        match default_value(expected, efs[ei].ty) {
            None => Err(DecodeError::MissingRequiredField { table_index: i, key: efs[ei].key }),
            Some(v) => with_member(
                efs[ei].key,
                v,
                decode_fields(wire, i, wfs, expected, efs, bytes, pos, wi, ei + 1, depth),
            ),
        }
    } else if ei < efs.len() && efs[ei].key == wfs[wi].key {
        match decode_value(wire, wfs[wi].ty, expected, efs[ei].ty, bytes, pos, depth) {
            Err(e) => Err(e),
            Ok((v, next)) => with_member(
                efs[ei].key,
                v,
                decode_fields(wire, i, wfs, expected, efs, bytes, next, wi + 1, ei + 1, depth),
            ),
        }
    } else {
        match skip_value(wire, wfs[wi].ty, bytes, pos, depth) {
            Err(e) => Err(e),
            Ok(next) => decode_fields(wire, i, wfs, expected, efs, bytes, next, wi + 1, ei, depth),
        }
    }
}

} // verus!
