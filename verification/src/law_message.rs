//! What holds of whole messages.

use vstd::prelude::*;
use crate::compat::compatible;
use crate::de::{decode_args, deserialize_spec};
use crate::decode_spec::{decode_value, parse_prim, written_entry};
use crate::encode::{find_key, value_bytes};
use crate::error::DecodeError;
use crate::law_table::{law_header_round_trip, table_fits};
use crate::law_value::{law_compatible_reflexive, lemma_value_round_trip, value_within};
use crate::leb128::{holds_at, lemma_holds_at_split, read_uleb_spec};
use crate::ser::{args_bytes, args_conform, message_bytes};
use crate::table::header_bytes;
use crate::types::{refs_in_range, table_well_formed, Prim, TableView, TypeRef};
use crate::value::ValueView;

verus! {

proof fn lemma_args_round_trip(
    table: TableView,
    types: Seq<TypeRef>,
    values: Seq<ValueView>,
    from: int,
    bytes: Seq<u8>,
    pos: int,
    depth: nat,
)
    requires
        table_well_formed(table),
        table_fits(table),
        refs_in_range(types, table.len()),
        args_conform(table, types, values),
        forall|k: int| 0 <= k < values.len() ==> value_within(#[trigger] values[k], depth),
        0 <= from <= values.len(),
        holds_at(bytes, pos, args_bytes(table, types, values, from)),
    ensures
        decode_args(table, types, table, types, bytes, pos, from, depth) == Ok::<
            (Seq<ValueView>, int),
            DecodeError,
        >(
            (
                values.subrange(from, values.len() as int),
                pos + args_bytes(table, types, values, from).len(),
            ),
        ),
    decreases values.len() - from,
{
    if from < values.len() {
        let first = value_bytes(table, types[from], values[from]);
        let rest = args_bytes(table, types, values, from + 1);
        lemma_holds_at_split(bytes, pos, first, rest);
        law_compatible_reflexive(table, types[from]);
        lemma_value_round_trip(table, types[from], values[from], bytes, pos, depth);
        lemma_args_round_trip(table, types, values, from + 1, bytes, pos + first.len(), depth);
        assert(seq![values[from]] + values.subrange(from + 1, values.len() as int)
            =~= values.subrange(from, values.len() as int));
    } else {
        assert(values.subrange(from, values.len() as int) =~= Seq::<ValueView>::empty());
    }
}

/// Round trip: values that have the shapes of their types, written under
/// those types and read back as the same types, are the values that were
/// written. The table is well formed and of a size that a machine can hold,
/// and the reader may descend as deep as the values are nested.
pub proof fn law_round_trip(
    table: TableView,
    types: Seq<TypeRef>,
    values: Seq<ValueView>,
    depth: nat,
)
    requires
        table_well_formed(table),
        table_fits(table),
        refs_in_range(types, table.len()),
        types.len() <= usize::MAX,
        args_conform(table, types, values),
        forall|k: int| 0 <= k < values.len() ==> value_within(#[trigger] values[k], depth),
    ensures
        deserialize_spec(message_bytes(table, types, values), table, types, depth) == Ok::<
            Seq<ValueView>,
            DecodeError,
        >(values),
{
    let header = header_bytes(table, types);
    let args = args_bytes(table, types, values, 0);
    let bytes = message_bytes(table, types, values);
    assert(bytes.subrange(0, bytes.len() as int) =~= bytes);
    lemma_holds_at_split(bytes, 0, header, args);
    law_header_round_trip(bytes, table, types);
    lemma_args_round_trip(table, types, values, 0, bytes, header.len() as int, depth);
    assert(values.subrange(0, values.len() as int) =~= values);
}

/// Round trip where the reader sets no bound of its own: values that have
/// the shapes of their types, written under those types and read back as the
/// same types, are the values that were written. The table and the values
/// are such as a machine can hold.
pub proof fn law_round_trip_unbounded(
    table: TableView,
    types: Seq<TypeRef>,
    values: Seq<ValueView>,
)
    requires
        table_well_formed(table),
        table_fits(table),
        refs_in_range(types, table.len()),
        types.len() <= usize::MAX,
        args_conform(table, types, values),
        forall|k: int|
            0 <= k < values.len() ==> value_within(#[trigger] values[k], usize::MAX as nat),
    ensures
        deserialize_spec(message_bytes(table, types, values), table, types, usize::MAX as nat)
            == Ok::<Seq<ValueView>, DecodeError>(values),
{
    law_round_trip(table, types, values, usize::MAX as nat);
}

/// The written member's payload, read and put under the member's key.
pub open spec fn as_member(key: u32, payload: Result<(ValueView, int), DecodeError>) -> Result<
    (ValueView, int),
    DecodeError,
> {
    match payload {
        Err(e) => Err(e),
        Ok((v, end)) => Ok((ValueView::Variant(key, Box::new(v)), end)),
    }
}

/// Variant exactness. Where the written member of a variant is a member of
/// the expected variant with a payload type that can read the written one,
/// the value read is that member, under its own key, with the payload read as
/// the expected type. Where it is not, reading fails with an unknown tag that
/// names the written variant's entry and the member's key: no other member
/// stands in for it and nothing is filled in.
pub proof fn law_variant_exactness(
    wire: TableView,
    i: usize,
    expected: TableView,
    j: usize,
    bytes: Seq<u8>,
    pos: int,
    depth: nat,
)
    requires
        depth > 0,
        i < wire.len(),
        j < expected.len(),
        wire[i as int] is Variant,
        expected[j as int] is Variant,
        read_uleb_spec(bytes, pos, usize::MAX as nat) matches Ok((idx, _)) && idx
            < wire[i as int]->Variant_0.len(),
    ensures
        ({
            let written = wire[i as int]->Variant_0;
            let members = expected[j as int]->Variant_0;
            let (idx, next) = read_uleb_spec(bytes, pos, usize::MAX as nat)->Ok_0;
            let member = written[idx as int];
            let result = decode_value(
                wire,
                TypeRef::Index(i),
                expected,
                TypeRef::Index(j),
                bytes,
                pos,
                depth,
            );
            match find_key(members, member.key) {
                Some(x) => if compatible(wire, member.ty, expected, members[x].ty) {
                    result == as_member(
                        member.key,
                        decode_value(
                            wire,
                            member.ty,
                            expected,
                            members[x].ty,
                            bytes,
                            next,
                            (depth - 1) as nat,
                        ),
                    )
                } else {
                    result == Err::<(ValueView, int), DecodeError>(
                        DecodeError::UnknownVariantTag { table_index: i, key: member.key },
                    )
                },
                None => result == Err::<(ValueView, int), DecodeError>(
                    DecodeError::UnknownVariantTag { table_index: i, key: member.key },
                ),
            }
        }),
{
    assert(written_entry(wire, TypeRef::Index(i)) == Some((i, wire[i as int])));
}

/// Principal identity, the failing half: a principal whose declared length
/// exceeds the bytes that are left is an unexpected end of input.
pub proof fn law_truncated_principal(bytes: Seq<u8>, pos: int)
    requires
        read_uleb_spec(bytes, pos, usize::MAX as nat) matches Ok((n, start)) && start + n
            > bytes.len(),
    ensures
        parse_prim(Prim::Principal, bytes, pos) == Err::<(ValueView, int), DecodeError>(
            DecodeError::UnexpectedEof,
        ),
{
}

} // verus!
