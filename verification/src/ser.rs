//! Writing a whole message: the header, then each value under its type.

use vstd::prelude::*;
use crate::encode::{conforms, value_bytes, write_value};
use crate::error::EncodeError;
use crate::table::{header_bytes, write_header};
use crate::types::{TableView, TypeRef, TypeTable};
use crate::value::{Value, ValueView};

verus! {

/// The bytes of the values from `from` on, each under its type.
pub open spec fn args_bytes(table: TableView, types: Seq<TypeRef>, values: Seq<ValueView>, from: int) -> Seq<
    u8,
>
    decreases values.len() - from,
{
    if from < 0 || from >= values.len() || from >= types.len() {
        Seq::empty()
    } else {
        value_bytes(table, types[from], values[from]) + args_bytes(table, types, values, from + 1)
    }
}

/// Whether the values can be written under the types: there are as many, and
/// each value has the shape that its type requires.
pub open spec fn args_conform(table: TableView, types: Seq<TypeRef>, values: Seq<ValueView>) -> bool {
    &&& values.len() == types.len()
    &&& forall|k: int| 0 <= k < values.len() ==> conforms(table, types[k], #[trigger] values[k])
}

/// The whole message: the magic bytes, the table, the types of the values,
/// then the values.
pub open spec fn message_bytes(table: TableView, types: Seq<TypeRef>, values: Seq<ValueView>) -> Seq<
    u8,
> {
    header_bytes(table, types) + args_bytes(table, types, values, 0)
}

/// Writes the values under the types, which the table describes.
///
/// Fails where the numbers of values and types differ or a value does not
/// have the shape that its type requires, and only there.
pub fn serialize(table: &TypeTable, types: &Vec<TypeRef>, values: &Vec<Value>) -> (r: Result<
    Vec<u8>,
    EncodeError,
>)
    ensures
        r is Ok <==> args_conform(table@, types@, values@.map_values(|v: Value| v@)),
        r matches Ok(bytes) ==> bytes@ == message_bytes(
            table@,
            types@,
            values@.map_values(|v: Value| v@),
        ),
        r is Err ==> r == Err::<Vec<u8>, EncodeError>(EncodeError::TypeMismatch),
{
    let ghost vv = values@.map_values(|v: Value| v@);
    if values.len() != types.len() {
        return Err(EncodeError::TypeMismatch);
    }
    let mut out: Vec<u8> = Vec::new();
    write_header(&mut out, table, types);
    let ghost start = out@;
    proof {
        assert(start =~= header_bytes(table@, types@));
    }
    let mut k: usize = 0;
    while k < values.len()
        invariant
            k <= values@.len(),
            values@.len() == types@.len(),
            vv == values@.map_values(|v: Value| v@),
            forall|j: int| 0 <= j < k ==> conforms(table@, types@[j], #[trigger] vv[j]),
            start + args_bytes(table@, types@, vv, 0) == out@ + args_bytes(
                table@,
                types@,
                vv,
                k as int,
            ),
        decreases values.len() - k,
    {
        let ghost before = out@;
        proof {
            assert(vv[k as int] == values@[k as int]@);
        }
        match write_value(&mut out, table, types[k], &values[k]) {
            Err(e) => {
                return Err(e);
            },
            Ok(()) => {},
        }
        proof {
            let rest = args_bytes(table@, types@, vv, k + 1);
            assert(before + (value_bytes(table@, types@[k as int], vv[k as int]) + rest) =~= out@
                + rest);
        }
        k = k + 1;
    }
    proof {
        assert(out@ + Seq::<u8>::empty() =~= out@);
    }
    Ok(out)
}

} // verus!
