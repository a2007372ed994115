//! Whole messages under types given as trees: the table of the types is
//! built first, then the message is written or read under it.

use vstd::prelude::*;
use crate::builder::{build_table, types_fault_of, types_valid};
use crate::de::{deserialize_spec, deserialize_within};
use crate::error::{DecodeError, EncodeError};
use crate::graph::Type;
use crate::numbering::table_of;
use crate::ser::{args_conform, message_bytes, serialize};
use crate::value::Value;

verus! {

/// Writes the values under the types, whose references lead into `env`.
///
/// Fails with their first fault where the types cannot be put into a table.
/// Where they can, the bytes are the message under their table, and the only
/// failure is a value that does not have the shape of its type.
pub fn encode_message(env: &Vec<Type>, types: &Vec<Type>, values: &Vec<Value>) -> (r: Result<
    Vec<u8>,
    EncodeError,
>)
    ensures
        !types_valid(env@, types@) ==> (r matches Err(e) && types_fault_of(env@, types@) == Some(
            e,
        )),
        types_valid(env@, types@) ==> (table_of(env@, types@) matches Some((table, refs)) && {
            let written = values@.map_values(|v: Value| v@);
            &&& r is Ok <==> args_conform(table, refs, written)
            &&& r matches Ok(bytes) ==> bytes@ == message_bytes(table, refs, written)
            &&& r is Err ==> r == Err::<Vec<u8>, EncodeError>(EncodeError::TypeMismatch)
        }),
{
    let (table, refs) = match build_table(env, types) {
        Ok(x) => x,
        Err(e) => {
            return Err(e);
        },
    };
    serialize(&table, &refs, values)
}

/// Reads a message as the types `types`, whose references lead into `env`.
/// Values may be nested as deep as a machine can count.
///
/// Types that cannot be put into a table are reported as a malformed table.
/// Where they can, the result is what reading under their table gives.
pub fn decode_message(bytes: &[u8], env: &Vec<Type>, types: &Vec<Type>) -> (r: Result<
    Vec<Value>,
    DecodeError,
>)
    ensures
        !types_valid(env@, types@) ==> r == Err::<Vec<Value>, DecodeError>(
            DecodeError::MalformedTable,
        ),
        types_valid(env@, types@) ==> (table_of(env@, types@) matches Some((table, refs))
            && match deserialize_spec(bytes@, table, refs, usize::MAX as nat) {
            Ok(values) => r matches Ok(rv) && rv@.map_values(|v: Value| v@) == values,
            Err(e) => r == Err::<Vec<Value>, DecodeError>(e),
        }),
{
    decode_message_within(bytes, env, types, usize::MAX)
}

/// Reads a message as the types `types`, whose references lead into `env`,
/// for a reader that wants to bound its descent: `depth` is how many values
/// within values may be entered.
///
/// Types that cannot be put into a table are reported as a malformed table.
/// Where they can, the result is what reading under their table gives.
pub fn decode_message_within(
    bytes: &[u8],
    env: &Vec<Type>,
    types: &Vec<Type>,
    depth: usize,
) -> (r: Result<Vec<Value>, DecodeError>)
    ensures
        !types_valid(env@, types@) ==> r == Err::<Vec<Value>, DecodeError>(
            DecodeError::MalformedTable,
        ),
        types_valid(env@, types@) ==> (table_of(env@, types@) matches Some((table, refs))
            && match deserialize_spec(bytes@, table, refs, depth as nat) {
            Ok(values) => r matches Ok(rv) && rv@.map_values(|v: Value| v@) == values,
            Err(e) => r == Err::<Vec<Value>, DecodeError>(e),
        }),
{
    let (table, refs) = match build_table(env, types) {
        Ok(x) => x,
        Err(_) => {
            return Err(DecodeError::MalformedTable);
        },
    };
    deserialize_within(bytes, &table, &refs, depth)
}

} // verus!
