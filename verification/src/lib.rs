//! A structural binary serializer for typed values.
//!
//! A message holds a table of the types of its values and then the values,
//! so a reader needs no schema of its own. It says which types it expects,
//! and may expect types that differ from the written ones in the ways that
//! structural subtyping allows: a record may have gained or lost fields, an
//! option may stand where a bare value was written.
//!
//! - [`leb128`], [`bignum`], [`fixed`], [`text`] and [`label`] are the
//!   primitive codec and the keys of members.
//! - [`graph`] holds types as trees, [`types`] the flat table, and
//!   [`builder`] goes from the one to the other; [`numbering`] says which
//!   entry is made when, [`flatten`] what the entries have to do with the
//!   trees, and [`order`] puts members in canonical order.
//! - [`table`] and [`table_parse`] write and read the table.
//! - [`value`], [`encode`], [`decode_spec`] and [`decode`] write and read
//!   values; [`compat`] and [`compat_check`] decide which written types can
//!   be read as which expected ones.
//! - [`ser`], [`de`] and [`message`] write and read whole messages.
//! - [`principal`] carries the identities of the `ic_types` crate.
//! - [`law_table`], [`law_value`], [`law_message`] and [`law_numbering`]
//!   prove what holds of all of it: what is written can be read back.

pub mod compat;
pub mod compat_check;
pub mod de;
pub mod decode;
pub mod decode_spec;
pub mod encode;
pub mod error;
pub mod bignum;
pub mod builder;
pub mod fixed;
pub mod flatten;
pub mod graph;
pub mod label;
pub mod law_message;
pub mod law_numbering;
pub mod law_table;
pub mod law_value;
pub mod leb128;
pub mod message;
pub mod numbering;
pub mod order;
pub mod principal;
pub mod ser;
pub mod table;
pub mod table_parse;
pub mod text;
pub mod types;
pub mod value;
pub mod wire;
