//! Reading back a table that was written gives the table.

use vstd::prelude::*;
use vstd::utf8::encode_utf8;
use crate::error::DecodeError;
use crate::leb128::{
    holds_at, law_uleb_fits_or_overflows, lemma_holds_at_index, lemma_holds_at_split,
    lemma_sleb_round_trip, read_sleb_spec, uleb128,
};
use crate::table::{
    entry_bytes, entry_encoder, field_bytes, field_encoder, field_list_bytes, header_bytes, magic,
    method_bytes, method_encoder, method_list_bytes, mode_encoder, mode_list_bytes, ref_bytes,
    ref_code, ref_encoder, ref_list_bytes, table_bytes, text_bytes,
};
use crate::table_parse::{
    entry_parser, field_parser, method_parser, mode_parser, parse_entry, parse_field,
    parse_field_list, parse_header, parse_method, parse_method_list, parse_mode_list, parse_ref,
    parse_ref_list, parse_table, ref_parser,
};
use crate::text::{parse_blob, parse_text};
use crate::types::{
    entry_well_formed, keys_ascend, lemma_prim_code_round_trip, names_distinct, ref_in_range,
    refs_in_range, table_well_formed, EntryView, FieldRef, FuncMode, MethodView, TableView,
    TypeRef,
};
use crate::wire::{concat_map, lemma_parse_many_round_trip};

verus! {

/// The entry's lists and names are no longer than a machine can count.
pub open spec fn entry_fits(e: EntryView) -> bool {
    match e {
        EntryView::Opt(_) => true,
        EntryView::Vec(_) => true,
        EntryView::Record(fields) => fields.len() <= usize::MAX,
        EntryView::Variant(fields) => fields.len() <= usize::MAX,
        EntryView::Func { args, rets, modes } => args.len() <= usize::MAX && rets.len()
            <= usize::MAX && modes.len() <= usize::MAX,
        EntryView::Service(methods) => methods.len() <= usize::MAX && forall|k: int|
            0 <= k < methods.len() ==> encode_utf8((#[trigger] methods[k]).name).len()
                <= usize::MAX,
    }
}

/// The table is one that a machine can hold: its entries can be counted in a
/// `usize` and named by a signed 64-bit number, and each entry fits.
pub open spec fn table_fits(table: TableView) -> bool {
    &&& table.len() <= usize::MAX
    &&& table.len() <= i64::MAX
    &&& forall|k: int| 0 <= k < table.len() ==> entry_fits(#[trigger] table[k])
}

pub proof fn lemma_ref_round_trip(bytes: Seq<u8>, pos: int, r: TypeRef, count: nat)
    requires
        holds_at(bytes, pos, ref_bytes(r)),
        ref_in_range(r, count),
        count <= i64::MAX,
    ensures
        parse_ref(bytes, pos, count) == Ok::<(TypeRef, int), DecodeError>(
            (r, pos + ref_bytes(r).len()),
        ),
{
    lemma_sleb_round_trip(bytes, pos, ref_code(r));
    if let TypeRef::Prim(p) = r {
        lemma_prim_code_round_trip(p);
    }
}

pub proof fn lemma_ref_list_round_trip(bytes: Seq<u8>, pos: int, refs: Seq<TypeRef>, count: nat)
    requires
        holds_at(bytes, pos, ref_list_bytes(refs)),
        refs_in_range(refs, count),
        count <= i64::MAX,
        refs.len() <= usize::MAX,
    ensures
        parse_ref_list(bytes, pos, count) == Ok::<(Seq<TypeRef>, int), DecodeError>(
            (refs, pos + ref_list_bytes(refs).len()),
        ),
{
    let head = uleb128(refs.len());
    let body = concat_map(refs, ref_encoder());
    lemma_holds_at_split(bytes, pos, head, body);
    law_uleb_fits_or_overflows(bytes, pos, refs.len(), usize::MAX as nat);
    let f = ref_encoder();
    let one = ref_parser(count);
    assert forall|k: int, p: int| 0 <= k < refs.len() && holds_at(bytes, p, f(refs[k])) implies #[trigger] one(
        bytes,
        p,
    ) == Ok::<(TypeRef, int), DecodeError>((#[trigger] refs[k], p + f(refs[k]).len())) by {
        lemma_ref_round_trip(bytes, p, refs[k], count);
    }
    lemma_parse_many_round_trip(bytes, pos + head.len(), refs, f, one);
}

pub proof fn lemma_field_round_trip(bytes: Seq<u8>, pos: int, field: FieldRef, count: nat)
    requires
        holds_at(bytes, pos, field_bytes(field)),
        ref_in_range(field.ty, count),
        count <= i64::MAX,
    ensures
        parse_field(bytes, pos, count) == Ok::<(FieldRef, int), DecodeError>(
            (field, pos + field_bytes(field).len()),
        ),
{
    let head = uleb128(field.key as nat);
    lemma_holds_at_split(bytes, pos, head, ref_bytes(field.ty));
    law_uleb_fits_or_overflows(bytes, pos, field.key as nat, u32::MAX as nat);
    lemma_ref_round_trip(bytes, pos + head.len(), field.ty, count);
}

pub proof fn lemma_field_list_round_trip(
    bytes: Seq<u8>,
    pos: int,
    fields: Seq<FieldRef>,
    count: nat,
)
    requires
        holds_at(bytes, pos, field_list_bytes(fields)),
        crate::types::fields_in_range(fields, count),
        keys_ascend(fields),
        count <= i64::MAX,
        fields.len() <= usize::MAX,
    ensures
        parse_field_list(bytes, pos, count) == Ok::<(Seq<FieldRef>, int), DecodeError>(
            (fields, pos + field_list_bytes(fields).len()),
        ),
{
    let head = uleb128(fields.len());
    let body = concat_map(fields, field_encoder());
    lemma_holds_at_split(bytes, pos, head, body);
    law_uleb_fits_or_overflows(bytes, pos, fields.len(), usize::MAX as nat);
    let f = field_encoder();
    let one = field_parser(count);
    assert forall|k: int, p: int|
        0 <= k < fields.len() && holds_at(bytes, p, f(fields[k])) implies #[trigger] one(bytes, p)
        == Ok::<(FieldRef, int), DecodeError>((#[trigger] fields[k], p + f(fields[k]).len())) by {
        lemma_field_round_trip(bytes, p, fields[k], count);
    }
    lemma_parse_many_round_trip(bytes, pos + head.len(), fields, f, one);
}

pub proof fn lemma_mode_list_round_trip(bytes: Seq<u8>, pos: int, modes: Seq<FuncMode>)
    requires
        holds_at(bytes, pos, mode_list_bytes(modes)),
        modes.len() <= usize::MAX,
    ensures
        parse_mode_list(bytes, pos) == Ok::<(Seq<FuncMode>, int), DecodeError>(
            (modes, pos + mode_list_bytes(modes).len()),
        ),
{
    let head = uleb128(modes.len());
    let body = concat_map(modes, mode_encoder());
    lemma_holds_at_split(bytes, pos, head, body);
    law_uleb_fits_or_overflows(bytes, pos, modes.len(), usize::MAX as nat);
    let f = mode_encoder();
    let one = mode_parser();
    assert forall|k: int, p: int|
        0 <= k < modes.len() && holds_at(bytes, p, f(modes[k])) implies #[trigger] one(bytes, p)
        == Ok::<(FuncMode, int), DecodeError>((#[trigger] modes[k], p + f(modes[k]).len())) by {
        lemma_holds_at_index(bytes, p, f(modes[k]), 0);
    }
    lemma_parse_many_round_trip(bytes, pos + head.len(), modes, f, one);
}

/// Reading back a run of bytes that was written gives the run.
pub proof fn lemma_blob_round_trip(bytes: Seq<u8>, pos: int, blob: Seq<u8>)
    requires
        holds_at(bytes, pos, uleb128(blob.len()) + blob),
        blob.len() <= usize::MAX,
    ensures
        parse_blob(bytes, pos) == Ok::<(Seq<u8>, int), DecodeError>(
            (blob, pos + uleb128(blob.len()).len() + blob.len()),
        ),
{
    let head = uleb128(blob.len());
    lemma_holds_at_split(bytes, pos, head, blob);
    law_uleb_fits_or_overflows(bytes, pos, blob.len(), usize::MAX as nat);
}

/// Reading back a text that was written gives the text.
pub proof fn lemma_text_round_trip(bytes: Seq<u8>, pos: int, text: Seq<char>)
    requires
        holds_at(bytes, pos, text_bytes(text)),
        encode_utf8(text).len() <= usize::MAX,
    ensures
        parse_text(bytes, pos) == Ok::<(Seq<char>, int), DecodeError>(
            (text, pos + text_bytes(text).len()),
        ),
{
    lemma_blob_round_trip(bytes, pos, encode_utf8(text));
    vstd::utf8::encode_utf8_valid_utf8(text);
    vstd::utf8::encode_utf8_decode_utf8(text);
}

pub proof fn lemma_method_round_trip(bytes: Seq<u8>, pos: int, method: MethodView, count: nat)
    requires
        holds_at(bytes, pos, method_bytes(method)),
        ref_in_range(method.ty, count),
        count <= i64::MAX,
        encode_utf8(method.name).len() <= usize::MAX,
    ensures
        parse_method(bytes, pos, count) == Ok::<(MethodView, int), DecodeError>(
            (method, pos + method_bytes(method).len()),
        ),
{
    let head = text_bytes(method.name);
    lemma_holds_at_split(bytes, pos, head, ref_bytes(method.ty));
    lemma_text_round_trip(bytes, pos, method.name);
    lemma_ref_round_trip(bytes, pos + head.len(), method.ty, count);
}

pub proof fn lemma_method_list_round_trip(
    bytes: Seq<u8>,
    pos: int,
    methods: Seq<MethodView>,
    count: nat,
)
    requires
        holds_at(bytes, pos, method_list_bytes(methods)),
        crate::types::methods_in_range(methods, count),
        names_distinct(methods),
        count <= i64::MAX,
        entry_fits(EntryView::Service(methods)),
    ensures
        parse_method_list(bytes, pos, count) == Ok::<(Seq<MethodView>, int), DecodeError>(
            (methods, pos + method_list_bytes(methods).len()),
        ),
{
    let head = uleb128(methods.len());
    let body = concat_map(methods, method_encoder());
    lemma_holds_at_split(bytes, pos, head, body);
    law_uleb_fits_or_overflows(bytes, pos, methods.len(), usize::MAX as nat);
    let f = method_encoder();
    let one = method_parser(count);
    assert forall|k: int, p: int|
        0 <= k < methods.len() && holds_at(bytes, p, f(methods[k])) implies #[trigger] one(
        bytes,
        p,
    ) == Ok::<(MethodView, int), DecodeError>((#[trigger] methods[k], p + f(methods[k]).len())) by {
        lemma_method_round_trip(bytes, p, methods[k], count);
    }
    lemma_parse_many_round_trip(bytes, pos + head.len(), methods, f, one);
}

proof fn lemma_opcode(bytes: Seq<u8>, pos: int, opcode: u8)
    requires
        0 <= pos < bytes.len(),
        bytes[pos] == opcode,
        64 <= opcode < 128,
    ensures
        read_sleb_spec(bytes, pos, i64::MIN as int, i64::MAX as int) == Ok::<
            (int, int),
            DecodeError,
        >((opcode - 128, pos + 1)),
{
}

/// Reading back an entry that was written gives the entry.
pub proof fn lemma_entry_round_trip(bytes: Seq<u8>, pos: int, entry: EntryView, count: nat)
    requires
        holds_at(bytes, pos, entry_bytes(entry)),
        entry_well_formed(entry, count),
        entry_fits(entry),
        count <= i64::MAX,
    ensures
        parse_entry(bytes, pos, count) == Ok::<(EntryView, int), DecodeError>(
            (entry, pos + entry_bytes(entry).len()),
        ),
{
    lemma_holds_at_index(bytes, pos, entry_bytes(entry), 0);
    match entry {
        EntryView::Opt(t) => {
            lemma_holds_at_split(bytes, pos, seq![0x6eu8], ref_bytes(t));
            lemma_opcode(bytes, pos, 0x6e);
            lemma_ref_round_trip(bytes, pos + 1, t, count);
        },
        EntryView::Vec(t) => {
            lemma_holds_at_split(bytes, pos, seq![0x6du8], ref_bytes(t));
            lemma_opcode(bytes, pos, 0x6d);
            lemma_ref_round_trip(bytes, pos + 1, t, count);
        },
        EntryView::Record(fields) => {
            lemma_holds_at_split(bytes, pos, seq![0x6cu8], field_list_bytes(fields));
            lemma_opcode(bytes, pos, 0x6c);
            lemma_field_list_round_trip(bytes, pos + 1, fields, count);
        },
        EntryView::Variant(fields) => {
            lemma_holds_at_split(bytes, pos, seq![0x6bu8], field_list_bytes(fields));
            lemma_opcode(bytes, pos, 0x6b);
            lemma_field_list_round_trip(bytes, pos + 1, fields, count);
        },
        EntryView::Func { args, rets, modes } => {
            let a = ref_list_bytes(args);
            let r = ref_list_bytes(rets);
            let m = mode_list_bytes(modes);
            lemma_holds_at_split(bytes, pos, seq![0x6au8] + a + r, m);
            lemma_holds_at_split(bytes, pos, seq![0x6au8] + a, r);
            lemma_holds_at_split(bytes, pos, seq![0x6au8], a);
            lemma_opcode(bytes, pos, 0x6a);
            lemma_ref_list_round_trip(bytes, pos + 1, args, count);
            lemma_ref_list_round_trip(bytes, pos + 1 + a.len(), rets, count);
            lemma_mode_list_round_trip(bytes, pos + 1 + a.len() + r.len(), modes);
        },
        EntryView::Service(methods) => {
            lemma_holds_at_split(bytes, pos, seq![0x69u8], method_list_bytes(methods));
            lemma_opcode(bytes, pos, 0x69);
            lemma_method_list_round_trip(bytes, pos + 1, methods, count);
        },
    }
}

/// Reading back a table that was written gives the table.
pub proof fn lemma_table_round_trip(bytes: Seq<u8>, pos: int, table: TableView)
    requires
        holds_at(bytes, pos, table_bytes(table)),
        table_well_formed(table),
        table_fits(table),
    ensures
        parse_table(bytes, pos) == Ok::<(TableView, int), DecodeError>(
            (table, pos + table_bytes(table).len()),
        ),
{
    let head = uleb128(table.len());
    let body = concat_map(table, entry_encoder());
    lemma_holds_at_split(bytes, pos, head, body);
    law_uleb_fits_or_overflows(bytes, pos, table.len(), usize::MAX as nat);
    let f = entry_encoder();
    let one = entry_parser(table.len());
    assert forall|k: int, p: int|
        0 <= k < table.len() && holds_at(bytes, p, f(table[k])) implies #[trigger] one(bytes, p)
        == Ok::<(EntryView, int), DecodeError>((#[trigger] table[k], p + f(table[k]).len())) by {
        lemma_entry_round_trip(bytes, p, table[k], table.len());
    }
    lemma_parse_many_round_trip(bytes, pos + head.len(), table, f, one);
}

/// Reading back what was written before the values gives the table and the
/// types of the values, and stops where the values begin.
pub proof fn law_header_round_trip(bytes: Seq<u8>, table: TableView, types: Seq<TypeRef>)
    requires
        holds_at(bytes, 0, header_bytes(table, types)),
        table_well_formed(table),
        table_fits(table),
        refs_in_range(types, table.len()),
        types.len() <= usize::MAX,
    ensures
        parse_header(bytes) == Ok::<(TableView, Seq<TypeRef>, int), DecodeError>(
            (table, types, header_bytes(table, types).len() as int),
        ),
{
    let t = table_bytes(table);
    let r = ref_list_bytes(types);
    lemma_holds_at_split(bytes, 0, magic() + t, r);
    lemma_holds_at_split(bytes, 0, magic(), t);
    assert(bytes.subrange(0, 4) == magic());
    lemma_table_round_trip(bytes, 4, table);
    lemma_ref_list_round_trip(bytes, 4 + t.len() as int, types, table.len());
}

} // verus!
