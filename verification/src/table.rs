//! The type table as bytes: how it is written.

use vstd::prelude::*;
use vstd::utf8::encode_utf8;
use crate::leb128::{sleb128, uleb128, write_sleb128, write_sleb128_unsigned, write_uleb128};
use crate::types::{
    prim_code, Entry, EntryView, FieldRef, FuncMode, MethodRef, MethodView, TableView, TypeRef,
    TypeTable,
};
use crate::wire::{append_bytes, concat_map, lemma_concat_map_ends, lemma_concat_map_step};

verus! {

/// The four bytes that every encoding begins with.
pub open spec fn magic() -> Seq<u8> {
    seq![0x44u8, 0x49u8, 0x44u8, 0x4cu8]
}

/// The number by which a type is named: its index, or its kind's code.
pub open spec fn ref_code(r: TypeRef) -> int {
    match r {
        TypeRef::Prim(p) => prim_code(p),
        TypeRef::Index(i) => i as int,
    }
}

pub open spec fn ref_bytes(r: TypeRef) -> Seq<u8> {
    sleb128(ref_code(r))
}

pub open spec fn ref_encoder() -> spec_fn(TypeRef) -> Seq<u8> {
    |r: TypeRef| ref_bytes(r)
}

/// A counted list of types.
pub open spec fn ref_list_bytes(refs: Seq<TypeRef>) -> Seq<u8> {
    uleb128(refs.len()) + concat_map(refs, ref_encoder())
}

pub open spec fn field_bytes(f: FieldRef) -> Seq<u8> {
    uleb128(f.key as nat) + ref_bytes(f.ty)
}

pub open spec fn field_encoder() -> spec_fn(FieldRef) -> Seq<u8> {
    |f: FieldRef| field_bytes(f)
}

/// A counted list of members, each its key and its type.
pub open spec fn field_list_bytes(fields: Seq<FieldRef>) -> Seq<u8> {
    uleb128(fields.len()) + concat_map(fields, field_encoder())
}

pub open spec fn mode_code(m: FuncMode) -> u8 {
    match m {
        FuncMode::Query => 1,
        FuncMode::Oneway => 2,
    }
}

pub open spec fn mode_encoder() -> spec_fn(FuncMode) -> Seq<u8> {
    |m: FuncMode| seq![mode_code(m)]
}

pub open spec fn mode_list_bytes(modes: Seq<FuncMode>) -> Seq<u8> {
    uleb128(modes.len()) + concat_map(modes, mode_encoder())
}

/// A text: the length of its UTF-8 form, then that form.
pub open spec fn text_bytes(text: Seq<char>) -> Seq<u8> {
    uleb128(encode_utf8(text).len()) + encode_utf8(text)
}

pub open spec fn method_bytes(m: MethodView) -> Seq<u8> {
    text_bytes(m.name) + ref_bytes(m.ty)
}

pub open spec fn method_encoder() -> spec_fn(MethodView) -> Seq<u8> {
    |m: MethodView| method_bytes(m)
}

pub open spec fn method_list_bytes(methods: Seq<MethodView>) -> Seq<u8> {
    uleb128(methods.len()) + concat_map(methods, method_encoder())
}

/// One table entry: the opcode of its kind, then its parts.
pub open spec fn entry_bytes(e: EntryView) -> Seq<u8> {
    match e {
        EntryView::Opt(t) => seq![0x6eu8] + ref_bytes(t),
        EntryView::Vec(t) => seq![0x6du8] + ref_bytes(t),
        EntryView::Record(fields) => seq![0x6cu8] + field_list_bytes(fields),
        EntryView::Variant(fields) => seq![0x6bu8] + field_list_bytes(fields),
        EntryView::Func { args, rets, modes } => seq![0x6au8] + ref_list_bytes(args)
            + ref_list_bytes(rets) + mode_list_bytes(modes),
        EntryView::Service(methods) => seq![0x69u8] + method_list_bytes(methods),
    }
}

pub open spec fn entry_encoder() -> spec_fn(EntryView) -> Seq<u8> {
    |e: EntryView| entry_bytes(e)
}

/// The table: the number of its entries, then each entry.
pub open spec fn table_bytes(table: TableView) -> Seq<u8> {
    uleb128(table.len()) + concat_map(table, entry_encoder())
}

/// All that stands before the values: the magic bytes, the table, and the
/// types of the values that follow.
pub open spec fn header_bytes(table: TableView, args: Seq<TypeRef>) -> Seq<u8> {
    magic() + table_bytes(table) + ref_list_bytes(args)
}

/// Appends the name of a type.
pub fn write_ref(out: &mut Vec<u8>, r: TypeRef)
    ensures
        final(out)@ == old(out)@ + ref_bytes(r),
{
    match r {
        TypeRef::Prim(p) => write_sleb128(out, p.code()),
        TypeRef::Index(i) => write_sleb128_unsigned(out, i as u64),
    }
}

/// Appends a counted list of types.
pub fn write_ref_list(out: &mut Vec<u8>, refs: &Vec<TypeRef>)
    ensures
        final(out)@ == old(out)@ + ref_list_bytes(refs@),
{
    write_uleb128(out, refs.len() as u64);
    let mut i: usize = 0;
    proof {
        lemma_concat_map_ends(refs@, ref_encoder());
        assert(old(out)@ + ref_list_bytes(refs@) =~= out@ + concat_map(refs@, ref_encoder()));
    }
    while i < refs.len()
        invariant
            i <= refs@.len(),
            old(out)@ + ref_list_bytes(refs@) == out@ + concat_map(
                refs@.subrange(i as int, refs@.len() as int),
                ref_encoder(),
            ),
        decreases refs.len() - i,
    {
        let ghost before = out@;
        proof {
            lemma_concat_map_step(refs@, ref_encoder(), i as int);
        }
        write_ref(out, refs[i]);
        proof {
            let rest = concat_map(refs@.subrange(i + 1, refs@.len() as int), ref_encoder());
            assert(before + (ref_bytes(refs@[i as int]) + rest) =~= out@ + rest);
        }
        i = i + 1;
    }
    proof {
        lemma_concat_map_ends(refs@, ref_encoder());
        assert(out@ + Seq::<u8>::empty() =~= out@);
    }
}

/// Appends a counted list of members.
pub fn write_field_list(out: &mut Vec<u8>, fields: &Vec<FieldRef>)
    ensures
        final(out)@ == old(out)@ + field_list_bytes(fields@),
{
    write_uleb128(out, fields.len() as u64);
    let mut i: usize = 0;
    proof {
        lemma_concat_map_ends(fields@, field_encoder());
        assert(old(out)@ + field_list_bytes(fields@) =~= out@ + concat_map(
            fields@,
            field_encoder(),
        ));
    }
    while i < fields.len()
        invariant
            i <= fields@.len(),
            old(out)@ + field_list_bytes(fields@) == out@ + concat_map(
                fields@.subrange(i as int, fields@.len() as int),
                field_encoder(),
            ),
        decreases fields.len() - i,
    {
        let ghost before = out@;
        proof {
            lemma_concat_map_step(fields@, field_encoder(), i as int);
        }
        write_uleb128(out, fields[i].key as u64);
        write_ref(out, fields[i].ty);
        proof {
            let rest = concat_map(fields@.subrange(i + 1, fields@.len() as int), field_encoder());
            assert(before + (field_bytes(fields@[i as int]) + rest) =~= out@ + rest);
        }
        i = i + 1;
    }
    proof {
        lemma_concat_map_ends(fields@, field_encoder());
        assert(out@ + Seq::<u8>::empty() =~= out@);
    }
}

/// Appends a counted list of call modes.
pub fn write_mode_list(out: &mut Vec<u8>, modes: &Vec<FuncMode>)
    ensures
        final(out)@ == old(out)@ + mode_list_bytes(modes@),
{
    write_uleb128(out, modes.len() as u64);
    let mut i: usize = 0;
    proof {
        lemma_concat_map_ends(modes@, mode_encoder());
        assert(old(out)@ + mode_list_bytes(modes@) =~= out@ + concat_map(modes@, mode_encoder()));
    }
    while i < modes.len()
        invariant
            i <= modes@.len(),
            old(out)@ + mode_list_bytes(modes@) == out@ + concat_map(
                modes@.subrange(i as int, modes@.len() as int),
                mode_encoder(),
            ),
        decreases modes.len() - i,
    {
        let ghost before = out@;
        proof {
            lemma_concat_map_step(modes@, mode_encoder(), i as int);
        }
        let code: u8 = match modes[i] {
            FuncMode::Query => 1,
            FuncMode::Oneway => 2,
        };
        out.push(code);
        proof {
            let rest = concat_map(modes@.subrange(i + 1, modes@.len() as int), mode_encoder());
            assert(before + (seq![mode_code(modes@[i as int])] + rest) =~= out@ + rest);
        }
        i = i + 1;
    }
    proof {
        lemma_concat_map_ends(modes@, mode_encoder());
        assert(out@ + Seq::<u8>::empty() =~= out@);
    }
}

/// Appends a text: its length in bytes, then its UTF-8 form.
pub fn write_text(out: &mut Vec<u8>, text: &str)
    ensures
        final(out)@ == old(out)@ + text_bytes(text@),
{
    let bytes = text.as_bytes();
    write_uleb128(out, bytes.len() as u64);
    append_bytes(out, bytes);
    proof {
        assert(out@ =~= old(out)@ + text_bytes(text@));
    }
}

/// Appends a counted list of methods.
pub fn write_method_list(out: &mut Vec<u8>, methods: &Vec<MethodRef>)
    ensures
        final(out)@ == old(out)@ + method_list_bytes(methods@.map_values(|m: MethodRef| m@)),
{
    let ghost views = methods@.map_values(|m: MethodRef| m@);
    write_uleb128(out, methods.len() as u64);
    let mut i: usize = 0;
    proof {
        lemma_concat_map_ends(views, method_encoder());
        assert(old(out)@ + method_list_bytes(views) =~= out@ + concat_map(views, method_encoder()));
    }
    while i < methods.len()
        invariant
            i <= methods@.len(),
            views == methods@.map_values(|m: MethodRef| m@),
            old(out)@ + method_list_bytes(views) == out@ + concat_map(
                views.subrange(i as int, views.len() as int),
                method_encoder(),
            ),
        decreases methods.len() - i,
    {
        let ghost before = out@;
        proof {
            lemma_concat_map_step(views, method_encoder(), i as int);
        }
        write_text(out, methods[i].name.as_str());
        write_ref(out, methods[i].ty);
        proof {
            let rest = concat_map(views.subrange(i + 1, views.len() as int), method_encoder());
            assert(views[i as int] == methods@[i as int]@);
            assert(before + (method_bytes(views[i as int]) + rest) =~= out@ + rest);
        }
        i = i + 1;
    }
    proof {
        lemma_concat_map_ends(views, method_encoder());
        assert(out@ + Seq::<u8>::empty() =~= out@);
    }
}

/// Appends one table entry.
pub fn write_entry(out: &mut Vec<u8>, entry: &Entry)
    ensures
        final(out)@ == old(out)@ + entry_bytes(entry@),
{
    match entry {
        Entry::Opt(t) => {
            out.push(0x6e);
            write_ref(out, *t);
            proof {
                assert(out@ =~= old(out)@ + entry_bytes(entry@));
            }
        },
        Entry::Vec(t) => {
            out.push(0x6d);
            write_ref(out, *t);
            proof {
                assert(out@ =~= old(out)@ + entry_bytes(entry@));
            }
        },
        Entry::Record(fields) => {
            out.push(0x6c);
            write_field_list(out, fields);
            proof {
                assert(out@ =~= old(out)@ + entry_bytes(entry@));
            }
        },
        Entry::Variant(fields) => {
            out.push(0x6b);
            write_field_list(out, fields);
            proof {
                assert(out@ =~= old(out)@ + entry_bytes(entry@));
            }
        },
        Entry::Func { args, rets, modes } => {
            out.push(0x6a);
            write_ref_list(out, args);
            write_ref_list(out, rets);
            write_mode_list(out, modes);
            proof {
                assert(out@ =~= old(out)@ + entry_bytes(entry@));
            }
        },
        Entry::Service(methods) => {
            out.push(0x69);
            write_method_list(out, methods);
            proof {
                assert(out@ =~= old(out)@ + entry_bytes(entry@));
            }
        },
    }
}

/// Appends the table: the number of its entries, then each entry.
pub fn write_table(out: &mut Vec<u8>, table: &TypeTable)
    ensures
        final(out)@ == old(out)@ + table_bytes(table@),
{
    let ghost views = table@;
    write_uleb128(out, table.entries.len() as u64);
    let mut i: usize = 0;
    proof {
        lemma_concat_map_ends(views, entry_encoder());
        assert(old(out)@ + table_bytes(views) =~= out@ + concat_map(views, entry_encoder()));
    }
    while i < table.entries.len()
        invariant
            i <= table.entries@.len(),
            views == table@,
            old(out)@ + table_bytes(views) == out@ + concat_map(
                views.subrange(i as int, views.len() as int),
                entry_encoder(),
            ),
        decreases table.entries.len() - i,
    {
        let ghost before = out@;
        proof {
            lemma_concat_map_step(views, entry_encoder(), i as int);
        }
        write_entry(out, &table.entries[i]);
        proof {
            let rest = concat_map(views.subrange(i + 1, views.len() as int), entry_encoder());
            assert(views[i as int] == table.entries@[i as int]@);
            assert(before + (entry_bytes(views[i as int]) + rest) =~= out@ + rest);
        }
        i = i + 1;
    }
    proof {
        lemma_concat_map_ends(views, entry_encoder());
        assert(out@ + Seq::<u8>::empty() =~= out@);
    }
}

/// Appends all that stands before the values.
pub fn write_header(out: &mut Vec<u8>, table: &TypeTable, args: &Vec<TypeRef>)
    ensures
        final(out)@ == old(out)@ + header_bytes(table@, args@),
{
    out.push(0x44);
    out.push(0x49);
    out.push(0x44);
    out.push(0x4c);
    proof {
        assert(out@ =~= old(out)@ + magic());
    }
    write_table(out, table);
    write_ref_list(out, args);
    proof {
        assert(out@ =~= old(out)@ + header_bytes(table@, args@));
    }
}

} // verus!
