//! The type table as bytes: how it is read back.

use vstd::prelude::*;
use crate::bignum::read_sleb128;
use crate::error::DecodeError;
use crate::leb128::{read_sleb_spec, read_uleb_spec};
use crate::text::{parse_text, read_text};
use crate::types::{
    keys_ascend, names_distinct, prim_of_code, Entry, EntryView, FieldRef, FuncMode, MethodRef, MethodView, Prim,
    TableView, TypeRef, TypeTable,
};
use crate::wire::{
    lemma_parse_many_step, lemma_prepend_ends, parse_many, prepend, read_count, read_key,
    same_list,
};

verus! {

/// What reading the name of a type at `pos` gives, in a table of `count`
/// entries.
pub open spec fn parse_ref(bytes: Seq<u8>, pos: int, count: nat) -> Result<
    (TypeRef, int),
    DecodeError,
> {
    match read_sleb_spec(bytes, pos, i64::MIN as int, i64::MAX as int) {
        Err(e) => Err(e),
        Ok((code, end)) => if code >= 0 {
            if code < count {
                Ok((TypeRef::Index(code as usize), end))
            } else {
                Err(DecodeError::MalformedTable)
            }
        } else {
            match prim_of_code(code) {
                Some(p) => Ok((TypeRef::Prim(p), end)),
                None => Err(DecodeError::MalformedTable),
            }
        },
    }
}

pub open spec fn ref_parser(count: nat) -> spec_fn(Seq<u8>, int) -> Result<
    (TypeRef, int),
    DecodeError,
> {
    |bytes: Seq<u8>, pos: int| parse_ref(bytes, pos, count)
}

pub open spec fn parse_ref_list(bytes: Seq<u8>, pos: int, count: nat) -> Result<
    (Seq<TypeRef>, int),
    DecodeError,
> {
    match read_uleb_spec(bytes, pos, usize::MAX as nat) {
        Err(e) => Err(e),
        Ok((n, start)) => parse_many(bytes, start, n, ref_parser(count)),
    }
}

pub open spec fn parse_field(bytes: Seq<u8>, pos: int, count: nat) -> Result<
    (FieldRef, int),
    DecodeError,
> {
    match read_uleb_spec(bytes, pos, u32::MAX as nat) {
        Err(e) => Err(e),
        Ok((key, next)) => match parse_ref(bytes, next, count) {
            Err(e) => Err(e),
            Ok((ty, end)) => Ok((FieldRef { key: key as u32, ty }, end)),
        },
    }
}

pub open spec fn field_parser(count: nat) -> spec_fn(Seq<u8>, int) -> Result<
    (FieldRef, int),
    DecodeError,
> {
    |bytes: Seq<u8>, pos: int| parse_field(bytes, pos, count)
}

/// A counted list of members. Members whose keys do not ascend strictly are
/// refused.
pub open spec fn parse_field_list(bytes: Seq<u8>, pos: int, count: nat) -> Result<
    (Seq<FieldRef>, int),
    DecodeError,
> {
    match read_uleb_spec(bytes, pos, usize::MAX as nat) {
        Err(e) => Err(e),
        Ok((n, start)) => match parse_many(bytes, start, n, field_parser(count)) {
            Err(e) => Err(e),
            Ok((fields, end)) => if keys_ascend(fields) {
                Ok((fields, end))
            } else {
                Err(DecodeError::MalformedTable)
            },
        },
    }
}

pub open spec fn parse_mode(bytes: Seq<u8>, pos: int) -> Result<(FuncMode, int), DecodeError> {
    if pos < 0 || pos >= bytes.len() {
        Err(DecodeError::UnexpectedEof)
    } else if bytes[pos] == 1 {
        Ok((FuncMode::Query, pos + 1))
    } else if bytes[pos] == 2 {
        Ok((FuncMode::Oneway, pos + 1))
    } else {
        Err(DecodeError::MalformedTable)
    }
}

pub open spec fn mode_parser() -> spec_fn(Seq<u8>, int) -> Result<(FuncMode, int), DecodeError> {
    |bytes: Seq<u8>, pos: int| parse_mode(bytes, pos)
}

pub open spec fn parse_mode_list(bytes: Seq<u8>, pos: int) -> Result<
    (Seq<FuncMode>, int),
    DecodeError,
> {
    match read_uleb_spec(bytes, pos, usize::MAX as nat) {
        Err(e) => Err(e),
        Ok((n, start)) => parse_many(bytes, start, n, mode_parser()),
    }
}

pub open spec fn parse_method(bytes: Seq<u8>, pos: int, count: nat) -> Result<
    (MethodView, int),
    DecodeError,
> {
    match parse_text(bytes, pos) {
        Err(e) => Err(e),
        Ok((name, next)) => match parse_ref(bytes, next, count) {
            Err(e) => Err(e),
            Ok((ty, end)) => Ok((MethodView { name, ty }, end)),
        },
    }
}

pub open spec fn method_parser(count: nat) -> spec_fn(Seq<u8>, int) -> Result<
    (MethodView, int),
    DecodeError,
> {
    |bytes: Seq<u8>, pos: int| parse_method(bytes, pos, count)
}

pub open spec fn parse_method_list(bytes: Seq<u8>, pos: int, count: nat) -> Result<
    (Seq<MethodView>, int),
    DecodeError,
> {
    match read_uleb_spec(bytes, pos, usize::MAX as nat) {
        Err(e) => Err(e),
        Ok((n, start)) => match parse_many(bytes, start, n, method_parser(count)) {
            Err(e) => Err(e),
            Ok((methods, end)) => if names_distinct(methods) {
                Ok((methods, end))
            } else {
                Err(DecodeError::MalformedTable)
            },
        },
    }
}

/// What reading the parts of a function entry gives.
pub open spec fn parse_func(bytes: Seq<u8>, pos: int, count: nat) -> Result<
    (EntryView, int),
    DecodeError,
> {
    match parse_ref_list(bytes, pos, count) {
        Err(e) => Err(e),
        Ok((args, p1)) => match parse_ref_list(bytes, p1, count) {
            Err(e) => Err(e),
            Ok((rets, p2)) => match parse_mode_list(bytes, p2) {
                Err(e) => Err(e),
                Ok((modes, end)) => Ok((EntryView::Func { args, rets, modes }, end)),
            },
        },
    }
}

/// What reading one table entry at `pos` gives, in a table of `count`
/// entries: an opcode, then the parts that it asks for.
pub open spec fn parse_entry(bytes: Seq<u8>, pos: int, count: nat) -> Result<
    (EntryView, int),
    DecodeError,
> {
    match read_sleb_spec(bytes, pos, i64::MIN as int, i64::MAX as int) {
        Err(e) => Err(e),
        Ok((opcode, next)) => if opcode == -18 {
            match parse_ref(bytes, next, count) {
                Err(e) => Err(e),
                Ok((t, end)) => Ok((EntryView::Opt(t), end)),
            }
        } else if opcode == -19 {
            match parse_ref(bytes, next, count) {
                Err(e) => Err(e),
                Ok((t, end)) => Ok((EntryView::Vec(t), end)),
            }
        } else if opcode == -20 {
            match parse_field_list(bytes, next, count) {
                Err(e) => Err(e),
                Ok((fields, end)) => Ok((EntryView::Record(fields), end)),
            }
        } else if opcode == -21 {
            match parse_field_list(bytes, next, count) {
                Err(e) => Err(e),
                Ok((fields, end)) => Ok((EntryView::Variant(fields), end)),
            }
        } else if opcode == -22 {
            parse_func(bytes, next, count)
        } else if opcode == -23 {
            match parse_method_list(bytes, next, count) {
                Err(e) => Err(e),
                Ok((methods, end)) => Ok((EntryView::Service(methods), end)),
            }
        } else {
            Err(DecodeError::MalformedTable)
        },
    }
}

pub open spec fn entry_parser(count: nat) -> spec_fn(Seq<u8>, int) -> Result<
    (EntryView, int),
    DecodeError,
> {
    |bytes: Seq<u8>, pos: int| parse_entry(bytes, pos, count)
}

/// What reading a table at `pos` gives.
pub open spec fn parse_table(bytes: Seq<u8>, pos: int) -> Result<(TableView, int), DecodeError> {
    match read_uleb_spec(bytes, pos, usize::MAX as nat) {
        Err(e) => Err(e),
        Ok((n, start)) => parse_many(bytes, start, n, entry_parser(n)),
    }
}

/// What reading all that stands before the values gives: the table, the
/// types of the values, and the index of the first value.
pub open spec fn parse_header(bytes: Seq<u8>) -> Result<(TableView, Seq<TypeRef>, int), DecodeError> {
    if bytes.len() < 4 {
        Err(DecodeError::UnexpectedEof)
    } else if bytes.subrange(0, 4) != crate::table::magic() {
        Err(DecodeError::BadMagic)
    } else {
        match parse_table(bytes, 4) {
            Err(e) => Err(e),
            Ok((table, next)) => match parse_ref_list(bytes, next, table.len()) {
                Err(e) => Err(e),
                Ok((args, end)) => Ok((table, args, end)),
            },
        }
    }
}

/// Reads the name of a type.
pub fn read_ref(bytes: &[u8], pos: usize, count: usize) -> (r: Result<(TypeRef, usize), DecodeError>)
    ensures
        match parse_ref(bytes@, pos as int, count as nat) {
            Ok((t, end)) => r matches Ok((rt, rend)) && rt == t && rend == end,
            Err(e) => r == Err::<(TypeRef, usize), DecodeError>(e),
        },
{
    let (code, end) = match read_sleb128(bytes, pos) {
        Ok(x) => x,
        Err(e) => { return Err(e); },
    };
    if code >= 0 {
        if (code as u64) < count as u64 {
            Ok((TypeRef::Index(code as usize), end))
        } else {
            Err(DecodeError::MalformedTable)
        }
    } else {
        match Prim::from_code(code) {
            Some(p) => Ok((TypeRef::Prim(p), end)),
            None => Err(DecodeError::MalformedTable),
        }
    }
}

/// Reads a counted list of types.
pub fn read_ref_list(bytes: &[u8], pos: usize, count: usize) -> (r: Result<
    (Vec<TypeRef>, usize),
    DecodeError,
>)
    ensures
        same_list(r, parse_ref_list(bytes@, pos as int, count as nat)),
{
    let (n, start) = match read_count(bytes, pos) {
        Ok(x) => x,
        Err(e) => { return Err(e); },
    };
    let ghost one = ref_parser(count as nat);
    let mut acc: Vec<TypeRef> = Vec::new();
    let mut cur: usize = start;
    let mut i: usize = 0;
    proof {
        lemma_prepend_ends(bytes@, start as int, n as nat, one, acc@);
        assert(acc@ =~= Seq::<TypeRef>::empty());
    }
    while i < n
        invariant
            i <= n,
            read_uleb_spec(bytes@, pos as int, usize::MAX as nat) == Ok::<(nat, int), DecodeError>(
                (n as nat, start as int),
            ),
            one == ref_parser(count as nat),
            prepend(acc@, parse_many(bytes@, cur as int, (n - i) as nat, one)) == parse_many(
                bytes@,
                start as int,
                n as nat,
                one,
            ),
        decreases n - i,
    {
        proof {
            lemma_parse_many_step(bytes@, cur as int, (n - i) as nat, one, acc@);
        }
        match read_ref(bytes, cur, count) {
            Err(e) => { return Err(e); },
            Ok((t, next)) => {
                acc.push(t);
                cur = next;
            },
        }
        i = i + 1;
    }
    proof {
        lemma_prepend_ends(bytes@, cur as int, 0, one, acc@);
    }
    Ok((acc, cur))
}

/// Whether the members' keys ascend strictly.
pub fn keys_ascending(fields: &Vec<FieldRef>) -> (b: bool)
    ensures
        b == keys_ascend(fields@),
{
    if fields.len() < 2 {
        return true;
    }
    let mut i: usize = 0;
    while i + 1 < fields.len()
        invariant
            i < fields@.len(),
            forall|j: int, k: int| 0 <= j < k <= i ==> fields@[j].key < fields@[k].key,
        decreases fields.len() - i,
    {
        if fields[i].key >= fields[i + 1].key {
            return false;
        }
        i = i + 1;
    }
    true
}

/// Reads a counted list of members.
pub fn read_field_list(bytes: &[u8], pos: usize, count: usize) -> (r: Result<
    (Vec<FieldRef>, usize),
    DecodeError,
>)
    ensures
        same_list(r, parse_field_list(bytes@, pos as int, count as nat)),
{
    let (n, start) = match read_count(bytes, pos) {
        Ok(x) => x,
        Err(e) => { return Err(e); },
    };
    let ghost one = field_parser(count as nat);
    let mut acc: Vec<FieldRef> = Vec::new();
    let mut cur: usize = start;
    let mut i: usize = 0;
    proof {
        lemma_prepend_ends(bytes@, start as int, n as nat, one, acc@);
        assert(acc@ =~= Seq::<FieldRef>::empty());
    }
    while i < n
        invariant
            i <= n,
            read_uleb_spec(bytes@, pos as int, usize::MAX as nat) == Ok::<(nat, int), DecodeError>(
                (n as nat, start as int),
            ),
            one == field_parser(count as nat),
            prepend(acc@, parse_many(bytes@, cur as int, (n - i) as nat, one)) == parse_many(
                bytes@,
                start as int,
                n as nat,
                one,
            ),
        decreases n - i,
    {
        proof {
            lemma_parse_many_step(bytes@, cur as int, (n - i) as nat, one, acc@);
        }
        let (key, next) = match read_key(bytes, cur) {
            Ok(x) => x,
            Err(e) => { return Err(e); },
        };
        match read_ref(bytes, next, count) {
            Err(e) => { return Err(e); },
            Ok((ty, end)) => {
                acc.push(FieldRef { key, ty });
                cur = end;
            },
        }
        i = i + 1;
    }
    proof {
        lemma_prepend_ends(bytes@, cur as int, 0, one, acc@);
    }
    if keys_ascending(&acc) {
        Ok((acc, cur))
    } else {
        Err(DecodeError::MalformedTable)
    }
}

/// Reads a counted list of call modes.
pub fn read_mode_list(bytes: &[u8], pos: usize) -> (r: Result<(Vec<FuncMode>, usize), DecodeError>)
    ensures
        same_list(r, parse_mode_list(bytes@, pos as int)),
{
    let (n, start) = match read_count(bytes, pos) {
        Ok(x) => x,
        Err(e) => { return Err(e); },
    };
    let ghost one = mode_parser();
    let mut acc: Vec<FuncMode> = Vec::new();
    let mut cur: usize = start;
    let mut i: usize = 0;
    proof {
        lemma_prepend_ends(bytes@, start as int, n as nat, one, acc@);
        assert(acc@ =~= Seq::<FuncMode>::empty());
    }
    while i < n
        invariant
            i <= n,
            read_uleb_spec(bytes@, pos as int, usize::MAX as nat) == Ok::<(nat, int), DecodeError>(
                (n as nat, start as int),
            ),
            one == mode_parser(),
            prepend(acc@, parse_many(bytes@, cur as int, (n - i) as nat, one)) == parse_many(
                bytes@,
                start as int,
                n as nat,
                one,
            ),
        decreases n - i,
    {
        proof {
            lemma_parse_many_step(bytes@, cur as int, (n - i) as nat, one, acc@);
        }
        if cur >= bytes.len() {
            return Err(DecodeError::UnexpectedEof);
        }
        let b: u8 = bytes[cur];
        if b == 1 {
            acc.push(FuncMode::Query);
        } else if b == 2 {
            acc.push(FuncMode::Oneway);
        } else {
            return Err(DecodeError::MalformedTable);
        }
        cur = cur + 1;
        i = i + 1;
    }
    proof {
        lemma_prepend_ends(bytes@, cur as int, 0, one, acc@);
    }
    Ok((acc, cur))
}

/// Whether no two methods have the same name.
pub fn names_are_distinct(methods: &Vec<MethodRef>) -> (r: bool)
    ensures
        r == names_distinct(methods@.map_values(|m: MethodRef| m@)),
{
    let ghost views = methods@.map_values(|m: MethodRef| m@);
    let mut b: usize = 0;
    while b < methods.len()
        invariant
            b <= methods@.len(),
            views == methods@.map_values(|m: MethodRef| m@),
            forall|x: int, y: int| 0 <= x < y < b ==> views[x].name != views[y].name,
        decreases methods.len() - b,
    {
        let mut a: usize = 0;
        while a < b
            invariant
                a <= b,
                b < methods@.len(),
                views == methods@.map_values(|m: MethodRef| m@),
                forall|x: int| 0 <= x < a ==> views[x].name != views[b as int].name,
            decreases b - a,
        {
            proof {
                assert(views[a as int] == methods@[a as int]@);
                assert(views[b as int] == methods@[b as int]@);
            }
            if methods[a].name == methods[b].name {
                return false;
            }
            a = a + 1;
        }
        b = b + 1;
    }
    true
}

/// Reads a counted list of methods.
pub fn read_method_list(bytes: &[u8], pos: usize, count: usize) -> (r: Result<
    (Vec<MethodRef>, usize),
    DecodeError,
>)
    ensures
        match parse_method_list(bytes@, pos as int, count as nat) {
            Ok((methods, end)) => r matches Ok((rm, rend)) && rm@.map_values(|m: MethodRef| m@)
                == methods && rend == end,
            Err(e) => r == Err::<(Vec<MethodRef>, usize), DecodeError>(e),
        },
{
    let (n, start) = match read_count(bytes, pos) {
        Ok(x) => x,
        Err(e) => { return Err(e); },
    };
    let ghost one = method_parser(count as nat);
    let mut acc: Vec<MethodRef> = Vec::new();
    let mut cur: usize = start;
    let mut i: usize = 0;
    proof {
        lemma_prepend_ends(bytes@, start as int, n as nat, one, Seq::<MethodView>::empty());
        assert(acc@.map_values(|m: MethodRef| m@) =~= Seq::<MethodView>::empty());
    }
    while i < n
        invariant
            i <= n,
            read_uleb_spec(bytes@, pos as int, usize::MAX as nat) == Ok::<(nat, int), DecodeError>(
                (n as nat, start as int),
            ),
            one == method_parser(count as nat),
            prepend(
                acc@.map_values(|m: MethodRef| m@),
                parse_many(bytes@, cur as int, (n - i) as nat, one),
            ) == parse_many(bytes@, start as int, n as nat, one),
        decreases n - i,
    {
        let ghost done = acc@.map_values(|m: MethodRef| m@);
        proof {
            lemma_parse_many_step(bytes@, cur as int, (n - i) as nat, one, done);
        }
        let (name, next) = match read_text(bytes, cur) {
            Ok(x) => x,
            Err(e) => { return Err(e); },
        };
        match read_ref(bytes, next, count) {
            Err(e) => { return Err(e); },
            Ok((ty, end)) => {
                let m = MethodRef { name, ty };
                acc.push(m);
                cur = end;
                proof {
                    assert(acc@.map_values(|m: MethodRef| m@) =~= done.push(m@));
                }
            },
        }
        i = i + 1;
    }
    proof {
        lemma_prepend_ends(bytes@, cur as int, 0, one, acc@.map_values(|m: MethodRef| m@));
    }
    if names_are_distinct(&acc) {
        Ok((acc, cur))
    } else {
        Err(DecodeError::MalformedTable)
    }
}

/// Reads one table entry.
pub fn read_entry(bytes: &[u8], pos: usize, count: usize) -> (r: Result<(Entry, usize), DecodeError>)
    ensures
        match parse_entry(bytes@, pos as int, count as nat) {
            Ok((entry, end)) => r matches Ok((re, rend)) && re@ == entry && rend == end,
            Err(e) => r == Err::<(Entry, usize), DecodeError>(e),
        },
{
    let (opcode, next) = match read_sleb128(bytes, pos) {
        Ok(x) => x,
        Err(e) => { return Err(e); },
    };
    if opcode == -18 {
        match read_ref(bytes, next, count) {
            Err(e) => Err(e),
            Ok((t, end)) => Ok((Entry::Opt(t), end)),
        }
    } else if opcode == -19 {
        match read_ref(bytes, next, count) {
            Err(e) => Err(e),
            Ok((t, end)) => Ok((Entry::Vec(t), end)),
        }
    } else if opcode == -20 {
        match read_field_list(bytes, next, count) {
            Err(e) => Err(e),
            Ok((fields, end)) => Ok((Entry::Record(fields), end)),
        }
    } else if opcode == -21 {
        match read_field_list(bytes, next, count) {
            Err(e) => Err(e),
            Ok((fields, end)) => Ok((Entry::Variant(fields), end)),
        }
    } else if opcode == -22 {
        let (args, p1) = match read_ref_list(bytes, next, count) {
            Ok(x) => x,
            Err(e) => { return Err(e); },
        };
        let (rets, p2) = match read_ref_list(bytes, p1, count) {
            Ok(x) => x,
            Err(e) => { return Err(e); },
        };
        match read_mode_list(bytes, p2) {
            Err(e) => Err(e),
            Ok((modes, end)) => Ok((Entry::Func { args, rets, modes }, end)),
        }
    } else if opcode == -23 {
        match read_method_list(bytes, next, count) {
            Err(e) => Err(e),
            Ok((methods, end)) => Ok((Entry::Service(methods), end)),
        }
    } else {
        Err(DecodeError::MalformedTable)
    }
}

/// Reads a table.
pub fn read_table(bytes: &[u8], pos: usize) -> (r: Result<(TypeTable, usize), DecodeError>)
    ensures
        match parse_table(bytes@, pos as int) {
            Ok((table, end)) => r matches Ok((rt, rend)) && rt@ == table && rend == end,
            Err(e) => r == Err::<(TypeTable, usize), DecodeError>(e),
        },
{
    let (n, start) = match read_count(bytes, pos) {
        Ok(x) => x,
        Err(e) => { return Err(e); },
    };
    let ghost one = entry_parser(n as nat);
    let mut acc: Vec<Entry> = Vec::new();
    let mut cur: usize = start;
    let mut i: usize = 0;
    proof {
        lemma_prepend_ends(bytes@, start as int, n as nat, one, Seq::<EntryView>::empty());
        assert(acc@.map_values(|e: Entry| e@) =~= Seq::<EntryView>::empty());
    }
    while i < n
        invariant
            i <= n,
            read_uleb_spec(bytes@, pos as int, usize::MAX as nat) == Ok::<(nat, int), DecodeError>(
                (n as nat, start as int),
            ),
            one == entry_parser(n as nat),
            prepend(
                acc@.map_values(|e: Entry| e@),
                parse_many(bytes@, cur as int, (n - i) as nat, one),
            ) == parse_many(bytes@, start as int, n as nat, one),
        decreases n - i,
    {
        let ghost done = acc@.map_values(|e: Entry| e@);
        proof {
            lemma_parse_many_step(bytes@, cur as int, (n - i) as nat, one, done);
        }
        match read_entry(bytes, cur, n) {
            Err(e) => { return Err(e); },
            Ok((entry, end)) => {
                proof {
                    assert(acc@.push(entry).map_values(|e: Entry| e@) =~= done.push(entry@));
                }
                acc.push(entry);
                cur = end;
            },
        }
        i = i + 1;
    }
    proof {
        lemma_prepend_ends(bytes@, cur as int, 0, one, acc@.map_values(|e: Entry| e@));
    }
    Ok((TypeTable { entries: acc }, cur))
}

/// Reads all that stands before the values.
pub fn read_header(bytes: &[u8]) -> (r: Result<(TypeTable, Vec<TypeRef>, usize), DecodeError>)
    ensures
        match parse_header(bytes@) {
            Ok((table, args, end)) => r matches Ok((rt, ra, rend)) && rt@ == table && ra@ == args
                && rend == end,
            Err(e) => r == Err::<(TypeTable, Vec<TypeRef>, usize), DecodeError>(e),
        },
{
    if bytes.len() < 4 {
        return Err(DecodeError::UnexpectedEof);
    }
    if bytes[0] != 0x44 || bytes[1] != 0x49 || bytes[2] != 0x44 || bytes[3] != 0x4c {
        proof {
            let head = bytes@.subrange(0, 4);
            assert(head[0] == bytes@[0] && head[1] == bytes@[1] && head[2] == bytes@[2] && head[3]
                == bytes@[3]);
        }
        return Err(DecodeError::BadMagic);
    }
    proof {
        assert(bytes@.subrange(0, 4) =~= crate::table::magic());
    }
    let (table, next) = match read_table(bytes, 4) {
        Ok(x) => x,
        Err(e) => { return Err(e); },
    };
    match read_ref_list(bytes, next, table.entries.len()) {
        Err(e) => Err(e),
        Ok((args, end)) => Ok((table, args, end)),
    }
}

} // verus!
