use candid::bignum::{read_sleb128, Int, Nat};
use candid::de::{deserialize, deserialize_within};
use candid::decode::{read_id, read_prim};
use candid::text::read_blob;
use candid::error::DecodeError;
use candid::fixed::{read_le, write_le};
use candid::label::{idl_hash, Label};
use candid::leb128::{read_uleb128, write_sleb128, write_sleb128_unsigned, write_uleb128};
use candid::principal::{
    principal_from_bytes, principal_value, value_principal, CandidType, InvalidPrincipal,
    Serializer, ValueSerializer,
};
use candid::graph::Type;
use candid::ser::serialize;
use candid::table::{write_header, write_text};
use candid::table_parse::read_header;
use candid::text::read_text;
use candid::types::{Entry, FieldRef, FuncMode, MethodRef, Prim, TypeRef, TypeTable};
use candid::value::Value;
use ic_types::Principal;

fn one(ty: Prim, value: Value) -> Vec<u8> {
    let table = TypeTable { entries: vec![] };
    let bytes = serialize(&table, &vec![TypeRef::Prim(ty)], &vec![value]).unwrap();
    bytes[7..].to_vec()
}

fn back(ty: Prim, body: &[u8]) -> Result<Vec<Value>, DecodeError> {
    let mut bytes: Vec<u8> = vec![0x44, 0x49, 0x44, 0x4c, 0, 1];
    write_sleb128(&mut bytes, ty.code());
    bytes.extend_from_slice(body);
    deserialize_within(&bytes, &TypeTable { entries: vec![] }, &vec![TypeRef::Prim(ty)], 4)
}

#[test]
fn sleb128_known_encodings() {
    let mut out: Vec<u8> = Vec::new();
    write_sleb128(&mut out, 0);
    write_sleb128(&mut out, -1);
    write_sleb128(&mut out, 63);
    write_sleb128(&mut out, 64);
    write_sleb128(&mut out, -64);
    write_sleb128(&mut out, -65);
    write_sleb128(&mut out, -123456);
    assert_eq!(
        out,
        vec![0x00, 0x7f, 0x3f, 0xc0, 0x00, 0x40, 0xbf, 0x7f, 0xc0, 0xbb, 0x78]
    );
    let mut index: Vec<u8> = Vec::new();
    write_sleb128_unsigned(&mut index, 64);
    write_sleb128_unsigned(&mut index, u64::MAX);
    assert_eq!(index[..2], [0xc0, 0x00]);
    assert_eq!(index.len(), 2 + 10);
}

#[test]
fn sleb128_bounds_of_64_bits() {
    for v in [i64::MIN, i64::MIN + 1, -1, 0, 1, i64::MAX] {
        let mut out: Vec<u8> = Vec::new();
        write_sleb128(&mut out, v);
        assert_eq!(read_sleb128(&out, 0), Ok((v, out.len())));
    }
    // 2^63 and -2^63 - 1 need a tenth group that 64 bits cannot hold.
    let above: Vec<u8> = vec![0x80, 0x80, 0x80, 0x80, 0x80, 0x80, 0x80, 0x80, 0x80, 0x01];
    assert_eq!(read_sleb128(&above, 0), Err(DecodeError::Overflow));
    let below: Vec<u8> = vec![0xff, 0xff, 0xff, 0xff, 0xff, 0xff, 0xff, 0xff, 0xff, 0x7e];
    assert_eq!(read_sleb128(&below, 0), Err(DecodeError::Overflow));
    // Padding with the sign changes nothing.
    let padded: Vec<u8> = vec![0xff, 0xff, 0xff, 0xff, 0xff, 0xff, 0xff, 0xff, 0xff, 0xff, 0xff, 0x7f];
    assert_eq!(read_sleb128(&padded, 0), Ok((-1, 12)));
    assert_eq!(read_sleb128(&[0x80, 0x80], 0), Err(DecodeError::UnexpectedEof));
}

#[test]
fn big_numbers_are_wider_than_a_machine_word() {
    // 2^70: ten groups of zero, then one.
    let bytes: Vec<u8> = vec![0x80, 0x80, 0x80, 0x80, 0x80, 0x80, 0x80, 0x80, 0x80, 0x80, 0x01];
    let (n, end) = Nat::read(&bytes, 0).unwrap();
    assert_eq!(end, 11);
    assert_eq!(n.to_u64(), None);
    let mut out: Vec<u8> = Vec::new();
    n.write(&mut out);
    assert_eq!(out, bytes);
    assert_eq!(read_uleb128(&bytes, 0), Err(DecodeError::Overflow));

    // -2^70 as a signed number.
    let negative: Vec<u8> = vec![0x80, 0x80, 0x80, 0x80, 0x80, 0x80, 0x80, 0x80, 0x80, 0x80, 0x7f];
    let (i, _) = Int::read(&negative, 0).unwrap();
    assert_eq!(i.to_i64(), None);
    let mut out: Vec<u8> = Vec::new();
    i.write(&mut out);
    assert_eq!(out, negative);
}

#[test]
fn big_numbers_are_held_in_their_shortest_form() {
    let (padded, end) = Nat::read(&[0x85, 0x80, 0x80, 0x00], 0).unwrap();
    assert_eq!(end, 4);
    assert_eq!(padded, Nat::from_u64(5));
    assert_eq!(padded.to_u64(), Some(5));
    let (minus, _) = Int::read(&[0xff, 0xff, 0x7f], 0).unwrap();
    assert_eq!(minus, Int::from_i64(-1));
    assert_eq!(Nat::from_u64(u64::MAX).to_u64(), Some(u64::MAX));
    assert_eq!(Int::from_i64(i64::MIN).to_i64(), Some(i64::MIN));
    assert_eq!(Int::from_i64(i64::MAX).to_i64(), Some(i64::MAX));
    assert_eq!(Nat::from_u64(300).clone(), Nat::from_u64(300));
    assert_eq!(Int::from_i64(-300).clone(), Int::from_i64(-300));
}

#[test]
fn label_hash_known_values() {
    assert_eq!(idl_hash(""), 0);
    assert_eq!(idl_hash("a"), 97);
    assert_eq!(idl_hash("ab"), 97 * 223 + 98);
    assert_eq!(idl_hash("status"), 100394802);
    assert_eq!(idl_hash("controller"), 79599772);
    // The sum wraps at 2^32.
    assert_eq!(idl_hash("compute_allocation"), 4174053672);
    assert_eq!(idl_hash("é"), 195 * 223 + 169);
    assert_eq!(Label::Id(5).key(), 5);
    assert_eq!(Label::Named("a".to_string()).key(), 97);
}

#[test]
fn fixed_width_is_little_endian() {
    let mut out: Vec<u8> = Vec::new();
    write_le(&mut out, 0x0102030405060708, 8);
    write_le(&mut out, 0x0102030405060708, 2);
    write_le(&mut out, 7, 0);
    assert_eq!(out, vec![8, 7, 6, 5, 4, 3, 2, 1, 8, 7]);
    assert_eq!(read_le(&out, 0, 8), Ok((0x0102030405060708, 8)));
    assert_eq!(read_le(&out, 8, 2), Ok((0x0708, 10)));
    assert_eq!(read_le(&out, 9, 2), Err(DecodeError::UnexpectedEof));
    assert_eq!(read_le(&out, 10, 0), Ok((0, 10)));
    assert_eq!(read_le(&out, 11, 0), Err(DecodeError::UnexpectedEof));
}

#[test]
fn primitive_values_have_their_known_bytes() {
    assert_eq!(one(Prim::Null, Value::Null), vec![] as Vec<u8>);
    assert_eq!(one(Prim::Reserved, Value::Reserved), vec![] as Vec<u8>);
    assert_eq!(one(Prim::Bool, Value::Bool(true)), vec![1]);
    assert_eq!(one(Prim::Bool, Value::Bool(false)), vec![0]);
    assert_eq!(one(Prim::Nat, Value::Nat(Nat::from_u64(624485))), vec![0xe5, 0x8e, 0x26]);
    assert_eq!(one(Prim::Int, Value::Int(Int::from_i64(-123456))), vec![0xc0, 0xbb, 0x78]);
    assert_eq!(one(Prim::Nat8, Value::Nat8(200)), vec![200]);
    assert_eq!(one(Prim::Nat16, Value::Nat16(0x1234)), vec![0x34, 0x12]);
    assert_eq!(one(Prim::Nat32, Value::Nat32(0x12345678)), vec![0x78, 0x56, 0x34, 0x12]);
    assert_eq!(one(Prim::Nat64, Value::Nat64(u64::MAX)), vec![0xff; 8]);
    assert_eq!(one(Prim::Int8, Value::Int8(-1)), vec![0xff]);
    assert_eq!(one(Prim::Int16, Value::Int16(-2)), vec![0xfe, 0xff]);
    assert_eq!(one(Prim::Int32, Value::Int32(i32::MIN)), vec![0, 0, 0, 0x80]);
    assert_eq!(one(Prim::Int64, Value::Int64(-2)), vec![0xfe, 0xff, 0xff, 0xff, 0xff, 0xff, 0xff, 0xff]);
    assert_eq!(one(Prim::Float32, Value::Float32(1.5f32.to_bits())), vec![0, 0, 0xc0, 0x3f]);
    assert_eq!(
        one(Prim::Float64, Value::Float64((-2.0f64).to_bits())),
        vec![0, 0, 0, 0, 0, 0, 0, 0xc0]
    );
    assert_eq!(one(Prim::Text, Value::Text("hé".to_string())), vec![3, 0x68, 0xc3, 0xa9]);
    assert_eq!(one(Prim::Principal, Value::Principal(vec![0xca, 0xfe])), vec![2, 0xca, 0xfe]);
}

#[test]
fn primitive_values_round_trip() {
    let cases: Vec<(Prim, fn() -> Value)> = vec![
        (Prim::Null, || Value::Null),
        (Prim::Reserved, || Value::Reserved),
        (Prim::Bool, || Value::Bool(true)),
        (Prim::Nat, || Value::Nat(Nat::from_u64(u64::MAX))),
        (Prim::Int, || Value::Int(Int::from_i64(i64::MIN))),
        (Prim::Nat8, || Value::Nat8(255)),
        (Prim::Nat16, || Value::Nat16(65535)),
        (Prim::Nat32, || Value::Nat32(u32::MAX)),
        (Prim::Nat64, || Value::Nat64(u64::MAX)),
        (Prim::Int8, || Value::Int8(i8::MIN)),
        (Prim::Int16, || Value::Int16(i16::MIN)),
        (Prim::Int32, || Value::Int32(-1)),
        (Prim::Int64, || Value::Int64(i64::MIN)),
        (Prim::Int64, || Value::Int64(i64::MAX)),
        (Prim::Float32, || Value::Float32(f32::NAN.to_bits())),
        (Prim::Float64, || Value::Float64(std::f64::consts::PI.to_bits())),
        (Prim::Text, || Value::Text("text ✓".to_string())),
        (Prim::Principal, || Value::Principal(vec![9; 40])),
    ];
    for (ty, make) in cases {
        let body = one(ty, make());
        assert_eq!(back(ty, &body), Ok(vec![make()]));
    }
}

#[test]
fn malformed_primitive_values_are_errors() {
    assert_eq!(back(Prim::Bool, &[2]), Err(DecodeError::MalformedValue));
    assert_eq!(back(Prim::Bool, &[]), Err(DecodeError::UnexpectedEof));
    assert_eq!(back(Prim::Nat32, &[1, 2, 3]), Err(DecodeError::UnexpectedEof));
    assert_eq!(back(Prim::Nat, &[0x80]), Err(DecodeError::UnexpectedEof));
    assert_eq!(back(Prim::Text, &[2, 0xc3, 0x28]), Err(DecodeError::InvalidUtf8));
    assert_eq!(back(Prim::Text, &[5, 0x68]), Err(DecodeError::UnexpectedEof));
    assert_eq!(back(Prim::Principal, &[0x80]), Err(DecodeError::UnexpectedEof));
    assert_eq!(back(Prim::Empty, &[]), Err(DecodeError::MalformedValue));
    assert_eq!(read_prim(Prim::Nat64, &[0; 7], 0), Err(DecodeError::UnexpectedEof));
}

#[test]
fn text_is_read_as_utf8() {
    let mut out: Vec<u8> = Vec::new();
    write_text(&mut out, "naïve");
    assert_eq!(out, vec![6, b'n', b'a', 0xc3, 0xaf, b'v', b'e']);
    assert_eq!(read_text(&out, 0), Ok(("naïve".to_string(), 7)));
    assert_eq!(read_text(&[1, 0xff], 0), Err(DecodeError::InvalidUtf8));
}

#[test]
fn principal_of_ten_bytes_round_trips() {
    let id: Vec<u8> = vec![0, 1, 2, 3, 4, 5, 6, 7, 8, 9];
    let body = one(Prim::Principal, Value::Principal(id.clone()));
    assert_eq!(body, vec![10, 0, 1, 2, 3, 4, 5, 6, 7, 8, 9]);
    assert_eq!(back(Prim::Principal, &body), Ok(vec![Value::Principal(id.clone())]));
    assert_eq!(read_blob(&body, 0), Ok((id.clone(), 11)));
    assert_eq!(read_prim(Prim::Principal, &body, 0), Ok((Value::Principal(id), 11)));
}

#[test]
fn truncated_principal_is_an_unexpected_end() {
    assert_eq!(back(Prim::Principal, &[10, 0, 1, 2]), Err(DecodeError::UnexpectedEof));
    assert_eq!(back(Prim::Principal, &[1]), Err(DecodeError::UnexpectedEof));
    assert_eq!(back(Prim::Principal, &[]), Err(DecodeError::UnexpectedEof));
    assert_eq!(back(Prim::Principal, &[0]), Ok(vec![Value::Principal(vec![])]));
    assert_eq!(
        read_prim(Prim::Principal, &[0xff, 0xff, 0xff, 0xff, 0x0f], 0),
        Err(DecodeError::UnexpectedEof)
    );
}

#[test]
fn principals_of_the_identity_crate() {
    let p = Principal::from_slice(&[1, 2, 3]);
    assert_eq!(principal_value(&p), Value::Principal(vec![1, 2, 3]));
    assert_eq!(principal_from_bytes(&[1, 2, 3]), Ok(p));
    assert_eq!(principal_from_bytes(&[]), Ok(Principal::management_canister()));
    assert_eq!(principal_from_bytes(&[4]), Ok(Principal::anonymous()));
    assert_eq!(principal_from_bytes(&[0; 29]).map(|p| p.as_slice().to_vec()), Ok(vec![0; 29]));
    assert_eq!(principal_from_bytes(&[0; 30]), Err(InvalidPrincipal));
    assert_eq!(principal_from_bytes(&[1, 4]), Err(InvalidPrincipal));
    assert_eq!(value_principal(&Value::Principal(vec![1, 2, 3])), Some(p));
    assert_eq!(value_principal(&Value::Principal(vec![0; 30])), None);
    assert_eq!(value_principal(&Value::Text("w7x7r-cok77-xa".to_string())), None);
}

#[test]
fn principal_describes_and_writes_itself() {
    let p = Principal::from_text("w7x7r-cok77-xa").unwrap();
    assert_eq!(<Principal as CandidType>::_ty(), Type::Prim(Prim::Principal));
    assert_eq!(<Principal as CandidType>::id(), std::any::TypeId::of::<Principal>());
    assert_ne!(<Principal as CandidType>::id(), std::any::TypeId::of::<Vec<u8>>());
    let mut s = ValueSerializer::new();
    p.idl_serialize(&mut s).unwrap();
    let mut expected: Vec<u8> = vec![p.as_slice().len() as u8];
    expected.extend_from_slice(p.as_slice());
    assert_eq!(s.out, expected);
    assert_eq!(s.out, one(Prim::Principal, principal_value(&p)));
    s.serialize_principal(&[7, 8]).unwrap();
    expected.extend_from_slice(&[2, 7, 8]);
    assert_eq!(s.out, expected);
}

#[test]
fn header_with_every_kind_of_entry_round_trips() {
    let table = TypeTable {
        entries: vec![
            Entry::Opt(TypeRef::Index(1)),
            Entry::Vec(TypeRef::Prim(Prim::Nat8)),
            Entry::Record(vec![
                FieldRef { key: 0, ty: TypeRef::Index(0) },
                FieldRef { key: u32::MAX, ty: TypeRef::Prim(Prim::Principal) },
            ]),
            Entry::Variant(vec![FieldRef { key: 5, ty: TypeRef::Prim(Prim::Null) }]),
            Entry::Func {
                args: vec![TypeRef::Prim(Prim::Text), TypeRef::Index(2)],
                rets: vec![TypeRef::Index(3)],
                modes: vec![FuncMode::Query, FuncMode::Oneway],
            },
            Entry::Service(vec![
                MethodRef { name: "get".to_string(), ty: TypeRef::Index(4) },
                MethodRef { name: "put".to_string(), ty: TypeRef::Index(4) },
            ]),
        ],
    };
    let args = vec![TypeRef::Index(5), TypeRef::Prim(Prim::Empty)];
    let mut bytes: Vec<u8> = Vec::new();
    write_header(&mut bytes, &table, &args);
    assert_eq!(
        bytes,
        vec![
            0x44, 0x49, 0x44, 0x4c, 6, 0x6e, 1, 0x6d, 0x7b, 0x6c, 2, 0, 0, 0xff, 0xff, 0xff, 0xff, 0x0f,
            0x68, 0x6b, 1, 5, 0x7f, 0x6a, 2, 0x71, 2, 1, 3, 2, 1, 2, 0x69, 2, 3, b'g', b'e', b't', 4,
            3, b'p', b'u', b't', 4, 2, 5, 0x6f
        ]
    );
    assert_eq!(read_header(&bytes), Ok((table, args, bytes.len())));
}

#[test]
fn malformed_headers_are_errors() {
    assert_eq!(read_header(b"DID"), Err(DecodeError::UnexpectedEof));
    assert_eq!(read_header(b"DIDX\x00\x00"), Err(DecodeError::BadMagic));
    assert_eq!(read_header(b"DIDL"), Err(DecodeError::UnexpectedEof));
    assert_eq!(read_header(b"DIDL\x01"), Err(DecodeError::UnexpectedEof));
    // An opcode that names no kind of entry.
    assert_eq!(read_header(b"DIDL\x01\x7f\x00"), Err(DecodeError::MalformedTable));
    // An index beyond the table.
    assert_eq!(read_header(b"DIDL\x01\x6e\x01\x00"), Err(DecodeError::MalformedTable));
    // A code that names no primitive kind.
    assert_eq!(read_header(b"DIDL\x01\x6e\x5f\x00"), Err(DecodeError::MalformedTable));
    // Keys that do not ascend.
    assert_eq!(
        read_header(b"DIDL\x01\x6c\x02\x02\x7d\x01\x7d\x00"),
        Err(DecodeError::MalformedTable)
    );
    assert_eq!(
        read_header(b"DIDL\x01\x6c\x02\x01\x7d\x01\x7d\x00"),
        Err(DecodeError::MalformedTable)
    );
    // A key wider than 32 bits.
    assert_eq!(
        read_header(b"DIDL\x01\x6c\x01\x80\x80\x80\x80\x10\x7d\x00"),
        Err(DecodeError::Overflow)
    );
    // A call mode that is neither query nor oneway.
    assert_eq!(read_header(b"DIDL\x01\x6a\x00\x00\x01\x03\x00"), Err(DecodeError::MalformedTable));
    // Two methods of one name.
    assert_eq!(
        read_header(b"DIDL\x02\x6a\x00\x00\x00\x69\x02\x01a\x00\x01a\x00\x00"),
        Err(DecodeError::MalformedTable)
    );
    // A method name that is not UTF-8.
    assert_eq!(
        read_header(b"DIDL\x02\x6a\x00\x00\x00\x69\x01\x01\xff\x00\x00"),
        Err(DecodeError::InvalidUtf8)
    );
    // An argument list that names an entry beyond the table.
    assert_eq!(read_header(b"DIDL\x00\x01\x00"), Err(DecodeError::MalformedTable));
}

#[test]
fn function_and_service_values_round_trip() {
    let table = TypeTable {
        entries: vec![
            Entry::Func {
                args: vec![TypeRef::Prim(Prim::Nat)],
                rets: vec![],
                modes: vec![FuncMode::Query],
            },
            Entry::Service(vec![MethodRef { name: "get".to_string(), ty: TypeRef::Index(0) }]),
        ],
    };
    let types = vec![TypeRef::Index(0), TypeRef::Index(1)];
    let values =
        || vec![Value::Func(vec![1, 2], "get".to_string()), Value::Service(vec![1, 2])];
    let bytes = serialize(&table, &types, &values()).unwrap();
    assert_eq!(bytes[bytes.len() - 13..], [1, 1, 2, 1, 2, 3, b'g', b'e', b't', 1, 2, 1, 2]);
    assert_eq!(read_id(&bytes, bytes.len() - 4), Ok((vec![1, 2], bytes.len())));
    assert_eq!(read_id(&[0, 2, 1, 2], 0), Err(DecodeError::MalformedValue));
    assert_eq!(read_id(&[1, 2, 1], 0), Err(DecodeError::UnexpectedEof));
    assert_eq!(deserialize_within(&bytes, &table, &types, 4), Ok(values()));

    // A service with fewer methods reads one with more, not the other way.
    let wide = TypeTable {
        entries: vec![
            table.entries[0].clone(),
            Entry::Service(vec![
                MethodRef { name: "get".to_string(), ty: TypeRef::Index(0) },
                MethodRef { name: "put".to_string(), ty: TypeRef::Index(0) },
            ]),
        ],
    };
    assert_eq!(
        deserialize_within(&bytes, &wide, &types, 4),
        Err(DecodeError::FieldSubtypeMismatch { table_index: 2, key: 1 })
    );
    let bytes = serialize(&wide, &types, &values()).unwrap();
    assert_eq!(deserialize_within(&bytes, &table, &types, 4), Ok(values()));
}

#[test]
fn vector_of_another_element_type_is_a_mismatch_even_when_empty() {
    let written = TypeTable { entries: vec![Entry::Vec(TypeRef::Prim(Prim::Nat))] };
    let expected = TypeTable { entries: vec![Entry::Vec(TypeRef::Prim(Prim::Text))] };
    let types = vec![TypeRef::Index(0)];
    let bytes = serialize(&written, &types, &vec![Value::Vec(vec![])]).unwrap();
    assert_eq!(
        deserialize_within(&bytes, &expected, &types, 4),
        Err(DecodeError::FieldSubtypeMismatch { table_index: 1, key: 0 })
    );
    assert_eq!(deserialize_within(&bytes, &written, &types, 4), Ok(vec![Value::Vec(vec![])]));
}

#[test]
fn variant_index_beyond_the_members_is_malformed() {
    let table = TypeTable {
        entries: vec![Entry::Variant(vec![FieldRef { key: 1, ty: TypeRef::Prim(Prim::Null) }])],
    };
    let bytes: Vec<u8> = vec![0x44, 0x49, 0x44, 0x4c, 1, 0x6b, 1, 1, 0x7f, 1, 0, 1];
    assert_eq!(
        deserialize_within(&bytes, &table, &vec![TypeRef::Index(0)], 4),
        Err(DecodeError::MalformedValue)
    );
    let option = TypeTable { entries: vec![Entry::Opt(TypeRef::Prim(Prim::Nat))] };
    let bytes: Vec<u8> = vec![0x44, 0x49, 0x44, 0x4c, 1, 0x6e, 0x7d, 1, 0, 2];
    assert_eq!(
        deserialize_within(&bytes, &option, &vec![TypeRef::Index(0)], 4),
        Err(DecodeError::MalformedValue)
    );
}
