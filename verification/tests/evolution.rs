use candid::bignum::Nat;
use candid::builder::build_table;
use candid::de::{deserialize, deserialize_within};
use candid::error::{DecodeError, EncodeError};
use candid::graph::{Field, Type};
use candid::label::{idl_hash, Label};
use candid::ser::serialize;
use candid::types::{Entry, Prim, TypeRef, TypeTable};
use candid::value::{FieldValue, Value};

fn named(name: &str) -> Label {
    Label::Named(name.to_string())
}

fn record_type(members: Vec<(&str, Type)>) -> Type {
    Type::record(members.into_iter().map(|(n, t)| Field::new(&named(n), t)).collect()).unwrap()
}

fn variant_type(members: Vec<(&str, Type)>) -> Type {
    Type::variant(members.into_iter().map(|(n, t)| Field::new(&named(n), t)).collect()).unwrap()
}

fn record_value(members: Vec<(&str, Value)>) -> Value {
    Value::record(members.into_iter().map(|(n, v)| FieldValue::new(&named(n), v)).collect())
        .unwrap()
}

fn number(n: u64) -> Value {
    Value::Nat(Nat::from_u64(n))
}

fn encode_one(env: &Vec<Type>, ty: Type, value: Value) -> Vec<u8> {
    let (table, refs) = build_table(env, &vec![ty]).unwrap();
    serialize(&table, &refs, &vec![value]).unwrap()
}

fn decode_one(bytes: &[u8], env: &Vec<Type>, ty: Type) -> Result<Vec<Value>, DecodeError> {
    let (table, refs) = build_table(env, &vec![ty]).unwrap();
    deserialize(bytes, &table, &refs)
}

#[test]
fn round_trip_of_a_nested_value() {
    let env: Vec<Type> = vec![];
    let ty = || {
        record_type(vec![
            ("name", Type::Prim(Prim::Text)),
            ("tags", Type::Vec(Box::new(Type::Prim(Prim::Text)))),
            ("age", Type::Opt(Box::new(Type::Prim(Prim::Nat8)))),
            (
                "state",
                variant_type(vec![("on", Type::Prim(Prim::Null)), ("off", Type::Prim(Prim::Int32))]),
            ),
        ])
    };
    let value = || {
        record_value(vec![
            ("name", Value::Text("grace".to_string())),
            ("tags", Value::Vec(vec![Value::Text("a".to_string()), Value::Text("é".to_string())])),
            ("age", Value::Opt(Some(Box::new(Value::Nat8(85))))),
            ("state", Value::variant(&named("off"), Value::Int32(-7))),
        ])
    };
    let bytes = encode_one(&env, ty(), value());
    assert_eq!(decode_one(&bytes, &env, ty()), Ok(vec![value()]));
}

#[test]
fn canonical_field_order_ignores_the_order_supplied() {
    let env: Vec<Type> = vec![];
    let first = encode_one(
        &env,
        record_type(vec![("a", Type::Prim(Prim::Nat)), ("b", Type::Prim(Prim::Text)), ("c", Type::Prim(Prim::Bool))]),
        record_value(vec![("a", number(1)), ("b", Value::Text("x".to_string())), ("c", Value::Bool(true))]),
    );
    let second = encode_one(
        &env,
        record_type(vec![("c", Type::Prim(Prim::Bool)), ("a", Type::Prim(Prim::Nat)), ("b", Type::Prim(Prim::Text))]),
        record_value(vec![("b", Value::Text("x".to_string())), ("c", Value::Bool(true)), ("a", number(1))]),
    );
    assert_eq!(first, second);
    assert_eq!(
        first,
        vec![
            0x44, 0x49, 0x44, 0x4c, 1, 0x6c, 3, 97, 0x7d, 98, 0x71, 99, 0x7e, 1, 0, 1, 1, 0x78, 1
        ]
    );
}

#[test]
fn additive_evolution_fills_in_an_absent_option() {
    let env: Vec<Type> = vec![];
    let bytes = encode_one(
        &env,
        record_type(vec![("a", Type::Prim(Prim::Nat))]),
        record_value(vec![("a", number(5))]),
    );
    let expected = record_type(vec![
        ("a", Type::Prim(Prim::Nat)),
        ("b", Type::Opt(Box::new(Type::Prim(Prim::Text)))),
    ]);
    assert_eq!(
        decode_one(&bytes, &env, expected),
        Ok(vec![record_value(vec![("a", number(5)), ("b", Value::Opt(None))])])
    );
}

#[test]
fn additive_evolution_fills_in_a_reserved_field() {
    let env: Vec<Type> = vec![];
    let bytes = encode_one(
        &env,
        record_type(vec![("a", Type::Prim(Prim::Nat))]),
        record_value(vec![("a", number(5))]),
    );
    let expected =
        record_type(vec![("a", Type::Prim(Prim::Nat)), ("z", Type::Prim(Prim::Reserved))]);
    assert_eq!(
        decode_one(&bytes, &env, expected),
        Ok(vec![record_value(vec![("a", number(5)), ("z", Value::Reserved)])])
    );
}

#[test]
fn reductive_evolution_ignores_an_unknown_field() {
    let env: Vec<Type> = vec![];
    let bytes = encode_one(
        &env,
        record_type(vec![("a", Type::Prim(Prim::Nat)), ("b", Type::Prim(Prim::Text))]),
        record_value(vec![("a", number(5)), ("b", Value::Text("dropped".to_string()))]),
    );
    assert_eq!(
        decode_one(&bytes, &env, record_type(vec![("a", Type::Prim(Prim::Nat))])),
        Ok(vec![record_value(vec![("a", number(5))])])
    );
}

#[test]
fn missing_required_field_is_reported() {
    let env: Vec<Type> = vec![];
    let bytes = encode_one(
        &env,
        record_type(vec![("a", Type::Prim(Prim::Nat))]),
        record_value(vec![("a", number(5))]),
    );
    let expected =
        record_type(vec![("a", Type::Prim(Prim::Nat)), ("b", Type::Prim(Prim::Text))]);
    assert_eq!(
        decode_one(&bytes, &env, expected),
        Err(DecodeError::MissingRequiredField { table_index: 0, key: idl_hash("b") })
    );
}

#[test]
fn field_subtype_mismatch_is_reported() {
    let env: Vec<Type> = vec![];
    let bytes = encode_one(
        &env,
        record_type(vec![("a", Type::Prim(Prim::Nat))]),
        record_value(vec![("a", number(5))]),
    );
    assert_eq!(
        decode_one(&bytes, &env, record_type(vec![("a", Type::Prim(Prim::Text))])),
        Err(DecodeError::FieldSubtypeMismatch { table_index: 0, key: idl_hash("a") })
    );
    assert_eq!(
        decode_one(&bytes, &env, Type::Prim(Prim::Text)),
        Err(DecodeError::FieldSubtypeMismatch { table_index: 1, key: 0 })
    );
}

#[test]
fn mismatch_under_an_option_is_read_as_absent() {
    let env: Vec<Type> = vec![];
    let bytes = encode_one(
        &env,
        record_type(vec![("a", Type::Opt(Box::new(Type::Prim(Prim::Nat)))), ("b", Type::Prim(Prim::Nat8))]),
        record_value(vec![("a", Value::Opt(Some(Box::new(number(300))))), ("b", Value::Nat8(9))]),
    );
    let expected = record_type(vec![
        ("a", Type::Opt(Box::new(Type::Prim(Prim::Text)))),
        ("b", Type::Prim(Prim::Nat8)),
    ]);
    assert_eq!(
        decode_one(&bytes, &env, expected),
        Ok(vec![record_value(vec![("a", Value::Opt(None)), ("b", Value::Nat8(9))])])
    );
}

#[test]
fn bare_value_is_read_as_a_present_option() {
    let env: Vec<Type> = vec![];
    let bytes = encode_one(&env, Type::Prim(Prim::Nat), number(7));
    assert_eq!(
        decode_one(&bytes, &env, Type::Opt(Box::new(Type::Prim(Prim::Nat)))),
        Ok(vec![Value::Opt(Some(Box::new(number(7))))])
    );
    assert_eq!(
        decode_one(&bytes, &env, Type::Opt(Box::new(Type::Prim(Prim::Text)))),
        Ok(vec![Value::Opt(None)])
    );
    assert_eq!(
        decode_one(
            &bytes,
            &env,
            Type::Opt(Box::new(Type::Opt(Box::new(Type::Prim(Prim::Nat)))))
        ),
        Ok(vec![Value::Opt(None)])
    );
}

#[test]
fn reserved_and_null_take_any_value() {
    let env: Vec<Type> = vec![];
    let ty = || record_type(vec![("a", Type::Prim(Prim::Text)), ("b", Type::Prim(Prim::Nat16))]);
    let bytes = encode_one(
        &env,
        ty(),
        record_value(vec![("a", Value::Text("skipped".to_string())), ("b", Value::Nat16(513))]),
    );
    assert_eq!(decode_one(&bytes, &env, Type::Prim(Prim::Reserved)), Ok(vec![Value::Reserved]));
    assert_eq!(decode_one(&bytes, &env, Type::Prim(Prim::Null)), Ok(vec![Value::Null]));
    let partly = record_type(vec![("a", Type::Prim(Prim::Reserved)), ("b", Type::Prim(Prim::Nat16))]);
    assert_eq!(
        decode_one(&bytes, &env, partly),
        Ok(vec![record_value(vec![("a", Value::Reserved), ("b", Value::Nat16(513))])])
    );
}

#[test]
fn variant_tag_unknown_to_the_reader_is_an_error() {
    let env: Vec<Type> = vec![];
    let written =
        variant_type(vec![("x", Type::Prim(Prim::Null)), ("y", Type::Prim(Prim::Null))]);
    let bytes = encode_one(&env, written, Value::variant(&named("y"), Value::Null));
    let narrow = || variant_type(vec![("x", Type::Prim(Prim::Null))]);
    assert_eq!(
        decode_one(&bytes, &env, narrow()),
        Err(DecodeError::UnknownVariantTag { table_index: 0, key: idl_hash("y") })
    );
    // Not even under an option is the tag filled in.
    assert_eq!(
        decode_one(&bytes, &env, Type::Opt(Box::new(narrow()))),
        Err(DecodeError::UnknownVariantTag { table_index: 0, key: idl_hash("y") })
    );
}

#[test]
fn variant_payload_that_cannot_be_read_is_an_unknown_tag() {
    let env: Vec<Type> = vec![];
    let bytes = encode_one(
        &env,
        variant_type(vec![("x", Type::Prim(Prim::Nat))]),
        Value::variant(&named("x"), number(1)),
    );
    assert_eq!(
        decode_one(&bytes, &env, variant_type(vec![("x", Type::Prim(Prim::Text))])),
        Err(DecodeError::UnknownVariantTag { table_index: 0, key: idl_hash("x") })
    );
}

#[test]
fn wider_variant_reads_a_narrower_one() {
    let env: Vec<Type> = vec![];
    let bytes = encode_one(
        &env,
        variant_type(vec![("x", Type::Prim(Prim::Nat))]),
        Value::variant(&named("x"), number(1)),
    );
    let wide = variant_type(vec![("w", Type::Prim(Prim::Text)), ("x", Type::Prim(Prim::Nat))]);
    assert_eq!(decode_one(&bytes, &env, wide), Ok(vec![Value::variant(&named("x"), number(1))]));
}

fn list_env() -> Vec<Type> {
    vec![record_type(vec![
        ("head", Type::Prim(Prim::Nat)),
        ("next", Type::Opt(Box::new(Type::Reference(0)))),
    ])]
}

fn chain(n: u64) -> Value {
    let mut list = Value::Opt(None);
    for k in 0..n {
        list = Value::Opt(Some(Box::new(record_value(vec![("head", number(k)), ("next", list)]))));
    }
    match list {
        Value::Opt(Some(node)) => *node,
        _ => unreachable!(),
    }
}

#[test]
fn recursive_type_has_one_entry_whatever_the_chain() {
    let env = list_env();
    let (table, refs) = build_table(&env, &vec![Type::Reference(0)]).unwrap();
    assert_eq!(refs, vec![TypeRef::Index(0)]);
    assert_eq!(table.entries.len(), 2);
    assert!(matches!(table.entries[0], Entry::Record(_)));
    assert_eq!(table.entries[1], Entry::Opt(TypeRef::Index(0)));
    for n in [1u64, 10, 100] {
        let bytes = serialize(&table, &refs, &vec![chain(n)]).unwrap();
        assert_eq!(&bytes[..4], b"DIDL");
        assert_eq!(bytes[4], 2);
        assert_eq!(deserialize_within(&bytes, &table, &refs, 2 * n as usize), Ok(vec![chain(n)]));
    }
}

#[test]
fn depth_limit_stops_the_reader() {
    let env = list_env();
    let (table, refs) = build_table(&env, &vec![Type::Reference(0)]).unwrap();
    let bytes = serialize(&table, &refs, &vec![chain(10)]).unwrap();
    // Ten records, each but the last within an option: twenty values deep.
    assert_eq!(deserialize_within(&bytes, &table, &refs, 20), Ok(vec![chain(10)]));
    assert_eq!(deserialize_within(&bytes, &table, &refs, 19), Err(DecodeError::DepthLimit));
    assert_eq!(deserialize_within(&bytes, &table, &refs, 0), Err(DecodeError::DepthLimit));
}

#[test]
fn same_trees_share_an_entry() {
    let env: Vec<Type> = vec![];
    let pair = || record_type(vec![("x", Type::Prim(Prim::Int)), ("y", Type::Prim(Prim::Int))]);
    let ty = record_type(vec![("from", pair()), ("to", pair()), ("via", Type::Vec(Box::new(pair())))]);
    let (table, refs) = build_table(&env, &vec![ty, pair()]).unwrap();
    assert_eq!(table.entries.len(), 3);
    assert_eq!(refs, vec![TypeRef::Index(0), TypeRef::Index(1)]);
    assert_eq!(table.entries[2], Entry::Vec(TypeRef::Index(1)));
}

#[test]
fn builder_refuses_what_cannot_be_described() {
    let env = vec![Type::Reference(1), Type::Reference(0)];
    assert_eq!(
        build_table(&env, &vec![Type::Reference(0)]),
        Err(EncodeError::UnresolvedReference)
    );
    assert_eq!(
        build_table(&vec![], &vec![Type::Opt(Box::new(Type::Reference(3)))]),
        Err(EncodeError::UnresolvedReference)
    );
    let unsorted = Type::Record(vec![
        Field { key: 2, ty: Type::Prim(Prim::Nat) },
        Field { key: 1, ty: Type::Prim(Prim::Nat) },
    ]);
    assert_eq!(build_table(&vec![], &vec![unsorted]), Err(EncodeError::MalformedType));
    let twice = Type::record(vec![
        Field::new(&Label::Id(7), Type::Prim(Prim::Nat)),
        Field::new(&Label::Id(7), Type::Prim(Prim::Text)),
    ]);
    assert_eq!(twice, Err(EncodeError::MalformedType));
}

#[test]
fn alias_of_a_primitive_needs_no_entry() {
    let env = vec![Type::Reference(1), Type::Prim(Prim::Text)];
    let (table, refs) = build_table(&env, &vec![Type::Reference(0)]).unwrap();
    assert_eq!(table, TypeTable { entries: vec![] });
    assert_eq!(refs, vec![TypeRef::Prim(Prim::Text)]);
}

#[test]
fn numeric_label_and_hashed_label_share_the_key_space() {
    // A known collision class: the number 97 and the name "a" are one key.
    assert_eq!(Label::Id(97).key(), named("a").key());
    let clash = Type::record(vec![
        Field::new(&Label::Id(97), Type::Prim(Prim::Nat)),
        Field::new(&named("a"), Type::Prim(Prim::Nat)),
    ]);
    assert_eq!(clash, Err(EncodeError::MalformedType));
}

#[test]
fn value_that_does_not_fit_its_type_is_refused() {
    let env: Vec<Type> = vec![];
    let (table, refs) = build_table(&env, &vec![Type::Vec(Box::new(Type::Prim(Prim::Nat)))]).unwrap();
    assert_eq!(
        serialize(&table, &refs, &vec![Value::Vec(vec![number(1), Value::Bool(true)])]),
        Err(EncodeError::TypeMismatch)
    );
    assert_eq!(serialize(&table, &refs, &vec![]), Err(EncodeError::TypeMismatch));
    assert_eq!(
        serialize(&table, &vec![TypeRef::Prim(Prim::Empty)], &vec![Value::Null]),
        Err(EncodeError::TypeMismatch)
    );
}

#[test]
fn missing_argument_is_filled_in_or_reported() {
    let env: Vec<Type> = vec![];
    let (table, refs) = build_table(&env, &vec![Type::Prim(Prim::Nat)]).unwrap();
    let bytes = serialize(&table, &refs, &vec![number(1)]).unwrap();
    let (wide, wide_refs) = build_table(
        &env,
        &vec![Type::Prim(Prim::Nat), Type::Opt(Box::new(Type::Prim(Prim::Nat)))],
    )
    .unwrap();
    assert_eq!(deserialize_within(&bytes, &wide, &wide_refs, 8), Ok(vec![number(1), Value::Opt(None)]));
    let (strict, strict_refs) =
        build_table(&env, &vec![Type::Prim(Prim::Nat), Type::Prim(Prim::Nat)]).unwrap();
    assert_eq!(
        deserialize_within(&bytes, &strict, &strict_refs, 8),
        Err(DecodeError::MissingRequiredField { table_index: 0, key: 1 })
    );
    // A value written beyond the expected ones is left unread.
    assert_eq!(deserialize_within(&bytes, &table, &vec![], 8), Ok(vec![]));
}
