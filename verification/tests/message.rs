use candid::bignum::{Int, Nat};
use candid::builder::{build_table, resolve, same_type};
use candid::compat_check::{may_be_missing, Compat};
use candid::decode::{decode, skip};
use candid::encode::{index_of_key, write_value};
use candid::error::{DecodeError, EncodeError};
use candid::graph::{Field, Method, Type};
use candid::label::Label;
use candid::message::{decode_message, decode_message_within, encode_message};
use candid::order::arrange;
use candid::types::{Entry, FieldRef, FuncMode, Prim, TypeRef, TypeTable};
use candid::value::{FieldValue, Value};

fn text_label(name: &str) -> Label {
    Label::Named(name.to_string())
}

fn tree() -> (Vec<Type>, Type) {
    // A tree of texts: a node holds a text and its children.
    let node = Type::record(vec![
        Field::new(&text_label("label"), Type::Prim(Prim::Text)),
        Field::new(&text_label("children"), Type::Vec(Box::new(Type::Reference(0)))),
    ])
    .unwrap();
    (vec![node], Type::Reference(0))
}

fn node(label: &str, children: Vec<Value>) -> Value {
    Value::record(vec![
        FieldValue::new(&text_label("children"), Value::Vec(children)),
        FieldValue::new(&text_label("label"), Value::Text(label.to_string())),
    ])
    .unwrap()
}

#[test]
fn message_round_trips_under_a_recursive_type() {
    let (env, ty) = tree();
    let value = || node("root", vec![node("a", vec![node("a1", vec![])]), node("b", vec![])]);
    let bytes = encode_message(&env, &vec![ty], &vec![value()]).unwrap();
    let (env, ty) = tree();
    assert_eq!(decode_message(&bytes, &env, &vec![ty]), Ok(vec![value()]));
    let (env, ty) = tree();
    assert_eq!(decode_message_within(&bytes, &env, &vec![ty], 6), Ok(vec![value()]));
    let (env, ty) = tree();
    assert_eq!(decode_message_within(&bytes, &env, &vec![ty], 5), Err(DecodeError::DepthLimit));
}

#[test]
fn message_of_several_values() {
    let env: Vec<Type> = vec![];
    let types = || vec![Type::Prim(Prim::Int), Type::Prim(Prim::Text), Type::Prim(Prim::Bool)];
    let values = || {
        vec![Value::Int(Int::from_i64(-1)), Value::Text("two".to_string()), Value::Bool(false)]
    };
    let bytes = encode_message(&env, &types(), &values()).unwrap();
    assert_eq!(
        bytes,
        vec![0x44, 0x49, 0x44, 0x4c, 0, 3, 0x7c, 0x71, 0x7e, 0x7f, 3, b't', b'w', b'o', 0]
    );
    assert_eq!(decode_message(&bytes, &env, &types()), Ok(values()));
}

#[test]
fn message_functions_report_what_went_wrong() {
    let env: Vec<Type> = vec![];
    assert_eq!(
        encode_message(&env, &vec![Type::Prim(Prim::Nat)], &vec![Value::Bool(true)]),
        Err(EncodeError::TypeMismatch)
    );
    assert_eq!(
        encode_message(&env, &vec![Type::Reference(0)], &vec![Value::Null]),
        Err(EncodeError::UnresolvedReference)
    );
    assert_eq!(
        decode_message(b"DIDL\x00\x00", &env, &vec![Type::Reference(0)]),
        Err(DecodeError::MalformedTable)
    );
    assert_eq!(
        decode_message_within(b"DIDX\x00\x00", &env, &vec![], 4),
        Err(DecodeError::BadMagic)
    );
}

#[test]
fn same_tree_is_told_from_another() {
    let pair = |key: u32| {
        Type::Record(vec![
            Field { key: 1, ty: Type::Prim(Prim::Nat) },
            Field { key, ty: Type::Opt(Box::new(Type::Reference(3))) },
        ])
    };
    assert!(same_type(&pair(2), &pair(2)));
    assert!(!same_type(&pair(2), &pair(5)));
    assert!(!same_type(&Type::Reference(1), &Type::Reference(2)));
    assert!(!same_type(&Type::Opt(Box::new(Type::Prim(Prim::Nat))), &Type::Vec(Box::new(Type::Prim(Prim::Nat)))));
    let func = |mode: FuncMode| Type::Func {
        args: vec![Type::Prim(Prim::Text)],
        rets: vec![],
        modes: vec![mode],
    };
    assert!(same_type(&func(FuncMode::Query), &func(FuncMode::Query)));
    assert!(!same_type(&func(FuncMode::Query), &func(FuncMode::Oneway)));
    let service = |name: &str| {
        Type::Service(vec![Method { name: name.to_string(), ty: func(FuncMode::Query) }])
    };
    assert!(same_type(&service("get"), &service("get")));
    assert!(!same_type(&service("get"), &service("put")));
}

#[test]
fn references_to_references_are_followed() {
    let env = vec![
        Type::Reference(2),
        Type::Prim(Prim::Nat),
        Type::Reference(1),
        Type::Reference(3),
        Type::Reference(9),
    ];
    assert_eq!(resolve(&env, 0), Some(1));
    assert_eq!(resolve(&env, 1), Some(1));
    assert_eq!(resolve(&env, 3), None);
    assert_eq!(resolve(&env, 4), None);
    assert_eq!(resolve(&env, 7), None);
}

#[test]
fn function_and_service_types_are_flattened() {
    let func = Type::Func {
        args: vec![Type::Prim(Prim::Text), Type::Opt(Box::new(Type::Prim(Prim::Nat)))],
        rets: vec![Type::Reference(0)],
        modes: vec![FuncMode::Query],
    };
    let env = vec![Type::Service(vec![Method { name: "next".to_string(), ty: func }])];
    let (table, refs) = build_table(&env, &vec![Type::Reference(0)]).unwrap();
    assert_eq!(refs, vec![TypeRef::Index(0)]);
    assert_eq!(table.entries.len(), 3);
    assert_eq!(
        table.entries[1],
        Entry::Func {
            args: vec![TypeRef::Prim(Prim::Text), TypeRef::Index(2)],
            rets: vec![TypeRef::Index(0)],
            modes: vec![FuncMode::Query],
        }
    );
    assert_eq!(table.entries[2], Entry::Opt(TypeRef::Prim(Prim::Nat)));
    let twice = Type::Service(vec![
        Method { name: "m".to_string(), ty: Type::Prim(Prim::Nat) },
        Method { name: "m".to_string(), ty: Type::Prim(Prim::Nat) },
    ]);
    assert_eq!(build_table(&vec![], &vec![twice]), Err(EncodeError::MalformedType));
}

#[test]
fn members_are_arranged_by_key() {
    let arranged = arrange(vec![
        FieldRef { key: 30, ty: TypeRef::Prim(Prim::Nat) },
        FieldRef { key: 10, ty: TypeRef::Prim(Prim::Text) },
        FieldRef { key: 20, ty: TypeRef::Prim(Prim::Bool) },
    ])
    .unwrap();
    assert_eq!(
        arranged,
        vec![
            FieldRef { key: 10, ty: TypeRef::Prim(Prim::Text) },
            FieldRef { key: 20, ty: TypeRef::Prim(Prim::Bool) },
            FieldRef { key: 30, ty: TypeRef::Prim(Prim::Nat) },
        ]
    );
    assert_eq!(
        arrange(vec![
            FieldRef { key: 1, ty: TypeRef::Prim(Prim::Nat) },
            FieldRef { key: 2, ty: TypeRef::Prim(Prim::Nat) },
            FieldRef { key: 1, ty: TypeRef::Prim(Prim::Text) },
        ]),
        None
    );
    assert_eq!(arrange(Vec::<FieldRef>::new()), Some(vec![]));
    assert_eq!(
        index_of_key(&arranged, 20),
        Some(1)
    );
    assert_eq!(index_of_key(&arranged, 21), None);
}

#[test]
fn compatibility_of_recursive_types_is_decided() {
    // Lists of numbers and lists of texts, each a record that holds an item
    // and a vector of further lists.
    let list = |item: Prim| TypeTable {
        entries: vec![
            Entry::Record(vec![
                FieldRef { key: 0, ty: TypeRef::Prim(item) },
                FieldRef { key: 1, ty: TypeRef::Index(1) },
            ]),
            Entry::Vec(TypeRef::Index(0)),
        ],
    };
    let numbers = list(Prim::Nat);
    let texts = list(Prim::Text);
    let same = Compat::compute(&numbers, &numbers);
    assert!(same.accepts(&numbers, &numbers, TypeRef::Index(0), TypeRef::Index(0)));
    assert!(same.accepts(&numbers, &numbers, TypeRef::Index(1), TypeRef::Index(1)));
    assert!(!same.accepts(&numbers, &numbers, TypeRef::Index(0), TypeRef::Index(1)));
    let other = Compat::compute(&numbers, &texts);
    assert!(!other.accepts(&numbers, &texts, TypeRef::Index(0), TypeRef::Index(0)));
    assert!(!other.accepts(&numbers, &texts, TypeRef::Index(1), TypeRef::Index(1)));
    assert!(other.accepts(&numbers, &texts, TypeRef::Index(1), TypeRef::Prim(Prim::Reserved)));
    assert!(other.accepts(&numbers, &texts, TypeRef::Prim(Prim::Nat), TypeRef::Prim(Prim::Null)));
    assert!(!other.accepts(&numbers, &texts, TypeRef::Prim(Prim::Nat), TypeRef::Prim(Prim::Text)));
    assert!(!other.accepts(&numbers, &texts, TypeRef::Index(0), TypeRef::Index(7)));
    assert!(may_be_missing(&texts, TypeRef::Prim(Prim::Reserved)));
    assert!(!may_be_missing(&texts, TypeRef::Prim(Prim::Null)));
    assert!(!may_be_missing(&texts, TypeRef::Index(1)));
}

#[test]
fn value_is_read_and_passed_over_alike() {
    let table = TypeTable {
        entries: vec![
            Entry::Record(vec![
                FieldRef { key: 0, ty: TypeRef::Index(1) },
                FieldRef { key: 1, ty: TypeRef::Index(2) },
            ]),
            Entry::Vec(TypeRef::Prim(Prim::Nat16)),
            Entry::Opt(TypeRef::Prim(Prim::Nat)),
        ],
    };
    let value = Value::Record(vec![
        FieldValue { key: 0, value: Value::Vec(vec![Value::Nat16(1), Value::Nat16(2)]) },
        FieldValue { key: 1, value: Value::Opt(Some(Box::new(Value::Nat(Nat::from_u64(300))))) },
    ]);
    let mut bytes: Vec<u8> = vec![0xaa];
    assert_eq!(write_value(&mut bytes, &table, TypeRef::Index(0), &value), Ok(()));
    assert_eq!(bytes, vec![0xaa, 2, 1, 0, 2, 0, 1, 0xac, 0x02]);
    assert_eq!(skip(&table, TypeRef::Index(0), &bytes, 1, 3), Ok(9));
    assert_eq!(skip(&table, TypeRef::Index(0), &bytes, 1, 2), Err(DecodeError::DepthLimit));
    assert_eq!(skip(&table, TypeRef::Index(0), &bytes[..8], 1, 3), Err(DecodeError::UnexpectedEof));
    assert_eq!(skip(&table, TypeRef::Index(5), &bytes, 1, 3), Err(DecodeError::MalformedTable));
    let compat = Compat::compute(&table, &table);
    assert_eq!(
        decode(&table, TypeRef::Index(0), &table, TypeRef::Index(0), &compat, &bytes, 1, 3),
        Ok((value, 9))
    );
    assert_eq!(
        write_value(&mut bytes, &table, TypeRef::Index(1), &Value::Nat16(1)),
        Err(EncodeError::TypeMismatch)
    );
}

#[test]
fn copies_are_equal_to_what_they_copy() {
    let (env, ty) = tree();
    assert_eq!(env.clone(), env);
    assert_eq!(ty.clone(), ty);
    let value = node("root", vec![node("leaf", vec![]), node("leaf", vec![])]);
    assert_eq!(value.clone(), value);
    let mixed = Value::Vec(vec![
        Value::Opt(Some(Box::new(Value::Int(Int::from_i64(-5))))),
        Value::Opt(None),
        Value::Variant(3, Box::new(Value::Func(vec![1], "m".to_string()))),
        Value::Service(vec![2]),
        Value::Float64(1.0f64.to_bits()),
    ]);
    assert_eq!(mixed.duplicate(), mixed);
    let func = Type::Func {
        args: vec![Type::Prim(Prim::Text)],
        rets: vec![Type::Variant(vec![Field { key: 1, ty: Type::Prim(Prim::Null) }])],
        modes: vec![FuncMode::Oneway],
    };
    let service = Type::Service(vec![Method { name: "m".to_string(), ty: func }]);
    assert_eq!(service.duplicate(), service);
    assert!(same_type(&service.clone(), &service));
}
