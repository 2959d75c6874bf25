use spatialos_sdk::codec::{get_bytes, index_bytes, SchemaError, SCHEMA_MAP_KEY_FIELD_ID, SCHEMA_MAP_VALUE_FIELD_ID};
use spatialos_sdk::schema::{
    Scalar, ScalarType, SchemaDatum, SchemaListType, SchemaObject, SchemaPrimitive, WireKind,
};
use spatialos_sdk::value::{FieldDefinition, SchemaIndexType, SchemaObjectType, SchemaType, Value};

fn prim(kind: SchemaListType) -> SchemaIndexType {
    SchemaIndexType::Primitive(kind)
}

fn one_field(ty: SchemaType) -> SchemaObjectType {
    SchemaObjectType { fields: vec![FieldDefinition { field_id: 1, ty }] }
}

fn round_trip(ty: SchemaType, value: Value) {
    let object_type = one_field(ty);
    let whole = Value::Object(vec![value]);
    assert!(object_type.is_well_formed());
    assert!(object_type.conforms(&whole));
    let object = object_type.into_schema_object(&whole).expect("the value is of the type");
    assert_eq!(object_type.from_schema_object(&object), Ok(whole));
}

fn text(s: &str) -> Value {
    Value::Text(s.to_string())
}

fn custom_component_type() -> SchemaObjectType {
    SchemaObjectType {
        fields: vec![
            FieldDefinition { field_id: 0, ty: SchemaType::Required(SchemaIndexType::Text) },
            FieldDefinition { field_id: 1, ty: SchemaType::Required(prim(SchemaListType::Sfixed32)) },
            FieldDefinition { field_id: 2, ty: SchemaType::List(prim(SchemaListType::EntityId)) },
            FieldDefinition {
                field_id: 3,
                ty: SchemaType::Mapping(prim(SchemaListType::EntityId), SchemaIndexType::Text),
            },
            FieldDefinition { field_id: 4, ty: SchemaType::List(SchemaIndexType::Bytes) },
        ],
    }
}

fn custom_component_value() -> Value {
    Value::Object(vec![
        text("turret"),
        Value::Scalar(Scalar::I32(-12)),
        Value::List(vec![Value::Scalar(Scalar::I64(7)), Value::Scalar(Scalar::I64(-3))]),
        Value::Mapping(vec![
            (Value::Scalar(Scalar::I64(-3)), text("left")),
            (Value::Scalar(Scalar::I64(7)), text("right")),
        ]),
        Value::List(vec![Value::Bytes(vec![1, 2, 3]), Value::Bytes(vec![])]),
    ])
}

#[test]
fn every_primitive_kind_round_trips() {
    let cases = vec![
        (SchemaListType::Float, Scalar::F32(1.5f32.to_bits())),
        (SchemaListType::Double, Scalar::F64((-2.25f64).to_bits())),
        (SchemaListType::Int32, Scalar::I32(i32::MIN)),
        (SchemaListType::Int64, Scalar::I64(i64::MAX)),
        (SchemaListType::Uint32, Scalar::U32(u32::MAX)),
        (SchemaListType::Uint64, Scalar::U64(u64::MAX)),
        (SchemaListType::Sint32, Scalar::I32(-1)),
        (SchemaListType::Sint64, Scalar::I64(i64::MIN)),
        (SchemaListType::Fixed32, Scalar::U32(0)),
        (SchemaListType::Fixed64, Scalar::U64(1)),
        (SchemaListType::Sfixed32, Scalar::I32(i32::MAX)),
        (SchemaListType::Sfixed64, Scalar::I64(-5)),
        (SchemaListType::EntityId, Scalar::I64(42)),
        (SchemaListType::Enum, Scalar::U32(3)),
    ];
    for (kind, scalar) in cases {
        round_trip(SchemaType::Required(prim(kind)), Value::Scalar(scalar));
    }
}

#[test]
fn float_bits_round_trip_exactly() {
    let nan = f32::NAN.to_bits() | 1;
    round_trip(SchemaType::Required(prim(SchemaListType::Float)), Value::Scalar(Scalar::F32(nan)));
    let negative_zero = (-0.0f64).to_bits();
    round_trip(SchemaType::Required(prim(SchemaListType::Double)), Value::Scalar(Scalar::F64(negative_zero)));
}

#[test]
fn text_round_trips() {
    round_trip(SchemaType::Required(SchemaIndexType::Text), text("héllo wörld ✓"));
    round_trip(SchemaType::Required(SchemaIndexType::Text), text(""));
}

#[test]
fn byte_strings_round_trip() {
    round_trip(SchemaType::Required(SchemaIndexType::Bytes), Value::Bytes(vec![0, 255, 128]));
    round_trip(SchemaType::Required(SchemaIndexType::Bytes), Value::Bytes(vec![]));
}

#[test]
fn optional_round_trips_absent_and_present() {
    let ty = || SchemaType::Optional(prim(SchemaListType::Uint32));
    round_trip(ty(), Value::Optional(None));
    round_trip(ty(), Value::Optional(Some(Box::new(Value::Scalar(Scalar::U32(9))))));
}

#[test]
fn absent_optional_writes_nothing() {
    let ty = SchemaType::Optional(prim(SchemaListType::Uint32));
    let mut object = SchemaObject::new();
    assert_eq!(ty.add_field(&mut object, 5, &Value::Optional(None)), Ok(()));
    assert_eq!(object.len(), 0);
}

#[test]
fn list_round_trips_empty_and_in_order() {
    let ty = || SchemaType::List(prim(SchemaListType::Sint32));
    round_trip(ty(), Value::List(vec![]));
    round_trip(
        ty(),
        Value::List(vec![Value::Scalar(Scalar::I32(3)), Value::Scalar(Scalar::I32(1)), Value::Scalar(Scalar::I32(2))]),
    );
    round_trip(SchemaType::List(SchemaIndexType::Text), Value::List(vec![text("b"), text("a")]));
}

#[test]
fn list_writes_one_entry_for_each_item() {
    let ty = SchemaType::List(prim(SchemaListType::Uint64));
    let mut object = SchemaObject::new();
    let value = Value::List(vec![Value::Scalar(Scalar::U64(10)), Value::Scalar(Scalar::U64(20))]);
    assert_eq!(ty.add_field(&mut object, 9, &value), Ok(()));
    assert_eq!(object.len(), 2);
    let kind = WireKind::Primitive(SchemaListType::Uint64);
    assert_eq!(object.field_count(9, kind), 2);
    assert!(matches!(object.index_field(9, kind, 0), SchemaDatum::Primitive(SchemaPrimitive::Uint64(10))));
    assert!(matches!(object.index_field(9, kind, 1), SchemaDatum::Primitive(SchemaPrimitive::Uint64(20))));
}

#[test]
fn map_round_trips_empty_and_in_key_order() {
    let ty = || SchemaType::Mapping(prim(SchemaListType::Int32), SchemaIndexType::Text);
    round_trip(ty(), Value::Mapping(vec![]));
    round_trip(
        ty(),
        Value::Mapping(vec![
            (Value::Scalar(Scalar::I32(-1)), text("minus one")),
            (Value::Scalar(Scalar::I32(0)), text("zero")),
            (Value::Scalar(Scalar::I32(8)), text("eight")),
        ]),
    );
}

#[test]
fn map_with_text_and_byte_keys_round_trips() {
    round_trip(
        SchemaType::Mapping(SchemaIndexType::Text, prim(SchemaListType::Uint32)),
        Value::Mapping(vec![
            (text(""), Value::Scalar(Scalar::U32(0))),
            (text("a"), Value::Scalar(Scalar::U32(1))),
            (text("ab"), Value::Scalar(Scalar::U32(2))),
            (text("b"), Value::Scalar(Scalar::U32(3))),
            (text("é"), Value::Scalar(Scalar::U32(4))),
        ]),
    );
    round_trip(
        SchemaType::Mapping(SchemaIndexType::Bytes, SchemaIndexType::Bytes),
        Value::Mapping(vec![
            (Value::Bytes(vec![1]), Value::Bytes(vec![9])),
            (Value::Bytes(vec![1, 0]), Value::Bytes(vec![])),
            (Value::Bytes(vec![2]), Value::Bytes(vec![7, 7])),
        ]),
    );
}

#[test]
fn map_is_one_nested_object_with_keys_and_values() {
    let ty = SchemaType::Mapping(prim(SchemaListType::Uint32), prim(SchemaListType::Uint32));
    let mut object = SchemaObject::new();
    let value = Value::Mapping(vec![
        (Value::Scalar(Scalar::U32(1)), Value::Scalar(Scalar::U32(10))),
        (Value::Scalar(Scalar::U32(2)), Value::Scalar(Scalar::U32(20))),
    ]);
    assert_eq!(ty.add_field(&mut object, 4, &value), Ok(()));
    assert_eq!(object.len(), 1);
    assert_eq!(object.field_count(4, WireKind::Object), 1);
    let kind = WireKind::Primitive(SchemaListType::Uint32);
    match object.index_field(4, WireKind::Object, 0) {
        SchemaDatum::Object(inner) => {
            assert_eq!(inner.len(), 4);
            assert_eq!(inner.field_count(SCHEMA_MAP_KEY_FIELD_ID, kind), 2);
            assert_eq!(inner.field_count(SCHEMA_MAP_VALUE_FIELD_ID, kind), 2);
            assert!(matches!(
                inner.index_field(SCHEMA_MAP_KEY_FIELD_ID, kind, 1),
                SchemaDatum::Primitive(SchemaPrimitive::Uint32(2))
            ));
            assert!(matches!(
                inner.index_field(SCHEMA_MAP_VALUE_FIELD_ID, kind, 1),
                SchemaDatum::Primitive(SchemaPrimitive::Uint32(20))
            ));
        }
        other => panic!("not an object: {:?}", other),
    }
}

fn wire_map(pairs: Vec<(u32, u32)>) -> SchemaObject {
    let mut inner = SchemaObject::new();
    for (key, value) in pairs {
        inner.add(SCHEMA_MAP_KEY_FIELD_ID, SchemaDatum::Primitive(SchemaPrimitive::Uint32(key)));
        inner.add(SCHEMA_MAP_VALUE_FIELD_ID, SchemaDatum::Primitive(SchemaPrimitive::Uint32(value)));
    }
    let mut object = SchemaObject::new();
    object.add(1, SchemaDatum::Object(inner));
    object
}

#[test]
fn map_decodes_in_key_order_whatever_the_wire_order() {
    let ty = SchemaType::Mapping(prim(SchemaListType::Uint32), prim(SchemaListType::Uint32));
    let object = wire_map(vec![(30, 3), (10, 1), (20, 2)]);
    let expected = Value::Mapping(vec![
        (Value::Scalar(Scalar::U32(10)), Value::Scalar(Scalar::U32(1))),
        (Value::Scalar(Scalar::U32(20)), Value::Scalar(Scalar::U32(2))),
        (Value::Scalar(Scalar::U32(30)), Value::Scalar(Scalar::U32(3))),
    ]);
    assert_eq!(ty.from_field(&object, 1), Ok(expected));
}

#[test]
fn map_duplicate_keys_overwrite_in_wire_order() {
    let ty = SchemaType::Mapping(prim(SchemaListType::Uint32), prim(SchemaListType::Uint32));
    let object = wire_map(vec![(5, 1), (2, 7), (5, 2), (5, 3)]);
    let expected = Value::Mapping(vec![
        (Value::Scalar(Scalar::U32(2)), Value::Scalar(Scalar::U32(7))),
        (Value::Scalar(Scalar::U32(5)), Value::Scalar(Scalar::U32(3))),
    ]);
    assert_eq!(ty.from_field(&object, 1), Ok(expected));
}

#[test]
fn map_with_unequal_key_and_value_counts_fails() {
    let ty = SchemaType::Mapping(prim(SchemaListType::Uint32), prim(SchemaListType::Uint32));
    let mut inner = SchemaObject::new();
    inner.add(SCHEMA_MAP_KEY_FIELD_ID, SchemaDatum::Primitive(SchemaPrimitive::Uint32(1)));
    let mut object = SchemaObject::new();
    object.add(1, SchemaDatum::Object(inner));
    assert_eq!(ty.from_field(&object, 1), Err(SchemaError::InvalidFieldCount));
    assert_eq!(ty.from_field(&SchemaObject::new(), 1), Err(SchemaError::InvalidFieldCount));
}

#[test]
fn nested_structure_round_trips() {
    let inner = || {
        SchemaObjectType {
            fields: vec![
                FieldDefinition { field_id: 1, ty: SchemaType::Required(prim(SchemaListType::Double)) },
                FieldDefinition { field_id: 2, ty: SchemaType::Optional(SchemaIndexType::Text) },
            ],
        }
    };
    let inner_value = |x: f64, name: Option<&str>| {
        Value::Object(vec![
            Value::Scalar(Scalar::F64(x.to_bits())),
            Value::Optional(name.map(|n| Box::new(text(n)))),
        ])
    };
    round_trip(SchemaType::Required(SchemaIndexType::Object(inner())), inner_value(1.0, Some("a")));
    round_trip(
        SchemaType::List(SchemaIndexType::Object(inner())),
        Value::List(vec![inner_value(1.0, None), inner_value(2.0, Some("b"))]),
    );
    round_trip(
        SchemaType::Mapping(prim(SchemaListType::Uint64), SchemaIndexType::Object(inner())),
        Value::Mapping(vec![(Value::Scalar(Scalar::U64(4)), inner_value(0.5, None))]),
    );
}

#[test]
fn component_with_all_kinds_of_fields_round_trips() {
    let ty = custom_component_type();
    let value = custom_component_value();
    assert!(ty.is_well_formed());
    let object = ty.into_schema_object(&value).expect("the value is of the type");
    assert_eq!(object.len(), 7);
    assert_eq!(object.deserialize(&ty), Ok(value));
}

#[test]
fn fields_are_read_by_id_whatever_their_order() {
    let ty = SchemaObjectType {
        fields: vec![
            FieldDefinition { field_id: 1, ty: SchemaType::Required(prim(SchemaListType::Uint32)) },
            FieldDefinition { field_id: 2, ty: SchemaType::Required(SchemaIndexType::Text) },
        ],
    };
    let mut object = SchemaObject::new();
    object.add(2, SchemaDatum::Bytes("name".as_bytes().to_vec()));
    object.add(7, SchemaDatum::Primitive(SchemaPrimitive::Uint32(99)));
    object.add(1, SchemaDatum::Primitive(SchemaPrimitive::Uint32(5)));
    assert_eq!(
        ty.from_schema_object(&object),
        Ok(Value::Object(vec![Value::Scalar(Scalar::U32(5)), text("name")]))
    );
}

#[test]
fn optional_with_two_values_is_an_invalid_field_count() {
    let ty = SchemaType::Optional(prim(SchemaListType::Int32));
    let mut object = SchemaObject::new();
    object.add(3, SchemaDatum::Primitive(SchemaPrimitive::Int32(1)));
    object.add(3, SchemaDatum::Primitive(SchemaPrimitive::Int32(2)));
    assert_eq!(ty.from_field(&object, 3), Err(SchemaError::InvalidFieldCount));
    assert_eq!(object.field(&ty, 3), Err(SchemaError::InvalidFieldCount));
}

#[test]
fn required_needs_exactly_one_value() {
    let ty = SchemaType::Required(prim(SchemaListType::Int32));
    let mut object = SchemaObject::new();
    assert_eq!(ty.from_field(&object, 3), Err(SchemaError::InvalidFieldCount));
    object.add(3, SchemaDatum::Primitive(SchemaPrimitive::Int32(1)));
    assert_eq!(ty.from_field(&object, 3), Ok(Value::Scalar(Scalar::I32(1))));
    object.add(3, SchemaDatum::Primitive(SchemaPrimitive::Int32(2)));
    assert_eq!(ty.from_field(&object, 3), Err(SchemaError::InvalidFieldCount));
}

#[test]
fn values_of_another_kind_do_not_count() {
    let ty = SchemaType::Required(prim(SchemaListType::Int32));
    let mut object = SchemaObject::new();
    object.add(3, SchemaDatum::Primitive(SchemaPrimitive::Sint32(1)));
    assert_eq!(prim(SchemaListType::Int32).field_count(&object, 3), 0);
    assert_eq!(prim(SchemaListType::Sint32).field_count(&object, 3), 1);
    assert_eq!(ty.from_field(&object, 3), Err(SchemaError::InvalidFieldCount));
}

#[test]
fn invalid_utf8_is_a_decode_error() {
    let ty = SchemaType::Required(SchemaIndexType::Text);
    let mut object = SchemaObject::new();
    object.add(1, SchemaDatum::Bytes(vec![0xff, 0xfe]));
    assert_eq!(ty.from_field(&object, 1), Err(SchemaError::Utf8DecodeError));
    let list = SchemaType::List(SchemaIndexType::Text);
    let mut object = SchemaObject::new();
    object.add(1, SchemaDatum::Bytes("ok".as_bytes().to_vec()));
    object.add(1, SchemaDatum::Bytes(vec![0xc3]));
    assert_eq!(list.from_field(&object, 1), Err(SchemaError::Utf8DecodeError));
}

#[test]
fn text_is_decoded_from_its_utf8_bytes() {
    let ty = SchemaIndexType::Text;
    let mut object = SchemaObject::new();
    object.add(1, SchemaDatum::Bytes(vec![0xc3, 0xa9, 0x21]));
    assert_eq!(ty.index_field(&object, 1, 0), Ok(text("é!")));
}

#[test]
fn text_is_written_as_its_utf8_bytes() {
    let ty = SchemaType::Required(SchemaIndexType::Text);
    let mut object = SchemaObject::new();
    assert_eq!(ty.add_field(&mut object, 1, &text("é!")), Ok(()));
    assert_eq!(get_bytes(&object, 1), Ok(&vec![0xc3, 0xa9, 0x21]));
}

#[test]
fn first_failing_field_gives_the_error() {
    let ty = SchemaObjectType {
        fields: vec![
            FieldDefinition { field_id: 1, ty: SchemaType::Required(SchemaIndexType::Text) },
            FieldDefinition { field_id: 2, ty: SchemaType::Required(prim(SchemaListType::Uint32)) },
        ],
    };
    let mut object = SchemaObject::new();
    object.add(1, SchemaDatum::Bytes(vec![0xff]));
    assert_eq!(ty.from_schema_object(&object), Err(SchemaError::Utf8DecodeError));
    let mut object = SchemaObject::new();
    object.add(1, SchemaDatum::Bytes(vec![0x41]));
    assert_eq!(ty.from_schema_object(&object), Err(SchemaError::InvalidFieldCount));
}

#[test]
fn writing_a_value_of_another_type_is_a_type_mismatch() {
    let ty = SchemaType::Required(prim(SchemaListType::Int32));
    let mut object = SchemaObject::new();
    object.add(8, SchemaDatum::Bytes(vec![1]));
    assert_eq!(ty.add_field(&mut object, 1, &Value::Scalar(Scalar::I64(1))), Err(SchemaError::TypeMismatch));
    assert_eq!(ty.add_field(&mut object, 1, &text("1")), Err(SchemaError::TypeMismatch));
    assert_eq!(object.len(), 1);
    let object_type = custom_component_type();
    assert_eq!(
        object_type.into_schema_object(&Value::Object(vec![text("short")])).map(|o| o.len()),
        Err(SchemaError::TypeMismatch)
    );
    assert_eq!(object_type.into_schema_object(&text("x")).map(|o| o.len()), Err(SchemaError::TypeMismatch));
}

#[test]
fn maps_out_of_key_order_are_not_admitted() {
    let ty = SchemaType::Mapping(prim(SchemaListType::Uint32), prim(SchemaListType::Uint32));
    let pair = |k: u32| (Value::Scalar(Scalar::U32(k)), Value::Scalar(Scalar::U32(0)));
    assert!(ty.conforms(&Value::Mapping(vec![pair(1), pair(2)])));
    assert!(!ty.conforms(&Value::Mapping(vec![pair(2), pair(1)])));
    assert!(!ty.conforms(&Value::Mapping(vec![pair(1), pair(1)])));
    let mut object = SchemaObject::new();
    assert_eq!(
        ty.add_field(&mut object, 1, &Value::Mapping(vec![pair(2), pair(1)])),
        Err(SchemaError::TypeMismatch)
    );
}

#[test]
fn conformance_follows_the_type() {
    assert!(prim(SchemaListType::Enum).conforms(&Value::Scalar(Scalar::U32(1))));
    assert!(!prim(SchemaListType::Enum).conforms(&Value::Scalar(Scalar::I32(1))));
    assert!(SchemaIndexType::Bytes.conforms(&Value::Bytes(vec![])));
    assert!(!SchemaIndexType::Bytes.conforms(&text("")));
    assert!(!SchemaIndexType::Text.conforms(&Value::Bytes(vec![])));
    let list = SchemaType::List(prim(SchemaListType::Uint32));
    assert!(list.conforms(&Value::List(vec![])));
    assert!(!list.conforms(&Value::List(vec![Value::Scalar(Scalar::U32(1)), text("x")])));
    assert!(!list.conforms(&Value::Optional(None)));
    let optional = SchemaType::Optional(SchemaIndexType::Text);
    assert!(optional.conforms(&Value::Optional(Some(Box::new(text("x"))))));
    assert!(!optional.conforms(&Value::Optional(Some(Box::new(Value::Bytes(vec![]))))));
    assert!(!optional.conforms(&text("x")));
    assert!(custom_component_type().conforms(&custom_component_value()));
}

#[test]
fn well_formed_types_have_distinct_ids_and_key_types() {
    assert!(custom_component_type().is_well_formed());
    let twice = SchemaObjectType {
        fields: vec![
            FieldDefinition { field_id: 1, ty: SchemaType::Required(SchemaIndexType::Text) },
            FieldDefinition { field_id: 1, ty: SchemaType::Required(SchemaIndexType::Bytes) },
        ],
    };
    assert!(!twice.is_well_formed());
    let float_key = SchemaType::Mapping(prim(SchemaListType::Float), SchemaIndexType::Text);
    assert!(!float_key.is_well_formed());
    let object_key =
        SchemaType::Mapping(SchemaIndexType::Object(SchemaObjectType { fields: vec![] }), SchemaIndexType::Text);
    assert!(!object_key.is_well_formed());
    let nested = SchemaType::List(SchemaIndexType::Object(one_field(float_key)));
    assert!(!nested.is_well_formed());
    assert!(SchemaType::Mapping(SchemaIndexType::Text, SchemaIndexType::Text).is_well_formed());
    assert!(prim(SchemaListType::Float).is_well_formed());
    assert!(!prim(SchemaListType::Double).is_key());
    assert!(prim(SchemaListType::EntityId).is_key());
    assert!(SchemaIndexType::Bytes.is_key());
}

#[test]
fn field_list_replaces_the_contents() {
    let mut object = SchemaObject::new();
    object.add(2, SchemaDatum::Primitive(SchemaPrimitive::Fixed32(7)));
    object.add(2, SchemaDatum::Primitive(SchemaPrimitive::Uint32(8)));
    object.add(3, SchemaDatum::Primitive(SchemaPrimitive::Fixed32(9)));
    object.add(2, SchemaDatum::Primitive(SchemaPrimitive::Fixed32(10)));
    let mut data = vec![Scalar::U32(1), Scalar::U32(2), Scalar::U32(3)];
    SchemaListType::Fixed32.get_field_list(&object, 2, &mut data);
    assert_eq!(data, vec![Scalar::U32(7), Scalar::U32(10)]);
    SchemaListType::Fixed32.get_field_list(&object, 4, &mut data);
    assert_eq!(data, vec![]);
}

#[test]
fn byte_strings_are_read_by_position() {
    let mut object = SchemaObject::new();
    assert_eq!(get_bytes(&object, 1), Err(SchemaError::InvalidFieldCount));
    object.add(1, SchemaDatum::Bytes(vec![1, 2]));
    assert_eq!(get_bytes(&object, 1), Ok(&vec![1, 2]));
    object.add(1, SchemaDatum::Bytes(vec![]));
    assert_eq!(get_bytes(&object, 1), Err(SchemaError::InvalidFieldCount));
    assert_eq!(index_bytes(&object, 1, 0), &vec![1u8, 2]);
    assert_eq!(index_bytes(&object, 1, 1), &Vec::<u8>::new());
    assert_eq!(SchemaIndexType::Bytes.field_count(&object, 1), 2);
    assert_eq!(SchemaIndexType::Text.field_count(&object, 1), 2);
}

#[test]
fn kinds_tell_the_value_type() {
    assert_eq!(SchemaListType::Float.scalar_type(), ScalarType::F32);
    assert_eq!(SchemaListType::Double.scalar_type(), ScalarType::F64);
    assert_eq!(SchemaListType::Sfixed32.scalar_type(), ScalarType::I32);
    assert_eq!(SchemaListType::EntityId.scalar_type(), ScalarType::I64);
    assert_eq!(SchemaListType::Enum.scalar_type(), ScalarType::U32);
    assert_eq!(SchemaListType::Fixed64.scalar_type(), ScalarType::U64);
    assert_eq!(Scalar::I64(1).scalar_type(), ScalarType::I64);
    assert_eq!(SchemaListType::Sint64.wrap(Scalar::I64(-2)), Some(SchemaPrimitive::Sint64(-2)));
    assert_eq!(SchemaListType::Sint64.wrap(Scalar::U64(2)), None);
    assert_eq!(SchemaPrimitive::Enum(4).kind(), SchemaListType::Enum);
    assert_eq!(SchemaPrimitive::Enum(4).scalar(), Scalar::U32(4));
    assert_eq!(SchemaType::Mapping(SchemaIndexType::Text, SchemaIndexType::Text).field_kind(), WireKind::Object);
    assert_eq!(SchemaType::List(SchemaIndexType::Text).field_kind(), WireKind::Bytes);
    assert_eq!(SchemaIndexType::Object(SchemaObjectType { fields: vec![] }).wire_kind(), WireKind::Object);
}

#[test]
fn clone_is_deep() {
    let value = custom_component_value();
    let copy = value.clone();
    assert_eq!(copy, value);
}
