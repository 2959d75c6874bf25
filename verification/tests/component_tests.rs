use spatialos_sdk::codec::SchemaError;
use spatialos_sdk::component::{ComponentDatabase, ComponentDefinition, ComponentUpdate, DatabaseError};
use spatialos_sdk::entity::Entity;
use spatialos_sdk::schema::{
    Scalar, SchemaCommandRequest, SchemaCommandResponse, SchemaComponentData, SchemaComponentUpdate,
    SchemaDatum, SchemaListType, SchemaPrimitive,
};
use spatialos_sdk::value::{FieldDefinition, SchemaIndexType, SchemaObjectType, SchemaType, Value};

const POSITION: u32 = 54;
const NAME: u32 = 1001;

fn position_definition() -> ComponentDefinition {
    ComponentDefinition {
        component_id: POSITION,
        data: SchemaObjectType {
            fields: vec![
                FieldDefinition { field_id: 1, ty: SchemaType::Required(SchemaIndexType::Primitive(SchemaListType::Sint64)) },
                FieldDefinition { field_id: 2, ty: SchemaType::Required(SchemaIndexType::Primitive(SchemaListType::Sint64)) },
            ],
        },
    }
}

fn name_definition() -> ComponentDefinition {
    ComponentDefinition {
        component_id: NAME,
        data: SchemaObjectType {
            fields: vec![FieldDefinition { field_id: 1, ty: SchemaType::Required(SchemaIndexType::Text) }],
        },
    }
}

fn demo_database() -> ComponentDatabase {
    ComponentDatabase::new(vec![position_definition(), name_definition()]).expect("the definitions are fine")
}

fn position_value(x: i64, y: i64) -> Value {
    Value::Object(vec![Value::Scalar(Scalar::I64(x)), Value::Scalar(Scalar::I64(y))])
}

#[test]
fn database_knows_its_components() {
    let database = demo_database();
    assert_eq!(database.len(), 2);
    assert!(database.is_registered(POSITION));
    assert!(database.is_registered(NAME));
    assert!(!database.is_registered(7));
    assert_eq!(database.find(NAME), Some(1));
    assert_eq!(database.find(7), None);
    assert_eq!(database.get_registered_component_ids(), vec![POSITION, NAME]);
    assert_eq!(database.get(POSITION).map(|d| d.component_id), Some(POSITION));
    assert_eq!(database.get(POSITION).map(|d| d.data.fields.len()), Some(2));
    assert!(database.get(7).is_none());
}

#[test]
fn empty_database_knows_nothing() {
    let database = ComponentDatabase::new(vec![]).expect("no definition is fine");
    assert_eq!(database.len(), 0);
    assert!(!database.is_registered(0));
    assert_eq!(database.get_registered_component_ids(), Vec::<u32>::new());
}

#[test]
fn duplicate_component_ids_make_no_database() {
    let result = ComponentDatabase::new(vec![position_definition(), name_definition(), position_definition()]);
    assert_eq!(result.map(|d| d.len()), Err(DatabaseError::DuplicateComponent));
}

#[test]
fn malformed_types_make_no_database() {
    let definition = ComponentDefinition {
        component_id: 3,
        data: SchemaObjectType {
            fields: vec![
                FieldDefinition { field_id: 1, ty: SchemaType::Required(SchemaIndexType::Text) },
                FieldDefinition { field_id: 1, ty: SchemaType::Required(SchemaIndexType::Text) },
            ],
        },
    };
    let result = ComponentDatabase::new(vec![position_definition(), definition]);
    assert_eq!(result.map(|d| d.len()), Err(DatabaseError::MalformedType));
}

#[test]
fn data_round_trip_through_the_database() {
    let database = demo_database();
    let value = position_value(3, -4);
    let data = database.to_data(POSITION, &value).expect("the value is a position");
    assert_eq!(data.component_id(), POSITION);
    assert_eq!(data.fields().len(), 2);
    assert_eq!(database.from_data(&data), Ok(value));
}

#[test]
fn data_of_another_type_are_a_type_mismatch() {
    let database = demo_database();
    let result = database.to_data(NAME, &position_value(1, 2));
    assert_eq!(result.map(|d| d.component_id), Err(SchemaError::TypeMismatch));
}

#[test]
fn data_are_read_with_the_type_of_their_component() {
    let database = demo_database();
    let mut data = SchemaComponentData::new(NAME);
    data.fields_mut().add(1, SchemaDatum::Bytes("ann".as_bytes().to_vec()));
    assert_eq!(database.from_data(&data), Ok(Value::Object(vec![Value::Text("ann".to_string())])));
    let mut data = SchemaComponentData::new(POSITION);
    data.fields_mut().add(1, SchemaDatum::Primitive(SchemaPrimitive::Sint64(1)));
    assert_eq!(database.from_data(&data), Err(SchemaError::InvalidFieldCount));
}

#[test]
fn updates_and_commands_have_no_wire_form() {
    let database = demo_database();
    let update = ComponentUpdate { fields: vec![None, None] };
    assert_eq!(database.from_update(&SchemaComponentUpdate::new(POSITION)), Err(SchemaError::NotImplemented));
    assert_eq!(database.to_update(POSITION, &update).map(|u| u.component_id), Err(SchemaError::NotImplemented));
    assert_eq!(database.from_request(&SchemaCommandRequest::new(POSITION, 1)), Err(SchemaError::NotImplemented));
    assert_eq!(
        database.to_request(POSITION, &Value::Optional(None)).map(|r| r.component_id),
        Err(SchemaError::NotImplemented)
    );
    assert_eq!(database.from_response(&SchemaCommandResponse::new(POSITION, 1)), Err(SchemaError::NotImplemented));
    assert_eq!(
        database.to_response(POSITION, &Value::Optional(None)).map(|r| r.component_id),
        Err(SchemaError::NotImplemented)
    );
}

#[test]
fn merge_replaces_the_updated_fields_only() {
    let database = demo_database();
    let mut data = position_value(1, 2);
    let update = ComponentUpdate { fields: vec![None, Some(Value::Scalar(Scalar::I64(20)))] };
    assert_eq!(database.merge(POSITION, &mut data, &update), Ok(()));
    assert_eq!(data, position_value(1, 20));
    let update = ComponentUpdate { fields: vec![Some(Value::Scalar(Scalar::I64(10))), None] };
    assert_eq!(database.merge(POSITION, &mut data, &update), Ok(()));
    assert_eq!(data, position_value(10, 20));
    let update = ComponentUpdate { fields: vec![None, None] };
    assert_eq!(database.merge(POSITION, &mut data, &update), Ok(()));
    assert_eq!(data, position_value(10, 20));
}

#[test]
fn merge_refuses_what_does_not_fit() {
    let database = demo_database();
    let mut data = position_value(1, 2);
    let short = ComponentUpdate { fields: vec![None] };
    assert_eq!(database.merge(POSITION, &mut data, &short), Err(SchemaError::TypeMismatch));
    let wrong = ComponentUpdate { fields: vec![None, Some(Value::Text("x".to_string()))] };
    assert_eq!(database.merge(POSITION, &mut data, &wrong), Err(SchemaError::TypeMismatch));
    assert_eq!(data, position_value(1, 2));
    let mut no_structure = Value::Text("x".to_string());
    let update = ComponentUpdate { fields: vec![None, None] };
    assert_eq!(database.merge(POSITION, &mut no_structure, &update), Err(SchemaError::TypeMismatch));
    assert_eq!(no_structure, Value::Text("x".to_string()));
    assert!(database.get(POSITION).unwrap().data.update_conforms(&update));
    assert!(!database.get(POSITION).unwrap().data.update_conforms(&short));
}

#[test]
fn wire_wrappers_hold_what_they_are_given() {
    let mut update = SchemaComponentUpdate::new(5);
    assert_eq!(update.component_id(), 5);
    update.fields_mut().add(1, SchemaDatum::Bytes(vec![1]));
    update.events_mut().add(2, SchemaDatum::Bytes(vec![2]));
    update.events_mut().add(2, SchemaDatum::Bytes(vec![3]));
    assert_eq!(update.fields().len(), 1);
    assert_eq!(update.events().len(), 2);
    let mut request = SchemaCommandRequest::new(5, 9);
    assert_eq!((request.component_id(), request.command_index()), (5, 9));
    request.object_mut().add(1, SchemaDatum::Bytes(vec![]));
    assert_eq!(request.object().len(), 1);
    let mut response = SchemaCommandResponse::new(6, 10);
    assert_eq!((response.component_id(), response.command_index()), (6, 10));
    response.object_mut().add(1, SchemaDatum::Bytes(vec![]));
    assert_eq!(response.object().len(), 1);
}

#[test]
fn entity_holds_one_value_for_each_component() {
    let mut entity = Entity::new();
    assert_eq!(entity.len(), 0);
    assert!(!entity.has(POSITION));
    assert_eq!(entity.get(POSITION), None);
    entity.add(POSITION, position_value(1, 2));
    entity.add(NAME, Value::Object(vec![Value::Text("bob".to_string())]));
    assert_eq!(entity.len(), 2);
    assert!(entity.has(POSITION));
    assert!(entity.has(NAME));
    assert!(!entity.has(3));
    assert_eq!(entity.get(POSITION), Some(&position_value(1, 2)));
    assert_eq!(entity.get(NAME), Some(&Value::Object(vec![Value::Text("bob".to_string())])));
    assert_eq!(entity.get(3), None);
    assert_eq!(entity.component_at(0), (POSITION, &position_value(1, 2)));
    assert_eq!(entity.component_at(1).0, NAME);
}
