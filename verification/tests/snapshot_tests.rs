use spatialos_sdk::codec::SchemaError;
use spatialos_sdk::component::{ComponentDatabase, ComponentDefinition};
use spatialos_sdk::entity::Entity;
use spatialos_sdk::schema::{Scalar, SchemaListType};
use spatialos_sdk::snapshot::{
    read_snapshot, write_snapshot, SnapshotError, SnapshotInputStream, SnapshotOutputStream,
};
use spatialos_sdk::value::{FieldDefinition, SchemaIndexType, SchemaObjectType, SchemaType, Value};

const COUNTER: u32 = 3;
const TITLE: u32 = 4;

fn counter_definition() -> ComponentDefinition {
    ComponentDefinition {
        component_id: COUNTER,
        data: SchemaObjectType {
            fields: vec![FieldDefinition {
                field_id: 1,
                ty: SchemaType::Required(SchemaIndexType::Primitive(SchemaListType::Uint32)),
            }],
        },
    }
}

fn title_definition() -> ComponentDefinition {
    ComponentDefinition {
        component_id: TITLE,
        data: SchemaObjectType {
            fields: vec![
                FieldDefinition { field_id: 1, ty: SchemaType::Required(SchemaIndexType::Text) },
                FieldDefinition {
                    field_id: 2,
                    ty: SchemaType::List(SchemaIndexType::Primitive(SchemaListType::EntityId)),
                },
            ],
        },
    }
}

fn snapshot_database() -> ComponentDatabase {
    ComponentDatabase::new(vec![counter_definition(), title_definition()]).expect("the definitions are fine")
}

fn counter(n: u32) -> Value {
    Value::Object(vec![Value::Scalar(Scalar::U32(n))])
}

fn title(name: &str, friends: Vec<i64>) -> Value {
    Value::Object(vec![
        Value::Text(name.to_string()),
        Value::List(friends.into_iter().map(|f| Value::Scalar(Scalar::I64(f))).collect()),
    ])
}

fn entity_with(components: Vec<(u32, Value)>) -> Entity {
    let mut entity = Entity::new();
    for (id, value) in components {
        entity.add(id, value);
    }
    entity
}

fn components_of(entity: &Entity) -> Vec<(u32, Value)> {
    (0..entity.len())
        .map(|i| {
            let (id, value) = entity.component_at(i);
            (id, value.clone())
        })
        .collect()
}

fn counter_record(entity_id: u8, n: u8) -> Vec<u8> {
    vec![
        entity_id, 0, 0, 0, 0, 0, 0, 0, // the entity
        1, 0, 0, 0, // one component
        3, 0, 0, 0, // the counter
        13, 0, 0, 0, // thirteen bytes of payload
        1, 0, 0, 0, // one entry
        1, 0, 0, 0, 4, n, 0, 0, 0, // field 1: uint32
    ]
}

#[test]
fn snapshot_round_trip_in_write_order() {
    let database = snapshot_database();
    let mut output = SnapshotOutputStream::new(&database);
    let first = entity_with(vec![(COUNTER, counter(11))]);
    let second = entity_with(vec![(TITLE, title("b", vec![1, -2]))]);
    let third = entity_with(vec![(TITLE, title("", vec![])), (COUNTER, counter(0))]);
    assert_eq!(output.write_entity(1, &first), Ok(()));
    assert_eq!(output.write_entity(2, &second), Ok(()));
    assert_eq!(output.write_entity(-3, &third), Ok(()));
    assert_eq!(output.write_entity(4, &Entity::new()), Ok(()));
    let mut input = SnapshotInputStream::new(output.into_bytes(), &database);
    let mut read = Vec::new();
    while input.has_next() {
        let (id, entity) = input.read_entity().expect("a record follows");
        read.push((id, components_of(&entity)));
    }
    assert_eq!(
        read,
        vec![
            (1, vec![(COUNTER, counter(11))]),
            (2, vec![(TITLE, title("b", vec![1, -2]))]),
            (-3, vec![(TITLE, title("", vec![])), (COUNTER, counter(0))]),
            (4, vec![]),
        ]
    );
    assert_eq!(input.read_entity().map(|r| r.0), Err(SnapshotError::EndOfStream));
}

#[test]
fn record_bytes_are_as_the_format_says() {
    let database = snapshot_database();
    let mut output = SnapshotOutputStream::new(&database);
    assert_eq!(output.bytes(), &Vec::<u8>::new());
    assert_eq!(output.write_entity(2, &entity_with(vec![(COUNTER, counter(9))])), Ok(()));
    assert_eq!(output.bytes(), &counter_record(2, 9));
    assert_eq!(output.write_entity(-1, &Entity::new()), Ok(()));
    let mut expected = counter_record(2, 9);
    expected.extend_from_slice(&[0xFF; 8]);
    expected.extend_from_slice(&[0, 0, 0, 0]);
    assert_eq!(output.into_bytes(), expected);
}

#[test]
fn record_is_read_from_its_bytes() {
    let database = snapshot_database();
    let mut input = SnapshotInputStream::new(counter_record(7, 5), &database);
    assert!(input.has_next());
    let (id, entity) = input.read_entity().expect("the bytes are a record");
    assert_eq!(id, 7);
    assert_eq!(components_of(&entity), vec![(COUNTER, counter(5))]);
    assert!(!input.has_next());
}

#[test]
fn empty_stream_is_at_its_end() {
    let database = snapshot_database();
    let mut input = SnapshotInputStream::new(vec![], &database);
    assert!(!input.has_next());
    assert_eq!(input.read_entity().map(|r| r.0), Err(SnapshotError::EndOfStream));
    assert_eq!(input.read_entity().map(|r| r.0), Err(SnapshotError::EndOfStream));
}

#[test]
fn truncated_record_is_a_format_error() {
    let database = snapshot_database();
    let record = counter_record(1, 1);
    for length in 1..record.len() {
        let mut input = SnapshotInputStream::new(record[..length].to_vec(), &database);
        assert!(input.has_next());
        assert_eq!(input.read_entity().map(|r| r.0), Err(SnapshotError::FormatError), "length {}", length);
        assert!(input.has_next());
    }
}

#[test]
fn failed_read_leaves_the_stream_where_it_was() {
    let database = snapshot_database();
    let mut bytes = counter_record(1, 1);
    bytes.extend_from_slice(&[9, 9, 9]);
    let mut input = SnapshotInputStream::new(bytes, &database);
    assert_eq!(input.read_entity().map(|r| r.0), Ok(1));
    assert_eq!(input.read_entity().map(|r| r.0), Err(SnapshotError::FormatError));
    assert_eq!(input.read_entity().map(|r| r.0), Err(SnapshotError::FormatError));
    assert!(input.has_next());
}

#[test]
fn wrong_payload_length_is_a_format_error() {
    let database = snapshot_database();
    let mut record = counter_record(1, 1);
    record[16] = 12;
    let mut input = SnapshotInputStream::new(record, &database);
    assert_eq!(input.read_entity().map(|r| r.0), Err(SnapshotError::FormatError));
}

#[test]
fn component_twice_in_a_record_is_a_format_error() {
    let database = snapshot_database();
    let mut record = counter_record(1, 1);
    record[8] = 2;
    let component = record[12..].to_vec();
    record.extend_from_slice(&component);
    let mut input = SnapshotInputStream::new(record, &database);
    assert_eq!(input.read_entity().map(|r| r.0), Err(SnapshotError::FormatError));
}

#[test]
fn unregistered_component_cannot_be_read() {
    let database = snapshot_database();
    let mut record = counter_record(1, 1);
    record[12] = 77;
    let mut input = SnapshotInputStream::new(record, &database);
    assert_eq!(input.read_entity().map(|r| r.0), Err(SnapshotError::UnregisteredComponent));
}

#[test]
fn payload_of_another_type_cannot_be_read() {
    let database = snapshot_database();
    let mut record = counter_record(1, 1);
    record[12] = TITLE as u8;
    let mut input = SnapshotInputStream::new(record, &database);
    assert_eq!(input.read_entity().map(|r| r.0), Err(SnapshotError::Schema(SchemaError::InvalidFieldCount)));
}

#[test]
fn unregistered_component_cannot_be_written() {
    let database = snapshot_database();
    let mut output = SnapshotOutputStream::new(&database);
    assert_eq!(output.write_entity(1, &entity_with(vec![(COUNTER, counter(1))])), Ok(()));
    let before = output.bytes().clone();
    let entity = entity_with(vec![(COUNTER, counter(2)), (99, counter(3))]);
    assert_eq!(output.write_entity(2, &entity), Err(SnapshotError::UnregisteredComponent));
    assert_eq!(output.bytes(), &before);
}

#[test]
fn component_of_another_type_cannot_be_written() {
    let database = snapshot_database();
    let mut output = SnapshotOutputStream::new(&database);
    let entity = entity_with(vec![(COUNTER, title("x", vec![]))]);
    assert_eq!(output.write_entity(2, &entity), Err(SnapshotError::Schema(SchemaError::TypeMismatch)));
    assert_eq!(output.bytes(), &Vec::<u8>::new());
}

#[test]
fn whole_snapshot_round_trips() {
    let database = snapshot_database();
    let entities = vec![
        (1, entity_with(vec![(COUNTER, counter(11))])),
        (2, entity_with(vec![(TITLE, title("b", vec![5]))])),
    ];
    let bytes = write_snapshot(&database, &entities).expect("the entities can be written");
    let mut expected = counter_record(1, 11);
    let mut stream = SnapshotOutputStream::new(&database);
    assert_eq!(stream.write_entity(2, &entities[1].1), Ok(()));
    expected.extend_from_slice(stream.bytes());
    assert_eq!(bytes, expected);
    let read = read_snapshot(&database, bytes).expect("the bytes are a snapshot");
    let read: Vec<_> = read.iter().map(|(id, entity)| (*id, components_of(entity))).collect();
    assert_eq!(
        read,
        vec![(1, vec![(COUNTER, counter(11))]), (2, vec![(TITLE, title("b", vec![5]))])]
    );
}

#[test]
fn whole_snapshot_of_nothing_is_empty() {
    let database = snapshot_database();
    assert_eq!(write_snapshot(&database, &vec![]), Ok(vec![]));
    assert_eq!(read_snapshot(&database, vec![]).map(|e| e.len()), Ok(0));
}

#[test]
fn whole_snapshot_fails_with_the_first_failure() {
    let database = snapshot_database();
    let entities = vec![
        (1, entity_with(vec![(COUNTER, counter(11))])),
        (2, entity_with(vec![(99, counter(1))])),
        (3, entity_with(vec![(COUNTER, title("x", vec![]))])),
    ];
    assert_eq!(write_snapshot(&database, &entities), Err(SnapshotError::UnregisteredComponent));
    let mut bytes = counter_record(1, 1);
    bytes.extend_from_slice(&[1, 2, 3]);
    assert_eq!(read_snapshot(&database, bytes).map(|e| e.len()), Err(SnapshotError::FormatError));
}
