use spatialos_sdk::codec::SchemaError;
use spatialos_sdk::component::{ComponentDatabase, ComponentDefinition, ComponentUpdate};
use spatialos_sdk::op::{
    AddComponentOp, AddEntityOp, Authority, AuthorityChangeOp, CommandRequestOp, CommandResponseOp,
    ComponentUpdateOp, RemoveComponentOp, RemoveEntityOp, RequestId, StatusCode, WorkerOp,
};
use spatialos_sdk::schema::{Scalar, SchemaComponentData, SchemaDatum, SchemaListType, SchemaPrimitive};
use spatialos_sdk::value::{FieldDefinition, SchemaIndexType, SchemaObjectType, SchemaType, Value};
use spatialos_sdk::view::{View, ViewError, ViewQuery};
use spatialos_sdk::EntityId;

const HEALTH: u32 = 10;
const LABEL: u32 = 20;

fn health_database() -> ComponentDatabase {
    ComponentDatabase::new(vec![
        ComponentDefinition {
            component_id: HEALTH,
            data: SchemaObjectType {
                fields: vec![
                    FieldDefinition {
                        field_id: 1,
                        ty: SchemaType::Required(SchemaIndexType::Primitive(SchemaListType::Uint32)),
                    },
                    FieldDefinition {
                        field_id: 2,
                        ty: SchemaType::Required(SchemaIndexType::Primitive(SchemaListType::Uint32)),
                    },
                ],
            },
        },
        ComponentDefinition {
            component_id: LABEL,
            data: SchemaObjectType {
                fields: vec![FieldDefinition { field_id: 1, ty: SchemaType::Required(SchemaIndexType::Text) }],
            },
        },
    ])
    .expect("the definitions are fine")
}

fn health(current: u32, max: u32) -> Value {
    Value::Object(vec![Value::Scalar(Scalar::U32(current)), Value::Scalar(Scalar::U32(max))])
}

fn health_data(current: u32, max: u32) -> SchemaComponentData {
    let mut data = SchemaComponentData::new(HEALTH);
    data.fields_mut().add(1, SchemaDatum::Primitive(SchemaPrimitive::Uint32(current)));
    data.fields_mut().add(2, SchemaDatum::Primitive(SchemaPrimitive::Uint32(max)));
    data
}

fn add_entity(entity_id: EntityId) -> WorkerOp {
    WorkerOp::AddEntity(AddEntityOp { entity_id })
}

fn remove_entity(entity_id: EntityId) -> WorkerOp {
    WorkerOp::RemoveEntity(RemoveEntityOp { entity_id })
}

fn add_health(entity_id: EntityId, current: u32, max: u32) -> WorkerOp {
    WorkerOp::AddComponent(AddComponentOp { entity_id, data: health_data(current, max) })
}

fn remove_component(entity_id: EntityId, component_id: u32) -> WorkerOp {
    WorkerOp::RemoveComponent(RemoveComponentOp { entity_id, component_id })
}

fn update_health(entity_id: EntityId, current: Option<u32>, max: Option<u32>) -> WorkerOp {
    WorkerOp::ComponentUpdate(ComponentUpdateOp {
        entity_id,
        component_id: HEALTH,
        update: ComponentUpdate {
            fields: vec![current.map(|c| Value::Scalar(Scalar::U32(c))), max.map(|m| Value::Scalar(Scalar::U32(m)))],
        },
    })
}

fn authority(entity_id: EntityId, component_id: u32, authority: Authority) -> WorkerOp {
    WorkerOp::AuthorityChange(AuthorityChangeOp { entity_id, component_id, authority })
}

fn request(entity_id: EntityId, id: u32, payload: &str) -> WorkerOp {
    WorkerOp::CommandRequest(CommandRequestOp {
        entity_id,
        component_id: HEALTH,
        request_id: RequestId::new(id),
        request: Value::Text(payload.to_string()),
    })
}

fn response(entity_id: EntityId, id: u32, response: StatusCode) -> WorkerOp {
    WorkerOp::CommandResponse(CommandResponseOp {
        entity_id,
        component_id: HEALTH,
        request_id: RequestId::new(id),
        response,
    })
}

fn sorted(mut ids: Vec<EntityId>) -> Vec<EntityId> {
    ids.sort();
    ids
}

fn drain(view: &View) -> Vec<EntityId> {
    let mut iter = view.iter_entities();
    let mut ids = Vec::new();
    while let Some(id) = iter.next() {
        ids.push(id);
    }
    assert_eq!(iter.next(), None);
    sorted(ids)
}

#[test]
fn new_view_holds_nothing() {
    let database = health_database();
    let view = View::new(&database);
    assert!(!view.has_entity(1));
    assert!(!view.was_entity_added(1));
    assert!(!view.was_entity_removed(1));
    assert_eq!(view.get_component(HEALTH, 1), None);
    assert_eq!(view.get_authority(HEALTH, 1), None);
    assert!(!view.is_authoritative(HEALTH, 1));
    assert!(!view.has_command_requests(HEALTH, 1));
    assert!(!view.has_command_responses(HEALTH, 1));
    assert_eq!(drain(&view), Vec::<EntityId>::new());
    assert!(view.is_registered(HEALTH));
    assert!(view.is_registered(LABEL));
    assert!(!view.is_registered(99));
}

#[test]
fn update_after_add_gives_the_merged_data() {
    let database = health_database();
    let mut view = View::new(&database);
    let ops = vec![add_entity(5), add_health(5, 70, 100), update_health(5, Some(55), None)];
    assert_eq!(view.process_ops(&ops), Ok(()));
    assert_eq!(view.get_component(HEALTH, 5), Some(&health(55, 100)));
    let mut merged = health(70, 100);
    let update = ComponentUpdate { fields: vec![Some(Value::Scalar(Scalar::U32(55))), None] };
    assert_eq!(database.merge(HEALTH, &mut merged, &update), Ok(()));
    assert_eq!(view.get_component(HEALTH, 5), Some(&merged));
    assert_eq!(view.get_component(LABEL, 5), None);
}

#[test]
fn update_of_a_component_never_added_is_stale() {
    let database = health_database();
    let mut view = View::new(&database);
    assert_eq!(view.process_ops(&vec![update_health(5, Some(1), None)]), Err(ViewError::StaleUpdate));
    assert_eq!(view.process_ops(&vec![add_entity(5), update_health(5, Some(1), None)]), Err(ViewError::StaleUpdate));
    assert!(view.has_entity(5));
    assert_eq!(view.get_component(HEALTH, 5), None);
}

#[test]
fn update_after_removal_is_stale() {
    let database = health_database();
    let mut view = View::new(&database);
    let ops = vec![add_entity(5), add_health(5, 1, 2), remove_component(5, HEALTH), update_health(5, Some(1), None)];
    assert_eq!(view.process_ops(&ops), Err(ViewError::StaleUpdate));
    assert_eq!(view.get_component(HEALTH, 5), None);
}

#[test]
fn removal_of_a_component_never_added_is_stale() {
    let database = health_database();
    let mut view = View::new(&database);
    assert_eq!(view.process_ops(&vec![add_entity(5), remove_component(5, HEALTH)]), Err(ViewError::StaleUpdate));
}

#[test]
fn second_add_of_a_component_is_a_duplicate() {
    let database = health_database();
    let mut view = View::new(&database);
    let ops = vec![add_entity(5), add_health(5, 1, 2), add_health(5, 3, 4)];
    assert_eq!(view.process_ops(&ops), Err(ViewError::DuplicateComponent));
    assert_eq!(view.get_component(HEALTH, 5), Some(&health(1, 2)));
}

#[test]
fn component_for_an_entity_not_in_the_view_is_refused() {
    let database = health_database();
    let mut view = View::new(&database);
    assert_eq!(view.process_ops(&vec![add_health(5, 1, 2)]), Err(ViewError::UnknownEntity));
    assert_eq!(view.get_component(HEALTH, 5), None);
    assert!(!view.has_entity(5));
}

#[test]
fn authority_is_set_for_an_entity_not_in_the_view() {
    let database = health_database();
    let mut view = View::new(&database);
    assert_eq!(view.process_ops(&vec![authority(5, HEALTH, Authority::Authoritative)]), Ok(()));
    assert!(view.is_authoritative(HEALTH, 5));
    assert_eq!(view.get_authority(HEALTH, 5), Some(Authority::Authoritative));
    assert!(!view.has_entity(5));
}

#[test]
fn absent_authority_is_not_the_same_as_not_authoritative() {
    let database = health_database();
    let mut view = View::new(&database);
    assert_eq!(view.process_ops(&vec![authority(5, HEALTH, Authority::NotAuthoritative)]), Ok(()));
    assert_eq!(view.get_authority(HEALTH, 5), Some(Authority::NotAuthoritative));
    assert_eq!(view.get_authority(HEALTH, 6), None);
    assert!(!view.is_authoritative(HEALTH, 5));
    assert!(!view.is_authoritative(HEALTH, 6));
}

#[test]
fn last_authority_change_wins_for_its_component_only() {
    let database = health_database();
    let mut view = View::new(&database);
    let ops = vec![
        authority(5, HEALTH, Authority::Authoritative),
        authority(5, HEALTH, Authority::AuthorityLossImminent),
    ];
    assert_eq!(view.process_ops(&ops), Ok(()));
    assert_eq!(view.get_authority(HEALTH, 5), Some(Authority::AuthorityLossImminent));
    assert_eq!(view.get_authority(LABEL, 5), None);
}

#[test]
fn authority_outlives_the_tick() {
    let database = health_database();
    let mut view = View::new(&database);
    assert_eq!(view.process_ops(&vec![authority(5, HEALTH, Authority::Authoritative)]), Ok(()));
    view.clear_transient_data();
    assert!(view.is_authoritative(HEALTH, 5));
    assert_eq!(view.process_ops(&vec![add_entity(5), remove_entity(5)]), Ok(()));
    assert_eq!(view.get_authority(HEALTH, 5), None);
}

#[test]
fn unregistered_component_is_refused_by_every_op() {
    let database = health_database();
    let mut view = View::new(&database);
    assert_eq!(view.process_ops(&vec![add_entity(1)]), Ok(()));
    let unknown = 99;
    let ops: Vec<WorkerOp> = vec![
        WorkerOp::AddComponent(AddComponentOp { entity_id: 1, data: SchemaComponentData::new(unknown) }),
        remove_component(1, unknown),
        WorkerOp::ComponentUpdate(ComponentUpdateOp {
            entity_id: 1,
            component_id: unknown,
            update: ComponentUpdate { fields: vec![] },
        }),
        authority(1, unknown, Authority::Authoritative),
        WorkerOp::CommandRequest(CommandRequestOp {
            entity_id: 1,
            component_id: unknown,
            request_id: RequestId::new(1),
            request: Value::Optional(None),
        }),
        WorkerOp::CommandResponse(CommandResponseOp {
            entity_id: 1,
            component_id: unknown,
            request_id: RequestId::new(1),
            response: StatusCode::NotFound("gone".to_string()),
        }),
    ];
    for op in ops {
        assert_eq!(view.process_ops(&vec![op]), Err(ViewError::UnregisteredComponent));
    }
}

#[test]
fn data_that_do_not_decode_are_refused() {
    let database = health_database();
    let mut view = View::new(&database);
    let mut data = SchemaComponentData::new(HEALTH);
    data.fields_mut().add(1, SchemaDatum::Primitive(SchemaPrimitive::Uint32(1)));
    let ops = vec![add_entity(1), WorkerOp::AddComponent(AddComponentOp { entity_id: 1, data })];
    assert_eq!(view.process_ops(&ops), Err(ViewError::Schema(SchemaError::InvalidFieldCount)));
    let mut data = SchemaComponentData::new(LABEL);
    data.fields_mut().add(1, SchemaDatum::Bytes(vec![0xff]));
    let ops = vec![WorkerOp::AddComponent(AddComponentOp { entity_id: 1, data })];
    assert_eq!(view.process_ops(&ops), Err(ViewError::Schema(SchemaError::Utf8DecodeError)));
    assert_eq!(view.get_component(HEALTH, 1), None);
    assert_eq!(view.get_component(LABEL, 1), None);
}

#[test]
fn update_of_another_type_is_refused() {
    let database = health_database();
    let mut view = View::new(&database);
    let bad = WorkerOp::ComponentUpdate(ComponentUpdateOp {
        entity_id: 1,
        component_id: HEALTH,
        update: ComponentUpdate { fields: vec![Some(Value::Text("x".to_string())), None] },
    });
    let ops = vec![add_entity(1), add_health(1, 1, 2), bad];
    assert_eq!(view.process_ops(&ops), Err(ViewError::Schema(SchemaError::TypeMismatch)));
    assert_eq!(view.get_component(HEALTH, 1), Some(&health(1, 2)));
    let short = WorkerOp::ComponentUpdate(ComponentUpdateOp {
        entity_id: 1,
        component_id: HEALTH,
        update: ComponentUpdate { fields: vec![] },
    });
    assert_eq!(view.process_ops(&vec![short]), Err(ViewError::Schema(SchemaError::TypeMismatch)));
    assert_eq!(view.get_component(HEALTH, 1), Some(&health(1, 2)));
}

#[test]
fn batch_stops_at_the_first_op_that_is_refused() {
    let database = health_database();
    let mut view = View::new(&database);
    let ops = vec![add_entity(1), add_health(1, 5, 5), add_health(2, 6, 6), add_entity(3)];
    assert_eq!(view.process_ops(&ops), Err(ViewError::UnknownEntity));
    assert!(view.has_entity(1));
    assert_eq!(view.get_component(HEALTH, 1), Some(&health(5, 5)));
    assert!(!view.has_entity(3));
    assert_eq!(view.process_ops(&vec![]), Ok(()));
}

#[test]
fn authority_follows_the_ops() {
    let database = health_database();
    let mut view = View::new(&database);
    let ops = vec![add_entity(5), add_health(5, 1, 1), authority(5, HEALTH, Authority::Authoritative)];
    assert_eq!(view.process_ops(&ops), Ok(()));
    assert!(view.is_authoritative(HEALTH, 5));
    assert_eq!(view.get_authority(HEALTH, 5), Some(Authority::Authoritative));
    assert_eq!(view.get_authority(LABEL, 5), None);
    assert_eq!(view.process_ops(&vec![authority(5, HEALTH, Authority::AuthorityLossImminent)]), Ok(()));
    assert!(!view.is_authoritative(HEALTH, 5));
    assert_eq!(view.get_authority(HEALTH, 5), Some(Authority::AuthorityLossImminent));
    assert_eq!(view.process_ops(&vec![authority(5, HEALTH, Authority::NotAuthoritative)]), Ok(()));
    assert_eq!(view.get_authority(HEALTH, 5), Some(Authority::NotAuthoritative));
    assert_eq!(view.process_ops(&vec![remove_component(5, HEALTH)]), Ok(()));
    assert_eq!(view.get_authority(HEALTH, 5), None);
    assert!(!view.is_authoritative(HEALTH, 5));
}

#[test]
fn added_entity_is_transient_until_cleared() {
    let database = health_database();
    let mut view = View::new(&database);
    assert_eq!(view.process_ops(&vec![add_entity(1)]), Ok(()));
    assert!(view.was_entity_added(1));
    assert!(!view.was_entity_added(2));
    assert!(view.has_entity(1));
    view.clear_transient_data();
    assert!(!view.was_entity_added(1));
    assert!(view.has_entity(1));
    assert_eq!(drain(&view), vec![1]);
}

#[test]
fn adding_an_entity_twice_changes_nothing() {
    let database = health_database();
    let mut view = View::new(&database);
    assert_eq!(view.process_ops(&vec![add_entity(1)]), Ok(()));
    view.clear_transient_data();
    assert_eq!(view.process_ops(&vec![add_entity(1)]), Ok(()));
    assert!(view.has_entity(1));
    assert!(!view.was_entity_added(1));
}

#[test]
fn removed_entity_takes_its_components_along() {
    let database = health_database();
    let mut view = View::new(&database);
    let ops = vec![
        add_entity(1),
        add_entity(2),
        add_health(1, 1, 1),
        add_health(2, 2, 2),
        authority(1, HEALTH, Authority::Authoritative),
        authority(1, LABEL, Authority::Authoritative),
        remove_entity(1),
    ];
    assert_eq!(view.process_ops(&ops), Ok(()));
    assert!(!view.has_entity(1));
    assert!(view.was_entity_removed(1));
    assert!(!view.was_entity_removed(2));
    assert_eq!(view.get_component(HEALTH, 1), None);
    assert_eq!(view.get_authority(HEALTH, 1), None);
    assert_eq!(view.get_authority(LABEL, 1), None);
    assert_eq!(view.get_component(HEALTH, 2), Some(&health(2, 2)));
    let mut removed = view.iter_entities_removed();
    assert_eq!(removed.next(), Some(1));
    assert_eq!(removed.next(), None);
    view.clear_transient_data();
    assert!(!view.was_entity_removed(1));
    assert_eq!(view.iter_entities_removed().next(), None);
    assert_eq!(view.process_ops(&vec![add_entity(1), add_health(1, 9, 9)]), Ok(()));
    assert_eq!(view.get_component(HEALTH, 1), Some(&health(9, 9)));
}

#[test]
fn removing_an_entity_that_is_not_there_changes_nothing() {
    let database = health_database();
    let mut view = View::new(&database);
    assert_eq!(view.process_ops(&vec![remove_entity(4)]), Ok(()));
    assert!(!view.was_entity_removed(4));
    assert!(!view.has_entity(4));
}

#[test]
fn command_response_is_held_under_the_request_id() {
    let database = health_database();
    let mut view = View::new(&database);
    let ops = vec![
        request(5, 7, "heal"),
        response(5, 7, StatusCode::Success(Value::Scalar(Scalar::U32(100)))),
    ];
    assert_eq!(view.process_ops(&ops), Ok(()));
    assert!(view.has_command_requests(HEALTH, 5));
    assert!(view.has_command_responses(HEALTH, 5));
    assert!(!view.has_command_requests(LABEL, 5));
    assert!(!view.has_command_responses(HEALTH, 6));
    assert_eq!(
        view.get_command_requests(HEALTH, 5),
        Some(&vec![(RequestId::new(7), Value::Text("heal".to_string()))])
    );
    assert_eq!(
        view.get_command_responses(HEALTH, 5),
        Some(&vec![(RequestId::new(7), Ok(Value::Scalar(Scalar::U32(100))))])
    );
    assert_eq!(view.get_command_requests(HEALTH, 6), None);
    assert_eq!(view.get_command_responses(LABEL, 5), None);
}

#[test]
fn failed_command_holds_the_message() {
    let database = health_database();
    let mut view = View::new(&database);
    let text = |s: &str| s.to_string();
    let ops = vec![
        response(5, 7, StatusCode::Timeout(text("deadline exceeded"))),
        response(5, 8, StatusCode::NotFound(text("no entity"))),
        response(5, 9, StatusCode::AuthorityLost(text("lost"))),
        response(5, 10, StatusCode::PermissionDenied(text("denied"))),
        response(5, 11, StatusCode::ApplicationError(text("failed"))),
        response(5, 12, StatusCode::InternalError(text("broken"))),
    ];
    assert_eq!(view.process_ops(&ops), Ok(()));
    assert_eq!(
        view.get_command_responses(HEALTH, 5),
        Some(&vec![
            (RequestId::new(7), Err(text("deadline exceeded"))),
            (RequestId::new(8), Err(text("no entity"))),
            (RequestId::new(9), Err(text("lost"))),
            (RequestId::new(10), Err(text("denied"))),
            (RequestId::new(11), Err(text("failed"))),
            (RequestId::new(12), Err(text("broken"))),
        ])
    );
}

#[test]
fn commands_are_kept_in_order_and_cleared_with_the_tick() {
    let database = health_database();
    let mut view = View::new(&database);
    let ops = vec![request(5, 1, "a"), request(6, 2, "b"), request(5, 3, "c")];
    assert_eq!(view.process_ops(&ops), Ok(()));
    assert_eq!(
        view.get_command_requests(HEALTH, 5),
        Some(&vec![
            (RequestId::new(1), Value::Text("a".to_string())),
            (RequestId::new(3), Value::Text("c".to_string())),
        ])
    );
    assert_eq!(view.get_command_requests(HEALTH, 6).map(|l| l.len()), Some(1));
    view.clear_transient_data();
    assert_eq!(view.get_command_requests(HEALTH, 5), None);
    assert!(!view.has_command_requests(HEALTH, 6));
    assert_eq!(view.process_ops(&vec![request(5, 4, "d")]), Ok(()));
    assert_eq!(view.get_command_requests(HEALTH, 5).map(|l| l.len()), Some(1));
}

#[test]
fn clearing_keeps_data_and_authority() {
    let database = health_database();
    let mut view = View::new(&database);
    let ops = vec![
        add_entity(1),
        add_health(1, 3, 4),
        authority(1, HEALTH, Authority::Authoritative),
        update_health(1, None, Some(8)),
        response(1, 2, StatusCode::Timeout("late".to_string())),
    ];
    assert_eq!(view.process_ops(&ops), Ok(()));
    view.clear_transient_data();
    assert_eq!(view.get_component(HEALTH, 1), Some(&health(3, 8)));
    assert!(view.is_authoritative(HEALTH, 1));
    assert!(!view.has_command_responses(HEALTH, 1));
    assert!(!view.was_entity_added(1));
}

struct Healthy(EntityId, u32);

impl<'a> ViewQuery<'a> for Healthy {
    fn filter(view: &View<'a>, entity_id: EntityId) -> bool {
        view.get_component(HEALTH, entity_id).is_some()
    }

    fn select(view: &'a View<'a>, entity_id: EntityId) -> Self {
        match view.get_component(HEALTH, entity_id) {
            Some(Value::Object(fields)) => match fields[0] {
                Value::Scalar(Scalar::U32(current)) => Healthy(entity_id, current),
                _ => unreachable!(),
            },
            _ => unreachable!(),
        }
    }
}

#[test]
fn query_takes_from_the_entities_that_count() {
    let database = health_database();
    let mut view = View::new(&database);
    let ops = vec![add_entity(1), add_entity(2), add_entity(3), add_health(1, 10, 10), add_health(3, 30, 30)];
    assert_eq!(view.process_ops(&ops), Ok(()));
    let mut found: Vec<(EntityId, u32)> = view.query::<Healthy>().iter().map(|h| (h.0, h.1)).collect();
    found.sort();
    assert_eq!(found, vec![(1, 10), (3, 30)]);
    assert_eq!(drain(&view), vec![1, 2, 3]);
}

#[test]
fn updates_are_listed_until_cleared() {
    let database = health_database();
    let mut view = View::new(&database);
    let ops = vec![
        add_entity(1),
        add_entity(2),
        add_health(1, 1, 1),
        add_health(2, 2, 2),
        update_health(2, Some(3), None),
        update_health(1, None, Some(4)),
        update_health(2, Some(5), None),
    ];
    assert_eq!(view.process_ops(&ops), Ok(()));
    assert_eq!(view.updated_entities(HEALTH), &vec![2, 1, 2]);
    assert_eq!(view.updated_entities(LABEL), &Vec::<EntityId>::new());
    assert!(view.was_component_updated(HEALTH, 1));
    assert!(view.was_component_updated(HEALTH, 2));
    assert!(!view.was_component_updated(HEALTH, 3));
    assert!(!view.was_component_updated(LABEL, 1));
    view.clear_transient_data();
    assert_eq!(view.updated_entities(HEALTH), &Vec::<EntityId>::new());
    assert!(!view.was_component_updated(HEALTH, 1));
    assert_eq!(view.get_component(HEALTH, 2), Some(&health(5, 2)));
}

#[test]
fn refused_update_is_not_listed() {
    let database = health_database();
    let mut view = View::new(&database);
    let ops = vec![add_entity(1), update_health(1, Some(3), None)];
    assert_eq!(view.process_ops(&ops), Err(ViewError::StaleUpdate));
    assert_eq!(view.updated_entities(HEALTH), &Vec::<EntityId>::new());
}
