//! The view: the local mirror of the simulation, kept in step by ops.
//!
//! The view holds, for each registered component and each entity, the
//! component's data and the worker's authority over it, and, for the current
//! tick only, which entities came and went, which components were updated,
//! and which commands were requested and answered. What an op does to the
//! view is fixed by [`step`], and what a batch does by [`run`].
//!
//! A batch that holds an op which does not fit the view is refused from
//! that op on, with the reason. A question about a component is put only for
//! a registered component; [`View::is_registered`] tells which are.

use vstd::prelude::*;
use vstd::pervasive::unreached;
use vstd::view::View as _;
use std::collections::{HashMap, HashSet};
use crate::codec::SchemaError;
use crate::component::{
    definitions_wf, lemma_position, merged, position, ComponentDatabase, ComponentDefinition,
};
use crate::op::{
    AddComponentOp, AddEntityOp, Authority, AuthorityChangeOp, CommandRequestOp, CommandResponseOp,
    ComponentUpdateOp, IncomingCommandRequest, OpList, OutgoingCommandRequest, RemoveComponentOp,
    RequestId, StatusCode, WorkerOp,
};
use crate::value::{Value, ValueView};
use crate::{ComponentId, EntityId};

verus! {

broadcast use vstd::std_specs::hash::group_hash_axioms;

/// Why an op could not be applied. Each of these means that the op stream
/// and the view no longer fit together.
#[derive(Clone, Copy, Debug, PartialEq, Eq, Structural)]
pub enum ViewError {
    /// The op names a component that the database does not know.
    UnregisteredComponent,
    /// The op gives a component to an entity that is not in the view.
    UnknownEntity,
    /// The op adds a component that the entity already has.
    DuplicateComponent,
    /// The op updates or removes a component that the entity does not have.
    StaleUpdate,
    /// The payload of the op does not fit the component's type.
    Schema(SchemaError),
}

/// A command request that waits for this worker's answer.
pub type PendingRequest = (RequestId<IncomingCommandRequest>, ValueView);

/// The answer to a command that this worker sent: the response, or the
/// message of the failure.
pub type PendingResponse = (RequestId<OutgoingCommandRequest>, Result<ValueView, Seq<char>>);

/// What the view holds of one component.
pub struct ComponentView {
    /// The component's data, by entity.
    pub data: Map<EntityId, ValueView>,
    /// The worker's authority over the component, by entity. No entry means
    /// that none was ever set.
    pub authority: Map<EntityId, Authority>,
    /// The entities whose component was updated this tick, once for each
    /// update, in order.
    pub updated: Seq<EntityId>,
    /// The command requests that came in this tick, by entity, in order.
    pub command_requests: Map<EntityId, Seq<PendingRequest>>,
    /// The command responses that came in this tick, by entity, in order.
    pub command_responses: Map<EntityId, Seq<PendingResponse>>,
}

/// What the view holds.
pub struct ViewState {
    /// The entities in the view.
    pub entities: Set<EntityId>,
    /// The entities that entered the view this tick.
    pub entities_added: Set<EntityId>,
    /// The entities that left the view this tick.
    pub entities_removed: Set<EntityId>,
    /// What the view holds of each registered component, in the order of the
    /// database's definitions.
    pub components: Seq<ComponentView>,
}

impl ComponentView {
    /// Nothing held.
    pub open spec fn empty() -> ComponentView {
        ComponentView {
            data: Map::empty(),
            authority: Map::empty(),
            updated: Seq::empty(),
            command_requests: Map::empty(),
            command_responses: Map::empty(),
        }
    }

    /// The same without what belongs to the current tick.
    pub open spec fn without_transient(self) -> ComponentView {
        ComponentView {
            data: self.data,
            authority: self.authority,
            updated: Seq::empty(),
            command_requests: Map::empty(),
            command_responses: Map::empty(),
        }
    }

    /// The same without the data of `entity_id` and the authority over them.
    pub open spec fn without_entity(self, entity_id: EntityId) -> ComponentView {
        ComponentView {
            data: self.data.remove(entity_id),
            authority: self.authority.remove(entity_id),
            updated: self.updated,
            command_requests: self.command_requests,
            command_responses: self.command_responses,
        }
    }

    /// The requests that wait for `entity_id`, none where there is no entry.
    pub open spec fn requests_of(self, entity_id: EntityId) -> Seq<PendingRequest> {
        if self.command_requests.contains_key(entity_id) {
            self.command_requests[entity_id]
        } else {
            Seq::empty()
        }
    }

    /// The responses that came for `entity_id`, none where there is no entry.
    pub open spec fn responses_of(self, entity_id: EntityId) -> Seq<PendingResponse> {
        if self.command_responses.contains_key(entity_id) {
            self.command_responses[entity_id]
        } else {
            Seq::empty()
        }
    }
}

impl ViewState {
    /// The view of `count` components that holds nothing.
    pub open spec fn empty(count: nat) -> ViewState {
        ViewState {
            entities: Set::empty(),
            entities_added: Set::empty(),
            entities_removed: Set::empty(),
            components: Seq::new(count, |i: int| ComponentView::empty()),
        }
    }

    /// Whether the state fits the database: it holds one component view for
    /// each definition, data only for entities that are in the view, and as
    /// the data of a component only values of the component's type.
    pub open spec fn wf(self, database: Seq<ComponentDefinition>) -> bool {
        &&& self.components.len() == database.len()
        &&& forall|i: int, e: EntityId|
            0 <= i < self.components.len() && #[trigger] self.components[i].data.contains_key(e)
                ==> self.entities.contains(e) && database[i].data.admits(self.components[i].data[e])
    }

    /// Whether authority is held only over components of entities that are
    /// in the view.
    pub open spec fn authority_within(self) -> bool {
        forall|i: int, e: EntityId|
            0 <= i < self.components.len() && #[trigger] self.components[i].authority.contains_key(e)
                ==> self.entities.contains(e)
    }

    /// The same with `component` in place of the component view at `index`.
    pub open spec fn with_component(self, index: int, component: ComponentView) -> ViewState {
        ViewState {
            entities: self.entities,
            entities_added: self.entities_added,
            entities_removed: self.entities_removed,
            components: self.components.update(index, component),
        }
    }

    /// The same without what belongs to the current tick.
    pub open spec fn clear_transient_data(self) -> ViewState {
        ViewState {
            entities: self.entities,
            entities_added: Set::empty(),
            entities_removed: Set::empty(),
            components: Seq::new(self.components.len(), |i: int| self.components[i].without_transient()),
        }
    }

    /// The entity enters the view and counts as added this tick. Nothing
    /// changes where the entity is in the view already.
    pub open spec fn add_entity(self, entity_id: EntityId) -> ViewState {
        if self.entities.contains(entity_id) {
            self
        } else {
            ViewState {
                entities: self.entities.insert(entity_id),
                entities_added: self.entities_added.insert(entity_id),
                entities_removed: self.entities_removed,
                components: self.components,
            }
        }
    }

    /// The entity leaves the view and counts as removed this tick; with it go
    /// the data of all its components and the authority over them. Nothing
    /// changes where the entity is not in the view.
    pub open spec fn remove_entity(self, entity_id: EntityId) -> ViewState {
        if !self.entities.contains(entity_id) {
            self
        } else {
            ViewState {
                entities: self.entities.remove(entity_id),
                entities_added: self.entities_added,
                entities_removed: self.entities_removed.insert(entity_id),
                components: Seq::new(
                    self.components.len(),
                    |i: int| self.components[i].without_entity(entity_id),
                ),
            }
        }
    }

    /// The entity gets the component: the op's data, read as a value of the
    /// component's type, are stored for it.
    pub open spec fn add_component(self, database: Seq<ComponentDefinition>, op: &AddComponentOp) -> Result<
        ViewState,
        ViewError,
    > {
        let index = position(database, op.data.component_id);
        if index >= database.len() {
            Err(ViewError::UnregisteredComponent)
        } else if !self.entities.contains(op.entity_id) {
            Err(ViewError::UnknownEntity)
        } else if self.components[index].data.contains_key(op.entity_id) {
            Err(ViewError::DuplicateComponent)
        } else {
            match database[index].data.decoded(op.data.fields@) {
                Err(e) => Err(ViewError::Schema(e)),
                Ok(value) => Ok(
                    self.with_component(
                        index,
                        ComponentView {
                            data: self.components[index].data.insert(op.entity_id, value),
                            ..self.components[index]
                        },
                    ),
                ),
            }
        }
    }

    /// The entity loses the component: its data and the authority over them
    /// are erased.
    pub open spec fn remove_component(self, database: Seq<ComponentDefinition>, op: &RemoveComponentOp) -> Result<
        ViewState,
        ViewError,
    > {
        let index = position(database, op.component_id);
        if index >= database.len() {
            Err(ViewError::UnregisteredComponent)
        } else if !self.components[index].data.contains_key(op.entity_id) {
            Err(ViewError::StaleUpdate)
        } else {
            Ok(
                self.with_component(
                    index,
                    ComponentView {
                        data: self.components[index].data.remove(op.entity_id),
                        authority: self.components[index].authority.remove(op.entity_id),
                        ..self.components[index]
                    },
                ),
            )
        }
    }

    /// The update is merged into the data that the entity has of the
    /// component, and the entity counts as updated once more.
    pub open spec fn handle_component_update(
        self,
        database: Seq<ComponentDefinition>,
        op: &ComponentUpdateOp,
    ) -> Result<ViewState, ViewError> {
        let index = position(database, op.component_id);
        if index >= database.len() {
            Err(ViewError::UnregisteredComponent)
        } else if !self.components[index].data.contains_key(op.entity_id) {
            Err(ViewError::StaleUpdate)
        } else {
            let data = self.components[index].data[op.entity_id];
            if !(data is Object && data->Object_0.len() == database[index].data.fields@.len()
                && database[index].data.admits_update(op.update@)) {
                Err(ViewError::Schema(SchemaError::TypeMismatch))
            } else {
                Ok(
                    self.with_component(
                        index,
                        ComponentView {
                            data: self.components[index].data.insert(op.entity_id, merged(data, op.update@)),
                            updated: self.components[index].updated.push(op.entity_id),
                            ..self.components[index]
                        },
                    ),
                )
            }
        }
    }

    /// The authority over the entity's component is set, whether or not
    /// the entity is in the view.
    pub open spec fn set_authority(self, database: Seq<ComponentDefinition>, op: &AuthorityChangeOp) -> Result<
        ViewState,
        ViewError,
    > {
        let index = position(database, op.component_id);
        if index >= database.len() {
            Err(ViewError::UnregisteredComponent)
        } else {
            Ok(
                self.with_component(
                    index,
                    ComponentView {
                        authority: self.components[index].authority.insert(op.entity_id, op.authority),
                        ..self.components[index]
                    },
                ),
            )
        }
    }

    /// The request joins, at the end, the requests that wait for the
    /// entity's component.
    pub open spec fn handle_command_request(
        self,
        database: Seq<ComponentDefinition>,
        op: &CommandRequestOp,
    ) -> Result<ViewState, ViewError> {
        let index = position(database, op.component_id);
        if index >= database.len() {
            Err(ViewError::UnregisteredComponent)
        } else {
            Ok(
                self.with_component(
                    index,
                    ComponentView {
                        command_requests: self.components[index].command_requests.insert(
                            op.entity_id,
                            self.components[index].requests_of(op.entity_id).push((op.request_id, op.request@)),
                        ),
                        ..self.components[index]
                    },
                ),
            )
        }
    }

    /// The outcome of the command joins, at the end, the responses that came
    /// for the entity's component.
    pub open spec fn handle_command_response(
        self,
        database: Seq<ComponentDefinition>,
        op: &CommandResponseOp,
    ) -> Result<ViewState, ViewError> {
        let index = position(database, op.component_id);
        if index >= database.len() {
            Err(ViewError::UnregisteredComponent)
        } else {
            Ok(
                self.with_component(
                    index,
                    ComponentView {
                        command_responses: self.components[index].command_responses.insert(
                            op.entity_id,
                            self.components[index].responses_of(op.entity_id).push(
                                (op.request_id, op.response.outcome()),
                            ),
                        ),
                        ..self.components[index]
                    },
                ),
            )
        }
    }
}

/// The state after `op` was applied to `state`, or why it cannot be applied.
pub open spec fn step(database: Seq<ComponentDefinition>, state: ViewState, op: &WorkerOp) -> Result<
    ViewState,
    ViewError,
> {
    match op {
        WorkerOp::AddEntity(op) => Ok(state.add_entity(op.entity_id)),
        WorkerOp::RemoveEntity(op) => Ok(state.remove_entity(op.entity_id)),
        WorkerOp::AddComponent(op) => state.add_component(database, op),
        WorkerOp::RemoveComponent(op) => state.remove_component(database, op),
        WorkerOp::ComponentUpdate(op) => state.handle_component_update(database, op),
        WorkerOp::AuthorityChange(op) => state.set_authority(database, op),
        WorkerOp::CommandRequest(op) => state.handle_command_request(database, op),
        WorkerOp::CommandResponse(op) => state.handle_command_response(database, op),
    }
}

/// The state after `ops` were applied to `state` in order, up to the first
/// that cannot be applied, and why that one cannot.
pub open spec fn run(database: Seq<ComponentDefinition>, state: ViewState, ops: Seq<WorkerOp>) -> (
    ViewState,
    Option<ViewError>,
)
    decreases ops.len(),
{
    if ops.len() == 0 {
        (state, None)
    } else {
        match step(database, state, &ops[0]) {
            Ok(next) => run(database, next, ops.drop_first()),
            Err(e) => (state, Some(e)),
        }
    }
}

/// Whether an op went as `expected`: applied, with `after` the state that
/// was expected, or refused with the expected error and `after` the state
/// `before`.
pub open spec fn applied(
    before: ViewState,
    expected: Result<ViewState, ViewError>,
    after: ViewState,
    result: Result<(), ViewError>,
) -> bool {
    match expected {
        Ok(state) => result is Ok && after == state,
        Err(e) => result == Err::<(), ViewError>(e) && after == before,
    }
}

/// The requests of `list` with the views of their payloads, in order.
pub open spec fn request_views(list: Seq<(RequestId<IncomingCommandRequest>, Value)>) -> Seq<PendingRequest> {
    Seq::new(list.len(), |i: int| (list[i].0, list[i].1@))
}

/// The outcome `outcome` with the view of what it holds.
pub open spec fn outcome_view(outcome: Result<Value, String>) -> Result<ValueView, Seq<char>> {
    match outcome {
        Ok(value) => Ok(value@),
        Err(message) => Err(message@),
    }
}

/// The responses of `list` with the views of their outcomes, in order.
pub open spec fn response_views(list: Seq<(RequestId<OutgoingCommandRequest>, Result<Value, String>)>) -> Seq<
    PendingResponse,
> {
    Seq::new(list.len(), |i: int| (list[i].0, outcome_view(list[i].1)))
}

/// What the view stores for one component.
struct ComponentStorage {
    data: HashMap<EntityId, Value>,
    authority: HashMap<EntityId, Authority>,
    updated: Vec<EntityId>,
    command_requests: HashMap<EntityId, Vec<(RequestId<IncomingCommandRequest>, Value)>>,
    command_responses: HashMap<EntityId, Vec<(RequestId<OutgoingCommandRequest>, Result<Value, String>)>>,
}

impl ComponentStorage {
    /// What is stored, as a mathematical value.
    spec fn view(&self) -> ComponentView {
        ComponentView {
            data: self.data@.map_values(|value: Value| value@),
            authority: self.authority@,
            updated: self.updated@,
            command_requests: self.command_requests@.map_values(
                |list: Vec<(RequestId<IncomingCommandRequest>, Value)>| request_views(list@),
            ),
            command_responses: self.command_responses@.map_values(
                |list: Vec<(RequestId<OutgoingCommandRequest>, Result<Value, String>)>| response_views(list@),
            ),
        }
    }

    /// A store that holds nothing.
    fn new() -> (storage: ComponentStorage)
        ensures
            storage@ == ComponentView::empty(),
    {
        let storage = ComponentStorage {
            data: HashMap::new(),
            authority: HashMap::new(),
            updated: Vec::new(),
            command_requests: HashMap::new(),
            command_responses: HashMap::new(),
        };
        assert(storage@.data =~= Map::empty());
        assert(storage@.command_requests =~= Map::empty());
        assert(storage@.command_responses =~= Map::empty());
        storage
    }
}

/// The local mirror of the simulation.
pub struct View<'a> {
    database: &'a ComponentDatabase,
    components: Vec<ComponentStorage>,
    entities: HashSet<EntityId>,
    entities_added: HashSet<EntityId>,
    entities_removed: HashSet<EntityId>,
}

impl<'a> View<'a> {
    /// What the view holds.
    pub closed spec fn view(&self) -> ViewState {
        ViewState {
            entities: self.entities@,
            entities_added: self.entities_added@,
            entities_removed: self.entities_removed@,
            components: Seq::new(self.components.len() as nat, |i: int| self.components[i]@),
        }
    }

    /// The database that the view was made with.
    pub closed spec fn database(&self) -> ComponentDatabase {
        *self.database
    }

    /// The definitions of the database that the view was made with.
    pub open spec fn definitions(&self) -> Seq<ComponentDefinition> {
        self.database().definitions()
    }

    /// Whether what the view holds fits its database. Every operation keeps
    /// this.
    pub open spec fn wf(&self) -> bool {
        self@.wf(self.definitions())
    }

    /// What the view holds of the component `component_id`.
    pub open spec fn component(&self, component_id: ComponentId) -> ComponentView
        recommends
            self.database().is_registered(component_id),
    {
        self@.components[position(self.definitions(), component_id)]
    }

    /// A view that holds nothing, for the components of `database`.
    pub fn new(database: &'a ComponentDatabase) -> (view: View<'a>)
        ensures
            view.wf(),
            view.database() == *database,
            view@ == ViewState::empty(database.definitions().len()),
    {
        let count = database.len();
        let mut components: Vec<ComponentStorage> = Vec::new();
        let mut i: usize = 0;
        while i < count
            invariant
                i <= count,
                components.len() == i,
                forall|j: int| 0 <= j < i ==> (#[trigger] components@[j])@ == ComponentView::empty(),
            decreases count - i,
        {
            components.push(ComponentStorage::new());
            i += 1;
        }
        let view = View {
            database,
            components,
            entities: HashSet::new(),
            entities_added: HashSet::new(),
            entities_removed: HashSet::new(),
        };
        assert(view@.entities =~= Set::empty());
        assert(view@.entities_added =~= Set::empty());
        assert(view@.entities_removed =~= Set::empty());
        assert(view@.components.len() == database.definitions().len());
        assert(view@.components =~= ViewState::empty(database.definitions().len()).components);
        view
    }
}

/// Two component views that hold the same are the same.
proof fn lemma_component_ext(a: ComponentView, b: ComponentView)
    requires
        a.data =~= b.data,
        a.authority =~= b.authority,
        a.updated =~= b.updated,
        a.command_requests =~= b.command_requests,
        a.command_responses =~= b.command_responses,
    ensures
        a == b,
{
}

/// Two states that hold the same are the same.
proof fn lemma_state_ext(a: ViewState, b: ViewState)
    requires
        a.entities =~= b.entities,
        a.entities_added =~= b.entities_added,
        a.entities_removed =~= b.entities_removed,
        a.components.len() == b.components.len(),
        forall|i: int| 0 <= i < a.components.len() ==> a.components[i] == b.components[i],
    ensures
        a == b,
{
    assert(a.components =~= b.components);
}

/// An op that applies to a state that fits the database leaves a state that
/// fits it: data stay with entities that are in the view, and the data of a
/// component stay values of the component's type.
pub proof fn lemma_step_wf(database: Seq<ComponentDefinition>, state: ViewState, op: &WorkerOp)
    requires
        definitions_wf(database),
        state.wf(database),
        step(database, state, op) is Ok,
    ensures
        step(database, state, op)->Ok_0.wf(database),
{
    match op {
        WorkerOp::AddEntity(op) => {},
        WorkerOp::RemoveEntity(op) => {},
        WorkerOp::AddComponent(op) => {
            lemma_position(database, op.data.component_id);
            let index = position(database, op.data.component_id);
            database[index].data.lemma_decoded_admits(op.data.fields@);
        },
        WorkerOp::RemoveComponent(op) => {
            lemma_position(database, op.component_id);
        },
        WorkerOp::ComponentUpdate(op) => {
            lemma_position(database, op.component_id);
            let index = position(database, op.component_id);
            database[index].data.lemma_merged_admits(state.components[index].data[op.entity_id], op.update@);
        },
        WorkerOp::AuthorityChange(op) => {
            lemma_position(database, op.component_id);
        },
        WorkerOp::CommandRequest(op) => {
            lemma_position(database, op.component_id);
        },
        WorkerOp::CommandResponse(op) => {
            lemma_position(database, op.component_id);
        },
    }
}

/// A batch applied to a state that fits the database leaves a state that
/// fits it, whether or not an op was refused.
pub proof fn lemma_run_wf(database: Seq<ComponentDefinition>, state: ViewState, ops: Seq<WorkerOp>)
    requires
        definitions_wf(database),
        state.wf(database),
    ensures
        run(database, state, ops).0.wf(database),
    decreases ops.len(),
{
    if ops.len() > 0 {
        if step(database, state, &ops[0]) is Ok {
            lemma_step_wf(database, state, &ops[0]);
            lemma_run_wf(database, step(database, state, &ops[0])->Ok_0, ops.drop_first());
        }
    }
}

/// Whether `op`, where it changes authority, names an entity that is in
/// `state`.
pub open spec fn authority_change_known(state: ViewState, op: &WorkerOp) -> bool {
    op is AuthorityChange ==> state.entities.contains(op->AuthorityChange_0.entity_id)
}

/// Whether every authority change among `ops`, up to the first op that is
/// refused, names an entity that is in the view when its turn comes.
pub open spec fn authority_changes_known(database: Seq<ComponentDefinition>, state: ViewState, ops: Seq<WorkerOp>) -> bool
    decreases ops.len(),
{
    ops.len() == 0 || (authority_change_known(state, &ops[0]) && match step(database, state, &ops[0]) {
        Ok(next) => authority_changes_known(database, next, ops.drop_first()),
        Err(_) => true,
    })
}

/// Authority stays with entities that are in the view under every op that
/// applies, where an op that changes authority names such an entity.
pub proof fn lemma_step_authority_within(database: Seq<ComponentDefinition>, state: ViewState, op: &WorkerOp)
    requires
        state.wf(database),
        state.authority_within(),
        authority_change_known(state, op),
        step(database, state, op) is Ok,
    ensures
        step(database, state, op)->Ok_0.authority_within(),
{
    match op {
        WorkerOp::AddEntity(op) => {},
        WorkerOp::RemoveEntity(op) => {},
        WorkerOp::AddComponent(op) => {
            lemma_position(database, op.data.component_id);
        },
        WorkerOp::RemoveComponent(op) => {
            lemma_position(database, op.component_id);
        },
        WorkerOp::ComponentUpdate(op) => {
            lemma_position(database, op.component_id);
        },
        WorkerOp::AuthorityChange(op) => {
            lemma_position(database, op.component_id);
        },
        WorkerOp::CommandRequest(op) => {
            lemma_position(database, op.component_id);
        },
        WorkerOp::CommandResponse(op) => {
            lemma_position(database, op.component_id);
        },
    }
}

/// Authority stays with entities that are in the view under every batch
/// whose authority changes name entities that are in the view, whether or
/// not an op was refused.
pub proof fn lemma_run_authority_within(database: Seq<ComponentDefinition>, state: ViewState, ops: Seq<WorkerOp>)
    requires
        definitions_wf(database),
        state.wf(database),
        state.authority_within(),
        authority_changes_known(database, state, ops),
    ensures
        run(database, state, ops).0.authority_within(),
    decreases ops.len(),
{
    if ops.len() > 0 {
        if step(database, state, &ops[0]) is Ok {
            lemma_step_wf(database, state, &ops[0]);
            lemma_step_authority_within(database, state, &ops[0]);
            lemma_run_authority_within(database, step(database, state, &ops[0])->Ok_0, ops.drop_first());
        }
    }
}

impl<'a> View<'a> {
    /// Applies an add-entity op; see [`ViewState::add_entity`].
    fn add_entity(&mut self, entity_id: EntityId)
        ensures
            final(self)@ == old(self)@.add_entity(entity_id),
            final(self).database() == old(self).database(),
    {
        if !self.entities.contains(&entity_id) {
            self.entities.insert(entity_id);
            self.entities_added.insert(entity_id);
        }
        proof {
            lemma_state_ext(self@, old(self)@.add_entity(entity_id));
        }
    }

    /// Applies a remove-entity op; see [`ViewState::remove_entity`].
    fn remove_entity(&mut self, entity_id: EntityId)
        ensures
            final(self)@ == old(self)@.remove_entity(entity_id),
            final(self).database() == old(self).database(),
    {
        if self.entities.contains(&entity_id) {
            self.entities.remove(&entity_id);
            self.entities_removed.insert(entity_id);
            let mut i: usize = 0;
            while i < self.components.len()
                invariant
                    i <= self.components.len(),
                    self.components.len() == old(self).components.len(),
                    self.database == old(self).database,
                    self.entities@ == old(self).entities@.remove(entity_id),
                    self.entities_added@ == old(self).entities_added@,
                    self.entities_removed@ == old(self).entities_removed@.insert(entity_id),
                    forall|j: int|
                        0 <= j < i ==> (#[trigger] self.components@[j])@ == old(self).components@[j]@.without_entity(
                            entity_id,
                        ),
                    forall|j: int| i <= j < self.components.len() ==> self.components@[j] == old(self).components@[j],
                decreases self.components.len() - i,
            {
                self.components[i].data.remove(&entity_id);
                self.components[i].authority.remove(&entity_id);
                proof {
                    lemma_component_ext(
                        self.components@[i as int]@,
                        old(self).components@[i as int]@.without_entity(entity_id),
                    );
                }
                i += 1;
            }
        }
        proof {
            lemma_state_ext(self@, old(self)@.remove_entity(entity_id));
        }
    }
}

impl<'a> View<'a> {
    /// Applies an add-component op; see [`ViewState::add_component`].
    fn add_component(&mut self, op: &AddComponentOp) -> (result: Result<(), ViewError>)
        requires
            old(self).wf(),
        ensures
            applied(old(self)@, old(self)@.add_component(old(self).definitions(), op), final(self)@, result),
            final(self).database() == old(self).database(),
    {
        let index = match self.database.find(op.data.component_id) {
            Some(index) => index,
            None => {
                return Err(ViewError::UnregisteredComponent);
            },
        };
        if !self.entities.contains(&op.entity_id) {
            return Err(ViewError::UnknownEntity);
        }
        if self.components[index].data.contains_key(&op.entity_id) {
            return Err(ViewError::DuplicateComponent);
        }
        match self.database.from_data(&op.data) {
            Err(e) => Err(ViewError::Schema(e)),
            Ok(value) => {
                let ghost expected = old(self)@.add_component(old(self).definitions(), op)->Ok_0;
                self.components[index].data.insert(op.entity_id, value);
                proof {
                    lemma_component_ext(self.components@[index as int]@, expected.components[index as int]);
                    lemma_state_ext(self@, expected);
                }
                Ok(())
            },
        }
    }

    /// Applies a remove-component op; see [`ViewState::remove_component`].
    fn remove_component(&mut self, op: &RemoveComponentOp) -> (result: Result<(), ViewError>)
        requires
            old(self).wf(),
        ensures
            applied(old(self)@, old(self)@.remove_component(old(self).definitions(), op), final(self)@, result),
            final(self).database() == old(self).database(),
    {
        let index = match self.database.find(op.component_id) {
            Some(index) => index,
            None => {
                return Err(ViewError::UnregisteredComponent);
            },
        };
        if !self.components[index].data.contains_key(&op.entity_id) {
            return Err(ViewError::StaleUpdate);
        }
        let ghost expected = old(self)@.remove_component(old(self).definitions(), op)->Ok_0;
        self.components[index].data.remove(&op.entity_id);
        self.components[index].authority.remove(&op.entity_id);
        proof {
            lemma_component_ext(self.components@[index as int]@, expected.components[index as int]);
            lemma_state_ext(self@, expected);
        }
        Ok(())
    }

    /// Applies an authority-change op; see [`ViewState::set_authority`].
    fn set_authority(&mut self, op: &AuthorityChangeOp) -> (result: Result<(), ViewError>)
        requires
            old(self).wf(),
        ensures
            applied(old(self)@, old(self)@.set_authority(old(self).definitions(), op), final(self)@, result),
            final(self).database() == old(self).database(),
    {
        let index = match self.database.find(op.component_id) {
            Some(index) => index,
            None => {
                return Err(ViewError::UnregisteredComponent);
            },
        };
        let ghost expected = old(self)@.set_authority(old(self).definitions(), op)->Ok_0;
        self.components[index].authority.insert(op.entity_id, op.authority);
        proof {
            lemma_component_ext(self.components@[index as int]@, expected.components[index as int]);
            lemma_state_ext(self@, expected);
        }
        Ok(())
    }

    /// Applies a component-update op; see
    /// [`ViewState::handle_component_update`].
    fn handle_component_update(&mut self, op: &ComponentUpdateOp) -> (result: Result<(), ViewError>)
        requires
            old(self).wf(),
        ensures
            applied(
                old(self)@,
                old(self)@.handle_component_update(old(self).definitions(), op),
                final(self)@,
                result,
            ),
            final(self).database() == old(self).database(),
    {
        let index = match self.database.find(op.component_id) {
            Some(index) => index,
            None => {
                return Err(ViewError::UnregisteredComponent);
            },
        };
        let mut data = match self.components[index].data.remove(&op.entity_id) {
            Some(data) => data,
            None => {
                proof {
                    lemma_component_ext(self.components@[index as int]@, old(self).components@[index as int]@);
                    lemma_state_ext(self@, old(self)@);
                }
                return Err(ViewError::StaleUpdate);
            },
        };
        let merged = self.database.merge(op.component_id, &mut data, &op.update);
        self.components[index].data.insert(op.entity_id, data);
        match merged {
            Err(_) => {
                proof {
                    lemma_component_ext(self.components@[index as int]@, old(self).components@[index as int]@);
                    lemma_state_ext(self@, old(self)@);
                }
                Err(ViewError::Schema(SchemaError::TypeMismatch))
            },
            Ok(()) => {
                self.components[index].updated.push(op.entity_id);
                proof {
                    let expected = old(self)@.handle_component_update(old(self).definitions(), op)->Ok_0;
                    lemma_component_ext(self.components@[index as int]@, expected.components[index as int]);
                    lemma_state_ext(self@, expected);
                }
                Ok(())
            },
        }
    }

    /// Applies a command-request op; see
    /// [`ViewState::handle_command_request`].
    fn handle_command_request(&mut self, op: &CommandRequestOp) -> (result: Result<(), ViewError>)
        requires
            old(self).wf(),
        ensures
            applied(
                old(self)@,
                old(self)@.handle_command_request(old(self).definitions(), op),
                final(self)@,
                result,
            ),
            final(self).database() == old(self).database(),
    {
        let index = match self.database.find(op.component_id) {
            Some(index) => index,
            None => {
                return Err(ViewError::UnregisteredComponent);
            },
        };
        let mut list = match self.components[index].command_requests.remove(&op.entity_id) {
            Some(list) => list,
            None => Vec::new(),
        };
        let ghost before = request_views(list@);
        assert(before =~= old(self)@.components[index as int].requests_of(op.entity_id));
        list.push((op.request_id, op.request.clone()));
        assert(request_views(list@) =~= before.push((op.request_id, op.request@)));
        self.components[index].command_requests.insert(op.entity_id, list);
        proof {
            let expected = old(self)@.handle_command_request(old(self).definitions(), op)->Ok_0;
            lemma_component_ext(self.components@[index as int]@, expected.components[index as int]);
            lemma_state_ext(self@, expected);
        }
        Ok(())
    }

    /// Applies a command-response op; see
    /// [`ViewState::handle_command_response`].
    fn handle_command_response(&mut self, op: &CommandResponseOp) -> (result: Result<(), ViewError>)
        requires
            old(self).wf(),
        ensures
            applied(
                old(self)@,
                old(self)@.handle_command_response(old(self).definitions(), op),
                final(self)@,
                result,
            ),
            final(self).database() == old(self).database(),
    {
        let index = match self.database.find(op.component_id) {
            Some(index) => index,
            None => {
                return Err(ViewError::UnregisteredComponent);
            },
        };
        let outcome: Result<Value, String> = match &op.response {
            StatusCode::Success(response) => Ok(response.clone()),
            StatusCode::Timeout(message) => Err(message.clone()),
            StatusCode::NotFound(message) => Err(message.clone()),
            StatusCode::AuthorityLost(message) => Err(message.clone()),
            StatusCode::PermissionDenied(message) => Err(message.clone()),
            StatusCode::ApplicationError(message) => Err(message.clone()),
            StatusCode::InternalError(message) => Err(message.clone()),
        };
        assert(outcome_view(outcome) == op.response.outcome());
        let mut list = match self.components[index].command_responses.remove(&op.entity_id) {
            Some(list) => list,
            None => Vec::new(),
        };
        let ghost before = response_views(list@);
        assert(before =~= old(self)@.components[index as int].responses_of(op.entity_id));
        list.push((op.request_id, outcome));
        assert(response_views(list@) =~= before.push((op.request_id, op.response.outcome())));
        self.components[index].command_responses.insert(op.entity_id, list);
        proof {
            let expected = old(self)@.handle_command_response(old(self).definitions(), op)->Ok_0;
            lemma_component_ext(self.components@[index as int]@, expected.components[index as int]);
            lemma_state_ext(self@, expected);
        }
        Ok(())
    }

    /// Applies one op; see [`step`].
    fn process_op(&mut self, op: &WorkerOp) -> (result: Result<(), ViewError>)
        requires
            old(self).wf(),
        ensures
            applied(old(self)@, step(old(self).definitions(), old(self)@, op), final(self)@, result),
            final(self).database() == old(self).database(),
            final(self).wf(),
    {
        proof {
            use_type_invariant(self.database);
            if step(self.definitions(), self@, op) is Ok {
                lemma_step_wf(self.definitions(), self@, op);
            }
        }
        match op {
            WorkerOp::AddEntity(op) => {
                self.add_entity(op.entity_id);
                Ok(())
            },
            WorkerOp::RemoveEntity(op) => {
                self.remove_entity(op.entity_id);
                Ok(())
            },
            WorkerOp::AddComponent(op) => self.add_component(op),
            WorkerOp::RemoveComponent(op) => self.remove_component(op),
            WorkerOp::ComponentUpdate(op) => self.handle_component_update(op),
            WorkerOp::AuthorityChange(op) => self.set_authority(op),
            WorkerOp::CommandRequest(op) => self.handle_command_request(op),
            WorkerOp::CommandResponse(op) => self.handle_command_response(op),
        }
    }

    /// Applies the ops of a batch in the order given, and stops at the first
    /// that cannot be applied. The view then holds what the ops before that
    /// one made of it, and the error says why that one was refused.
    pub fn process_ops(&mut self, ops: &OpList) -> (result: Result<(), ViewError>)
        requires
            old(self).wf(),
        ensures
            final(self).wf(),
            final(self).database() == old(self).database(),
            final(self)@ == run(old(self).definitions(), old(self)@, ops@).0,
            match result {
                Ok(()) => run(old(self).definitions(), old(self)@, ops@).1 is None,
                Err(e) => run(old(self).definitions(), old(self)@, ops@).1 == Some(e),
            },
    {
        let mut i: usize = 0;
        assert(ops@.skip(0) =~= ops@);
        while i < ops.len()
            invariant
                i <= ops.len(),
                self.wf(),
                self.database() == old(self).database(),
                run(old(self).definitions(), old(self)@, ops@) == run(
                    old(self).definitions(),
                    self@,
                    ops@.skip(i as int),
                ),
            decreases ops.len() - i,
        {
            proof {
                assert(ops@.skip(i as int)[0] == ops@[i as int]);
                assert(ops@.skip(i as int).drop_first() =~= ops@.skip(i + 1));
            }
            match self.process_op(&ops[i]) {
                Ok(()) => {},
                Err(e) => {
                    return Err(e);
                },
            }
            i += 1;
        }
        Ok(())
    }

    /// Forgets what belongs to the current tick: the entities added and
    /// removed, the updated components, and the pending command requests and
    /// responses. Entities, data and authority stay.
    pub fn clear_transient_data(&mut self)
        requires
            old(self).wf(),
        ensures
            final(self).wf(),
            final(self).database() == old(self).database(),
            final(self)@ == old(self)@.clear_transient_data(),
    {
        self.entities_added.clear();
        self.entities_removed.clear();
        let mut i: usize = 0;
        while i < self.components.len()
            invariant
                i <= self.components.len(),
                self.components.len() == old(self).components.len(),
                self.database == old(self).database,
                self.entities@ == old(self).entities@,
                self.entities_added@ == Set::<EntityId>::empty(),
                self.entities_removed@ == Set::<EntityId>::empty(),
                forall|j: int|
                    0 <= j < i ==> (#[trigger] self.components@[j])@ == old(self).components@[j]@.without_transient(),
                forall|j: int| i <= j < self.components.len() ==> self.components@[j] == old(self).components@[j],
            decreases self.components.len() - i,
        {
            self.components[i].updated.clear();
            self.components[i].command_requests.clear();
            self.components[i].command_responses.clear();
            proof {
                lemma_component_ext(
                    self.components@[i as int]@,
                    old(self).components@[i as int]@.without_transient(),
                );
            }
            i += 1;
        }
        proof {
            lemma_state_ext(self@, old(self)@.clear_transient_data());
        }
    }
}

impl<'a> View<'a> {
    /// The entities of `set`, each once, in the order in which the set hands
    /// them out.
    fn list_of(set: &HashSet<EntityId>) -> (list: Vec<EntityId>)
        ensures
            list@.no_duplicates(),
            list@.to_set() == set@,
    {
        let mut list: Vec<EntityId> = Vec::new();
        for entity_id in iter: set.iter()
            invariant
                list@ == iter.seq().unref().take(iter.index()),
                iter.seq().unref().to_set() == set@,
                iter.seq().unref().no_duplicates(),
                iter.index() == iter.seq().len() ==> list@ == iter.seq().unref(),
        {
            list.push(*entity_id);
            assert(iter.seq().unref().take(iter.seq().len() as int) =~= iter.seq().unref());
        }
        list
    }
}

/// Hands out entities one by one.
pub struct ViewEntityIterator {
    entities: Vec<EntityId>,
    position: usize,
}

impl ViewEntityIterator {
    /// What holds of every iterator: the position is inside the list.
    #[verifier::type_invariant]
    spec fn inv(&self) -> bool {
        self.position <= self.entities.len()
    }

    /// The entities that are still to come, in the order in which they come.
    pub closed spec fn remaining(&self) -> Seq<EntityId> {
        self.entities@.skip(self.position as int)
    }

    /// The next entity, or `None` when all were handed out.
    pub fn next(&mut self) -> (entity: Option<EntityId>)
        ensures
            match entity {
                Some(entity_id) => old(self).remaining().len() > 0 && entity_id == old(self).remaining()[0]
                    && final(self).remaining() == old(self).remaining().drop_first(),
                None => old(self).remaining().len() == 0 && final(self).remaining() == old(self).remaining(),
            },
    {
        proof {
            use_type_invariant(&*self);
        }
        if self.position < self.entities.len() {
            let entity_id = self.entities[self.position];
            self.position = self.position + 1;
            assert(self.remaining() =~= old(self).remaining().drop_first());
            Some(entity_id)
        } else {
            None
        }
    }
}

/// A question put to every entity of a view: which entities count, and what
/// is taken from each that counts.
pub trait ViewQuery<'a>: Sized {
    /// Whether the entity counts.
    fn filter(view: &View<'a>, entity_id: EntityId) -> bool;

    /// What is taken from the entity.
    fn select(view: &'a View<'a>, entity_id: EntityId) -> Self;
}

impl<'a> View<'a> {
    /// Whether the component `component_id` is registered in the database
    /// that the view was made with.
    pub fn is_registered(&self, component_id: ComponentId) -> (r: bool)
        ensures
            r == self.database().is_registered(component_id),
    {
        self.database.is_registered(component_id)
    }

    /// The data that the entity has of the component, if it has the
    /// component.
    pub fn get_component(&self, component_id: ComponentId, entity_id: EntityId) -> (data: Option<&Value>)
        requires
            self.wf(),
            self.database().is_registered(component_id),
        ensures
            match data {
                Some(value) => {
                    &&& self.component(component_id).data.contains_key(entity_id)
                    &&& self.component(component_id).data[entity_id] == value@
                    &&& self.database().definition(component_id).data.admits(value@)
                },
                None => !self.component(component_id).data.contains_key(entity_id),
            },
    {
        match self.database.find(component_id) {
            Some(index) => {
                let data = self.components[index].data.get(&entity_id);
                assert(data is Some ==> self@.components[index as int].data.contains_key(entity_id));
                data
            },
            None => unreached(),
        }
    }

    /// The command requests that came in this tick for the entity's
    /// component, in order, if any came.
    pub fn get_command_requests(&self, component_id: ComponentId, entity_id: EntityId) -> (requests: Option<
        &Vec<(RequestId<IncomingCommandRequest>, Value)>,
    >)
        requires
            self.wf(),
            self.database().is_registered(component_id),
        ensures
            match requests {
                Some(list) => self.component(component_id).command_requests.contains_key(entity_id)
                    && self.component(component_id).command_requests[entity_id] == request_views(list@),
                None => !self.component(component_id).command_requests.contains_key(entity_id),
            },
    {
        match self.database.find(component_id) {
            Some(index) => self.components[index].command_requests.get(&entity_id),
            None => unreached(),
        }
    }

    /// The command responses that came in this tick for the entity's
    /// component, in order, if any came.
    pub fn get_command_responses(&self, component_id: ComponentId, entity_id: EntityId) -> (responses: Option<
        &Vec<(RequestId<OutgoingCommandRequest>, Result<Value, String>)>,
    >)
        requires
            self.wf(),
            self.database().is_registered(component_id),
        ensures
            match responses {
                Some(list) => self.component(component_id).command_responses.contains_key(entity_id)
                    && self.component(component_id).command_responses[entity_id] == response_views(list@),
                None => !self.component(component_id).command_responses.contains_key(entity_id),
            },
    {
        match self.database.find(component_id) {
            Some(index) => self.components[index].command_responses.get(&entity_id),
            None => unreached(),
        }
    }

    /// The worker's authority over the entity's component, if one was set.
    pub fn get_authority(&self, component_id: ComponentId, entity_id: EntityId) -> (authority: Option<Authority>)
        requires
            self.wf(),
            self.database().is_registered(component_id),
        ensures
            match authority {
                Some(a) => self.component(component_id).authority.contains_key(entity_id) && self.component(
                    component_id,
                ).authority[entity_id] == a,
                None => !self.component(component_id).authority.contains_key(entity_id),
            },
    {
        match self.database.find(component_id) {
            Some(index) => match self.components[index].authority.get(&entity_id) {
                Some(authority) => Some(*authority),
                None => None,
            },
            None => unreached(),
        }
    }

    /// Whether the worker is authoritative over the entity's component.
    pub fn is_authoritative(&self, component_id: ComponentId, entity_id: EntityId) -> (r: bool)
        requires
            self.wf(),
            self.database().is_registered(component_id),
        ensures
            r == (self.component(component_id).authority.contains_key(entity_id) && self.component(
                component_id,
            ).authority[entity_id] == Authority::Authoritative),
    {
        match self.get_authority(component_id, entity_id) {
            Some(authority) => authority == Authority::Authoritative,
            None => false,
        }
    }

    /// The entities in the view, each once, in no particular order.
    pub fn iter_entities(&self) -> (iter: ViewEntityIterator)
        ensures
            iter.remaining().no_duplicates(),
            iter.remaining().to_set() == self@.entities,
    {
        let entities = Self::list_of(&self.entities);
        let iter = ViewEntityIterator { entities, position: 0 };
        assert(iter.remaining() =~= entities@);
        iter
    }

    /// Whether the entity is in the view.
    pub fn has_entity(&self, entity_id: EntityId) -> (r: bool)
        ensures
            r == self@.entities.contains(entity_id),
    {
        self.entities.contains(&entity_id)
    }

    /// Whether the entity entered the view this tick.
    pub fn was_entity_added(&self, entity_id: EntityId) -> (r: bool)
        ensures
            r == self@.entities_added.contains(entity_id),
    {
        self.entities_added.contains(&entity_id)
    }

    /// Whether the entity left the view this tick.
    pub fn was_entity_removed(&self, entity_id: EntityId) -> (r: bool)
        ensures
            r == self@.entities_removed.contains(entity_id),
    {
        self.entities_removed.contains(&entity_id)
    }

    /// Whether a command request came in this tick for the entity's
    /// component.
    pub fn has_command_requests(&self, component_id: ComponentId, entity_id: EntityId) -> (r: bool)
        requires
            self.wf(),
            self.database().is_registered(component_id),
        ensures
            r == self.component(component_id).command_requests.contains_key(entity_id),
    {
        match self.database.find(component_id) {
            Some(index) => self.components[index].command_requests.contains_key(&entity_id),
            None => unreached(),
        }
    }

    /// Whether a command response came in this tick for the entity's
    /// component.
    pub fn has_command_responses(&self, component_id: ComponentId, entity_id: EntityId) -> (r: bool)
        requires
            self.wf(),
            self.database().is_registered(component_id),
        ensures
            r == self.component(component_id).command_responses.contains_key(entity_id),
    {
        match self.database.find(component_id) {
            Some(index) => self.components[index].command_responses.contains_key(&entity_id),
            None => unreached(),
        }
    }

    /// The entities whose component `component_id` was updated this tick,
    /// once for each update, in the order of the updates.
    pub fn updated_entities(&self, component_id: ComponentId) -> (entities: &Vec<EntityId>)
        requires
            self.wf(),
            self.database().is_registered(component_id),
        ensures
            entities@ == self.component(component_id).updated,
    {
        match self.database.find(component_id) {
            Some(index) => &self.components[index].updated,
            None => unreached(),
        }
    }

    /// Whether the entity's component was updated this tick.
    #[verifier::loop_isolation(false)]
    pub fn was_component_updated(&self, component_id: ComponentId, entity_id: EntityId) -> (r: bool)
        requires
            self.wf(),
            self.database().is_registered(component_id),
        ensures
            r == self.component(component_id).updated.contains(entity_id),
    {
        let updated = self.updated_entities(component_id);
        let mut i: usize = 0;
        while i < updated.len()
            invariant
                i <= updated.len(),
                forall|j: int| 0 <= j < i ==> updated@[j] != entity_id,
            decreases updated.len() - i,
        {
            if updated[i] == entity_id {
                assert(updated@[i as int] == entity_id);
                return true;
            }
            i += 1;
        }
        false
    }

    /// The entities that left the view this tick, each once, in no
    /// particular order.
    pub fn iter_entities_removed(&self) -> (iter: ViewEntityIterator)
        ensures
            iter.remaining().no_duplicates(),
            iter.remaining().to_set() == self@.entities_removed,
    {
        let entities = Self::list_of(&self.entities_removed);
        let iter = ViewEntityIterator { entities, position: 0 };
        assert(iter.remaining() =~= entities@);
        iter
    }

    /// Puts the question `T` to every entity of the view, each entity
    /// asked once, in no particular order: the result holds what
    /// [`ViewQuery::select`] gave for each entity of which
    /// [`ViewQuery::filter`] said that it counts.
    pub fn query<T: ViewQuery<'a>>(&'a self) -> (items: Vec<T>)
        ensures
            exists|picked: Seq<EntityId>|
                {
                    &&& picked.no_duplicates()
                    &&& forall|e: EntityId| picked.contains(e) ==> self@.entities.contains(e)
                    &&& forall|e: EntityId|
                        self@.entities.contains(e) ==> call_ensures(T::filter, (self, e), picked.contains(e))
                    &&& #[trigger] picked.len() == items@.len()
                    &&& forall|i: int|
                        0 <= i < picked.len() ==> call_ensures(T::select, (self, picked[i]), items@[i])
                },
    {
        let entities = Self::list_of(&self.entities);
        let mut items: Vec<T> = Vec::new();
        let ghost mut picked: Seq<EntityId> = Seq::empty();
        let mut i: usize = 0;
        while i < entities.len()
            invariant
                i <= entities.len(),
                entities@.no_duplicates(),
                entities@.to_set() == self@.entities,
                picked.no_duplicates(),
                forall|e: EntityId| picked.contains(e) ==> entities@.take(i as int).contains(e),
                forall|e: EntityId|
                    entities@.take(i as int).contains(e) ==> call_ensures(T::filter, (self, e), picked.contains(e)),
                picked.len() == items@.len(),
                forall|j: int| 0 <= j < picked.len() ==> call_ensures(T::select, (self, picked[j]), items@[j]),
            decreases entities.len() - i,
        {
            let entity_id = entities[i];
            assert(entities@.to_set().contains(entity_id));
            let ghost before = picked;
            let ghost seen = entities@.take(i as int);
            let ghost extended = entities@.take(i + 1);
            assert(extended =~= seen.push(entity_id));
            assert(!seen.contains(entity_id)) by {
                if seen.contains(entity_id) {
                    let j = choose|j: int| 0 <= j < seen.len() && seen[j] == entity_id;
                    assert(entities@[j] == entities@[i as int]);
                }
            }
            assert forall|e: EntityId| extended.contains(e) <==> seen.contains(e) || e == entity_id by {
                if seen.contains(e) {
                    let k = choose|k: int| 0 <= k < seen.len() && seen[k] == e;
                    assert(extended[k] == e);
                }
                if e == entity_id {
                    assert(extended[i as int] == e);
                }
            }
            if T::filter(self, entity_id) {
                items.push(T::select(self, entity_id));
                proof {
                    picked = picked.push(entity_id);
                    assert(!before.contains(entity_id));
                    assert forall|e: EntityId| picked.contains(e) <==> before.contains(e) || e == entity_id by {
                        if before.contains(e) {
                            let j = choose|j: int| 0 <= j < before.len() && before[j] == e;
                            assert(picked[j] == e);
                        }
                        if e == entity_id {
                            assert(picked[before.len() as int] == e);
                        }
                    }
                }
            }
            i += 1;
        }
        proof {
            assert(entities@.take(i as int) =~= entities@);
            assert forall|e: EntityId| entities@.to_set().contains(e) <==> entities@.contains(e) by {}
        }
        items
    }
}

/// Op ordering: when an entity that is not in the view is added, then
/// given a component, then sent an update of the component's type, all three
/// ops apply, and the entity's data are the data it was given with the
/// update merged into them.
pub proof fn lemma_add_then_update(
    database: Seq<ComponentDefinition>,
    state: ViewState,
    add: AddComponentOp,
    update: ComponentUpdateOp,
)
    requires
        definitions_wf(database),
        state.wf(database),
        !state.entities.contains(add.entity_id),
        update.entity_id == add.entity_id,
        update.component_id == add.data.component_id,
        position(database, add.data.component_id) < database.len(),
        database[position(database, add.data.component_id)].data.decoded(add.data.fields@) is Ok,
        database[position(database, add.data.component_id)].data.admits_update(update.update@),
    ensures
        ({
            let index = position(database, add.data.component_id);
            let given = database[index].data.decoded(add.data.fields@)->Ok_0;
            let ops = seq![
                WorkerOp::AddEntity(AddEntityOp { entity_id: add.entity_id }),
                WorkerOp::AddComponent(add),
                WorkerOp::ComponentUpdate(update),
            ];
            let end = run(database, state, ops);
            &&& end.1 is None
            &&& end.0.components[index].data.contains_key(add.entity_id)
            &&& end.0.components[index].data[add.entity_id] == merged(given, update.update@)
        }),
{
    let index = position(database, add.data.component_id);
    let given = database[index].data.decoded(add.data.fields@)->Ok_0;
    let first = WorkerOp::AddEntity(AddEntityOp { entity_id: add.entity_id });
    let second = WorkerOp::AddComponent(add);
    let third = WorkerOp::ComponentUpdate(update);
    let ops = seq![first, second, third];
    lemma_position(database, add.data.component_id);
    database[index].data.lemma_decoded_admits(add.data.fields@);
    let s1 = state.add_entity(add.entity_id);
    assert(step(database, state, &ops[0]) == Ok::<ViewState, ViewError>(s1));
    let s2 = s1.add_component(database, &add)->Ok_0;
    assert(step(database, s1, &second) == Ok::<ViewState, ViewError>(s2));
    let s3 = s2.handle_component_update(database, &update)->Ok_0;
    assert(s2.components[index].data[add.entity_id] == given);
    assert(step(database, s2, &third) == Ok::<ViewState, ViewError>(s3));
    assert(ops.drop_first() =~= seq![second, third]);
    assert(ops.drop_first().drop_first() =~= seq![third]);
    assert(ops.drop_first().drop_first().drop_first() =~= Seq::<WorkerOp>::empty());
    assert(run(database, s3, Seq::<WorkerOp>::empty()) == (s3, None::<ViewError>));
    assert(run(database, s2, seq![third]) == (s3, None::<ViewError>));
    assert(run(database, s1, seq![second, third]) == (s3, None::<ViewError>));
}

/// Op ordering: an update for a component that the entity does not have, as
/// for an entity that is not in the view, is refused as stale.
pub proof fn lemma_update_without_component(
    database: Seq<ComponentDefinition>,
    state: ViewState,
    update: ComponentUpdateOp,
)
    requires
        state.wf(database),
        position(database, update.component_id) < database.len(),
        !state.entities.contains(update.entity_id) || !state.components[position(
            database,
            update.component_id,
        )].data.contains_key(update.entity_id),
    ensures
        step(database, state, &WorkerOp::ComponentUpdate(update)) == Err::<ViewState, ViewError>(
            ViewError::StaleUpdate,
        ),
        run(database, state, seq![WorkerOp::ComponentUpdate(update)]) == (state, Some(ViewError::StaleUpdate)),
{
    lemma_position(database, update.component_id);
}

/// Authority: a change of authority over a registered component applies,
/// for every entity, and the authority is then the one that the op gives.
pub proof fn lemma_authority_change(database: Seq<ComponentDefinition>, state: ViewState, op: AuthorityChangeOp)
    requires
        state.wf(database),
        position(database, op.component_id) < database.len(),
    ensures
        ({
            let index = position(database, op.component_id);
            let next = step(database, state, &WorkerOp::AuthorityChange(op));
            &&& next is Ok
            &&& next->Ok_0.components[index].authority.contains_key(op.entity_id)
            &&& next->Ok_0.components[index].authority[op.entity_id] == op.authority
        }),
{
    lemma_position(database, op.component_id);
}

/// Authority: when a component that the entity has is removed, the op
/// applies, and afterwards neither data nor authority are held for it.
pub proof fn lemma_remove_component(database: Seq<ComponentDefinition>, state: ViewState, op: RemoveComponentOp)
    requires
        state.wf(database),
        position(database, op.component_id) < database.len(),
        state.components[position(database, op.component_id)].data.contains_key(op.entity_id),
    ensures
        ({
            let index = position(database, op.component_id);
            let next = step(database, state, &WorkerOp::RemoveComponent(op));
            &&& next is Ok
            &&& !next->Ok_0.components[index].data.contains_key(op.entity_id)
            &&& !next->Ok_0.components[index].authority.contains_key(op.entity_id)
        }),
{
    lemma_position(database, op.component_id);
}

/// Transient diffs: an entity that enters the view counts as added and is
/// in the view; once the transient data are cleared nothing counts as added
/// or removed, and the entity is still in the view.
pub proof fn lemma_added_entity(database: Seq<ComponentDefinition>, state: ViewState, entity_id: EntityId)
    requires
        !state.entities.contains(entity_id),
    ensures
        ({
            let next = step(database, state, &WorkerOp::AddEntity(AddEntityOp { entity_id }));
            &&& next is Ok
            &&& next->Ok_0.entities == state.entities.insert(entity_id)
            &&& next->Ok_0.entities_added == state.entities_added.insert(entity_id)
            &&& next->Ok_0.clear_transient_data().entities_added == Set::<EntityId>::empty()
            &&& next->Ok_0.clear_transient_data().entities_removed == Set::<EntityId>::empty()
            &&& next->Ok_0.clear_transient_data().entities.contains(entity_id)
        }),
{
}

/// Transient diffs: clearing the transient data leaves the entities, the
/// data and the authority as they are, and nothing of what belongs to a
/// tick.
pub proof fn lemma_clear_transient_data(state: ViewState, index: int)
    requires
        0 <= index < state.components.len(),
    ensures
        ({
            let cleared = state.clear_transient_data();
            &&& cleared.entities == state.entities
            &&& cleared.entities_added == Set::<EntityId>::empty()
            &&& cleared.entities_removed == Set::<EntityId>::empty()
            &&& cleared.components.len() == state.components.len()
            &&& cleared.components[index].data == state.components[index].data
            &&& cleared.components[index].authority == state.components[index].authority
            &&& cleared.components[index].updated == Seq::<EntityId>::empty()
            &&& cleared.components[index].command_requests == Map::<EntityId, Seq<PendingRequest>>::empty()
            &&& cleared.components[index].command_responses == Map::<EntityId, Seq<PendingResponse>>::empty()
        }),
{
}

/// Command correlation: a command response for a registered component
/// applies, and its outcome is then the last of the responses held for the
/// entity's component, under the id of the request: the response where the
/// command succeeded, and else the message of the failure.
pub proof fn lemma_command_response(database: Seq<ComponentDefinition>, state: ViewState, op: CommandResponseOp)
    requires
        state.wf(database),
        position(database, op.component_id) < database.len(),
    ensures
        ({
            let index = position(database, op.component_id);
            let next = step(database, state, &WorkerOp::CommandResponse(op));
            &&& next is Ok
            &&& next->Ok_0.components[index].command_responses.contains_key(op.entity_id)
            &&& next->Ok_0.components[index].command_responses[op.entity_id] == state.components[index].responses_of(
                op.entity_id,
            ).push((op.request_id, op.response.outcome()))
            &&& op.response is Success ==> op.response.outcome() == Ok::<ValueView, Seq<char>>(
                op.response->Success_0@,
            )
            &&& op.response is Timeout ==> op.response.outcome() == Err::<ValueView, Seq<char>>(
                op.response->Timeout_0@,
            )
            &&& !(op.response is Success) ==> op.response.outcome() is Err
        }),
{
    lemma_position(database, op.component_id);
}

/// Command correlation: a command request for a registered component
/// applies, joins the requests held for the entity's component, and leaves
/// the responses as they are.
pub proof fn lemma_command_request(database: Seq<ComponentDefinition>, state: ViewState, op: CommandRequestOp)
    requires
        state.wf(database),
        position(database, op.component_id) < database.len(),
    ensures
        ({
            let index = position(database, op.component_id);
            let next = step(database, state, &WorkerOp::CommandRequest(op));
            &&& next is Ok
            &&& next->Ok_0.components[index].command_requests.contains_key(op.entity_id)
            &&& next->Ok_0.components[index].command_requests[op.entity_id] == state.components[index].requests_of(
                op.entity_id,
            ).push((op.request_id, op.request@))
            &&& next->Ok_0.components[index].command_responses == state.components[index].command_responses
        }),
{
    lemma_position(database, op.component_id);
}

} // verus!
