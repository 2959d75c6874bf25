//! Ops: the change notifications that the view applies, one batch a tick.

use vstd::prelude::*;
use core::marker::PhantomData;
use crate::component::ComponentUpdate;
use crate::schema::SchemaComponentData;
use crate::value::{Value, ValueView};
use crate::{ComponentId, EntityId};

verus! {

/// A worker's write permission over one component of one entity.
#[derive(Clone, Copy, Debug, PartialEq, Eq, Structural)]
pub enum Authority {
    NotAuthoritative,
    Authoritative,
    AuthorityLossImminent,
}

/// Marks the id of a request that this worker must answer.
#[derive(Clone, Copy, Debug, PartialEq, Eq)]
pub struct IncomingCommandRequest;

/// Marks the id of a request that this worker sent.
#[derive(Clone, Copy, Debug, PartialEq, Eq)]
pub struct OutgoingCommandRequest;

/// Identifies one command in flight. The marker `T` tells the requests that
/// came in from those that went out, so that the two are never confused.
#[derive(Debug, PartialEq, Eq)]
pub struct RequestId<T> {
    pub id: u32,
    pub marker: PhantomData<T>,
}

impl<T> Clone for RequestId<T> {
    /// The same id.
    fn clone(&self) -> (copy: Self)
        ensures
            copy == *self,
    {
        RequestId { id: self.id, marker: PhantomData }
    }
}

impl<T> Copy for RequestId<T> {

}

impl<T> RequestId<T> {
    /// The request id with the number `id`.
    pub fn new(id: u32) -> (request_id: RequestId<T>)
        ensures
            request_id.id == id,
    {
        RequestId { id, marker: PhantomData }
    }
}

/// How a command ended: with a response, or with the reason why there is
/// none.
#[derive(Debug, PartialEq, Eq)]
pub enum StatusCode {
    Success(Value),
    Timeout(String),
    NotFound(String),
    AuthorityLost(String),
    PermissionDenied(String),
    ApplicationError(String),
    InternalError(String),
}

impl StatusCode {
    /// What the status means to the sender of the command: the response, or
    /// the message of the failure.
    pub open spec fn outcome(&self) -> Result<ValueView, Seq<char>> {
        match self {
            StatusCode::Success(response) => Ok(response@),
            StatusCode::Timeout(message) => Err(message@),
            StatusCode::NotFound(message) => Err(message@),
            StatusCode::AuthorityLost(message) => Err(message@),
            StatusCode::PermissionDenied(message) => Err(message@),
            StatusCode::ApplicationError(message) => Err(message@),
            StatusCode::InternalError(message) => Err(message@),
        }
    }
}

/// An entity enters the view.
#[derive(Debug, PartialEq, Eq)]
pub struct AddEntityOp {
    pub entity_id: EntityId,
}

/// An entity leaves the view.
#[derive(Debug, PartialEq, Eq)]
pub struct RemoveEntityOp {
    pub entity_id: EntityId,
}

/// An entity gets a component.
#[derive(Debug, PartialEq, Eq)]
pub struct AddComponentOp {
    pub entity_id: EntityId,
    /// The component's data, in wire form. They name the component.
    pub data: SchemaComponentData,
}

impl AddComponentOp {
    /// The component that the entity gets.
    pub fn component_id(&self) -> (id: ComponentId)
        ensures
            id == self.data.component_id,
    {
        self.data.component_id
    }
}

/// An entity loses a component.
#[derive(Debug, PartialEq, Eq)]
pub struct RemoveComponentOp {
    pub entity_id: EntityId,
    pub component_id: ComponentId,
}

/// The data of an entity's component change.
#[derive(Debug, PartialEq, Eq)]
pub struct ComponentUpdateOp {
    pub entity_id: EntityId,
    pub component_id: ComponentId,
    pub update: ComponentUpdate,
}

/// The worker's authority over an entity's component changes.
#[derive(Debug, PartialEq, Eq)]
pub struct AuthorityChangeOp {
    pub entity_id: EntityId,
    pub component_id: ComponentId,
    pub authority: Authority,
}

/// A command is requested of the worker. The payload comes decoded.
#[derive(Debug, PartialEq, Eq)]
pub struct CommandRequestOp {
    pub entity_id: EntityId,
    pub component_id: ComponentId,
    pub request_id: RequestId<IncomingCommandRequest>,
    pub request: Value,
}

/// A command that the worker sent has ended.
#[derive(Debug, PartialEq, Eq)]
pub struct CommandResponseOp {
    pub entity_id: EntityId,
    pub component_id: ComponentId,
    pub request_id: RequestId<OutgoingCommandRequest>,
    pub response: StatusCode,
}

/// One change notification.
#[derive(Debug, PartialEq, Eq)]
pub enum WorkerOp {
    AddEntity(AddEntityOp),
    RemoveEntity(RemoveEntityOp),
    AddComponent(AddComponentOp),
    RemoveComponent(RemoveComponentOp),
    ComponentUpdate(ComponentUpdateOp),
    AuthorityChange(AuthorityChangeOp),
    CommandRequest(CommandRequestOp),
    CommandResponse(CommandResponseOp),
}

/// The ops of one tick, in the order in which they apply.
pub type OpList = Vec<WorkerOp>;

} // verus!
