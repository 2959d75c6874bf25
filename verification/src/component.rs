//! The component registry: what is known of each component kind.
//!
//! A database is built once, from all the component definitions at a time,
//! and only read afterwards. It gives, for a component id, the type of the
//! component's data, the conversions between data and schema objects, and
//! the way an update merges into data.

use vstd::prelude::*;
use vstd::pervasive::unreached;
use crate::codec::{decodes_to, SchemaError};
use crate::schema::{
    SchemaCommandRequest, SchemaCommandResponse, SchemaComponentData, SchemaComponentUpdate,
};
use crate::value::{lemma_value_view, views, SchemaObjectType, Value, ValueView};
use crate::ComponentId;

verus! {

/// What is known of one component kind: its id and the type of its data.
#[derive(Debug, PartialEq, Eq)]
pub struct ComponentDefinition {
    pub component_id: ComponentId,
    pub data: SchemaObjectType,
}

/// Why a set of definitions makes no database.
#[derive(Clone, Copy, Debug, PartialEq, Eq, Structural)]
pub enum DatabaseError {
    /// Two definitions have the same component id.
    DuplicateComponent,
    /// The data type of a definition is not well formed.
    MalformedType,
}

/// A change to the data of a component: for each declared field, in
/// declaration order, the field's new value or nothing.
#[derive(Debug, PartialEq, Eq)]
pub struct ComponentUpdate {
    pub fields: Vec<Option<Value>>,
}

impl ComponentUpdate {
    /// What the update holds: for each field, the view of its new value or
    /// nothing.
    pub open spec fn view(&self) -> Seq<Option<ValueView>> {
        Seq::new(
            self.fields.len() as nat,
            |i: int|
                match self.fields[i] {
                    Some(value) => Some(value@),
                    None => None,
                },
        )
    }
}

/// The data `data` after `update` was merged into them: each field for
/// which the update has a value holds that value, and every other field
/// holds what it held. Data that are no structure stay as they are.
pub open spec fn merged(data: ValueView, update: Seq<Option<ValueView>>) -> ValueView {
    match data {
        ValueView::Object(fields) => ValueView::Object(
            Seq::new(
                fields.len(),
                |i: int|
                    if i < update.len() && update[i] is Some {
                        update[i]->Some_0
                    } else {
                        fields[i]
                    },
            ),
        ),
        _ => data,
    }
}

impl SchemaObjectType {
    /// Whether `update` is an update of structures of this type: one place
    /// for each field, and each new value a value of its field's type.
    pub open spec fn admits_update(&self, update: Seq<Option<ValueView>>) -> bool {
        &&& update.len() == self.fields.len()
        &&& forall|i: int|
            0 <= i < update.len() && (#[trigger] update[i]) is Some ==> self.fields@[i].ty.admits(update[i]->Some_0)
    }

    /// Whether `update` is an update of structures of this type.
    pub fn update_conforms(&self, update: &ComponentUpdate) -> (r: bool)
        ensures
            r == self.admits_update(update@),
    {
        if update.fields.len() != self.fields.len() {
            return false;
        }
        let mut i: usize = 0;
        while i < update.fields.len()
            invariant
                i <= update.fields.len(),
                update.fields.len() == self.fields.len(),
                forall|j: int|
                    0 <= j < i && (#[trigger] update@[j]) is Some ==> self.fields@[j].ty.admits(update@[j]->Some_0),
            decreases update.fields.len() - i,
        {
            match &update.fields[i] {
                Some(value) => {
                    if !self.fields[i].ty.conforms(value) {
                        assert(update@[i as int] == Some(value@));
                        return false;
                    }
                },
                None => {},
            }
            i += 1;
        }
        true
    }

    /// Merging an update of this type into a structure of this type gives a
    /// structure of this type.
    pub proof fn lemma_merged_admits(&self, data: ValueView, update: Seq<Option<ValueView>>)
        requires
            self.admits(data),
            self.admits_update(update),
        ensures
            self.admits(merged(data, update)),
    {
        let after = merged(data, update)->Object_0;
        assert forall|i: int| 0 <= i < self.fields@.len() implies (#[trigger] self.fields@[i]).ty.admits(
            after[i],
        ) by {
            if update[i] is Some {
            }
        }
    }
}

/// The position of the first of `definitions` with the id `component_id`, or
/// their number where none has it.
pub open spec fn position(definitions: Seq<ComponentDefinition>, component_id: ComponentId) -> int
    decreases definitions.len(),
{
    if definitions.len() == 0 || definitions[0].component_id == component_id {
        0
    } else {
        1 + position(definitions.drop_first(), component_id)
    }
}

/// The position of an id is that of a definition with the id, and no
/// definition before it has the id.
pub proof fn lemma_position(definitions: Seq<ComponentDefinition>, component_id: ComponentId)
    ensures
        0 <= position(definitions, component_id) <= definitions.len(),
        position(definitions, component_id) < definitions.len() ==> definitions[position(
            definitions,
            component_id,
        )].component_id == component_id,
        forall|i: int|
            0 <= i < position(definitions, component_id) ==> (#[trigger] definitions[i]).component_id
                != component_id,
    decreases definitions.len(),
{
    if definitions.len() != 0 && definitions[0].component_id != component_id {
        lemma_position(definitions.drop_first(), component_id);
        assert forall|i: int| 0 <= i < position(definitions, component_id) implies (#[trigger] definitions[i]).component_id
            != component_id by {
            if i > 0 {
                assert(definitions[i] == definitions.drop_first()[i - 1]);
            }
        }
    }
}

/// Whether `definitions` make a database: no two have the same id, and the
/// data type of each is well formed.
pub open spec fn definitions_wf(definitions: Seq<ComponentDefinition>) -> bool {
    &&& forall|i: int, j: int|
        0 <= i < j < definitions.len() ==> (#[trigger] definitions[i]).component_id
            != (#[trigger] definitions[j]).component_id
    &&& forall|i: int| 0 <= i < definitions.len() ==> (#[trigger] definitions[i]).data.wf()
}

/// The registry of component kinds.
#[derive(Debug)]
pub struct ComponentDatabase {
    definitions: Vec<ComponentDefinition>,
}

impl ComponentDatabase {
    /// The definitions that the database was built from, in order.
    pub closed spec fn definitions(&self) -> Seq<ComponentDefinition> {
        self.definitions@
    }

    /// Whether the definitions make a database. This holds of every
    /// database that exists.
    pub open spec fn wf(&self) -> bool {
        definitions_wf(self.definitions())
    }

    /// What holds of every database.
    #[verifier::type_invariant]
    pub(crate) open spec fn inv(&self) -> bool {
        self.wf()
    }

    /// Whether a definition has the id `component_id`.
    pub open spec fn spec_is_registered(&self, component_id: ComponentId) -> bool {
        position(self.definitions(), component_id) < self.definitions().len()
    }

    /// The definition with the id `component_id`, where one has it.
    pub open spec fn definition(&self, component_id: ComponentId) -> ComponentDefinition
        recommends
            self.spec_is_registered(component_id),
    {
        self.definitions()[position(self.definitions(), component_id)]
    }

    /// The ids of the definitions, in order.
    pub open spec fn component_ids(&self) -> Seq<ComponentId> {
        Seq::new(self.definitions().len(), |i: int| self.definitions()[i].component_id)
    }

    /// Builds the database from all the definitions.
    ///
    /// Fails with [`DatabaseError::DuplicateComponent`] where two of them
    /// have the same id, and else with [`DatabaseError::MalformedType`] where
    /// the data type of one is not well formed.
    pub fn new(definitions: Vec<ComponentDefinition>) -> (result: Result<ComponentDatabase, DatabaseError>)
        ensures
            match result {
                Ok(database) => definitions_wf(definitions@) && database.definitions() == definitions@,
                Err(DatabaseError::DuplicateComponent) => exists|i: int, j: int|
                    0 <= i < j < definitions.len() && (#[trigger] definitions[i]).component_id
                        == (#[trigger] definitions[j]).component_id,
                Err(DatabaseError::MalformedType) => {
                    &&& forall|i: int, j: int|
                        0 <= i < j < definitions.len() ==> (#[trigger] definitions[i]).component_id
                            != (#[trigger] definitions[j]).component_id
                    &&& exists|i: int| 0 <= i < definitions.len() && !(#[trigger] definitions[i]).data.wf()
                },
            },
    {
        let mut i: usize = 0;
        while i < definitions.len()
            invariant
                i <= definitions.len(),
                forall|a: int, b: int|
                    0 <= a < i && a < b < definitions.len() ==> (#[trigger] definitions[a]).component_id
                        != (#[trigger] definitions[b]).component_id,
            decreases definitions.len() - i,
        {
            let mut j: usize = i + 1;
            while j < definitions.len()
                invariant
                    i < j <= definitions.len(),
                    forall|b: int|
                        i < b < j ==> definitions[i as int].component_id != (#[trigger] definitions[b]).component_id,
                decreases definitions.len() - j,
            {
                if definitions[i].component_id == definitions[j].component_id {
                    return Err(DatabaseError::DuplicateComponent);
                }
                j += 1;
            }
            i += 1;
        }
        let mut i: usize = 0;
        while i < definitions.len()
            invariant
                i <= definitions.len(),
                forall|a: int, b: int|
                    0 <= a < b < definitions.len() ==> (#[trigger] definitions[a]).component_id
                        != (#[trigger] definitions[b]).component_id,
                forall|a: int| 0 <= a < i ==> (#[trigger] definitions[a]).data.wf(),
            decreases definitions.len() - i,
        {
            if !definitions[i].data.is_well_formed() {
                return Err(DatabaseError::MalformedType);
            }
            i += 1;
        }
        Ok(ComponentDatabase { definitions })
    }

    /// Where the definition with the id `component_id` stands, if one has
    /// the id.
    pub fn find(&self, component_id: ComponentId) -> (index: Option<usize>)
        ensures
            match index {
                Some(i) => self.spec_is_registered(component_id) && i == position(
                    self.definitions(),
                    component_id,
                ),
                None => !self.spec_is_registered(component_id),
            },
    {
        let ghost all = self.definitions@;
        let mut i: usize = 0;
        assert(all.skip(0) =~= all);
        while i < self.definitions.len()
            invariant
                i <= self.definitions.len(),
                all == self.definitions@,
                position(all, component_id) == i + position(all.skip(i as int), component_id),
            decreases self.definitions.len() - i,
        {
            assert(all.skip(i as int)[0] == all[i as int]);
            if self.definitions[i].component_id == component_id {
                return Some(i);
            }
            assert(all.skip(i as int).drop_first() =~= all.skip(i + 1));
            i += 1;
        }
        None
    }

    /// Whether the component `component_id` is registered.
    #[verifier::when_used_as_spec(spec_is_registered)]
    pub fn is_registered(&self, component_id: ComponentId) -> (r: bool)
        ensures
            r == self.spec_is_registered(component_id),
    {
        self.find(component_id).is_some()
    }

    /// The number of registered components.
    pub fn len(&self) -> (n: usize)
        ensures
            n == self.definitions().len(),
    {
        self.definitions.len()
    }

    /// The definition of the component `component_id`, if it is registered.
    pub fn get(&self, component_id: ComponentId) -> (definition: Option<&ComponentDefinition>)
        ensures
            match definition {
                Some(d) => self.spec_is_registered(component_id) && *d == self.definition(component_id)
                    && d.component_id == component_id && d.data.wf(),
                None => !self.spec_is_registered(component_id),
            },
    {
        proof {
            use_type_invariant(self);
            lemma_position(self.definitions@, component_id);
        }
        match self.find(component_id) {
            Some(i) => Some(&self.definitions[i]),
            None => None,
        }
    }

    /// The ids of the registered components, in the order of their
    /// definitions.
    pub fn get_registered_component_ids(&self) -> (ids: Vec<ComponentId>)
        ensures
            ids@ == self.component_ids(),
    {
        let mut ids: Vec<ComponentId> = Vec::new();
        let mut i: usize = 0;
        while i < self.definitions.len()
            invariant
                i <= self.definitions.len(),
                ids@ == self.component_ids().take(i as int),
            decreases self.definitions.len() - i,
        {
            ids.push(self.definitions[i].component_id);
            i += 1;
            assert(ids@ =~= self.component_ids().take(i as int));
        }
        assert(self.component_ids().take(i as int) =~= self.component_ids());
        ids
    }
}

impl ComponentDatabase {
    /// Reads `data` as a value of the data type of its component.
    pub fn from_data(&self, data: &SchemaComponentData) -> (result: Result<Value, SchemaError>)
        requires
            self.is_registered(data.component_id),
        ensures
            decodes_to(result, self.definition(data.component_id).data.decoded(data.fields@)),
            result is Ok ==> self.definition(data.component_id).data.admits(result->Ok_0@),
    {
        match self.get(data.component_id) {
            Some(definition) => definition.data.from_schema_object(&data.fields),
            None => unreached(),
        }
    }

    /// Writes `value` as the data of the component `component_id`.
    ///
    /// Fails with [`SchemaError::TypeMismatch`] where `value` is not a value
    /// of the component's data type.
    pub fn to_data(&self, component_id: ComponentId, value: &Value) -> (result: Result<
        SchemaComponentData,
        SchemaError,
    >)
        requires
            self.is_registered(component_id),
        ensures
            match result {
                Ok(data) => {
                    &&& self.definition(component_id).data.admits(value@)
                    &&& data.component_id == component_id
                    &&& data.fields@ == self.definition(component_id).data.encoded(value@)
                },
                Err(e) => !self.definition(component_id).data.admits(value@) && e == SchemaError::TypeMismatch,
            },
    {
        match self.get(component_id) {
            Some(definition) => match definition.data.into_schema_object(value) {
                Ok(fields) => Ok(SchemaComponentData { component_id, fields }),
                Err(e) => Err(e),
            },
            None => unreached(),
        }
    }

    /// Reading an update from its wire form is not defined: always fails
    /// with [`SchemaError::NotImplemented`].
    pub fn from_update(&self, update: &SchemaComponentUpdate) -> (result: Result<ComponentUpdate, SchemaError>)
        ensures
            result is Err,
            result->Err_0 == SchemaError::NotImplemented,
    {
        Err(SchemaError::NotImplemented)
    }

    /// Writing an update in wire form is not defined: always fails with
    /// [`SchemaError::NotImplemented`].
    pub fn to_update(&self, component_id: ComponentId, update: &ComponentUpdate) -> (result: Result<
        SchemaComponentUpdate,
        SchemaError,
    >)
        ensures
            result is Err,
            result->Err_0 == SchemaError::NotImplemented,
    {
        Err(SchemaError::NotImplemented)
    }

    /// Reading a command request from its wire form is not defined: always
    /// fails with [`SchemaError::NotImplemented`].
    pub fn from_request(&self, request: &SchemaCommandRequest) -> (result: Result<Value, SchemaError>)
        ensures
            result is Err,
            result->Err_0 == SchemaError::NotImplemented,
    {
        Err(SchemaError::NotImplemented)
    }

    /// Writing a command request in wire form is not defined: always fails
    /// with [`SchemaError::NotImplemented`].
    pub fn to_request(&self, component_id: ComponentId, request: &Value) -> (result: Result<
        SchemaCommandRequest,
        SchemaError,
    >)
        ensures
            result is Err,
            result->Err_0 == SchemaError::NotImplemented,
    {
        Err(SchemaError::NotImplemented)
    }

    /// Reading a command response from its wire form is not defined: always
    /// fails with [`SchemaError::NotImplemented`].
    pub fn from_response(&self, response: &SchemaCommandResponse) -> (result: Result<Value, SchemaError>)
        ensures
            result is Err,
            result->Err_0 == SchemaError::NotImplemented,
    {
        Err(SchemaError::NotImplemented)
    }

    /// Writing a command response in wire form is not defined: always fails
    /// with [`SchemaError::NotImplemented`].
    pub fn to_response(&self, component_id: ComponentId, response: &Value) -> (result: Result<
        SchemaCommandResponse,
        SchemaError,
    >)
        ensures
            result is Err,
            result->Err_0 == SchemaError::NotImplemented,
    {
        Err(SchemaError::NotImplemented)
    }

    /// Whether `data` can take `update` as data of the component
    /// `component_id`: the data are a structure with a place for each of the
    /// component's fields, and the update is one of the component's type.
    pub open spec fn can_merge(&self, component_id: ComponentId, data: ValueView, update: Seq<Option<ValueView>>) -> bool {
        &&& data is Object
        &&& data->Object_0.len() == self.definition(component_id).data.fields@.len()
        &&& self.definition(component_id).data.admits_update(update)
    }

    /// Merges `update` into `data`, the data of the component `component_id`.
    ///
    /// Fails with [`SchemaError::TypeMismatch`], and leaves the data as they
    /// were, where they cannot take the update.
    pub fn merge(&self, component_id: ComponentId, data: &mut Value, update: &ComponentUpdate) -> (result: Result<
        (),
        SchemaError,
    >)
        requires
            self.is_registered(component_id),
        ensures
            match result {
                Ok(()) => self.can_merge(component_id, old(data)@, update@) && final(data)@ == merged(
                    old(data)@,
                    update@,
                ),
                Err(e) => !self.can_merge(component_id, old(data)@, update@) && e == SchemaError::TypeMismatch
                    && final(data)@ == old(data)@,
            },
    {
        let definition = match self.get(component_id) {
            Some(definition) => definition,
            None => unreached(),
        };
        let count = match data {
            Value::Object(fields) => fields.len(),
            _ => {
                return Err(SchemaError::TypeMismatch);
            },
        };
        if count != definition.data.fields.len() || !definition.data.update_conforms(update) {
            proof {
                lemma_value_view(data);
            }
            return Err(SchemaError::TypeMismatch);
        }
        proof {
            lemma_value_view(data);
        }
        let ghost before = views(data->Object_0@);
        let mut fields: Vec<Value> = Vec::new();
        match data {
            Value::Object(held) => {
                core::mem::swap(&mut fields, held);
            },
            _ => unreached(),
        }
        let mut i: usize = 0;
        while i < fields.len()
            invariant
                i <= fields.len(),
                fields.len() == before.len(),
                update.fields.len() == fields.len(),
                forall|j: int| 0 <= j < i ==> (#[trigger] fields@[j])@ == merged(old(data)@, update@)->Object_0[j],
                forall|j: int| i <= j < fields.len() ==> (#[trigger] fields@[j])@ == before[j],
                old(data)@ == ValueView::Object(before),
            decreases fields.len() - i,
        {
            match &update.fields[i] {
                Some(value) => {
                    assert(update@[i as int] == Some(value@));
                    fields[i] = value.clone();
                },
                None => {
                    assert(update@[i as int] is None);
                },
            }
            i += 1;
        }
        *data = Value::Object(fields);
        proof {
            lemma_value_view(data);
            assert(data@->Object_0 =~= merged(old(data)@, update@)->Object_0);
        }
        Ok(())
    }
}

} // verus!
