//! Snapshots: entities and their components as a stream of records.
//!
//! All numbers are little-endian. A record is the entity id in eight bytes,
//! the number of components in four, and then each component: its id in
//! four bytes, the length of its payload in four, and the payload, which is
//! the component's data as the bytes of a schema object.

use vstd::prelude::*;
use vstd::bytes::{
    lemma_auto_spec_u32_to_from_le_bytes, lemma_auto_spec_u64_to_from_le_bytes, spec_u32_from_le_bytes,
    spec_u32_to_le_bytes, spec_u64_from_le_bytes, spec_u64_to_le_bytes,
};
use crate::codec::SchemaError;
use crate::component::{definitions_wf, lemma_position, position, ComponentDatabase, ComponentDefinition};
use crate::entity::{components_distinct, lemma_lookup, lookup, Entity};
use crate::schema::EntryView;
use crate::value::ValueView;
use crate::wire::{
    entries_fit, get_u32, get_u64, lemma_object_round_trip, lemma_parse_object_bounds, object_bytes,
    parse_object, put_u32, put_u64, read_object,
};
use crate::{ComponentId, EntityId};

verus! {

/// Why a record could not be written or read.
#[derive(Clone, Copy, Debug, PartialEq, Eq, Structural)]
pub enum SnapshotError {
    /// There is no record left to read.
    EndOfStream,
    /// The bytes are not a record.
    FormatError,
    /// A length does not fit in the four bytes that the format has for it.
    TooLarge,
    /// A component is not known to the database.
    UnregisteredComponent,
    /// The data of a component do not fit the component's type.
    Schema(SchemaError),
}

/// A component of an entity: its id and its data.
pub type ComponentValue = (ComponentId, ValueView);

/// The bytes of one component of a record, the component's data being the
/// object with the entries `entries`.
pub open spec fn component_bytes(component_id: ComponentId, entries: Seq<EntryView>) -> Seq<u8> {
    spec_u32_to_le_bytes(component_id) + spec_u32_to_le_bytes(object_bytes(entries).len() as u32)
        + object_bytes(entries)
}

/// The bytes that one component is written as, or why it cannot be written.
pub open spec fn component_record(database: Seq<ComponentDefinition>, component: ComponentValue) -> Result<
    Seq<u8>,
    SnapshotError,
> {
    let index = position(database, component.0);
    if index >= database.len() {
        Err(SnapshotError::UnregisteredComponent)
    } else if !database[index].data.admits(component.1) {
        Err(SnapshotError::Schema(SchemaError::TypeMismatch))
    } else {
        let entries = database[index].data.encoded(component.1);
        if !entries_fit(entries) || object_bytes(entries).len() > u32::MAX {
            Err(SnapshotError::TooLarge)
        } else {
            Ok(component_bytes(component.0, entries))
        }
    }
}

/// The bytes that `components` are written as, one after the other, or why
/// the first that cannot be written cannot.
pub open spec fn components_record(database: Seq<ComponentDefinition>, components: Seq<ComponentValue>) -> Result<
    Seq<u8>,
    SnapshotError,
>
    decreases components.len(),
{
    if components.len() == 0 {
        Ok(Seq::empty())
    } else {
        match components_record(database, components.drop_last()) {
            Err(e) => Err(e),
            Ok(front) => match component_record(database, components.last()) {
                Err(e) => Err(e),
                Ok(bytes) => Ok(front + bytes),
            },
        }
    }
}

/// The record that the entity `entity_id` with the components `components`
/// is written as, or why it cannot be written.
pub open spec fn entity_record(
    database: Seq<ComponentDefinition>,
    entity_id: EntityId,
    components: Seq<ComponentValue>,
) -> Result<Seq<u8>, SnapshotError> {
    if components.len() > u32::MAX {
        Err(SnapshotError::TooLarge)
    } else {
        match components_record(database, components) {
            Err(e) => Err(e),
            Ok(body) => Ok(
                spec_u64_to_le_bytes(entity_id as u64) + spec_u32_to_le_bytes(components.len() as u32) + body,
            ),
        }
    }
}

/// Reads one component from the front of `bytes`: the component and how many
/// bytes it took.
pub open spec fn read_component(database: Seq<ComponentDefinition>, bytes: Seq<u8>) -> Result<
    (ComponentValue, int),
    SnapshotError,
> {
    if bytes.len() < 8 {
        Err(SnapshotError::FormatError)
    } else {
        let component_id = spec_u32_from_le_bytes(bytes.subrange(0, 4));
        let length = spec_u32_from_le_bytes(bytes.subrange(4, 8));
        match parse_object(bytes.skip(8)) {
            None => Err(SnapshotError::FormatError),
            Some((entries, used)) => if used != length {
                Err(SnapshotError::FormatError)
            } else {
                let index = position(database, component_id);
                if index >= database.len() {
                    Err(SnapshotError::UnregisteredComponent)
                } else {
                    match database[index].data.decoded(entries) {
                        Err(e) => Err(SnapshotError::Schema(e)),
                        Ok(value) => Ok(((component_id, value), 8 + used)),
                    }
                }
            },
        }
    }
}

/// Reads `count` components from the front of `bytes`, after the components
/// `seen` of the same record: all the components of the record and how many
/// bytes the `count` took. A component that the record has already is a
/// format error.
pub open spec fn read_components(
    database: Seq<ComponentDefinition>,
    bytes: Seq<u8>,
    count: nat,
    seen: Seq<ComponentValue>,
) -> Result<(Seq<ComponentValue>, int), SnapshotError>
    decreases count,
{
    if count == 0 {
        Ok((seen, 0))
    } else {
        match read_component(database, bytes) {
            Err(e) => Err(e),
            Ok((component, used)) => if lookup(seen, component.0) is Some || used < 0 || used > bytes.len() {
                Err(SnapshotError::FormatError)
            } else {
                match read_components(database, bytes.skip(used), (count - 1) as nat, seen.push(component)) {
                    Err(e) => Err(e),
                    Ok((all, more)) => Ok((all, used + more)),
                }
            },
        }
    }
}

/// Reads one record from the front of `bytes`: the entity, its components,
/// and how many bytes the record took.
pub open spec fn read_record(database: Seq<ComponentDefinition>, bytes: Seq<u8>) -> Result<
    ((EntityId, Seq<ComponentValue>), int),
    SnapshotError,
> {
    if bytes.len() == 0 {
        Err(SnapshotError::EndOfStream)
    } else if bytes.len() < 12 {
        Err(SnapshotError::FormatError)
    } else {
        let entity_id = spec_u64_from_le_bytes(bytes.subrange(0, 8)) as i64;
        let count = spec_u32_from_le_bytes(bytes.subrange(8, 12));
        match read_components(database, bytes.skip(12), count as nat, Seq::empty()) {
            Err(e) => Err(e),
            Ok((components, used)) => Ok(((entity_id, components), 12 + used)),
        }
    }
}

/// Once a prefix of the components cannot be written, neither can all of
/// them, and for the same reason.
pub proof fn lemma_components_record_prefix_err(
    database: Seq<ComponentDefinition>,
    components: Seq<ComponentValue>,
    n: int,
)
    requires
        0 <= n <= components.len(),
        components_record(database, components.take(n)) is Err,
    ensures
        components_record(database, components) == components_record(database, components.take(n)),
    decreases components.len() - n,
{
    if n == components.len() {
        assert(components.take(n) =~= components);
    } else {
        assert(components.take(n + 1).drop_last() =~= components.take(n));
        lemma_components_record_prefix_err(database, components, n + 1);
    }
}

/// The bytes of components that can be written are the bytes of the first
/// and then those of the others.
pub proof fn lemma_components_record_first(database: Seq<ComponentDefinition>, components: Seq<ComponentValue>)
    requires
        components.len() > 0,
        components_record(database, components) is Ok,
    ensures
        component_record(database, components[0]) is Ok,
        components_record(database, components.drop_first()) is Ok,
        components_record(database, components)->Ok_0 == component_record(database, components[0])->Ok_0
            + components_record(database, components.drop_first())->Ok_0,
    decreases components.len(),
{
    if components.len() == 1 {
        assert(components.drop_last() =~= Seq::<ComponentValue>::empty());
        assert(components.drop_first() =~= Seq::<ComponentValue>::empty());
        assert(components.last() == components[0]);
        assert(components_record(database, Seq::<ComponentValue>::empty()) == Ok::<Seq<u8>, SnapshotError>(
            Seq::empty(),
        ));
        let bytes = component_record(database, components[0])->Ok_0;
        assert(Seq::<u8>::empty() + bytes =~= bytes + Seq::<u8>::empty());
    } else {
        let front = components.drop_last();
        lemma_components_record_first(database, front);
        assert(front[0] == components[0]);
        assert(front.drop_first() =~= components.drop_first().drop_last());
        assert(components.drop_first().last() == components.last());
        let a = component_record(database, components[0])->Ok_0;
        let b = components_record(database, front.drop_first())->Ok_0;
        let c = component_record(database, components.last())->Ok_0;
        assert((a + b) + c =~= a + (b + c));
    }
}

/// Round trip, for the components of a record: components that were
/// written, each a different one and none of them seen before, are read
/// back after those that were seen, whatever follows their bytes.
pub proof fn lemma_components_round_trip(
    database: Seq<ComponentDefinition>,
    components: Seq<ComponentValue>,
    seen: Seq<ComponentValue>,
    rest: Seq<u8>,
)
    requires
        definitions_wf(database),
        components_distinct(seen + components),
        components_record(database, components) is Ok,
    ensures
        read_components(
            database,
            components_record(database, components)->Ok_0 + rest,
            components.len(),
            seen,
        ) == Ok::<(Seq<ComponentValue>, int), SnapshotError>(
            (seen + components, components_record(database, components)->Ok_0.len() as int),
        ),
    decreases components.len(),
{
    if components.len() == 0 {
        assert(seen + components =~= seen);
    } else {
        lemma_auto_spec_u32_to_from_le_bytes();
        lemma_components_record_first(database, components);
        let first = components[0];
        let tail = components.drop_first();
        let tail_bytes = components_record(database, tail)->Ok_0;
        let bytes = components_record(database, components)->Ok_0 + rest;
        let after = tail_bytes + rest;
        let index = position(database, first.0);
        let entries = database[index].data.encoded(first.1);
        let payload = object_bytes(entries);
        lemma_position(database, first.0);
        assert(bytes =~= spec_u32_to_le_bytes(first.0) + spec_u32_to_le_bytes(payload.len() as u32) + (payload
            + after));
        assert(bytes.subrange(0, 4) =~= spec_u32_to_le_bytes(first.0));
        assert(bytes.subrange(4, 8) =~= spec_u32_to_le_bytes(payload.len() as u32));
        assert(bytes.skip(8) =~= payload + after);
        lemma_object_round_trip(entries, after);
        database[index].data.lemma_round_trip(first.1);
        let used = 8 + payload.len() as int;
        assert(read_component(database, bytes) == Ok::<(ComponentValue, int), SnapshotError>((first, used)));
        assert(lookup(seen, first.0) is None) by {
            lemma_lookup(seen, first.0);
            if lookup(seen, first.0) is Some {
                let i = choose|i: int| 0 <= i < seen.len() && (#[trigger] seen[i]).0 == first.0;
                assert((seen + components)[i] == seen[i]);
                assert((seen + components)[seen.len() as int] == first);
            }
        }
        assert(bytes.skip(used) =~= after);
        assert(seen.push(first) + tail =~= seen + components);
        lemma_components_round_trip(database, tail, seen.push(first), rest);
    }
}

/// Round trip, for a record: an entity that was written, its components
/// each a different one, is read back from its record, whatever follows the
/// record.
pub proof fn lemma_record_round_trip(
    database: Seq<ComponentDefinition>,
    entity_id: EntityId,
    components: Seq<ComponentValue>,
    rest: Seq<u8>,
)
    requires
        definitions_wf(database),
        components_distinct(components),
        entity_record(database, entity_id, components) is Ok,
    ensures
        read_record(database, entity_record(database, entity_id, components)->Ok_0 + rest) == Ok::<
            ((EntityId, Seq<ComponentValue>), int),
            SnapshotError,
        >(((entity_id, components), entity_record(database, entity_id, components)->Ok_0.len() as int)),
{
    lemma_auto_spec_u32_to_from_le_bytes();
    lemma_auto_spec_u64_to_from_le_bytes();
    let body = components_record(database, components)->Ok_0;
    let record = entity_record(database, entity_id, components)->Ok_0;
    let bytes = record + rest;
    assert(spec_u64_to_le_bytes(entity_id as u64).len() == 8);
    assert(spec_u32_to_le_bytes(components.len() as u32).len() == 4);
    assert(bytes.subrange(0, 8) =~= spec_u64_to_le_bytes(entity_id as u64));
    assert(bytes.subrange(8, 12) =~= spec_u32_to_le_bytes(components.len() as u32));
    assert(bytes.skip(12) =~= body + rest);
    assert((entity_id as u64) as i64 == entity_id) by (bit_vector);
    assert(Seq::<ComponentValue>::empty() + components =~= components);
    lemma_components_round_trip(database, components, Seq::empty(), rest);
}

/// Takes entities and turns them into the bytes of a snapshot.
pub struct SnapshotOutputStream<'a> {
    database: &'a ComponentDatabase,
    bytes: Vec<u8>,
}

impl<'a> SnapshotOutputStream<'a> {
    /// The bytes written so far.
    pub closed spec fn view(&self) -> Seq<u8> {
        self.bytes@
    }

    /// The database that the stream was made with.
    pub closed spec fn database(&self) -> ComponentDatabase {
        *self.database
    }

    /// A stream without records, for entities with components of
    /// `database`.
    pub fn new(database: &'a ComponentDatabase) -> (stream: SnapshotOutputStream<'a>)
        ensures
            stream@ == Seq::<u8>::empty(),
            stream.database() == *database,
    {
        SnapshotOutputStream { database, bytes: Vec::new() }
    }

    /// Writes the entity `id` with the components of `entity` as one record
    /// behind the records that are there. Where the entity cannot be written
    /// the stream stays as it was.
    #[verifier::loop_isolation(false)]
    pub fn write_entity(&mut self, id: EntityId, entity: &Entity) -> (result: Result<(), SnapshotError>)
        ensures
            final(self).database() == old(self).database(),
            match entity_record(old(self).database().definitions(), id, entity@) {
                Ok(record) => result is Ok && final(self)@ == old(self)@ + record,
                Err(e) => result == Err::<(), SnapshotError>(e) && final(self)@ == old(self)@,
            },
    {
        let ghost database = self.database().definitions();
        let count = entity.len();
        if count > u32::MAX as usize {
            return Err(SnapshotError::TooLarge);
        }
        let mut record: Vec<u8> = Vec::new();
        put_u64(&mut record, #[verifier::truncate] (id as u64));
        put_u32(&mut record, count as u32);
        let ghost header = record@;
        let mut i: usize = 0;
        assert(entity@.take(0) =~= Seq::<ComponentValue>::empty());
        assert(record@ =~= header + Seq::<u8>::empty());
        while i < count
            invariant
                i <= count,
                count == entity@.len(),
                database == self.database.definitions(),
                components_record(database, entity@.take(i as int)) is Ok,
                record@ == header + components_record(database, entity@.take(i as int))->Ok_0,
                self.bytes == old(self).bytes,
                self.database == old(self).database,
            decreases count - i,
        {
            let ghost front = components_record(database, entity@.take(i as int))->Ok_0;
            proof {
                assert(entity@.take(i + 1).drop_last() =~= entity@.take(i as int));
                assert(entity@.take(i + 1).last() == entity@[i as int]);
            }
            let (component_id, value) = entity.component_at(i);
            if !self.database.is_registered(component_id) {
                proof {
                    lemma_components_record_prefix_err(database, entity@, i + 1);
                }
                return Err(SnapshotError::UnregisteredComponent);
            }
            let data = match self.database.to_data(component_id, value) {
                Ok(data) => data,
                Err(_) => {
                    proof {
                        lemma_components_record_prefix_err(database, entity@, i + 1);
                    }
                    return Err(SnapshotError::Schema(SchemaError::TypeMismatch));
                },
            };
            let mut payload = match data.fields.to_bytes() {
                Some(payload) => payload,
                None => {
                    proof {
                        lemma_components_record_prefix_err(database, entity@, i + 1);
                    }
                    return Err(SnapshotError::TooLarge);
                },
            };
            if payload.len() > u32::MAX as usize {
                proof {
                    lemma_components_record_prefix_err(database, entity@, i + 1);
                }
                return Err(SnapshotError::TooLarge);
            }
            put_u32(&mut record, component_id);
            put_u32(&mut record, payload.len() as u32);
            record.append(&mut payload);
            proof {
                let bytes = component_record(database, entity@[i as int])->Ok_0;
                assert(record@ =~= header + (front + bytes));
            }
            i += 1;
        }
        proof {
            assert(entity@.take(i as int) =~= entity@);
        }
        self.bytes.append(&mut record);
        Ok(())
    }

    /// The bytes written so far.
    pub fn bytes(&self) -> (bytes: &Vec<u8>)
        ensures
            bytes@ == self@,
    {
        &self.bytes
    }

    /// The bytes of the snapshot.
    pub fn into_bytes(self) -> (bytes: Vec<u8>)
        ensures
            bytes@ == self@,
    {
        self.bytes
    }
}

/// Hands out the entities of a snapshot, one record at a time.
pub struct SnapshotInputStream<'a> {
    database: &'a ComponentDatabase,
    bytes: Vec<u8>,
    position: usize,
}

impl<'a> SnapshotInputStream<'a> {
    /// What holds of every stream: the position is inside the bytes.
    #[verifier::type_invariant]
    spec fn inv(&self) -> bool {
        self.position <= self.bytes.len()
    }

    /// The bytes that are still to be read.
    pub closed spec fn view(&self) -> Seq<u8> {
        self.bytes@.skip(self.position as int)
    }

    /// The database that the stream was made with.
    pub closed spec fn database(&self) -> ComponentDatabase {
        *self.database
    }

    /// A stream over the bytes of a snapshot, read with the components of
    /// `database`.
    pub fn new(bytes: Vec<u8>, database: &'a ComponentDatabase) -> (stream: SnapshotInputStream<'a>)
        ensures
            stream@ == bytes@,
            stream.database() == *database,
    {
        let stream = SnapshotInputStream { database, bytes, position: 0 };
        assert(stream@ =~= bytes@);
        stream
    }

    /// Whether anything is left to read.
    pub fn has_next(&self) -> (r: bool)
        ensures
            r == (self@.len() > 0),
    {
        proof {
            use_type_invariant(self);
        }
        self.position < self.bytes.len()
    }

    /// Reads the next record: the entity and its components. Where there is
    /// no record to read the stream stays where it was; at the end of the
    /// stream the error is [`SnapshotError::EndOfStream`].
    #[verifier::loop_isolation(false)]
    pub fn read_entity(&mut self) -> (result: Result<(EntityId, Entity), SnapshotError>)
        ensures
            final(self).database() == old(self).database(),
            match read_record(old(self).database().definitions(), old(self)@) {
                Ok(((entity_id, components), used)) => {
                    &&& result is Ok
                    &&& result->Ok_0.0 == entity_id
                    &&& result->Ok_0.1@ == components
                    &&& 0 <= used <= old(self)@.len()
                    &&& final(self)@ == old(self)@.skip(used)
                },
                Err(e) => result is Err && result->Err_0 == e && final(self)@ == old(self)@,
            },
    {
        proof {
            use_type_invariant(&*self);
        }
        let ghost database = self.database.definitions();
        let ghost rest = self@;
        let start = self.position;
        let left = self.bytes.len() - start;
        if left == 0 {
            return Err(SnapshotError::EndOfStream);
        }
        if left < 12 {
            return Err(SnapshotError::FormatError);
        }
        let bytes = self.bytes.as_slice();
        assert(rest.subrange(0, 8) =~= bytes@.subrange(start as int, start + 8));
        assert(rest.subrange(8, 12) =~= bytes@.subrange(start + 8, start + 12));
        let entity_id = get_u64(bytes, start) as i64;
        let count = get_u32(bytes, start + 8);
        let mut entity = Entity::new();
        let mut next: usize = start + 12;
        let mut i: u32 = 0;
        let ghost whole = read_components(database, rest.skip(12), count as nat, Seq::empty());
        assert(rest.skip(12) =~= bytes@.skip(next as int));
        while i < count
            invariant
                i <= count,
                start + 12 <= next <= bytes@.len(),
                bytes@ == self.bytes@,
                self.position == start,
                self.database == old(self).database,
                whole == match read_components(
                    database,
                    bytes@.skip(next as int),
                    (count - i) as nat,
                    entity@,
                ) {
                    Ok((all, more)) => Ok::<(Seq<ComponentValue>, int), SnapshotError>(
                        (all, next - start - 12 + more),
                    ),
                    Err(e) => Err(e),
                },
            decreases count - i,
        {
            let ghost here = bytes@.skip(next as int);
            if bytes.len() - next < 8 {
                return Err(SnapshotError::FormatError);
            }
            assert(here.subrange(0, 4) =~= bytes@.subrange(next as int, next + 4));
            assert(here.subrange(4, 8) =~= bytes@.subrange(next + 4, next + 8));
            assert(here.skip(8) =~= bytes@.skip(next + 8));
            let component_id = get_u32(bytes, next);
            let length = get_u32(bytes, next + 4);
            proof {
                lemma_parse_object_bounds(here.skip(8));
            }
            let (object, after) = match read_object(bytes, next + 8) {
                Some(read) => read,
                None => {
                    return Err(SnapshotError::FormatError);
                },
            };
            if after - (next + 8) != length as usize {
                return Err(SnapshotError::FormatError);
            }
            let definition = match self.database.get(component_id) {
                Some(definition) => definition,
                None => {
                    return Err(SnapshotError::UnregisteredComponent);
                },
            };
            let value = match definition.data.from_schema_object(&object) {
                Ok(value) => value,
                Err(e) => {
                    return Err(SnapshotError::Schema(e));
                },
            };
            if entity.has(component_id) {
                return Err(SnapshotError::FormatError);
            }
            proof {
                assert(here.skip(after - next) =~= bytes@.skip(after as int));
            }
            entity.add(component_id, value);
            next = after;
            i += 1;
        }
        self.position = next;
        proof {
            assert(rest.skip(next - start) =~= self.bytes@.skip(next as int));
        }
        Ok((entity_id, entity))
    }
}

/// An entity of a snapshot: its id and its components.
pub type EntityRecord = (EntityId, Seq<ComponentValue>);

/// The ids and the components of `entities`, in order.
pub open spec fn records_of(entities: Seq<(EntityId, Entity)>) -> Seq<EntityRecord> {
    Seq::new(entities.len(), |i: int| (entities[i].0, entities[i].1@))
}

/// The bytes of the snapshot that holds `entities`, one record after the
/// other in the order given, or why the first entity that cannot be written
/// cannot.
pub open spec fn snapshot_bytes(database: Seq<ComponentDefinition>, entities: Seq<EntityRecord>) -> Result<
    Seq<u8>,
    SnapshotError,
>
    decreases entities.len(),
{
    if entities.len() == 0 {
        Ok(Seq::empty())
    } else {
        match snapshot_bytes(database, entities.drop_last()) {
            Err(e) => Err(e),
            Ok(front) => match entity_record(database, entities.last().0, entities.last().1) {
                Err(e) => Err(e),
                Ok(record) => Ok(front + record),
            },
        }
    }
}

/// The entities that the snapshot `bytes` holds, in the order of their
/// records, or why the first record that cannot be read cannot.
pub open spec fn snapshot_entities(database: Seq<ComponentDefinition>, bytes: Seq<u8>) -> Result<
    Seq<EntityRecord>,
    SnapshotError,
>
    decreases bytes.len(),
{
    if bytes.len() == 0 {
        Ok(Seq::empty())
    } else {
        match read_record(database, bytes) {
            Err(e) => Err(e),
            Ok((record, used)) => if used <= 0 || used > bytes.len() {
                Err(SnapshotError::FormatError)
            } else {
                match snapshot_entities(database, bytes.skip(used)) {
                    Err(e) => Err(e),
                    Ok(others) => Ok(seq![record] + others),
                }
            },
        }
    }
}

/// Once a prefix of the entities cannot be written, neither can all of
/// them, and for the same reason.
pub proof fn lemma_snapshot_bytes_prefix_err(database: Seq<ComponentDefinition>, entities: Seq<EntityRecord>, n: int)
    requires
        0 <= n <= entities.len(),
        snapshot_bytes(database, entities.take(n)) is Err,
    ensures
        snapshot_bytes(database, entities) == snapshot_bytes(database, entities.take(n)),
    decreases entities.len() - n,
{
    if n == entities.len() {
        assert(entities.take(n) =~= entities);
    } else {
        assert(entities.take(n + 1).drop_last() =~= entities.take(n));
        lemma_snapshot_bytes_prefix_err(database, entities, n + 1);
    }
}

/// The bytes of a snapshot are the record of its first entity and then the
/// bytes of the snapshot of the others.
pub proof fn lemma_snapshot_bytes_first(database: Seq<ComponentDefinition>, entities: Seq<EntityRecord>)
    requires
        entities.len() > 0,
        snapshot_bytes(database, entities) is Ok,
    ensures
        entity_record(database, entities[0].0, entities[0].1) is Ok,
        snapshot_bytes(database, entities.drop_first()) is Ok,
        snapshot_bytes(database, entities)->Ok_0 == entity_record(database, entities[0].0, entities[0].1)->Ok_0
            + snapshot_bytes(database, entities.drop_first())->Ok_0,
    decreases entities.len(),
{
    if entities.len() == 1 {
        assert(entities.drop_last() =~= Seq::<EntityRecord>::empty());
        assert(entities.drop_first() =~= Seq::<EntityRecord>::empty());
        assert(entities.last() == entities[0]);
        assert(snapshot_bytes(database, Seq::<EntityRecord>::empty()) == Ok::<Seq<u8>, SnapshotError>(
            Seq::empty(),
        ));
        let record = entity_record(database, entities[0].0, entities[0].1)->Ok_0;
        assert(Seq::<u8>::empty() + record =~= record + Seq::<u8>::empty());
    } else {
        let front = entities.drop_last();
        lemma_snapshot_bytes_first(database, front);
        assert(front[0] == entities[0]);
        assert(front.drop_first() =~= entities.drop_first().drop_last());
        assert(entities.drop_first().last() == entities.last());
        let a = entity_record(database, entities[0].0, entities[0].1)->Ok_0;
        let b = snapshot_bytes(database, front.drop_first())->Ok_0;
        let c = entity_record(database, entities.last().0, entities.last().1)->Ok_0;
        assert((a + b) + c =~= a + (b + c));
    }
}

/// Snapshot round trip: the snapshot of entities that can be written, none
/// of them with a component twice, holds those entities, in the order in
/// which they were written.
pub proof fn lemma_snapshot_round_trip(database: Seq<ComponentDefinition>, entities: Seq<EntityRecord>)
    requires
        definitions_wf(database),
        forall|i: int| 0 <= i < entities.len() ==> components_distinct((#[trigger] entities[i]).1),
        snapshot_bytes(database, entities) is Ok,
    ensures
        snapshot_entities(database, snapshot_bytes(database, entities)->Ok_0) == Ok::<
            Seq<EntityRecord>,
            SnapshotError,
        >(entities),
    decreases entities.len(),
{
    if entities.len() == 0 {
        assert(entities =~= Seq::<EntityRecord>::empty());
    } else {
        lemma_snapshot_bytes_first(database, entities);
        let first = entities[0];
        let others = entities.drop_first();
        let record = entity_record(database, first.0, first.1)->Ok_0;
        let rest = snapshot_bytes(database, others)->Ok_0;
        lemma_record_round_trip(database, first.0, first.1, rest);
        assert(record.len() >= 12) by {
            lemma_auto_spec_u32_to_from_le_bytes();
            lemma_auto_spec_u64_to_from_le_bytes();
            assert(spec_u64_to_le_bytes(first.0 as u64).len() == 8);
            assert(spec_u32_to_le_bytes(first.1.len() as u32).len() == 4);
        }
        assert((record + rest).skip(record.len() as int) =~= rest);
        assert forall|i: int| 0 <= i < others.len() implies components_distinct((#[trigger] others[i]).1) by {
            assert(others[i] == entities[i + 1]);
        }
        lemma_snapshot_round_trip(database, others);
        assert(seq![first] + others =~= entities);
    }
}

/// Writes `entities`, in order, as a snapshot: the bytes of the snapshot,
/// or why the first entity that cannot be written cannot.
pub fn write_snapshot(database: &ComponentDatabase, entities: &Vec<(EntityId, Entity)>) -> (result: Result<
    Vec<u8>,
    SnapshotError,
>)
    ensures
        match snapshot_bytes(database.definitions(), records_of(entities@)) {
            Ok(bytes) => result is Ok && result->Ok_0@ == bytes,
            Err(e) => result is Err && result->Err_0 == e,
        },
{
    let ghost records = records_of(entities@);
    let mut stream = SnapshotOutputStream::new(database);
    let mut i: usize = 0;
    assert(records.take(0) =~= Seq::<EntityRecord>::empty());
    while i < entities.len()
        invariant
            i <= entities.len(),
            records == records_of(entities@),
            stream.database() == *database,
            snapshot_bytes(database.definitions(), records.take(i as int)) == Ok::<Seq<u8>, SnapshotError>(stream@),
        decreases entities.len() - i,
    {
        proof {
            assert(records.take(i + 1).drop_last() =~= records.take(i as int));
            assert(records.take(i + 1).last() == (entities@[i as int].0, entities@[i as int].1@));
        }
        match stream.write_entity(entities[i].0, &entities[i].1) {
            Ok(()) => {},
            Err(e) => {
                proof {
                    lemma_snapshot_bytes_prefix_err(database.definitions(), records, i + 1);
                }
                return Err(e);
            },
        }
        i += 1;
    }
    proof {
        assert(records.take(i as int) =~= records);
    }
    Ok(stream.into_bytes())
}

/// Reads all the entities of the snapshot `bytes`, in the order of their
/// records, or why the first record that cannot be read cannot.
#[verifier::loop_isolation(false)]
pub fn read_snapshot(database: &ComponentDatabase, bytes: Vec<u8>) -> (result: Result<
    Vec<(EntityId, Entity)>,
    SnapshotError,
>)
    ensures
        match snapshot_entities(database.definitions(), bytes@) {
            Ok(records) => result is Ok && records_of(result->Ok_0@) == records,
            Err(e) => result is Err && result->Err_0 == e,
        },
{
    let ghost whole = snapshot_entities(database.definitions(), bytes@);
    let mut stream = SnapshotInputStream::new(bytes, database);
    let mut entities: Vec<(EntityId, Entity)> = Vec::new();
    proof {
        match snapshot_entities(database.definitions(), stream@) {
            Ok(others) => {
                assert(records_of(entities@) + others =~= others);
            },
            Err(_) => {},
        }
    }
    while stream.has_next()
        invariant
            stream.database() == *database,
            whole == match snapshot_entities(database.definitions(), stream@) {
                Ok(others) => Ok::<Seq<EntityRecord>, SnapshotError>(records_of(entities@) + others),
                Err(e) => Err(e),
            },
        decreases stream@.len(),
    {
        let ghost before = records_of(entities@);
        let ghost left = stream@;
        proof {
            lemma_read_record_bounds(database.definitions(), left);
        }
        match stream.read_entity() {
            Ok((entity_id, entity)) => {
                let ghost record = (entity_id, entity@);
                entities.push((entity_id, entity));
                proof {
                    assert(records_of(entities@) =~= before.push(record));
                    match snapshot_entities(database.definitions(), stream@) {
                        Ok(others) => {
                            assert(before + (seq![record] + others) =~= before.push(record) + others);
                        },
                        Err(_) => {},
                    }
                }
            },
            Err(e) => {
                return Err(e);
            },
        }
    }
    proof {
        assert(records_of(entities@) + Seq::<EntityRecord>::empty() =~= records_of(entities@));
    }
    Ok(entities)
}

/// A record that was read took at least twelve bytes and no more than there
/// are.
pub proof fn lemma_read_record_bounds(database: Seq<ComponentDefinition>, bytes: Seq<u8>)
    ensures
        read_record(database, bytes) is Ok ==> 12 <= read_record(database, bytes)->Ok_0.1 <= bytes.len(),
{
    if bytes.len() >= 12 {
        let count = spec_u32_from_le_bytes(bytes.subrange(8, 12));
        lemma_read_components_bounds(database, bytes.skip(12), count as nat, Seq::empty());
    }
}

/// The components that were read took no more bytes than there are.
pub proof fn lemma_read_components_bounds(
    database: Seq<ComponentDefinition>,
    bytes: Seq<u8>,
    count: nat,
    seen: Seq<ComponentValue>,
)
    ensures
        read_components(database, bytes, count, seen) is Ok ==> 0 <= read_components(
            database,
            bytes,
            count,
            seen,
        )->Ok_0.1 <= bytes.len(),
    decreases count,
{
    if count > 0 {
        match read_component(database, bytes) {
            Err(_) => {},
            Ok((component, used)) => {
                if !(lookup(seen, component.0) is Some || used < 0 || used > bytes.len()) {
                    lemma_read_components_bounds(
                        database,
                        bytes.skip(used),
                        (count - 1) as nat,
                        seen.push(component),
                    );
                }
            },
        }
    }
}

} // verus!
