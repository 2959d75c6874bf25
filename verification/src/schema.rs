//! Schema objects: the wire-level form of component data.
//!
//! A schema object is an ordered list of entries. Each entry carries a field
//! id and one datum: a primitive of one of fourteen wire kinds, a byte string,
//! or a nested object. A field holds as many values of a kind as there are
//! entries with its id and that kind, in the order in which they were added.

use vstd::prelude::*;
use crate::{ComponentId, FieldId};

verus! {

/// The primitive wire kinds. Kinds that share a value type differ only in how
/// the value travels, so the kind belongs to the schema, not to the value.
#[derive(Clone, Copy, Debug, PartialEq, Eq, Structural)]
pub enum SchemaListType {
    Float,
    Double,
    Int32,
    Int64,
    Uint32,
    Uint64,
    Sint32,
    Sint64,
    Fixed32,
    Fixed64,
    Sfixed32,
    Sfixed64,
    EntityId,
    Enum,
}

/// A primitive value in memory. Floating-point values are held as their bit
/// patterns, so every value compares and round-trips exactly.
#[derive(Clone, Copy, Debug, PartialEq, Eq, Structural)]
pub enum Scalar {
    F32(u32),
    F64(u64),
    I32(i32),
    I64(i64),
    U32(u32),
    U64(u64),
}

/// The value types that primitives have in memory.
#[derive(Clone, Copy, Debug, PartialEq, Eq, Structural)]
pub enum ScalarType {
    F32,
    F64,
    I32,
    I64,
    U32,
    U64,
}

/// A primitive value tagged with the wire kind it travels as.
#[derive(Clone, Copy, Debug, PartialEq, Eq, Structural)]
pub enum SchemaPrimitive {
    Float(u32),
    Double(u64),
    Int32(i32),
    Int64(i64),
    Uint32(u32),
    Uint64(u64),
    Sint32(i32),
    Sint64(i64),
    Fixed32(u32),
    Fixed64(u64),
    Sfixed32(i32),
    Sfixed64(i64),
    EntityId(i64),
    Enum(u32),
}

/// What kind of datum an entry carries.
#[derive(Clone, Copy, Debug, PartialEq, Eq, Structural)]
pub enum WireKind {
    Primitive(SchemaListType),
    Bytes,
    Object,
}

impl Scalar {
    /// The value type of this scalar.
    pub open spec fn spec_scalar_type(self) -> ScalarType {
        match self {
            Scalar::F32(_) => ScalarType::F32,
            Scalar::F64(_) => ScalarType::F64,
            Scalar::I32(_) => ScalarType::I32,
            Scalar::I64(_) => ScalarType::I64,
            Scalar::U32(_) => ScalarType::U32,
            Scalar::U64(_) => ScalarType::U64,
        }
    }

    /// The value type of this scalar.
    #[verifier::when_used_as_spec(spec_scalar_type)]
    pub fn scalar_type(self) -> (t: ScalarType)
        ensures
            t == self.spec_scalar_type(),
    {
        match self {
            Scalar::F32(_) => ScalarType::F32,
            Scalar::F64(_) => ScalarType::F64,
            Scalar::I32(_) => ScalarType::I32,
            Scalar::I64(_) => ScalarType::I64,
            Scalar::U32(_) => ScalarType::U32,
            Scalar::U64(_) => ScalarType::U64,
        }
    }
}

impl SchemaListType {
    /// The value type that a primitive of this kind has in memory.
    pub open spec fn spec_scalar_type(self) -> ScalarType {
        match self {
            SchemaListType::Float => ScalarType::F32,
            SchemaListType::Double => ScalarType::F64,
            SchemaListType::Int32 | SchemaListType::Sint32 | SchemaListType::Sfixed32 => ScalarType::I32,
            SchemaListType::Int64 | SchemaListType::Sint64 | SchemaListType::Sfixed64
            | SchemaListType::EntityId => ScalarType::I64,
            SchemaListType::Uint32 | SchemaListType::Fixed32 | SchemaListType::Enum => ScalarType::U32,
            SchemaListType::Uint64 | SchemaListType::Fixed64 => ScalarType::U64,
        }
    }

    /// The value type that a primitive of this kind has in memory.
    #[verifier::when_used_as_spec(spec_scalar_type)]
    pub fn scalar_type(self) -> (t: ScalarType)
        ensures
            t == self.spec_scalar_type(),
    {
        match self {
            SchemaListType::Float => ScalarType::F32,
            SchemaListType::Double => ScalarType::F64,
            SchemaListType::Int32 | SchemaListType::Sint32 | SchemaListType::Sfixed32 => ScalarType::I32,
            SchemaListType::Int64 | SchemaListType::Sint64 | SchemaListType::Sfixed64
            | SchemaListType::EntityId => ScalarType::I64,
            SchemaListType::Uint32 | SchemaListType::Fixed32 | SchemaListType::Enum => ScalarType::U32,
            SchemaListType::Uint64 | SchemaListType::Fixed64 => ScalarType::U64,
        }
    }

    /// The primitive that carries `value` as this kind. Meaningful where the
    /// value's type is the kind's type; elsewhere the kind's zero.
    pub open spec fn spec_wrap(self, value: Scalar) -> SchemaPrimitive {
        match (self, value) {
            (SchemaListType::Float, Scalar::F32(x)) => SchemaPrimitive::Float(x),
            (SchemaListType::Double, Scalar::F64(x)) => SchemaPrimitive::Double(x),
            (SchemaListType::Int32, Scalar::I32(x)) => SchemaPrimitive::Int32(x),
            (SchemaListType::Int64, Scalar::I64(x)) => SchemaPrimitive::Int64(x),
            (SchemaListType::Uint32, Scalar::U32(x)) => SchemaPrimitive::Uint32(x),
            (SchemaListType::Uint64, Scalar::U64(x)) => SchemaPrimitive::Uint64(x),
            (SchemaListType::Sint32, Scalar::I32(x)) => SchemaPrimitive::Sint32(x),
            (SchemaListType::Sint64, Scalar::I64(x)) => SchemaPrimitive::Sint64(x),
            (SchemaListType::Fixed32, Scalar::U32(x)) => SchemaPrimitive::Fixed32(x),
            (SchemaListType::Fixed64, Scalar::U64(x)) => SchemaPrimitive::Fixed64(x),
            (SchemaListType::Sfixed32, Scalar::I32(x)) => SchemaPrimitive::Sfixed32(x),
            (SchemaListType::Sfixed64, Scalar::I64(x)) => SchemaPrimitive::Sfixed64(x),
            (SchemaListType::EntityId, Scalar::I64(x)) => SchemaPrimitive::EntityId(x),
            (SchemaListType::Enum, Scalar::U32(x)) => SchemaPrimitive::Enum(x),
            _ => self.spec_zero(),
        }
    }

    /// The primitive of this kind whose value is zero.
    pub open spec fn spec_zero(self) -> SchemaPrimitive {
        match self {
            SchemaListType::Float => SchemaPrimitive::Float(0),
            SchemaListType::Double => SchemaPrimitive::Double(0),
            SchemaListType::Int32 => SchemaPrimitive::Int32(0),
            SchemaListType::Int64 => SchemaPrimitive::Int64(0),
            SchemaListType::Uint32 => SchemaPrimitive::Uint32(0),
            SchemaListType::Uint64 => SchemaPrimitive::Uint64(0),
            SchemaListType::Sint32 => SchemaPrimitive::Sint32(0),
            SchemaListType::Sint64 => SchemaPrimitive::Sint64(0),
            SchemaListType::Fixed32 => SchemaPrimitive::Fixed32(0),
            SchemaListType::Fixed64 => SchemaPrimitive::Fixed64(0),
            SchemaListType::Sfixed32 => SchemaPrimitive::Sfixed32(0),
            SchemaListType::Sfixed64 => SchemaPrimitive::Sfixed64(0),
            SchemaListType::EntityId => SchemaPrimitive::EntityId(0),
            SchemaListType::Enum => SchemaPrimitive::Enum(0),
        }
    }

    /// Tags `value` with this kind. `None` where the value's type is not the
    /// kind's type.
    pub fn wrap(self, value: Scalar) -> (r: Option<SchemaPrimitive>)
        ensures
            r is Some <==> value.scalar_type() == self.scalar_type(),
            r is Some ==> r == Some(self.spec_wrap(value)),
    {
        match (self, value) {
            (SchemaListType::Float, Scalar::F32(x)) => Some(SchemaPrimitive::Float(x)),
            (SchemaListType::Double, Scalar::F64(x)) => Some(SchemaPrimitive::Double(x)),
            (SchemaListType::Int32, Scalar::I32(x)) => Some(SchemaPrimitive::Int32(x)),
            (SchemaListType::Int64, Scalar::I64(x)) => Some(SchemaPrimitive::Int64(x)),
            (SchemaListType::Uint32, Scalar::U32(x)) => Some(SchemaPrimitive::Uint32(x)),
            (SchemaListType::Uint64, Scalar::U64(x)) => Some(SchemaPrimitive::Uint64(x)),
            (SchemaListType::Sint32, Scalar::I32(x)) => Some(SchemaPrimitive::Sint32(x)),
            (SchemaListType::Sint64, Scalar::I64(x)) => Some(SchemaPrimitive::Sint64(x)),
            (SchemaListType::Fixed32, Scalar::U32(x)) => Some(SchemaPrimitive::Fixed32(x)),
            (SchemaListType::Fixed64, Scalar::U64(x)) => Some(SchemaPrimitive::Fixed64(x)),
            (SchemaListType::Sfixed32, Scalar::I32(x)) => Some(SchemaPrimitive::Sfixed32(x)),
            (SchemaListType::Sfixed64, Scalar::I64(x)) => Some(SchemaPrimitive::Sfixed64(x)),
            (SchemaListType::EntityId, Scalar::I64(x)) => Some(SchemaPrimitive::EntityId(x)),
            (SchemaListType::Enum, Scalar::U32(x)) => Some(SchemaPrimitive::Enum(x)),
            _ => None,
        }
    }
}

impl SchemaPrimitive {
    /// The wire kind of this primitive.
    pub open spec fn spec_kind(self) -> SchemaListType {
        match self {
            SchemaPrimitive::Float(_) => SchemaListType::Float,
            SchemaPrimitive::Double(_) => SchemaListType::Double,
            SchemaPrimitive::Int32(_) => SchemaListType::Int32,
            SchemaPrimitive::Int64(_) => SchemaListType::Int64,
            SchemaPrimitive::Uint32(_) => SchemaListType::Uint32,
            SchemaPrimitive::Uint64(_) => SchemaListType::Uint64,
            SchemaPrimitive::Sint32(_) => SchemaListType::Sint32,
            SchemaPrimitive::Sint64(_) => SchemaListType::Sint64,
            SchemaPrimitive::Fixed32(_) => SchemaListType::Fixed32,
            SchemaPrimitive::Fixed64(_) => SchemaListType::Fixed64,
            SchemaPrimitive::Sfixed32(_) => SchemaListType::Sfixed32,
            SchemaPrimitive::Sfixed64(_) => SchemaListType::Sfixed64,
            SchemaPrimitive::EntityId(_) => SchemaListType::EntityId,
            SchemaPrimitive::Enum(_) => SchemaListType::Enum,
        }
    }

    /// The wire kind of this primitive.
    #[verifier::when_used_as_spec(spec_kind)]
    pub fn kind(self) -> (k: SchemaListType)
        ensures
            k == self.spec_kind(),
    {
        match self {
            SchemaPrimitive::Float(_) => SchemaListType::Float,
            SchemaPrimitive::Double(_) => SchemaListType::Double,
            SchemaPrimitive::Int32(_) => SchemaListType::Int32,
            SchemaPrimitive::Int64(_) => SchemaListType::Int64,
            SchemaPrimitive::Uint32(_) => SchemaListType::Uint32,
            SchemaPrimitive::Uint64(_) => SchemaListType::Uint64,
            SchemaPrimitive::Sint32(_) => SchemaListType::Sint32,
            SchemaPrimitive::Sint64(_) => SchemaListType::Sint64,
            SchemaPrimitive::Fixed32(_) => SchemaListType::Fixed32,
            SchemaPrimitive::Fixed64(_) => SchemaListType::Fixed64,
            SchemaPrimitive::Sfixed32(_) => SchemaListType::Sfixed32,
            SchemaPrimitive::Sfixed64(_) => SchemaListType::Sfixed64,
            SchemaPrimitive::EntityId(_) => SchemaListType::EntityId,
            SchemaPrimitive::Enum(_) => SchemaListType::Enum,
        }
    }

    /// The value that this primitive carries, without its wire kind.
    pub open spec fn spec_scalar(self) -> Scalar {
        match self {
            SchemaPrimitive::Float(x) => Scalar::F32(x),
            SchemaPrimitive::Double(x) => Scalar::F64(x),
            SchemaPrimitive::Int32(x) | SchemaPrimitive::Sint32(x) | SchemaPrimitive::Sfixed32(x) => Scalar::I32(x),
            SchemaPrimitive::Int64(x) | SchemaPrimitive::Sint64(x) | SchemaPrimitive::Sfixed64(x)
            | SchemaPrimitive::EntityId(x) => Scalar::I64(x),
            SchemaPrimitive::Uint32(x) | SchemaPrimitive::Fixed32(x) | SchemaPrimitive::Enum(x) => Scalar::U32(x),
            SchemaPrimitive::Uint64(x) | SchemaPrimitive::Fixed64(x) => Scalar::U64(x),
        }
    }

    /// The value that this primitive carries, without its wire kind.
    #[verifier::when_used_as_spec(spec_scalar)]
    pub fn scalar(self) -> (s: Scalar)
        ensures
            s == self.spec_scalar(),
    {
        match self {
            SchemaPrimitive::Float(x) => Scalar::F32(x),
            SchemaPrimitive::Double(x) => Scalar::F64(x),
            SchemaPrimitive::Int32(x) | SchemaPrimitive::Sint32(x) | SchemaPrimitive::Sfixed32(x) => Scalar::I32(x),
            SchemaPrimitive::Int64(x) | SchemaPrimitive::Sint64(x) | SchemaPrimitive::Sfixed64(x)
            | SchemaPrimitive::EntityId(x) => Scalar::I64(x),
            SchemaPrimitive::Uint32(x) | SchemaPrimitive::Fixed32(x) | SchemaPrimitive::Enum(x) => Scalar::U32(x),
            SchemaPrimitive::Uint64(x) | SchemaPrimitive::Fixed64(x) => Scalar::U64(x),
        }
    }
}

/// Tagging a scalar with a kind of its own type and reading the value back
/// gives the scalar again, with that kind.
pub proof fn lemma_wrap_scalar(kind: SchemaListType, value: Scalar)
    requires
        value.scalar_type() == kind.scalar_type(),
    ensures
        kind.spec_wrap(value).scalar() == value,
        kind.spec_wrap(value).kind() == kind,
{
}

/// A primitive is its own value tagged with its own kind.
pub proof fn lemma_scalar_wrap(p: SchemaPrimitive)
    ensures
        p.kind().spec_wrap(p.scalar()) == p,
        p.scalar().scalar_type() == p.kind().scalar_type(),
{
}

/// One value on the wire.
#[derive(Debug, PartialEq, Eq)]
pub enum SchemaDatum {
    Primitive(SchemaPrimitive),
    Bytes(Vec<u8>),
    Object(SchemaObject),
}

/// One entry of a schema object: a datum under a field id.
#[derive(Debug, PartialEq, Eq)]
pub struct SchemaEntry {
    pub field: FieldId,
    pub datum: SchemaDatum,
}

/// A schema object: entries in the order in which they were added.
#[derive(Debug, PartialEq, Eq)]
pub struct SchemaObject {
    pub entries: Vec<SchemaEntry>,
}

/// What a [`SchemaDatum`] holds, as a mathematical value.
pub enum DatumView {
    Primitive(SchemaPrimitive),
    Bytes(Seq<u8>),
    Object(Seq<EntryView>),
}

/// What a [`SchemaEntry`] holds, as a mathematical value.
pub struct EntryView {
    pub field: FieldId,
    pub datum: DatumView,
}

impl DatumView {
    /// The wire kind of this datum.
    pub open spec fn kind(self) -> WireKind {
        match self {
            DatumView::Primitive(p) => WireKind::Primitive(p.kind()),
            DatumView::Bytes(_) => WireKind::Bytes,
            DatumView::Object(_) => WireKind::Object,
        }
    }
}

impl SchemaDatum {
    /// What the datum holds.
    pub open spec fn view(&self) -> DatumView
        decreases self,
    {
        match self {
            SchemaDatum::Primitive(p) => DatumView::Primitive(*p),
            SchemaDatum::Bytes(b) => DatumView::Bytes(b@),
            SchemaDatum::Object(o) => DatumView::Object(
                Seq::new(
                    o.entries.len() as nat,
                    |i: int|
                        if 0 <= i < o.entries.len() {
                            EntryView { field: o.entries[i].field, datum: o.entries[i].datum.view() }
                        } else {
                            arbitrary()
                        },
                ),
            ),
        }
    }

    /// The wire kind of this datum.
    pub fn kind(&self) -> (k: WireKind)
        ensures
            k == self@.kind(),
    {
        match self {
            SchemaDatum::Primitive(p) => WireKind::Primitive(p.kind()),
            SchemaDatum::Bytes(_) => WireKind::Bytes,
            SchemaDatum::Object(_) => WireKind::Object,
        }
    }
}

impl SchemaEntry {
    /// What the entry holds.
    pub open spec fn view(&self) -> EntryView {
        EntryView { field: self.field, datum: self.datum@ }
    }
}

/// The data of kind `kind` that `entries` hold under `field`, in entry order.
pub open spec fn select(entries: Seq<EntryView>, field: FieldId, kind: WireKind) -> Seq<DatumView>
    decreases entries.len(),
{
    if entries.len() == 0 {
        Seq::empty()
    } else {
        let rest = select(entries.drop_last(), field, kind);
        let last = entries.last();
        if last.field == field && last.datum.kind() == kind {
            rest.push(last.datum)
        } else {
            rest
        }
    }
}

/// The entries that put each datum of `data` under `field`, in order.
pub open spec fn tagged(field: FieldId, data: Seq<DatumView>) -> Seq<EntryView> {
    Seq::new(data.len(), |i: int| EntryView { field, datum: data[i] })
}

/// Selecting from a list with one more entry adds that entry's datum where
/// the entry has the field and the kind, and nothing otherwise.
pub proof fn lemma_select_push(entries: Seq<EntryView>, entry: EntryView, field: FieldId, kind: WireKind)
    ensures
        select(entries.push(entry), field, kind) == if entry.field == field && entry.datum.kind() == kind {
            select(entries, field, kind).push(entry.datum)
        } else {
            select(entries, field, kind)
        },
{
    assert(entries.push(entry).drop_last() =~= entries);
}

/// Selecting from two lists in a row gives the two selections in a row.
pub proof fn lemma_select_add(a: Seq<EntryView>, b: Seq<EntryView>, field: FieldId, kind: WireKind)
    ensures
        select(a + b, field, kind) == select(a, field, kind) + select(b, field, kind),
    decreases b.len(),
{
    if b.len() == 0 {
        assert(a + b =~= a);
        assert(select(a, field, kind) + select(b, field, kind) =~= select(a, field, kind));
    } else {
        lemma_select_add(a, b.drop_last(), field, kind);
        assert((a + b).drop_last() =~= a + b.drop_last());
        assert(select(a + b, field, kind) =~= select(a, field, kind) + select(b, field, kind));
    }
}

/// Selecting from a prefix gives a prefix of the selection.
pub proof fn lemma_select_take(entries: Seq<EntryView>, n: int, field: FieldId, kind: WireKind)
    requires
        0 <= n <= entries.len(),
    ensures
        select(entries.take(n), field, kind).is_prefix_of(select(entries, field, kind)),
{
    assert(entries =~= entries.take(n) + entries.skip(n));
    lemma_select_add(entries.take(n), entries.skip(n), field, kind);
}

/// Entries under one field hold all their data of the kind that the data
/// have, and nothing under another field or of another kind.
pub proof fn lemma_select_tagged(tag: FieldId, data: Seq<DatumView>, field: FieldId, kind: WireKind)
    ensures
        (tag != field || forall|i: int| 0 <= i < data.len() ==> data[i].kind() != kind) ==> select(
            tagged(tag, data),
            field,
            kind,
        ) == Seq::<DatumView>::empty(),
        (tag == field && forall|i: int| 0 <= i < data.len() ==> data[i].kind() == kind) ==> select(
            tagged(tag, data),
            field,
            kind,
        ) == data,
    decreases data.len(),
{
    if data.len() == 0 {
        assert(select(tagged(tag, data), field, kind) =~= data);
    } else {
        lemma_select_tagged(tag, data.drop_last(), field, kind);
        assert(tagged(tag, data).drop_last() =~= tagged(tag, data.drop_last()));
        if tag == field && forall|i: int| 0 <= i < data.len() ==> data[i].kind() == kind {
            assert(forall|i: int| 0 <= i < data.drop_last().len() ==> data.drop_last()[i].kind() == kind);
            assert(select(tagged(tag, data), field, kind) =~= data);
        }
        if tag != field || forall|i: int| 0 <= i < data.len() ==> data[i].kind() != kind {
            assert(tag != field || forall|i: int|
                0 <= i < data.drop_last().len() ==> data.drop_last()[i].kind() != kind);
        }
    }
}

impl SchemaObject {
    /// The entries of the object, in order.
    pub open spec fn view(&self) -> Seq<EntryView> {
        Seq::new(self.entries.len() as nat, |i: int| self.entries[i]@)
    }

    /// A schema object without entries.
    pub fn new() -> (object: SchemaObject)
        ensures
            object@ == Seq::<EntryView>::empty(),
    {
        let object = SchemaObject { entries: Vec::new() };
        assert(object@ =~= Seq::<EntryView>::empty());
        object
    }

    /// The number of entries, of every field and kind.
    pub fn len(&self) -> (n: usize)
        ensures
            n == self@.len(),
    {
        self.entries.len()
    }

    /// Adds one datum under `field`, after the entries that are there.
    pub fn add(&mut self, field: FieldId, datum: SchemaDatum)
        ensures
            final(self)@ == old(self)@.push(EntryView { field, datum: datum@ }),
    {
        self.entries.push(SchemaEntry { field, datum });
        assert(self@ =~= old(self)@.push(EntryView { field, datum: datum@ }));
    }

    /// How many values of kind `kind` the field `field` holds.
    pub fn field_count(&self, field: FieldId, kind: WireKind) -> (count: usize)
        ensures
            count == select(self@, field, kind).len(),
    {
        let mut count: usize = 0;
        let mut i: usize = 0;
        while i < self.entries.len()
            invariant
                i <= self.entries.len(),
                count == select(self@.take(i as int), field, kind).len(),
                count <= i,
            decreases self.entries.len() - i,
        {
            proof {
                assert(self@.take(i + 1) =~= self@.take(i as int).push(self@[i as int]));
                lemma_select_push(self@.take(i as int), self@[i as int], field, kind);
            }
            if self.entries[i].field == field && self.entries[i].datum.kind() == kind {
                count += 1;
            }
            i += 1;
        }
        assert(self@.take(i as int) =~= self@);
        count
    }

    /// The value at position `index` among the values of kind `kind` that the
    /// field `field` holds.
    pub fn index_field(&self, field: FieldId, kind: WireKind, index: usize) -> (datum: &SchemaDatum)
        requires
            index < select(self@, field, kind).len(),
        ensures
            datum@ == select(self@, field, kind)[index as int],
    {
        let mut count: usize = 0;
        let mut i: usize = 0;
        loop
            invariant
                i <= self.entries.len(),
                count == select(self@.take(i as int), field, kind).len(),
                count <= index,
                index < select(self@, field, kind).len(),
            decreases self.entries.len() - i,
        {
            proof {
                if i == self.entries.len() {
                    assert(self@.take(i as int) =~= self@);
                }
            }
            assert(i < self.entries.len());
            proof {
                assert(self@.take(i + 1) =~= self@.take(i as int).push(self@[i as int]));
                lemma_select_push(self@.take(i as int), self@[i as int], field, kind);
                lemma_select_take(self@, i + 1, field, kind);
            }
            if self.entries[i].field == field && self.entries[i].datum.kind() == kind {
                if count == index {
                    proof {
                        let prefix = select(self@.take(i + 1), field, kind);
                        assert(prefix[index as int] == self@[i as int].datum);
                        assert(prefix[index as int] == select(self@, field, kind)[index as int]);
                    }
                    return &self.entries[i].datum;
                }
                count += 1;
            }
            i += 1;
        }
    }
}

/// The view of a nested object is the view of the object inside.
pub proof fn lemma_object_datum_view(datum: &SchemaDatum)
    requires
        datum is Object,
    ensures
        datum@ == DatumView::Object(datum->Object_0@),
{
    let o = datum->Object_0;
    assert(datum@->Object_0 =~= o@);
}

/// The data of a component in wire form: the object that holds its fields.
#[derive(Debug, PartialEq, Eq)]
pub struct SchemaComponentData {
    pub component_id: ComponentId,
    pub fields: SchemaObject,
}

impl SchemaComponentData {
    /// Data for the component `component_id`, without any field.
    pub fn new(component_id: ComponentId) -> (data: SchemaComponentData)
        ensures
            data.component_id == component_id,
            data.fields@ == Seq::<EntryView>::empty(),
    {
        SchemaComponentData { component_id, fields: SchemaObject::new() }
    }

    /// The component that the data belong to.
    pub fn component_id(&self) -> (id: ComponentId)
        ensures
            id == self.component_id,
    {
        self.component_id
    }

    /// The object that holds the fields.
    pub fn fields(&self) -> (fields: &SchemaObject)
        ensures
            *fields == self.fields,
    {
        &self.fields
    }

    /// The object that holds the fields, to write to. What is written there
    /// is what the data hold afterwards; the component stays the same.
    pub fn fields_mut(&mut self) -> (fields: &mut SchemaObject)
        ensures
            *fields == old(self).fields,
            final(self).fields == *final(fields),
            final(self).component_id == old(self).component_id,
    {
        &mut self.fields
    }
}

/// An update of a component in wire form: the object that holds the changed
/// fields and the object that holds the events.
#[derive(Debug, PartialEq, Eq)]
pub struct SchemaComponentUpdate {
    pub component_id: ComponentId,
    pub fields: SchemaObject,
    pub events: SchemaObject,
}

impl SchemaComponentUpdate {
    /// An update for the component `component_id`, without any field or
    /// event.
    pub fn new(component_id: ComponentId) -> (update: SchemaComponentUpdate)
        ensures
            update.component_id == component_id,
            update.fields@ == Seq::<EntryView>::empty(),
            update.events@ == Seq::<EntryView>::empty(),
    {
        SchemaComponentUpdate { component_id, fields: SchemaObject::new(), events: SchemaObject::new() }
    }

    /// The component that the update belongs to.
    pub fn component_id(&self) -> (id: ComponentId)
        ensures
            id == self.component_id,
    {
        self.component_id
    }

    /// The object that holds the changed fields.
    pub fn fields(&self) -> (fields: &SchemaObject)
        ensures
            *fields == self.fields,
    {
        &self.fields
    }

    /// The object that holds the changed fields, to write to. Nothing else
    /// of the update changes.
    pub fn fields_mut(&mut self) -> (fields: &mut SchemaObject)
        ensures
            *fields == old(self).fields,
            final(self).fields == *final(fields),
            final(self).events == old(self).events,
            final(self).component_id == old(self).component_id,
    {
        &mut self.fields
    }

    /// The object that holds the events.
    pub fn events(&self) -> (events: &SchemaObject)
        ensures
            *events == self.events,
    {
        &self.events
    }

    /// The object that holds the events, to write to. Nothing else of the
    /// update changes.
    pub fn events_mut(&mut self) -> (events: &mut SchemaObject)
        ensures
            *events == old(self).events,
            final(self).events == *final(events),
            final(self).fields == old(self).fields,
            final(self).component_id == old(self).component_id,
    {
        &mut self.events
    }
}

/// A command request in wire form: the object that holds its arguments.
#[derive(Debug, PartialEq, Eq)]
pub struct SchemaCommandRequest {
    pub component_id: ComponentId,
    pub command_index: FieldId,
    pub object: SchemaObject,
}

impl SchemaCommandRequest {
    /// A request for the command `command_index` of the component
    /// `component_id`, without any argument.
    pub fn new(component_id: ComponentId, command_index: FieldId) -> (request: SchemaCommandRequest)
        ensures
            request.component_id == component_id,
            request.command_index == command_index,
            request.object@ == Seq::<EntryView>::empty(),
    {
        SchemaCommandRequest { component_id, command_index, object: SchemaObject::new() }
    }

    /// The component that the command belongs to.
    pub fn component_id(&self) -> (id: ComponentId)
        ensures
            id == self.component_id,
    {
        self.component_id
    }

    /// Which of the component's commands is requested.
    pub fn command_index(&self) -> (index: FieldId)
        ensures
            index == self.command_index,
    {
        self.command_index
    }

    /// The object that holds the arguments.
    pub fn object(&self) -> (object: &SchemaObject)
        ensures
            *object == self.object,
    {
        &self.object
    }

    /// The object that holds the arguments, to write to. Nothing else of the
    /// request changes.
    pub fn object_mut(&mut self) -> (object: &mut SchemaObject)
        ensures
            *object == old(self).object,
            final(self).object == *final(object),
            final(self).component_id == old(self).component_id,
            final(self).command_index == old(self).command_index,
    {
        &mut self.object
    }
}

/// A command response in wire form: the object that holds its result.
#[derive(Debug, PartialEq, Eq)]
pub struct SchemaCommandResponse {
    pub component_id: ComponentId,
    pub command_index: FieldId,
    pub object: SchemaObject,
}

impl SchemaCommandResponse {
    /// A response to the command `command_index` of the component
    /// `component_id`, without any result.
    pub fn new(component_id: ComponentId, command_index: FieldId) -> (response: SchemaCommandResponse)
        ensures
            response.component_id == component_id,
            response.command_index == command_index,
            response.object@ == Seq::<EntryView>::empty(),
    {
        SchemaCommandResponse { component_id, command_index, object: SchemaObject::new() }
    }

    /// The component that the command belongs to.
    pub fn component_id(&self) -> (id: ComponentId)
        ensures
            id == self.component_id,
    {
        self.component_id
    }

    /// Which of the component's commands is answered.
    pub fn command_index(&self) -> (index: FieldId)
        ensures
            index == self.command_index,
    {
        self.command_index
    }

    /// The object that holds the result.
    pub fn object(&self) -> (object: &SchemaObject)
        ensures
            *object == self.object,
    {
        &self.object
    }

    /// The object that holds the result, to write to. Nothing else of the
    /// response changes.
    pub fn object_mut(&mut self) -> (object: &mut SchemaObject)
        ensures
            *object == old(self).object,
            final(self).object == *final(object),
            final(self).component_id == old(self).component_id,
            final(self).command_index == old(self).command_index,
    {
        &mut self.object
    }
}

} // verus!
