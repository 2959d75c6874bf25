//! Typed values and the closed set of types that the codec knows.

use vstd::prelude::*;
use vstd::string::StringSliceAdditionalSpecFns;
use vstd::utf8::encode_utf8;
use crate::order::{
    bytes_less, bytes_lt, lemma_bytes_lt_asymmetric, lemma_bytes_lt_total, lemma_bytes_lt_transitive,
};
use crate::FieldId;
use crate::schema::{Scalar, ScalarType, SchemaListType, WireKind};

verus! {

/// A typed value in memory.
///
/// Which values a field may hold is fixed by its [`SchemaType`]; see
/// [`SchemaType::admits`].
#[derive(Debug, PartialEq, Eq)]
pub enum Value {
    /// A primitive.
    Scalar(Scalar),
    /// A byte string.
    Bytes(Vec<u8>),
    /// Text.
    Text(String),
    /// A structure: one value per declared field, in declaration order.
    Object(Vec<Value>),
    /// A value that may be absent.
    Optional(Option<Box<Value>>),
    /// An ordered sequence.
    List(Vec<Value>),
    /// A map, as its entries in increasing key order.
    Mapping(Vec<(Value, Value)>),
}

/// What a [`Value`] holds, as a mathematical value.
pub enum ValueView {
    Scalar(Scalar),
    Bytes(Seq<u8>),
    Text(Seq<char>),
    Object(Seq<ValueView>),
    Optional(Option<Box<ValueView>>),
    List(Seq<ValueView>),
    Mapping(Seq<(ValueView, ValueView)>),
}

impl Value {
    /// What the value holds.
    pub open spec fn view(&self) -> ValueView
        decreases self,
    {
        match self {
            Value::Scalar(s) => ValueView::Scalar(*s),
            Value::Bytes(b) => ValueView::Bytes(b@),
            Value::Text(t) => ValueView::Text(t@),
            Value::Object(fields) => ValueView::Object(
                Seq::new(
                    fields.len() as nat,
                    |i: int|
                        if 0 <= i < fields.len() {
                            fields[i].view()
                        } else {
                            arbitrary()
                        },
                ),
            ),
            Value::Optional(o) => ValueView::Optional(
                match o {
                    None => None,
                    Some(b) => Some(Box::new(b.view())),
                },
            ),
            Value::List(items) => ValueView::List(
                Seq::new(
                    items.len() as nat,
                    |i: int|
                        if 0 <= i < items.len() {
                            items[i].view()
                        } else {
                            arbitrary()
                        },
                ),
            ),
            Value::Mapping(pairs) => ValueView::Mapping(
                Seq::new(
                    pairs.len() as nat,
                    |i: int|
                        if 0 <= i < pairs.len() {
                            (pairs[i].0.view(), pairs[i].1.view())
                        } else {
                            arbitrary()
                        },
                ),
            ),
        }
    }
}

/// The views of the values of a sequence, in order.
pub open spec fn views(values: Seq<Value>) -> Seq<ValueView> {
    Seq::new(values.len(), |i: int| values[i]@)
}

/// The views of the keys and values of a sequence of pairs, in order.
pub open spec fn pair_views(pairs: Seq<(Value, Value)>) -> Seq<(ValueView, ValueView)> {
    Seq::new(pairs.len(), |i: int| (pairs[i].0@, pairs[i].1@))
}

/// The view of a compound value is made of the views of its parts.
pub proof fn lemma_value_view(value: &Value)
    ensures
        value is Object ==> value@ == ValueView::Object(views(value->Object_0@)),
        value is List ==> value@ == ValueView::List(views(value->List_0@)),
        value is Mapping ==> value@ == ValueView::Mapping(pair_views(value->Mapping_0@)),
{
    match value {
        Value::Object(fields) => {
            assert(value@->Object_0 =~= views(fields@));
        },
        Value::List(items) => {
            assert(value@->List_0 =~= views(items@));
        },
        Value::Mapping(pairs) => {
            assert(value@->Mapping_0 =~= pair_views(pairs@));
        },
        _ => {},
    }
}

/// A type whose values can stand as one entry of a field, and so can be
/// repeated under one field id.
#[derive(Debug, PartialEq, Eq)]
pub enum SchemaIndexType {
    /// A primitive that travels as the given wire kind.
    Primitive(SchemaListType),
    /// A byte string.
    Bytes,
    /// Text, carried as the bytes of its UTF-8 encoding.
    Text,
    /// A nested structure.
    Object(SchemaObjectType),
}

/// The type of a field.
#[derive(Debug, PartialEq, Eq)]
pub enum SchemaType {
    /// Exactly one value.
    Required(SchemaIndexType),
    /// At most one value.
    Optional(SchemaIndexType),
    /// Any number of values, in order.
    List(SchemaIndexType),
    /// A map from keys of the first type to values of the second.
    Mapping(SchemaIndexType, SchemaIndexType),
}

/// One declared field of a structure.
#[derive(Debug, PartialEq, Eq)]
pub struct FieldDefinition {
    pub field_id: FieldId,
    pub ty: SchemaType,
}

/// The type of a structure: its declared fields, in declaration order.
#[derive(Debug, PartialEq, Eq)]
pub struct SchemaObjectType {
    pub fields: Vec<FieldDefinition>,
}

/// The order of map keys: numeric order between two integers of one type,
/// lexicographic order between two byte strings, and between two texts the
/// lexicographic order of their UTF-8 encodings. Nothing else is ordered.
pub open spec fn key_lt(a: ValueView, b: ValueView) -> bool {
    match (a, b) {
        (ValueView::Scalar(Scalar::I32(x)), ValueView::Scalar(Scalar::I32(y))) => x < y,
        (ValueView::Scalar(Scalar::I64(x)), ValueView::Scalar(Scalar::I64(y))) => x < y,
        (ValueView::Scalar(Scalar::U32(x)), ValueView::Scalar(Scalar::U32(y))) => x < y,
        (ValueView::Scalar(Scalar::U64(x)), ValueView::Scalar(Scalar::U64(y))) => x < y,
        (ValueView::Bytes(x), ValueView::Bytes(y)) => bytes_lt(x, y),
        (ValueView::Text(x), ValueView::Text(y)) => bytes_lt(encode_utf8(x), encode_utf8(y)),
        _ => false,
    }
}

/// Whether the keys of `pairs` increase strictly from each entry to every
/// later one.
pub open spec fn keys_increase(pairs: Seq<(ValueView, ValueView)>) -> bool {
    forall|i: int, j: int| 0 <= i < j < pairs.len() ==> key_lt(#[trigger] pairs[i].0, #[trigger] pairs[j].0)
}

/// Whether every two of `fields` have different ids.
pub open spec fn ids_distinct(fields: Seq<FieldDefinition>) -> bool {
    forall|i: int, j: int|
        0 <= i < j < fields.len() ==> (#[trigger] fields[i]).field_id != (#[trigger] fields[j]).field_id
}

/// Whether `fields` admit `values`: as many values as fields, each admitted
/// by the type of the field at its position.
pub open spec fn fields_admit(fields: Seq<FieldDefinition>, values: Seq<ValueView>) -> bool
    decreases fields,
{
    &&& values.len() == fields.len()
    &&& forall|i: int| 0 <= i < fields.len() ==> (#[trigger] fields[i]).ty.admits(values[i])
}

/// Whether every field type of `fields` is well formed.
pub open spec fn fields_wf(fields: Seq<FieldDefinition>) -> bool
    decreases fields,
{
    forall|i: int| 0 <= i < fields.len() ==> (#[trigger] fields[i]).ty.wf()
}

impl SchemaIndexType {
    /// The wire kind of the entries that carry values of this type.
    pub open spec fn spec_wire_kind(&self) -> WireKind {
        match self {
            SchemaIndexType::Primitive(kind) => WireKind::Primitive(*kind),
            SchemaIndexType::Bytes => WireKind::Bytes,
            SchemaIndexType::Text => WireKind::Bytes,
            SchemaIndexType::Object(_) => WireKind::Object,
        }
    }

    /// The wire kind of the entries that carry values of this type.
    #[verifier::when_used_as_spec(spec_wire_kind)]
    pub fn wire_kind(&self) -> (kind: WireKind)
        ensures
            kind == self.spec_wire_kind(),
    {
        match self {
            SchemaIndexType::Primitive(kind) => WireKind::Primitive(*kind),
            SchemaIndexType::Bytes => WireKind::Bytes,
            SchemaIndexType::Text => WireKind::Bytes,
            SchemaIndexType::Object(_) => WireKind::Object,
        }
    }

    /// Whether this type is well formed: every structure inside it is.
    pub open spec fn wf(&self) -> bool
        decreases self,
    {
        match self {
            SchemaIndexType::Object(object_type) => ids_distinct(object_type.fields@) && fields_wf(
                object_type.fields@,
            ),
            _ => true,
        }
    }

    /// Whether values of this type can be map keys.
    pub open spec fn spec_is_key(&self) -> bool {
        match self {
            SchemaIndexType::Primitive(kind) => kind.scalar_type() != ScalarType::F32 && kind.scalar_type()
                != ScalarType::F64,
            SchemaIndexType::Bytes => true,
            SchemaIndexType::Text => true,
            SchemaIndexType::Object(_) => false,
        }
    }

    /// Whether values of this type can be map keys: the integer primitives,
    /// byte strings and texts.
    #[verifier::when_used_as_spec(spec_is_key)]
    pub fn is_key(&self) -> (r: bool)
        ensures
            r == self.spec_is_key(),
    {
        match self {
            SchemaIndexType::Primitive(kind) => {
                let t = kind.scalar_type();
                t != ScalarType::F32 && t != ScalarType::F64
            },
            SchemaIndexType::Bytes => true,
            SchemaIndexType::Text => true,
            SchemaIndexType::Object(_) => false,
        }
    }

    /// Whether `value` is a value of this type.
    pub open spec fn admits(&self, value: ValueView) -> bool
        decreases self,
    {
        match self {
            SchemaIndexType::Primitive(kind) => value is Scalar && value->Scalar_0.scalar_type()
                == kind.scalar_type(),
            SchemaIndexType::Bytes => value is Bytes,
            SchemaIndexType::Text => value is Text,
            SchemaIndexType::Object(object_type) => value is Object && fields_admit(
                object_type.fields@,
                value->Object_0,
            ),
        }
    }
}

impl SchemaType {
    /// Whether this type is well formed: every structure inside it is, and a
    /// map's key type can be a key.
    pub open spec fn wf(&self) -> bool
        decreases self,
    {
        match self {
            SchemaType::Required(t) => t.wf(),
            SchemaType::Optional(t) => t.wf(),
            SchemaType::List(t) => t.wf(),
            SchemaType::Mapping(k, t) => k.is_key() && k.wf() && t.wf(),
        }
    }

    /// Whether `value` is a value of this type.
    pub open spec fn admits(&self, value: ValueView) -> bool
        decreases self,
    {
        match self {
            SchemaType::Required(t) => t.admits(value),
            SchemaType::Optional(t) => value is Optional && match value->Optional_0 {
                None => true,
                Some(inner) => t.admits(*inner),
            },
            SchemaType::List(t) => value is List && forall|i: int|
                0 <= i < value->List_0.len() ==> t.admits(#[trigger] value->List_0[i]),
            SchemaType::Mapping(k, t) => {
                &&& value is Mapping
                &&& forall|i: int|
                    0 <= i < value->Mapping_0.len() ==> k.admits((#[trigger] value->Mapping_0[i]).0)
                        && t.admits(value->Mapping_0[i].1)
                &&& keys_increase(value->Mapping_0)
            },
        }
    }
}

impl SchemaObjectType {
    /// Whether this type is well formed: no two fields share an id, and every
    /// field type is well formed.
    pub open spec fn wf(&self) -> bool {
        ids_distinct(self.fields@) && fields_wf(self.fields@)
    }

    /// Whether `value` is a structure of this type.
    pub open spec fn admits(&self, value: ValueView) -> bool {
        value is Object && fields_admit(self.fields@, value->Object_0)
    }
}

impl Clone for Value {
    /// A deep copy: the copy holds what this value holds.
    fn clone(&self) -> (copy: Value)
        ensures
            copy@ == self@,
        decreases self,
    {
        match self {
            Value::Scalar(s) => Value::Scalar(*s),
            Value::Bytes(b) => Value::Bytes(b.clone()),
            Value::Text(t) => Value::Text(t.clone()),
            Value::Object(fields) => {
                let copies = clone_values(fields);
                let copy = Value::Object(copies);
                proof {
                    lemma_value_view(self);
                    lemma_value_view(&copy);
                }
                copy
            },
            Value::Optional(None) => Value::Optional(None),
            Value::Optional(Some(inner)) => {
                let copy = Value::Optional(Some(Box::new((**inner).clone())));
                copy
            },
            Value::List(items) => {
                let copies = clone_values(items);
                let copy = Value::List(copies);
                proof {
                    lemma_value_view(self);
                    lemma_value_view(&copy);
                }
                copy
            },
            Value::Mapping(pairs) => {
                let mut copies: Vec<(Value, Value)> = Vec::new();
                let mut i: usize = 0;
                while i < pairs.len()
                    invariant
                        i <= pairs.len(),
                        self->Mapping_0 == *pairs,
                        self is Mapping,
                        copies.len() == i,
                        pair_views(copies@) == pair_views(pairs@).take(i as int),
                    decreases pairs.len() - i,
                {
                    let key = pairs[i].0.clone();
                    let value = pairs[i].1.clone();
                    copies.push((key, value));
                    i += 1;
                    assert(pair_views(copies@) =~= pair_views(pairs@).take(i as int));
                }
                let copy = Value::Mapping(copies);
                proof {
                    assert(pair_views(pairs@).take(i as int) =~= pair_views(pairs@));
                    lemma_value_view(self);
                    lemma_value_view(&copy);
                }
                copy
            },
        }
    }
}

/// Deep copies of `values`, in order.
fn clone_values(values: &Vec<Value>) -> (copies: Vec<Value>)
    ensures
        views(copies@) == views(values@),
    decreases values,
{
    let mut copies: Vec<Value> = Vec::new();
    let mut i: usize = 0;
    while i < values.len()
        invariant
            i <= values.len(),
            copies.len() == i,
            views(copies@) == views(values@).take(i as int),
        decreases values.len() - i,
    {
        copies.push(values[i].clone());
        i += 1;
        assert(views(copies@) =~= views(values@).take(i as int));
    }
    assert(views(values@).take(i as int) =~= views(values@));
    copies
}

/// Whether `a` comes strictly before `b` in the order of map keys.
pub fn key_less(a: &Value, b: &Value) -> (r: bool)
    ensures
        r == key_lt(a@, b@),
{
    match (a, b) {
        (Value::Scalar(Scalar::I32(x)), Value::Scalar(Scalar::I32(y))) => *x < *y,
        (Value::Scalar(Scalar::I64(x)), Value::Scalar(Scalar::I64(y))) => *x < *y,
        (Value::Scalar(Scalar::U32(x)), Value::Scalar(Scalar::U32(y))) => *x < *y,
        (Value::Scalar(Scalar::U64(x)), Value::Scalar(Scalar::U64(y))) => *x < *y,
        (Value::Bytes(x), Value::Bytes(y)) => bytes_less(x.as_slice(), y.as_slice()),
        (Value::Text(x), Value::Text(y)) => bytes_less(x.as_str().as_bytes(), y.as_str().as_bytes()),
        _ => false,
    }
}

/// Among keys of one key type, the order is transitive.
pub proof fn lemma_key_lt_transitive(key_type: &SchemaIndexType, a: ValueView, b: ValueView, c: ValueView)
    requires
        key_type.is_key(),
        key_type.admits(a),
        key_type.admits(b),
        key_type.admits(c),
        key_lt(a, b),
        key_lt(b, c),
    ensures
        key_lt(a, c),
{
    match (a, b, c) {
        (ValueView::Bytes(x), ValueView::Bytes(y), ValueView::Bytes(z)) => {
            lemma_bytes_lt_transitive(x, y, z);
        },
        (ValueView::Text(x), ValueView::Text(y), ValueView::Text(z)) => {
            lemma_bytes_lt_transitive(encode_utf8(x), encode_utf8(y), encode_utf8(z));
        },
        _ => {},
    }
}

/// Of two keys of one key type, one comes before the other or they are the
/// same key.
pub proof fn lemma_key_lt_total(key_type: &SchemaIndexType, a: ValueView, b: ValueView)
    requires
        key_type.is_key(),
        key_type.admits(a),
        key_type.admits(b),
    ensures
        key_lt(a, b) || a == b || key_lt(b, a),
        !(key_lt(a, b) && key_lt(b, a)),
        !key_lt(a, a),
{
    match (a, b) {
        (ValueView::Bytes(x), ValueView::Bytes(y)) => {
            lemma_bytes_lt_total(x, y);
            lemma_bytes_lt_asymmetric(x, y);
        },
        (ValueView::Text(x), ValueView::Text(y)) => {
            lemma_bytes_lt_total(encode_utf8(x), encode_utf8(y));
            lemma_bytes_lt_asymmetric(encode_utf8(x), encode_utf8(y));
            vstd::utf8::encode_utf8_decode_utf8(x);
            vstd::utf8::encode_utf8_decode_utf8(y);
        },
        _ => {},
    }
}

impl SchemaIndexType {
    /// Whether `value` is a value of this type.
    pub fn conforms(&self, value: &Value) -> (r: bool)
        ensures
            r == self.admits(value@),
        decreases self,
    {
        match self {
            SchemaIndexType::Primitive(kind) => match value {
                Value::Scalar(s) => s.scalar_type() == kind.scalar_type(),
                _ => false,
            },
            SchemaIndexType::Bytes => match value {
                Value::Bytes(_) => true,
                _ => false,
            },
            SchemaIndexType::Text => match value {
                Value::Text(_) => true,
                _ => false,
            },
            SchemaIndexType::Object(object_type) => {
                assert(self->Object_0 == *object_type);
                object_type.conforms(value)
            },
        }
    }
}

impl SchemaObjectType {
    /// Whether `value` is a structure of this type.
    #[verifier::loop_isolation(false)]
    pub fn conforms(&self, value: &Value) -> (r: bool)
        ensures
            r == self.admits(value@),
        decreases self,
    {
        match value {
            Value::Object(values) => {
                proof {
                    lemma_value_view(value);
                }
                if values.len() != self.fields.len() {
                    return false;
                }
                let mut i: usize = 0;
                while i < self.fields.len()
                    invariant
                        i <= self.fields.len(),
                        values.len() == self.fields.len(),
                        forall|j: int| 0 <= j < i ==> (#[trigger] self.fields@[j]).ty.admits(values@[j]@),
                    decreases self.fields.len() - i,
                {
                    if !self.fields[i].ty.conforms(&values[i]) {
                        assert(!fields_admit(self.fields@, views(values@))) by {
                            assert(views(values@)[i as int] == values@[i as int]@);
                        }
                        return false;
                    }
                    i += 1;
                }
                assert(fields_admit(self.fields@, views(values@))) by {
                    assert forall|j: int| 0 <= j < self.fields@.len() implies (#[trigger] self.fields@[j]).ty.admits(
                        views(values@)[j],
                    ) by {
                        assert(views(values@)[j] == values@[j]@);
                    }
                }
                true
            },
            _ => false,
        }
    }
}

impl SchemaType {
    /// Whether `value` is a value of this type.
    #[verifier::loop_isolation(false)]
    pub fn conforms(&self, value: &Value) -> (r: bool)
        ensures
            r == self.admits(value@),
        decreases self,
    {
        match self {
            SchemaType::Required(t) => t.conforms(value),
            SchemaType::Optional(t) => match value {
                Value::Optional(None) => true,
                Value::Optional(Some(inner)) => t.conforms(inner),
                _ => false,
            },
            SchemaType::List(t) => match value {
                Value::List(items) => {
                    proof {
                        lemma_value_view(value);
                    }
                    let mut i: usize = 0;
                    while i < items.len()
                        invariant
                            i <= items.len(),
                            self->List_0 == *t,
                            self is List,
                            forall|j: int| 0 <= j < i ==> t.admits(#[trigger] views(items@)[j]),
                        decreases items.len() - i,
                    {
                        if !t.conforms(&items[i]) {
                            assert(views(items@)[i as int] == items@[i as int]@);
                            assert(!t.admits(value@->List_0[i as int]));
                            return false;
                        }
                        assert(views(items@)[i as int] == items@[i as int]@);
                        i += 1;
                    }
                    true
                },
                _ => false,
            },
            SchemaType::Mapping(k, t) => match value {
                Value::Mapping(pairs) => {
                    proof {
                        lemma_value_view(value);
                    }
                    if !k.is_key() {
                        // Keys of this type have no order: no map of two or more entries is in order.
                        let mut i: usize = 0;
                        while i < pairs.len()
                            invariant
                                i <= pairs.len(),
                                self->Mapping_0 == *k,
                                self->Mapping_1 == *t,
                                self is Mapping,
                                forall|j: int|
                                    0 <= j < i ==> k.admits((#[trigger] pair_views(pairs@)[j]).0) && t.admits(
                                        pair_views(pairs@)[j].1,
                                    ),
                            decreases pairs.len() - i,
                        {
                            assert(pair_views(pairs@)[i as int] == (pairs@[i as int].0@, pairs@[i as int].1@));
                            if !k.conforms(&pairs[i].0) || !t.conforms(&pairs[i].1) {
                                return false;
                            }
                            i += 1;
                        }
                        if pairs.len() >= 2 {
                            let ghost p = pair_views(pairs@);
                            assert(!key_lt(p[0].0, p[1].0));
                            return false;
                        }
                        return true;
                    }
                    let mut i: usize = 0;
                    while i < pairs.len()
                        invariant
                            i <= pairs.len(),
                            self->Mapping_0 == *k,
                            self->Mapping_1 == *t,
                            self is Mapping,
                            k.is_key(),
                            forall|j: int|
                                0 <= j < i ==> k.admits((#[trigger] pair_views(pairs@)[j]).0) && t.admits(
                                    pair_views(pairs@)[j].1,
                                ),
                            keys_increase(pair_views(pairs@).take(i as int)),
                        decreases pairs.len() - i,
                    {
                        let ghost p = pair_views(pairs@);
                        assert(p[i as int] == (pairs@[i as int].0@, pairs@[i as int].1@));
                        if !k.conforms(&pairs[i].0) || !t.conforms(&pairs[i].1) {
                            return false;
                        }
                        if i > 0 {
                            assert(p[i - 1] == (pairs@[i - 1].0@, pairs@[i - 1].1@));
                            if !key_less(&pairs[i - 1].0, &pairs[i].0) {
                                return false;
                            }
                        }
                        proof {
                            assert forall|a: int, b: int| 0 <= a < b < i + 1 implies key_lt(
                                #[trigger] p.take(i + 1)[a].0,
                                #[trigger] p.take(i + 1)[b].0,
                            ) by {
                                if b < i {
                                    assert(key_lt(p.take(i as int)[a].0, p.take(i as int)[b].0));
                                } else if a < i - 1 {
                                    assert(key_lt(p.take(i as int)[a].0, p.take(i as int)[i - 1].0));
                                    lemma_key_lt_transitive(k, p[a].0, p[i - 1].0, p[i as int].0);
                                }
                            }
                        }
                        i += 1;
                    }
                    assert(pair_views(pairs@).take(i as int) =~= pair_views(pairs@));
                    true
                },
                _ => false,
            },
        }
    }
}

impl SchemaIndexType {
    /// Whether this type is well formed.
    pub fn is_well_formed(&self) -> (r: bool)
        ensures
            r == self.wf(),
        decreases self,
    {
        match self {
            SchemaIndexType::Object(object_type) => {
                assert(self->Object_0 == *object_type);
                object_type.is_well_formed()
            },
            _ => true,
        }
    }
}

impl SchemaType {
    /// Whether this type is well formed.
    pub fn is_well_formed(&self) -> (r: bool)
        ensures
            r == self.wf(),
        decreases self,
    {
        match self {
            SchemaType::Required(t) => t.is_well_formed(),
            SchemaType::Optional(t) => t.is_well_formed(),
            SchemaType::List(t) => t.is_well_formed(),
            SchemaType::Mapping(k, t) => k.is_key() && k.is_well_formed() && t.is_well_formed(),
        }
    }
}

impl SchemaObjectType {
    /// Whether no field from position `from` on has the id `field_id`.
    fn id_unused_from(&self, field_id: FieldId, from: usize) -> (r: bool)
        requires
            from <= self.fields.len(),
        ensures
            r == forall|j: int| from <= j < self.fields.len() ==> (#[trigger] self.fields@[j]).field_id != field_id,
    {
        let mut j: usize = from;
        while j < self.fields.len()
            invariant
                from <= j <= self.fields.len(),
                forall|k: int| from <= k < j ==> (#[trigger] self.fields@[k]).field_id != field_id,
            decreases self.fields.len() - j,
        {
            if self.fields[j].field_id == field_id {
                return false;
            }
            j += 1;
        }
        true
    }

    /// Whether this type is well formed.
    pub fn is_well_formed(&self) -> (r: bool)
        ensures
            r == self.wf(),
        decreases self,
    {
        let mut i: usize = 0;
        while i < self.fields.len()
            invariant
                i <= self.fields.len(),
                forall|a: int, b: int|
                    0 <= a < i && a < b < self.fields.len() ==> (#[trigger] self.fields@[a]).field_id
                        != (#[trigger] self.fields@[b]).field_id,
                forall|a: int| 0 <= a < i ==> (#[trigger] self.fields@[a]).ty.wf(),
            decreases self.fields.len() - i,
        {
            if !self.id_unused_from(self.fields[i].field_id, i + 1) {
                return false;
            }
            if !self.fields[i].ty.is_well_formed() {
                return false;
            }
            i += 1;
        }
        true
    }
}

} // verus!
