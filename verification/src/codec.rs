//! The field codec: typed values to schema objects and back.
//!
//! A type fixes, for each of its values, the data that stand for the value on
//! the wire, and for all data under a field, the value that they stand for or
//! the reason why they stand for none. Every value that a well-formed type
//! admits comes back unchanged from its own data.

use vstd::prelude::*;
use vstd::pervasive::unreached;
use vstd::string::StringSliceAdditionalSpecFns;
use vstd::string::StrSliceExecFns;
use vstd::utf8::{decode_utf8, encode_utf8, valid_utf8};
use crate::FieldId;
use crate::schema::{
    lemma_object_datum_view, lemma_scalar_wrap, lemma_select_add, lemma_select_tagged, lemma_wrap_scalar,
    select, tagged, DatumView, EntryView, Scalar, SchemaDatum, SchemaListType, SchemaObject, WireKind,
};
use crate::value::{
    fields_admit, fields_wf, ids_distinct, key_less, key_lt, keys_increase, lemma_key_lt_total,
    lemma_key_lt_transitive, lemma_value_view, pair_views, views, FieldDefinition, SchemaIndexType,
    SchemaObjectType, SchemaType, Value, ValueView,
};

verus! {

/// Why a schema object could not be read as a value, or a value not written.
#[derive(Clone, Copy, Debug, PartialEq, Eq, Structural)]
pub enum SchemaError {
    /// A field holds a number of values that its type does not allow.
    InvalidFieldCount,
    /// The bytes of a text are not valid UTF-8.
    Utf8DecodeError,
    /// The conversion is not defined for this kind of payload.
    NotImplemented,
    /// The value is not a value of the type it was to be written as.
    TypeMismatch,
}

/// The field of a map's nested object that holds the keys.
pub const SCHEMA_MAP_KEY_FIELD_ID: FieldId = 1;

/// The field of a map's nested object that holds the values.
pub const SCHEMA_MAP_VALUE_FIELD_ID: FieldId = 2;

/// How many entries of `pairs`, from the front, have a key before `key`.
pub open spec fn lower_bound(pairs: Seq<(ValueView, ValueView)>, key: ValueView) -> int
    decreases pairs.len(),
{
    if pairs.len() == 0 || !key_lt(pairs[0].0, key) {
        0
    } else {
        1 + lower_bound(pairs.drop_first(), key)
    }
}

/// The map `pairs` with `key` bound to `value`: in place of the entry that
/// has the key, or else in front of the first entry with a later key.
pub open spec fn map_insert(pairs: Seq<(ValueView, ValueView)>, key: ValueView, value: ValueView) -> Seq<
    (ValueView, ValueView),
> {
    let i = lower_bound(pairs, key);
    if i < pairs.len() && !key_lt(key, pairs[i].0) {
        pairs.update(i, (key, value))
    } else {
        pairs.insert(i, (key, value))
    }
}

/// The map that binds each of `keys` to the value at its position, the
/// bindings made in order, so that a later binding of a key replaces an
/// earlier one.
pub open spec fn map_of(keys: Seq<ValueView>, values: Seq<ValueView>) -> Seq<(ValueView, ValueView)>
    decreases keys.len(),
{
    if keys.len() == 0 {
        Seq::empty()
    } else {
        map_insert(map_of(keys.drop_last(), values.drop_last()), keys.last(), values.last())
    }
}

/// The values that `data` stand for as values of type `t`, in order, or the
/// error of the first datum that stands for none.
pub open spec fn values_of(t: &SchemaIndexType, data: Seq<DatumView>) -> Result<Seq<ValueView>, SchemaError>
    decreases t, data.len() + 1,
{
    if data.len() == 0 {
        Ok(Seq::empty())
    } else {
        match values_of(t, data.drop_last()) {
            Err(e) => Err(e),
            Ok(values) => match t.value_of(data.last()) {
                Err(e) => Err(e),
                Ok(value) => Ok(values.push(value)),
            },
        }
    }
}

/// The entries of the object that stands for a structure with the fields
/// `fields` and the field values `values`: the data of each field under the
/// field's id, the fields in declaration order.
pub open spec fn object_entries(fields: Seq<FieldDefinition>, values: Seq<ValueView>) -> Seq<EntryView>
    decreases fields,
{
    if fields.len() == 0 {
        Seq::empty()
    } else {
        object_entries(fields.drop_last(), values.drop_last()) + tagged(
            fields.last().field_id,
            fields.last().ty.data_of(values.last()),
        )
    }
}

/// The field values that `entries` stand for as a structure with the fields
/// `fields`, or the error of the first field, in declaration order, whose
/// entries stand for no value.
pub open spec fn object_values(fields: Seq<FieldDefinition>, entries: Seq<EntryView>) -> Result<
    Seq<ValueView>,
    SchemaError,
>
    decreases fields, 0nat,
{
    if fields.len() == 0 {
        Ok(Seq::empty())
    } else {
        match object_values(fields.drop_last(), entries) {
            Err(e) => Err(e),
            Ok(values) => match fields.last().ty.field_value(entries, fields.last().field_id) {
                Err(e) => Err(e),
                Ok(value) => Ok(values.push(value)),
            },
        }
    }
}

impl SchemaIndexType {
    /// The datum that stands for `value`, a value of this type.
    pub open spec fn datum_of(&self, value: ValueView) -> DatumView
        decreases self,
    {
        match self {
            SchemaIndexType::Primitive(kind) => DatumView::Primitive(kind.spec_wrap(value->Scalar_0)),
            SchemaIndexType::Bytes => DatumView::Bytes(value->Bytes_0),
            SchemaIndexType::Text => DatumView::Bytes(encode_utf8(value->Text_0)),
            SchemaIndexType::Object(object_type) => DatumView::Object(
                object_entries(object_type.fields@, value->Object_0),
            ),
        }
    }

    /// The value of this type that `datum` stands for, a datum of this type's
    /// wire kind.
    pub open spec fn value_of(&self, datum: DatumView) -> Result<ValueView, SchemaError>
        decreases self, 0nat,
    {
        match self {
            SchemaIndexType::Primitive(_) => Ok(ValueView::Scalar(datum->Primitive_0.scalar())),
            SchemaIndexType::Bytes => Ok(ValueView::Bytes(datum->Bytes_0)),
            SchemaIndexType::Text => if valid_utf8(datum->Bytes_0) {
                Ok(ValueView::Text(decode_utf8(datum->Bytes_0)))
            } else {
                Err(SchemaError::Utf8DecodeError)
            },
            SchemaIndexType::Object(object_type) => match object_values(
                object_type.fields@,
                datum->Object_0,
            ) {
                Ok(values) => Ok(ValueView::Object(values)),
                Err(e) => Err(e),
            },
        }
    }
}

impl SchemaType {
    /// The wire kind of the entries that a field of this type is made of.
    pub open spec fn spec_field_kind(&self) -> WireKind {
        match self {
            SchemaType::Required(t) => t.wire_kind(),
            SchemaType::Optional(t) => t.wire_kind(),
            SchemaType::List(t) => t.wire_kind(),
            SchemaType::Mapping(_, _) => WireKind::Object,
        }
    }

    /// The wire kind of the entries that a field of this type is made of.
    #[verifier::when_used_as_spec(spec_field_kind)]
    pub fn field_kind(&self) -> (kind: WireKind)
        ensures
            kind == self.spec_field_kind(),
    {
        match self {
            SchemaType::Required(t) => t.wire_kind(),
            SchemaType::Optional(t) => t.wire_kind(),
            SchemaType::List(t) => t.wire_kind(),
            SchemaType::Mapping(_, _) => WireKind::Object,
        }
    }

    /// The data that stand for `value`, a value of this type, in a field.
    ///
    /// A required value is one datum; an optional value none or one; a list
    /// one datum for each item; a map one nested object that holds the keys
    /// under [`SCHEMA_MAP_KEY_FIELD_ID`] and, in the same order, the values
    /// under [`SCHEMA_MAP_VALUE_FIELD_ID`].
    pub open spec fn data_of(&self, value: ValueView) -> Seq<DatumView>
        decreases self,
    {
        match self {
            SchemaType::Required(t) => seq![t.datum_of(value)],
            SchemaType::Optional(t) => match value->Optional_0 {
                None => Seq::empty(),
                Some(inner) => seq![t.datum_of(*inner)],
            },
            SchemaType::List(t) => Seq::new(value->List_0.len(), |i: int| t.datum_of(value->List_0[i])),
            SchemaType::Mapping(k, t) => {
                let pairs = value->Mapping_0;
                let keys = Seq::new(pairs.len(), |i: int| k.datum_of(pairs[i].0));
                let values = Seq::new(pairs.len(), |i: int| t.datum_of(pairs[i].1));
                seq![
                    DatumView::Object(
                        tagged(SCHEMA_MAP_KEY_FIELD_ID, keys) + tagged(SCHEMA_MAP_VALUE_FIELD_ID, values),
                    ),
                ]
            },
        }
    }

    /// The value of this type that `data` stand for, the data being all that
    /// a field holds of this type's field kind.
    ///
    /// A required value needs exactly one datum and an optional value at most
    /// one. A map needs exactly one nested object with as many keys as
    /// values; its keys are read first, then its values, and then each key is
    /// bound to the value at its position, in order.
    pub open spec fn decoded(&self, data: Seq<DatumView>) -> Result<ValueView, SchemaError>
        decreases self, 0nat,
    {
        match self {
            SchemaType::Required(t) => if data.len() == 1 {
                t.value_of(data[0])
            } else {
                Err(SchemaError::InvalidFieldCount)
            },
            SchemaType::Optional(t) => if data.len() == 0 {
                Ok(ValueView::Optional(None))
            } else if data.len() == 1 {
                match t.value_of(data[0]) {
                    Ok(value) => Ok(ValueView::Optional(Some(Box::new(value)))),
                    Err(e) => Err(e),
                }
            } else {
                Err(SchemaError::InvalidFieldCount)
            },
            SchemaType::List(t) => match values_of(t, data) {
                Ok(values) => Ok(ValueView::List(values)),
                Err(e) => Err(e),
            },
            SchemaType::Mapping(k, t) => if data.len() == 1 {
                let entries = data[0]->Object_0;
                let key_data = select(entries, SCHEMA_MAP_KEY_FIELD_ID, k.wire_kind());
                let value_data = select(entries, SCHEMA_MAP_VALUE_FIELD_ID, t.wire_kind());
                if key_data.len() != value_data.len() {
                    Err(SchemaError::InvalidFieldCount)
                } else {
                    match values_of(k, key_data) {
                        Err(e) => Err(e),
                        Ok(keys) => match values_of(t, value_data) {
                            Err(e) => Err(e),
                            Ok(values) => Ok(ValueView::Mapping(map_of(keys, values))),
                        },
                    }
                }
            } else {
                Err(SchemaError::InvalidFieldCount)
            },
        }
    }

    /// The value of this type that the field `field` of `entries` holds.
    pub open spec fn field_value(&self, entries: Seq<EntryView>, field: FieldId) -> Result<
        ValueView,
        SchemaError,
    >
        decreases self, 1nat,
    {
        self.decoded(select(entries, field, self.field_kind()))
    }
}

impl SchemaObjectType {
    /// The entries of the object that stands for `value`, a structure of this
    /// type.
    pub open spec fn encoded(&self, value: ValueView) -> Seq<EntryView> {
        object_entries(self.fields@, value->Object_0)
    }

    /// The structure of this type that `entries` stand for.
    pub open spec fn decoded(&self, entries: Seq<EntryView>) -> Result<ValueView, SchemaError> {
        match object_values(self.fields@, entries) {
            Ok(values) => Ok(ValueView::Object(values)),
            Err(e) => Err(e),
        }
    }
}

/// An optional field with more than one value stands for no value: the
/// count is invalid.
pub proof fn lemma_optional_count(t: SchemaIndexType, data: Seq<DatumView>)
    requires
        data.len() >= 2,
    ensures
        SchemaType::Optional(t).decoded(data) == Err::<ValueView, SchemaError>(SchemaError::InvalidFieldCount),
{
}

/// Data that each stand for the value at their position stand together for
/// the values.
pub proof fn lemma_values_of(t: &SchemaIndexType, data: Seq<DatumView>, values: Seq<ValueView>)
    requires
        data.len() == values.len(),
        forall|i: int| 0 <= i < data.len() ==> t.value_of(#[trigger] data[i]) == Ok::<ValueView, SchemaError>(values[i]),
    ensures
        values_of(t, data) == Ok::<Seq<ValueView>, SchemaError>(values),
    decreases data.len(),
{
    if data.len() == 0 {
        assert(values =~= Seq::empty());
    } else {
        lemma_values_of(t, data.drop_last(), values.drop_last());
        assert(values.drop_last().push(values.last()) =~= values);
    }
}

/// Data that stand for values stand for as many values as there are data.
pub proof fn lemma_values_of_len(t: &SchemaIndexType, data: Seq<DatumView>)
    ensures
        values_of(t, data) is Ok ==> values_of(t, data)->Ok_0.len() == data.len(),
    decreases data.len(),
{
    if data.len() > 0 {
        lemma_values_of_len(t, data.drop_last());
    }
}

/// Once the data of a prefix stand for no values, neither do all the data,
/// and for the same reason.
pub proof fn lemma_values_of_prefix_err(t: &SchemaIndexType, data: Seq<DatumView>, n: int)
    requires
        0 <= n <= data.len(),
        values_of(t, data.take(n)) is Err,
    ensures
        values_of(t, data) == values_of(t, data.take(n)),
    decreases data.len() - n,
{
    if n == data.len() {
        assert(data.take(n) =~= data);
    } else {
        assert(data.take(n + 1).drop_last() =~= data.take(n));
        lemma_values_of_prefix_err(t, data, n + 1);
    }
}

/// A key that comes after every key of a map has the whole map below it.
pub proof fn lemma_lower_bound_end(pairs: Seq<(ValueView, ValueView)>, key: ValueView)
    requires
        forall|i: int| 0 <= i < pairs.len() ==> key_lt((#[trigger] pairs[i]).0, key),
    ensures
        lower_bound(pairs, key) == pairs.len(),
    decreases pairs.len(),
{
    if pairs.len() > 0 {
        assert(key_lt(pairs[0].0, key));
        assert forall|i: int| 0 <= i < pairs.drop_first().len() implies key_lt(
            (#[trigger] pairs.drop_first()[i]).0,
            key,
        ) by {
            assert(pairs.drop_first()[i] == pairs[i + 1]);
        }
        lemma_lower_bound_end(pairs.drop_first(), key);
    }
}

/// The keys of `pairs`, in order.
pub open spec fn keys_of(pairs: Seq<(ValueView, ValueView)>) -> Seq<ValueView> {
    Seq::new(pairs.len(), |i: int| pairs[i].0)
}

/// The values of `pairs`, in order.
pub open spec fn mapped_of(pairs: Seq<(ValueView, ValueView)>) -> Seq<ValueView> {
    Seq::new(pairs.len(), |i: int| pairs[i].1)
}

/// Binding the keys of a map in increasing order to their values builds the
/// same map again.
pub proof fn lemma_map_of_increasing(pairs: Seq<(ValueView, ValueView)>)
    requires
        keys_increase(pairs),
    ensures
        map_of(keys_of(pairs), mapped_of(pairs)) == pairs,
    decreases pairs.len(),
{
    if pairs.len() == 0 {
        assert(pairs =~= Seq::empty());
    } else {
        let front = pairs.drop_last();
        assert(keys_increase(front)) by {
            assert forall|i: int, j: int| 0 <= i < j < front.len() implies key_lt(
                #[trigger] front[i].0,
                #[trigger] front[j].0,
            ) by {
                assert(front[i] == pairs[i] && front[j] == pairs[j]);
            }
        }
        lemma_map_of_increasing(front);
        assert(keys_of(pairs).drop_last() =~= keys_of(front));
        assert(mapped_of(pairs).drop_last() =~= mapped_of(front));
        assert forall|i: int| 0 <= i < front.len() implies key_lt((#[trigger] front[i]).0, pairs.last().0) by {
            assert(front[i] == pairs[i]);
            assert(pairs.last() == pairs[pairs.len() - 1]);
        }
        lemma_lower_bound_end(front, pairs.last().0);
        assert(front.insert(front.len() as int, pairs.last()) =~= pairs);
    }
}

/// An object holds nothing under a field id that none of its fields has.
pub proof fn lemma_select_absent(
    fields: Seq<FieldDefinition>,
    values: Seq<ValueView>,
    field: FieldId,
    kind: WireKind,
)
    requires
        forall|i: int| 0 <= i < fields.len() ==> (#[trigger] fields[i]).field_id != field,
    ensures
        select(object_entries(fields, values), field, kind) == Seq::<DatumView>::empty(),
    decreases fields.len(),
{
    if fields.len() > 0 {
        let front = object_entries(fields.drop_last(), values.drop_last());
        let back = tagged(fields.last().field_id, fields.last().ty.data_of(values.last()));
        assert forall|i: int| 0 <= i < fields.drop_last().len() implies (#[trigger] fields.drop_last()[i]).field_id
            != field by {
            assert(fields.drop_last()[i] == fields[i]);
        }
        lemma_select_absent(fields.drop_last(), values.drop_last(), field, kind);
        assert(fields.last() == fields[fields.len() - 1]);
        lemma_select_tagged(fields.last().field_id, fields.last().ty.data_of(values.last()), field, kind);
        lemma_select_add(front, back, field, kind);
        assert(select(front, field, kind) + select(back, field, kind) =~= Seq::<DatumView>::empty());
    }
}

/// Under the id of one of its fields, an object with distinct field ids holds
/// the data of that field's value.
pub proof fn lemma_object_select(fields: Seq<FieldDefinition>, values: Seq<ValueView>, i: int)
    requires
        ids_distinct(fields),
        values.len() == fields.len(),
        0 <= i < fields.len(),
        forall|j: int|
            0 <= j < fields[i].ty.data_of(values[i]).len() ==> (#[trigger] fields[i].ty.data_of(
                values[i],
            )[j]).kind() == fields[i].ty.field_kind(),
    ensures
        select(object_entries(fields, values), fields[i].field_id, fields[i].ty.field_kind())
            == fields[i].ty.data_of(values[i]),
    decreases fields.len(),
{
    let field = fields[i].field_id;
    let kind = fields[i].ty.field_kind();
    let front_fields = fields.drop_last();
    let front_values = values.drop_last();
    let front = object_entries(front_fields, front_values);
    let back_data = fields.last().ty.data_of(values.last());
    let back = tagged(fields.last().field_id, back_data);
    assert(fields.last() == fields[fields.len() - 1]);
    assert(values.last() == values[values.len() - 1]);
    lemma_select_add(front, back, field, kind);
    lemma_select_tagged(fields.last().field_id, back_data, field, kind);
    if i == fields.len() - 1 {
        assert forall|j: int| 0 <= j < front_fields.len() implies (#[trigger] front_fields[j]).field_id
            != field by {
            assert(front_fields[j] == fields[j]);
        }
        lemma_select_absent(front_fields, front_values, field, kind);
        assert(Seq::<DatumView>::empty() + back_data =~= back_data);
    } else {
        assert(ids_distinct(front_fields)) by {
            assert forall|a: int, b: int| 0 <= a < b < front_fields.len() implies (#[trigger] front_fields[a]).field_id
                != (#[trigger] front_fields[b]).field_id by {
                assert(front_fields[a] == fields[a] && front_fields[b] == fields[b]);
            }
        }
        assert(front_fields[i] == fields[i]);
        assert(front_values[i] == values[i]);
        lemma_object_select(front_fields, front_values, i);
        assert(fields.last().field_id != field);
        assert(fields[i].ty.data_of(values[i]) + Seq::<DatumView>::empty() =~= fields[i].ty.data_of(values[i]));
    }
}

/// Entries in which every field holds its value stand for the structure of
/// those values.
pub proof fn lemma_object_values(fields: Seq<FieldDefinition>, values: Seq<ValueView>, entries: Seq<EntryView>)
    requires
        values.len() == fields.len(),
        forall|i: int|
            0 <= i < fields.len() ==> (#[trigger] fields[i]).ty.field_value(entries, fields[i].field_id) == Ok::<
                ValueView,
                SchemaError,
            >(values[i]),
    ensures
        object_values(fields, entries) == Ok::<Seq<ValueView>, SchemaError>(values),
    decreases fields.len(),
{
    if fields.len() == 0 {
        assert(values =~= Seq::empty());
    } else {
        assert forall|i: int| 0 <= i < fields.drop_last().len() implies (#[trigger] fields.drop_last()[i]).ty.field_value(
            entries,
            fields.drop_last()[i].field_id,
        ) == Ok::<ValueView, SchemaError>(values.drop_last()[i]) by {
            assert(fields.drop_last()[i] == fields[i]);
        }
        lemma_object_values(fields.drop_last(), values.drop_last(), entries);
        assert(fields.last() == fields[fields.len() - 1]);
        assert(values.drop_last().push(values.last()) =~= values);
    }
}

/// Round trip, for one entry: the datum that stands for a value of a
/// well-formed type stands for that value, and has the type's wire kind.
pub proof fn lemma_index_round_trip(t: &SchemaIndexType, value: ValueView)
    requires
        t.wf(),
        t.admits(value),
    ensures
        t.value_of(t.datum_of(value)) == Ok::<ValueView, SchemaError>(value),
        t.datum_of(value).kind() == t.wire_kind(),
    decreases t,
{
    match t {
        SchemaIndexType::Primitive(kind) => {
            lemma_wrap_scalar(*kind, value->Scalar_0);
        },
        SchemaIndexType::Bytes => {},
        SchemaIndexType::Text => {
            vstd::utf8::encode_utf8_valid_utf8(value->Text_0);
            vstd::utf8::encode_utf8_decode_utf8(value->Text_0);
        },
        SchemaIndexType::Object(object_type) => {
            lemma_object_round_trip(object_type.fields@, value->Object_0);
        },
    }
}

/// Round trip, for one field: the data that stand for a value of a
/// well-formed type stand for that value, and have the type's field kind.
pub proof fn lemma_field_round_trip(ty: &SchemaType, value: ValueView)
    requires
        ty.wf(),
        ty.admits(value),
    ensures
        ty.decoded(ty.data_of(value)) == Ok::<ValueView, SchemaError>(value),
        forall|j: int| 0 <= j < ty.data_of(value).len() ==> (#[trigger] ty.data_of(value)[j]).kind() == ty.field_kind(),
    decreases ty,
{
    match ty {
        SchemaType::Required(t) => {
            lemma_index_round_trip(t, value);
        },
        SchemaType::Optional(t) => {
            match value->Optional_0 {
                None => {},
                Some(inner) => {
                    lemma_index_round_trip(t, *inner);
                },
            }
        },
        SchemaType::List(t) => {
            let items = value->List_0;
            let data = ty.data_of(value);
            assert forall|i: int| 0 <= i < data.len() implies t.value_of(#[trigger] data[i]) == Ok::<
                ValueView,
                SchemaError,
            >(items[i]) && data[i].kind() == t.wire_kind() by {
                lemma_index_round_trip(t, items[i]);
            }
            lemma_values_of(t, data, items);
        },
        SchemaType::Mapping(k, t) => {
            let pairs = value->Mapping_0;
            let key_data = Seq::new(pairs.len(), |i: int| k.datum_of(pairs[i].0));
            let value_data = Seq::new(pairs.len(), |i: int| t.datum_of(pairs[i].1));
            let key_entries = tagged(SCHEMA_MAP_KEY_FIELD_ID, key_data);
            let value_entries = tagged(SCHEMA_MAP_VALUE_FIELD_ID, value_data);
            let entries = key_entries + value_entries;
            assert(ty.data_of(value).len() == 1);
            assert(ty.data_of(value)[0]->Object_0 =~= entries);
            assert forall|i: int| 0 <= i < pairs.len() implies k.value_of(#[trigger] key_data[i]) == Ok::<
                ValueView,
                SchemaError,
            >(keys_of(pairs)[i]) && key_data[i].kind() == k.wire_kind() by {
                lemma_index_round_trip(k, pairs[i].0);
            }
            assert forall|i: int| 0 <= i < pairs.len() implies t.value_of(#[trigger] value_data[i]) == Ok::<
                ValueView,
                SchemaError,
            >(mapped_of(pairs)[i]) && value_data[i].kind() == t.wire_kind() by {
                lemma_index_round_trip(t, pairs[i].1);
            }
            lemma_select_add(key_entries, value_entries, SCHEMA_MAP_KEY_FIELD_ID, k.wire_kind());
            lemma_select_add(key_entries, value_entries, SCHEMA_MAP_VALUE_FIELD_ID, t.wire_kind());
            lemma_select_tagged(SCHEMA_MAP_KEY_FIELD_ID, key_data, SCHEMA_MAP_KEY_FIELD_ID, k.wire_kind());
            lemma_select_tagged(SCHEMA_MAP_KEY_FIELD_ID, key_data, SCHEMA_MAP_VALUE_FIELD_ID, t.wire_kind());
            lemma_select_tagged(SCHEMA_MAP_VALUE_FIELD_ID, value_data, SCHEMA_MAP_KEY_FIELD_ID, k.wire_kind());
            lemma_select_tagged(SCHEMA_MAP_VALUE_FIELD_ID, value_data, SCHEMA_MAP_VALUE_FIELD_ID, t.wire_kind());
            assert(select(entries, SCHEMA_MAP_KEY_FIELD_ID, k.wire_kind()) =~= key_data);
            assert(select(entries, SCHEMA_MAP_VALUE_FIELD_ID, t.wire_kind()) =~= value_data);
            lemma_values_of(k, key_data, keys_of(pairs));
            lemma_values_of(t, value_data, mapped_of(pairs));
            lemma_map_of_increasing(pairs);
        },
    }
}

/// Round trip, for the fields of a structure: the entries that stand for
/// field values stand for those values.
pub proof fn lemma_object_round_trip(fields: Seq<FieldDefinition>, values: Seq<ValueView>)
    requires
        ids_distinct(fields),
        fields_wf(fields),
        fields_admit(fields, values),
    ensures
        object_values(fields, object_entries(fields, values)) == Ok::<Seq<ValueView>, SchemaError>(values),
    decreases fields,
{
    let entries = object_entries(fields, values);
    assert forall|i: int| 0 <= i < fields.len() implies (#[trigger] fields[i]).ty.field_value(
        entries,
        fields[i].field_id,
    ) == Ok::<ValueView, SchemaError>(values[i]) by {
        lemma_field_round_trip(&fields[i].ty, values[i]);
        lemma_object_select(fields, values, i);
    }
    lemma_object_values(fields, values, entries);
}

impl SchemaObjectType {
    /// Round trip: a structure that a well-formed type admits comes back
    /// unchanged from the entries that stand for it.
    pub proof fn lemma_round_trip(&self, value: ValueView)
        requires
            self.wf(),
            self.admits(value),
        ensures
            self.decoded(self.encoded(value)) == Ok::<ValueView, SchemaError>(value),
    {
        lemma_object_round_trip(self.fields@, value->Object_0);
    }
}

/// Whether `result` is the outcome `expected`: the value with that view, or
/// that error.
pub open spec fn decodes_to(result: Result<Value, SchemaError>, expected: Result<ValueView, SchemaError>) -> bool {
    match (result, expected) {
        (Ok(value), Ok(view)) => value@ == view,
        (Err(e), Err(f)) => e == f,
        _ => false,
    }
}

/// Calls `std::str::from_utf8`. Its contract is taken on trust from the
/// documentation of that function: it gives the string slice made of
/// `bytes` where they are valid UTF-8, and an error, whose detail is dropped
/// here, where they are not.
#[verifier::external_body]
fn str_from_utf8<'a>(bytes: &'a [u8]) -> (text: Option<&'a str>)
    ensures
        text is Some <==> valid_utf8(bytes@),
        text is Some ==> text.unwrap().spec_bytes() == bytes@,
{
    std::str::from_utf8(bytes).ok()
}

/// Binds `key` to `value` in the map `pairs`.
fn insert_pair(pairs: &mut Vec<(Value, Value)>, key: Value, value: Value)
    ensures
        pair_views(final(pairs)@) == map_insert(pair_views(old(pairs)@), key@, value@),
{
    let ghost before = pair_views(pairs@);
    let mut i: usize = 0;
    assert(before.skip(0) =~= before);
    while i < pairs.len() && key_less(&pairs[i].0, &key)
        invariant
            i <= pairs.len(),
            before == pair_views(pairs@),
            *pairs == *old(pairs),
            lower_bound(before, key@) == i + lower_bound(before.skip(i as int), key@),
        decreases pairs.len() - i,
    {
        proof {
            assert(before.skip(i as int)[0] == before[i as int]);
            assert(before.skip(i as int).drop_first() =~= before.skip(i + 1));
        }
        i += 1;
    }
    proof {
        if i < pairs.len() {
            assert(before.skip(i as int)[0] == before[i as int]);
        }
        assert(lower_bound(before, key@) == i);
    }
    if i < pairs.len() && !key_less(&key, &pairs[i].0) {
        pairs[i] = (key, value);
        assert(pair_views(pairs@) =~= before.update(i as int, (key@, value@)));
    } else {
        pairs.insert(i, (key, value));
        assert(pair_views(pairs@) =~= before.insert(i as int, (key@, value@)));
    }
}

/// Binds each of `keys` to the value at its position, in order. The two
/// vectors are left holding placeholders.
fn build_map(keys: &mut Vec<Value>, values: &mut Vec<Value>) -> (pairs: Vec<(Value, Value)>)
    requires
        old(keys).len() == old(values).len(),
    ensures
        pair_views(pairs@) == map_of(views(old(keys)@), views(old(values)@)),
{
    let ghost all_keys = views(keys@);
    let ghost all_values = views(values@);
    let mut pairs: Vec<(Value, Value)> = Vec::new();
    let mut i: usize = 0;
    assert(pair_views(pairs@) =~= Seq::empty());
    while i < keys.len()
        invariant
            i <= keys.len(),
            keys.len() == values.len(),
            keys.len() == all_keys.len(),
            values.len() == all_values.len(),
            forall|j: int| i <= j < keys.len() ==> (#[trigger] keys@[j])@ == all_keys[j],
            forall|j: int| i <= j < values.len() ==> (#[trigger] values@[j])@ == all_values[j],
            pair_views(pairs@) == map_of(all_keys.take(i as int), all_values.take(i as int)),
        decreases keys.len() - i,
    {
        let mut key = Value::Optional(None);
        let mut value = Value::Optional(None);
        core::mem::swap(&mut key, &mut keys[i]);
        core::mem::swap(&mut value, &mut values[i]);
        insert_pair(&mut pairs, key, value);
        proof {
            assert(all_keys.take(i + 1).drop_last() =~= all_keys.take(i as int));
            assert(all_values.take(i + 1).drop_last() =~= all_values.take(i as int));
        }
        i += 1;
    }
    proof {
        assert(all_keys.take(i as int) =~= all_keys);
        assert(all_values.take(i as int) =~= all_values);
    }
    pairs
}

impl SchemaIndexType {
    /// How many values of this type the field `field` of `object` holds.
    pub fn field_count(&self, object: &SchemaObject, field: FieldId) -> (count: usize)
        ensures
            count == select(object@, field, self.wire_kind()).len(),
    {
        object.field_count(field, self.wire_kind())
    }

    /// Reads the value at position `index` among the values of this type
    /// that the field `field` of `object` holds.
    pub fn index_field(&self, object: &SchemaObject, field: FieldId, index: usize) -> (result: Result<
        Value,
        SchemaError,
    >)
        requires
            index < select(object@, field, self.wire_kind()).len(),
        ensures
            decodes_to(result, self.value_of(select(object@, field, self.wire_kind())[index as int])),
        decreases self, 1nat,
    {
        proof {
            lemma_select_kind(object@, field, self.wire_kind(), index as int);
        }
        self.from_datum(object.index_field(field, self.wire_kind(), index))
    }

    /// Reads `datum` as a value of this type.
    fn from_datum(&self, datum: &SchemaDatum) -> (result: Result<Value, SchemaError>)
        requires
            datum@.kind() == self.wire_kind(),
        ensures
            decodes_to(result, self.value_of(datum@)),
        decreases self, 0nat,
    {
        match self {
            SchemaIndexType::Primitive(_) => match datum {
                SchemaDatum::Primitive(p) => Ok(Value::Scalar(p.scalar())),
                _ => unreached(),
            },
            SchemaIndexType::Bytes => match datum {
                SchemaDatum::Bytes(bytes) => Ok(Value::Bytes(bytes.clone())),
                _ => unreached(),
            },
            SchemaIndexType::Text => match datum {
                SchemaDatum::Bytes(bytes) => match str_from_utf8(bytes.as_slice()) {
                    Some(text) => {
                        proof {
                            vstd::utf8::encode_utf8_decode_utf8(text@);
                        }
                        Ok(Value::Text(text.to_owned()))
                    },
                    None => Err(SchemaError::Utf8DecodeError),
                },
                _ => unreached(),
            },
            SchemaIndexType::Object(object_type) => match datum {
                SchemaDatum::Object(object) => {
                    proof {
                        lemma_object_datum_view(datum);
                    }
                    object_type.from_schema_object(object)
                },
                _ => unreached(),
            },
        }
    }

    /// Reads all the values of this type that the field `field` of `object`
    /// holds, in order.
    fn all_fields(&self, object: &SchemaObject, field: FieldId) -> (result: Result<Vec<Value>, SchemaError>)
        ensures
            match (result, values_of(self, select(object@, field, self.wire_kind()))) {
                (Ok(values), Ok(expected)) => views(values@) == expected,
                (Err(e), Err(f)) => e == f,
                _ => false,
            },
        decreases self, 2nat,
    {
        let ghost data = select(object@, field, self.wire_kind());
        let count = self.field_count(object, field);
        let mut values: Vec<Value> = Vec::new();
        let mut i: usize = 0;
        assert(views(values@) =~= Seq::empty());
        assert(data.take(0) =~= Seq::empty());
        while i < count
            invariant
                i <= count,
                count == data.len(),
                data == select(object@, field, self.wire_kind()),
                values_of(self, data.take(i as int)) == Ok::<Seq<ValueView>, SchemaError>(views(values@)),
            decreases count - i,
        {
            proof {
                assert(data.take(i + 1).drop_last() =~= data.take(i as int));
                assert(data.take(i + 1).last() == data[i as int]);
            }
            match self.index_field(object, field, i) {
                Ok(value) => {
                    let ghost before = views(values@);
                    values.push(value);
                    assert(views(values@) =~= before.push(value@));
                },
                Err(e) => {
                    proof {
                        lemma_values_of_prefix_err(self, data, i + 1);
                    }
                    return Err(e);
                },
            }
            i += 1;
        }
        assert(data.take(i as int) =~= data);
        Ok(values)
    }

    /// The datum that stands for `value`.
    fn to_datum(&self, value: &Value) -> (datum: SchemaDatum)
        requires
            self.admits(value@),
        ensures
            datum@ == self.datum_of(value@),
        decreases self, 0nat,
    {
        match self {
            SchemaIndexType::Primitive(kind) => match value {
                Value::Scalar(s) => match kind.wrap(*s) {
                    Some(p) => SchemaDatum::Primitive(p),
                    None => unreached(),
                },
                _ => unreached(),
            },
            SchemaIndexType::Bytes => match value {
                Value::Bytes(bytes) => SchemaDatum::Bytes(bytes.clone()),
                _ => unreached(),
            },
            SchemaIndexType::Text => match value {
                Value::Text(text) => SchemaDatum::Bytes(text.as_str().as_bytes_vec()),
                _ => unreached(),
            },
            SchemaIndexType::Object(object_type) => {
                let object = object_type.to_object(value);
                let datum = SchemaDatum::Object(object);
                proof {
                    lemma_object_datum_view(&datum);
                }
                datum
            },
        }
    }
}

/// Every selected datum has the kind that it was selected by.
pub proof fn lemma_select_kind(entries: Seq<EntryView>, field: FieldId, kind: WireKind, index: int)
    requires
        0 <= index < select(entries, field, kind).len(),
    ensures
        select(entries, field, kind)[index].kind() == kind,
    decreases entries.len(),
{
    if entries.len() > 0 {
        let rest = select(entries.drop_last(), field, kind);
        if index < rest.len() {
            lemma_select_kind(entries.drop_last(), field, kind, index);
        }
    }
}

impl SchemaType {
    /// Reads the field `field` of `object` as a value of this type.
    pub fn from_field(&self, object: &SchemaObject, field: FieldId) -> (result: Result<Value, SchemaError>)
        ensures
            decodes_to(result, self.field_value(object@, field)),
            self.wf() && result is Ok ==> self.admits(result->Ok_0@),
        decreases self, 3nat,
    {
        proof {
            if self.wf() && self.field_value(object@, field) is Ok {
                let data = select(object@, field, self.field_kind());
                assert forall|i: int| 0 <= i < data.len() implies (#[trigger] data[i]).kind() == self.field_kind() by {
                    lemma_select_kind(object@, field, self.field_kind(), i);
                }
                lemma_decoded_admits(self, data);
            }
        }
        match self {
            SchemaType::Required(t) => {
                if t.field_count(object, field) != 1 {
                    return Err(SchemaError::InvalidFieldCount);
                }
                t.index_field(object, field, 0)
            },
            SchemaType::Optional(t) => {
                let count = t.field_count(object, field);
                if count == 0 {
                    Ok(Value::Optional(None))
                } else if count == 1 {
                    match t.index_field(object, field, 0) {
                        Ok(value) => Ok(Value::Optional(Some(Box::new(value)))),
                        Err(e) => Err(e),
                    }
                } else {
                    Err(SchemaError::InvalidFieldCount)
                }
            },
            SchemaType::List(t) => match t.all_fields(object, field) {
                Ok(items) => {
                    let value = Value::List(items);
                    proof {
                        lemma_value_view(&value);
                    }
                    Ok(value)
                },
                Err(e) => Err(e),
            },
            SchemaType::Mapping(k, t) => {
                if object.field_count(field, WireKind::Object) != 1 {
                    return Err(SchemaError::InvalidFieldCount);
                }
                let datum = object.index_field(field, WireKind::Object, 0);
                proof {
                    lemma_select_kind(object@, field, WireKind::Object, 0);
                }
                match datum {
                    SchemaDatum::Object(inner) => {
                        proof {
                            lemma_object_datum_view(datum);
                        }
                        if k.field_count(inner, SCHEMA_MAP_KEY_FIELD_ID) != t.field_count(
                            inner,
                            SCHEMA_MAP_VALUE_FIELD_ID,
                        ) {
                            return Err(SchemaError::InvalidFieldCount);
                        }
                        let mut keys = match k.all_fields(inner, SCHEMA_MAP_KEY_FIELD_ID) {
                            Ok(keys) => keys,
                            Err(e) => {
                                return Err(e);
                            },
                        };
                        let mut values = match t.all_fields(inner, SCHEMA_MAP_VALUE_FIELD_ID) {
                            Ok(values) => values,
                            Err(e) => {
                                return Err(e);
                            },
                        };
                        proof {
                            lemma_values_of_len(k, select(inner@, SCHEMA_MAP_KEY_FIELD_ID, k.wire_kind()));
                            lemma_values_of_len(t, select(inner@, SCHEMA_MAP_VALUE_FIELD_ID, t.wire_kind()));
                        }
                        let pairs = build_map(&mut keys, &mut values);
                        let value = Value::Mapping(pairs);
                        proof {
                            lemma_value_view(&value);
                        }
                        Ok(value)
                    },
                    _ => unreached(),
                }
            },
        }
    }

    /// Adds the data that stand for `value` under `field`.
    fn add_data(&self, object: &mut SchemaObject, field: FieldId, value: &Value)
        requires
            self.admits(value@),
        ensures
            final(object)@ == old(object)@ + tagged(field, self.data_of(value@)),
        decreases self, 1nat,
    {
        match self {
            SchemaType::Required(t) => {
                object.add(field, t.to_datum(value));
                assert(object@ =~= old(object)@ + tagged(field, self.data_of(value@)));
            },
            SchemaType::Optional(t) => match value {
                Value::Optional(Some(inner)) => {
                    object.add(field, t.to_datum(inner));
                    assert(object@ =~= old(object)@ + tagged(field, self.data_of(value@)));
                },
                _ => {
                    assert(object@ =~= old(object)@ + tagged(field, self.data_of(value@)));
                },
            },
            SchemaType::List(t) => match value {
                Value::List(items) => {
                    proof {
                        lemma_value_view(value);
                    }
                    let ghost data = self.data_of(value@);
                    let mut i: usize = 0;
                    assert(object@ =~= old(object)@ + tagged(field, data.take(0)));
                    while i < items.len()
                        invariant
                            i <= items.len(),
                            self->List_0 == *t,
                            self is List,
                            self.admits(value@),
                            value@ == ValueView::List(views(items@)),
                            data == self.data_of(value@),
                            object@ == old(object)@ + tagged(field, data.take(i as int)),
                        decreases items.len() - i,
                    {
                        assert(views(items@)[i as int] == items@[i as int]@);
                        assert(t.admits(value@->List_0[i as int]));
                        object.add(field, t.to_datum(&items[i]));
                        i += 1;
                        assert(object@ =~= old(object)@ + tagged(field, data.take(i as int)));
                    }
                    assert(data.take(i as int) =~= data);
                },
                _ => unreached(),
            },
            SchemaType::Mapping(k, t) => match value {
                Value::Mapping(pairs) => {
                    proof {
                        lemma_value_view(value);
                    }
                    let ghost p = pair_views(pairs@);
                    let ghost key_data = Seq::new(p.len(), |i: int| k.datum_of(p[i].0));
                    let ghost value_data = Seq::new(p.len(), |i: int| t.datum_of(p[i].1));
                    let mut inner = SchemaObject::new();
                    let mut i: usize = 0;
                    assert(inner@ =~= tagged(SCHEMA_MAP_KEY_FIELD_ID, key_data.take(0)));
                    while i < pairs.len()
                        invariant
                            i <= pairs.len(),
                            self->Mapping_0 == *k,
                            self is Mapping,
                            self.admits(value@),
                            value@ == ValueView::Mapping(p),
                            p == pair_views(pairs@),
                            key_data == Seq::new(p.len(), |i: int| k.datum_of(p[i].0)),
                            inner@ == tagged(SCHEMA_MAP_KEY_FIELD_ID, key_data.take(i as int)),
                        decreases pairs.len() - i,
                    {
                        assert(p[i as int] == (pairs@[i as int].0@, pairs@[i as int].1@));
                        assert(k.admits(value@->Mapping_0[i as int].0));
                        inner.add(SCHEMA_MAP_KEY_FIELD_ID, k.to_datum(&pairs[i].0));
                        i += 1;
                        assert(inner@ =~= tagged(SCHEMA_MAP_KEY_FIELD_ID, key_data.take(i as int)));
                    }
                    assert(key_data.take(i as int) =~= key_data);
                    let mut i: usize = 0;
                    assert(inner@ =~= tagged(SCHEMA_MAP_KEY_FIELD_ID, key_data) + tagged(
                        SCHEMA_MAP_VALUE_FIELD_ID,
                        value_data.take(0),
                    ));
                    while i < pairs.len()
                        invariant
                            i <= pairs.len(),
                            self->Mapping_1 == *t,
                            self is Mapping,
                            self.admits(value@),
                            value@ == ValueView::Mapping(p),
                            p == pair_views(pairs@),
                            value_data == Seq::new(p.len(), |i: int| t.datum_of(p[i].1)),
                            inner@ == tagged(SCHEMA_MAP_KEY_FIELD_ID, key_data) + tagged(
                                SCHEMA_MAP_VALUE_FIELD_ID,
                                value_data.take(i as int),
                            ),
                        decreases pairs.len() - i,
                    {
                        assert(p[i as int] == (pairs@[i as int].0@, pairs@[i as int].1@));
                        assert(t.admits(value@->Mapping_0[i as int].1));
                        inner.add(SCHEMA_MAP_VALUE_FIELD_ID, t.to_datum(&pairs[i].1));
                        i += 1;
                        assert(inner@ =~= tagged(SCHEMA_MAP_KEY_FIELD_ID, key_data) + tagged(
                            SCHEMA_MAP_VALUE_FIELD_ID,
                            value_data.take(i as int),
                        ));
                    }
                    assert(value_data.take(i as int) =~= value_data);
                    let datum = SchemaDatum::Object(inner);
                    proof {
                        lemma_object_datum_view(&datum);
                        assert(self.data_of(value@).len() == 1);
                        assert(self.data_of(value@)[0]->Object_0 =~= inner@);
                        assert(self.data_of(value@) =~= seq![datum@]);
                    }
                    object.add(field, datum);
                    assert(object@ =~= old(object)@ + tagged(field, self.data_of(value@)));
                },
                _ => unreached(),
            },
        }
    }

    /// Writes `value` under `field`, after the entries that `object` has.
    ///
    /// Fails with [`SchemaError::TypeMismatch`], and leaves `object` as it
    /// was, where `value` is not a value of this type.
    pub fn add_field(&self, object: &mut SchemaObject, field: FieldId, value: &Value) -> (result: Result<
        (),
        SchemaError,
    >)
        ensures
            self.admits(value@) ==> result is Ok && final(object)@ == old(object)@ + tagged(
                field,
                self.data_of(value@),
            ),
            !self.admits(value@) ==> result == Err::<(), SchemaError>(SchemaError::TypeMismatch)
                && final(object)@ == old(object)@,
    {
        if !self.conforms(value) {
            return Err(SchemaError::TypeMismatch);
        }
        self.add_data(object, field, value);
        Ok(())
    }
}

impl SchemaObjectType {
    /// Reads `object` as a structure of this type: each declared field from
    /// the entries under its id. The first field, in declaration order, that
    /// cannot be read gives the error.
    pub fn from_schema_object(&self, object: &SchemaObject) -> (result: Result<Value, SchemaError>)
        ensures
            decodes_to(result, self.decoded(object@)),
            self.wf() && result is Ok ==> self.admits(result->Ok_0@),
        decreases self, 4nat,
    {
        proof {
            if self.wf() && self.decoded(object@) is Ok {
                self.lemma_decoded_admits(object@);
            }
        }
        let mut values: Vec<Value> = Vec::new();
        let mut i: usize = 0;
        assert(views(values@) =~= Seq::empty());
        assert(self.fields@.take(0) =~= Seq::empty());
        while i < self.fields.len()
            invariant
                i <= self.fields.len(),
                object_values(self.fields@.take(i as int), object@) == Ok::<Seq<ValueView>, SchemaError>(
                    views(values@),
                ),
            decreases self.fields.len() - i,
        {
            proof {
                assert(self.fields@.take(i + 1).drop_last() =~= self.fields@.take(i as int));
                assert(self.fields@.take(i + 1).last() == self.fields@[i as int]);
            }
            match self.fields[i].ty.from_field(object, self.fields[i].field_id) {
                Ok(value) => {
                    let ghost before = views(values@);
                    values.push(value);
                    assert(views(values@) =~= before.push(value@));
                },
                Err(e) => {
                    proof {
                        lemma_object_values_prefix_err(self.fields@, object@, i + 1);
                    }
                    return Err(e);
                },
            }
            i += 1;
        }
        assert(self.fields@.take(i as int) =~= self.fields@);
        let value = Value::Object(values);
        proof {
            lemma_value_view(&value);
        }
        Ok(value)
    }

    /// The object that stands for `value`.
    fn to_object(&self, value: &Value) -> (object: SchemaObject)
        requires
            self.admits(value@),
        ensures
            object@ == self.encoded(value@),
        decreases self, 2nat,
    {
        let mut object = SchemaObject::new();
        match value {
            Value::Object(values) => {
                proof {
                    lemma_value_view(value);
                }
                let ghost v = views(values@);
                let mut i: usize = 0;
                assert(self.fields@.take(0) =~= Seq::empty());
                while i < self.fields.len()
                    invariant
                        i <= self.fields.len(),
                        values.len() == self.fields.len(),
                        v == views(values@),
                        fields_admit(self.fields@, v),
                        object@ == object_entries(self.fields@.take(i as int), v.take(i as int)),
                    decreases self.fields.len() - i,
                {
                    proof {
                        assert(self.fields@.take(i + 1).drop_last() =~= self.fields@.take(i as int));
                        assert(v.take(i + 1).drop_last() =~= v.take(i as int));
                        assert(self.fields@.take(i + 1).last() == self.fields@[i as int]);
                        assert(v.take(i + 1).last() == values@[i as int]@);
                        assert(self.fields@[i as int].ty.admits(v[i as int]));
                    }
                    self.fields[i].ty.add_data(&mut object, self.fields[i].field_id, &values[i]);
                    i += 1;
                }
                proof {
                    assert(self.fields@.take(i as int) =~= self.fields@);
                    assert(v.take(i as int) =~= v);
                }
            },
            _ => unreached(),
        }
        object
    }

    /// Writes `value` as a schema object: the data of each field under the
    /// field's id, the fields in declaration order.
    ///
    /// Fails with [`SchemaError::TypeMismatch`] where `value` is not a
    /// structure of this type.
    pub fn into_schema_object(&self, value: &Value) -> (result: Result<SchemaObject, SchemaError>)
        ensures
            match result {
                Ok(object) => self.admits(value@) && object@ == self.encoded(value@),
                Err(e) => !self.admits(value@) && e == SchemaError::TypeMismatch,
            },
    {
        if !self.conforms(value) {
            return Err(SchemaError::TypeMismatch);
        }
        Ok(self.to_object(value))
    }
}

/// Once the entries stand for no values of a prefix of the fields, neither do
/// they of all the fields, and for the same reason.
pub proof fn lemma_object_values_prefix_err(fields: Seq<FieldDefinition>, entries: Seq<EntryView>, n: int)
    requires
        0 <= n <= fields.len(),
        object_values(fields.take(n), entries) is Err,
    ensures
        object_values(fields, entries) == object_values(fields.take(n), entries),
    decreases fields.len() - n,
{
    if n == fields.len() {
        assert(fields.take(n) =~= fields);
    } else {
        assert(fields.take(n + 1).drop_last() =~= fields.take(n));
        lemma_object_values_prefix_err(fields, entries, n + 1);
    }
}

impl SchemaObject {
    /// Reads the field `field` as a value of type `ty`.
    pub fn field(&self, ty: &SchemaType, field: FieldId) -> (result: Result<Value, SchemaError>)
        ensures
            decodes_to(result, ty.field_value(self@, field)),
            ty.wf() && result is Ok ==> ty.admits(result->Ok_0@),
    {
        ty.from_field(self, field)
    }

    /// Reads the whole object as a structure of type `ty`.
    pub fn deserialize(&self, ty: &SchemaObjectType) -> (result: Result<Value, SchemaError>)
        ensures
            decodes_to(result, ty.decoded(self@)),
            ty.wf() && result is Ok ==> ty.admits(result->Ok_0@),
    {
        ty.from_schema_object(self)
    }
}

/// The scalars that primitive data carry, in order.
pub open spec fn scalars_of(data: Seq<DatumView>) -> Seq<Scalar> {
    Seq::new(data.len(), |i: int| data[i]->Primitive_0.scalar())
}

impl SchemaListType {
    /// Replaces the contents of `data` with the values of this kind that the
    /// field `field` of `object` holds, in order.
    pub fn get_field_list(&self, object: &SchemaObject, field: FieldId, data: &mut Vec<Scalar>)
        ensures
            final(data)@ == scalars_of(select(object@, field, WireKind::Primitive(*self))),
    {
        let kind = WireKind::Primitive(*self);
        let ghost selected = select(object@, field, kind);
        let count = object.field_count(field, kind);
        data.clear();
        let mut i: usize = 0;
        while i < count
            invariant
                i <= count,
                count == selected.len(),
                selected == select(object@, field, kind),
                kind == WireKind::Primitive(*self),
                data@ == scalars_of(selected).take(i as int),
            decreases count - i,
        {
            proof {
                lemma_select_kind(object@, field, kind, i as int);
            }
            match object.index_field(field, kind, i) {
                SchemaDatum::Primitive(p) => {
                    data.push(p.scalar());
                },
                _ => unreached(),
            }
            i += 1;
            assert(data@ =~= scalars_of(selected).take(i as int));
        }
        assert(scalars_of(selected).take(i as int) =~= scalars_of(selected));
    }
}

/// The byte string that the field `field` of `object` holds.
///
/// Fails with [`SchemaError::InvalidFieldCount`] unless the field holds
/// exactly one byte string.
pub fn get_bytes(object: &SchemaObject, field: FieldId) -> (result: Result<&Vec<u8>, SchemaError>)
    ensures
        match result {
            Ok(bytes) => select(object@, field, WireKind::Bytes).len() == 1 && DatumView::Bytes(bytes@)
                == select(object@, field, WireKind::Bytes)[0],
            Err(e) => select(object@, field, WireKind::Bytes).len() != 1 && e == SchemaError::InvalidFieldCount,
        },
{
    if object.field_count(field, WireKind::Bytes) != 1 {
        return Err(SchemaError::InvalidFieldCount);
    }
    Ok(index_bytes(object, field, 0))
}

/// The byte string at position `index` among the byte strings that the field
/// `field` of `object` holds.
pub fn index_bytes(object: &SchemaObject, field: FieldId, index: usize) -> (bytes: &Vec<u8>)
    requires
        index < select(object@, field, WireKind::Bytes).len(),
    ensures
        DatumView::Bytes(bytes@) == select(object@, field, WireKind::Bytes)[index as int],
{
    proof {
        lemma_select_kind(object@, field, WireKind::Bytes, index as int);
    }
    match object.index_field(field, WireKind::Bytes, index) {
        SchemaDatum::Bytes(bytes) => bytes,
        _ => unreached(),
    }
}

/// Whether every key of `pairs` is a value of type `k` and every value a
/// value of type `t`.
pub open spec fn pairs_admitted(k: &SchemaIndexType, t: &SchemaIndexType, pairs: Seq<(ValueView, ValueView)>) -> bool {
    forall|i: int| 0 <= i < pairs.len() ==> k.admits((#[trigger] pairs[i]).0) && t.admits(pairs[i].1)
}

/// The entries below the lower bound of a key have keys before it, and the
/// entry at the bound, if there is one, has not.
pub proof fn lemma_lower_bound(pairs: Seq<(ValueView, ValueView)>, key: ValueView)
    ensures
        0 <= lower_bound(pairs, key) <= pairs.len(),
        forall|j: int| 0 <= j < lower_bound(pairs, key) ==> key_lt((#[trigger] pairs[j]).0, key),
        lower_bound(pairs, key) < pairs.len() ==> !key_lt(pairs[lower_bound(pairs, key)].0, key),
    decreases pairs.len(),
{
    if pairs.len() != 0 && key_lt(pairs[0].0, key) {
        let rest = pairs.drop_first();
        lemma_lower_bound(rest, key);
        assert forall|j: int| 0 <= j < lower_bound(pairs, key) implies key_lt((#[trigger] pairs[j]).0, key) by {
            if j > 0 {
                assert(pairs[j] == rest[j - 1]);
            }
        }
        if lower_bound(pairs, key) < pairs.len() {
            assert(pairs[lower_bound(pairs, key)] == rest[lower_bound(rest, key)]);
        }
    }
}

/// Binding a key in a map keeps the map in order and its entries of their
/// types.
pub proof fn lemma_map_insert_admits(
    k: &SchemaIndexType,
    t: &SchemaIndexType,
    pairs: Seq<(ValueView, ValueView)>,
    key: ValueView,
    value: ValueView,
)
    requires
        k.is_key(),
        pairs_admitted(k, t, pairs),
        keys_increase(pairs),
        k.admits(key),
        t.admits(value),
    ensures
        pairs_admitted(k, t, map_insert(pairs, key, value)),
        keys_increase(map_insert(pairs, key, value)),
{
    let i = lower_bound(pairs, key);
    let after = map_insert(pairs, key, value);
    lemma_lower_bound(pairs, key);
    if i < pairs.len() && !key_lt(key, pairs[i].0) {
        lemma_key_lt_total(k, key, pairs[i].0);
        assert forall|a: int, b: int| 0 <= a < b < after.len() implies key_lt(
            #[trigger] after[a].0,
            #[trigger] after[b].0,
        ) by {
            assert(after[a].0 == pairs[a].0 && after[b].0 == pairs[b].0);
        }
    } else {
        assert forall|a: int, b: int| 0 <= a < b < after.len() implies key_lt(
            #[trigger] after[a].0,
            #[trigger] after[b].0,
        ) by {
            if b < i {
                assert(after[a] == pairs[a] && after[b] == pairs[b]);
            } else if b == i {
                assert(after[a] == pairs[a]);
            } else if a < i {
                assert(after[a] == pairs[a] && after[b] == pairs[b - 1]);
                if b - 1 == a {
                } else {
                    assert(key_lt(pairs[a].0, pairs[b - 1].0));
                }
            } else if a == i {
                assert(after[b] == pairs[b - 1]);
                lemma_key_lt_total(k, key, pairs[i].0);
                if b - 1 > i {
                    assert(key_lt(pairs[i].0, pairs[b - 1].0));
                    lemma_key_lt_transitive(k, key, pairs[i].0, pairs[b - 1].0);
                }
            } else {
                assert(after[a] == pairs[a - 1] && after[b] == pairs[b - 1]);
            }
        }
        assert forall|j: int| 0 <= j < after.len() implies k.admits((#[trigger] after[j]).0) && t.admits(
            after[j].1,
        ) by {
            if j < i {
                assert(after[j] == pairs[j]);
            } else if j > i {
                assert(after[j] == pairs[j - 1]);
            }
        }
    }
}

/// The map made of keys and values of their types is in order, and its
/// entries are of their types.
pub proof fn lemma_map_of_admits(
    k: &SchemaIndexType,
    t: &SchemaIndexType,
    keys: Seq<ValueView>,
    values: Seq<ValueView>,
)
    requires
        k.is_key(),
        keys.len() == values.len(),
        forall|i: int| 0 <= i < keys.len() ==> k.admits(#[trigger] keys[i]),
        forall|i: int| 0 <= i < values.len() ==> t.admits(#[trigger] values[i]),
    ensures
        pairs_admitted(k, t, map_of(keys, values)),
        keys_increase(map_of(keys, values)),
    decreases keys.len(),
{
    if keys.len() > 0 {
        assert forall|i: int| 0 <= i < keys.drop_last().len() implies k.admits(#[trigger] keys.drop_last()[i]) by {
            assert(keys.drop_last()[i] == keys[i]);
        }
        assert forall|i: int| 0 <= i < values.drop_last().len() implies t.admits(
            #[trigger] values.drop_last()[i],
        ) by {
            assert(values.drop_last()[i] == values[i]);
        }
        lemma_map_of_admits(k, t, keys.drop_last(), values.drop_last());
        assert(keys.last() == keys[keys.len() - 1]);
        assert(values.last() == values[values.len() - 1]);
        lemma_map_insert_admits(k, t, map_of(keys.drop_last(), values.drop_last()), keys.last(), values.last());
    }
}

/// What a datum of a well-formed type's wire kind stands for is a value of
/// the type.
pub proof fn lemma_value_of_admits(t: &SchemaIndexType, datum: DatumView)
    requires
        t.wf(),
        datum.kind() == t.wire_kind(),
        t.value_of(datum) is Ok,
    ensures
        t.admits(t.value_of(datum)->Ok_0),
    decreases t, 0nat,
{
    match t {
        SchemaIndexType::Primitive(kind) => {
            lemma_scalar_wrap(datum->Primitive_0);
        },
        SchemaIndexType::Bytes => {},
        SchemaIndexType::Text => {},
        SchemaIndexType::Object(object_type) => {
            lemma_object_values_admit(object_type.fields@, datum->Object_0);
        },
    }
}

/// What data of a well-formed type's wire kind stand for are values of the
/// type, as many as there are data.
pub proof fn lemma_values_of_admit(t: &SchemaIndexType, data: Seq<DatumView>)
    requires
        t.wf(),
        forall|i: int| 0 <= i < data.len() ==> (#[trigger] data[i]).kind() == t.wire_kind(),
        values_of(t, data) is Ok,
    ensures
        values_of(t, data)->Ok_0.len() == data.len(),
        forall|i: int| 0 <= i < data.len() ==> t.admits(#[trigger] values_of(t, data)->Ok_0[i]),
    decreases t, data.len() + 1,
{
    if data.len() > 0 {
        assert forall|i: int| 0 <= i < data.drop_last().len() implies (#[trigger] data.drop_last()[i]).kind()
            == t.wire_kind() by {
            assert(data.drop_last()[i] == data[i]);
        }
        lemma_values_of_admit(t, data.drop_last());
        assert(data.last() == data[data.len() - 1]);
        lemma_value_of_admits(t, data.last());
    }
}

/// What data of a well-formed type's field kind stand for is a value of the
/// type. For a map this says that its entries are in key order.
pub proof fn lemma_decoded_admits(ty: &SchemaType, data: Seq<DatumView>)
    requires
        ty.wf(),
        forall|i: int| 0 <= i < data.len() ==> (#[trigger] data[i]).kind() == ty.field_kind(),
        ty.decoded(data) is Ok,
    ensures
        ty.admits(ty.decoded(data)->Ok_0),
    decreases ty, 0nat,
{
    match ty {
        SchemaType::Required(t) => {
            lemma_value_of_admits(t, data[0]);
        },
        SchemaType::Optional(t) => {
            if data.len() == 1 {
                lemma_value_of_admits(t, data[0]);
            }
        },
        SchemaType::List(t) => {
            lemma_values_of_admit(t, data);
        },
        SchemaType::Mapping(k, t) => {
            let entries = data[0]->Object_0;
            let key_data = select(entries, SCHEMA_MAP_KEY_FIELD_ID, k.wire_kind());
            let value_data = select(entries, SCHEMA_MAP_VALUE_FIELD_ID, t.wire_kind());
            assert forall|i: int| 0 <= i < key_data.len() implies (#[trigger] key_data[i]).kind()
                == k.wire_kind() by {
                lemma_select_kind(entries, SCHEMA_MAP_KEY_FIELD_ID, k.wire_kind(), i);
            }
            assert forall|i: int| 0 <= i < value_data.len() implies (#[trigger] value_data[i]).kind()
                == t.wire_kind() by {
                lemma_select_kind(entries, SCHEMA_MAP_VALUE_FIELD_ID, t.wire_kind(), i);
            }
            lemma_values_of_admit(k, key_data);
            lemma_values_of_admit(t, value_data);
            lemma_map_of_admits(k, t, values_of(k, key_data)->Ok_0, values_of(t, value_data)->Ok_0);
        },
    }
}

/// What entries stand for as the fields of a well-formed structure are
/// values of the fields' types.
pub proof fn lemma_object_values_admit(fields: Seq<FieldDefinition>, entries: Seq<EntryView>)
    requires
        fields_wf(fields),
        object_values(fields, entries) is Ok,
    ensures
        fields_admit(fields, object_values(fields, entries)->Ok_0),
    decreases fields, 0nat,
{
    if fields.len() > 0 {
        let front = fields.drop_last();
        assert(fields_wf(front)) by {
            assert forall|i: int| 0 <= i < front.len() implies (#[trigger] front[i]).ty.wf() by {
                assert(front[i] == fields[i]);
            }
        }
        assert(object_values(front, entries) is Ok);
        lemma_object_values_admit(front, entries);
        let last = fields.last();
        assert(last == fields[fields.len() - 1]);
        let data = select(entries, last.field_id, last.ty.field_kind());
        assert(last.ty.field_value(entries, last.field_id) == last.ty.decoded(data));
        assert(last.ty.decoded(data) is Ok);
        assert forall|i: int| 0 <= i < data.len() implies (#[trigger] data[i]).kind() == last.ty.field_kind() by {
            lemma_select_kind(entries, last.field_id, last.ty.field_kind(), i);
        }
        lemma_decoded_admits(&last.ty, data);
        let values = object_values(fields, entries)->Ok_0;
        let front_values = object_values(front, entries)->Ok_0;
        assert(values == front_values.push(last.ty.decoded(data)->Ok_0));
        assert forall|i: int| 0 <= i < fields.len() implies (#[trigger] fields[i]).ty.admits(values[i]) by {
            if i < front.len() {
                assert(front[i] == fields[i]);
                assert(values[i] == front_values[i]);
            }
        }
    }
}

impl SchemaObjectType {
    /// What entries stand for as a structure of this type, a well-formed
    /// type, is a structure of this type.
    pub proof fn lemma_decoded_admits(&self, entries: Seq<EntryView>)
        requires
            self.wf(),
            self.decoded(entries) is Ok,
        ensures
            self.admits(self.decoded(entries)->Ok_0),
    {
        lemma_object_values_admit(self.fields@, entries);
    }
}

} // verus!
