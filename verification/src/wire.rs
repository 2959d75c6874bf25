//! The byte form of schema objects.
//!
//! All numbers are little-endian. An object is the number of its entries in
//! four bytes and then the entries in order. An entry is its field id in four
//! bytes, one tag byte, and the datum: a primitive in the four or eight bytes
//! of its value, a byte string as its length in four bytes and then the
//! bytes, a nested object as an object. The tag of a primitive tells its wire
//! kind.

use vstd::prelude::*;
use vstd::bytes::{
    lemma_auto_spec_u32_to_from_le_bytes, lemma_auto_spec_u64_to_from_le_bytes, spec_u32_from_le_bytes,
    spec_u32_to_le_bytes, spec_u64_from_le_bytes, spec_u64_to_le_bytes, u32_from_le_bytes, u32_to_le_bytes,
    u64_from_le_bytes, u64_to_le_bytes,
};
use vstd::slice::slice_subrange;
use crate::schema::{
    lemma_object_datum_view, lemma_scalar_wrap, DatumView, EntryView, Scalar, ScalarType, SchemaDatum,
    SchemaListType, SchemaObject,
};

verus! {

/// The tag of a byte string.
pub const BYTES_TAG: u8 = 14;

/// The tag of a nested object.
pub const OBJECT_TAG: u8 = 15;

impl SchemaListType {
    /// The tag byte of primitives of this kind.
    pub open spec fn spec_tag(self) -> u8 {
        match self {
            SchemaListType::Float => 0,
            SchemaListType::Double => 1,
            SchemaListType::Int32 => 2,
            SchemaListType::Int64 => 3,
            SchemaListType::Uint32 => 4,
            SchemaListType::Uint64 => 5,
            SchemaListType::Sint32 => 6,
            SchemaListType::Sint64 => 7,
            SchemaListType::Fixed32 => 8,
            SchemaListType::Fixed64 => 9,
            SchemaListType::Sfixed32 => 10,
            SchemaListType::Sfixed64 => 11,
            SchemaListType::EntityId => 12,
            SchemaListType::Enum => 13,
        }
    }

    /// The tag byte of primitives of this kind.
    #[verifier::when_used_as_spec(spec_tag)]
    pub fn tag(self) -> (tag: u8)
        ensures
            tag == self.spec_tag(),
    {
        match self {
            SchemaListType::Float => 0,
            SchemaListType::Double => 1,
            SchemaListType::Int32 => 2,
            SchemaListType::Int64 => 3,
            SchemaListType::Uint32 => 4,
            SchemaListType::Uint64 => 5,
            SchemaListType::Sint32 => 6,
            SchemaListType::Sint64 => 7,
            SchemaListType::Fixed32 => 8,
            SchemaListType::Fixed64 => 9,
            SchemaListType::Sfixed32 => 10,
            SchemaListType::Sfixed64 => 11,
            SchemaListType::EntityId => 12,
            SchemaListType::Enum => 13,
        }
    }

    /// The primitive kind with the tag byte `tag`, if there is one.
    pub open spec fn spec_from_tag(tag: u8) -> Option<SchemaListType> {
        if tag == 0 {
            Some(SchemaListType::Float)
        } else if tag == 1 {
            Some(SchemaListType::Double)
        } else if tag == 2 {
            Some(SchemaListType::Int32)
        } else if tag == 3 {
            Some(SchemaListType::Int64)
        } else if tag == 4 {
            Some(SchemaListType::Uint32)
        } else if tag == 5 {
            Some(SchemaListType::Uint64)
        } else if tag == 6 {
            Some(SchemaListType::Sint32)
        } else if tag == 7 {
            Some(SchemaListType::Sint64)
        } else if tag == 8 {
            Some(SchemaListType::Fixed32)
        } else if tag == 9 {
            Some(SchemaListType::Fixed64)
        } else if tag == 10 {
            Some(SchemaListType::Sfixed32)
        } else if tag == 11 {
            Some(SchemaListType::Sfixed64)
        } else if tag == 12 {
            Some(SchemaListType::EntityId)
        } else if tag == 13 {
            Some(SchemaListType::Enum)
        } else {
            None
        }
    }

    /// The primitive kind with the tag byte `tag`, if there is one.
    #[verifier::when_used_as_spec(spec_from_tag)]
    pub fn from_tag(tag: u8) -> (kind: Option<SchemaListType>)
        ensures
            kind == Self::spec_from_tag(tag),
    {
        if tag == 0 {
            Some(SchemaListType::Float)
        } else if tag == 1 {
            Some(SchemaListType::Double)
        } else if tag == 2 {
            Some(SchemaListType::Int32)
        } else if tag == 3 {
            Some(SchemaListType::Int64)
        } else if tag == 4 {
            Some(SchemaListType::Uint32)
        } else if tag == 5 {
            Some(SchemaListType::Uint64)
        } else if tag == 6 {
            Some(SchemaListType::Sint32)
        } else if tag == 7 {
            Some(SchemaListType::Sint64)
        } else if tag == 8 {
            Some(SchemaListType::Fixed32)
        } else if tag == 9 {
            Some(SchemaListType::Fixed64)
        } else if tag == 10 {
            Some(SchemaListType::Sfixed32)
        } else if tag == 11 {
            Some(SchemaListType::Sfixed64)
        } else if tag == 12 {
            Some(SchemaListType::EntityId)
        } else if tag == 13 {
            Some(SchemaListType::Enum)
        } else {
            None
        }
    }
}

impl ScalarType {
    /// How many bytes a value of this type takes.
    pub open spec fn spec_width(self) -> usize {
        match self {
            ScalarType::F32 | ScalarType::I32 | ScalarType::U32 => 4,
            ScalarType::F64 | ScalarType::I64 | ScalarType::U64 => 8,
        }
    }

    /// How many bytes a value of this type takes.
    #[verifier::when_used_as_spec(spec_width)]
    pub fn width(self) -> (width: usize)
        ensures
            width == self.spec_width(),
    {
        match self {
            ScalarType::F32 | ScalarType::I32 | ScalarType::U32 => 4,
            ScalarType::F64 | ScalarType::I64 | ScalarType::U64 => 8,
        }
    }
}

/// The bytes of `value`: as many as its type is wide.
pub open spec fn scalar_bytes(value: Scalar) -> Seq<u8> {
    match value {
        Scalar::F32(x) => spec_u32_to_le_bytes(x),
        Scalar::F64(x) => spec_u64_to_le_bytes(x),
        Scalar::I32(x) => spec_u32_to_le_bytes(x as u32),
        Scalar::I64(x) => spec_u64_to_le_bytes(x as u64),
        Scalar::U32(x) => spec_u32_to_le_bytes(x),
        Scalar::U64(x) => spec_u64_to_le_bytes(x),
    }
}

/// The value of type `scalar_type` that `bytes` are the bytes of, `bytes`
/// being as many as the type is wide.
pub open spec fn scalar_from_bytes(scalar_type: ScalarType, bytes: Seq<u8>) -> Scalar {
    match scalar_type {
        ScalarType::F32 => Scalar::F32(spec_u32_from_le_bytes(bytes)),
        ScalarType::F64 => Scalar::F64(spec_u64_from_le_bytes(bytes)),
        ScalarType::I32 => Scalar::I32(spec_u32_from_le_bytes(bytes) as i32),
        ScalarType::I64 => Scalar::I64(spec_u64_from_le_bytes(bytes) as i64),
        ScalarType::U32 => Scalar::U32(spec_u32_from_le_bytes(bytes)),
        ScalarType::U64 => Scalar::U64(spec_u64_from_le_bytes(bytes)),
    }
}

/// A scalar comes back from its bytes, which are as many as its type is
/// wide.
pub proof fn lemma_scalar_bytes(value: Scalar)
    ensures
        scalar_bytes(value).len() == value.scalar_type().width(),
        scalar_from_bytes(value.scalar_type(), scalar_bytes(value)) == value,
{
    lemma_auto_spec_u32_to_from_le_bytes();
    lemma_auto_spec_u64_to_from_le_bytes();
    match value {
        Scalar::I32(x) => {
            assert(spec_u32_to_le_bytes(x as u32).len() == 4);
            assert((x as u32) as i32 == x) by (bit_vector);
        },
        Scalar::I64(x) => {
            assert(spec_u64_to_le_bytes(x as u64).len() == 8);
            assert((x as u64) as i64 == x) by (bit_vector);
        },
        Scalar::F32(x) => {
            assert(spec_u32_to_le_bytes(x).len() == 4);
        },
        Scalar::U32(x) => {
            assert(spec_u32_to_le_bytes(x).len() == 4);
        },
        Scalar::F64(x) => {
            assert(spec_u64_to_le_bytes(x).len() == 8);
        },
        Scalar::U64(x) => {
            assert(spec_u64_to_le_bytes(x).len() == 8);
        },
    }
}

/// Whether `datum` can be written: every byte string in it, and every list
/// of entries, has a length that fits in four bytes.
pub open spec fn datum_fits(datum: DatumView) -> bool
    decreases datum,
{
    match datum {
        DatumView::Primitive(_) => true,
        DatumView::Bytes(bytes) => bytes.len() <= u32::MAX,
        DatumView::Object(entries) => entries_fit(entries),
    }
}

/// Whether an object with the entries `entries` can be written.
pub open spec fn entries_fit(entries: Seq<EntryView>) -> bool
    decreases entries,
{
    &&& entries.len() <= u32::MAX
    &&& forall|i: int| 0 <= i < entries.len() ==> datum_fits((#[trigger] entries[i]).datum)
}

/// The bytes of `datum`: its tag and what it holds.
pub open spec fn datum_bytes(datum: DatumView) -> Seq<u8>
    decreases datum,
{
    match datum {
        DatumView::Primitive(p) => seq![p.kind().tag()] + scalar_bytes(p.scalar()),
        DatumView::Bytes(bytes) => seq![BYTES_TAG] + spec_u32_to_le_bytes(bytes.len() as u32) + bytes,
        DatumView::Object(entries) => seq![OBJECT_TAG] + spec_u32_to_le_bytes(entries.len() as u32)
            + list_bytes(entries),
    }
}

/// The bytes of `entry`: its field id and its datum.
pub open spec fn entry_bytes(entry: EntryView) -> Seq<u8>
    decreases entry,
{
    spec_u32_to_le_bytes(entry.field) + datum_bytes(entry.datum)
}

/// The bytes of `entries`, one entry after the other.
pub open spec fn list_bytes(entries: Seq<EntryView>) -> Seq<u8>
    decreases entries,
{
    if entries.len() == 0 {
        Seq::empty()
    } else {
        entry_bytes(entries[0]) + list_bytes(entries.drop_first())
    }
}

/// The bytes of an object with the entries `entries`: their number and then
/// the entries.
pub open spec fn object_bytes(entries: Seq<EntryView>) -> Seq<u8> {
    spec_u32_to_le_bytes(entries.len() as u32) + list_bytes(entries)
}

/// Reads a datum from the front of `bytes`: the datum and how many bytes it
/// took, or `None` where the bytes do not start with a datum.
pub open spec fn parse_datum(bytes: Seq<u8>) -> Option<(DatumView, int)>
    decreases bytes.len(), 0nat,
{
    if bytes.len() < 1 {
        None
    } else if bytes[0] == OBJECT_TAG {
        match parse_object(bytes.skip(1)) {
            Some((entries, used)) => Some((DatumView::Object(entries), used + 1)),
            None => None,
        }
    } else if bytes[0] == BYTES_TAG {
        if bytes.len() < 5 {
            None
        } else {
            let length = spec_u32_from_le_bytes(bytes.subrange(1, 5));
            if bytes.len() < 5 + length {
                None
            } else {
                Some((DatumView::Bytes(bytes.subrange(5, 5 + length)), 5 + length))
            }
        }
    } else {
        match SchemaListType::spec_from_tag(bytes[0]) {
            None => None,
            Some(kind) => {
                let width = kind.scalar_type().width();
                if bytes.len() < 1 + width {
                    None
                } else {
                    Some(
                        (
                            DatumView::Primitive(
                                kind.spec_wrap(scalar_from_bytes(kind.scalar_type(), bytes.subrange(1, 1 + width))),
                            ),
                            1 + width,
                        ),
                    )
                }
            },
        }
    }
}

/// Reads an entry from the front of `bytes`.
pub open spec fn parse_entry(bytes: Seq<u8>) -> Option<(EntryView, int)>
    decreases bytes.len(), 1nat,
{
    if bytes.len() < 4 {
        None
    } else {
        match parse_datum(bytes.skip(4)) {
            Some((datum, used)) => Some(
                (EntryView { field: spec_u32_from_le_bytes(bytes.subrange(0, 4)), datum }, used + 4),
            ),
            None => None,
        }
    }
}

/// Reads `count` entries from the front of `bytes`.
pub open spec fn parse_list(bytes: Seq<u8>, count: nat) -> Option<(Seq<EntryView>, int)>
    decreases bytes.len(), count + 2,
{
    if count == 0 {
        Some((Seq::empty(), 0))
    } else {
        match parse_entry(bytes) {
            None => None,
            Some((entry, used)) => if used <= 0 || used > bytes.len() {
                None
            } else {
                match parse_list(bytes.skip(used), (count - 1) as nat) {
                    None => None,
                    Some((entries, more)) => Some((seq![entry] + entries, used + more)),
                }
            },
        }
    }
}

/// Reads an object from the front of `bytes`.
pub open spec fn parse_object(bytes: Seq<u8>) -> Option<(Seq<EntryView>, int)>
    decreases bytes.len(), 0nat,
{
    if bytes.len() < 4 {
        None
    } else {
        match parse_list(bytes.skip(4), spec_u32_from_le_bytes(bytes.subrange(0, 4)) as nat) {
            Some((entries, used)) => Some((entries, used + 4)),
            None => None,
        }
    }
}

/// Every kind comes back from its tag, and no kind has the tag of a byte
/// string or of an object.
pub proof fn lemma_tag(kind: SchemaListType)
    ensures
        SchemaListType::spec_from_tag(kind.tag()) == Some(kind),
        kind.tag() != BYTES_TAG,
        kind.tag() != OBJECT_TAG,
{
}

/// The bytes of a list with one more entry are the bytes of the list and
/// then those of the entry.
pub proof fn lemma_list_bytes_push(entries: Seq<EntryView>, entry: EntryView)
    ensures
        list_bytes(entries.push(entry)) == list_bytes(entries) + entry_bytes(entry),
    decreases entries.len(),
{
    if entries.len() == 0 {
        assert(entries.push(entry).drop_first() =~= Seq::<EntryView>::empty());
        assert(list_bytes(Seq::<EntryView>::empty()) =~= Seq::<u8>::empty());
        assert(list_bytes(entries.push(entry)) =~= list_bytes(entries) + entry_bytes(entry));
    } else {
        assert(entries.push(entry).drop_first() =~= entries.drop_first().push(entry));
        lemma_list_bytes_push(entries.drop_first(), entry);
        assert(list_bytes(entries.push(entry)) =~= list_bytes(entries) + entry_bytes(entry));
    }
}

/// What was read from the front of some bytes took at least one of them and
/// no more than there are.
pub proof fn lemma_parse_datum_bounds(bytes: Seq<u8>)
    ensures
        parse_datum(bytes) is Some ==> 0 < parse_datum(bytes)->Some_0.1 <= bytes.len(),
    decreases bytes.len(), 0nat,
{
    if bytes.len() >= 1 && bytes[0] == OBJECT_TAG {
        lemma_parse_object_bounds(bytes.skip(1));
    }
}

/// An entry that was read took at least five bytes and no more than there
/// are.
pub proof fn lemma_parse_entry_bounds(bytes: Seq<u8>)
    ensures
        parse_entry(bytes) is Some ==> 4 < parse_entry(bytes)->Some_0.1 <= bytes.len(),
    decreases bytes.len(), 1nat,
{
    if bytes.len() >= 4 {
        lemma_parse_datum_bounds(bytes.skip(4));
    }
}

/// The entries that were read are as many as were asked for, and took no
/// more bytes than there are.
pub proof fn lemma_parse_list_bounds(bytes: Seq<u8>, count: nat)
    ensures
        parse_list(bytes, count) is Some ==> 0 <= parse_list(bytes, count)->Some_0.1 <= bytes.len()
            && parse_list(bytes, count)->Some_0.0.len() == count,
    decreases bytes.len(), count + 2,
{
    if count > 0 {
        lemma_parse_entry_bounds(bytes);
        match parse_entry(bytes) {
            None => {},
            Some((entry, used)) => {
                if 0 < used <= bytes.len() {
                    lemma_parse_list_bounds(bytes.skip(used), (count - 1) as nat);
                }
            },
        }
    }
}

/// An object that was read took at least four bytes and no more than there
/// are.
pub proof fn lemma_parse_object_bounds(bytes: Seq<u8>)
    ensures
        parse_object(bytes) is Some ==> 4 <= parse_object(bytes)->Some_0.1 <= bytes.len(),
    decreases bytes.len(), 0nat,
{
    if bytes.len() >= 4 {
        lemma_parse_list_bounds(bytes.skip(4), spec_u32_from_le_bytes(bytes.subrange(0, 4)) as nat);
    }
}

/// Round trip, for a datum: a datum that can be written is read back from
/// its bytes, whatever follows them.
pub proof fn lemma_datum_round_trip(datum: DatumView, rest: Seq<u8>)
    requires
        datum_fits(datum),
    ensures
        parse_datum(datum_bytes(datum) + rest) == Some((datum, datum_bytes(datum).len() as int)),
    decreases datum, 0nat,
{
    let bytes = datum_bytes(datum) + rest;
    lemma_auto_spec_u32_to_from_le_bytes();
    match datum {
        DatumView::Primitive(p) => {
            lemma_tag(p.kind());
            lemma_scalar_wrap(p);
            lemma_scalar_bytes(p.scalar());
            let width = p.kind().scalar_type().width();
            assert(bytes[0] == p.kind().tag());
            assert(bytes.subrange(1, 1 + width) =~= scalar_bytes(p.scalar()));
        },
        DatumView::Bytes(content) => {
            assert(bytes[0] == BYTES_TAG);
            assert(bytes.subrange(1, 5) =~= spec_u32_to_le_bytes(content.len() as u32));
            assert(bytes.subrange(5, 5 + content.len() as int) =~= content);
        },
        DatumView::Object(entries) => {
            assert(bytes[0] == OBJECT_TAG);
            assert(bytes.skip(1) =~= object_bytes(entries) + rest);
            lemma_object_round_trip(entries, rest);
        },
    }
}

/// Round trip, for a list of entries.
pub proof fn lemma_list_round_trip(entries: Seq<EntryView>, rest: Seq<u8>)
    requires
        forall|i: int| 0 <= i < entries.len() ==> datum_fits((#[trigger] entries[i]).datum),
    ensures
        parse_list(list_bytes(entries) + rest, entries.len()) == Some((entries, list_bytes(entries).len() as int)),
    decreases entries, 0nat,
{
    if entries.len() > 0 {
        lemma_auto_spec_u32_to_from_le_bytes();
        let first = entries[0];
        let tail = entries.drop_first();
        let bytes = list_bytes(entries) + rest;
        let after = list_bytes(tail) + rest;
        assert(list_bytes(entries) == entry_bytes(first) + list_bytes(tail));
        assert(entry_bytes(first) == spec_u32_to_le_bytes(first.field) + datum_bytes(first.datum));
        assert(bytes =~= spec_u32_to_le_bytes(first.field) + (datum_bytes(first.datum) + after));
        assert(bytes.subrange(0, 4) =~= spec_u32_to_le_bytes(first.field));
        assert(bytes.skip(4) =~= datum_bytes(first.datum) + after);
        lemma_datum_round_trip(first.datum, after);
        let used = entry_bytes(first).len() as int;
        assert(parse_entry(bytes) == Some((first, used)));
        assert(bytes.skip(used) =~= after);
        assert forall|i: int| 0 <= i < tail.len() implies datum_fits((#[trigger] tail[i]).datum) by {
            assert(tail[i] == entries[i + 1]);
        }
        lemma_list_round_trip(tail, rest);
        assert(seq![first] + tail =~= entries);
    }
}

/// Round trip, for an object: an object that can be written is read back
/// from its bytes, whatever follows them.
pub proof fn lemma_object_round_trip(entries: Seq<EntryView>, rest: Seq<u8>)
    requires
        entries_fit(entries),
    ensures
        parse_object(object_bytes(entries) + rest) == Some((entries, object_bytes(entries).len() as int)),
    decreases entries, 1nat,
{
    lemma_auto_spec_u32_to_from_le_bytes();
    let bytes = object_bytes(entries) + rest;
    assert(bytes.subrange(0, 4) =~= spec_u32_to_le_bytes(entries.len() as u32));
    assert(bytes.skip(4) =~= list_bytes(entries) + rest);
    lemma_list_round_trip(entries, rest);
}

/// Appends the four bytes of `x`.
pub(crate) fn put_u32(out: &mut Vec<u8>, x: u32)
    ensures
        final(out)@ == old(out)@ + spec_u32_to_le_bytes(x),
{
    let mut bytes = u32_to_le_bytes(x);
    out.append(&mut bytes);
}

/// Appends the eight bytes of `x`.
pub(crate) fn put_u64(out: &mut Vec<u8>, x: u64)
    ensures
        final(out)@ == old(out)@ + spec_u64_to_le_bytes(x),
{
    let mut bytes = u64_to_le_bytes(x);
    out.append(&mut bytes);
}

/// Appends the bytes of `value`.
fn put_scalar(out: &mut Vec<u8>, value: Scalar)
    ensures
        final(out)@ == old(out)@ + scalar_bytes(value),
{
    match value {
        Scalar::F32(x) => put_u32(out, x),
        Scalar::F64(x) => put_u64(out, x),
        Scalar::I32(x) => put_u32(out, x as u32),
        Scalar::I64(x) => put_u64(out, x as u64),
        Scalar::U32(x) => put_u32(out, x),
        Scalar::U64(x) => put_u64(out, x),
    }
}

/// Appends the bytes of `datum`, if it can be written. Where it cannot,
/// what was appended is of no use.
fn write_datum(datum: &SchemaDatum, out: &mut Vec<u8>) -> (written: bool)
    ensures
        written == datum_fits(datum@),
        written ==> final(out)@ == old(out)@ + datum_bytes(datum@),
    decreases datum, 0nat,
{
    match datum {
        SchemaDatum::Primitive(p) => {
            out.push(p.kind().tag());
            put_scalar(out, p.scalar());
            assert(out@ =~= old(out)@ + datum_bytes(datum@));
            true
        },
        SchemaDatum::Bytes(bytes) => {
            if bytes.len() > u32::MAX as usize {
                return false;
            }
            out.push(BYTES_TAG);
            put_u32(out, bytes.len() as u32);
            let mut copy = bytes.clone();
            out.append(&mut copy);
            assert(out@ =~= old(out)@ + datum_bytes(datum@));
            true
        },
        SchemaDatum::Object(object) => {
            proof {
                lemma_object_datum_view(datum);
            }
            out.push(OBJECT_TAG);
            let written = write_object(object, out);
            proof {
                if written {
                    assert(out@ =~= old(out)@ + datum_bytes(datum@));
                }
            }
            written
        },
    }
}

/// Appends the bytes of `object`, if it can be written. Where it cannot,
/// what was appended is of no use.
fn write_object(object: &SchemaObject, out: &mut Vec<u8>) -> (written: bool)
    ensures
        written == entries_fit(object@),
        written ==> final(out)@ == old(out)@ + object_bytes(object@),
    decreases object, 1nat,
{
    if object.entries.len() > u32::MAX as usize {
        return false;
    }
    put_u32(out, object.entries.len() as u32);
    let ghost start = out@;
    let mut i: usize = 0;
    assert(object@.take(0) =~= Seq::<EntryView>::empty());
    assert(out@ =~= start + list_bytes(object@.take(0)));
    while i < object.entries.len()
        invariant
            i <= object.entries.len(),
            object.entries.len() <= u32::MAX,
            out@ == start + list_bytes(object@.take(i as int)),
            forall|j: int| 0 <= j < i ==> datum_fits((#[trigger] object@[j]).datum),
        decreases object.entries.len() - i,
    {
        put_u32(out, object.entries[i].field);
        if !write_datum(&object.entries[i].datum, out) {
            assert(!datum_fits(object@[i as int].datum));
            return false;
        }
        proof {
            assert(object@.take(i + 1) =~= object@.take(i as int).push(object@[i as int]));
            lemma_list_bytes_push(object@.take(i as int), object@[i as int]);
            assert(out@ =~= start + list_bytes(object@.take(i + 1)));
        }
        i += 1;
    }
    proof {
        assert(object@.take(i as int) =~= object@);
        assert(out@ =~= old(out)@ + object_bytes(object@));
    }
    true
}

/// The number that the four bytes from `position` on stand for.
pub(crate) fn get_u32(bytes: &[u8], position: usize) -> (x: u32)
    requires
        position + 4 <= bytes.len(),
    ensures
        x == spec_u32_from_le_bytes(bytes@.subrange(position as int, position + 4)),
{
    u32_from_le_bytes(slice_subrange(bytes, position, position + 4))
}

/// The number that the eight bytes from `position` on stand for.
pub(crate) fn get_u64(bytes: &[u8], position: usize) -> (x: u64)
    requires
        position + 8 <= bytes.len(),
    ensures
        x == spec_u64_from_le_bytes(bytes@.subrange(position as int, position + 8)),
{
    u64_from_le_bytes(slice_subrange(bytes, position, position + 8))
}

/// The value of type `scalar_type` that the bytes from `position` on stand
/// for.
fn get_scalar(scalar_type: ScalarType, bytes: &[u8], position: usize) -> (value: Scalar)
    requires
        position + scalar_type.width() <= bytes.len(),
    ensures
        value == scalar_from_bytes(
            scalar_type,
            bytes@.subrange(position as int, position + scalar_type.width()),
        ),
{
    match scalar_type {
        ScalarType::F32 => Scalar::F32(get_u32(bytes, position)),
        ScalarType::F64 => Scalar::F64(get_u64(bytes, position)),
        ScalarType::I32 => Scalar::I32(get_u32(bytes, position) as i32),
        ScalarType::I64 => Scalar::I64(get_u64(bytes, position) as i64),
        ScalarType::U32 => Scalar::U32(get_u32(bytes, position)),
        ScalarType::U64 => Scalar::U64(get_u64(bytes, position)),
    }
}

/// Whether `read` is what `parsed` says of the bytes from `position` on: the
/// datum with that view and the position behind it, or nothing.
pub open spec fn datum_read(read: Option<(SchemaDatum, usize)>, position: usize, parsed: Option<(DatumView, int)>) -> bool {
    match parsed {
        Some((datum, used)) => read is Some && read->Some_0.0@ == datum && read->Some_0.1 == position + used,
        None => read is None,
    }
}

/// Whether `read` is what `parsed` says of the bytes from `position` on: the
/// object with that view and the position behind it, or nothing.
pub open spec fn object_read(read: Option<(SchemaObject, usize)>, position: usize, parsed: Option<(Seq<EntryView>, int)>) -> bool {
    match parsed {
        Some((entries, used)) => read is Some && read->Some_0.0@ == entries && read->Some_0.1 == position + used,
        None => read is None,
    }
}

/// Reads a datum from `position` on.
fn read_datum(bytes: &[u8], position: usize) -> (read: Option<(SchemaDatum, usize)>)
    requires
        position <= bytes@.len(),
    ensures
        datum_read(read, position, parse_datum(bytes@.skip(position as int))),
    decreases bytes@.len() - position, 0nat,
{
    let ghost rest = bytes@.skip(position as int);
    let left = bytes.len() - position;
    if left < 1 {
        return None;
    }
    let tag = bytes[position];
    assert(rest[0] == tag);
    if tag == OBJECT_TAG {
        assert(rest.skip(1) =~= bytes@.skip(position + 1));
        match read_object(bytes, position + 1) {
            Some((object, next)) => {
                let datum = SchemaDatum::Object(object);
                proof {
                    lemma_object_datum_view(&datum);
                }
                Some((datum, next))
            },
            None => None,
        }
    } else if tag == BYTES_TAG {
        if left < 5 {
            return None;
        }
        assert(rest.subrange(1, 5) =~= bytes@.subrange(position + 1, position + 5));
        let length = get_u32(bytes, position + 1) as usize;
        if left - 5 < length {
            return None;
        }
        let content = vstd::slice::slice_to_vec(slice_subrange(bytes, position + 5, position + 5 + length));
        assert(rest.subrange(5, 5 + length) =~= bytes@.subrange(position + 5, position + 5 + length));
        Some((SchemaDatum::Bytes(content), position + 5 + length))
    } else {
        match SchemaListType::from_tag(tag) {
            None => None,
            Some(kind) => {
                let width = kind.scalar_type().width();
                if left - 1 < width {
                    return None;
                }
                assert(rest.subrange(1, 1 + width) =~= bytes@.subrange(position + 1, position + 1 + width));
                let value = get_scalar(kind.scalar_type(), bytes, position + 1);
                match kind.wrap(value) {
                    Some(p) => Some((SchemaDatum::Primitive(p), position + 1 + width)),
                    None => None,
                }
            },
        }
    }
}

/// What `parsed` says of a list, with `front` put before its entries and
/// `offset` added to the bytes it took.
pub open spec fn list_after(front: Seq<EntryView>, offset: int, parsed: Option<(Seq<EntryView>, int)>) -> Option<
    (Seq<EntryView>, int),
> {
    match parsed {
        Some((entries, used)) => Some((front + entries, offset + used)),
        None => None,
    }
}

/// Reads an object from `position` on.
#[verifier::loop_isolation(false)]
pub(crate) fn read_object(bytes: &[u8], position: usize) -> (read: Option<(SchemaObject, usize)>)
    requires
        position <= bytes@.len(),
    ensures
        object_read(read, position, parse_object(bytes@.skip(position as int))),
    decreases bytes@.len() - position, 1nat,
{
    let ghost rest = bytes@.skip(position as int);
    if bytes.len() - position < 4 {
        return None;
    }
    assert(rest.subrange(0, 4) =~= bytes@.subrange(position as int, position + 4));
    let count = get_u32(bytes, position);
    let mut object = SchemaObject::new();
    let mut next: usize = position + 4;
    let mut i: u32 = 0;
    let ghost whole = parse_list(rest.skip(4), count as nat);
    assert(rest.skip(4) =~= bytes@.skip(next as int));
    assert(whole == list_after(object@, 0, parse_list(bytes@.skip(next as int), count as nat))) by {
        match parse_list(bytes@.skip(next as int), count as nat) {
            Some((entries, used)) => {
                assert(object@ + entries =~= entries);
            },
            None => {},
        }
    }
    while i < count
        invariant
            i <= count,
            position + 4 <= next <= bytes@.len(),
            whole == list_after(
                object@,
                next - position - 4,
                parse_list(bytes@.skip(next as int), (count - i) as nat),
            ),
        decreases count - i,
    {
        let ghost here = bytes@.skip(next as int);
        proof {
            lemma_parse_entry_bounds(here);
        }
        if bytes.len() - next < 4 {
            return None;
        }
        assert(here.subrange(0, 4) =~= bytes@.subrange(next as int, next + 4));
        assert(here.skip(4) =~= bytes@.skip(next + 4));
        let field = get_u32(bytes, next);
        let (datum, after) = match read_datum(bytes, next + 4) {
            Some(read) => read,
            None => {
                return None;
            },
        };
        proof {
            let entry = EntryView { field, datum: datum@ };
            let used = after - next;
            assert(parse_entry(here) == Some((entry, used as int)));
            assert(here.skip(used as int) =~= bytes@.skip(after as int));
            match parse_list(bytes@.skip(after as int), (count - i - 1) as nat) {
                Some((entries, more)) => {
                    assert(object@ + (seq![entry] + entries) =~= object@.push(entry) + entries);
                },
                None => {},
            }
        }
        object.add(field, datum);
        next = after;
        i += 1;
    }
    proof {
        assert(object@ + Seq::<EntryView>::empty() =~= object@);
    }
    Some((object, next))
}

impl SchemaObject {
    /// The bytes of the object, or `None` where the object cannot be
    /// written because a length in it does not fit in four bytes.
    pub fn to_bytes(&self) -> (bytes: Option<Vec<u8>>)
        ensures
            match bytes {
                Some(b) => entries_fit(self@) && b@ == object_bytes(self@),
                None => !entries_fit(self@),
            },
    {
        let mut out: Vec<u8> = Vec::new();
        if write_object(self, &mut out) {
            assert(out@ =~= object_bytes(self@));
            Some(out)
        } else {
            None
        }
    }

    /// Reads an object from the front of `bytes`: the object and how many
    /// bytes it took, or `None` where the bytes do not start with an object.
    pub fn from_bytes(bytes: &[u8]) -> (read: Option<(SchemaObject, usize)>)
        ensures
            object_read(read, 0, parse_object(bytes@)),
    {
        assert(bytes@.skip(0) =~= bytes@);
        read_object(bytes, 0)
    }
}

} // verus!
