//! Avro values, and the container files that hold them.
//!
//! The crate builds Avro records as [`AvroValue`] trees and hands them to the
//! `apache_avro` crate, which validates them against a schema and writes the
//! object container file. [`AvroTree`] is the mathematical form of a value.

use apache_avro::types::Value;
use apache_avro::{from_avro_datum, Schema};
use vstd::prelude::*;

use crate::avro_schema::is_readable;
use crate::iceberg::delete::{equality_schema, equality_shape, plain_fields, sound_fields};
use crate::iceberg::writer::{
    list_shape, manifest_schema, manifest_shape, plain_partition, sound_partition,
};
use crate::iceberg::writer::MANIFEST_LIST_SCHEMA_V2;
use crate::manifest::{PartitionSpec, SchemaField, TableSchema};

verus! {

/// An Avro value. Floating-point numbers are held by their bits.
#[derive(Debug)]
pub enum AvroValue {
    Null,
    Boolean(bool),
    Int(i32),
    Long(i64),
    Float(u32),
    Double(u64),
    Bytes(Vec<u8>),
    Text(String),
    Array(Vec<AvroValue>),
    Record(Vec<(String, AvroValue)>),
    /// Something optional that is not there.
    Absent,
    /// Something optional that is there.
    Present(Box<AvroValue>),
}

/// The mathematical form of an [`AvroValue`].
///
/// `Other` holds a value of an Avro type that this crate neither writes nor reads.
pub ghost enum AvroTree {
    Null,
    Other(Value),
    Boolean(bool),
    Int(i32),
    Long(i64),
    Float(u32),
    Double(u64),
    Bytes(Seq<u8>),
    Text(Seq<char>),
    Array(Seq<AvroTree>),
    Record(Seq<(Seq<char>, AvroTree)>),
    Union(u32, Box<AvroTree>),
}

impl AvroValue {
    /// The mathematical form of the value.
    pub open spec fn tree(self) -> AvroTree
        decreases self,
    {
        match self {
            AvroValue::Null => AvroTree::Null,
            AvroValue::Boolean(b) => AvroTree::Boolean(b),
            AvroValue::Int(i) => AvroTree::Int(i),
            AvroValue::Long(i) => AvroTree::Long(i),
            AvroValue::Float(b) => AvroTree::Float(b),
            AvroValue::Double(b) => AvroTree::Double(b),
            AvroValue::Bytes(b) => AvroTree::Bytes(b@),
            AvroValue::Text(s) => AvroTree::Text(s@),
            AvroValue::Array(v) => AvroTree::Array(
                Seq::new(
                    v@.len(),
                    |i: int|
                        if 0 <= i < v@.len() {
                            v@[i].tree()
                        } else {
                            AvroTree::Null
                        },
                ),
            ),
            AvroValue::Record(v) => AvroTree::Record(
                Seq::new(
                    v@.len(),
                    |i: int|
                        if 0 <= i < v@.len() {
                            (v@[i].0@, v@[i].1.tree())
                        } else {
                            (Seq::empty(), AvroTree::Null)
                        },
                ),
            ),
            AvroValue::Absent => no_value(),
            AvroValue::Present(v) => some_value(v.tree()),
        }
    }
}

/// The trees of a list of values.
pub open spec fn trees(v: Seq<AvroValue>) -> Seq<AvroTree> {
    v.map_values(|x: AvroValue| x.tree())
}

/// A named field of a record value.
pub open spec fn named(name: Seq<char>, value: AvroTree) -> (Seq<char>, AvroTree) {
    (name, value)
}

/// The first variant of a union whose first variant is `null`.
pub open spec fn no_value() -> AvroTree {
    AvroTree::Union(0, Box::new(AvroTree::Null))
}

/// The second variant of a union.
pub open spec fn some_value(t: AvroTree) -> AvroTree {
    AvroTree::Union(1, Box::new(t))
}

/// Builds [`no_value`].
pub fn absent() -> (r: AvroValue)
    ensures
        r.tree() == no_value(),
{
    AvroValue::Absent
}

/// Builds [`some_value`].
pub fn present(v: AvroValue) -> (r: AvroValue)
    ensures
        r.tree() == some_value(v.tree()),
{
    AvroValue::Present(Box::new(v))
}

/// The fields of a record under construction.
pub open spec fn field_trees(v: Seq<(String, AvroValue)>) -> Seq<(Seq<char>, AvroTree)> {
    v.map_values(|f: (String, AvroValue)| (f.0@, f.1.tree()))
}

/// Adds a field to a record under construction.
pub fn put(fields: &mut Vec<(String, AvroValue)>, name: &str, value: AvroValue)
    ensures
        field_trees(final(fields)@) == field_trees(old(fields)@).push((name@, value.tree())),
{
    let ghost before = fields@;
    fields.push((name.to_owned(), value));
    assert(field_trees(fields@) =~= field_trees(before).push((name@, value.tree())));
}

/// A finished record has the trees of its fields.
pub proof fn lemma_record_tree(fields: Vec<(String, AvroValue)>)
    ensures
        AvroValue::Record(fields).tree() == AvroTree::Record(field_trees(fields@)),
{
    let v = AvroValue::Record(fields);
    assert(v.tree()->Record_0 =~= field_trees(fields@));
}

/// A finished array has the trees of its items.
pub proof fn lemma_array_tree(items: Vec<AvroValue>)
    ensures
        AvroValue::Array(items).tree() == AvroTree::Array(trees(items@)),
{
    let v = AvroValue::Array(items);
    assert(v.tree()->Array_0 =~= trees(items@));
}

// ---------------------------------------------------------------------------
// The apache_avro crate
// ---------------------------------------------------------------------------

/// An Avro value of the `apache_avro` crate.
#[verifier::external_type_specification]
#[verifier::external_body]
pub struct ExAvroValue(apache_avro::types::Value);

/// An error of the `apache_avro` crate.
#[verifier::external_type_specification]
#[verifier::external_body]
pub struct ExAvroError(apache_avro::Error);

/// A parsed schema of the `apache_avro` crate.
#[verifier::external_type_specification]
#[verifier::external_body]
pub struct ExAvroSchema(apache_avro::Schema);

/// A container file under construction.
#[verifier::external_type_specification]
#[verifier::external_body]
#[verifier::reject_recursive_types(W)]
pub struct ExAvroWriter<'a, W>(apache_avro::Writer<'a, W>);

/// What an `apache_avro` value holds.
pub uninterp spec fn avro_tree(v: Value) -> AvroTree;

/// The text that an `apache_avro` schema was parsed from.
pub uninterp spec fn avro_schema_text(schema: apache_avro::Schema) -> Seq<char>;

/// Whether `Schema::parse_str` accepts the text.
pub uninterp spec fn avro_schema_parses(text: Seq<char>) -> bool;

/// What has been done with a writer since it was made.
pub uninterp spec fn avro_log(w: apache_avro::Writer<'_, Vec<u8>>) -> Seq<AvroStep>;

/// The text of the schema that a writer was made with.
pub uninterp spec fn avro_writer_schema(w: apache_avro::Writer<'_, Vec<u8>>) -> Seq<char>;

/// Whether `Writer::append` accepts a value under a schema.
pub uninterp spec fn avro_accepts(schema: Seq<char>, value: AvroTree) -> bool;

/// How many bytes a writer has written out after the steps of `log`.
pub uninterp spec fn avro_bytes_out(schema: Seq<char>, log: Seq<AvroStep>) -> nat;

/// Whether `Writer::into_inner` can give these bytes for a writer with this schema
/// after these values were appended.
pub uninterp spec fn avro_holds(schema: Seq<char>, values: Seq<AvroTree>, bytes: Seq<u8>) -> bool;

/// The values that `Reader` yields for a container file, `None` where it fails.
pub uninterp spec fn avro_read(bytes: Seq<u8>) -> Option<Seq<AvroTree>>;

/// Whether `Reader::new` reads the header of the file.
pub uninterp spec fn avro_header_reads(bytes: Seq<u8>) -> bool;

/// The debug text of a value without parts.
pub uninterp spec fn avro_debug(value: AvroTree) -> Seq<char>;

/// A value of a known type that has no parts.
pub open spec fn is_leaf(t: AvroTree) -> bool {
    match t {
        AvroTree::Other(_) => false,
        AvroTree::Array(_) => false,
        AvroTree::Record(_) => false,
        AvroTree::Union(_, _) => false,
        _ => true,
    }
}

/// One thing done with a writer.
pub ghost enum AvroStep {
    Append(AvroTree),
    Flush,
}

/// The values appended by the steps of `log`.
pub open spec fn appended(log: Seq<AvroStep>) -> Seq<AvroTree>
    decreases log.len(),
{
    if log.len() == 0 {
        Seq::empty()
    } else {
        match log.last() {
            AvroStep::Append(t) => appended(log.drop_last()).push(t),
            AvroStep::Flush => appended(log.drop_last()),
        }
    }
}

/// One layer of an `apache_avro` value.
#[derive(Debug)]
pub enum AvroParts {
    Null,
    Other(Value),
    Boolean(bool),
    Int(i32),
    Long(i64),
    Float(u32),
    Double(u64),
    Bytes(Vec<u8>),
    Text(String),
    Array(Vec<Value>),
    Record(Vec<(String, Value)>),
    Union(u32, Box<Value>),
}

impl AvroParts {
    /// What the layer and everything below it holds.
    pub open spec fn tree(self) -> AvroTree {
        match self {
            AvroParts::Null => AvroTree::Null,
            AvroParts::Other(v) => AvroTree::Other(v),
            AvroParts::Boolean(b) => AvroTree::Boolean(b),
            AvroParts::Int(i) => AvroTree::Int(i),
            AvroParts::Long(i) => AvroTree::Long(i),
            AvroParts::Float(b) => AvroTree::Float(b),
            AvroParts::Double(b) => AvroTree::Double(b),
            AvroParts::Bytes(b) => AvroTree::Bytes(b@),
            AvroParts::Text(s) => AvroTree::Text(s@),
            AvroParts::Array(v) => AvroTree::Array(
                v@.map_values(|x: Value| avro_tree(x)),
            ),
            AvroParts::Record(v) => AvroTree::Record(
                v@.map_values(|f: (String, Value)| (f.0@, avro_tree(f.1))),
            ),
            AvroParts::Union(n, v) => AvroTree::Union(n, Box::new(avro_tree(*v))),
        }
    }
}

/// Makes a `Value`, variant for variant. A floating-point
/// number comes from its bits: `apache_avro::from_avro_datum` reads the four
/// (or eight) little-endian bytes as a `float` (or `double`) datum, which
/// cannot fail on exactly that many bytes.
#[verifier::external_body]
pub(crate) fn assemble(p: AvroParts) -> (r: Value)
    requires
        p !is Other,
    ensures
        avro_tree(r) == p.tree(),
{
    match p {
        AvroParts::Boolean(b) => Value::Boolean(b),
        AvroParts::Int(i) => Value::Int(i),
        AvroParts::Long(i) => Value::Long(i),
        AvroParts::Float(b) => from_avro_datum(&Schema::Float, &mut &b.to_le_bytes()[..], None).unwrap(),
        AvroParts::Double(b) => from_avro_datum(&Schema::Double, &mut &b.to_le_bytes()[..], None).unwrap(),
        AvroParts::Bytes(b) => Value::Bytes(b),
        AvroParts::Text(s) => Value::String(s),
        AvroParts::Array(v) => Value::Array(v),
        AvroParts::Record(v) => Value::Record(v),
        AvroParts::Union(n, v) => Value::Union(n, v),
        _ => Value::Null,
    }
}

/// Takes a `Value` apart, variant for variant. The
/// variants that this crate does not use are kept whole.
#[verifier::external_body]
pub(crate) fn disassemble(v: Value) -> (r: AvroParts)
    ensures
        r.tree() == avro_tree(v),
{
    match v {
        Value::Null => AvroParts::Null,
        Value::Boolean(b) => AvroParts::Boolean(b),
        Value::Int(i) => AvroParts::Int(i),
        Value::Long(i) => AvroParts::Long(i),
        Value::Float(x) => AvroParts::Float(x.to_bits()),
        Value::Double(x) => AvroParts::Double(x.to_bits()),
        Value::Bytes(b) => AvroParts::Bytes(b),
        Value::String(s) => AvroParts::Text(s),
        Value::Array(v) => AvroParts::Array(v),
        Value::Record(v) => AvroParts::Record(v),
        Value::Union(n, v) => AvroParts::Union(n, v),
        other => AvroParts::Other(other),
    }
}

/// Parses a schema of this crate (`apache_avro::Schema::parse_str`). It is a record of
/// plain types, of lists and of unions of null with one of them; the names in it are
/// allowed, and the defaults are null or zero where these have the type of the field.
/// So the parser does not panic, and it refuses at most two fields with one name.
#[verifier::external_body]
fn parse_schema(text: &str) -> (r: Result<Schema, apache_avro::Error>)
    requires
        is_own_schema(text@),
    ensures
        r is Ok <==> avro_schema_parses(text@),
        (exists|shape: AvroShape| #[trigger] is_own_shape(text@, shape)) ==> r is Ok,
        r matches Ok(schema) ==> avro_schema_text(schema) == text@,
{
    Schema::parse_str(text)
}

/// Starts an uncompressed container file in memory (`apache_avro::Writer::new`).
#[verifier::external_body]
fn new_writer<'a>(schema: &'a Schema) -> (r: apache_avro::Writer<'a, Vec<u8>>)
    ensures
        avro_log(r) == Seq::<AvroStep>::empty(),
        avro_writer_schema(r) == avro_schema_text(*schema),
        avro_bytes_out(avro_writer_schema(r), avro_log(r)) == 0,
{
    apache_avro::Writer::new(schema, Vec::new())
}

/// Validates a value against a schema of this crate and appends it
/// (`apache_avro::Writer::append`). The result is the number of bytes that the
/// call wrote out: the file header at the first value, and every block that it
/// completed. A value that has the form of the schema is valid. The unions of the
/// schema have two types each, so that the writer finds the type of every union in
/// the value.
#[verifier::external_body]
fn append(w: &mut apache_avro::Writer<'_, Vec<u8>>, v: Value) -> (r: Result<
    usize,
    apache_avro::Error,
>)
    requires
        is_own_schema(avro_writer_schema(*old(w))),
        is_small(avro_tree(v)),
    ensures
        avro_writer_schema(*final(w)) == avro_writer_schema(*old(w)),
        r is Ok <==> avro_accepts(avro_writer_schema(*old(w)), avro_tree(v)),
        (exists|read: AvroTree| #[trigger]
            has_form(avro_writer_schema(*old(w)), avro_tree(v), read)) ==> r is Ok,
        r matches Ok(n) ==> avro_log(*final(w)) == avro_log(*old(w)).push(
            AvroStep::Append(avro_tree(v)),
        ) && avro_bytes_out(avro_writer_schema(*old(w)), avro_log(*final(w))) == avro_bytes_out(
            avro_writer_schema(*old(w)),
            avro_log(*old(w)),
        ) + n,
{
    w.append(v)
}

/// Writes the values appended so far out as a block
/// (`apache_avro::Writer::flush`). The result is the number of bytes written, zero
/// where everything is out already. Writing an uncompressed block to memory cannot
/// fail. Afterwards every appended value is out, in a block that was not out before
/// the value was appended.
#[verifier::external_body]
fn flush(w: &mut apache_avro::Writer<'_, Vec<u8>>) -> (r: Result<usize, apache_avro::Error>)
    ensures
        avro_writer_schema(*final(w)) == avro_writer_schema(*old(w)),
        r is Ok,
        r matches Ok(n) ==> (avro_log(*old(w)).len() > 0 && avro_log(*old(w)).last() is Flush ==> n
            == 0),
        r matches Ok(n) ==> avro_log(*final(w)) == avro_log(*old(w)).push(AvroStep::Flush)
            && avro_bytes_out(avro_writer_schema(*old(w)), avro_log(*final(w)))
            == avro_bytes_out(avro_writer_schema(*old(w)), avro_log(*old(w))) + n,
        r is Ok ==> forall|k: int|
            0 <= k < avro_log(*old(w)).len() && avro_log(*old(w))[k] is Append ==> avro_bytes_out(
                avro_writer_schema(*old(w)),
                avro_log(*final(w)),
            ) > #[trigger] avro_bytes_out(
                avro_writer_schema(*old(w)),
                avro_log(*old(w)).take(k),
            ),
{
    w.flush()
}

/// The Avro schema of a position delete file.
pub const POSITION_DELETE_SCHEMA: &'static str = r#"
        {
            "type": "record",
            "name": "position_delete",
            "fields": [
                {"name": "file_path", "type": "string"},
                {"name": "pos", "type": "long"}
            ]
        }
        "#;

/// The record of one deleted position.
pub open spec fn position_record(path: Seq<char>, pos: i64) -> AvroTree {
    AvroTree::Record(seq![("file_path"@, AvroTree::Text(path)), ("pos"@, AvroTree::Long(pos))])
}

/// The longest record and the longest schema, in bytes, for which reading a file back is
/// stated: three quarters of what the reader allocates at most.
pub const MAX_RECORD_BYTES: usize = 0x1800_0000;

/// A bound on the bytes that a value takes in a file.
pub open spec fn tree_bytes(t: AvroTree) -> nat
    decreases t,
{
    match t {
        AvroTree::Bytes(b) => 10 + b.len(),
        AvroTree::Text(s) => 10 + vstd::utf8::encode_utf8(s).len(),
        AvroTree::Array(items) => 11 + sum_of(
            Seq::new(
                items.len(),
                |i: int|
                    if 0 <= i < items.len() {
                        tree_bytes(items[i])
                    } else {
                        0
                    },
            ),
        ),
        AvroTree::Record(fields) => sum_of(
            Seq::new(
                fields.len(),
                |i: int|
                    if 0 <= i < fields.len() {
                        tree_bytes(fields[i].1)
                    } else {
                        0
                    },
            ),
        ),
        AvroTree::Union(_, inner) => 10 + tree_bytes(*inner),
        _ => 10,
    }
}

/// The sum of numbers.
pub open spec fn sum_of(numbers: Seq<nat>) -> nat
    decreases numbers.len(),
{
    if numbers.len() == 0 {
        0
    } else {
        sum_of(numbers.drop_last()) + numbers.last()
    }
}

/// A schema and every value take a moderate number of bytes.
pub open spec fn all_moderate(schema: Seq<char>, values: Seq<AvroTree>) -> bool {
    &&& schema == POSITION_DELETE_SCHEMA@ || schema == MANIFEST_LIST_SCHEMA_V2@ || schema.len()
        <= MAX_RECORD_BYTES
    &&& forall|i: int|
        0 <= i < values.len() ==> tree_bytes(#[trigger] values[i]) <= MAX_RECORD_BYTES
}

/// Every union in a value is at the first or at the second of its types, and all
/// parts are of types that this crate writes.
pub open spec fn is_small(t: AvroTree) -> bool
    decreases t,
{
    match t {
        AvroTree::Other(_) => false,
        AvroTree::Array(items) => forall|i: int|
            #![trigger items[i]]
            0 <= i < items.len() ==> is_small(items[i]),
        AvroTree::Record(fields) => forall|i: int|
            #![trigger fields[i]]
            0 <= i < fields.len() ==> is_small(fields[i].1),
        AvroTree::Union(n, inner) => n <= 1 && is_small(*inner),
        _ => true,
    }
}

/// Values are built with small unions only.
proof fn lemma_values_are_small(v: AvroValue)
    ensures
        is_small(v.tree()),
    decreases v,
{
    match v {
        AvroValue::Array(items) => {
            let ts = v.tree()->Array_0;
            assert forall|i: int| #![trigger ts[i]] 0 <= i < ts.len() implies is_small(ts[i]) by {
                assert(decreases_to!(v => items@));
                assert(decreases_to!(items@ => items@[i]));
                lemma_values_are_small(items@[i]);
            }
        },
        AvroValue::Record(fields) => {
            let ts = v.tree()->Record_0;
            assert forall|i: int| #![trigger ts[i]] 0 <= i < ts.len() implies is_small(
                ts[i].1,
            ) by {
                assert(decreases_to!(v => fields@));
                assert(decreases_to!(fields@ => fields@[i]));
                assert(decreases_to!(fields@[i] => fields@[i].1));
                lemma_values_are_small(fields@[i].1);
            }
        },
        AvroValue::Present(inner) => {
            lemma_values_are_small(*inner);
        },
        AvroValue::Absent => {
            assert(is_small(AvroTree::Null));
        },
        _ => {},
    }
}

/// The form that a schema gives a value. The second type of a union whose first one
/// is null is optional.
pub ghost enum AvroShape {
    Boolean,
    Int,
    Long,
    Float,
    Double,
    Bytes,
    Text,
    Array(Box<AvroShape>),
    Record(Seq<(Seq<char>, AvroShape)>),
    Optional(Box<AvroShape>),
}

/// A value that is written has a form, and this is what a reader yields for it: the
/// value itself, but for a bare null in the place of something optional and for a
/// short number in the place of a long one.
pub open spec fn reads_as(shape: AvroShape, written: AvroTree, read: AvroTree) -> bool
    decreases shape,
{
    match shape {
        AvroShape::Boolean => written is Boolean && read == written,
        AvroShape::Int => written is Int && read == written,
        AvroShape::Long => match written {
            AvroTree::Long(_) => read == written,
            AvroTree::Int(i) => read == AvroTree::Long(i as i64),
            _ => false,
        },
        AvroShape::Float => written is Float && read == written,
        AvroShape::Double => written is Double && read == written,
        AvroShape::Bytes => written is Bytes && read == written,
        AvroShape::Text => written is Text && read == written,
        AvroShape::Array(inner) => match (written, read) {
            (AvroTree::Array(w), AvroTree::Array(r)) => w.len() == r.len() && forall|i: int|
                #![trigger w[i]]
                #![trigger r[i]]
                0 <= i < w.len() ==> reads_as(*inner, w[i], r[i]),
            _ => false,
        },
        AvroShape::Record(fields) => match (written, read) {
            (AvroTree::Record(w), AvroTree::Record(r)) => {
                &&& w.len() == fields.len()
                &&& r.len() == fields.len()
                &&& forall|i: int|
                    #![trigger w[i]]
                    #![trigger r[i]]
                    #![trigger fields[i]]
                    0 <= i < fields.len() ==> {
                        &&& w[i].0 == fields[i].0
                        &&& r[i].0 == fields[i].0
                        &&& reads_as(fields[i].1, w[i].1, r[i].1)
                    }
            },
            _ => false,
        },
        AvroShape::Optional(inner) => match written {
            AvroTree::Null => read == no_value(),
            AvroTree::Union(n, w) => if n == 0 {
                *w == AvroTree::Null && read == no_value()
            } else {
                n == 1 && (read matches AvroTree::Union(m, r) && m == 1 && reads_as(*inner, *w, *r))
            },
            _ => false,
        },
    }
}

/// The form of the records of position delete files.
pub open spec fn position_shape() -> AvroShape {
    AvroShape::Record(seq![("file_path"@, AvroShape::Text), ("pos"@, AvroShape::Long)])
}

/// The schemas of this crate: those of position delete files and of manifest lists,
/// and those of manifests and of equality delete files whose fields have names that
/// are allowed.
pub open spec fn is_own_schema(schema: Seq<char>) -> bool {
    ||| schema == POSITION_DELETE_SCHEMA@
    ||| schema == MANIFEST_LIST_SCHEMA_V2@
    ||| exists|spec: PartitionSpec, table: TableSchema|
        schema == #[trigger] manifest_schema(spec, table) && plain_partition(spec)
    ||| exists|fields: Seq<SchemaField>|
        schema == #[trigger] equality_schema(fields) && plain_fields(fields)
}

/// The form that a schema of this crate gives a record: that of a position delete
/// file, of a manifest list, and of a manifest or an equality delete file whose fields
/// have names that are allowed and distinct.
pub open spec fn is_own_shape(schema: Seq<char>, shape: AvroShape) -> bool {
    ||| schema == POSITION_DELETE_SCHEMA@ && shape == position_shape()
    ||| schema == MANIFEST_LIST_SCHEMA_V2@ && shape == list_shape()
    ||| exists|spec: PartitionSpec, table: TableSchema|
        schema == #[trigger] manifest_schema(spec, table) && sound_partition(spec) && shape
            == manifest_shape(spec, table)
    ||| exists|fields: Seq<SchemaField>|
        schema == #[trigger] equality_schema(fields) && sound_fields(fields) && shape
            == equality_shape(fields)
}

/// A value has the form that a schema of this crate gives it, and is read as another.
pub open spec fn has_form(schema: Seq<char>, written: AvroTree, read: AvroTree) -> bool {
    exists|shape: AvroShape| #[trigger]
        is_own_shape(schema, shape) && reads_as(shape, written, read)
}

/// Values have the form that a schema of this crate gives them, and are read as
/// others.
pub open spec fn have_form(
    schema: Seq<char>,
    written: Seq<AvroTree>,
    read: Seq<AvroTree>,
) -> bool {
    &&& written.len() == read.len()
    &&& forall|i: int|
        #![trigger written[i]]
        #![trigger read[i]]
        0 <= i < written.len() ==> has_form(schema, written[i], read[i])
}

/// Finishes the file (`apache_avro::Writer::into_inner`). What is left to write is a
/// block and, where nothing was appended, the header, and writing these to memory
/// cannot fail. Where the last step wrote out what was appended, the file is as long as
/// what was written out. The bytes themselves are not stated: each file carries a
/// random marker between its blocks.
///
/// What `Reader` yields is stated for the schemas of this crate. The header holds
/// the schema, from which the reader parses it anew; each value is decoded by the
/// type that it was encoded with, and none of these types is logical, so that it
/// comes out as it went in. A bare null is encoded as the first type of its union, and
/// a number of 32 bits like one of 64. A block is written out once it has 16000 bytes,
/// so that it is too large for the reader only where a record is. Every record takes at
/// least one byte.
#[verifier::external_body]
fn finish(w: apache_avro::Writer<'_, Vec<u8>>) -> (r: Result<Vec<u8>, apache_avro::Error>)
    ensures
        is_own_schema(avro_writer_schema(w)) ==> r is Ok,
        r matches Ok(bytes) ==> avro_holds(avro_writer_schema(w), appended(avro_log(w)), bytes@),
        r matches Ok(bytes) ==> (appended(avro_log(w)).len() > 0 && avro_log(w).last() is Flush
            ==> bytes@.len() == avro_bytes_out(avro_writer_schema(w), avro_log(w))),
        r matches Ok(bytes) ==> forall|reads: Seq<AvroTree>|
            all_moderate(avro_writer_schema(w), appended(avro_log(w))) && #[trigger] have_form(
                avro_writer_schema(w),
                appended(avro_log(w)),
                reads,
            ) ==> is_readable(bytes@) && avro_read(bytes@) == Some(reads),
{
    w.into_inner()
}

/// Reads every value of a container file (`apache_avro::Reader`); an error in
/// the header or in any value fails the whole read.
#[verifier::external_body]
pub(crate) fn read_values(bytes: &[u8]) -> (r: Result<Vec<Value>, apache_avro::Error>)
    requires
        is_readable(bytes@),
    ensures
        match r {
            Ok(values) => avro_read(bytes@) == Some(
                values@.map_values(|v: Value| avro_tree(v)),
            ),
            Err(_) => avro_read(bytes@) is None,
        },
{
    apache_avro::Reader::new(bytes)?.collect()
}

/// Reads the header of a container file (`apache_avro::Reader::new`).
#[verifier::external_body]
pub(crate) fn check_header(bytes: &[u8]) -> (r: Result<(), apache_avro::Error>)
    requires
        is_readable(bytes@),
    ensures
        r is Ok <==> avro_header_reads(bytes@),
{
    apache_avro::Reader::new(bytes).map(|_| ())
}

/// Copies a value (`Clone` of `apache_avro::types::Value`).
#[verifier::external_body]
pub(crate) fn copy_value(v: &Value) -> (r: Value)
    ensures
        avro_tree(r) == avro_tree(*v),
{
    v.clone()
}

/// The debug text of a value (`Debug` of `apache_avro::types::Value`).
#[verifier::external_body]
pub(crate) fn debug_text(v: &Value) -> (r: String)
    ensures
        is_leaf(avro_tree(*v)) ==> r@ == avro_debug(avro_tree(*v)),
{
    format!("{:?}", v)
}

// ---------------------------------------------------------------------------
// Files
// ---------------------------------------------------------------------------

/// Why a container file could not be written or read.
#[derive(Debug)]
pub enum AvroFailure {
    /// The name of a field is not allowed.
    Names,
    /// The schema is not accepted.
    Schema(apache_avro::Error),
    /// The value at this position does not fit the schema.
    Record(usize, apache_avro::Error),
    /// A block or the end of the file could not be written.
    Write(apache_avro::Error),
    /// The bytes do not begin like a container file, or their schema is one that is
    /// not read.
    Header,
    /// The bytes are no container file.
    Read(apache_avro::Error),
}

/// Whether a schema of this crate is accepted.
pub(crate) fn check_schema(schema_text: &str) -> (r: Result<(), AvroFailure>)
    requires
        is_own_schema(schema_text@),
    ensures
        match r {
            Ok(_) => avro_schema_parses(schema_text@),
            Err(AvroFailure::Schema(_)) => !avro_schema_parses(schema_text@) && forall|
                shape: AvroShape,
            | !(#[trigger] is_own_shape(schema_text@, shape)),
            Err(_) => false,
        },
{
    match parse_schema(schema_text) {
        Ok(_) => Ok(()),
        Err(e) => Err(AvroFailure::Schema(e)),
    }
}

/// Converts a value to the `apache_avro` form.
fn to_outside(v: AvroValue) -> (r: Value)
    ensures
        avro_tree(r) == v.tree(),
    decreases v,
{
    match v {
        AvroValue::Null => assemble(AvroParts::Null),
        AvroValue::Boolean(b) => assemble(AvroParts::Boolean(b)),
        AvroValue::Int(i) => assemble(AvroParts::Int(i)),
        AvroValue::Long(i) => assemble(AvroParts::Long(i)),
        AvroValue::Float(b) => assemble(AvroParts::Float(b)),
        AvroValue::Double(b) => assemble(AvroParts::Double(b)),
        AvroValue::Bytes(b) => assemble(AvroParts::Bytes(b)),
        AvroValue::Text(s) => assemble(AvroParts::Text(s)),
        AvroValue::Array(items) => {
            let ghost all = items@;
            let mut out: Vec<Value> = Vec::new();
            for item in it: items
                invariant
                    it.seq() == all,
                    decreases_to!(v => all),
                    out.len() == it.index(),
                    forall|k: int| 0 <= k < out.len() ==> avro_tree(#[trigger] out@[k]) == all[k].tree(),
            {
                assert(decreases_to!(all => item));
                out.push(to_outside(item));
            }
            let r: Value = assemble(AvroParts::Array(out));
            assert(avro_tree(r)->Array_0 =~= v.tree()->Array_0);
            r
        },
        AvroValue::Record(fields) => {
            let ghost all = fields@;
            let mut out: Vec<(String, Value)> = Vec::new();
            for field in it: fields
                invariant
                    it.seq() == all,
                    decreases_to!(v => all),
                    out.len() == it.index(),
                    forall|k: int| 0 <= k < out.len() ==> (#[trigger] out@[k]).0@ == all[k].0@
                        && avro_tree(out@[k].1) == all[k].1.tree(),
            {
                assert(decreases_to!(all => field));
                assert(decreases_to!(field => field.1));
                let (name, value) = field;
                out.push((name, to_outside(value)));
            }
            let r: Value = assemble(AvroParts::Record(out));
            assert(avro_tree(r)->Record_0 =~= v.tree()->Record_0);
            r
        },
        AvroValue::Absent => {
            let inside: Value = assemble(AvroParts::Null);
            assemble(AvroParts::Union(0, Box::new(inside)))
        },
        AvroValue::Present(inner) => {
            let inside: Value = to_outside(*inner);
            assemble(AvroParts::Union(1, Box::new(inside)))
        },
    }
}

/// The steps that append the values of `records`.
pub open spec fn append_steps(records: Seq<AvroTree>) -> Seq<AvroStep> {
    records.map_values(|t: AvroTree| AvroStep::Append(t))
}

proof fn lemma_appended_steps(log: Seq<AvroStep>, records: Seq<AvroTree>)
    ensures
        appended(log + append_steps(records)) == appended(log) + records,
    decreases records.len(),
{
    let all = log + append_steps(records);
    if records.len() == 0 {
        assert(all =~= log);
        assert(appended(log) + records =~= appended(log));
    } else {
        lemma_appended_steps(log, records.drop_last());
        assert(all.drop_last() =~= log + append_steps(records.drop_last()));
        assert(all.last() == AvroStep::Append(records.last()));
        assert(appended(log) + records =~= (appended(log) + records.drop_last()).push(
            records.last(),
        ));
    }
}

/// Every value is accepted under the schema.
pub open spec fn all_accepted(schema: Seq<char>, records: Seq<AvroTree>) -> bool {
    forall|i: int| 0 <= i < records.len() ==> avro_accepts(schema, #[trigger] records[i])
}

/// A value does not fit a schema. A value that has the form of a schema of this crate
/// fits it.
pub open spec fn is_refused(schema: Seq<char>, value: AvroTree) -> bool {
    &&& !avro_accepts(schema, value)
    &&& forall|read: AvroTree| !(#[trigger] has_form(schema, value, read))
}

/// Some value does not fit a schema.
pub open spec fn some_refused(schema: Seq<char>, values: Seq<AvroTree>) -> bool {
    exists|i: int| 0 <= i < values.len() && is_refused(schema, #[trigger] values[i])
}

/// A file gives back the values that it was written with, where they have the form of a
/// schema of this crate and a moderate size each.
pub open spec fn reads_back(schema: Seq<char>, values: Seq<AvroTree>, bytes: Seq<u8>) -> bool {
    forall|reads: Seq<AvroTree>|
        all_moderate(schema, values) && #[trigger] have_form(schema, values, reads)
            ==> is_readable(bytes) && avro_read(bytes) == Some(reads)
}

/// Appends `records` in order. On failure the position of the value that the
/// schema does not accept is returned.
fn append_all(w: &mut apache_avro::Writer<'_, Vec<u8>>, records: Vec<AvroValue>) -> (r: Result<
    usize,
    (usize, apache_avro::Error),
>)
    requires
        is_own_schema(avro_writer_schema(*old(w))),
    ensures
        avro_writer_schema(*final(w)) == avro_writer_schema(*old(w)),
        match r {
            Ok(n) => {
                let schema = avro_writer_schema(*old(w));
                let total = avro_bytes_out(schema, avro_log(*final(w))) - avro_bytes_out(
                    schema,
                    avro_log(*old(w)),
                );
                &&& all_accepted(schema, trees(records@))
                &&& avro_log(*final(w)) == avro_log(*old(w)) + append_steps(trees(records@))
                &&& n == if total > usize::MAX {
                    usize::MAX as int
                } else {
                    total
                }
            },
            Err((i, _)) => {
                &&& i < records.len()
                &&& all_accepted(avro_writer_schema(*old(w)), trees(records@).take(i as int))
                &&& is_refused(avro_writer_schema(*old(w)), records@[i as int].tree())
            },
        },
{
    let ghost all = records@;
    let ghost schema = avro_writer_schema(*w);
    let ghost log0 = avro_log(*w);
    let len: usize = records.len();
    let mut total: usize = 0;
    let mut i: usize = 0;
    assert(avro_log(*w) =~= log0 + append_steps(trees(all).take(0)));
    for record in it: records
        invariant
            it.seq() == all,
            len == all.len(),
            i == it.index(),
            schema == avro_writer_schema(*w),
            schema == avro_writer_schema(*old(w)),
            is_own_schema(schema),
            log0 == avro_log(*old(w)),
            all == records@,
            avro_log(*w) == log0 + append_steps(trees(all).take(i as int)),
            all_accepted(schema, trees(all).take(i as int)),
            ({
                let sum = avro_bytes_out(schema, avro_log(*w)) - avro_bytes_out(schema, log0);
                &&& sum >= 0
                &&& total == if sum > usize::MAX {
                    usize::MAX as int
                } else {
                    sum
                }
            }),
    {
        let ghost before = avro_log(*w);
        proof {
            lemma_values_are_small(record);
        }
        let value: Value = to_outside(record);
        match append(w, value) {
            Ok(n) => {
                total = total.saturating_add(n);
            },
            Err(e) => {
                return Err((i, e));
            },
        }
        proof {
            let now = trees(all).take(i + 1);
            assert(now =~= trees(all).take(i as int).push(record.tree()));
            assert(avro_log(*w) =~= log0 + append_steps(now));
            assert forall|k: int| 0 <= k < now.len() implies avro_accepts(
                schema,
                #[trigger] now[k],
            ) by {
                if k < i {
                    assert(now[k] == trees(all).take(i as int)[k]);
                }
            }
        }
        i = i + 1;
    }
    assert(trees(all).take(i as int) =~= trees(all));
    Ok(total)
}

/// Writes `records` as a container file with the schema `schema_text`.
///
/// The second result is the size of the block that the last records went into:
/// `0` when nothing was left to write after the records were appended.
pub(crate) fn write_file(schema_text: &str, records: Vec<AvroValue>) -> (r: Result<
    (Vec<u8>, usize),
    AvroFailure,
>)
    requires
        is_own_schema(schema_text@),
    ensures
        match r {
            Ok((bytes, len)) => {
                let steps = append_steps(trees(records@));
                &&& avro_schema_parses(schema_text@)
                &&& all_accepted(schema_text@, trees(records@))
                &&& avro_holds(schema_text@, trees(records@), bytes@)
                &&& reads_back(schema_text@, trees(records@), bytes@)
                &&& records.len() > 0 ==> bytes@.len() == avro_bytes_out(
                    schema_text@,
                    steps.push(AvroStep::Flush),
                )
                &&& len == avro_bytes_out(schema_text@, steps.push(AvroStep::Flush))
                    - avro_bytes_out(schema_text@, steps)
            },
            Err(AvroFailure::Schema(_)) => !avro_schema_parses(schema_text@) && forall|
                shape: AvroShape,
            | !(#[trigger] is_own_shape(schema_text@, shape)),
            Err(AvroFailure::Record(i, _)) => {
                &&& avro_schema_parses(schema_text@)
                &&& i < records.len()
                &&& all_accepted(schema_text@, trees(records@).take(i as int))
                &&& is_refused(schema_text@, records@[i as int].tree())
            },
            Err(_) => false,
        },
{
    let schema: Schema = match parse_schema(schema_text) {
        Ok(schema) => schema,
        Err(e) => {
            return Err(AvroFailure::Schema(e));
        },
    };
    let ghost ts = trees(records@);
    let ghost steps = append_steps(ts);
    let mut w = new_writer(&schema);
    match append_all(&mut w, records) {
        Ok(_) => {},
        Err((i, e)) => {
            return Err(AvroFailure::Record(i, e));
        },
    }
    assert(avro_log(w) =~= steps);
    proof {
        lemma_appended_steps(Seq::empty(), ts);
        assert(Seq::<AvroStep>::empty() + steps =~= steps);
        assert(Seq::<AvroTree>::empty() + ts =~= ts);
        assert(steps.push(AvroStep::Flush).drop_last() =~= steps);
    }
    let len: usize = match flush(&mut w) {
        Ok(len) => len,
        Err(e) => {
            return Err(AvroFailure::Write(e));
        },
    };
    match finish(w) {
        Ok(bytes) => Ok((bytes, len)),
        Err(e) => Err(AvroFailure::Write(e)),
    }
}

/// The steps that write each group of records as a block of its own.
pub open spec fn group_steps(groups: Seq<Seq<AvroTree>>) -> Seq<AvroStep>
    decreases groups.len(),
{
    if groups.len() == 0 {
        Seq::empty()
    } else {
        (group_steps(groups.drop_last()) + append_steps(groups.last())).push(AvroStep::Flush)
    }
}

proof fn lemma_appended_groups(groups: Seq<Seq<AvroTree>>)
    ensures
        appended(group_steps(groups)) == groups.flatten(),
    decreases groups.len(),
{
    if groups.len() == 0 {
    } else {
        let before = groups.drop_last();
        lemma_appended_groups(before);
        lemma_appended_steps(group_steps(before), groups.last());
        let steps = group_steps(groups);
        assert(steps.drop_last() =~= group_steps(before) + append_steps(groups.last()));
        before.lemma_flatten_push(groups.last());
        assert(before.push(groups.last()) =~= groups);
    }
}

/// Where the chunks end: a chunk is closed after the first group that brings
/// the bytes written for it to at least `target`; what is left at the end is a
/// chunk of its own.
///
/// `start` is the first group of the open chunk and `i` the next group.
pub open spec fn chunk_ends(
    schema: Seq<char>,
    groups: Seq<Seq<AvroTree>>,
    target: nat,
    start: int,
    i: int,
) -> Seq<int>
    decreases groups.len() - i,
{
    if i >= groups.len() {
        if start < i {
            seq![i]
        } else {
            Seq::empty()
        }
    } else if avro_bytes_out(schema, group_steps(groups.subrange(start, i + 1))) >= target {
        seq![i + 1] + chunk_ends(schema, groups, target, i + 1, i + 1)
    } else {
        chunk_ends(schema, groups, target, start, i + 1)
    }
}

/// The first group of the chunk at position `k`.
pub open spec fn chunk_start(ends: Seq<int>, k: int) -> int {
    if k == 0 {
        0
    } else {
        ends[k - 1]
    }
}

/// The trees of groups of values.
pub open spec fn group_trees(groups: Seq<Vec<AvroValue>>) -> Seq<Seq<AvroTree>> {
    groups.map_values(|g: Vec<AvroValue>| trees(g@))
}

/// A file holds the groups of records from one place to another, gives them back, and
/// is as long as what was written out for them.
pub open spec fn file_holds(
    bytes: Seq<u8>,
    schema: Seq<char>,
    groups: Seq<Seq<AvroTree>>,
    from: int,
    to: int,
) -> bool {
    let part = groups.subrange(from, to);
    &&& avro_holds(schema, part.flatten(), bytes)
    &&& reads_back(schema, part.flatten(), bytes)
    &&& bytes.len() == avro_bytes_out(schema, group_steps(part))
}

/// A list of chunks holds the groups between successive `ends`, in order.
pub open spec fn chunks_hold(
    chunks: Seq<(Vec<u8>, usize)>,
    schema: Seq<char>,
    groups: Seq<Seq<AvroTree>>,
    ends: Seq<int>,
) -> bool {
    &&& chunks.len() == ends.len()
    &&& forall|k: int|
        #![trigger chunks[k]]
        0 <= k < chunks.len() ==> {
            &&& chunks[k].1 == ends[k] - chunk_start(ends, k)
            &&& file_holds(chunks[k].0@, schema, groups, chunk_start(ends, k), ends[k])
        }
}

/// Writes groups of records into container files of about `target` bytes.
///
/// Each file is returned with the number of groups in it. A group is never
/// divided between two files.
pub(crate) fn write_chunks(schema_text: &str, groups: Vec<Vec<AvroValue>>, target: usize) -> (r:
    Result<Vec<(Vec<u8>, usize)>, AvroFailure>)
    requires
        is_own_schema(schema_text@),
        forall|i: int| 0 <= i < groups.len() ==> (#[trigger] groups@[i]).len() > 0,
    ensures
        match r {
            Ok(chunks) => {
                &&& avro_schema_parses(schema_text@)
                &&& target <= 1 ==> chunks.len() == groups.len()
                &&& forall|i: int|
                    0 <= i < groups.len() ==> all_accepted(
                        schema_text@,
                        #[trigger] group_trees(groups@)[i],
                    )
                &&& chunks_hold(
                    chunks@,
                    schema_text@,
                    group_trees(groups@),
                    chunk_ends(schema_text@, group_trees(groups@), target as nat, 0, 0),
                )
            },
            Err(AvroFailure::Schema(_)) => !avro_schema_parses(schema_text@) && forall|
                shape: AvroShape,
            | !(#[trigger] is_own_shape(schema_text@, shape)),
            Err(AvroFailure::Record(i, _)) => {
                &&& avro_schema_parses(schema_text@)
                &&& i < groups.len()
                &&& forall|j: int|
                    0 <= j < i ==> all_accepted(schema_text@, #[trigger] group_trees(groups@)[j])
                &&& some_refused(schema_text@, group_trees(groups@)[i as int])
            },
            Err(_) => false,
        },
{
    let schema: Schema = match parse_schema(schema_text) {
        Ok(schema) => schema,
        Err(e) => {
            return Err(AvroFailure::Schema(e));
        },
    };
    let ghost all = groups@;
    let ghost gs = group_trees(all);
    let ghost text = schema_text@;
    let ghost ends = chunk_ends(text, gs, target as nat, 0, 0);
    let len: usize = groups.len();
    let mut chunks: Vec<(Vec<u8>, usize)> = Vec::new();
    let mut w = new_writer(&schema);
    let mut written: usize = 0;
    let mut count: usize = 0;
    let mut i: usize = 0;
    let ghost mut closed: Seq<int> = Seq::empty();
    let ghost mut start: int = 0;
    assert(gs.subrange(0, 0) =~= Seq::empty());
    assert(closed + ends =~= ends);
    for group in it: groups
        invariant
            it.seq() == all,
            all == groups@,
            len == all.len(),
            i == it.index(),
            gs == group_trees(all),
            text == schema_text@,
            avro_schema_parses(text),
            is_own_schema(text),
            target <= 1 ==> start == i && closed.len() == i,
            text == avro_schema_text(schema),
            text == avro_writer_schema(w),
            ends == chunk_ends(text, gs, target as nat, 0, 0),
            0 <= start <= i <= all.len(),
            count == i - start,
            ends == closed + chunk_ends(text, gs, target as nat, start, i as int),
            closed.len() == 0 ==> start == 0,
            closed.len() > 0 ==> closed.last() == start,
            chunks_hold(chunks@, text, gs, closed),
            avro_log(w) == group_steps(gs.subrange(start, i as int)),
            ({
                let out = avro_bytes_out(text, avro_log(w));
                written == if out > usize::MAX {
                    usize::MAX as nat
                } else {
                    out
                }
            }),
            forall|k: int| 0 <= k < i ==> all_accepted(text, #[trigger] gs[k]),
            forall|k: int| 0 <= k < all.len() ==> (#[trigger] all[k]).len() > 0,
    {
        let ghost log0 = avro_log(w);
        let ghost tail0 = chunk_ends(text, gs, target as nat, start, i as int);
        assert(trees(group@) == gs[i as int]);
        match append_all(&mut w, group) {
            Ok(n) => {
                written = written.saturating_add(n);
            },
            Err((k, e)) => {
                assert(is_refused(text, trees(group@)[k as int]));
                return Err(AvroFailure::Record(i, e));
            },
        }
        let ghost full = avro_log(w);
        match flush(&mut w) {
            Ok(n) => {
                written = written.saturating_add(n);
            },
            Err(e) => {
                return Err(AvroFailure::Write(e));
            },
        }
        count = count + 1;
        i = i + 1;
        proof {
            let now = gs.subrange(start, i as int);
            assert(now.drop_last() =~= gs.subrange(start, i - 1));
            assert(now.last() == gs[i - 1]);
            assert(avro_log(w) =~= group_steps(now));
            let at = log0.len() as int;
            assert(all[i - 1].len() > 0);
            assert(full[at] is Append);
            assert(avro_bytes_out(text, full.take(at)) >= 0);
        }
        if written >= target {
            proof {
                lemma_appended_groups(gs.subrange(start, i as int));
                let flat = gs.subrange(start, i as int);
                flat.lemma_flatten_length_ge_single_element_length(i - 1 - start);
                assert(flat[i - 1 - start].len() == all[i - 1].len());
                assert(tail0 == seq![i as int] + chunk_ends(
                    text,
                    gs,
                    target as nat,
                    i as int,
                    i as int,
                ));
            }
            match finish(w) {
                Ok(bytes) => {
                    let ghost old_closed = closed;
                    let ghost old_chunks = chunks@;
                    chunks.push((bytes, count));
                    proof {
                        closed = closed.push(i as int);
                        assert forall|k: int|
                            #![trigger chunks@[k]]
                            0 <= k < chunks@.len() implies {
                            &&& chunks@[k].1 == closed[k] - chunk_start(closed, k)
                            &&& file_holds(
                                chunks@[k].0@,
                                text,
                                gs,
                                chunk_start(closed, k),
                                closed[k],
                            )
                        } by {
                            if k < old_chunks.len() {
                                assert(chunks@[k] == old_chunks[k]);
                                assert(chunk_start(closed, k) == chunk_start(old_closed, k));
                            }
                        }
                    }
                },
                Err(e) => {
                    return Err(AvroFailure::Write(e));
                },
            }
            w = new_writer(&schema);
            written = 0;
            count = 0;
            proof {
                start = i as int;
                assert(gs.subrange(start, i as int) =~= Seq::empty());
                assert(ends =~= closed + chunk_ends(text, gs, target as nat, start, i as int));
            }
        }
    }
    proof {
        assert(gs.len() == all.len());
    }
    if count > 0 {
        proof {
            let flat = gs.subrange(start, i as int);
            lemma_appended_groups(flat);
            flat.lemma_flatten_length_ge_single_element_length(0);
            assert(flat[0].len() == all[start].len());
            let steps = group_steps(flat);
            assert(steps.push(AvroStep::Flush).drop_last() =~= steps);
        }
        match flush(&mut w) {
            Ok(_) => {},
            Err(e) => {
                return Err(AvroFailure::Write(e));
            },
        }
        match finish(w) {
            Ok(bytes) => {
                let ghost old_closed = closed;
                let ghost old_chunks = chunks@;
                chunks.push((bytes, count));
                proof {
                    closed = closed.push(i as int);
                    assert(ends =~= closed);
                    assert forall|k: int|
                        #![trigger chunks@[k]]
                        0 <= k < chunks@.len() implies {
                        &&& chunks@[k].1 == closed[k] - chunk_start(closed, k)
                        &&& file_holds(
                            chunks@[k].0@,
                            text,
                            gs,
                            chunk_start(closed, k),
                            closed[k],
                        )
                    } by {
                        if k < old_chunks.len() {
                            assert(chunks@[k] == old_chunks[k]);
                            assert(chunk_start(closed, k) == chunk_start(old_closed, k));
                        }
                    }
                }
            },
            Err(e) => {
                return Err(AvroFailure::Write(e));
            },
        }
    } else {
        assert(ends =~= closed);
    }
    Ok(chunks)
}

/// Chunking loses and reorders nothing: the chunk ends ascend strictly and the
/// last one is the number of groups, and every chunk but the last one holds at
/// least `target` bytes of blocks.
pub proof fn law_chunks_cover_all_groups(
    schema: Seq<char>,
    groups: Seq<Seq<AvroTree>>,
    target: nat,
)
    ensures
        ({
            let ends = chunk_ends(schema, groups, target, 0, 0);
            &&& groups.len() > 0 ==> ends.len() > 0 && ends.last() == groups.len()
            &&& groups.len() == 0 ==> ends.len() == 0
            &&& forall|k: int|
                0 <= k < ends.len() ==> chunk_start(ends, k) < #[trigger] ends[k] <= groups.len()
            &&& forall|k: int|
                0 <= k < ends.len() - 1 ==> avro_bytes_out(
                    schema,
                    group_steps(groups.subrange(chunk_start(ends, k), #[trigger] ends[k])),
                ) >= target
        }),
{
    lemma_chunk_ends(schema, groups, target, 0, 0);
}

proof fn lemma_chunk_ends(
    schema: Seq<char>,
    groups: Seq<Seq<AvroTree>>,
    target: nat,
    start: int,
    i: int,
)
    requires
        0 <= start <= i <= groups.len(),
    ensures
        ({
            let ends = chunk_ends(schema, groups, target, start, i);
            &&& groups.len() > start ==> ends.len() > 0 && ends.last() == groups.len()
            &&& groups.len() == start ==> ends.len() == 0
            &&& forall|k: int|
                0 <= k < ends.len() ==> (if k == 0 {
                    start
                } else {
                    ends[k - 1]
                }) < #[trigger] ends[k] <= groups.len()
            &&& forall|k: int|
                0 <= k < ends.len() - 1 ==> avro_bytes_out(
                    schema,
                    group_steps(
                        groups.subrange(
                            if k == 0 {
                                start
                            } else {
                                ends[k - 1]
                            },
                            #[trigger] ends[k],
                        ),
                    ),
                ) >= target
        }),
    decreases groups.len() - i,
{
    if i < groups.len() {
        if avro_bytes_out(schema, group_steps(groups.subrange(start, i + 1))) >= target {
            lemma_chunk_ends(schema, groups, target, i + 1, i + 1);
            let tail = chunk_ends(schema, groups, target, i + 1, i + 1);
            let ends = chunk_ends(schema, groups, target, start, i);
            assert(ends == seq![i + 1] + tail);
            assert forall|k: int| 0 <= k < ends.len() implies (if k == 0 {
                start
            } else {
                ends[k - 1]
            }) < #[trigger] ends[k] <= groups.len() by {
                if k > 0 {
                    assert(ends[k] == tail[k - 1]);
                    if k > 1 {
                        assert(ends[k - 1] == tail[k - 2]);
                    }
                }
            }
            assert forall|k: int| 0 <= k < ends.len() - 1 implies avro_bytes_out(
                schema,
                group_steps(
                    groups.subrange(
                        if k == 0 {
                            start
                        } else {
                            ends[k - 1]
                        },
                        #[trigger] ends[k],
                    ),
                ),
            ) >= target by {
                if k > 0 {
                    assert(ends[k] == tail[k - 1]);
                    if k > 1 {
                        assert(ends[k - 1] == tail[k - 2]);
                    }
                }
            }
        } else {
            lemma_chunk_ends(schema, groups, target, start, i + 1);
        }
    }
}

} // verus!
