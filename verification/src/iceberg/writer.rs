//! Manifest lists and manifest files.

use vstd::prelude::*;
use vstd::string::*;

use crate::avro::{
    absent, all_accepted, all_moderate, append_steps, avro_bytes_out, avro_holds, avro_read,
    avro_schema_parses, chunk_ends, chunk_start, field_trees, file_holds, group_trees, has_form,
    have_form, is_own_schema, is_own_shape, is_refused, lemma_array_tree, lemma_record_tree,
    no_value, present, put, reads_as, reads_back, some_refused, some_value, trees, write_chunks,
    write_file, AvroFailure, AvroShape, AvroStep, AvroTree, AvroValue,
};
use crate::avro_schema::{has_plain_name, is_plain_name, is_readable};
use crate::manifest::{
    encode_iceberg_value, field_named, field_with_id, value_bytes, value_text, ColumnStats,
    DeleteContent, DeleteFile, ManifestEntry, ManifestListEntry, ManifestValue, PartitionField,
    PartitionSpec, PartitionValue, SchemaField, TableSchema,
};
use crate::text;

verus! {

/// The Avro schema of a manifest list.
pub const MANIFEST_LIST_SCHEMA_V2: &'static str = r#"
{
    "type": "record",
    "name": "manifest_list",
    "fields": [
        {"name": "manifest_path", "type": "string"},
        {"name": "manifest_length", "type": "long"},
        {"name": "partition_spec_id", "type": "int"},
        {"name": "content", "type": "int", "doc": "0=data, 1=deletes"},
        {"name": "sequence_number", "type": "long", "default": 0},
        {"name": "min_sequence_number", "type": "long", "default": 0},
        {"name": "added_snapshot_id", "type": "long"},
        {"name": "added_data_files_count", "type": "int"},
        {"name": "existing_data_files_count", "type": "int"},
        {"name": "deleted_data_files_count", "type": "int"},
        {"name": "added_rows_count", "type": "long"},
        {"name": "existing_rows_count", "type": "long"},
        {"name": "deleted_rows_count", "type": "long"},
        {"name": "partitions", "type": ["null", {
            "type": "array",
            "items": {
                "type": "record",
                "name": "field_summary",
                "fields": [
                    {"name": "contains_null", "type": "boolean"},
                    {"name": "contains_nan", "type": ["null", "boolean"]},
                    {"name": "lower_bound", "type": ["null", "bytes"]},
                    {"name": "upper_bound", "type": ["null", "bytes"]}
                ]
            }
        }]}
    ]
}
"#;

/// The Avro schema of a manifest, up to the partition fields.
pub const MANIFEST_SCHEMA_HEAD: &'static str = r#"
{
    "type": "record",
    "name": "manifest",
    "fields": [
        {"name": "status", "type": "int", "doc": "0=EXISTING, 1=ADDED, 2=DELETED"},
        {"name": "snapshot_id", "type": ["null", "long"]},
        {"name": "sequence_number", "type": ["null", "long"]},
        {"name": "file_sequence_number", "type": ["null", "long"]},
        {"name": "data_file", "type": {
            "type": "record",
            "name": "r2",
            "fields": [
                {"name": "content", "type": "int", "doc": "0=DATA, 1=POSITION DELETES, 2=EQUALITY DELETES"},
                {"name": "file_path", "type": "string"},
                {"name": "file_format", "type": "string"},
                {"name": "partition", "type": {
                    "type": "record",
                    "name": "r102",
                    "fields": ["#;

/// The Avro schema of a manifest, behind the partition fields.
pub const MANIFEST_SCHEMA_TAIL: &'static str = r#"]
                }},

                {"name": "record_count", "type": "long"},
                {"name": "file_size_in_bytes", "type": "long"},
                {"name": "column_sizes", "type": ["null", {"type": "array", "items": {"type": "record", "name": "k1", "fields": [{"name":"key", "type":"int"}, {"name":"value", "type":"long"}]}}], "default": null},
                {"name": "value_counts", "type": ["null", {"type": "array", "items": {"type": "record", "name": "k2", "fields": [{"name":"key", "type":"int"}, {"name":"value", "type":"long"}]}}], "default": null},
                {"name": "null_value_counts", "type": ["null", {"type": "array", "items": {"type": "record", "name": "k3", "fields": [{"name":"key", "type":"int"}, {"name":"value", "type":"long"}]}}], "default": null},
                {"name": "nan_value_counts", "type": ["null", {"type": "array", "items": {"type": "record", "name": "k4", "fields": [{"name":"key", "type":"int"}, {"name":"value", "type":"long"}]}}], "default": null},
                {"name": "lower_bounds", "type": ["null", {"type": "array", "items": {"type": "record", "name": "k5", "fields": [{"name":"key", "type":"int"}, {"name":"value", "type":"bytes"}]}}], "default": null},
                {"name": "upper_bounds", "type": ["null", {"type": "array", "items": {"type": "record", "name": "k6", "fields": [{"name":"key", "type":"int"}, {"name":"value", "type":"bytes"}]}}], "default": null},
                {"name": "equality_ids", "type": ["null", {"type": "array", "items": "int"}], "default": null},
                {"name": "index_files", "type": ["null", "string"], "default": null},
                {"name": "file_checksum", "type": ["null", "string"], "default": null}
            ]
        }
    }]
}
"#;

// ---------------------------------------------------------------------------
// Manifest list
// ---------------------------------------------------------------------------

/// One bound of a partition summary: the text of the value in UTF-8, null where
/// there is no value.
pub open spec fn summary_bound(v: Option<ManifestValue>) -> AvroTree {
    match v {
        None => AvroTree::Null,
        Some(ManifestValue::Null) => AvroTree::Null,
        Some(value) => AvroTree::Bytes(vstd::utf8::encode_utf8(value_text(value))),
    }
}

/// The summary of one partition field.
pub open spec fn summary_tree(stats: ColumnStats) -> AvroTree {
    AvroTree::Record(
        seq![
            ("contains_null"@, AvroTree::Boolean(stats.null_count > 0)),
            ("contains_nan"@, no_value()),
            ("lower_bound"@, some_value(summary_bound(stats.min))),
            ("upper_bound"@, some_value(summary_bound(stats.max))),
        ],
    )
}

/// The partition summaries of a manifest list record.
pub open spec fn partitions_tree(stats: Seq<(String, ColumnStats)>) -> AvroTree {
    if stats.len() == 0 {
        AvroTree::Null
    } else {
        AvroTree::Array(stats.map_values(|s: (String, ColumnStats)| summary_tree(s.1)))
    }
}

/// The manifest list record of one manifest.
pub open spec fn list_record(e: ManifestListEntry) -> AvroTree {
    AvroTree::Record(
        seq![
            ("manifest_path"@, AvroTree::Text(e.manifest_path@)),
            ("manifest_length"@, AvroTree::Long(e.manifest_length)),
            ("partition_spec_id"@, AvroTree::Int(e.partition_spec_id)),
            ("content"@, AvroTree::Int(e.content)),
            ("sequence_number"@, AvroTree::Long(e.sequence_number)),
            ("min_sequence_number"@, AvroTree::Long(e.min_sequence_number)),
            ("added_snapshot_id"@, AvroTree::Long(e.added_snapshot_id)),
            ("added_data_files_count"@, AvroTree::Int(e.added_files_count)),
            ("existing_data_files_count"@, AvroTree::Int(e.existing_files_count)),
            ("deleted_data_files_count"@, AvroTree::Int(e.deleted_files_count)),
            ("added_rows_count"@, AvroTree::Long(e.added_rows_count)),
            ("existing_rows_count"@, AvroTree::Long(e.existing_rows_count)),
            ("deleted_rows_count"@, AvroTree::Long(e.deleted_rows_count)),
            ("partitions"@, partitions_tree(e.partition_stats@)),
        ],
    )
}

/// The form of the summary of a partition field.
pub open spec fn summary_shape() -> AvroShape {
    AvroShape::Record(
        seq![
            ("contains_null"@, AvroShape::Boolean),
            ("contains_nan"@, AvroShape::Optional(Box::new(AvroShape::Boolean))),
            ("lower_bound"@, AvroShape::Optional(Box::new(AvroShape::Bytes))),
            ("upper_bound"@, AvroShape::Optional(Box::new(AvroShape::Bytes))),
        ],
    )
}

/// The form of a manifest list record.
pub open spec fn list_shape() -> AvroShape {
    AvroShape::Record(
        seq![
            ("manifest_path"@, AvroShape::Text),
            ("manifest_length"@, AvroShape::Long),
            ("partition_spec_id"@, AvroShape::Int),
            ("content"@, AvroShape::Int),
            ("sequence_number"@, AvroShape::Long),
            ("min_sequence_number"@, AvroShape::Long),
            ("added_snapshot_id"@, AvroShape::Long),
            ("added_data_files_count"@, AvroShape::Int),
            ("existing_data_files_count"@, AvroShape::Int),
            ("deleted_data_files_count"@, AvroShape::Int),
            ("added_rows_count"@, AvroShape::Long),
            ("existing_rows_count"@, AvroShape::Long),
            ("deleted_rows_count"@, AvroShape::Long),
            (
                "partitions"@,
                AvroShape::Optional(
                    Box::new(AvroShape::Array(Box::new(summary_shape()))),
                ),
            ),
        ],
    )
}

/// The records of a manifest list.
pub open spec fn list_records(entries: Seq<ManifestListEntry>) -> Seq<AvroTree> {
    entries.map_values(|e: ManifestListEntry| list_record(e))
}

fn summary_bound_value(v: &Option<ManifestValue>) -> (r: AvroValue)
    ensures
        r.tree() == summary_bound(*v),
{
    match v {
        None => AvroValue::Null,
        Some(value) => {
            if value.is_null() {
                AvroValue::Null
            } else {
                let written: String = value.to_text();
                AvroValue::Bytes(written.as_str().as_bytes_vec())
            }
        },
    }
}

fn summary_value(stats: &ColumnStats) -> (r: AvroValue)
    ensures
        r.tree() == summary_tree(*stats),
{
    let mut f: Vec<(String, AvroValue)> = Vec::new();
    put(&mut f, "contains_null", AvroValue::Boolean(stats.null_count > 0));
    put(&mut f, "contains_nan", absent());
    put(&mut f, "lower_bound", present(summary_bound_value(&stats.min)));
    put(&mut f, "upper_bound", present(summary_bound_value(&stats.max)));
    proof {
        lemma_record_tree(f);
        assert(field_trees(f@) =~= summary_tree(*stats)->Record_0);
    }
    AvroValue::Record(f)
}

fn partitions_value(stats: &Vec<(String, ColumnStats)>) -> (r: AvroValue)
    ensures
        r.tree() == partitions_tree(stats@),
{
    if stats.len() == 0 {
        return AvroValue::Null;
    }
    let mut items: Vec<AvroValue> = Vec::new();
    let mut i: usize = 0;
    while i < stats.len()
        invariant
            i <= stats.len(),
            items.len() == i,
            forall|k: int| 0 <= k < i ==> (#[trigger] items@[k]).tree()
                == summary_tree(stats@[k].1),
        decreases stats.len() - i,
    {
        items.push(summary_value(&stats[i].1));
        i = i + 1;
    }
    proof {
        lemma_array_tree(items);
        assert(trees(items@) =~= partitions_tree(stats@)->Array_0);
    }
    AvroValue::Array(items)
}

/// The manifest list record of one manifest.
pub fn manifest_list_record(e: &ManifestListEntry) -> (r: AvroValue)
    ensures
        r.tree() == list_record(*e),
{
    let mut f: Vec<(String, AvroValue)> = Vec::new();
    put(&mut f, "manifest_path", AvroValue::Text(e.manifest_path.clone()));
    put(&mut f, "manifest_length", AvroValue::Long(e.manifest_length));
    put(&mut f, "partition_spec_id", AvroValue::Int(e.partition_spec_id));
    put(&mut f, "content", AvroValue::Int(e.content));
    put(&mut f, "sequence_number", AvroValue::Long(e.sequence_number));
    put(&mut f, "min_sequence_number", AvroValue::Long(e.min_sequence_number));
    put(&mut f, "added_snapshot_id", AvroValue::Long(e.added_snapshot_id));
    put(&mut f, "added_data_files_count", AvroValue::Int(e.added_files_count));
    put(&mut f, "existing_data_files_count", AvroValue::Int(e.existing_files_count));
    put(&mut f, "deleted_data_files_count", AvroValue::Int(e.deleted_files_count));
    put(&mut f, "added_rows_count", AvroValue::Long(e.added_rows_count));
    put(&mut f, "existing_rows_count", AvroValue::Long(e.existing_rows_count));
    put(&mut f, "deleted_rows_count", AvroValue::Long(e.deleted_rows_count));
    put(&mut f, "partitions", partitions_value(&e.partition_stats));
    proof {
        lemma_record_tree(f);
        assert(field_trees(f@) =~= list_record(*e)->Record_0);
    }
    AvroValue::Record(f)
}

// ---------------------------------------------------------------------------
// Manifest schema
// ---------------------------------------------------------------------------

/// The Avro type that keeps the type of a source column.
pub open spec fn source_avro_type(type_str: Seq<char>) -> Seq<char> {
    if type_str == "Int32"@ || type_str == "int"@ {
        r#"["null", "int"]"#@
    } else if type_str == "Int64"@ || type_str == "long"@ {
        r#"["null", "long"]"#@
    } else if type_str == "Float32"@ || type_str == "float"@ {
        r#"["null", "float"]"#@
    } else if type_str == "Float64"@ || type_str == "double"@ {
        r#"["null", "double"]"#@
    } else if type_str == "Boolean"@ || type_str == "bool"@ || type_str == "boolean"@ {
        r#"["null", "boolean"]"#@
    } else {
        r#"["null", "string"]"#@
    }
}

/// The id of the column that a partition field is computed from.
pub open spec fn source_of(field: PartitionField) -> Option<i32> {
    if field.source_ids@.len() > 0 {
        Some(field.source_ids@[0])
    } else {
        field.source_id
    }
}

/// The schema field that a partition field takes its type from: the one of the
/// same name, else the source column.
pub open spec fn source_field(field: PartitionField, schema: TableSchema) -> Option<SchemaField> {
    match field_named(schema.fields@, field.name@) {
        Some(f) => Some(f),
        None => match source_of(field) {
            Some(id) => field_with_id(schema.fields@, id),
            None => None,
        },
    }
}

/// The transforms that always produce an `int`.
pub open spec fn transform_gives_int(transform: Seq<char>) -> bool {
    let t = text::lowered(text::trimmed(transform));
    ||| t == "year"@
    ||| t == "month"@
    ||| t == "day"@
    ||| t == "hour"@
    ||| "bucket("@.is_prefix_of(t)
    ||| "bucket["@.is_prefix_of(t)
}

/// The Avro type of a partition field.
pub open spec fn partition_type(field: PartitionField, schema: TableSchema) -> Seq<char> {
    if transform_gives_int(field.transform@) {
        r#"["null", "int"]"#@
    } else {
        match source_field(field, schema) {
            Some(f) => source_avro_type(f.type_str@),
            None => r#"["null", "string"]"#@,
        }
    }
}

/// The schema text of one partition field.
pub open spec fn partition_field_text(field: PartitionField, schema: TableSchema) -> Seq<char> {
    r#"{"name": ""#@ + field.name@ + r#"", "type": "#@ + partition_type(field, schema)
        + r#", "default": null}"#@
}

/// The Avro schema of the manifests of a table.
pub open spec fn manifest_schema(spec: PartitionSpec, schema: TableSchema) -> Seq<char> {
    MANIFEST_SCHEMA_HEAD@ + text::joined(
        spec.fields@.map_values(|f: PartitionField| partition_field_text(f, schema)),
        ","@,
    ) + MANIFEST_SCHEMA_TAIL@
}

/// The partition fields have names that are allowed.
pub open spec fn plain_partition(spec: PartitionSpec) -> bool {
    forall|i: int|
        0 <= i < spec.fields@.len() ==> is_plain_name((#[trigger] spec.fields@[i]).name@)
}

fn has_plain_partition(spec: &PartitionSpec) -> (r: bool)
    ensures
        r == plain_partition(*spec),
{
    let mut i: usize = 0;
    while i < spec.fields.len()
        invariant
            i <= spec.fields.len(),
            forall|k: int| 0 <= k < i ==> is_plain_name((#[trigger] spec.fields@[k]).name@),
        decreases spec.fields.len() - i,
    {
        if !has_plain_name(spec.fields[i].name.as_str()) {
            return false;
        }
        i = i + 1;
    }
    true
}

/// The partition fields have names that are allowed, and no two the same.
pub open spec fn sound_partition(spec: PartitionSpec) -> bool {
    &&& plain_partition(spec)
    &&& forall|i: int, j: int|
        #![trigger spec.fields@[i], spec.fields@[j]]
        0 <= i < j < spec.fields@.len() ==> spec.fields@[i].name@ != spec.fields@[j].name@
}

/// The form of the values of a partition field.
pub open spec fn partition_value_shape(field: PartitionField, schema: TableSchema) -> AvroShape {
    let t = partition_type(field, schema);
    if t == r#"["null", "int"]"#@ {
        AvroShape::Int
    } else if t == r#"["null", "long"]"#@ {
        AvroShape::Long
    } else if t == r#"["null", "float"]"#@ {
        AvroShape::Float
    } else if t == r#"["null", "double"]"#@ {
        AvroShape::Double
    } else if t == r#"["null", "boolean"]"#@ {
        AvroShape::Boolean
    } else {
        AvroShape::Text
    }
}

/// The form of the partition record of a file.
pub open spec fn partition_shape(fields: Seq<PartitionField>, schema: TableSchema) -> AvroShape {
    AvroShape::Record(
        fields.map_values(
            |f: PartitionField|
                (
                    f.name@,
                    AvroShape::Optional(Box::new(partition_value_shape(f, schema))),
                ),
        ),
    )
}

/// The form of an optional list of entries by column.
pub open spec fn keyed_shape(value: AvroShape) -> AvroShape {
    let entry = AvroShape::Record(seq![("key"@, AvroShape::Int), ("value"@, value)]);
    AvroShape::Optional(Box::new(AvroShape::Array(Box::new(entry))))
}

/// The form of the description of a file.
pub open spec fn file_shape(spec: PartitionSpec, schema: TableSchema) -> AvroShape {
    AvroShape::Record(
        seq![
            ("content"@, AvroShape::Int),
            ("file_path"@, AvroShape::Text),
            ("file_format"@, AvroShape::Text),
            ("partition"@, partition_shape(spec.fields@, schema)),
            ("record_count"@, AvroShape::Long),
            ("file_size_in_bytes"@, AvroShape::Long),
            ("column_sizes"@, keyed_shape(AvroShape::Long)),
            ("value_counts"@, keyed_shape(AvroShape::Long)),
            ("null_value_counts"@, keyed_shape(AvroShape::Long)),
            ("nan_value_counts"@, keyed_shape(AvroShape::Long)),
            ("lower_bounds"@, keyed_shape(AvroShape::Bytes)),
            ("upper_bounds"@, keyed_shape(AvroShape::Bytes)),
            (
                "equality_ids"@,
                AvroShape::Optional(Box::new(AvroShape::Array(Box::new(AvroShape::Int)))),
            ),
            ("index_files"@, AvroShape::Optional(Box::new(AvroShape::Text))),
            ("file_checksum"@, AvroShape::Optional(Box::new(AvroShape::Text))),
        ],
    )
}

/// The form of a manifest record.
pub open spec fn manifest_shape(spec: PartitionSpec, schema: TableSchema) -> AvroShape {
    AvroShape::Record(
        seq![
            ("status"@, AvroShape::Int),
            ("snapshot_id"@, AvroShape::Optional(Box::new(AvroShape::Long))),
            ("sequence_number"@, AvroShape::Optional(Box::new(AvroShape::Long))),
            ("file_sequence_number"@, AvroShape::Optional(Box::new(AvroShape::Long))),
            ("data_file"@, file_shape(spec, schema)),
        ],
    )
}

/// The Avro type for a partition field, derived from its transform.
///
/// `bucket` and the time transforms always produce an `int`; `identity`, `void`
/// and `truncate` keep the type of the source column.
pub fn partition_field_avro_type(field: &PartitionField, schema: &TableSchema) -> (r: &'static str)
    ensures
        r@ == partition_type(*field, *schema),
{
    let trimmed: String = text::trim(field.transform.as_str());
    let t: String = text::ascii_lowercase(trimmed.as_str());
    if text::same(t.as_str(), "year") || text::same(t.as_str(), "month") || text::same(
        t.as_str(),
        "day",
    ) || text::same(t.as_str(), "hour") {
        return r#"["null", "int"]"#;
    }
    if text::starts_with(t.as_str(), "bucket(") || text::starts_with(t.as_str(), "bucket[") {
        return r#"["null", "int"]"#;
    }
    let source_id: Option<i32> = if field.source_ids.len() > 0 {
        Some(field.source_ids[0])
    } else {
        field.source_id
    };
    let resolved: Option<&SchemaField> = match schema.find_named(field.name.as_str()) {
        Some(f) => Some(f),
        None => match source_id {
            Some(id) => schema.find_id(id),
            None => None,
        },
    };
    match resolved {
        Some(f) => avro_type_of_source(f.type_str.as_str()),
        None => r#"["null", "string"]"#,
    }
}

fn avro_type_of_source(t: &str) -> (r: &'static str)
    ensures
        r@ == source_avro_type(t@),
{
    if text::same(t, "Int32") || text::same(t, "int") {
        r#"["null", "int"]"#
    } else if text::same(t, "Int64") || text::same(t, "long") {
        r#"["null", "long"]"#
    } else if text::same(t, "Float32") || text::same(t, "float") {
        r#"["null", "float"]"#
    } else if text::same(t, "Float64") || text::same(t, "double") {
        r#"["null", "double"]"#
    } else if text::same(t, "Boolean") || text::same(t, "bool") || text::same(t, "boolean") {
        r#"["null", "boolean"]"#
    } else {
        r#"["null", "string"]"#
    }
}

// ---------------------------------------------------------------------------
// Manifest records
// ---------------------------------------------------------------------------

/// The Avro value of a partition value.
pub open spec fn partition_value_tree(v: PartitionValue) -> AvroTree {
    match v {
        PartitionValue::Null => AvroTree::Null,
        PartitionValue::Boolean(b) => AvroTree::Boolean(b),
        PartitionValue::Int(i) => AvroTree::Int(i),
        PartitionValue::Long(i) => AvroTree::Long(i),
        PartitionValue::Float(b) => AvroTree::Float(b),
        PartitionValue::Double(b) => AvroTree::Double(b),
        PartitionValue::Text(s) => AvroTree::Text(s@),
    }
}

/// The value of the partition field called `name`; null where there is none.
pub open spec fn partition_lookup(
    values: Seq<(String, PartitionValue)>,
    name: Seq<char>,
) -> PartitionValue
    decreases values.len(),
{
    if values.len() == 0 {
        PartitionValue::Null
    } else if values[0].0@ == name {
        values[0].1
    } else {
        partition_lookup(values.skip(1), name)
    }
}

/// The partition record of a file.
pub open spec fn partition_tree(
    fields: Seq<PartitionField>,
    values: Seq<(String, PartitionValue)>,
) -> AvroTree {
    AvroTree::Record(
        fields.map_values(
            |f: PartitionField|
                (
                    f.name@,
                    match partition_lookup(values, f.name@) {
                        PartitionValue::Null => no_value(),
                        v => some_value(partition_value_tree(v)),
                    },
                ),
        ),
    )
}

/// An optional text as a union of null and string.
pub open spec fn optional_text(v: Option<Seq<char>>) -> AvroTree {
    match v {
        Some(s) => some_value(AvroTree::Text(s)),
        None => no_value(),
    }
}

/// A per-column entry of a manifest statistic.
pub open spec fn keyed(id: i32, value: AvroTree) -> AvroTree {
    AvroTree::Record(seq![("key"@, AvroTree::Int(id)), ("value"@, value)])
}

/// The per-column entries of a bound: the columns that the schema knows and
/// that have a bound with a binary form, by field id.
pub open spec fn bound_entries(
    stats: Seq<(String, ColumnStats)>,
    schema: TableSchema,
    lower: bool,
) -> Seq<AvroTree>
    decreases stats.len(),
{
    if stats.len() == 0 {
        Seq::empty()
    } else {
        let before = bound_entries(stats.drop_last(), schema, lower);
        let bound = if lower {
            stats.last().1.min
        } else {
            stats.last().1.max
        };
        match (field_named(schema.fields@, stats.last().0@), bound) {
            (Some(f), Some(v)) => match value_bytes(v) {
                Some(bytes) => before.push(keyed(f.id, AvroTree::Bytes(bytes))),
                None => before,
            },
            _ => before,
        }
    }
}

/// The per-column null counts of the columns that the schema knows.
pub open spec fn null_entries(stats: Seq<(String, ColumnStats)>, schema: TableSchema) -> Seq<
    AvroTree,
>
    decreases stats.len(),
{
    if stats.len() == 0 {
        Seq::empty()
    } else {
        let before = null_entries(stats.drop_last(), schema);
        match field_named(schema.fields@, stats.last().0@) {
            Some(f) => before.push(keyed(f.id, AvroTree::Long(stats.last().1.null_count))),
            None => before,
        }
    }
}

/// A list of entries, or no value where it is empty.
pub open spec fn optional_array(entries: Seq<AvroTree>) -> AvroTree {
    if entries.len() == 0 {
        no_value()
    } else {
        some_value(AvroTree::Array(entries))
    }
}

/// The null counts, lower bounds and upper bounds of a data file.
pub open spec fn bounds_trees(stats: Seq<(String, ColumnStats)>, schema: TableSchema) -> (
    AvroTree,
    AvroTree,
    AvroTree,
) {
    (
        optional_array(null_entries(stats, schema)),
        optional_array(bound_entries(stats, schema, true)),
        optional_array(bound_entries(stats, schema, false)),
    )
}

/// The description of one file in a manifest.
pub open spec fn file_tree(
    content: i32,
    path: Seq<char>,
    format: Seq<char>,
    partition: AvroTree,
    record_count: i64,
    size: i64,
    bounds: (AvroTree, AvroTree, AvroTree),
    equality_ids: AvroTree,
    index_files: AvroTree,
    checksum: AvroTree,
) -> AvroTree {
    AvroTree::Record(
        seq![
            ("content"@, AvroTree::Int(content)),
            ("file_path"@, AvroTree::Text(path)),
            ("file_format"@, AvroTree::Text(format)),
            ("partition"@, partition),
            ("record_count"@, AvroTree::Long(record_count)),
            ("file_size_in_bytes"@, AvroTree::Long(size)),
            ("column_sizes"@, no_value()),
            ("value_counts"@, no_value()),
            ("null_value_counts"@, bounds.0),
            ("nan_value_counts"@, no_value()),
            ("lower_bounds"@, bounds.1),
            ("upper_bounds"@, bounds.2),
            ("equality_ids"@, equality_ids),
            ("index_files"@, index_files),
            ("file_checksum"@, checksum),
        ],
    )
}

/// The manifest record of an added file.
pub open spec fn added_record(snapshot_id: i64, seq_num: i64, file: AvroTree) -> AvroTree {
    AvroTree::Record(
        seq![
            ("status"@, AvroTree::Int(1)),
            ("snapshot_id"@, some_value(AvroTree::Long(snapshot_id))),
            ("sequence_number"@, some_value(AvroTree::Long(seq_num))),
            ("file_sequence_number"@, some_value(AvroTree::Long(seq_num))),
            ("data_file"@, file),
        ],
    )
}

/// No null counts and no bounds.
pub open spec fn no_bounds() -> (AvroTree, AvroTree, AvroTree) {
    (no_value(), no_value(), no_value())
}

/// The description of a data file. `index_json` is the JSON text of its index
/// files and is left out where it has none.
pub open spec fn data_file_tree(
    e: ManifestEntry,
    index_json: Seq<char>,
    spec: PartitionSpec,
    bounds: (AvroTree, AvroTree, AvroTree),
) -> AvroTree {
    file_tree(
        0,
        e.file_path@,
        "PARQUET"@,
        partition_tree(spec.fields@, e.partition_values@),
        e.record_count,
        e.file_size_bytes,
        bounds,
        no_value(),
        optional_text(
            if e.index_files@.len() > 0 {
                Some(index_json)
            } else {
                None
            },
        ),
        optional_text(
            match e.file_checksum {
                Some(c) => Some(c@),
                None => None,
            },
        ),
    )
}

/// The content code of a delete file.
pub open spec fn content_id(content: DeleteContent) -> i32 {
    match content {
        DeleteContent::Position => 1,
        DeleteContent::Equality { equality_ids } => 2,
        DeleteContent::DeletionVector { puffin_file_path, content_offset, content_size_in_bytes } => 3,
    }
}

/// The field ids of an equality delete file.
pub open spec fn equality_tree(content: DeleteContent) -> AvroTree {
    match content {
        DeleteContent::Equality { equality_ids } => some_value(
            AvroTree::Array(equality_ids@.map_values(|i: i32| AvroTree::Int(i))),
        ),
        _ => no_value(),
    }
}

/// The description of a delete file. It has neither indexes nor a checksum.
pub open spec fn delete_file_tree(d: DeleteFile, spec: PartitionSpec) -> AvroTree {
    file_tree(
        content_id(d.content),
        d.file_path@,
        "AVRO"@,
        partition_tree(spec.fields@, d.partition_values@),
        d.record_count,
        d.file_size_bytes,
        no_bounds(),
        equality_tree(d.content),
        AvroTree::Null,
        AvroTree::Null,
    )
}

/// The manifest records of an entry: its data file, then its delete files.
pub open spec fn entry_trees(
    e: ManifestEntry,
    index_json: Seq<char>,
    spec: PartitionSpec,
    bounds: (AvroTree, AvroTree, AvroTree),
    snapshot_id: i64,
    seq_num: i64,
) -> Seq<AvroTree> {
    seq![added_record(snapshot_id, seq_num, data_file_tree(e, index_json, spec, bounds))]
        + e.delete_files@.map_values(
        |d: DeleteFile| added_record(snapshot_id, seq_num, delete_file_tree(d, spec)),
    )
}

fn partition_value(values: &Vec<(String, PartitionValue)>, name: &str) -> (r: AvroValue)
    ensures
        r.tree() == match partition_lookup(values@, name@) {
            PartitionValue::Null => no_value(),
            v => some_value(partition_value_tree(v)),
        },
{
    let mut i: usize = 0;
    assert(values@.skip(0) =~= values@);
    while i < values.len()
        invariant
            i <= values.len(),
            partition_lookup(values@.skip(i as int), name@) == partition_lookup(values@, name@),
        decreases values.len() - i,
    {
        if text::same(values[i].0.as_str(), name) {
            return match &values[i].1 {
                PartitionValue::Null => absent(),
                PartitionValue::Boolean(b) => present(AvroValue::Boolean(*b)),
                PartitionValue::Int(n) => present(AvroValue::Int(*n)),
                PartitionValue::Long(n) => present(AvroValue::Long(*n)),
                PartitionValue::Float(b) => present(AvroValue::Float(*b)),
                PartitionValue::Double(b) => present(AvroValue::Double(*b)),
                PartitionValue::Text(s) => present(AvroValue::Text(s.clone())),
            };
        }
        assert(values@.skip(i as int).skip(1) =~= values@.skip(i + 1));
        i = i + 1;
    }
    absent()
}

fn partition_record(spec: &PartitionSpec, values: &Vec<(String, PartitionValue)>) -> (r: AvroValue)
    ensures
        r.tree() == partition_tree(spec.fields@, values@),
{
    let mut f: Vec<(String, AvroValue)> = Vec::new();
    let mut i: usize = 0;
    let ghost target = partition_tree(spec.fields@, values@)->Record_0;
    assert(field_trees(f@) =~= target.take(0));
    while i < spec.fields.len()
        invariant
            i <= spec.fields.len(),
            target == partition_tree(spec.fields@, values@)->Record_0,
            field_trees(f@) == target.take(i as int),
        decreases spec.fields.len() - i,
    {
        let name: &String = &spec.fields[i].name;
        put(&mut f, name.as_str(), partition_value(values, name.as_str()));
        assert(target.take(i + 1) =~= target.take(i as int).push(target[i as int]));
        i = i + 1;
    }
    proof {
        lemma_record_tree(f);
        assert(target.take(i as int) =~= target);
    }
    AvroValue::Record(f)
}

fn keyed_value(id: i32, value: AvroValue) -> (r: AvroValue)
    ensures
        r.tree() == keyed(id, value.tree()),
{
    let mut f: Vec<(String, AvroValue)> = Vec::new();
    put(&mut f, "key", AvroValue::Int(id));
    put(&mut f, "value", value);
    proof {
        lemma_record_tree(f);
        assert(field_trees(f@) =~= keyed(id, value.tree())->Record_0);
    }
    AvroValue::Record(f)
}

fn array_or_absent(items: Vec<AvroValue>) -> (r: AvroValue)
    ensures
        r.tree() == optional_array(trees(items@)),
{
    if items.len() == 0 {
        absent()
    } else {
        proof {
            lemma_array_tree(items);
        }
        present(AvroValue::Array(items))
    }
}

proof fn lemma_trees_push(items: Seq<AvroValue>, v: AvroValue)
    ensures
        trees(items.push(v)) == trees(items).push(v.tree()),
{
    assert(trees(items.push(v)) =~= trees(items).push(v.tree()));
}

/// Builds the manifest's null counts, lower bounds and upper bounds from the
/// statistics of a file, keyed by field id. A column that the schema does not
/// know has no id and is skipped.
pub fn bounds_avro_values(stats: &Vec<(String, ColumnStats)>, schema: &TableSchema) -> (r: (
    AvroValue,
    AvroValue,
    AvroValue,
))
    ensures
        (r.0.tree(), r.1.tree(), r.2.tree()) == bounds_trees(stats@, *schema),
{
    let mut nulls: Vec<AvroValue> = Vec::new();
    let mut lowers: Vec<AvroValue> = Vec::new();
    let mut uppers: Vec<AvroValue> = Vec::new();
    let mut i: usize = 0;
    assert(trees(nulls@) =~= Seq::empty());
    assert(trees(lowers@) =~= Seq::empty());
    assert(trees(uppers@) =~= Seq::empty());
    while i < stats.len()
        invariant
            i <= stats.len(),
            trees(nulls@) == null_entries(stats@.take(i as int), *schema),
            trees(lowers@) == bound_entries(stats@.take(i as int), *schema, true),
            trees(uppers@) == bound_entries(stats@.take(i as int), *schema, false),
        decreases stats.len() - i,
    {
        assert(stats@.take(i + 1).drop_last() =~= stats@.take(i as int));
        assert(stats@.take(i + 1).last() == stats@[i as int]);
        match schema.find_named(stats[i].0.as_str()) {
            Some(field) => {
                let s: &ColumnStats = &stats[i].1;
                let null_entry: AvroValue = keyed_value(field.id, AvroValue::Long(s.null_count));
                proof {
                    lemma_trees_push(nulls@, null_entry);
                }
                nulls.push(null_entry);
                match &s.min {
                    Some(v) => match encode_iceberg_value(v) {
                        Some(bytes) => {
                            let e: AvroValue = keyed_value(field.id, AvroValue::Bytes(bytes));
                            proof {
                                lemma_trees_push(lowers@, e);
                            }
                            lowers.push(e);
                        },
                        None => {},
                    },
                    None => {},
                }
                match &s.max {
                    Some(v) => match encode_iceberg_value(v) {
                        Some(bytes) => {
                            let e: AvroValue = keyed_value(field.id, AvroValue::Bytes(bytes));
                            proof {
                                lemma_trees_push(uppers@, e);
                            }
                            uppers.push(e);
                        },
                        None => {},
                    },
                    None => {},
                }
            },
            None => {},
        }
        i = i + 1;
    }
    assert(stats@.take(i as int) =~= stats@);
    (array_or_absent(nulls), array_or_absent(lowers), array_or_absent(uppers))
}

fn text_or_absent(v: Option<String>) -> (r: AvroValue)
    ensures
        r.tree() == optional_text(
            match v {
                Some(s) => Some(s@),
                None => None,
            },
        ),
{
    match v {
        Some(s) => present(AvroValue::Text(s)),
        None => absent(),
    }
}

fn added_value(snapshot_id: i64, seq_num: i64, file: AvroValue) -> (r: AvroValue)
    ensures
        r.tree() == added_record(snapshot_id, seq_num, file.tree()),
{
    let mut f: Vec<(String, AvroValue)> = Vec::new();
    put(&mut f, "status", AvroValue::Int(1));
    put(&mut f, "snapshot_id", present(AvroValue::Long(snapshot_id)));
    put(&mut f, "sequence_number", present(AvroValue::Long(seq_num)));
    put(&mut f, "file_sequence_number", present(AvroValue::Long(seq_num)));
    put(&mut f, "data_file", file);
    proof {
        lemma_record_tree(f);
        assert(field_trees(f@) =~= added_record(snapshot_id, seq_num, file.tree())->Record_0);
    }
    AvroValue::Record(f)
}

fn file_value(
    content: i32,
    path: &str,
    format: &str,
    partition: AvroValue,
    record_count: i64,
    size: i64,
    bounds: (AvroValue, AvroValue, AvroValue),
    equality_ids: AvroValue,
    index_files: AvroValue,
    checksum: AvroValue,
) -> (r: AvroValue)
    ensures
        r.tree() == file_tree(
            content,
            path@,
            format@,
            partition.tree(),
            record_count,
            size,
            (bounds.0.tree(), bounds.1.tree(), bounds.2.tree()),
            equality_ids.tree(),
            index_files.tree(),
            checksum.tree(),
        ),
{
    let ghost target = file_tree(
        content,
        path@,
        format@,
        partition.tree(),
        record_count,
        size,
        (bounds.0.tree(), bounds.1.tree(), bounds.2.tree()),
        equality_ids.tree(),
        index_files.tree(),
        checksum.tree(),
    );
    let (nulls, lowers, uppers) = bounds;
    let mut f: Vec<(String, AvroValue)> = Vec::new();
    put(&mut f, "content", AvroValue::Int(content));
    put(&mut f, "file_path", AvroValue::Text(path.to_owned()));
    put(&mut f, "file_format", AvroValue::Text(format.to_owned()));
    put(&mut f, "partition", partition);
    put(&mut f, "record_count", AvroValue::Long(record_count));
    put(&mut f, "file_size_in_bytes", AvroValue::Long(size));
    put(&mut f, "column_sizes", absent());
    put(&mut f, "value_counts", absent());
    put(&mut f, "null_value_counts", nulls);
    put(&mut f, "nan_value_counts", absent());
    put(&mut f, "lower_bounds", lowers);
    put(&mut f, "upper_bounds", uppers);
    put(&mut f, "equality_ids", equality_ids);
    put(&mut f, "index_files", index_files);
    put(&mut f, "file_checksum", checksum);
    proof {
        lemma_record_tree(f);
        assert(field_trees(f@) =~= target->Record_0);
    }
    AvroValue::Record(f)
}

fn equality_value(content: &DeleteContent) -> (r: AvroValue)
    ensures
        r.tree() == equality_tree(*content),
{
    match content {
        DeleteContent::Equality { equality_ids } => {
            let mut items: Vec<AvroValue> = Vec::new();
            let mut i: usize = 0;
            while i < equality_ids.len()
                invariant
                    i <= equality_ids.len(),
                    items.len() == i,
                    forall|k: int|
                        0 <= k < i ==> (#[trigger] items@[k]).tree() == AvroTree::Int(
                            equality_ids@[k],
                        ),
                decreases equality_ids.len() - i,
            {
                items.push(AvroValue::Int(equality_ids[i]));
                i = i + 1;
            }
            proof {
                lemma_array_tree(items);
                assert(trees(items@) =~= equality_ids@.map_values(|i: i32| AvroTree::Int(i)));
            }
            present(AvroValue::Array(items))
        },
        _ => absent(),
    }
}

fn delete_value(d: &DeleteFile, spec: &PartitionSpec) -> (r: AvroValue)
    ensures
        r.tree() == delete_file_tree(*d, *spec),
{
    let content: i32 = match &d.content {
        DeleteContent::Position => 1,
        DeleteContent::Equality { .. } => 2,
        DeleteContent::DeletionVector { .. } => 3,
    };
    file_value(
        content,
        d.file_path.as_str(),
        "AVRO",
        partition_record(spec, &d.partition_values),
        d.record_count,
        d.file_size_bytes,
        (absent(), absent(), absent()),
        equality_value(&d.content),
        AvroValue::Null,
        AvroValue::Null,
    )
}

/// The manifest records of an entry: its data file, then its delete files.
pub fn entry_records(
    e: &ManifestEntry,
    index_json: &str,
    spec: &PartitionSpec,
    bounds: (AvroValue, AvroValue, AvroValue),
    snapshot_id: i64,
    seq_num: i64,
) -> (r: Vec<AvroValue>)
    ensures
        trees(r@) == entry_trees(
            *e,
            index_json@,
            *spec,
            (bounds.0.tree(), bounds.1.tree(), bounds.2.tree()),
            snapshot_id,
            seq_num,
        ),
        r.len() > 0,
{
    let ghost target = entry_trees(
        *e,
        index_json@,
        *spec,
        (bounds.0.tree(), bounds.1.tree(), bounds.2.tree()),
        snapshot_id,
        seq_num,
    );
    let index_files: AvroValue = if e.index_files.len() > 0 {
        text_or_absent(Some(index_json.to_owned()))
    } else {
        text_or_absent(None)
    };
    let checksum: AvroValue = match &e.file_checksum {
        Some(c) => text_or_absent(Some(c.clone())),
        None => text_or_absent(None),
    };
    let file: AvroValue = file_value(
        0,
        e.file_path.as_str(),
        "PARQUET",
        partition_record(spec, &e.partition_values),
        e.record_count,
        e.file_size_bytes,
        bounds,
        absent(),
        index_files,
        checksum,
    );
    let mut r: Vec<AvroValue> = Vec::new();
    r.push(added_value(snapshot_id, seq_num, file));
    assert(trees(r@) =~= target.take(1));
    let mut i: usize = 0;
    while i < e.delete_files.len()
        invariant
            i <= e.delete_files.len(),
            r.len() == i + 1,
            target.len() == e.delete_files.len() + 1,
            trees(r@) == target.take(i + 1),
            forall|k: int|
                0 <= k < e.delete_files.len() ==> #[trigger] target[k + 1] == added_record(
                    snapshot_id,
                    seq_num,
                    delete_file_tree(e.delete_files@[k], *spec),
                ),
        decreases e.delete_files.len() - i,
    {
        let d: AvroValue = added_value(
            snapshot_id,
            seq_num,
            delete_value(&e.delete_files[i], spec),
        );
        proof {
            lemma_trees_push(r@, d);
            assert(target[i as int + 1] == d.tree());
            assert(target.take(i + 2) =~= target.take(i + 1).push(target[i + 1]));
        }
        r.push(d);
        i = i + 1;
    }
    assert(target.take(i + 1) =~= target);
    r
}

// ---------------------------------------------------------------------------
// Files
// ---------------------------------------------------------------------------

/// The total number of rows of some entries.
pub open spec fn rows(entries: Seq<ManifestEntry>) -> int
    decreases entries.len(),
{
    if entries.len() == 0 {
        0
    } else {
        rows(entries.drop_last()) + entries.last().record_count
    }
}

/// Every run of entries has a row count that fits 64 bits.
pub open spec fn row_counts_fit(entries: Seq<ManifestEntry>) -> bool {
    forall|i: int, j: int|
        0 <= i <= j <= entries.len() ==> i64::MIN <= #[trigger] rows(entries.subrange(i, j))
            <= i64::MAX
}

/// The records of the manifest of some entries, one group per entry.
pub open spec fn manifest_groups(
    entries: Seq<ManifestEntry>,
    index_json: Seq<String>,
    spec: PartitionSpec,
    schema: Option<TableSchema>,
    snapshot_id: i64,
    seq_num: i64,
) -> Seq<Seq<AvroTree>> {
    Seq::new(
        entries.len(),
        |i: int|
            entry_trees(
                entries[i],
                index_json[i]@,
                spec,
                match schema {
                    Some(t) => bounds_trees(entries[i].column_stats@, t),
                    None => no_bounds(),
                },
                snapshot_id,
                seq_num,
            ),
    )
}

/// What came of writing `records` under the schema `text`: a file that holds
/// them, or the first obstacle. A schema that gives its records a form is accepted.
pub open spec fn file_outcome(
    r: Result<Vec<u8>, AvroFailure>,
    text: Seq<char>,
    plain: bool,
    records: Seq<AvroTree>,
) -> bool {
    match r {
        Ok(bytes) => {
            &&& plain
            &&& avro_schema_parses(text)
            &&& all_accepted(text, records)
            &&& avro_holds(text, records, bytes@)
            &&& reads_back(text, records, bytes@)
            &&& records.len() > 0 ==> bytes@.len() == avro_bytes_out(
                text,
                append_steps(records).push(AvroStep::Flush),
            )
        },
        Err(AvroFailure::Names) => !plain,
        Err(AvroFailure::Schema(_)) => plain && is_rejected(text),
        Err(AvroFailure::Record(i, _)) => {
            &&& plain
            &&& avro_schema_parses(text)
            &&& i < records.len()
            &&& all_accepted(text, records.take(i as int))
            &&& is_refused(text, records[i as int])
        },
        Err(_) => false,
    }
}

/// A schema is not accepted.
pub open spec fn is_rejected(text: Seq<char>) -> bool {
    !avro_schema_parses(text) && forall|shape: AvroShape| !(#[trigger] is_own_shape(text, shape))
}

/// The chunks hold the groups in order, cut where enough bytes were written,
/// each with its number of entries and of rows.
pub open spec fn manifest_chunks_hold(
    chunks: Seq<(Vec<u8>, usize, i64)>,
    text: Seq<char>,
    entries: Seq<ManifestEntry>,
    groups: Seq<Seq<AvroTree>>,
    ends: Seq<int>,
) -> bool {
    &&& chunks.len() == ends.len()
    &&& forall|k: int|
        #![trigger chunks[k]]
        0 <= k < chunks.len() ==> {
            &&& file_holds(chunks[k].0@, text, groups, chunk_start(ends, k), ends[k])
            &&& chunks[k].1 == ends[k] - chunk_start(ends, k)
            &&& chunks[k].2 == rows(entries.subrange(chunk_start(ends, k), ends[k]))
        }
}

/// Writes Iceberg manifest lists and manifests.
#[derive(Debug)]
pub struct IcebergWriter;

impl IcebergWriter {
    pub fn new() -> (r: Self)
        ensures
            r == IcebergWriter,
    {
        IcebergWriter
    }

    /// Writes a manifest list (`snap-*.avro`).
    pub fn write_manifest_list(&self, entries: &Vec<ManifestListEntry>) -> (r: Result<
        Vec<u8>,
        AvroFailure,
    >)
        ensures
            file_outcome(r, MANIFEST_LIST_SCHEMA_V2@, true, list_records(entries@)),
            !(r matches Err(AvroFailure::Schema(_))),
    {
        let mut records: Vec<AvroValue> = Vec::new();
        let mut i: usize = 0;
        while i < entries.len()
            invariant
                i <= entries.len(),
                records.len() == i,
                forall|k: int|
                    0 <= k < i ==> (#[trigger] records@[k]).tree() == list_record(entries@[k]),
            decreases entries.len() - i,
        {
            records.push(manifest_list_record(&entries[i]));
            i = i + 1;
        }
        let ghost made = records@;
        assert(trees(made) =~= list_records(entries@));
        assert(is_own_shape(MANIFEST_LIST_SCHEMA_V2@, list_shape()));
        match write_file(MANIFEST_LIST_SCHEMA_V2, records) {
            Ok((bytes, _)) => Ok(bytes),
            Err(e) => {
                proof {
                    if let AvroFailure::Record(k, _) = e {
                        assert(trees(made)[k as int] == made[k as int].tree());
                    }
                }
                Err(e)
            },
        }
    }

    /// Writes a manifest (`*.avro`) without column bounds.
    ///
    /// `index_json` holds the JSON text of the index files of each entry.
    pub fn write_manifest_file(
        &self,
        entries: &Vec<ManifestEntry>,
        index_json: &Vec<String>,
        partition_spec: &PartitionSpec,
        schema: &TableSchema,
        snapshot_id: i64,
        seq_num: i64,
    ) -> (r: Result<Vec<u8>, AvroFailure>)
        requires
            index_json.len() == entries.len(),
        ensures
            file_outcome(
                r,
                manifest_schema(*partition_spec, *schema),
                plain_partition(*partition_spec),
                manifest_groups(
                    entries@,
                    index_json@,
                    *partition_spec,
                    None,
                    snapshot_id,
                    seq_num,
                ).flatten(),
            ),
    {
        if !has_plain_partition(partition_spec) {
            return Err(AvroFailure::Names);
        }
        let schema_json: String = self.generate_manifest_schema(partition_spec, schema);
        assert(is_own_schema(manifest_schema(*partition_spec, *schema)));
        let ghost groups = manifest_groups(
            entries@,
            index_json@,
            *partition_spec,
            None,
            snapshot_id,
            seq_num,
        );
        let mut records: Vec<AvroValue> = Vec::new();
        let mut i: usize = 0;
        assert(trees(records@) =~= groups.take(0).flatten());
        while i < entries.len()
            invariant
                i <= entries.len(),
                index_json.len() == entries.len(),
                groups == manifest_groups(
                    entries@,
                    index_json@,
                    *partition_spec,
                    None,
                    snapshot_id,
                    seq_num,
                ),
                trees(records@) == groups.take(i as int).flatten(),
            decreases entries.len() - i,
        {
            let mut group: Vec<AvroValue> = entry_records(
                &entries[i],
                index_json[i].as_str(),
                partition_spec,
                (absent(), absent(), absent()),
                snapshot_id,
                seq_num,
            );
            proof {
                let ghost before = records@;
                assert(trees(group@) == groups[i as int]);
                groups.take(i as int).lemma_flatten_push(groups[i as int]);
                assert(groups.take(i + 1) =~= groups.take(i as int).push(groups[i as int]));
                assert(trees(before + group@) =~= trees(before) + trees(group@));
            }
            records.append(&mut group);
            i = i + 1;
        }
        assert(groups.take(i as int) =~= groups);
        let ghost made = records@;
        match write_file(schema_json.as_str(), records) {
            Ok((bytes, _)) => Ok(bytes),
            Err(e) => {
                proof {
                    if let AvroFailure::Record(k, _) = e {
                        assert(trees(made)[k as int] == made[k as int].tree());
                    }
                }
                Err(e)
            },
        }
    }

    /// Writes manifests of about `target_size_bytes` each, with column bounds.
    ///
    /// Each manifest comes with the number of its entries and of their rows.
    /// `index_json` holds the JSON text of the index files of each entry.
    pub fn write_manifest_chunks(
        &self,
        entries: &Vec<ManifestEntry>,
        index_json: &Vec<String>,
        partition_spec: &PartitionSpec,
        schema: &TableSchema,
        snapshot_id: i64,
        seq_num: i64,
        target_size_bytes: usize,
    ) -> (r: Result<Vec<(Vec<u8>, usize, i64)>, AvroFailure>)
        requires
            index_json.len() == entries.len(),
            row_counts_fit(entries@),
        ensures
            ({
                let text = manifest_schema(*partition_spec, *schema);
                let groups = manifest_groups(
                    entries@,
                    index_json@,
                    *partition_spec,
                    Some(*schema),
                    snapshot_id,
                    seq_num,
                );
                match r {
                    Ok(chunks) => {
                        &&& plain_partition(*partition_spec)
                        &&& avro_schema_parses(text)
                        &&& target_size_bytes <= 1 ==> chunks.len() == entries.len()
                        &&& forall|i: int|
                            0 <= i < groups.len() ==> all_accepted(text, #[trigger] groups[i])
                        &&& manifest_chunks_hold(
                            chunks@,
                            text,
                            entries@,
                            groups,
                            chunk_ends(text, groups, target_size_bytes as nat, 0, 0),
                        )
                    },
                    Err(AvroFailure::Names) => !plain_partition(*partition_spec),
                    Err(AvroFailure::Schema(_)) => plain_partition(*partition_spec) && is_rejected(
                        text,
                    ),
                    Err(AvroFailure::Record(i, _)) => {
                        &&& plain_partition(*partition_spec)
                        &&& avro_schema_parses(text)
                        &&& i < groups.len()
                        &&& forall|j: int| 0 <= j < i ==> all_accepted(text, #[trigger] groups[j])
                        &&& some_refused(text, groups[i as int])
                    },
                    Err(_) => false,
                }
            }),
    {
        if !has_plain_partition(partition_spec) {
            return Err(AvroFailure::Names);
        }
        let schema_json: String = self.generate_manifest_schema(partition_spec, schema);
        assert(is_own_schema(manifest_schema(*partition_spec, *schema)));
        let ghost groups = manifest_groups(
            entries@,
            index_json@,
            *partition_spec,
            Some(*schema),
            snapshot_id,
            seq_num,
        );
        let mut made: Vec<Vec<AvroValue>> = Vec::new();
        let mut i: usize = 0;
        while i < entries.len()
            invariant
                i <= entries.len(),
                index_json.len() == entries.len(),
                made.len() == i,
                groups == manifest_groups(
                    entries@,
                    index_json@,
                    *partition_spec,
                    Some(*schema),
                    snapshot_id,
                    seq_num,
                ),
                forall|k: int|
                    0 <= k < i ==> (#[trigger] made@[k]).len() > 0 && trees(made@[k]@)
                        == groups[k],
            decreases entries.len() - i,
        {
            let bounds: (AvroValue, AvroValue, AvroValue) = bounds_avro_values(
                &entries[i].column_stats,
                schema,
            );
            let group: Vec<AvroValue> = entry_records(
                &entries[i],
                index_json[i].as_str(),
                partition_spec,
                bounds,
                snapshot_id,
                seq_num,
            );
            made.push(group);
            i = i + 1;
        }
        assert(group_trees(made@) =~= groups);
        let written: Vec<(Vec<u8>, usize)> = match write_chunks(
            schema_json.as_str(),
            made,
            target_size_bytes,
        ) {
            Ok(written) => written,
            Err(e) => {
                return Err(e);
            },
        };
        let ghost ends = chunk_ends(
            schema_json@,
            groups,
            target_size_bytes as nat,
            0,
            0,
        );
        proof {
            crate::avro::law_chunks_cover_all_groups(
                schema_json@,
                groups,
                target_size_bytes as nat,
            );
        }
        Ok(count_rows(written, entries, Ghost(schema_json@), Ghost(groups), Ghost(ends)))
    }

    /// The Avro schema of the manifests of a table.
    pub fn generate_manifest_schema(&self, spec: &PartitionSpec, schema: &TableSchema) -> (r:
        String)
        ensures
            r@ == manifest_schema(*spec, *schema),
    {
        let mut fields: Vec<String> = Vec::new();
        let ghost target = spec.fields@.map_values(
            |f: PartitionField| partition_field_text(f, *schema),
        );
        let mut i: usize = 0;
        assert(text::texts(fields@) =~= target.take(0));
        while i < spec.fields.len()
            invariant
                i <= spec.fields.len(),
                target == spec.fields@.map_values(
                    |f: PartitionField| partition_field_text(f, *schema),
                ),
                text::texts(fields@) == target.take(i as int),
            decreases spec.fields.len() - i,
        {
            let mut f: String = r#"{"name": ""#.to_owned();
            f.append(spec.fields[i].name.as_str());
            f.append(r#"", "type": "#);
            f.append(partition_field_avro_type(&spec.fields[i], schema));
            f.append(r#", "default": null}"#);
            let ghost before = fields@;
            fields.push(f);
            proof {
                assert(text::texts(fields@) =~= text::texts(before).push(f@));
                assert(target.take(i + 1) =~= target.take(i as int).push(target[i as int]));
            }
            i = i + 1;
        }
        assert(target.take(i as int) =~= target);
        let joined: String = text::join(&fields, ",");
        let mut r: String = MANIFEST_SCHEMA_HEAD.to_owned();
        r.append(joined.as_str());
        r.append(MANIFEST_SCHEMA_TAIL);
        r
    }
}

proof fn lemma_rows_push(entries: Seq<ManifestEntry>, lo: int, hi: int)
    requires
        0 <= lo <= hi < entries.len(),
    ensures
        rows(entries.subrange(lo, hi + 1)) == rows(entries.subrange(lo, hi))
            + entries[hi].record_count,
{
    assert(entries.subrange(lo, hi + 1).drop_last() =~= entries.subrange(lo, hi));
}

/// Adds to each chunk the rows of its entries.
fn count_rows(
    written: Vec<(Vec<u8>, usize)>,
    entries: &Vec<ManifestEntry>,
    Ghost(text): Ghost<Seq<char>>,
    Ghost(groups): Ghost<Seq<Seq<AvroTree>>>,
    Ghost(ends): Ghost<Seq<int>>,
) -> (r: Vec<(Vec<u8>, usize, i64)>)
    requires
        row_counts_fit(entries@),
        groups.len() == entries.len(),
        crate::avro::chunks_hold(written@, text, groups, ends),
        forall|k: int|
            0 <= k < ends.len() ==> chunk_start(ends, k) < #[trigger] ends[k] <= groups.len(),
    ensures
        manifest_chunks_hold(r@, text, entries@, groups, ends),
{
    let ghost all = written@;
    let mut r: Vec<(Vec<u8>, usize, i64)> = Vec::new();
    let mut at: usize = 0;
    for chunk in it: written
        invariant
            it.seq() == all,
            crate::avro::chunks_hold(all, text, groups, ends),
            row_counts_fit(entries@),
            groups.len() == entries.len(),
            forall|k: int|
                0 <= k < ends.len() ==> chunk_start(ends, k) < #[trigger] ends[k] <= groups.len(),
            r.len() == it.index(),
            at == chunk_start(ends, it.index() as int),
            forall|k: int|
                #![trigger r@[k]]
                0 <= k < r.len() ==> {
                    &&& r@[k].0 == all[k].0
                    &&& r@[k].1 == all[k].1
                    &&& r@[k].2 == rows(entries@.subrange(chunk_start(ends, k), ends[k]))
                },
    {
        let ghost k = it.index() as int;
        assert(chunk == all[k]);
        assert(ends[k] <= groups.len());
        let (bytes, count) = chunk;
        let start: usize = at;
        let mut sum: i64 = 0;
        assert(entries@.subrange(start as int, start as int) =~= Seq::empty());
        while at < start + count
            invariant
                row_counts_fit(entries@),
                start <= at <= start + count <= entries.len(),
                sum == rows(entries@.subrange(start as int, at as int)),
            decreases start + count - at,
        {
            proof {
                lemma_rows_push(entries@, start as int, at as int);
                assert(i64::MIN <= rows(entries@.subrange(start as int, at + 1)) <= i64::MAX);
            }
            sum = sum + entries[at].record_count;
            at = at + 1;
        }
        r.push((bytes, count, sum));
    }
    proof {
        assert forall|k: int|
            #![trigger r@[k]]
            0 <= k < r.len() implies {
            &&& file_holds(r@[k].0@, text, groups, chunk_start(ends, k), ends[k])
            &&& r@[k].1 == ends[k] - chunk_start(ends, k)
            &&& r@[k].2 == rows(entries@.subrange(chunk_start(ends, k), ends[k]))
        } by {
            assert(all[k].1 == ends[k] - chunk_start(ends, k));
        }
    }
    r
}

/// A bound that a column is known to have is written: where the schema knows
/// the column and the bound has a binary form, the bounds of the manifest
/// record hold it under the field id of the column.
pub proof fn law_known_bounds_are_written(
    stats: Seq<(String, ColumnStats)>,
    schema: TableSchema,
    lower: bool,
    i: int,
    id: i32,
    value: ManifestValue,
    bytes: Seq<u8>,
)
    requires
        0 <= i < stats.len(),
        field_named(schema.fields@, stats[i].0@) matches Some(f) && f.id == id,
        (if lower {
            stats[i].1.min
        } else {
            stats[i].1.max
        }) == Some(value),
        value_bytes(value) == Some(bytes),
    ensures
        bound_entries(stats, schema, lower).contains(keyed(id, AvroTree::Bytes(bytes))),
        optional_array(bound_entries(stats, schema, lower)) != no_value(),
    decreases stats.len(),
{
    let all = bound_entries(stats, schema, lower);
    let entry = keyed(id, AvroTree::Bytes(bytes));
    if i == stats.len() - 1 {
        assert(all.last() == entry);
    } else {
        law_known_bounds_are_written(stats.drop_last(), schema, lower, i, id, value, bytes);
        let before = bound_entries(stats.drop_last(), schema, lower);
        let k = choose|k: int| 0 <= k < before.len() && before[k] == entry;
        assert(all[k] == entry);
    }
}

// ---------------------------------------------------------------------------
// Reading back
// ---------------------------------------------------------------------------

proof fn lemma_optional(inner: AvroShape, w: AvroTree, r: AvroTree)
    ensures
        reads_as(inner, w, r) ==> reads_as(
            AvroShape::Optional(Box::new(inner)),
            some_value(w),
            some_value(r),
        ),
        reads_as(AvroShape::Optional(Box::new(inner)), no_value(), no_value()),
        reads_as(AvroShape::Optional(Box::new(inner)), AvroTree::Null, no_value()),
{
}

proof fn lemma_array_form(inner: AvroShape, items: Seq<AvroTree>)
    requires
        forall|i: int| #![trigger items[i]] 0 <= i < items.len()
            ==> reads_as(inner, items[i], items[i]),
    ensures
        reads_as(
            AvroShape::Array(Box::new(inner)),
            AvroTree::Array(items),
            AvroTree::Array(items),
        ),
{
}

/// An entry of a statistic has its form.
proof fn lemma_keyed_form(id: i32, shape: AvroShape, value: AvroTree)
    requires
        reads_as(shape, value, value),
    ensures
        reads_as(
            AvroShape::Record(seq![("key"@, AvroShape::Int), ("value"@, shape)]),
            keyed(id, value),
            keyed(id, value),
        ),
{
    let fields = seq![("key"@, AvroShape::Int), ("value"@, shape)];
    let w = keyed(id, value)->Record_0;
    assert(reads_as(AvroShape::Int, AvroTree::Int(id), AvroTree::Int(id)));
    assert forall|i: int|
        #![trigger w[i]]
        #![trigger fields[i]]
        0 <= i < fields.len() implies w[i].0 == fields[i].0 && reads_as(
        fields[i].1,
        w[i].1,
        w[i].1,
    ) by {
        if i == 0 {
        } else {
            assert(i == 1);
        }
    }
}

/// A statistic whose entries have the same form has its form.
proof fn lemma_statistic_form(shape: AvroShape, entries: Seq<AvroTree>)
    requires
        forall|i: int|
            #![trigger entries[i]]
            0 <= i < entries.len() ==> reads_as(
                AvroShape::Record(seq![("key"@, AvroShape::Int), ("value"@, shape)]),
                entries[i],
                entries[i],
            ),
    ensures
        reads_as(keyed_shape(shape), optional_array(entries), optional_array(entries)),
{
    let entry = AvroShape::Record(seq![("key"@, AvroShape::Int), ("value"@, shape)]);
    lemma_array_form(entry, entries);
    lemma_optional(
        AvroShape::Array(Box::new(entry)),
        AvroTree::Array(entries),
        AvroTree::Array(entries),
    );
}

proof fn lemma_null_entries_form(stats: Seq<(String, ColumnStats)>, schema: TableSchema)
    ensures
        forall|i: int|
            #![trigger null_entries(stats, schema)[i]]
            0 <= i < null_entries(stats, schema).len() ==> reads_as(
                AvroShape::Record(seq![("key"@, AvroShape::Int), ("value"@, AvroShape::Long)]),
                null_entries(stats, schema)[i],
                null_entries(stats, schema)[i],
            ),
    decreases stats.len(),
{
    if stats.len() > 0 {
        lemma_null_entries_form(stats.drop_last(), schema);
        let before = null_entries(stats.drop_last(), schema);
        let all = null_entries(stats, schema);
        match field_named(schema.fields@, stats.last().0@) {
            Some(f) => {
                let count = AvroTree::Long(stats.last().1.null_count);
                assert(reads_as(AvroShape::Long, count, count));
                lemma_keyed_form(f.id, AvroShape::Long, count);
                assert forall|i: int| #![trigger all[i]] 0 <= i < all.len() implies reads_as(
                    AvroShape::Record(seq![("key"@, AvroShape::Int), ("value"@, AvroShape::Long)]),
                    all[i],
                    all[i],
                ) by {
                    if i < before.len() {
                        assert(all[i] == before[i]);
                    }
                }
            },
            None => {},
        }
    }
}

proof fn lemma_bound_entries_form(
    stats: Seq<(String, ColumnStats)>,
    schema: TableSchema,
    lower: bool,
)
    ensures
        forall|i: int|
            #![trigger bound_entries(stats, schema, lower)[i]]
            0 <= i < bound_entries(stats, schema, lower).len() ==> reads_as(
                AvroShape::Record(seq![("key"@, AvroShape::Int), ("value"@, AvroShape::Bytes)]),
                bound_entries(stats, schema, lower)[i],
                bound_entries(stats, schema, lower)[i],
            ),
    decreases stats.len(),
{
    if stats.len() > 0 {
        lemma_bound_entries_form(stats.drop_last(), schema, lower);
        let before = bound_entries(stats.drop_last(), schema, lower);
        let all = bound_entries(stats, schema, lower);
        let bound = if lower {
            stats.last().1.min
        } else {
            stats.last().1.max
        };
        match (field_named(schema.fields@, stats.last().0@), bound) {
            (Some(f), Some(v)) => match value_bytes(v) {
                Some(bytes) => {
                    let value = AvroTree::Bytes(bytes);
                    assert(reads_as(AvroShape::Bytes, value, value));
                    lemma_keyed_form(f.id, AvroShape::Bytes, value);
                    assert forall|i: int| #![trigger all[i]] 0 <= i < all.len() implies reads_as(
                        AvroShape::Record(
                            seq![("key"@, AvroShape::Int), ("value"@, AvroShape::Bytes)],
                        ),
                        all[i],
                        all[i],
                    ) by {
                        if i < before.len() {
                            assert(all[i] == before[i]);
                        }
                    }
                },
                None => {},
            },
            _ => {},
        }
    }
}

/// What a reader yields for a partition value: itself, but for a short number in a field
/// of long ones.
pub open spec fn partition_value_read(v: PartitionValue, shape: AvroShape) -> AvroTree {
    match (v, shape) {
        (PartitionValue::Int(i), AvroShape::Long) => AvroTree::Long(i as i64),
        _ => partition_value_tree(v),
    }
}

/// What a reader yields for the partition record of a file.
pub open spec fn partition_read(
    fields: Seq<PartitionField>,
    schema: TableSchema,
    values: Seq<(String, PartitionValue)>,
) -> AvroTree {
    AvroTree::Record(
        fields.map_values(
            |f: PartitionField|
                (
                    f.name@,
                    match partition_lookup(values, f.name@) {
                        PartitionValue::Null => no_value(),
                        v => some_value(partition_value_read(v, partition_value_shape(f, schema))),
                    },
                ),
        ),
    )
}

/// The values of a partition have the types of its fields; a short number fits a field
/// of long ones.
pub open spec fn partition_fits(
    spec: PartitionSpec,
    schema: TableSchema,
    values: Seq<(String, PartitionValue)>,
) -> bool {
    forall|i: int|
        #![trigger spec.fields@[i]]
        0 <= i < spec.fields@.len() ==> {
            let v = partition_lookup(values, spec.fields@[i].name@);
            v is Null || reads_as(
                partition_value_shape(spec.fields@[i], schema),
                partition_value_tree(v),
                partition_value_read(v, partition_value_shape(spec.fields@[i], schema)),
            )
        }
}

proof fn lemma_partition_form(
    spec: PartitionSpec,
    schema: TableSchema,
    values: Seq<(String, PartitionValue)>,
)
    requires
        partition_fits(spec, schema, values),
    ensures
        reads_as(
            partition_shape(spec.fields@, schema),
            partition_tree(spec.fields@, values),
            partition_read(spec.fields@, schema, values),
        ),
{
    let fields = partition_shape(spec.fields@, schema)->Record_0;
    let w = partition_tree(spec.fields@, values)->Record_0;
    let r = partition_read(spec.fields@, schema, values)->Record_0;
    assert forall|i: int|
        #![trigger w[i]]
        #![trigger r[i]]
        #![trigger fields[i]]
        0 <= i < fields.len() implies w[i].0 == fields[i].0 && r[i].0 == fields[i].0 && reads_as(
        fields[i].1,
        w[i].1,
        r[i].1,
    ) by {
        let f = spec.fields@[i];
        let v = partition_lookup(values, f.name@);
        let shape = partition_value_shape(f, schema);
        lemma_optional(shape, partition_value_tree(v), partition_value_read(v, shape));
    }
}

/// What a reader yields for the description of a data file.
pub open spec fn data_file_read(
    e: ManifestEntry,
    index_json: Seq<char>,
    spec: PartitionSpec,
    schema: TableSchema,
    bounds: (AvroTree, AvroTree, AvroTree),
) -> AvroTree {
    let fields = data_file_tree(e, index_json, spec, bounds)->Record_0;
    AvroTree::Record(
        fields.update(
            3,
            ("partition"@, partition_read(spec.fields@, schema, e.partition_values@)),
        ),
    )
}

/// What a reader yields for the description of a delete file.
pub open spec fn delete_file_read(
    d: DeleteFile,
    spec: PartitionSpec,
    schema: TableSchema,
) -> AvroTree {
    file_tree(
        content_id(d.content),
        d.file_path@,
        "AVRO"@,
        partition_read(spec.fields@, schema, d.partition_values@),
        d.record_count,
        d.file_size_bytes,
        no_bounds(),
        equality_tree(d.content),
        no_value(),
        no_value(),
    )
}

/// What a reader yields for the manifest records of an entry.
pub open spec fn entry_reads(
    e: ManifestEntry,
    index_json: Seq<char>,
    spec: PartitionSpec,
    schema: TableSchema,
    bounds: (AvroTree, AvroTree, AvroTree),
    snapshot_id: i64,
    seq_num: i64,
) -> Seq<AvroTree> {
    seq![added_record(snapshot_id, seq_num, data_file_read(e, index_json, spec, schema, bounds))]
        + e.delete_files@.map_values(
        |d: DeleteFile| added_record(snapshot_id, seq_num, delete_file_read(d, spec, schema)),
    )
}

/// What a reader yields for the manifest of some entries, one group per entry.
pub open spec fn manifest_reads(
    entries: Seq<ManifestEntry>,
    index_json: Seq<String>,
    spec: PartitionSpec,
    schema: TableSchema,
    bounds: Option<TableSchema>,
    snapshot_id: i64,
    seq_num: i64,
) -> Seq<Seq<AvroTree>> {
    Seq::new(
        entries.len(),
        |i: int|
            entry_reads(
                entries[i],
                index_json[i]@,
                spec,
                schema,
                match bounds {
                    Some(t) => bounds_trees(entries[i].column_stats@, t),
                    None => no_bounds(),
                },
                snapshot_id,
                seq_num,
            ),
    )
}

/// The partition values of an entry and of its delete files have the types of the
/// partition fields.
pub open spec fn entry_fits(e: ManifestEntry, spec: PartitionSpec, schema: TableSchema) -> bool {
    &&& partition_fits(spec, schema, e.partition_values@)
    &&& forall|k: int|
        0 <= k < e.delete_files@.len() ==> partition_fits(
            spec,
            schema,
            (#[trigger] e.delete_files@[k]).partition_values@,
        )
}

/// The three statistics of a file have their forms.
spec fn bounds_have_form(bounds: (AvroTree, AvroTree, AvroTree)) -> bool {
    &&& reads_as(keyed_shape(AvroShape::Long), bounds.0, bounds.0)
    &&& reads_as(keyed_shape(AvroShape::Bytes), bounds.1, bounds.1)
    &&& reads_as(keyed_shape(AvroShape::Bytes), bounds.2, bounds.2)
}

proof fn lemma_no_bounds_form()
    ensures
        bounds_have_form(no_bounds()),
        reads_as(keyed_shape(AvroShape::Long), no_value(), no_value()),
{
    lemma_statistic_form(AvroShape::Long, Seq::empty());
    lemma_statistic_form(AvroShape::Bytes, Seq::empty());
}

proof fn lemma_bounds_form(stats: Seq<(String, ColumnStats)>, schema: TableSchema)
    ensures
        bounds_have_form(bounds_trees(stats, schema)),
{
    lemma_null_entries_form(stats, schema);
    lemma_bound_entries_form(stats, schema, true);
    lemma_bound_entries_form(stats, schema, false);
    lemma_statistic_form(AvroShape::Long, null_entries(stats, schema));
    lemma_statistic_form(AvroShape::Bytes, bound_entries(stats, schema, true));
    lemma_statistic_form(AvroShape::Bytes, bound_entries(stats, schema, false));
}

/// The description of a file has its form where its parts have theirs.
proof fn lemma_file_form(
    spec: PartitionSpec,
    schema: TableSchema,
    content: i32,
    path: Seq<char>,
    format: Seq<char>,
    partition: (AvroTree, AvroTree),
    record_count: i64,
    size: i64,
    bounds: (AvroTree, AvroTree, AvroTree),
    equality_ids: AvroTree,
    index_files: (AvroTree, AvroTree),
    checksum: (AvroTree, AvroTree),
)
    requires
        reads_as(partition_shape(spec.fields@, schema), partition.0, partition.1),
        bounds_have_form(bounds),
        reads_as(
            AvroShape::Optional(Box::new(AvroShape::Array(Box::new(AvroShape::Int)))),
            equality_ids,
            equality_ids,
        ),
        reads_as(AvroShape::Optional(Box::new(AvroShape::Text)), index_files.0, index_files.1),
        reads_as(AvroShape::Optional(Box::new(AvroShape::Text)), checksum.0, checksum.1),
    ensures
        reads_as(
            file_shape(spec, schema),
            file_tree(
                content,
                path,
                format,
                partition.0,
                record_count,
                size,
                bounds,
                equality_ids,
                index_files.0,
                checksum.0,
            ),
            file_tree(
                content,
                path,
                format,
                partition.1,
                record_count,
                size,
                bounds,
                equality_ids,
                index_files.1,
                checksum.1,
            ),
        ),
{
    let fields = file_shape(spec, schema)->Record_0;
    let w = file_tree(
        content,
        path,
        format,
        partition.0,
        record_count,
        size,
        bounds,
        equality_ids,
        index_files.0,
        checksum.0,
    )->Record_0;
    let r = file_tree(
        content,
        path,
        format,
        partition.1,
        record_count,
        size,
        bounds,
        equality_ids,
        index_files.1,
        checksum.1,
    )->Record_0;
    lemma_no_bounds_form();
    assert(reads_as(AvroShape::Int, w[0].1, r[0].1));
    assert(reads_as(AvroShape::Text, w[1].1, r[1].1));
    assert(reads_as(AvroShape::Text, w[2].1, r[2].1));
    assert(reads_as(AvroShape::Long, w[4].1, r[4].1));
    assert(reads_as(AvroShape::Long, w[5].1, r[5].1));
    assert forall|i: int|
        #![trigger w[i]]
        #![trigger r[i]]
        #![trigger fields[i]]
        0 <= i < fields.len() implies w[i].0 == fields[i].0 && r[i].0 == fields[i].0 && reads_as(
        fields[i].1,
        w[i].1,
        r[i].1,
    ) by {
        if i < 8 {
            assert(i == 0 || i == 1 || i == 2 || i == 3 || i == 4 || i == 5 || i == 6 || i == 7);
        } else {
            assert(i == 8 || i == 9 || i == 10 || i == 11 || i == 12 || i == 13 || i == 14);
        }
    }
}

/// A manifest record has its form where the description of its file has.
proof fn lemma_added_form(
    spec: PartitionSpec,
    schema: TableSchema,
    snapshot_id: i64,
    seq_num: i64,
    w: AvroTree,
    r: AvroTree,
)
    requires
        reads_as(file_shape(spec, schema), w, r),
    ensures
        reads_as(
            manifest_shape(spec, schema),
            added_record(snapshot_id, seq_num, w),
            added_record(snapshot_id, seq_num, r),
        ),
{
    let fields = manifest_shape(spec, schema)->Record_0;
    let ws = added_record(snapshot_id, seq_num, w)->Record_0;
    let rs = added_record(snapshot_id, seq_num, r)->Record_0;
    assert(reads_as(AvroShape::Int, ws[0].1, rs[0].1));
    let id = AvroTree::Long(snapshot_id);
    let number = AvroTree::Long(seq_num);
    assert(reads_as(AvroShape::Long, id, id));
    assert(reads_as(AvroShape::Long, number, number));
    lemma_optional(AvroShape::Long, id, id);
    lemma_optional(AvroShape::Long, number, number);
    assert forall|i: int|
        #![trigger ws[i]]
        #![trigger rs[i]]
        #![trigger fields[i]]
        0 <= i < fields.len() implies ws[i].0 == fields[i].0 && rs[i].0 == fields[i].0 && reads_as(
        fields[i].1,
        ws[i].1,
        rs[i].1,
    ) by {
        assert(i == 0 || i == 1 || i == 2 || i == 3 || i == 4);
    }
}

proof fn lemma_entry_form(
    e: ManifestEntry,
    index_json: Seq<char>,
    spec: PartitionSpec,
    schema: TableSchema,
    bounds: (AvroTree, AvroTree, AvroTree),
    snapshot_id: i64,
    seq_num: i64,
)
    requires
        entry_fits(e, spec, schema),
        sound_partition(spec),
        bounds_have_form(bounds),
    ensures
        have_form(
            manifest_schema(spec, schema),
            entry_trees(e, index_json, spec, bounds, snapshot_id, seq_num),
            entry_reads(e, index_json, spec, schema, bounds, snapshot_id, seq_num),
        ),
{
    let text = manifest_schema(spec, schema);
    let shape = manifest_shape(spec, schema);
    let ws = entry_trees(e, index_json, spec, bounds, snapshot_id, seq_num);
    let rs = entry_reads(e, index_json, spec, schema, bounds, snapshot_id, seq_num);
    assert(is_own_shape(text, shape));
    assert forall|i: int|
        #![trigger ws[i]]
        #![trigger rs[i]]
        0 <= i < ws.len() implies has_form(text, ws[i], rs[i]) by {
        if i == 0 {
            let index = optional_text(
                if e.index_files@.len() > 0 {
                    Some(index_json)
                } else {
                    None
                },
            );
            let checksum = optional_text(
                match e.file_checksum {
                    Some(c) => Some(c@),
                    None => None,
                },
            );
            lemma_partition_form(spec, schema, e.partition_values@);
            lemma_text_form(
                if e.index_files@.len() > 0 {
                    Some(index_json)
                } else {
                    None
                },
            );
            lemma_text_form(
                match e.file_checksum {
                    Some(c) => Some(c@),
                    None => None,
                },
            );
            lemma_optional(
                AvroShape::Array(Box::new(AvroShape::Int)),
                AvroTree::Null,
                AvroTree::Null,
            );
            lemma_file_form(
                spec,
                schema,
                0,
                e.file_path@,
                "PARQUET"@,
                (
                    partition_tree(spec.fields@, e.partition_values@),
                    partition_read(spec.fields@, schema, e.partition_values@),
                ),
                e.record_count,
                e.file_size_bytes,
                bounds,
                no_value(),
                (index, index),
                (checksum, checksum),
            );
            let tree = data_file_tree(e, index_json, spec, bounds);
            let read = data_file_read(e, index_json, spec, schema, bounds);
            assert(read->Record_0 =~= file_tree(
                0,
                e.file_path@,
                "PARQUET"@,
                partition_read(spec.fields@, schema, e.partition_values@),
                e.record_count,
                e.file_size_bytes,
                bounds,
                no_value(),
                index,
                checksum,
            )->Record_0);
            lemma_added_form(spec, schema, snapshot_id, seq_num, tree, read);
            assert(reads_as(shape, ws[i], rs[i]));
        } else {
            let d = e.delete_files@[i - 1];
            lemma_partition_form(spec, schema, d.partition_values@);
            lemma_no_bounds_form();
            lemma_equality_form(d.content);
            lemma_optional(AvroShape::Text, AvroTree::Null, AvroTree::Null);
            lemma_file_form(
                spec,
                schema,
                content_id(d.content),
                d.file_path@,
                "AVRO"@,
                (
                    partition_tree(spec.fields@, d.partition_values@),
                    partition_read(spec.fields@, schema, d.partition_values@),
                ),
                d.record_count,
                d.file_size_bytes,
                no_bounds(),
                equality_tree(d.content),
                (AvroTree::Null, no_value()),
                (AvroTree::Null, no_value()),
            );
            lemma_added_form(
                spec,
                schema,
                snapshot_id,
                seq_num,
                delete_file_tree(d, spec),
                delete_file_read(d, spec, schema),
            );
            assert(reads_as(shape, ws[i], rs[i]));
        }
    }
}

proof fn lemma_text_form(v: Option<Seq<char>>)
    ensures
        reads_as(
            AvroShape::Optional(Box::new(AvroShape::Text)),
            optional_text(v),
            optional_text(v),
        ),
{
    match v {
        Some(s) => {
            assert(reads_as(AvroShape::Text, AvroTree::Text(s), AvroTree::Text(s)));
            lemma_optional(AvroShape::Text, AvroTree::Text(s), AvroTree::Text(s));
        },
        None => {
            lemma_optional(AvroShape::Text, AvroTree::Null, AvroTree::Null);
        },
    }
}

proof fn lemma_equality_form(content: DeleteContent)
    ensures
        reads_as(
            AvroShape::Optional(Box::new(AvroShape::Array(Box::new(AvroShape::Int)))),
            equality_tree(content),
            equality_tree(content),
        ),
{
    let ids = AvroShape::Array(Box::new(AvroShape::Int));
    match content {
        DeleteContent::Equality { equality_ids } => {
            let items = equality_ids@.map_values(|i: i32| AvroTree::Int(i));
            assert forall|i: int| #![trigger items[i]] 0 <= i < items.len() implies reads_as(
                AvroShape::Int,
                items[i],
                items[i],
            ) by {}
            lemma_array_form(AvroShape::Int, items);
            lemma_optional(ids, AvroTree::Array(items), AvroTree::Array(items));
        },
        _ => {
            lemma_optional(ids, AvroTree::Null, AvroTree::Null);
        },
    }
}

proof fn lemma_groups_have_form(
    text: Seq<char>,
    groups: Seq<Seq<AvroTree>>,
    reads: Seq<Seq<AvroTree>>,
)
    requires
        groups.len() == reads.len(),
        forall|i: int| #![trigger groups[i]] 0 <= i < groups.len() ==> have_form(
            text,
            groups[i],
            reads[i],
        ),
    ensures
        have_form(text, groups.flatten(), reads.flatten()),
    decreases groups.len(),
{
    if groups.len() > 0 {
        let g = groups.drop_last();
        let r = reads.drop_last();
        assert forall|i: int| #![trigger g[i]] 0 <= i < g.len() implies have_form(
            text,
            g[i],
            r[i],
        ) by {
            assert(g[i] == groups[i]);
        }
        lemma_groups_have_form(text, g, r);
        g.lemma_flatten_push(groups.last());
        r.lemma_flatten_push(reads.last());
        assert(g.push(groups.last()) =~= groups);
        assert(r.push(reads.last()) =~= reads);
        assert(have_form(text, groups[groups.len() - 1], reads[groups.len() - 1]));
        let ws = groups.flatten();
        let rs = reads.flatten();
        assert(ws =~= g.flatten() + groups.last());
        assert(rs =~= r.flatten() + reads.last());
        assert forall|i: int|
            #![trigger ws[i]]
            #![trigger rs[i]]
            0 <= i < ws.len() implies has_form(text, ws[i], rs[i]) by {
            if i < g.flatten().len() {
                assert(has_form(text, g.flatten()[i], r.flatten()[i]));
            } else {
                let k = i - g.flatten().len();
                assert(has_form(text, groups.last()[k], reads.last()[k]));
            }
        }
    }
}

/// A manifest gives back its entries: a file that was written with the records of some
/// entries is read as these records, where each of them and the schema have a moderate
/// size, the partition fields have names that are allowed and distinct and the partition
/// values fit them. What a delete file lacks is read as absent, and a short number in a
/// field of long ones as a long one.
pub proof fn law_manifests_read_back(
    entries: Seq<ManifestEntry>,
    index_json: Seq<String>,
    spec: PartitionSpec,
    schema: TableSchema,
    bounds: Option<TableSchema>,
    snapshot_id: i64,
    seq_num: i64,
    from: int,
    to: int,
    bytes: Seq<u8>,
)
    requires
        index_json.len() == entries.len(),
        0 <= from <= to <= entries.len(),
        sound_partition(spec),
        forall|i: int|
            from <= i < to ==> entry_fits(#[trigger] entries[i], spec, schema),
        all_moderate(
            manifest_schema(spec, schema),
            manifest_groups(entries, index_json, spec, bounds, snapshot_id, seq_num).subrange(
                from,
                to,
            ).flatten(),
        ),
        reads_back(
            manifest_schema(spec, schema),
            manifest_groups(entries, index_json, spec, bounds, snapshot_id, seq_num).subrange(
                from,
                to,
            ).flatten(),
            bytes,
        ),
    ensures
        is_readable(bytes),
        avro_read(bytes) == Some(
            manifest_reads(entries, index_json, spec, schema, bounds, snapshot_id, seq_num).subrange(
                from,
                to,
            ).flatten(),
        ),
{
    let text = manifest_schema(spec, schema);
    let groups = manifest_groups(entries, index_json, spec, bounds, snapshot_id, seq_num).subrange(
        from,
        to,
    );
    let reads = manifest_reads(entries, index_json, spec, schema, bounds, snapshot_id, seq_num).subrange(
        from,
        to,
    );
    assert forall|i: int| #![trigger groups[i]] 0 <= i < groups.len() implies have_form(
        text,
        groups[i],
        reads[i],
    ) by {
        let e = entries[from + i];
        let b = match bounds {
            Some(t) => bounds_trees(e.column_stats@, t),
            None => no_bounds(),
        };
        lemma_no_bounds_form();
        match bounds {
            Some(t) => {
                lemma_bounds_form(e.column_stats@, t);
            },
            None => {},
        }
        lemma_entry_form(e, index_json[from + i]@, spec, schema, b, snapshot_id, seq_num);
    }
    lemma_groups_have_form(text, groups, reads);
}

/// What a reader yields for the manifest list record of a manifest without partition
/// summaries.
pub open spec fn list_read(e: ManifestListEntry) -> AvroTree {
    let fields = list_record(e)->Record_0;
    AvroTree::Record(fields.update(13, ("partitions"@, no_value())))
}

/// A manifest list gives back its manifests: a file that was written with the records of
/// manifests without partition summaries is read as these records, where each of them
/// has a moderate size.
pub proof fn law_manifest_lists_read_back(entries: Seq<ManifestListEntry>, bytes: Seq<u8>)
    requires
        forall|i: int|
            0 <= i < entries.len() ==> (#[trigger] entries[i]).partition_stats@.len() == 0,
        all_moderate(MANIFEST_LIST_SCHEMA_V2@, list_records(entries)),
        reads_back(MANIFEST_LIST_SCHEMA_V2@, list_records(entries), bytes),
    ensures
        is_readable(bytes),
        avro_read(bytes) == Some(entries.map_values(|e: ManifestListEntry| list_read(e))),
{
    let reads = entries.map_values(|e: ManifestListEntry| list_read(e));
    let writes = list_records(entries);
    let text = MANIFEST_LIST_SCHEMA_V2@;
    let shape = list_shape();
    assert(is_own_shape(text, shape));
    assert forall|i: int|
        #![trigger writes[i]]
        #![trigger reads[i]]
        0 <= i < writes.len() implies has_form(text, writes[i], reads[i]) by {
        assert(entries[i].partition_stats@.len() == 0);
        lemma_list_form(entries[i]);
        assert(reads_as(shape, writes[i], reads[i]));
    }
    assert(have_form(text, writes, reads));
}

proof fn lemma_list_form(e: ManifestListEntry)
    requires
        e.partition_stats@.len() == 0,
    ensures
        reads_as(list_shape(), list_record(e), list_read(e)),
{
    let fields = list_shape()->Record_0;
    let w = list_record(e)->Record_0;
    let r = list_read(e)->Record_0;
    lemma_optional(
        AvroShape::Array(Box::new(summary_shape())),
        AvroTree::Null,
        AvroTree::Null,
    );
    assert forall|i: int|
        #![trigger w[i]]
        #![trigger r[i]]
        #![trigger fields[i]]
        0 <= i < fields.len() implies w[i].0 == fields[i].0 && r[i].0 == fields[i].0 && reads_as(
        fields[i].1,
        w[i].1,
        r[i].1,
    ) by {
        if i < 7 {
            assert(i == 0 || i == 1 || i == 2 || i == 3 || i == 4 || i == 5 || i == 6);
        } else {
            assert(i == 7 || i == 8 || i == 9 || i == 10 || i == 11 || i == 12 || i == 13);
        }
    }
}

/// Orchestrates index builds on a GPU for Puffin sidecar files.
#[derive(Debug)]
pub struct GpuPuffinWriter {}

impl GpuPuffinWriter {
    pub fn new() -> (r: Self)
        ensures
            r == (GpuPuffinWriter {  }),
    {
        GpuPuffinWriter {  }
    }

    /// The path of the sidecar that an index build of the column leaves.
    pub fn build_index(&self, _column: &str) -> (r: String)
        ensures
            r@ == "sidecar_path"@,
    {
        "sidecar_path".to_owned()
    }
}

// ---------------------------------------------------------------------------
// What the records say
// ---------------------------------------------------------------------------

/// A record has a field of a name with a value.
pub open spec fn says(record: AvroTree, name: Seq<char>, value: AvroTree) -> bool {
    record matches AvroTree::Record(fields) && exists|k: int|
        0 <= k < fields.len() && #[trigger] fields[k] == (name, value)
}

/// The record of a manifest says of it what its entry says, under the names of the format.
pub proof fn law_list_records_say_what_the_entries_say(e: ManifestListEntry)
    ensures
        says(list_record(e), "manifest_path"@, AvroTree::Text(e.manifest_path@)),
        says(list_record(e), "manifest_length"@, AvroTree::Long(e.manifest_length)),
        says(list_record(e), "partition_spec_id"@, AvroTree::Int(e.partition_spec_id)),
        says(list_record(e), "content"@, AvroTree::Int(e.content)),
        says(list_record(e), "sequence_number"@, AvroTree::Long(e.sequence_number)),
        says(list_record(e), "min_sequence_number"@, AvroTree::Long(e.min_sequence_number)),
        says(list_record(e), "added_snapshot_id"@, AvroTree::Long(e.added_snapshot_id)),
        says(list_record(e), "added_data_files_count"@, AvroTree::Int(e.added_files_count)),
        says(list_record(e), "existing_data_files_count"@, AvroTree::Int(e.existing_files_count)),
        says(list_record(e), "deleted_data_files_count"@, AvroTree::Int(e.deleted_files_count)),
        says(list_record(e), "added_rows_count"@, AvroTree::Long(e.added_rows_count)),
        says(list_record(e), "existing_rows_count"@, AvroTree::Long(e.existing_rows_count)),
        says(list_record(e), "deleted_rows_count"@, AvroTree::Long(e.deleted_rows_count)),
        e.partition_stats@.len() == 0 ==> says(list_record(e), "partitions"@, AvroTree::Null),
        e.partition_stats@.len() > 0 ==> exists|parts: Seq<AvroTree>|
            #[trigger] says(list_record(e), "partitions"@, AvroTree::Array(parts)) && parts.len()
                == e.partition_stats@.len(),
{
    let fields = list_record(e)->Record_0;
    assert(fields[0] == ("manifest_path"@, AvroTree::Text(e.manifest_path@)));
    assert(fields[1] == ("manifest_length"@, AvroTree::Long(e.manifest_length)));
    assert(fields[2] == ("partition_spec_id"@, AvroTree::Int(e.partition_spec_id)));
    assert(fields[3] == ("content"@, AvroTree::Int(e.content)));
    assert(fields[4] == ("sequence_number"@, AvroTree::Long(e.sequence_number)));
    assert(fields[5] == ("min_sequence_number"@, AvroTree::Long(e.min_sequence_number)));
    assert(fields[6] == ("added_snapshot_id"@, AvroTree::Long(e.added_snapshot_id)));
    assert(fields[7] == ("added_data_files_count"@, AvroTree::Int(e.added_files_count)));
    assert(fields[8] == ("existing_data_files_count"@, AvroTree::Int(e.existing_files_count)));
    assert(fields[9] == ("deleted_data_files_count"@, AvroTree::Int(e.deleted_files_count)));
    assert(fields[10] == ("added_rows_count"@, AvroTree::Long(e.added_rows_count)));
    assert(fields[11] == ("existing_rows_count"@, AvroTree::Long(e.existing_rows_count)));
    assert(fields[12] == ("deleted_rows_count"@, AvroTree::Long(e.deleted_rows_count)));
    assert(fields[13] == ("partitions"@, partitions_tree(e.partition_stats@)));
    if e.partition_stats@.len() > 0 {
        let parts = e.partition_stats@.map_values(|s: (String, ColumnStats)| summary_tree(s.1));
        assert(partitions_tree(e.partition_stats@) == AvroTree::Array(parts));
        assert(says(list_record(e), "partitions"@, AvroTree::Array(parts)));
    }
}

/// The summary of a column says whether values are missing, and its least and greatest value
/// as texts, as far as they are known.
pub proof fn law_summaries_say_what_the_statistics_say(s: ColumnStats)
    ensures
        says(summary_tree(s), "contains_null"@, AvroTree::Boolean(s.null_count > 0)),
        says(summary_tree(s), "contains_nan"@, no_value()),
        s.min matches Some(v) ==> !(v is Null) ==> says(
            summary_tree(s),
            "lower_bound"@,
            some_value(AvroTree::Bytes(vstd::utf8::encode_utf8(value_text(v)))),
        ),
        s.max matches Some(v) ==> !(v is Null) ==> says(
            summary_tree(s),
            "upper_bound"@,
            some_value(AvroTree::Bytes(vstd::utf8::encode_utf8(value_text(v)))),
        ),
{
    let fields = summary_tree(s)->Record_0;
    assert(fields[0] == ("contains_null"@, AvroTree::Boolean(s.null_count > 0)));
    assert(fields[1] == ("contains_nan"@, no_value()));
    assert(fields[2] == ("lower_bound"@, some_value(summary_bound(s.min))));
    assert(fields[3] == ("upper_bound"@, some_value(summary_bound(s.max))));
}

/// Every file of an entry is recorded as added by the snapshot: first the data file, with its
/// path, its counts and its bounds, then each delete file, with its kind.
pub proof fn law_entries_record_all_their_files(
    e: ManifestEntry,
    index_json: Seq<char>,
    spec: PartitionSpec,
    bounds: (AvroTree, AvroTree, AvroTree),
    snapshot_id: i64,
    seq_num: i64,
    k: int,
)
    ensures
        ({
            let all = entry_trees(e, index_json, spec, bounds, snapshot_id, seq_num);
            let data = data_file_tree(e, index_json, spec, bounds);
            &&& all.len() == 1 + e.delete_files@.len()
            &&& says(all[0], "data_file"@, data)
            &&& 0 <= k < e.delete_files@.len() ==> says(
                all[k + 1],
                "data_file"@,
                delete_file_tree(e.delete_files@[k], spec),
            )
            &&& forall|i: int|
                0 <= i < all.len() ==> {
                    &&& says(#[trigger] all[i], "status"@, AvroTree::Int(1))
                    &&& says(all[i], "snapshot_id"@, some_value(AvroTree::Long(snapshot_id)))
                    &&& says(all[i], "sequence_number"@, some_value(AvroTree::Long(seq_num)))
                    &&& says(all[i], "file_sequence_number"@, some_value(AvroTree::Long(seq_num)))
                }
        }),
{
    let all = entry_trees(e, index_json, spec, bounds, snapshot_id, seq_num);
    let data = data_file_tree(e, index_json, spec, bounds);
    assert(all[0] == added_record(snapshot_id, seq_num, data));
    lemma_added(snapshot_id, seq_num, data);
    assert forall|i: int| 0 <= i < all.len() implies {
        &&& says(#[trigger] all[i], "status"@, AvroTree::Int(1))
        &&& says(all[i], "snapshot_id"@, some_value(AvroTree::Long(snapshot_id)))
        &&& says(all[i], "sequence_number"@, some_value(AvroTree::Long(seq_num)))
        &&& says(all[i], "file_sequence_number"@, some_value(AvroTree::Long(seq_num)))
    } by {
        if i > 0 {
            let d = delete_file_tree(e.delete_files@[i - 1], spec);
            assert(all[i] == added_record(snapshot_id, seq_num, d));
            lemma_added(snapshot_id, seq_num, d);
        }
    }
    if 0 <= k < e.delete_files@.len() {
        let d = delete_file_tree(e.delete_files@[k], spec);
        assert(all[k + 1] == added_record(snapshot_id, seq_num, d));
        lemma_added(snapshot_id, seq_num, d);
    }
}

proof fn lemma_added(snapshot_id: i64, seq_num: i64, file: AvroTree)
    ensures
        ({
            let r = added_record(snapshot_id, seq_num, file);
            &&& says(r, "status"@, AvroTree::Int(1))
            &&& says(r, "snapshot_id"@, some_value(AvroTree::Long(snapshot_id)))
            &&& says(r, "sequence_number"@, some_value(AvroTree::Long(seq_num)))
            &&& says(r, "file_sequence_number"@, some_value(AvroTree::Long(seq_num)))
            &&& says(r, "data_file"@, file)
        }),
{
    let fields = added_record(snapshot_id, seq_num, file)->Record_0;
    assert(fields[0] == ("status"@, AvroTree::Int(1)));
    assert(fields[1] == ("snapshot_id"@, some_value(AvroTree::Long(snapshot_id))));
    assert(fields[2] == ("sequence_number"@, some_value(AvroTree::Long(seq_num))));
    assert(fields[3] == ("file_sequence_number"@, some_value(AvroTree::Long(seq_num))));
    assert(fields[4] == ("data_file"@, file));
}

/// The record of a data file says of it what its entry says, and the record of a delete file
/// what kind of deletes it holds.
pub proof fn law_file_records_say_what_the_files_are(
    e: ManifestEntry,
    d: DeleteFile,
    index_json: Seq<char>,
    spec: PartitionSpec,
    bounds: (AvroTree, AvroTree, AvroTree),
)
    ensures
        ({
            let r = data_file_tree(e, index_json, spec, bounds);
            &&& says(r, "content"@, AvroTree::Int(0))
            &&& says(r, "file_path"@, AvroTree::Text(e.file_path@))
            &&& says(r, "file_format"@, AvroTree::Text("PARQUET"@))
            &&& says(r, "record_count"@, AvroTree::Long(e.record_count))
            &&& says(r, "file_size_in_bytes"@, AvroTree::Long(e.file_size_bytes))
            &&& says(r, "null_value_counts"@, bounds.0)
            &&& says(r, "lower_bounds"@, bounds.1)
            &&& says(r, "upper_bounds"@, bounds.2)
            &&& e.index_files@.len() > 0 ==> says(
                r,
                "index_files"@,
                some_value(AvroTree::Text(index_json)),
            )
            &&& e.index_files@.len() == 0 ==> says(r, "index_files"@, no_value())
            &&& e.file_checksum matches Some(c) ==> says(
                r,
                "file_checksum"@,
                some_value(AvroTree::Text(c@)),
            )
            &&& e.file_checksum is None ==> says(r, "file_checksum"@, no_value())
        }),
        ({
            let r = delete_file_tree(d, spec);
            &&& d.content is Position ==> says(r, "content"@, AvroTree::Int(1))
            &&& d.content is Equality ==> says(r, "content"@, AvroTree::Int(2))
            &&& d.content is DeletionVector ==> says(r, "content"@, AvroTree::Int(3))
            &&& says(r, "file_path"@, AvroTree::Text(d.file_path@))
            &&& says(r, "file_format"@, AvroTree::Text("AVRO"@))
            &&& says(r, "record_count"@, AvroTree::Long(d.record_count))
            &&& says(r, "file_size_in_bytes"@, AvroTree::Long(d.file_size_bytes))
            &&& !(d.content is Equality) ==> says(r, "equality_ids"@, no_value())
            &&& d.content matches DeleteContent::Equality { equality_ids } ==> says(
                r,
                "equality_ids"@,
                some_value(AvroTree::Array(equality_ids@.map_values(|i: i32| AvroTree::Int(i)))),
            )
        }),
{
    let f = data_file_tree(e, index_json, spec, bounds)->Record_0;
    assert(f[0] == ("content"@, AvroTree::Int(0)));
    assert(f[1] == ("file_path"@, AvroTree::Text(e.file_path@)));
    assert(f[2] == ("file_format"@, AvroTree::Text("PARQUET"@)));
    assert(f[4] == ("record_count"@, AvroTree::Long(e.record_count)));
    assert(f[5] == ("file_size_in_bytes"@, AvroTree::Long(e.file_size_bytes)));
    assert(f[8] == ("null_value_counts"@, bounds.0));
    assert(f[10] == ("lower_bounds"@, bounds.1));
    assert(f[11] == ("upper_bounds"@, bounds.2));
    assert(f[13].0 == "index_files"@);
    assert(f[14].0 == "file_checksum"@);
    let g = delete_file_tree(d, spec)->Record_0;
    assert(g[0] == ("content"@, AvroTree::Int(content_id(d.content))));
    assert(g[1] == ("file_path"@, AvroTree::Text(d.file_path@)));
    assert(g[2] == ("file_format"@, AvroTree::Text("AVRO"@)));
    assert(g[4] == ("record_count"@, AvroTree::Long(d.record_count)));
    assert(g[5] == ("file_size_in_bytes"@, AvroTree::Long(d.file_size_bytes)));
    assert(g[12] == ("equality_ids"@, equality_tree(d.content)));
}

/// The number of missing values of every column of the schema is written under the number of
/// the column.
pub proof fn law_missing_values_are_counted(
    stats: Seq<(String, ColumnStats)>,
    schema: TableSchema,
    i: int,
    id: i32,
)
    requires
        0 <= i < stats.len(),
        field_named(schema.fields@, stats[i].0@) matches Some(f) && f.id == id,
    ensures
        null_entries(stats, schema).contains(keyed(id, AvroTree::Long(stats[i].1.null_count))),
        says(keyed(id, AvroTree::Long(stats[i].1.null_count)), "key"@, AvroTree::Int(id)),
        says(
            keyed(id, AvroTree::Long(stats[i].1.null_count)),
            "value"@,
            AvroTree::Long(stats[i].1.null_count),
        ),
        null_entries(stats, schema).len() <= stats.len(),
    decreases stats.len(),
{
    let front = stats.drop_last();
    let own = keyed(id, AvroTree::Long(stats[i].1.null_count));
    let fields = own->Record_0;
    assert(fields[0] == ("key"@, AvroTree::Int(id)));
    assert(fields[1] == ("value"@, AvroTree::Long(stats[i].1.null_count)));
    let before = null_entries(front, schema);
    let all = null_entries(stats, schema);
    lemma_null_entries_len(stats, schema);
    if i < front.len() {
        assert(front[i] == stats[i]);
        law_missing_values_are_counted(front, schema, i, id);
        let k = choose|k: int| 0 <= k < before.len() && before[k] == own;
        assert(all[k] == own);
    } else {
        assert(all[all.len() - 1] == own);
    }
}

proof fn lemma_null_entries_len(stats: Seq<(String, ColumnStats)>, schema: TableSchema)
    ensures
        null_entries(stats, schema).len() <= stats.len(),
    decreases stats.len(),
{
    if stats.len() > 0 {
        lemma_null_entries_len(stats.drop_last(), schema);
    }
}

/// A partition value is the first one that is given under the name of the field, and missing
/// where none is.
pub proof fn law_partition_values_go_by_name(
    values: Seq<(String, PartitionValue)>,
    name: Seq<char>,
    i: int,
)
    requires
        0 <= i <= values.len(),
        forall|j: int| 0 <= j < i ==> (#[trigger] values[j]).0@ != name,
    ensures
        i == values.len() ==> partition_lookup(values, name) is Null,
        i < values.len() && values[i].0@ == name ==> partition_lookup(values, name) == values[i].1,
    decreases i,
{
    if i > 0 {
        let rest = values.skip(1);
        assert(values[0].0@ != name);
        assert forall|j: int| 0 <= j < i - 1 implies (#[trigger] rest[j]).0@ != name by {
            assert(rest[j] == values[j + 1]);
        }
        law_partition_values_go_by_name(rest, name, i - 1);
        if i < values.len() {
            assert(rest[i - 1] == values[i]);
        }
    }
}

/// A partition by year, month, day or hour, or into buckets, is a whole number, whatever its
/// source is; any other has the type of its source, which is found by name and else by number.
pub proof fn law_partition_types_follow_their_sources(
    field: PartitionField,
    schema: TableSchema,
    source: SchemaField,
)
    ensures
        transform_gives_int(field.transform@) ==> partition_value_shape(field, schema)
            == AvroShape::Int,
        field_named(schema.fields@, field.name@) == Some(source) ==> source_field(field, schema)
            == Some(source),
        field_named(schema.fields@, field.name@) is None && field.source_ids@.len() > 0
            ==> source_field(field, schema) == field_with_id(schema.fields@, field.source_ids@[0]),
        field_named(schema.fields@, field.name@) is None && field.source_ids@.len() == 0 ==> (
        field.source_id matches Some(id) ==> source_field(field, schema) == field_with_id(
            schema.fields@,
            id,
        )),
        !transform_gives_int(field.transform@) && source_field(field, schema) == Some(source) ==> {
            let shape = partition_value_shape(field, schema);
            &&& source.type_str@ == "Int32"@ || source.type_str@ == "int"@ ==> shape
                == AvroShape::Int
            &&& source.type_str@ == "Int64"@ || source.type_str@ == "long"@ ==> shape
                == AvroShape::Long
            &&& source.type_str@ == "Float32"@ || source.type_str@ == "float"@ ==> shape
                == AvroShape::Float
            &&& source.type_str@ == "Float64"@ || source.type_str@ == "double"@ ==> shape
                == AvroShape::Double
            &&& source.type_str@ == "Boolean"@ || source.type_str@ == "boolean"@ ==> shape
                == AvroShape::Boolean
            &&& source.type_str@ == "Utf8"@ || source.type_str@ == "string"@ ==> shape
                == AvroShape::Text
        },
        !transform_gives_int(field.transform@) && source_field(field, schema) is None
            ==> partition_value_shape(field, schema) == AvroShape::Text,
{
    lemma_type_texts();
    lemma_type_names();
}

proof fn lemma_type_names()
    ensures
        "Int32"@.len() == 5 && "Int32"@[3] == '3' && "int"@.len() == 3,
        "Int32"@[0] == 'I' && "Int64"@[0] == 'I',
        "Int64"@.len() == 5 && "Int64"@[3] == '6' && "long"@.len() == 4 && "long"@[0] == 'l',
        "Float32"@.len() == 7 && "Float32"@[5] == '3' && "float"@.len() == 5 && "float"@[0] == 'f',
        "Float64"@.len() == 7 && "Float64"@[5] == '6' && "double"@.len() == 6 && "double"@[0]
            == 'd',
        "Boolean"@.len() == 7 && "Boolean"@[0] == 'B' && "Float32"@[0] == 'F' && "Float64"@[0]
            == 'F',
        "boolean"@.len() == 7 && "boolean"@[0] == 'b' && "bool"@.len() == 4 && "bool"@[0] == 'b',
        "Utf8"@.len() == 4 && "Utf8"@[0] == 'U' && "string"@.len() == 6 && "string"@[0] == 's',
{
    reveal_strlit("Int32");
    reveal_strlit("int");
    reveal_strlit("Int64");
    reveal_strlit("long");
    reveal_strlit("Float32");
    reveal_strlit("float");
    reveal_strlit("Float64");
    reveal_strlit("double");
    reveal_strlit("Boolean");
    reveal_strlit("boolean");
    reveal_strlit("bool");
    reveal_strlit("Utf8");
    reveal_strlit("string");
}

proof fn lemma_type_texts()
    ensures
        r#"["null", "int"]"#@.len() == 15,
        r#"["null", "long"]"#@.len() == 16,
        r#"["null", "float"]"#@.len() == 17,
        r#"["null", "double"]"#@.len() == 18 && r#"["null", "double"]"#@[10] == 'd',
        r#"["null", "boolean"]"#@.len() == 19,
        r#"["null", "string"]"#@.len() == 18 && r#"["null", "string"]"#@[10] == 's',
{
    reveal_strlit(r#"["null", "int"]"#);
    reveal_strlit(r#"["null", "long"]"#);
    reveal_strlit(r#"["null", "float"]"#);
    reveal_strlit(r#"["null", "double"]"#);
    reveal_strlit(r#"["null", "boolean"]"#);
    reveal_strlit(r#"["null", "string"]"#);
}

/// The rows of a manifest are those of its entries together.
pub proof fn law_rows_add_up(a: Seq<ManifestEntry>, b: Seq<ManifestEntry>)
    ensures
        rows(a + b) == rows(a) + rows(b),
        forall|e: ManifestEntry| #[trigger] rows(seq![e]) == e.record_count,
    decreases b.len(),
{
    assert forall|e: ManifestEntry| #[trigger] rows(seq![e]) == e.record_count by {
        assert(seq![e].drop_last() =~= Seq::<ManifestEntry>::empty());
        assert(rows(Seq::<ManifestEntry>::empty()) == 0);
    }
    if b.len() == 0 {
        assert(a + b =~= a);
    } else {
        law_rows_add_up(a, b.drop_last());
        assert((a + b).drop_last() =~= a + b.drop_last());
    }
}

} // verus!
