use apache_avro::types::Value;
use std::collections::HashSet;

use benostreamdb::avro::AvroFailure;
use benostreamdb::commit::{
    after_commit_conflict, after_import_conflict, after_manifest_conflict, check_follows,
    commit_delay_ms, import_manifest, is_already_exists, list_entry, manifest_location,
    next_manifest, plan_commit, qualify_path, rollback_manifest, table_schema, version_file_name,
    AfterConflict, CommitMetadata,
};
use benostreamdb::iceberg::delete::{
    avro_to_arrow_array, equality_avro_type, map_type_to_arrow, ColumnData, ColumnType,
    DeleteMap, DeleteWriteError, EqualityDeleteReader, EqualityReadError, IcebergDeleteWriter,
    PositionDeleteReader,
};
use benostreamdb::iceberg::writer::{
    bounds_avro_values, partition_field_avro_type, GpuPuffinWriter, IcebergWriter,
};
use benostreamdb::manifest::{
    ColumnStats, DeleteContent, DeleteFile, IndexFile, Manifest, ManifestEntry, ManifestListEntry,
    ManifestValue, PartitionField, PartitionSpec, PartitionValue, SchemaField, TableSchema,
};
use benostreamdb::merge::{
    add_delete, deleted_positions, find_entry, keep_mask, replacing_rows, segment_id, test_keys,
    MergeCommitAction, MergeMatches, MergeMode, MergePlanner,
};
use benostreamdb::reader::{
    deletes_for_cache, deletes_from_cache, equality_delete_column, merge_deletes, native_deletes,
    resolve_delete_path, DeleteFetch, FileDeletes, HybridReader,
};
use benostreamdb::store::{object_key, ManifestManager};
use benostreamdb::textmap::TextMap;
use benostreamdb::vacuum::{
    add_references, classify, plan_vacuum, retention_window, vacuum_min_file_age_secs, FileClass,
    StoredFile, TextSet,
};

fn entry(path: &str) -> ManifestEntry {
    ManifestEntry {
        file_path: path.to_string(),
        file_size_bytes: 10,
        record_count: 3,
        index_files: vec![],
        delete_files: vec![],
        column_stats: vec![],
        partition_values: vec![],
        file_checksum: None,
    }
}

fn spec() -> PartitionSpec {
    PartitionSpec {
        spec_id: 0,
        fields: vec![],
    }
}

fn schema_field(id: i32, name: &str, type_str: &str) -> SchemaField {
    SchemaField {
        id,
        name: name.to_string(),
        type_str: type_str.to_string(),
        required: true,
    }
}

fn one_field_schema() -> TableSchema {
    TableSchema {
        schema_id: 0,
        fields: vec![schema_field(1, "id", "long")],
        identifier_field_ids: vec![],
    }
}

fn delete_file(path: &str, content: DeleteContent) -> DeleteFile {
    DeleteFile {
        file_path: path.to_string(),
        content,
        file_size_bytes: 5,
        record_count: 1,
        partition_values: vec![],
    }
}

fn manifest(version: u64) -> Manifest {
    Manifest {
        version,
        entries: vec![],
        prev_version: None,
        schemas: vec![one_field_schema()],
        current_schema_id: 0,
        partition_spec: spec(),
        partition_specs: vec![spec()],
        default_spec_id: 0,
        last_column_id: 1,
        sort_orders: vec![],
        default_sort_order_id: 0,
        properties: TextMap {
            items: vec![("owner".to_string(), "a".to_string())],
        },
        manifest_list_path: None,
        format_version: 2,
        delete_files: vec![],
    }
}

fn metadata() -> CommitMetadata {
    CommitMetadata {
        updated_schemas: None,
        updated_schema_id: None,
        updated_partition_specs: None,
        updated_default_spec_id: None,
        updated_properties: None,
        removed_properties: None,
        updated_sort_orders: None,
        updated_default_sort_order_id: None,
        updated_last_column_id: None,
        format_version: None,
        is_fast_append: false,
        require_remove_paths_exist: false,
        skip_missing_remove_paths: false,
    }
}

fn with_stats() -> ManifestEntry {
    let mut e = entry("seg_x.parquet");
    e.column_stats = vec![(
        "id".to_string(),
        ColumnStats {
            min: Some(ManifestValue::Int64(40)),
            max: Some(ManifestValue::Int64(42)),
            null_count: 0,
            distinct_count: None,
        },
    )];
    e
}

fn texts(list: &[&str]) -> Vec<String> {
    list.iter().map(|s| s.to_string()).collect()
}

// ---------------------------------------------------------------------------
// Manifests
// ---------------------------------------------------------------------------

#[test]
fn chunks_write_lower_and_upper_bounds() {
    let schema = one_field_schema();
    let entry = with_stats();

    let chunks = IcebergWriter::new()
        .write_manifest_chunks(
            &vec![entry],
            &vec!["[]".to_string()],
            &spec(),
            &schema,
            1,
            1,
            1_000_000,
        )
        .expect("write_manifest_chunks");

    assert!(!chunks.is_empty(), "expected at least one manifest chunk");

    let mut saw_lower = false;
    let mut saw_upper = false;
    for (bytes, _, _) in &chunks {
        let reader = apache_avro::Reader::new(&bytes[..]).expect("avro reader");
        for rec in reader {
            let apache_avro::types::Value::Record(top) = rec.expect("avro record") else {
                continue;
            };
            let Some(apache_avro::types::Value::Record(fields)) =
                top.iter().find(|(k, _)| k == "data_file").map(|(_, v)| v)
            else {
                continue;
            };
            for (key, value) in fields.iter() {
                let non_empty_array = matches!(
                    value,
                    apache_avro::types::Value::Union(_, inner)
                        if matches!(inner.as_ref(), apache_avro::types::Value::Array(a) if !a.is_empty())
                );
                if key == "lower_bounds" && non_empty_array {
                    saw_lower = true;
                }
                if key == "upper_bounds" && non_empty_array {
                    saw_upper = true;
                }
            }
        }
    }

    assert!(
        saw_lower && saw_upper,
        "manifest did not carry non-empty bounds for a column with min/max \
         (lower={saw_lower}, upper={saw_upper})"
    );
}

#[test]
fn manifests_hold_a_record_for_each_file() {
    let mut e = with_stats();
    e.delete_files = vec![delete_file(
        "d.avro",
        DeleteContent::Equality {
            equality_ids: vec![1],
        },
    )];
    let entries = vec![e, entry("b.parquet")];
    let json = vec!["[]".to_string(), "[]".to_string()];
    let bytes = IcebergWriter::new()
        .write_manifest_file(&entries, &json, &spec(), &one_field_schema(), 7, 3)
        .unwrap();
    let records: Vec<_> = apache_avro::Reader::new(&bytes[..])
        .unwrap()
        .map(|r| r.unwrap())
        .collect();
    assert_eq!(records.len(), 3);
    assert_eq!(
        field_of(&field_of(&records[2], "data_file"), "file_path"),
        apache_avro::types::Value::String("b.parquet".to_string())
    );
    let chunks = IcebergWriter::new()
        .write_manifest_chunks(&entries, &json, &spec(), &one_field_schema(), 7, 3, 1)
        .unwrap();
    assert_eq!(chunks.len(), 2);
    assert_eq!(chunks[0].1, 1);
    assert_eq!(chunks[1].2, 3);
}

#[test]
fn manifest_lists_are_written() {
    let e = list_entry("m.avro".to_string(), 100, 0, 3, 2, 50);
    assert_eq!(e.manifest_path, "m.avro");
    assert_eq!(e.added_files_count, 2);
    assert_eq!(e.added_rows_count, 50);
    let list: Vec<ManifestListEntry> = vec![e];
    let bytes = IcebergWriter::new().write_manifest_list(&list).unwrap();
    let records: Vec<_> = apache_avro::Reader::new(&bytes[..])
        .unwrap()
        .map(|r| r.unwrap())
        .collect();
    assert_eq!(records.len(), 1);
    assert_eq!(
        field_of(&records[0], "manifest_path"),
        apache_avro::types::Value::String("m.avro".to_string())
    );
    assert_eq!(
        field_of(&records[0], "manifest_length"),
        apache_avro::types::Value::Long(100)
    );
}

fn field_of(record: &apache_avro::types::Value, name: &str) -> apache_avro::types::Value {
    let apache_avro::types::Value::Record(fields) = record else {
        panic!("{record:?}");
    };
    let (_, value) = fields.iter().find(|(n, _)| n == name).unwrap();
    value.clone()
}

#[test]
fn partition_fields_have_a_type() {
    let schema = TableSchema {
        schema_id: 0,
        fields: vec![
            schema_field(1, "id", "long"),
            schema_field(2, "at", "timestamp"),
        ],
        identifier_field_ids: vec![],
    };
    let field = |source: i32, transform: &str| PartitionField {
        source_ids: vec![source],
        source_id: Some(source),
        field_id: Some(1000),
        name: "p".to_string(),
        transform: transform.to_string(),
    };
    assert_eq!(partition_field_avro_type(&field(1, "identity"), &schema), "[\"null\", \"long\"]");
    assert_eq!(
        partition_field_avro_type(&field(2, "bucket[4]"), &schema),
        "[\"null\", \"int\"]"
    );
    let text = IcebergWriter::new().generate_manifest_schema(
        &PartitionSpec {
            spec_id: 0,
            fields: vec![field(1, "identity")],
        },
        &schema,
    );
    assert!(text.contains("\"p\""), "{text}");
    assert!(apache_avro::Schema::parse_str(&text).is_ok());
    let named = |names: &[&str]| PartitionSpec {
        spec_id: 0,
        fields: names
            .iter()
            .map(|n| PartitionField {
                name: n.to_string(),
                ..field(1, "identity")
            })
            .collect(),
    };
    let write = |names: &[&str]| {
        IcebergWriter::new().write_manifest_file(&vec![], &vec![], &named(names), &schema, 1, 1)
    };
    assert!(matches!(write(&["a b"]), Err(AvroFailure::Names)));
    assert!(matches!(write(&["a", "a"]), Err(AvroFailure::Schema(_))));
    assert!(write(&["a", "b"]).is_ok());
    assert_eq!(GpuPuffinWriter::new().build_index("c"), "sidecar_path");
    let (_, lower, upper) = bounds_avro_values(&with_stats().column_stats, &schema);
    assert_ne!(format!("{lower:?}"), format!("{upper:?}"));
}

// ---------------------------------------------------------------------------
// Deletes
// ---------------------------------------------------------------------------

#[test]
fn position_deletes_read_back() {
    let writer = IcebergDeleteWriter::new("file:///t".to_string(), 2);
    assert_eq!(writer.base_path, "/t");
    let written = writer
        .write_position_delete(
            "u",
            Some((
                "p=1".to_string(),
                vec![("p".to_string(), PartitionValue::Int(1))],
            )),
            &texts(&["a.parquet", "b.parquet", "a.parquet"]),
            &vec![3, 5, 9],
        )
        .unwrap();
    assert_eq!(written.object_path, "p=1/del-pos-u-2.avro");
    assert_eq!(written.file.file_path, "file:///t/p=1/del-pos-u-2.avro");
    assert_eq!(written.file.record_count, 3);
    let map = PositionDeleteReader::read_deletes_avro_static(&written.bytes).unwrap();
    let rows = PositionDeleteReader::read_deletes(&map, "a.parquet");
    assert_eq!(rows, HashSet::from([3, 9]));
    let bitmap = PositionDeleteReader::filter_map_to_bitmap(&map, "b.parquet");
    assert_eq!(bitmap.iter().collect::<Vec<u32>>(), vec![5]);
    assert!(matches!(
        writer.write_position_delete("u", None, &texts(&["a"]), &vec![]),
        Err(DeleteWriteError::LengthMismatch)
    ));
    assert!(matches!(
        PositionDeleteReader::read_deletes_avro_static(&[1, 2, 3]),
        Err(AvroFailure::Header)
    ));
    let cut = &written.bytes[..written.bytes.len() - 1];
    assert!(matches!(
        PositionDeleteReader::read_deletes_avro_static(cut),
        Err(AvroFailure::Read(_))
    ));
}

fn container(schema: &str, value: Value) -> Vec<u8> {
    let schema = apache_avro::Schema::parse_str(schema).unwrap();
    let mut writer = apache_avro::Writer::new(&schema, Vec::new());
    writer.append(value).unwrap();
    writer.into_inner().unwrap()
}

#[test]
fn files_of_other_writers_are_read() {
    let aliased = container(
        r#"{"type": "record", "name": "n.position_delete", "aliases": ["old"], "fields": [
            {"name": "file_path", "type": "string"}, {"name": "pos", "type": "long"}]}"#,
        Value::Record(vec![
            ("file_path".to_string(), Value::String("a".to_string())),
            ("pos".to_string(), Value::Long(6)),
        ]),
    );
    let map = PositionDeleteReader::read_deletes_avro_static(&aliased).unwrap();
    assert_eq!(PositionDeleteReader::read_deletes(&map, "a"), HashSet::from([6]));

    let endless = container(
        r#"{"type": "record", "name": "node", "aliases": ["link"], "fields": [
            {"name": "next", "type": ["null", "link"]}]}"#,
        Value::Record(vec![(
            "next".to_string(),
            Value::Union(0, Box::new(Value::Null)),
        )]),
    );
    assert!(matches!(
        PositionDeleteReader::read_deletes_avro_static(&endless),
        Err(AvroFailure::Header)
    ));
}

fn position_batch(paths: &[&str], positions: &[i64]) -> Vec<(String, ColumnData)> {
    vec![
        (
            "file_path".to_string(),
            ColumnData::Utf8(paths.iter().map(|p| Some(p.to_string())).collect()),
        ),
        (
            "pos".to_string(),
            ColumnData::Int64(positions.iter().map(|p| Some(*p)).collect()),
        ),
    ]
}

#[test]
fn batches_of_positions_become_deletes() {
    let mut lacking = position_batch(&["z"], &[4]);
    lacking.pop();
    let map = PositionDeleteReader::read_deletes_batches(&vec![
        position_batch(&["x", "y", "x"], &[1, 2, 1]),
        lacking,
        position_batch(&["x"], &[7]),
    ])
    .unwrap();
    assert_eq!(
        PositionDeleteReader::read_deletes(&map, "x"),
        HashSet::from([1, 7])
    );
    assert!(PositionDeleteReader::read_deletes(&map, "z").is_empty());
    let mut wrong = position_batch(&["x"], &[1]);
    wrong[1].1 = ColumnData::Int32(vec![Some(1)]);
    let refused = PositionDeleteReader::read_deletes_batches(&vec![wrong]).unwrap_err();
    assert_eq!(refused.message(), "pos column is not int64");
    let mut wrong = position_batch(&["x"], &[1]);
    wrong[0].1 = ColumnData::Int64(vec![Some(1)]);
    let refused = PositionDeleteReader::read_deletes_batches(&vec![wrong]).unwrap_err();
    assert_eq!(refused.message(), "file_path column is not string");
    let columns = texts(&["a", "id", "id"]);
    assert_eq!(
        EqualityDeleteReader::equality_places(&texts(&["id", "a"]), &columns).unwrap(),
        vec![1, 0]
    );
    assert!(matches!(
        EqualityDeleteReader::equality_places(&texts(&["a", "b"]), &columns),
        Err(EqualityReadError::MissingColumn(name)) if name == "b"
    ));
}

/// A container file with this schema and no blocks.
fn header_with(schema: &str) -> Vec<u8> {
    let mut bytes = b"Obj\x01\x02\x16avro.schema".to_vec();
    let mut code = (schema.len() as u64) << 1;
    while code > 0x7f {
        bytes.push((code & 0x7f) as u8 | 0x80);
        code >>= 7;
    }
    bytes.push(code as u8);
    bytes.extend(schema.as_bytes());
    bytes.push(0);
    bytes.extend([7u8; 16]);
    bytes
}

#[test]
fn schemas_that_break_the_reader_are_not_read() {
    let read = |schema: &str| PositionDeleteReader::read_deletes_avro_static(&header_with(schema));
    for schema in [
        r#"{"type":"record","name":"a b","fields":[]}"#,
        r#"{"type":"record","name":"r","fields":[{"name":"f","type":{"type":"array","items":"int","size":"abc"},"default":1}]}"#,
        r#"{"type":"record","name":"r","fields":[{"name":"f","type":{"type":"array","items":"int","order":1},"default":1}]}"#,
        r#"{"type":"record","name":"r","fields":[{"name":"f","type":{"type":"fixed","name":"x","size":18446744073709551615}}]}"#,
        r#"{"type":"record","name":"r","fields":[{"name":"f","type":"r"}]}"#,
    ] {
        assert!(matches!(read(schema), Err(AvroFailure::Header)), "{schema}");
    }
    for schema in [
        r#"{"type":"record","name":".r","fields":[]}"#,
        r#"{"type":"record","name":"r","fields":[{"name":"f","type":"string","default":"a b"}]}"#,
        r#"{"type":"record","name":"r","fields":[{"name":"f","type":{"type":"map","values":"int"},"default":{}}]}"#,
        r#"{"type":"record","name":"r","fields":[{"name":"f","type":"int","props":{"name":"a b"}}]}"#,
    ] {
        assert!(read(schema).is_ok(), "{schema}");
    }
    // A length that takes more bytes than it needs.
    let mut padded = b"Obj\x01\x82\x80\x80\x80\x80\x80\x00".to_vec();
    padded.extend(&header_with("\"null\"")[5..]);
    assert!(PositionDeleteReader::read_deletes_avro_static(&padded).is_ok());
    assert!(matches!(
        read(r#"{"type":"record","name":"r","fields":[{"name":"f","type":"int","default":"x"}]}"#),
        Err(AvroFailure::Read(_))
    ));
}

#[test]
fn equality_deletes_read_back() {
    let writer = IcebergDeleteWriter::new("/t".to_string(), 2);
    let columns = vec![(
        "id".to_string(),
        ColumnData::Int64(vec![Some(4), Some(5), Some(6)]),
    )];
    let schema = one_field_schema();
    let written = writer
        .write_equality_delete("u", None, &columns, 3, vec![1], &schema)
        .unwrap();
    assert_eq!(written.file.record_count, 3);
    let read = EqualityDeleteReader::new()
        .read_equality_deletes_avro(&written.bytes, &vec![1], &schema)
        .unwrap()
        .unwrap();
    assert_eq!(read[0].0, "id");
    assert!(matches!(&read[0].1, ColumnData::Int64(v) if *v == vec![Some(4), Some(5), Some(6)]));
    let nulls = vec![("id".to_string(), ColumnData::Int64(vec![Some(4), None]))];
    assert!(matches!(
        writer.write_equality_delete("u", None, &nulls, 2, vec![1], &schema),
        Err(DeleteWriteError::Avro(AvroFailure::Record(1, _)))
    ));
    assert!(matches!(
        writer.write_equality_delete("u", None, &columns, 3, vec![9], &schema),
        Err(DeleteWriteError::UnknownField(9))
    ));
    assert!(matches!(
        writer.write_equality_delete("u", None, &vec![], 1, vec![1], &schema),
        Err(DeleteWriteError::MissingColumn(_))
    ));
    assert!(matches!(
        EqualityDeleteReader::equality_columns(&vec![9], &schema),
        Err(EqualityReadError::UnknownField(9))
    ));
    assert_eq!(equality_avro_type("Int64"), "long");
    assert_eq!(equality_avro_type("uuid"), "string");
    assert_eq!(map_type_to_arrow("long"), ColumnType::Int64);
    let strings = avro_to_arrow_array(
        vec![
            apache_avro::types::Value::String("a".to_string()),
            apache_avro::types::Value::Null,
        ],
        "string",
    );
    assert!(matches!(&strings, ColumnData::Utf8(v) if v.len() == 2 && v[1].is_none()));
}

fn reader(files: Vec<DeleteFile>) -> HybridReader {
    HybridReader {
        delete_files: files,
        parquet_path: None,
        base_path: "/t".to_string(),
        segment_id: "seg".to_string(),
        root_uri: "file:///t".to_string(),
    }
}

#[test]
fn deletes_are_planned_and_merged() {
    let r = reader(vec![
        delete_file("file:///t/d1.avro", DeleteContent::Position),
        delete_file("file:///t/d1.avro", DeleteContent::Position),
        delete_file(
            "v.puffin",
            DeleteContent::DeletionVector {
                puffin_file_path: "v.puffin".to_string(),
                content_offset: 4,
                content_size_in_bytes: 10,
            },
        ),
        delete_file(
            "e.avro",
            DeleteContent::Equality {
                equality_ids: vec![1],
            },
        ),
    ]);
    assert_eq!(r.unique_delete_files(), vec![0, 2, 3]);
    assert_eq!(r.target_path(), "/t/seg.parquet");
    assert!(r.merged_deletes_cache_key().is_some());
    assert!(reader(vec![]).merged_deletes_cache_key().is_none());
    let fetches = r.plan_delete_fetches();
    assert!(fetches
        .iter()
        .any(|f| matches!(f, DeleteFetch::Vector { start: 4, end: 14, .. })));
    assert!(r.plan_equality_deletes(false).is_none());
    assert_eq!(r.plan_equality_deletes(true).unwrap().len(), 1);
    assert_eq!(
        resolve_delete_path("file:///t/x/d.avro", "file:///t"),
        "x/d.avro"
    );
    assert_eq!(resolve_delete_path("s3://b/d", "file:///t"), "s3://b/d");
    let mut map = DeleteMap::new();
    map.insert("/t/seg.parquet".to_string(), 2);
    map.insert("/t/other.parquet".to_string(), 3);
    let mut vector = roaring::RoaringBitmap::new();
    vector.insert(7);
    let merged = merge_deletes(
        vec![FileDeletes::Positions(map)],
        vec![vector],
        "/t/seg.parquet",
    );
    assert_eq!(merged.iter().collect::<Vec<u32>>(), vec![2, 7]);
    let cached = deletes_for_cache(&merged);
    assert_eq!(cached, HashSet::from([2, 7]));
    assert_eq!(deletes_from_cache(&cached), merged);
    assert_eq!(
        r.load_merged_deletes(Some(&cached), vec![], vec![]),
        merged
    );
    assert!(matches!(native_deletes(None), FileDeletes::Bitmap(b) if b.is_empty()));
    let mut bytes = Vec::new();
    merged.serialize_into(&mut bytes).unwrap();
    assert!(matches!(native_deletes(Some(&bytes)), FileDeletes::Bitmap(b) if b == merged));
    assert_eq!(
        equality_delete_column(&vec![1], &one_field_schema(), 1),
        Some("id".to_string())
    );
    assert_eq!(equality_delete_column(&vec![1, 2], &one_field_schema(), 1), None);
}

#[test]
fn repeated_and_reordered_delete_files_delete_the_same() {
    let (a, b) = (
        || delete_file("a.avro", DeleteContent::Position),
        || delete_file("b.bitmap", DeleteContent::Position),
    );
    let fetch = |r: &HybridReader| {
        let results = r
            .plan_delete_fetches()
            .iter()
            .map(|f| match f {
                DeleteFetch::Positions { .. } => {
                    let mut map = DeleteMap::new();
                    map.insert("/t/seg.parquet".to_string(), 4);
                    map.insert("/t/other.parquet".to_string(), 5);
                    FileDeletes::Positions(map)
                }
                _ => {
                    let mut bytes = Vec::new();
                    roaring::RoaringBitmap::from_iter([1, 9])
                        .serialize_into(&mut bytes)
                        .unwrap();
                    native_deletes(Some(&bytes))
                }
            })
            .collect();
        r.load_merged_deletes(None, results, vec![])
    };
    let first = fetch(&reader(vec![a(), b()]));
    assert_eq!(first.iter().collect::<Vec<u32>>(), vec![1, 4, 9]);
    assert_eq!(fetch(&reader(vec![b(), a(), b(), a(), a()])), first);
}

// ---------------------------------------------------------------------------
// Commits
// ---------------------------------------------------------------------------

#[test]
fn commits_add_and_remove_files() {
    let plan = plan_commit(
        4,
        vec![entry("a.parquet"), entry("b.parquet")],
        vec![],
        vec![entry("c.parquet")],
        &texts(&["a.parquet"]),
        true,
        false,
        "file:///t",
    )
    .unwrap();
    let paths: Vec<&str> = plan.entries.iter().map(|e| e.file_path.as_str()).collect();
    assert_eq!(paths.len(), 2);
    assert!(paths.contains(&"file:///t/b.parquet"));
    assert!(paths.contains(&"file:///t/c.parquet"));
    let missing = plan_commit(
        4,
        vec![entry("a.parquet")],
        vec![],
        vec![],
        &texts(&["zz.parquet"]),
        true,
        false,
        "file:///t",
    )
    .unwrap_err();
    assert_eq!(missing.path, "zz.parquet");
    assert_eq!(missing.version, 4);
    assert!(missing.message().contains("zz.parquet"));
}

#[test]
fn commits_keep_the_indexes_of_a_file() {
    let mut old = entry("a.parquet");
    old.index_files = vec![IndexFile {
        file_path: "a.idx".to_string(),
        index_type: "scalar".to_string(),
        column_name: None,
        blob_type: None,
        offset: None,
        length: None,
    }];
    old.delete_files = vec![delete_file("d.avro", DeleteContent::Position)];
    let plan = plan_commit(
        1,
        vec![old],
        vec![],
        vec![entry("a.parquet")],
        &vec![],
        false,
        false,
        "/t",
    )
    .unwrap();
    assert_eq!(plan.entries.len(), 1);
    assert_eq!(plan.entries[0].index_files.len(), 1);
}

#[test]
fn versions_follow_one_another() {
    let mut meta = metadata();
    meta.updated_properties = Some(vec![("k".to_string(), "v".to_string())]);
    meta.removed_properties = Some(texts(&["owner"]));
    let next = next_manifest(manifest(3), 3, meta, vec![], Some("l.avro".to_string()));
    assert_eq!(next.version, 4);
    assert_eq!(next.prev_version, Some(3));
    assert_eq!(next.properties.get("k").unwrap(), "v");
    assert!(next.properties.get("owner").is_none());
    assert_eq!(next.manifest_list_path.as_deref(), Some("l.avro"));
    assert!(table_schema(&metadata(), &manifest(1)).is_some());
    assert!(check_follows(4, 3).is_ok());
    let wrong = check_follows(6, 3).unwrap_err();
    assert_eq!((wrong.expected, wrong.got), (4, 6));
    assert!(wrong.message().contains('6'));
    let back = rollback_manifest(manifest(2), 9);
    assert_eq!(back.version, 10);
    let imported = import_manifest(
        manifest(2),
        2,
        vec![entry("a.parquet")],
        vec![with_delete("b.parquet"), entry("b.parquet"), with_delete("c.parquet")],
    );
    assert_eq!(imported.version, 3);
    assert_eq!(imported.entries.len(), 3);
    let deletes: Vec<usize> = imported
        .entries
        .iter()
        .map(|e| e.delete_files.len())
        .collect();
    assert_eq!(deletes, vec![0, 0, 1]);
    assert_eq!(version_file_name(12), "v12.json");
    assert_eq!(qualify_path("x", "s3://b/t/"), "s3://b/t/x");
    assert_eq!(qualify_path("/abs", "s3://b/t/"), "/abs");
    assert!(manifest_location("file:///t", "m.avro").contains("m.avro"));
}

fn with_delete(path: &str) -> ManifestEntry {
    let mut e = entry(path);
    e.delete_files = vec![delete_file("d.avro", DeleteContent::Position)];
    e
}

#[test]
fn conflicts_are_tried_again() {
    assert!(is_already_exists("Object at location x already exists"));
    assert!(!is_already_exists("permission denied"));
    assert_eq!(commit_delay_ms(0, 3), 13);
    assert_eq!(commit_delay_ms(1, 25), 25);
    assert_eq!(commit_delay_ms(50, 0), 320);
    assert!(matches!(
        after_commit_conflict(0, 0),
        AfterConflict::Retry { .. }
    ));
    assert!(matches!(
        after_commit_conflict(10_000, 0),
        AfterConflict::GiveUp
    ));
    assert!(matches!(after_import_conflict(0), AfterConflict::Retry { .. }));
    assert!(matches!(after_import_conflict(1_000), AfterConflict::GiveUp));
    assert!(matches!(
        after_manifest_conflict(0),
        AfterConflict::Retry { .. }
    ));
}

// ---------------------------------------------------------------------------
// Vacuum
// ---------------------------------------------------------------------------

#[test]
fn vacuum_spares_what_is_referred_to() {
    let window = retention_window(10, 3).unwrap().unwrap();
    assert_eq!((window.first, window.last), (8, 10));
    assert!(retention_window(0, 3).unwrap().is_none());
    assert_eq!(
        retention_window(5, 0).unwrap_err().message(),
        "Retention versions must be at least 1"
    );
    assert_eq!(classify("t/_manifest/v7.avro"), FileClass::Version);
    assert_eq!(classify("t/_manifest/m.avro"), FileClass::Other);
    assert_eq!(classify("t/a.parquet"), FileClass::Data);
    let mut active = Vec::new();
    add_references(&mut active, &vec![entry("t/a.parquet")], &vec![]);
    assert!(active.contains(&"t/a.parquet".to_string()));
    let file = |path: &str, age_secs: i64| StoredFile {
        path: path.to_string(),
        age_secs,
    };
    let files = vec![
        file("t/a.parquet", 10_000),
        file("t/b.parquet", 10_000),
        file("t/c.parquet", 5),
        file("t/_manifest/v1.avro", 10_000),
        file("t/_manifest/v9.avro", 10_000),
        file("t/readme.txt", 10_000),
    ];
    let kept = TextSet::from_list(texts(&["t/_manifest/v9.avro"]));
    let doomed = plan_vacuum(&files, &TextSet::from_list(active), &kept, 60);
    assert_eq!(doomed, vec![3, 1]);
    assert_eq!(vacuum_min_file_age_secs(Some("30")), 30);
    assert!(vacuum_min_file_age_secs(None) > 0);
}

// ---------------------------------------------------------------------------
// Merges
// ---------------------------------------------------------------------------

fn keys(list: &[&str]) -> Vec<Vec<u8>> {
    list.iter().map(|s| s.as_bytes().to_vec()).collect()
}

#[test]
fn merges_update_and_insert() {
    let mut matches = MergeMatches::new(3);
    let source = keys(&["a", "b", "c"]);
    matches.match_segment("s1".to_string(), &source, &keys(&["x", "b"]));
    matches.match_segment("s0".to_string(), &source, &keys(&["x", "y"]));
    matches.match_segment("s2".to_string(), &source, &keys(&["b", "c"]));
    assert_eq!(matches.updates.len(), 2);
    let candidates = vec![entry("t/s1.parquet"), entry("t/s2.parquet")];
    let plan = MergePlanner::new().plan_merge(MergeMode::CopyOnWrite, &candidates, matches);
    assert_eq!(plan.inserts, vec![0]);
    assert_eq!(plan.updates.len(), 2);
    assert_eq!(plan.updates[0].segment, "s1");
    assert_eq!(plan.updates[0].rows, vec![(1, 1)]);
    assert_eq!(plan.updates[1].rows, vec![(2, 1)]);
    assert_eq!(keep_mask(3, &vec![(0, 1)]), vec![true, false, true]);
    assert_eq!(replacing_rows(&vec![(4, 1), (2, 0)]), vec![4, 2]);
    assert_eq!(deleted_positions(&vec![(4, 1), (2, 0)]), vec![1, 0]);
    assert_eq!(segment_id("t/s1.parquet"), "s1");
    assert_eq!(find_entry(&candidates, "s2"), Some(1));
    assert_eq!(find_entry(&candidates, "s3"), None);
    for mode in [MergeMode::CopyOnWrite, MergeMode::MergeOnRead] {
        let mut nothing = MergeMatches::new(0);
        nothing.match_segment("s1".to_string(), &vec![], &keys(&["a"]));
        let plan = MergePlanner::new().plan_merge(mode, &candidates, nothing);
        assert!(plan.updates.is_empty() && plan.inserts.is_empty());
    }
    let action = add_delete(
        entry("t/s1.parquet"),
        delete_file("d.avro", DeleteContent::Position),
    );
    assert!(matches!(
        action,
        MergeCommitAction::AddDelete { updated_entry, .. } if updated_entry.delete_files.len() == 1
    ));
}

#[test]
fn segments_without_the_keys_are_skipped() {
    let planner = MergePlanner::new();
    assert_eq!(
        planner.prune_segments(
            3,
            true,
            &vec![
                vec![Some(false), Some(false)],
                vec![Some(false), Some(true)],
                vec![None],
            ]
        ),
        vec![1, 2]
    );
    assert_eq!(planner.prune_segments(2, false, &vec![]), vec![0, 1]);
    let values = vec![
        ManifestValue::Text("a".to_string()),
        ManifestValue::Text("a".to_string()),
        ManifestValue::Int64(5),
    ];
    assert_eq!(test_keys(&values), vec![0, 2]);
}

// ---------------------------------------------------------------------------
// Stores
// ---------------------------------------------------------------------------

#[test]
fn manifests_have_places() {
    let manager = ManifestManager::new("tables/t", "s3://b/tables/t/");
    let path = manager.manifest_path("v1.avro");
    assert_eq!(path.to_string(), "tables/t/_manifest/v1.avro");
    assert!(manager.get_cache_key(&path).ends_with("tables/t/_manifest/v1.avro"));
    assert!(!manager.get_dir_cache_key().ends_with('/'));
    assert_eq!(object_key("/a//b/"), "a/b");
}
