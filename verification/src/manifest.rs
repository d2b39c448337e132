//! The table manifest: what a snapshot of a table is made of.

use vstd::prelude::*;
use vstd::string::*;

use crate::text;
use crate::textmap::TextMap;

verus! {

/// One value of a column, as statistics hold it.
///
/// A floating-point value is held by its bits, together with its decimal text.
#[derive(Debug, Clone)]
pub enum ManifestValue {
    Null,
    Boolean(bool),
    Int32(i32),
    Int64(i64),
    Float32(u32, String),
    Float64(u64, String),
    Text(String),
}

/// Statistics of one column of a file.
#[derive(Debug, Clone)]
pub struct ColumnStats {
    pub min: Option<ManifestValue>,
    pub max: Option<ManifestValue>,
    pub null_count: i64,
    pub distinct_count: Option<i64>,
}

/// The value of a partition field.
#[derive(Debug, Clone)]
pub enum PartitionValue {
    Null,
    Boolean(bool),
    Int(i32),
    Long(i64),
    Float(u32),
    Double(u64),
    Text(String),
}

/// A file that holds an index of a data file.
#[derive(Debug, Clone)]
pub struct IndexFile {
    pub file_path: String,
    pub index_type: String,
    pub column_name: Option<String>,
    pub blob_type: Option<String>,
    pub offset: Option<i64>,
    pub length: Option<i64>,
}

/// What a delete file lists.
#[derive(Debug, Clone)]
pub enum DeleteContent {
    /// Positions of rows in data files.
    Position,
    /// Rows by the values of these fields.
    Equality { equality_ids: Vec<i32> },
    /// A bitmap of the positions of rows, inside a Puffin file.
    DeletionVector { puffin_file_path: String, content_offset: i64, content_size_in_bytes: i64 },
}

/// A file of deleted rows.
#[derive(Debug, Clone)]
pub struct DeleteFile {
    pub file_path: String,
    pub content: DeleteContent,
    pub file_size_bytes: i64,
    pub record_count: i64,
    pub partition_values: Vec<(String, PartitionValue)>,
}

/// A data file with its indexes, deletes and statistics.
#[derive(Debug, Clone)]
pub struct ManifestEntry {
    pub file_path: String,
    pub file_size_bytes: i64,
    pub record_count: i64,
    pub index_files: Vec<IndexFile>,
    pub delete_files: Vec<DeleteFile>,
    pub column_stats: Vec<(String, ColumnStats)>,
    pub partition_values: Vec<(String, PartitionValue)>,
    pub file_checksum: Option<String>,
}

/// A column of a table schema.
#[derive(Debug, Clone)]
pub struct SchemaField {
    pub id: i32,
    pub name: String,
    pub type_str: String,
    pub required: bool,
}

/// A table schema.
#[derive(Debug, Clone)]
pub struct TableSchema {
    pub schema_id: i32,
    pub fields: Vec<SchemaField>,
    pub identifier_field_ids: Vec<i32>,
}

/// How one partition value is computed.
#[derive(Debug, Clone)]
pub struct PartitionField {
    pub source_ids: Vec<i32>,
    pub source_id: Option<i32>,
    pub field_id: Option<i32>,
    pub name: String,
    pub transform: String,
}

/// How a table is partitioned.
#[derive(Debug, Clone)]
pub struct PartitionSpec {
    pub spec_id: i32,
    pub fields: Vec<PartitionField>,
}

/// How the rows of a table are sorted.
#[derive(Debug, Clone)]
pub struct SortOrder {
    pub order_id: i32,
    pub fields: Vec<SortField>,
}

/// One column of a sort order.
#[derive(Debug, Clone)]
pub struct SortField {
    pub source_id: i32,
    pub transform: String,
    pub ascending: bool,
    pub nulls_first: bool,
}

/// One manifest file of a snapshot, as the manifest list describes it.
#[derive(Debug, Clone)]
pub struct ManifestListEntry {
    pub manifest_path: String,
    pub manifest_length: i64,
    pub partition_spec_id: i32,
    pub content: i32,
    pub sequence_number: i64,
    pub min_sequence_number: i64,
    pub added_snapshot_id: i64,
    pub added_files_count: i32,
    pub existing_files_count: i32,
    pub deleted_files_count: i32,
    pub added_rows_count: i64,
    pub existing_rows_count: i64,
    pub deleted_rows_count: i64,
    pub partition_stats: Vec<(String, ColumnStats)>,
}

/// One version of a table.
#[derive(Debug, Clone)]
pub struct Manifest {
    pub version: u64,
    pub entries: Vec<ManifestEntry>,
    pub prev_version: Option<u64>,
    pub schemas: Vec<TableSchema>,
    pub current_schema_id: i32,
    pub partition_spec: PartitionSpec,
    pub partition_specs: Vec<PartitionSpec>,
    pub default_spec_id: i32,
    pub last_column_id: i32,
    pub sort_orders: Vec<SortOrder>,
    pub default_sort_order_id: i32,
    pub properties: TextMap<String>,
    pub manifest_list_path: Option<String>,
    pub format_version: i32,
    pub delete_files: Vec<DeleteFile>,
}

/// Two partition fields say the same.
pub open spec fn same_field(a: PartitionField, b: PartitionField) -> bool {
    &&& a.source_ids@ == b.source_ids@
    &&& a.source_id == b.source_id
    &&& a.field_id == b.field_id
    &&& a.name@ == b.name@
    &&& a.transform@ == b.transform@
}

/// Two partition specs say the same.
pub open spec fn same_spec(a: PartitionSpec, b: PartitionSpec) -> bool {
    &&& a.spec_id == b.spec_id
    &&& a.fields@.len() == b.fields@.len()
    &&& forall|i: int|
        0 <= i < a.fields@.len() ==> same_field(#[trigger] a.fields@[i], b.fields@[i])
}

impl PartitionField {
    /// A copy of the field.
    pub fn copy(&self) -> (r: PartitionField)
        ensures
            same_field(r, *self),
    {
        let mut source_ids: Vec<i32> = Vec::new();
        let mut i: usize = 0;
        while i < self.source_ids.len()
            invariant
                i <= self.source_ids.len(),
                source_ids@ == self.source_ids@.take(i as int),
            decreases self.source_ids.len() - i,
        {
            source_ids.push(self.source_ids[i]);
            i = i + 1;
            assert(source_ids@ =~= self.source_ids@.take(i as int));
        }
        assert(source_ids@ =~= self.source_ids@);
        PartitionField {
            source_ids,
            source_id: self.source_id,
            field_id: self.field_id,
            name: self.name.clone(),
            transform: self.transform.clone(),
        }
    }
}

impl PartitionSpec {
    /// A copy of the spec.
    pub fn copy(&self) -> (r: PartitionSpec)
        ensures
            same_spec(r, *self),
    {
        let mut fields: Vec<PartitionField> = Vec::new();
        let mut i: usize = 0;
        while i < self.fields.len()
            invariant
                i <= self.fields.len(),
                fields.len() == i,
                forall|k: int|
                    0 <= k < i ==> same_field(#[trigger] fields@[k], self.fields@[k]),
            decreases self.fields.len() - i,
        {
            fields.push(self.fields[i].copy());
            i = i + 1;
        }
        PartitionSpec { spec_id: self.spec_id, fields }
    }
}

impl Manifest {
    /// A version with nothing but its entries, schemas and partition spec.
    pub fn new_with_spec(
        version: u64,
        entries: Vec<ManifestEntry>,
        prev_version: Option<u64>,
        schemas: Vec<TableSchema>,
        current_schema_id: i32,
        partition_spec: PartitionSpec,
    ) -> (r: Manifest)
        ensures
            r.version == version,
            r.entries == entries,
            r.prev_version == prev_version,
            r.schemas == schemas,
            r.current_schema_id == current_schema_id,
            r.partition_spec == partition_spec,
            r.partition_specs@.len() == 0,
            r.default_spec_id == 0,
            r.last_column_id == 0,
            r.sort_orders@.len() == 0,
            r.default_sort_order_id == 0,
            r.properties.wf(),
            r.properties@ == Map::<Seq<char>, String>::empty(),
            r.manifest_list_path is None,
            r.format_version == 2,
            r.delete_files@.len() == 0,
    {
        Manifest {
            version,
            entries,
            prev_version,
            schemas,
            current_schema_id,
            partition_spec,
            partition_specs: Vec::new(),
            default_spec_id: 0,
            last_column_id: 0,
            sort_orders: Vec::new(),
            default_sort_order_id: 0,
            properties: TextMap::new(),
            manifest_list_path: None,
            format_version: 2,
            delete_files: Vec::new(),
        }
    }
}

/// The first field called `name`.
pub open spec fn field_named(fields: Seq<SchemaField>, name: Seq<char>) -> Option<SchemaField>
    decreases fields.len(),
{
    if fields.len() == 0 {
        None
    } else if fields[0].name@ == name {
        Some(fields[0])
    } else {
        field_named(fields.skip(1), name)
    }
}

/// The first field with id `id`.
pub open spec fn field_with_id(fields: Seq<SchemaField>, id: i32) -> Option<SchemaField>
    decreases fields.len(),
{
    if fields.len() == 0 {
        None
    } else if fields[0].id == id {
        Some(fields[0])
    } else {
        field_with_id(fields.skip(1), id)
    }
}

impl TableSchema {
    /// The first field called `name`.
    pub fn find_named(&self, name: &str) -> (r: Option<&SchemaField>)
        ensures
            match r {
                Some(f) => field_named(self.fields@, name@) == Some(*f),
                None => field_named(self.fields@, name@) is None,
            },
    {
        let mut i: usize = 0;
        assert(self.fields@.skip(0) =~= self.fields@);
        while i < self.fields.len()
            invariant
                i <= self.fields.len(),
                field_named(self.fields@.skip(i as int), name@) == field_named(
                    self.fields@,
                    name@,
                ),
            decreases self.fields.len() - i,
        {
            if text::same(self.fields[i].name.as_str(), name) {
                return Some(&self.fields[i]);
            }
            assert(self.fields@.skip(i as int).skip(1) =~= self.fields@.skip(i + 1));
            i = i + 1;
        }
        None
    }

    /// The first field with id `id`.
    pub fn find_id(&self, id: i32) -> (r: Option<&SchemaField>)
        ensures
            match r {
                Some(f) => field_with_id(self.fields@, id) == Some(*f),
                None => field_with_id(self.fields@, id) is None,
            },
    {
        let mut i: usize = 0;
        assert(self.fields@.skip(0) =~= self.fields@);
        while i < self.fields.len()
            invariant
                i <= self.fields.len(),
                field_with_id(self.fields@.skip(i as int), id) == field_with_id(self.fields@, id),
            decreases self.fields.len() - i,
        {
            if self.fields[i].id == id {
                return Some(&self.fields[i]);
            }
            assert(self.fields@.skip(i as int).skip(1) =~= self.fields@.skip(i + 1));
            i = i + 1;
        }
        None
    }
}

/// A value, by its texts.
pub ghost enum ValueView {
    Null,
    Boolean(bool),
    Int32(i32),
    Int64(i64),
    Float32(u32, Seq<char>),
    Float64(u64, Seq<char>),
    Text(Seq<char>),
}

/// The texts of a value.
pub open spec fn value_view(v: ManifestValue) -> ValueView {
    match v {
        ManifestValue::Null => ValueView::Null,
        ManifestValue::Boolean(b) => ValueView::Boolean(b),
        ManifestValue::Int32(i) => ValueView::Int32(i),
        ManifestValue::Int64(i) => ValueView::Int64(i),
        ManifestValue::Float32(bits, t) => ValueView::Float32(bits, t@),
        ManifestValue::Float64(bits, t) => ValueView::Float64(bits, t@),
        ManifestValue::Text(s) => ValueView::Text(s@),
    }
}

/// The statistics of a column, by their texts.
pub ghost struct StatsView {
    pub min: Option<ValueView>,
    pub max: Option<ValueView>,
    pub null_count: i64,
    pub distinct_count: Option<i64>,
}

/// The texts of an optional value.
pub open spec fn optional_value(v: Option<ManifestValue>) -> Option<ValueView> {
    match v {
        Some(x) => Some(value_view(x)),
        None => None,
    }
}

/// The texts of the statistics of a column.
pub open spec fn stats_view(s: ColumnStats) -> StatsView {
    StatsView {
        min: optional_value(s.min),
        max: optional_value(s.max),
        null_count: s.null_count,
        distinct_count: s.distinct_count,
    }
}

/// The text of a value.
pub open spec fn value_text(v: ManifestValue) -> Seq<char> {
    match v {
        ManifestValue::Null => "null"@,
        ManifestValue::Boolean(b) => if b {
            "true"@
        } else {
            "false"@
        },
        ManifestValue::Int32(i) => text::signed_decimal(i as int),
        ManifestValue::Int64(i) => text::signed_decimal(i as int),
        ManifestValue::Float32(bits, text) => text@,
        ManifestValue::Float64(bits, text) => text@,
        ManifestValue::Text(s) => s@,
    }
}

/// The single-value binary form of a value: little-endian numbers, UTF-8 text.
pub open spec fn value_bytes(v: ManifestValue) -> Option<Seq<u8>> {
    match v {
        ManifestValue::Null => None,
        ManifestValue::Boolean(b) => Some(
            seq![
                if b {
                    1u8
                } else {
                    0u8
                },
            ],
        ),
        ManifestValue::Int32(i) => Some(vstd::bytes::spec_u32_to_le_bytes(i as u32)),
        ManifestValue::Int64(i) => Some(vstd::bytes::spec_u64_to_le_bytes(i as u64)),
        ManifestValue::Float32(bits, text) => Some(vstd::bytes::spec_u32_to_le_bytes(bits)),
        ManifestValue::Float64(bits, text) => Some(vstd::bytes::spec_u64_to_le_bytes(bits)),
        ManifestValue::Text(s) => Some(vstd::utf8::encode_utf8(s@)),
    }
}

impl ManifestValue {
    /// The text of the value.
    pub fn to_text(&self) -> (r: String)
        ensures
            r@ == value_text(*self),
    {
        match self {
            ManifestValue::Null => "null".to_owned(),
            ManifestValue::Boolean(b) => if *b {
                "true".to_owned()
            } else {
                "false".to_owned()
            },
            ManifestValue::Int32(i) => text::i64_text(*i as i64),
            ManifestValue::Int64(i) => text::i64_text(*i),
            ManifestValue::Float32(_, text) => text.clone(),
            ManifestValue::Float64(_, text) => text.clone(),
            ManifestValue::Text(s) => s.clone(),
        }
    }

    /// Whether the value is null.
    pub fn is_null(&self) -> (r: bool)
        ensures
            r == (*self is Null),
    {
        match self {
            ManifestValue::Null => true,
            _ => false,
        }
    }
}

/// The single-value binary form of a value; null has none.
pub fn encode_iceberg_value(v: &ManifestValue) -> (r: Option<Vec<u8>>)
    ensures
        match r {
            Some(bytes) => value_bytes(*v) == Some(bytes@),
            None => value_bytes(*v) is None,
        },
{
    match v {
        ManifestValue::Null => None,
        ManifestValue::Boolean(b) => {
            let bytes: Vec<u8> = vec![
                if *b {
                    1u8
                } else {
                    0u8
                },
            ];
            assert(bytes@ =~= value_bytes(*v)->0);
            Some(bytes)
        },
        ManifestValue::Int32(i) => Some(vstd::bytes::u32_to_le_bytes(*i as u32)),
        ManifestValue::Int64(i) => Some(vstd::bytes::u64_to_le_bytes(*i as u64)),
        ManifestValue::Float32(bits, _) => Some(vstd::bytes::u32_to_le_bytes(*bits)),
        ManifestValue::Float64(bits, _) => Some(vstd::bytes::u64_to_le_bytes(*bits)),
        ManifestValue::Text(s) => Some(s.as_str().as_bytes_vec()),
    }
}

/// A field is found by its name, and by its number: the first one that has it.
pub proof fn law_the_first_such_field_is_found(
    fields: Seq<SchemaField>,
    name: Seq<char>,
    id: i32,
    i: int,
)
    requires
        0 <= i <= fields.len(),
    ensures
        (forall|j: int| 0 <= j < i ==> (#[trigger] fields[j]).name@ != name) ==> {
            &&& i == fields.len() ==> field_named(fields, name) is None
            &&& i < fields.len() && fields[i].name@ == name ==> field_named(fields, name) == Some(
                fields[i],
            )
        },
        (forall|j: int| 0 <= j < i ==> (#[trigger] fields[j]).id != id) ==> {
            &&& i == fields.len() ==> field_with_id(fields, id) is None
            &&& i < fields.len() && fields[i].id == id ==> field_with_id(fields, id) == Some(
                fields[i],
            )
        },
    decreases i,
{
    if i > 0 {
        let rest = fields.skip(1);
        law_the_first_such_field_is_found(rest, name, id, i - 1);
        if i < fields.len() {
            assert(rest[i - 1] == fields[i]);
        }
        if forall|j: int| 0 <= j < i ==> (#[trigger] fields[j]).name@ != name {
            assert(fields[0].name@ != name);
            assert forall|j: int| 0 <= j < i - 1 implies (#[trigger] rest[j]).name@ != name by {
                assert(rest[j] == fields[j + 1]);
            }
        }
        if forall|j: int| 0 <= j < i ==> (#[trigger] fields[j]).id != id {
            assert(fields[0].id != id);
            assert forall|j: int| 0 <= j < i - 1 implies (#[trigger] rest[j]).id != id by {
                assert(rest[j] == fields[j + 1]);
            }
        }
    }
}

/// The bytes of a value read back as the value: numbers from the lowest byte on, texts as
/// UTF-8, truth values as one byte; a missing value has none.
pub proof fn law_value_bytes_read_back(a: i32, b: i64, bits: u64, low: u32, s: String)
    ensures
        value_bytes(ManifestValue::Null) is None,
        value_bytes(ManifestValue::Boolean(true)) == Some(seq![1u8]),
        value_bytes(ManifestValue::Boolean(false)) == Some(seq![0u8]),
        value_bytes(ManifestValue::Int32(a)) matches Some(t) && t.len() == 4
            && vstd::bytes::spec_u32_from_le_bytes(t) == a as u32,
        value_bytes(ManifestValue::Int64(b)) matches Some(t) && t.len() == 8
            && vstd::bytes::spec_u64_from_le_bytes(t) == b as u64,
        value_bytes(ManifestValue::Float32(low, s)) matches Some(t) && t.len() == 4
            && vstd::bytes::spec_u32_from_le_bytes(t) == low,
        value_bytes(ManifestValue::Float64(bits, s)) matches Some(t) && t.len() == 8
            && vstd::bytes::spec_u64_from_le_bytes(t) == bits,
        value_bytes(ManifestValue::Text(s)) matches Some(t) && vstd::utf8::valid_utf8(t)
            && vstd::utf8::decode_utf8(t) == s@,
{
    vstd::bytes::lemma_auto_spec_u32_to_from_le_bytes();
    vstd::bytes::lemma_auto_spec_u64_to_from_le_bytes();
    assert(vstd::bytes::spec_u32_to_le_bytes(a as u32).len() == 4);
    assert(vstd::bytes::spec_u32_to_le_bytes(low).len() == 4);
    vstd::utf8::encode_utf8_valid_utf8(s@);
    vstd::utf8::encode_utf8_decode_utf8(s@);
}

/// A value is written as a text from which it can be told: whole numbers read back, and truth
/// values and texts are what they are.
pub proof fn law_value_texts_read_back(a: i32, b: i64, s: String)
    ensures
        text::signed_number(value_text(ManifestValue::Int32(a))) == Some(a as int),
        text::signed_number(value_text(ManifestValue::Int64(b))) == Some(b as int),
        value_text(ManifestValue::Boolean(true)) == "true"@,
        value_text(ManifestValue::Boolean(false)) == "false"@,
        value_text(ManifestValue::Null) == "null"@,
        value_text(ManifestValue::Text(s)) == s@,
{
    text::law_signed_decimal_reads_back(a as int);
    text::law_signed_decimal_reads_back(b as int);
}

} // verus!
