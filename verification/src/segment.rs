//! Segments: what a writer of one data file keeps of it, which of its columns
//! get indexes, and the manifest entry that comes of it.

use sha2::{Digest, Sha256};
use std::collections::BTreeMap;
use url::Url;
use vstd::prelude::*;
use vstd::string::*;

use crate::manifest::{
    self, ColumnStats, DeleteFile, IndexFile, ManifestEntry, ManifestValue, PartitionValue,
};
use crate::order;
use crate::store;
use crate::text;
use crate::textmap::TextMap;

verus! {

// ---------------------------------------------------------------------------
// Names of files
// ---------------------------------------------------------------------------

/// What a generated file is, by its name.
#[derive(Debug, Clone, Copy, PartialEq, Eq, Structural)]
pub enum FileKind {
    /// An inverted index.
    Inverted,
    /// A file that goes with an index and has no entry of its own.
    Auxiliary,
    /// The data file.
    Data,
    /// A bitmap index.
    Scalar,
    /// A graph index.
    Graph,
    /// A vector index.
    Vector,
    /// Anything else.
    Unknown,
}

/// The kind of a file by its name.
pub open spec fn file_kind(name: Seq<char>) -> FileKind {
    if ".inv.parquet"@.is_suffix_of(name) {
        FileKind::Inverted
    } else if ".centroids.parquet"@.is_suffix_of(name) || ".mapping.parquet"@.is_suffix_of(name)
        || text::occurs(name, ".doclen.parquet"@) {
        FileKind::Auxiliary
    } else if ".parquet"@.is_suffix_of(name) {
        FileKind::Data
    } else if text::occurs(name, ".idx"@) {
        FileKind::Scalar
    } else if ".graph_v2.csr.offsets"@.is_suffix_of(name) || ".graph_v2.csr.edges"@.is_suffix_of(
        name,
    ) {
        FileKind::Graph
    } else if ".hnsw.graph"@.is_suffix_of(name) {
        FileKind::Vector
    } else {
        FileKind::Unknown
    }
}

/// Decides the kind of a file by its name.
pub fn kind_of_file(name: &str) -> (r: FileKind)
    ensures
        r == file_kind(name@),
{
    if text::ends_with(name, ".inv.parquet") {
        FileKind::Inverted
    } else if text::ends_with(name, ".centroids.parquet") || text::ends_with(
        name,
        ".mapping.parquet",
    ) || text::contains(name, ".doclen.parquet") {
        FileKind::Auxiliary
    } else if text::ends_with(name, ".parquet") {
        FileKind::Data
    } else if text::contains(name, ".idx") {
        FileKind::Scalar
    } else if text::ends_with(name, ".graph_v2.csr.offsets") || text::ends_with(
        name,
        ".graph_v2.csr.edges",
    ) {
        FileKind::Graph
    } else if text::ends_with(name, ".hnsw.graph") {
        FileKind::Vector
    } else {
        FileKind::Unknown
    }
}

/// The text of an optional text.
pub open spec fn optional_text(s: Option<String>) -> Option<Seq<char>> {
    match s {
        Some(t) => Some(t@),
        None => None,
    }
}

/// An index file, by its texts.
pub ghost struct IndexView {
    pub file_path: Seq<char>,
    pub index_type: Seq<char>,
    pub column_name: Option<Seq<char>>,
    pub blob_type: Option<Seq<char>>,
    pub offset: Option<i64>,
    pub length: Option<i64>,
}

/// The texts of an index file.
pub open spec fn index_view(f: IndexFile) -> IndexView {
    IndexView {
        file_path: f.file_path@,
        index_type: f.index_type@,
        column_name: optional_text(f.column_name),
        blob_type: optional_text(f.blob_type),
        offset: f.offset,
        length: f.length,
    }
}

/// The texts of index files.
pub open spec fn index_views(files: Seq<IndexFile>) -> Seq<IndexView> {
    files.map_values(|f: IndexFile| index_view(f))
}

/// An index file that covers all of its file.
pub open spec fn whole_index(
    file_path: Seq<char>,
    index_type: Seq<char>,
    column_name: Option<Seq<char>>,
    blob_type: Option<Seq<char>>,
) -> IndexView {
    IndexView { file_path, index_type, column_name, blob_type, offset: None, length: None }
}

/// The second of the parts of a name between dots.
pub open spec fn second_part(name: Seq<char>) -> Option<Seq<char>> {
    let parts = text::pieces(name, '.');
    if parts.len() > 1 {
        Some(parts[1])
    } else {
        None
    }
}

/// What stands before the number of a cluster.
pub open spec fn before_cluster(name: Seq<char>) -> Seq<char> {
    if text::occurs(name, ".cluster_"@) {
        name.take(choose|i: int| text::first_at(name, ".cluster_"@, i))
    } else {
        name
    }
}

/// The name that the files of one vector index share.
pub open spec fn vector_base(name: Seq<char>) -> Seq<char> {
    let parts = text::pieces(name, '.');
    before_cluster(text::joined(parts.take(parts.len() - 2), "."@))
}

/// The index that a file belongs to, as the manifest lists it.
pub open spec fn index_of_file(name: Seq<char>, algorithms: Map<Seq<char>, String>) -> Option<
    IndexView,
> {
    let parts = text::pieces(name, '.');
    match file_kind(name) {
        FileKind::Inverted => Some(whole_index(name, "inverted"@, second_part(name), None)),
        FileKind::Scalar => Some(
            whole_index(
                name,
                "scalar"@,
                if second_part(name) == Some("idx"@) {
                    None
                } else {
                    second_part(name)
                },
                None,
            ),
        ),
        FileKind::Graph => if parts.len() >= 4 {
            Some(
                whole_index(
                    parts[0] + "."@ + parts[1],
                    "graph_v2"@,
                    Some(parts[1]),
                    Some("csr_graph"@),
                ),
            )
        } else {
            None
        },
        FileKind::Vector => if parts.len() >= 3 {
            let base = vector_base(name);
            Some(
                whole_index(
                    base,
                    "vector"@,
                    Some(parts[1]),
                    if algorithms.dom().contains(base) {
                        Some(algorithms[base]@)
                    } else {
                        None
                    },
                ),
            )
        } else {
            None
        },
        _ => None,
    }
}

/// Both name one index: several files can belong to it.
pub open spec fn same_index(a: IndexView, b: IndexView) -> bool {
    &&& a.file_path == b.file_path
    &&& a.index_type == b.index_type
    &&& a.column_name == b.column_name
}

/// Some index of a list is the same as `b`.
pub open spec fn lists_index(list: Seq<IndexView>, b: IndexView) -> bool {
    exists|i: int| 0 <= i < list.len() && same_index(#[trigger] list[i], b)
}

/// The indexes of generated files: graph and vector indexes once each.
pub open spec fn indexes_of(files: Seq<Seq<char>>, algorithms: Map<Seq<char>, String>) -> Seq<
    IndexView,
>
    decreases files.len(),
{
    if files.len() == 0 {
        Seq::empty()
    } else {
        let before = indexes_of(files.drop_last(), algorithms);
        let name = text::pieces(files.last(), '/').last();
        let kind = file_kind(name);
        match index_of_file(name, algorithms) {
            Some(v) => if (kind == FileKind::Graph || kind == FileKind::Vector) && lists_index(
                before,
                v,
            ) {
                before
            } else {
                before.push(v)
            },
            None => before,
        }
    }
}

fn texts_same(a: &Option<String>, b: &Option<String>) -> (r: bool)
    ensures
        r == (optional_text(*a) == optional_text(*b)),
{
    match (a, b) {
        (Some(x), Some(y)) => text::same(x.as_str(), y.as_str()),
        (None, None) => true,
        _ => false,
    }
}

fn has_index(list: &Vec<IndexFile>, f: &IndexFile) -> (r: bool)
    ensures
        r == lists_index(index_views(list@), index_view(*f)),
{
    let mut i: usize = 0;
    while i < list.len()
        invariant
            i <= list.len(),
            forall|k: int|
                0 <= k < i ==> !same_index(#[trigger] index_views(list@)[k], index_view(*f)),
        decreases list.len() - i,
    {
        assert(index_views(list@)[i as int] == index_view(list@[i as int]));
        if text::same(list[i].file_path.as_str(), f.file_path.as_str()) && text::same(
            list[i].index_type.as_str(),
            f.index_type.as_str(),
        ) && texts_same(&list[i].column_name, &f.column_name) {
            return true;
        }
        i = i + 1;
    }
    false
}

fn cut_at_cluster(name: &str) -> (r: String)
    ensures
        r@ == before_cluster(name@),
{
    match text::find(name, ".cluster_") {
        Some(i) => {
            proof {
                let j = choose|j: int| text::first_at(name@, ".cluster_"@, j);
                assert(text::first_at(name@, ".cluster_"@, i as int));
                assert(text::occurs_at(name@, ".cluster_"@, i as int));
                if j < i {
                    assert(text::occurs_at(name@, ".cluster_"@, j));
                }
                assert(j == i);
            }
            let chars: Vec<char> = text::to_chars(name);
            assert(name@.subrange(0, i as int) =~= name@.take(i as int));
            text::slice_text(&chars, 0, i)
        },
        None => name.to_owned(),
    }
}

fn make_index(
    file_path: String,
    index_type: &str,
    column_name: Option<String>,
    blob_type: Option<String>,
) -> (r: IndexFile)
    ensures
        index_view(r) == whole_index(
            file_path@,
            index_type@,
            optional_text(column_name),
            optional_text(blob_type),
        ),
{
    IndexFile {
        file_path,
        index_type: index_type.to_owned(),
        column_name,
        blob_type,
        offset: None,
        length: None,
    }
}

/// The index that a file belongs to, if it is one of an index.
pub fn find_index(name: &str, algorithms: &TextMap<String>) -> (r: Option<IndexFile>)
    requires
        algorithms.wf(),
    ensures
        match r {
            Some(f) => index_of_file(name@, algorithms@) == Some(index_view(f)),
            None => index_of_file(name@, algorithms@) is None,
        },
{
    let parts: Vec<String> = text::split(name, '.');
    let ghost views = text::pieces(name@, '.');
    assert(text::texts(parts@) == views);
    assert(forall|i: int| 0 <= i < parts.len() ==> (#[trigger] parts@[i])@ == views[i]) by {
        assert forall|i: int| 0 <= i < parts.len() implies (#[trigger] parts@[i])@ == views[i] by {
            assert(text::texts(parts@)[i] == parts@[i]@);
        }
    }
    assert(parts.len() == views.len());
    let second: Option<String> = if parts.len() > 1 {
        Some(parts[1].clone())
    } else {
        None
    };
    match kind_of_file(name) {
        FileKind::Inverted => Some(make_index(name.to_owned(), "inverted", second, None)),
        FileKind::Scalar => {
            let column: Option<String> = match second {
                Some(c) => if text::same(c.as_str(), "idx") {
                    None
                } else {
                    Some(c)
                },
                None => None,
            };
            Some(make_index(name.to_owned(), "scalar", column, None))
        },
        FileKind::Graph => {
            if parts.len() >= 4 {
                let mut path: String = parts[0].clone();
                path.append(".");
                path.append(parts[1].as_str());
                Some(make_index(path, "graph_v2", second, Some("csr_graph".to_owned())))
            } else {
                None
            }
        },
        FileKind::Vector => {
            if parts.len() >= 3 {
                let mut front: Vec<String> = Vec::new();
                let mut i: usize = 0;
                while i < parts.len() - 2
                    invariant
                        3 <= parts.len(),
                        i <= parts.len() - 2,
                        text::texts(front@) == text::texts(parts@).take(i as int),
                    decreases parts.len() - 2 - i,
                {
                    let ghost before = front@;
                    let part: String = parts[i].clone();
                    front.push(part);
                    proof {
                        assert(text::texts(front@) =~= text::texts(before).push(part@));
                        assert(text::texts(parts@)[i as int] == part@);
                        assert(text::texts(parts@).take(i + 1) =~= text::texts(parts@).take(
                            i as int,
                        ).push(part@));
                    }
                    i = i + 1;
                }
                let joined: String = text::join(&front, ".");
                let base: String = cut_at_cluster(joined.as_str());
                let algorithm: Option<String> = match algorithms.get(base.as_str()) {
                    Some(a) => Some(a.clone()),
                    None => None,
                };
                Some(make_index(base, "vector", second, algorithm))
            } else {
                None
            }
        },
        _ => None,
    }
}

// ---------------------------------------------------------------------------
// The writer
// ---------------------------------------------------------------------------

/// How a column is indexed.
#[derive(Debug)]
pub enum IndexAlgorithm {
    Hnsw { metric: String },
    HnswPq { metric: String },
    HnswTq4 { metric: String },
    HnswTq8 { metric: String },
    CompositeBitmap { columns: Vec<String> },
    CsrGraph { src_column: String, dst_column: String },
    Other,
}

impl IndexAlgorithm {
    /// The part of a file name that stands for the algorithm.
    pub open spec fn spec_id(self) -> Seq<char> {
        match self {
            IndexAlgorithm::Hnsw { .. } => "hnsw"@,
            IndexAlgorithm::HnswPq { .. } => "pq"@,
            IndexAlgorithm::HnswTq4 { .. } => "tq4"@,
            IndexAlgorithm::HnswTq8 { .. } => "tq8"@,
            _ => "idx"@,
        }
    }

    /// The part of a file name that stands for the algorithm.
    pub fn id(&self) -> (r: &'static str)
        ensures
            r@ == self.spec_id(),
    {
        match self {
            IndexAlgorithm::Hnsw { .. } => "hnsw",
            IndexAlgorithm::HnswPq { .. } => "pq",
            IndexAlgorithm::HnswTq4 { .. } => "tq4",
            IndexAlgorithm::HnswTq8 { .. } => "tq8",
            _ => "idx",
        }
    }

    /// The distance that a vector algorithm names; the others go by L2.
    pub open spec fn spec_metric(self) -> Option<Seq<char>> {
        match self {
            IndexAlgorithm::Hnsw { metric } => Some(metric@),
            IndexAlgorithm::HnswPq { metric } => Some(metric@),
            IndexAlgorithm::HnswTq4 { metric } => Some(metric@),
            IndexAlgorithm::HnswTq8 { metric } => Some(metric@),
            _ => None,
        }
    }

    /// The distance that a vector algorithm names; the others go by L2.
    pub fn metric(&self) -> (r: Option<&String>)
        ensures
            match (r, self.spec_metric()) {
                (Some(a), Some(b)) => a@ == b,
                (None, None) => true,
                _ => false,
            },
    {
        match self {
            IndexAlgorithm::Hnsw { metric } => Some(metric),
            IndexAlgorithm::HnswPq { metric } => Some(metric),
            IndexAlgorithm::HnswTq4 { metric } => Some(metric),
            IndexAlgorithm::HnswTq8 { metric } => Some(metric),
            _ => None,
        }
    }

    fn metric_name(&self) -> (r: Option<String>)
        ensures
            match (r, self.spec_metric()) {
                (Some(a), Some(b)) => a@ == b,
                (None, None) => true,
                _ => false,
            },
    {
        match self.metric() {
            Some(m) => Some(m.clone()),
            None => None,
        }
    }
}

/// A vector index: its name, which its files begin with, and the name of its
/// distance; L2 where there is none.
#[derive(Debug)]
pub struct VectorIndex {
    pub name: String,
    pub metric: Option<String>,
}

/// The indexes that a column is to have.
#[derive(Debug)]
pub struct ColumnIndexConfig {
    pub enabled: bool,
    pub algorithms: Vec<IndexAlgorithm>,
}

/// Where a segment goes and what is indexed of it.
#[derive(Debug)]
pub struct SegmentConfig {
    pub base_path: String,
    pub segment_id: String,
    pub index_all: bool,
    pub columns_to_index: Option<Vec<String>>,
    pub parquet_path: Option<String>,
    pub delete_files: Vec<DeleteFile>,
    pub partition_values: Vec<(String, PartitionValue)>,
    pub column_devices: TextMap<String>,
    pub default_device: Option<String>,
    pub column_algorithms: TextMap<Vec<IndexAlgorithm>>,
}

impl SegmentConfig {
    /// The maps hold no key twice.
    pub open spec fn wf(self) -> bool {
        &&& self.column_devices.wf()
        &&& self.column_algorithms.wf()
    }

    /// The configuration of a segment that indexes nothing by itself.
    pub fn new(base_path: &str, segment_id: &str) -> (r: Self)
        ensures
            r.wf(),
            r.base_path@ == base_path@,
            r.segment_id@ == segment_id@,
            !r.index_all,
            r.columns_to_index is None,
            r.parquet_path is None,
            r.delete_files@.len() == 0,
            r.partition_values@.len() == 0,
            r.column_devices@ == Map::<Seq<char>, String>::empty(),
            r.default_device is None,
            r.column_algorithms@ == Map::<Seq<char>, Vec<IndexAlgorithm>>::empty(),
    {
        SegmentConfig {
            base_path: base_path.to_owned(),
            segment_id: segment_id.to_owned(),
            index_all: false,
            columns_to_index: None,
            parquet_path: None,
            delete_files: Vec::new(),
            partition_values: Vec::new(),
            column_devices: TextMap::new(),
            default_device: None,
            column_algorithms: TextMap::new(),
        }
    }

    /// The same configuration, with all columns indexed or not.
    pub fn with_index_all(self, index_all: bool) -> (r: Self)
        ensures
            r == (SegmentConfig { index_all, ..self }),
    {
        let mut config = self;
        config.index_all = index_all;
        config
    }
}

/// The base path is a URI of another place than the local file system.
pub open spec fn is_remote_path(base_path: Seq<char>) -> bool {
    text::occurs(base_path, "://"@) && !"file://"@.is_prefix_of(base_path)
}

/// A path without the scheme of local files.
pub open spec fn without_file_scheme(base_path: Seq<char>) -> Seq<char> {
    if "file://"@.is_prefix_of(base_path) {
        base_path.skip("file://"@.len() as int)
    } else {
        base_path
    }
}

/// The path of a segment's data file on the local file system.
pub open spec fn local_data_path(base_path: Seq<char>, segment_id: Seq<char>) -> Seq<char> {
    let base = without_file_scheme(base_path);
    if base.len() == 0 {
        segment_id + ".parquet"@
    } else {
        base + "/"@ + segment_id + ".parquet"@
    }
}

/// The statistics that a file keeps of one column. A floating-point bound is
/// held by its bits and its decimal text.
#[derive(Debug)]
pub enum ChunkBounds {
    Int32(Option<i32>, Option<i32>),
    Int64(Option<i64>, Option<i64>),
    Float(Option<(u32, String)>, Option<(u32, String)>),
    Double(Option<(u64, String)>, Option<(u64, String)>),
    ByteArray(Option<Vec<u8>>, Option<Vec<u8>>),
    Boolean(Option<bool>, Option<bool>),
    Other,
}

/// The counts and bounds that a file keeps of one column.
#[derive(Debug)]
pub struct ChunkStatistics {
    pub null_count: Option<u64>,
    pub distinct_count: Option<u64>,
    pub bounds: ChunkBounds,
}

/// A column of a written file, with its statistics where there are any.
#[derive(Debug)]
pub struct ColumnChunk {
    pub name: String,
    pub statistics: Option<ChunkStatistics>,
}

/// The value of a text bound: none where the bytes are not valid UTF-8.
pub open spec fn text_bound(bytes: Seq<u8>) -> Option<manifest::ValueView> {
    if vstd::utf8::valid_utf8(bytes) {
        Some(manifest::ValueView::Text(vstd::utf8::decode_utf8(bytes)))
    } else {
        None
    }
}

/// The bounds of a column, as the manifest keeps them. Text bounds are kept
/// only where both are there.
pub open spec fn bound_values(b: ChunkBounds) -> (Option<manifest::ValueView>, Option<manifest::ValueView>) {
    match b {
        ChunkBounds::Int32(lo, hi) => (
            match lo {
                Some(v) => Some(manifest::ValueView::Int32(v)),
                None => None,
            },
            match hi {
                Some(v) => Some(manifest::ValueView::Int32(v)),
                None => None,
            },
        ),
        ChunkBounds::Int64(lo, hi) => (
            match lo {
                Some(v) => Some(manifest::ValueView::Int64(v)),
                None => None,
            },
            match hi {
                Some(v) => Some(manifest::ValueView::Int64(v)),
                None => None,
            },
        ),
        ChunkBounds::Float(lo, hi) => (
            match lo {
                Some(v) => Some(manifest::ValueView::Float32(v.0, v.1@)),
                None => None,
            },
            match hi {
                Some(v) => Some(manifest::ValueView::Float32(v.0, v.1@)),
                None => None,
            },
        ),
        ChunkBounds::Double(lo, hi) => (
            match lo {
                Some(v) => Some(manifest::ValueView::Float64(v.0, v.1@)),
                None => None,
            },
            match hi {
                Some(v) => Some(manifest::ValueView::Float64(v.0, v.1@)),
                None => None,
            },
        ),
        ChunkBounds::ByteArray(lo, hi) => match (lo, hi) {
            (Some(l), Some(h)) => (text_bound(l@), text_bound(h@)),
            _ => (None, None),
        },
        ChunkBounds::Boolean(lo, hi) => (
            match lo {
                Some(v) => Some(manifest::ValueView::Boolean(v)),
                None => None,
            },
            match hi {
                Some(v) => Some(manifest::ValueView::Boolean(v)),
                None => None,
            },
        ),
        ChunkBounds::Other => (None, None),
    }
}

/// The statistics of a column, as the manifest keeps them.
pub open spec fn chunk_stats(s: Option<ChunkStatistics>) -> manifest::StatsView {
    match s {
        Some(c) => manifest::StatsView {
            min: bound_values(c.bounds).0,
            max: bound_values(c.bounds).1,
            null_count: match c.null_count {
                Some(n) => n as i64,
                None => 0,
            },
            distinct_count: match c.distinct_count {
                Some(n) => Some(n as i64),
                None => None,
            },
        },
        None => manifest::StatsView { min: None, max: None, null_count: 0, distinct_count: None },
    }
}

fn read_text_bound(bytes: Vec<u8>) -> (r: Option<ManifestValue>)
    ensures
        manifest::optional_value(r) == text_bound(bytes@),
{
    match text::utf8_text(bytes) {
        Some(t) => Some(ManifestValue::Text(t)),
        None => None,
    }
}

fn read_bounds(b: ChunkBounds) -> (r: (Option<ManifestValue>, Option<ManifestValue>))
    ensures
        (manifest::optional_value(r.0), manifest::optional_value(r.1)) == bound_values(b),
{
    match b {
        ChunkBounds::Int32(lo, hi) => (
            match lo {
                Some(v) => Some(ManifestValue::Int32(v)),
                None => None,
            },
            match hi {
                Some(v) => Some(ManifestValue::Int32(v)),
                None => None,
            },
        ),
        ChunkBounds::Int64(lo, hi) => (
            match lo {
                Some(v) => Some(ManifestValue::Int64(v)),
                None => None,
            },
            match hi {
                Some(v) => Some(ManifestValue::Int64(v)),
                None => None,
            },
        ),
        ChunkBounds::Float(lo, hi) => (
            match lo {
                Some(v) => Some(ManifestValue::Float32(v.0, v.1)),
                None => None,
            },
            match hi {
                Some(v) => Some(ManifestValue::Float32(v.0, v.1)),
                None => None,
            },
        ),
        ChunkBounds::Double(lo, hi) => (
            match lo {
                Some(v) => Some(ManifestValue::Float64(v.0, v.1)),
                None => None,
            },
            match hi {
                Some(v) => Some(ManifestValue::Float64(v.0, v.1)),
                None => None,
            },
        ),
        ChunkBounds::ByteArray(lo, hi) => match (lo, hi) {
            (Some(l), Some(h)) => (read_text_bound(l), read_text_bound(h)),
            _ => (None, None),
        },
        ChunkBounds::Boolean(lo, hi) => (
            match lo {
                Some(v) => Some(ManifestValue::Boolean(v)),
                None => None,
            },
            match hi {
                Some(v) => Some(ManifestValue::Boolean(v)),
                None => None,
            },
        ),
        ChunkBounds::Other => (None, None),
    }
}

fn read_statistics(s: Option<ChunkStatistics>) -> (r: ColumnStats)
    ensures
        manifest::stats_view(r) == chunk_stats(s),
{
    match s {
        Some(c) => {
            let (min, max) = read_bounds(c.bounds);
            let null_count: i64 = match c.null_count {
                Some(n) => n as i64,
                None => 0,
            };
            let distinct_count: Option<i64> = match c.distinct_count {
                Some(n) => Some(n as i64),
                None => None,
            };
            ColumnStats { min, max, null_count, distinct_count }
        },
        None => ColumnStats { min: None, max: None, null_count: 0, distinct_count: None },
    }
}

/// The statistics of columns, by their texts.
pub open spec fn stats_views(m: Map<Seq<char>, ColumnStats>) -> Map<Seq<char>, manifest::StatsView> {
    m.map_values(|s: ColumnStats| manifest::stats_view(s))
}

/// Statistics after those of written columns were taken in: the last of a name
/// counts.
pub open spec fn with_chunks(
    stats: Map<Seq<char>, manifest::StatsView>,
    chunks: Seq<ColumnChunk>,
) -> Map<Seq<char>, manifest::StatsView>
    decreases chunks.len(),
{
    if chunks.len() == 0 {
        stats
    } else {
        with_chunks(stats, chunks.drop_last()).insert(
            chunks.last().name@,
            chunk_stats(chunks.last().statistics),
        )
    }
}

/// The SHA-256 hash of bytes (`sha2::Sha256::digest`).
pub uninterp spec fn sha256(bytes: Seq<u8>) -> Seq<u8>;

/// `sha2::Sha256::digest`: the hash of bytes.
#[verifier::external_body]
fn sha256_digest(bytes: &[u8]) -> (r: Vec<u8>)
    ensures
        r@ == sha256(bytes@),
{
    Sha256::digest(bytes).to_vec()
}

/// The checksum of a file: the digits of its SHA-256 hash.
pub fn checksum(bytes: &[u8]) -> (r: String)
    ensures
        r@ == text::hex(sha256(bytes@)),
{
    let hash: Vec<u8> = sha256_digest(bytes);
    text::hex_text(&hash)
}

/// What a writer keeps of the segment that it writes.
#[derive(Debug)]
pub struct HybridSegmentWriter {
    pub config: SegmentConfig,
    /// The files written so far.
    pub generated_files: Vec<String>,
    /// The statistics of the columns.
    pub stats: TextMap<ColumnStats>,
    /// The number of rows written so far.
    pub record_count: usize,
    pub primary_key: Vec<String>,
    pub index_configs: TextMap<ColumnIndexConfig>,
    /// The algorithm of each index, by the name of its files.
    pub index_metadata: TextMap<String>,
    pub file_checksum: Option<String>,
    /// Whether there is a store that finished indexes can go to.
    pub has_store: bool,
    /// The tokens of each column with their rows, as the batches brought them.
    pub inverted_data: TextMap<Vec<(String, Vec<u32>)>>,
    /// The file that holds the vectors of each column.
    pub vector_data: TextMap<String>,
    /// The file that holds the edges of each virtual column.
    pub graph_data: TextMap<String>,
}

impl HybridSegmentWriter {
    /// The maps hold no key twice.
    pub open spec fn wf(self) -> bool {
        &&& self.config.wf()
        &&& self.stats.wf()
        &&& self.index_configs.wf()
        &&& self.index_metadata.wf()
        &&& self.inverted_data.wf()
        &&& self.vector_data.wf()
        &&& self.graph_data.wf()
    }

    /// A writer that has written nothing.
    pub fn new(config: SegmentConfig) -> (r: Self)
        requires
            config.wf(),
        ensures
            r.wf(),
            r.config == config,
            r.generated_files@.len() == 0,
            r.stats@ == Map::<Seq<char>, ColumnStats>::empty(),
            r.record_count == 0,
            r.primary_key@.len() == 0,
            r.index_configs@ == Map::<Seq<char>, ColumnIndexConfig>::empty(),
            r.index_metadata@ == Map::<Seq<char>, String>::empty(),
            r.file_checksum is None,
            !r.has_store,
            r.inverted_data@ == Map::<Seq<char>, Vec<(String, Vec<u32>)>>::empty(),
            r.vector_data@ == Map::<Seq<char>, String>::empty(),
            r.graph_data@ == Map::<Seq<char>, String>::empty(),
    {
        HybridSegmentWriter {
            config,
            generated_files: Vec::new(),
            stats: TextMap::new(),
            record_count: 0,
            primary_key: Vec::new(),
            index_configs: TextMap::new(),
            index_metadata: TextMap::new(),
            file_checksum: None,
            has_store: false,
            inverted_data: TextMap::new(),
            vector_data: TextMap::new(),
            graph_data: TextMap::new(),
        }
    }

    /// The same writer, with a store for its indexes.
    pub fn with_store(self) -> (r: Self)
        ensures
            r == (HybridSegmentWriter { has_store: true, ..self }),
    {
        let mut w = self;
        w.has_store = true;
        w
    }

    /// Notes that there is a store for the indexes.
    pub fn set_store(&mut self)
        ensures
            *final(self) == (HybridSegmentWriter { has_store: true, ..*old(self) }),
    {
        self.has_store = true;
    }

    /// The same writer, with these indexes.
    pub fn with_index_configs(self, configs: TextMap<ColumnIndexConfig>) -> (r: Self)
        ensures
            r == (HybridSegmentWriter { index_configs: configs, ..self }),
    {
        let mut w = self;
        w.index_configs = configs;
        w
    }

    /// The same writer, with these statistics.
    pub fn with_existing_stats(self, stats: TextMap<ColumnStats>) -> (r: Self)
        ensures
            r == (HybridSegmentWriter { stats, ..self }),
    {
        let mut w = self;
        w.stats = stats;
        w
    }

    /// The same writer, with this number of rows.
    pub fn with_record_count(self, count: usize) -> (r: Self)
        ensures
            r == (HybridSegmentWriter { record_count: count, ..self }),
    {
        let mut w = self;
        w.record_count = count;
        w
    }

    /// The files written so far.
    pub fn get_generated_files(&self) -> (r: &Vec<String>)
        ensures
            *r == self.generated_files,
    {
        &self.generated_files
    }

    /// The statistics of the columns.
    pub fn get_stats(&self) -> (r: &TextMap<ColumnStats>)
        ensures
            *r == self.stats,
    {
        &self.stats
    }

    /// The number of rows written so far.
    pub fn get_record_count(&self) -> (r: usize)
        ensures
            r == self.record_count,
    {
        self.record_count
    }

    /// Whether the segment goes to another place than the local file system.
    pub fn is_remote(&self) -> (r: bool)
        ensures
            r == is_remote_path(self.config.base_path@),
    {
        text::contains(self.config.base_path.as_str(), "://") && !text::starts_with(
            self.config.base_path.as_str(),
            "file://",
        )
    }

    /// The local directory of the segment; empty for the current one.
    pub fn local_base(&self) -> (r: String)
        ensures
            r@ == without_file_scheme(self.config.base_path@),
    {
        match text::strip_prefix(self.config.base_path.as_str(), "file://") {
            Some(rest) => rest,
            None => self.config.base_path.clone(),
        }
    }

    /// The name of the data file.
    pub fn data_file_name(&self) -> (r: String)
        ensures
            r@ == self.config.segment_id@ + ".parquet"@,
    {
        let mut name: String = self.config.segment_id.clone();
        name.append(".parquet");
        name
    }

    /// The path of the data file of a local segment.
    pub fn data_path(&self) -> (r: String)
        ensures
            r@ == local_data_path(self.config.base_path@, self.config.segment_id@),
    {
        let mut path: String = self.local_base();
        let name: String = self.data_file_name();
        if path.as_str().is_empty() {
            name
        } else {
            path.append("/");
            path.append(name.as_str());
            assert(path@ =~= local_data_path(self.config.base_path@, self.config.segment_id@));
            path
        }
    }

    /// Takes in the statistics of the columns of a written file.
    pub fn merge_parquet_stats(&mut self, columns: Vec<ColumnChunk>)
        requires
            old(self).wf(),
        ensures
            final(self).wf(),
            *final(self) == (HybridSegmentWriter { stats: final(self).stats, ..*old(self) }),
            stats_views(final(self).stats@) == with_chunks(
                stats_views(old(self).stats@),
                columns@,
            ),
    {
        let ghost chunks = columns@;
        let ghost before = stats_views(self.stats@);
        assert(chunks.take(0) =~= Seq::<ColumnChunk>::empty());
        for column in it: columns
            invariant
                it.seq() == chunks,
                self.wf(),
                *self == (HybridSegmentWriter { stats: self.stats, ..*old(self) }),
                stats_views(self.stats@) == with_chunks(before, chunks.take(it.index() as int)),
        {
            let ghost i = it.index() as int;
            let ghost m = self.stats@;
            assert(column == chunks[i]);
            assert(chunks.take(i + 1).drop_last() =~= chunks.take(i));
            let ghost name = column.name@;
            let stats = read_statistics(column.statistics);
            self.stats.insert(column.name, stats);
            assert(stats_views(self.stats@)
                =~= stats_views(m).insert(name, manifest::stats_view(stats)));
        }
        assert(chunks.take(chunks.len() as int) =~= chunks);
    }

    /// Records a written data file: its path and bytes, the statistics of its
    /// columns and the number of its rows.
    pub fn record_batch(
        &mut self,
        path: String,
        bytes: &[u8],
        columns: Vec<ColumnChunk>,
        rows: usize,
    )
        requires
            old(self).wf(),
        ensures
            final(self).wf(),
            stats_views(final(self).stats@) == with_chunks(
                stats_views(old(self).stats@),
                columns@,
            ),
            final(self).generated_files@ == old(self).generated_files@.push(path),
            final(self).file_checksum matches Some(sum) && sum@ == text::hex(sha256(bytes@)),
            final(self).record_count == (old(self).record_count + rows) % (usize::MAX + 1),
            *final(self) == (HybridSegmentWriter {
                stats: final(self).stats,
                generated_files: final(self).generated_files,
                file_checksum: final(self).file_checksum,
                record_count: final(self).record_count,
                ..*old(self)
            }),
    {
        self.merge_parquet_stats(columns);
        self.file_checksum = Some(checksum(bytes));
        self.generated_files.push(path);
        self.record_count = self.record_count.wrapping_add(rows);
    }
}

// ---------------------------------------------------------------------------
// The manifest entry
// ---------------------------------------------------------------------------

/// The name of the data file among generated files, and its size. The last one
/// counts; a size that could not be read leaves the one before.
pub open spec fn data_file_of(files: Seq<Seq<char>>, sizes: Seq<Option<i64>>) -> (Seq<char>, i64)
    decreases files.len(),
{
    if files.len() == 0 {
        (Seq::empty(), 0)
    } else {
        let before = data_file_of(files.drop_last(), sizes);
        let name = text::pieces(files.last(), '/').last();
        if file_kind(name) == FileKind::Data {
            (
                name,
                match sizes[files.len() - 1] {
                    Some(n) => n,
                    None => before.1,
                },
            )
        } else {
            before
        }
    }
}

impl HybridSegmentWriter {
    /// The manifest entry of the segment. `sizes` gives the size of each
    /// generated file, where it can be read.
    pub fn to_manifest_entry(self, sizes: &Vec<Option<i64>>) -> (r: ManifestEntry)
        requires
            self.wf(),
            sizes.len() == self.generated_files.len(),
        ensures
            ({
                let files = text::texts(self.generated_files@);
                let data = data_file_of(files, sizes@);
                &&& r.file_path@ == match self.config.parquet_path {
                    Some(p) => p@,
                    None => data.0,
                }
                &&& r.file_size_bytes == data.1
                &&& r.record_count == self.record_count as i64
                &&& index_views(r.index_files@) == indexes_of(files, self.index_metadata@)
                &&& r.delete_files == self.config.delete_files
                &&& r.column_stats == self.stats.items
                &&& r.partition_values == self.config.partition_values
                &&& r.file_checksum == self.file_checksum
            }),
    {
        let ghost files = text::texts(self.generated_files@);
        let mut index_files: Vec<IndexFile> = Vec::new();
        let mut parquet_file: String = "".to_owned();
        let mut total_size: i64 = 0;
        let mut i: usize = 0;
        proof {
            reveal_strlit("");
            assert(files.take(0) =~= Seq::<Seq<char>>::empty());
            assert(parquet_file@ =~= Seq::<char>::empty());
            assert(index_views(index_files@) =~= Seq::<IndexView>::empty());
        }
        while i < self.generated_files.len()
            invariant
                i <= self.generated_files.len(),
                self.wf(),
                sizes.len() == self.generated_files.len(),
                files == text::texts(self.generated_files@),
                (parquet_file@, total_size) == data_file_of(files.take(i as int), sizes@),
                index_views(index_files@) == indexes_of(
                    files.take(i as int),
                    self.index_metadata@,
                ),
            decreases self.generated_files.len() - i,
        {
            proof {
                assert(files.take(i + 1).drop_last() =~= files.take(i as int));
                assert(files.take(i + 1).last() == self.generated_files@[i as int]@);
            }
            let name: String = text::last_piece(self.generated_files[i].as_str(), '/');
            let kind = kind_of_file(name.as_str());
            match find_index(name.as_str(), &self.index_metadata) {
                Some(f) => {
                    let shared: bool = match kind {
                        FileKind::Graph => true,
                        FileKind::Vector => true,
                        _ => false,
                    };
                    let ghost list = index_files@;
                    if !shared || !has_index(&index_files, &f) {
                        index_files.push(f);
                        assert(index_views(index_files@) =~= index_views(list).push(index_view(f)));
                    }
                },
                None => {},
            }
            match kind {
                FileKind::Data => {
                    parquet_file = name;
                    match sizes[i] {
                        Some(n) => {
                            total_size = n;
                        },
                        None => {},
                    }
                },
                _ => {},
            }
            i = i + 1;
        }
        assert(files.take(i as int) =~= files);
        let file_path: String = match self.config.parquet_path {
            Some(p) => p,
            None => parquet_file,
        };
        ManifestEntry {
            file_path,
            file_size_bytes: total_size,
            record_count: self.record_count as i64,
            index_files,
            delete_files: self.config.delete_files,
            column_stats: self.stats.items,
            partition_values: self.config.partition_values,
            file_checksum: self.file_checksum,
        }
    }
}

proof fn lemma_indexes_listed_once(
    files: Seq<Seq<char>>,
    algorithms: Map<Seq<char>, String>,
    i: int,
    j: int,
)
    requires
        0 <= i < j < indexes_of(files, algorithms).len(),
        ({
            let kind = indexes_of(files, algorithms)[j].index_type;
            kind == "graph_v2"@ || kind == "vector"@
        }),
    ensures
        !same_index(indexes_of(files, algorithms)[i], indexes_of(files, algorithms)[j]),
    decreases files.len(),
{
    reveal_strlit("inverted");
    reveal_strlit("scalar");
    reveal_strlit("graph_v2");
    reveal_strlit("vector");
    if files.len() > 0 {
        let before = indexes_of(files.drop_last(), algorithms);
        let all = indexes_of(files, algorithms);
        if j < before.len() {
            lemma_indexes_listed_once(files.drop_last(), algorithms, i, j);
        } else {
            assert(all[i] == before[i]);
            let name = text::pieces(files.last(), '/').last();
            let kind = file_kind(name);
            assert(index_of_file(name, algorithms) == Some(all[j]));
            assert("inverted"@.len() == 8 && "graph_v2"@.len() == 8 && "scalar"@.len() == 6
                && "vector"@.len() == 6);
            assert("inverted"@[0] == 'i' && "graph_v2"@[0] == 'g' && "scalar"@[0] == 's'
                && "vector"@[0] == 'v');
            assert(kind == FileKind::Graph || kind == FileKind::Vector);
            if same_index(before[i], all[j]) {
                assert(lists_index(before, all[j]));
            }
        }
    }
}

/// However many files a graph or vector index has, the manifest lists it once.
pub proof fn law_indexes_are_listed_once(
    files: Seq<Seq<char>>,
    algorithms: Map<Seq<char>, String>,
    i: int,
    j: int,
)
    requires
        0 <= i < indexes_of(files, algorithms).len(),
        0 <= j < indexes_of(files, algorithms).len(),
        i != j,
        ({
            let kind = indexes_of(files, algorithms)[j].index_type;
            kind == "graph_v2"@ || kind == "vector"@
        }),
    ensures
        !same_index(indexes_of(files, algorithms)[i], indexes_of(files, algorithms)[j]),
{
    if i < j {
        lemma_indexes_listed_once(files, algorithms, i, j);
    } else {
        let all = indexes_of(files, algorithms);
        if same_index(all[i], all[j]) {
            lemma_indexes_listed_once(files, algorithms, j, i);
        }
    }
}

// ---------------------------------------------------------------------------
// Uploading
// ---------------------------------------------------------------------------

/// The path of a URL (`url::Url::parse`), or nothing where a text is no URL.
pub uninterp spec fn url_path(s: Seq<char>) -> Option<Seq<char>>;

/// `url::Url::parse`: the path of a URL, `None` where the text is no URL.
#[verifier::external_body]
fn parse_url_path(s: &str) -> (r: Option<String>)
    ensures
        match r {
            Some(p) => url_path(s@) == Some(p@),
            None => url_path(s@) is None,
        },
{
    Url::parse(s).ok().map(|u| u.path().to_string())
}

/// The key of an object, given the path of its URL where its place is a URL.
pub open spec fn key_text(remote: Seq<char>, path: Option<Seq<char>>) -> Option<Seq<char>> {
    if text::occurs(remote, "://"@) {
        match path {
            Some(p) => Some(store::encoded_path(text::without_leading(p, '/'))),
            None => None,
        }
    } else {
        Some(store::encoded_path(remote))
    }
}

/// Where a staged file goes.
pub open spec fn remote_path_of(base_path: Seq<char>, local_path: Seq<char>) -> Seq<char> {
    let name = text::pieces(local_path, '/').last();
    if text::occurs(base_path, "://"@) && base_path.len() > 0 && base_path.last() == '/' {
        base_path + name
    } else {
        base_path + "/"@ + name
    }
}

/// What is to be done with a generated file.
#[derive(Debug)]
pub enum UploadStep {
    /// It is in its place.
    Keep(String),
    /// It is put under `key` and is then found at `remote_path`.
    Put { local_path: String, remote_path: String, key: String },
    /// The place that it should go to is no URL.
    BadUrl(String),
}

impl HybridSegmentWriter {
    /// What is to be done with a generated file: files of the staging
    /// directory are uploaded, the others are in their place.
    pub fn upload_step(&self, local_path: &str) -> (r: UploadStep)
        ensures
            ({
                let remote = remote_path_of(self.config.base_path@, local_path@);
                match r {
                    UploadStep::Keep(p) => p@ == local_path@ && !text::occurs(
                        local_path@,
                        "benostream_staging"@,
                    ),
                    UploadStep::Put { local_path: l, remote_path, key } => {
                        &&& text::occurs(local_path@, "benostream_staging"@)
                        &&& l@ == local_path@
                        &&& remote_path@ == remote
                        &&& key_text(remote, url_path(remote)) == Some(key@)
                    },
                    UploadStep::BadUrl(p) => {
                        &&& text::occurs(local_path@, "benostream_staging"@)
                        &&& p@ == remote
                        &&& key_text(remote, url_path(remote)) is None
                    },
                }
            }),
    {
        if !text::contains(local_path, "benostream_staging") {
            return UploadStep::Keep(local_path.to_owned());
        }
        let name: String = text::last_piece(local_path, '/');
        let base: &str = self.config.base_path.as_str();
        let mut remote: String = base.to_owned();
        proof {
            reveal_strlit("/");
        }
        let slash: bool = text::ends_with(base, "/");
        assert(slash == (base@.len() > 0 && base@.last() == '/')) by {
            if "/"@.is_suffix_of(base@) {
                assert(base@.subrange(base@.len() - 1, base@.len() as int)[0] == '/');
            }
            if base@.len() > 0 && base@.last() == '/' {
                assert(base@.subrange(base@.len() - 1, base@.len() as int) =~= "/"@);
            }
        }
        if !(text::contains(base, "://") && slash) {
            remote.append("/");
        }
        remote.append(name.as_str());
        assert(remote@ =~= remote_path_of(base@, local_path@));
        match upload_key(remote.as_str()) {
            Some(key) => UploadStep::Put {
                local_path: local_path.to_owned(),
                remote_path: remote,
                key,
            },
            None => UploadStep::BadUrl(remote),
        }
    }

    /// Replaces the list of generated files, once they are uploaded.
    pub fn set_generated_files(&mut self, files: Vec<String>)
        ensures
            *final(self) == (HybridSegmentWriter { generated_files: files, ..*old(self) }),
    {
        self.generated_files = files;
    }
}

/// The key of the object at a place in a store.
pub fn upload_key(remote: &str) -> (r: Option<String>)
    ensures
        match r {
            Some(k) => key_text(remote@, url_path(remote@)) == Some(k@),
            None => key_text(remote@, url_path(remote@)) is None,
        },
{
    if text::contains(remote, "://") {
        let path: Option<String> = parse_url_path(remote);
        key_of_url_path(path)
    } else {
        Some(store::object_key(remote))
    }
}

/// The key of the object with this path in a URL.
pub fn key_of_url_path(path: Option<String>) -> (r: Option<String>)
    ensures
        match (r, path) {
            (Some(k), Some(p)) => k@ == store::encoded_path(text::without_leading(p@, '/')),
            (None, None) => true,
            _ => false,
        },
{
    match path {
        Some(p) => {
            let rest: String = text::trim_start_char(p.as_str(), '/');
            Some(store::object_key(rest.as_str()))
        },
        None => None,
    }
}

// ---------------------------------------------------------------------------
// Inverted indexes
// ---------------------------------------------------------------------------

/// How often a row occurs in a list.
pub open spec fn occurrences(rows: Seq<u32>, row: u32) -> nat
    decreases rows.len(),
{
    if rows.len() == 0 {
        0
    } else {
        occurrences(rows.drop_last(), row) + if rows.last() == row {
            1nat
        } else {
            0
        }
    }
}

/// How often a row occurs in the lists of all tokens: the number of its tokens.
pub open spec fn token_count(lists: Seq<Vec<u32>>, row: u32) -> nat
    decreases lists.len(),
{
    if lists.len() == 0 {
        0
    } else {
        token_count(lists.drop_last(), row) + occurrences(lists.last()@, row)
    }
}

proof fn lemma_occurrences_grow(rows: Seq<u32>, row: u32, n: int)
    requires
        0 <= n <= rows.len(),
    ensures
        occurrences(rows.take(n), row) <= occurrences(rows, row),
    decreases rows.len(),
{
    if n < rows.len() {
        assert(rows.drop_last().take(n) =~= rows.take(n));
        lemma_occurrences_grow(rows.drop_last(), row, n);
    } else {
        assert(rows.take(n) =~= rows);
    }
}

proof fn lemma_token_count_grows(lists: Seq<Vec<u32>>, row: u32, n: int)
    requires
        0 <= n <= lists.len(),
    ensures
        token_count(lists.take(n), row) <= token_count(lists, row),
    decreases lists.len(),
{
    if n < lists.len() {
        assert(lists.drop_last().take(n) =~= lists.take(n));
        lemma_token_count_grows(lists.drop_last(), row, n);
    } else {
        assert(lists.take(n) =~= lists);
    }
}

/// What is known of the counts after the first `n` lists and the first `k`
/// rows of the next.
spec fn counted(
    lists: Seq<Vec<u32>>,
    n: int,
    k: int,
    counts: Map<u32, u32>,
    rows: Seq<u32>,
) -> bool {
    &&& forall|v: u32|
        #![trigger counts.contains_key(v)]
        #![trigger token_count(lists.take(n), v)]
        if token_count(lists.take(n), v) + (if n < lists.len() {
            occurrences(lists[n]@.take(k), v)
        } else {
            0
        }) > 0 {
            counts.contains_key(v) && counts[v] == token_count(lists.take(n), v) + (if n
                < lists.len() {
                occurrences(lists[n]@.take(k), v)
            } else {
                0
            })
        } else {
            !counts.contains_key(v)
        }
    &&& rows.no_duplicates()
    &&& forall|v: u32| #[trigger] counts.contains_key(v) <==> rows.contains(v)
}

/// The number of tokens of each row that has any, in ascending order of rows:
/// the document lengths that ranking needs.
pub fn document_lengths(lists: &Vec<Vec<u32>>) -> (r: Vec<(u32, u32)>)
    requires
        forall|v: u32| #[trigger] token_count(lists@, v) <= u32::MAX,
    ensures
        forall|a: int, b: int|
            #![trigger r@[a], r@[b]]
            0 <= a < b < r.len() ==> r@[a].0 < r@[b].0,
        forall|a: int|
            0 <= a < r.len() ==> (#[trigger] r@[a]).1 == token_count(lists@, r@[a].0) && r@[a].1
                > 0,
        forall|v: u32| #[trigger]
            token_count(lists@, v) > 0 ==> exists|a: int|
                0 <= a < r.len() && (#[trigger] r@[a]).0 == v,
{
    broadcast use vstd::std_specs::btree::group_btree_axioms;

    let mut counts: BTreeMap<u32, u32> = BTreeMap::new();
    let mut rows: Vec<u32> = Vec::new();
    let mut n: usize = 0;
    proof {
        assert(lists@.take(0) =~= Seq::<Vec<u32>>::empty());
        if lists.len() > 0 {
            assert(lists@[0]@.take(0) =~= Seq::<u32>::empty());
        }
        assert(counted(lists@, 0, 0, counts@, rows@));
    }
    while n < lists.len()
        invariant
            n <= lists.len(),
            forall|v: u32| #[trigger] token_count(lists@, v) <= u32::MAX,
            counted(lists@, n as int, 0, counts@, rows@),
        decreases lists.len() - n,
    {
        let list: &Vec<u32> = &lists[n];
        let mut k: usize = 0;
        while k < list.len()
            invariant
                n < lists.len(),
                *list == lists@[n as int],
                k <= list.len(),
                forall|v: u32| #[trigger] token_count(lists@, v) <= u32::MAX,
                counted(lists@, n as int, k as int, counts@, rows@),
            decreases list.len() - k,
        {
            let row: u32 = list[k];
            let ghost c0 = counts@;
            let ghost r0 = rows@;
            proof {
                assert(list@.take(k + 1).drop_last() =~= list@.take(k as int));
                lemma_token_count_grows(lists@, row, n + 1);
                assert(lists@.take(n + 1).drop_last() =~= lists@.take(n as int));
                lemma_occurrences_grow(list@, row, k + 1);
                assert(token_count(lists@.take(n as int), row) >= 0);
                assert(token_count(lists@, row) <= u32::MAX);
            }
            match counts.get(&row) {
                Some(c) => {
                    let next: u32 = *c + 1;
                    counts.insert(row, next);
                },
                None => {
                    counts.insert(row, 1);
                    rows.push(row);
                },
            }
            proof {
                assert forall|v: u32| #[trigger] counts@.contains_key(v) <==> rows@.contains(v) by {
                    assert(c0.contains_key(v) <==> r0.contains(v));
                    if r0.contains(v) {
                        let a = choose|a: int| 0 <= a < r0.len() && r0[a] == v;
                        assert(rows@[a] == v);
                    }
                    if v == row && !c0.contains_key(v) {
                        assert(rows@[rows.len() - 1] == v);
                    }
                }
                assert(counted(lists@, n as int, k + 1, counts@, rows@));
            }
            k = k + 1;
        }
        proof {
            assert(list@.take(k as int) =~= list@);
            assert(lists@.take(n + 1).drop_last() =~= lists@.take(n as int));
            if n + 1 < lists.len() {
                assert(lists@[n + 1]@.take(0) =~= Seq::<u32>::empty());
            }
            assert forall|v: u32| #[trigger] token_count(lists@.take(n + 1), v) == token_count(
                lists@.take(n as int),
                v,
            ) + occurrences(lists@[n as int]@.take(k as int), v) by {}
            assert(counted(lists@, n + 1, 0, counts@, rows@));
        }
        n = n + 1;
    }
    assert(lists@.take(n as int) =~= lists@);
    let by_row: Vec<usize> = order::sorted_order(&rows);
    let mut r: Vec<(u32, u32)> = Vec::new();
    let mut p: usize = 0;
    while p < by_row.len()
        invariant
            p <= by_row.len(),
            order::is_sorted_order(rows@, by_row@),
            lists@.take(n as int) == lists@,
            n == lists.len(),
            counted(lists@, n as int, 0, counts@, rows@),
            r.len() == p,
            forall|a: int|
                0 <= a < p ==> (#[trigger] r@[a]).0 == rows@[by_row@[a] as int] && r@[a].1
                    == token_count(lists@, r@[a].0) && r@[a].1 > 0,
        decreases by_row.len() - p,
    {
        assert(by_row@[p as int] < rows.len());
        let row: u32 = rows[by_row[p]];
        assert(rows@.contains(row));
        assert(counts@.contains_key(row));
        match counts.get(&row) {
            Some(c) => {
                r.push((row, *c));
            },
            None => {},
        }
        p = p + 1;
    }
    proof {
        assert forall|a: int, b: int|
            #![trigger r@[a], r@[b]]
            0 <= a < b < r.len() implies r@[a].0 < r@[b].0 by {
            assert(order::comes_before(rows@, by_row@[a] as int, by_row@[b] as int));
            if r@[a].0 == r@[b].0 {
                assert(by_row@[a] == by_row@[b]);
            }
        }
        assert forall|v: u32| #[trigger] token_count(lists@, v) > 0 implies exists|a: int|
            0 <= a < r.len() && (#[trigger] r@[a]).0 == v by {
            assert(counts@.contains_key(v));
            let j = choose|j: int| 0 <= j < rows.len() && rows@[j] == v;
            assert(by_row@.contains(j as usize));
            let a = choose|a: int| 0 <= a < by_row@.len() && by_row@[a] == j as usize;
            assert(r@[a].0 == v);
        }
    }
    r
}

/// The sums of the first numbers, each with the ones before it.
pub open spec fn running_sums(deltas: Seq<u32>) -> Seq<int>
    decreases deltas.len(),
{
    if deltas.len() == 0 {
        Seq::empty()
    } else {
        let before = running_sums(deltas.drop_last());
        before.push(
            deltas.last() + if before.len() == 0 {
                0
            } else {
                before.last()
            },
        )
    }
}

/// The rows of a token as differences: each row, in ascending order, less the
/// one before it.
pub fn encode_rows(rows: &Vec<u32>) -> (r: Vec<u32>)
    ensures
        r.len() == rows.len(),
        exists|sorted: Seq<u32>| #[trigger]
            is_sorting(rows@, sorted) && running_sums(r@) == sorted.map_values(|v: u32| v as int),
{
    let by_row: Vec<usize> = order::sorted_order(rows);
    let mut r: Vec<u32> = Vec::new();
    let mut last: u32 = 0;
    let ghost sorted = by_row@.map_values(|i: usize| rows@[i as int]);
    let mut p: usize = 0;
    while p < by_row.len()
        invariant
            p <= by_row.len(),
            order::is_sorted_order(rows@, by_row@),
            sorted == by_row@.map_values(|i: usize| rows@[i as int]),
            r.len() == p,
            running_sums(r@) == sorted.take(p as int).map_values(|v: u32| v as int),
            last == if p == 0 {
                0
            } else {
                rows@[by_row@[p - 1] as int]
            },
        decreases by_row.len() - p,
    {
        assert(by_row@[p as int] < rows.len());
        let row: u32 = rows[by_row[p]];
        proof {
            if p > 0 {
                assert(order::comes_before(
                    rows@,
                    by_row@[p - 1] as int,
                    by_row@[p as int] as int,
                ));
            }
            let before = running_sums(r@);
            assert(before.len() == p);
            if p > 0 {
                assert(before[p - 1] == sorted[p - 1] as int);
            }
        }
        let ghost r0 = r@;
        r.push(row - last);
        proof {
            assert(r@.drop_last() =~= r0);
            assert(running_sums(r@) =~= sorted.take(p + 1).map_values(|v: u32| v as int));
        }
        last = row;
        p = p + 1;
    }
    proof {
        assert(sorted.take(p as int) =~= sorted);
        assert(is_sorting(rows@, sorted)) by {
            assert forall|i: int, j: int|
                #![trigger sorted[i], sorted[j]]
                0 <= i <= j < sorted.len() implies sorted[i] <= sorted[j] by {
                if i < j {
                    assert(order::comes_before(rows@, by_row@[i] as int, by_row@[j] as int));
                }
            }
            assert(sorted_by(rows@, sorted, by_row@));
        }
    }
    r
}

/// `sorted` lists the elements at the positions of a permutation.
pub open spec fn sorted_by(rows: Seq<u32>, sorted: Seq<u32>, positions: Seq<usize>) -> bool {
    &&& order::lists_range(positions, 0, rows.len() as int)
    &&& sorted == positions.map_values(|i: usize| rows[i as int])
}

/// `sorted` holds the same rows in ascending order.
pub open spec fn is_sorting(rows: Seq<u32>, sorted: Seq<u32>) -> bool {
    &&& forall|i: int, j: int|
        #![trigger sorted[i], sorted[j]]
        0 <= i <= j < sorted.len() ==> sorted[i] <= sorted[j]
    &&& exists|positions: Seq<usize>| #[trigger] sorted_by(rows, sorted, positions)
}

/// The directory part of the data file's path, with its slash.
pub open spec fn directory_of(path: Option<Seq<char>>) -> Seq<char> {
    match path {
        Some(p) => p.take(p.len() - text::pieces(p, '/').last().len()),
        None => Seq::empty(),
    }
}

impl HybridSegmentWriter {
    /// The directory that index files go to: that of the data file.
    pub fn index_directory(&self) -> (r: String)
        ensures
            r@ == directory_of(optional_text(self.config.parquet_path)),
    {
        match &self.config.parquet_path {
            Some(p) => {
                let chars: Vec<char> = text::to_chars(p.as_str());
                match text::rfind_char(p.as_str(), '/') {
                    Some(i) => {
                        proof {
                            text::lemma_last_piece(p@, '/', i as int);
                            assert(p@.subrange(0, i + 1) =~= p@.take(i + 1));
                            assert(i < chars.len());
                        }
                        text::slice_text(&chars, 0, i + 1)
                    },
                    None => {
                        proof {
                            text::lemma_no_piece(p@, '/');
                            assert(p@.take(0) =~= Seq::<char>::empty());
                            reveal_strlit("");
                            assert(""@ =~= Seq::<char>::empty());
                        }
                        "".to_owned()
                    },
                }
            },
            None => {
                proof {
                    reveal_strlit("");
                    assert(""@ =~= Seq::<char>::empty());
                }
                "".to_owned()
            },
        }
    }

    fn index_file(&self, column: &str, ending: &str) -> (r: String)
        ensures
            r@ == directory_of(optional_text(self.config.parquet_path)) + (self.config.segment_id@
                + "."@ + column@ + ending@),
    {
        let mut path: String = self.index_directory();
        let ghost dir = path@;
        path.append(self.config.segment_id.as_str());
        path.append(".");
        path.append(column);
        path.append(ending);
        assert(path@ =~= dir + (self.config.segment_id@ + "."@ + column@ + ending@));
        path
    }

    /// The path of the inverted index of a column.
    pub fn inverted_index_path(&self, column: &str) -> (r: String)
        ensures
            r@ == directory_of(optional_text(self.config.parquet_path)) + (self.config.segment_id@
                + "."@ + column@ + ".inv.parquet"@),
    {
        self.index_file(column, ".inv.parquet")
    }

    /// The path of the document lengths of a column. They are kept for columns
    /// with an analyzer only.
    pub fn document_lengths_path(&self, column: &str) -> (r: Option<String>)
        requires
            self.wf(),
        ensures
            match r {
                Some(p) => self.index_metadata@.dom().contains(column@) && p@ == directory_of(
                    optional_text(self.config.parquet_path),
                ) + (self.config.segment_id@ + "."@ + column@ + ".doclen.parquet"@),
                None => !self.index_metadata@.dom().contains(column@),
            },
    {
        match self.index_metadata.get(column) {
            Some(_) => Some(self.index_file(column, ".doclen.parquet")),
            None => None,
        }
    }

    /// The algorithms that are set for a column: those of its index configuration,
    /// else those of the segment's configuration.
    pub open spec fn own_algorithms(self, column: Seq<char>) -> Seq<IndexAlgorithm> {
        if self.index_configs@.dom().contains(column) {
            self.index_configs@[column].algorithms@
        } else if self.config.column_algorithms@.dom().contains(column) {
            self.config.column_algorithms@[column]@
        } else {
            Seq::empty()
        }
    }

    /// The algorithms of a column: those that are set for it. `None` where there
    /// are none, so that the default applies.
    pub fn algorithms_for(&self, column: &str) -> (r: Option<&Vec<IndexAlgorithm>>)
        requires
            self.wf(),
        ensures
            match r {
                Some(list) => list@ == self.own_algorithms(column@) && list@.len() > 0,
                None => self.own_algorithms(column@).len() == 0,
            },
    {
        let own: Option<&Vec<IndexAlgorithm>> = match self.index_configs.get(column) {
            Some(c) => Some(&c.algorithms),
            None => self.config.column_algorithms.get(column),
        };
        match own {
            Some(list) => if list.len() == 0 {
                None
            } else {
                Some(list)
            },
            None => None,
        }
    }

    /// The name of a vector index: segment, column and algorithm, and the place
    /// of the algorithm where the column has several.
    pub open spec fn spec_vector_index_name(
        self,
        column: Seq<char>,
        algorithm: IndexAlgorithm,
        algorithms: int,
        place: int,
    ) -> Seq<char> {
        self.config.segment_id@ + "."@ + column + "."@ + algorithm.spec_id() + if algorithms > 1 {
            "."@ + text::decimal(place as nat)
        } else {
            Seq::empty()
        }
    }

    /// The name of a vector index: segment, column and algorithm, and the place
    /// of the algorithm where the column has several.
    pub fn vector_index_name(
        &self,
        column: &str,
        algorithm: &IndexAlgorithm,
        algorithms: usize,
        place: usize,
    ) -> (r: String)
        ensures
            r@ == self.spec_vector_index_name(
                column@,
                *algorithm,
                algorithms as int,
                place as int,
            ),
    {
        let mut name: String = self.config.segment_id.clone();
        name.append(".");
        name.append(column);
        name.append(".");
        name.append(algorithm.id());
        let ghost base = name@;
        if algorithms > 1 {
            name.append(".");
            name.append(text::u64_text(place as u64).as_str());
            assert(name@ =~= base + ("."@ + text::decimal(place as nat)));
        } else {
            assert(name@ =~= base + Seq::<char>::empty());
        }
        name
    }

    /// The vector index that an algorithm makes of a column.
    pub open spec fn makes_vector_index(
        self,
        index: VectorIndex,
        column: Seq<char>,
        algorithms: Seq<IndexAlgorithm>,
        place: int,
    ) -> bool {
        &&& index.name@ == self.spec_vector_index_name(
            column,
            algorithms[place],
            algorithms.len() as int,
            place,
        )
        &&& match (index.metric, algorithms[place].spec_metric()) {
            (Some(a), Some(b)) => a@ == b,
            (None, None) => true,
            _ => false,
        }
    }

    /// The vector indexes that are made of a column, one for each algorithm; one
    /// by the default algorithm where none is set.
    pub fn vector_indexes(&self, column: &str, default: &IndexAlgorithm) -> (r: Vec<VectorIndex>)
        requires
            self.wf(),
        ensures
            ({
                let own = self.own_algorithms(column@);
                let algorithms = if own.len() == 0 {
                    seq![*default]
                } else {
                    own
                };
                &&& r.len() == algorithms.len()
                &&& forall|i: int|
                    0 <= i < r.len() ==> self.makes_vector_index(
                        #[trigger] r@[i],
                        column@,
                        algorithms,
                        i,
                    )
            }),
    {
        let mut r: Vec<VectorIndex> = Vec::new();
        match self.algorithms_for(column) {
            Some(list) => {
                let n: usize = list.len();
                let mut i: usize = 0;
                while i < n
                    invariant
                        i <= n,
                        n == list.len(),
                        r.len() == i,
                        forall|k: int|
                            0 <= k < i ==> self.makes_vector_index(
                                #[trigger] r@[k],
                                column@,
                                list@,
                                k,
                            ),
                    decreases n - i,
                {
                    let name: String = self.vector_index_name(column, &list[i], n, i);
                    r.push(VectorIndex { name, metric: list[i].metric_name() });
                    i = i + 1;
                }
            },
            None => {
                let name: String = self.vector_index_name(column, default, 1, 0);
                r.push(VectorIndex { name, metric: default.metric_name() });
            },
        }
        r
    }

    /// Records an index that was written: the algorithm under its name, and the
    /// files.
    pub fn record_index(&mut self, name: String, algorithm: String, files: Vec<String>)
        requires
            old(self).wf(),
        ensures
            final(self).wf(),
            final(self).index_metadata@ == old(self).index_metadata@.insert(name@, algorithm),
            final(self).generated_files@ == old(self).generated_files@ + files@,
            *final(self) == (HybridSegmentWriter {
                index_metadata: final(self).index_metadata,
                generated_files: final(self).generated_files,
                ..*old(self)
            }),
    {
        let mut files = files;
        self.index_metadata.insert(name, algorithm);
        self.generated_files.append(&mut files);
    }

    /// The name of the graph index of a virtual column.
    pub fn graph_index_name(&self, column: &str) -> (r: String)
        ensures
            r@ == self.config.segment_id@ + "."@ + column@,
    {
        let mut name: String = self.config.segment_id.clone();
        name.append(".");
        name.append(column);
        name
    }

    /// Where a file of a graph index goes: to the directory of the data file.
    pub fn graph_file_target(&self, file_name: &str) -> (r: String)
        ensures
            r@ == directory_of(optional_text(self.config.parquet_path)) + file_name@,
    {
        let mut path: String = self.index_directory();
        path.append(file_name);
        path
    }

    // -----------------------------------------------------------------------
    // What is indexed
    // -----------------------------------------------------------------------

    /// The column is of the primary key.
    pub open spec fn is_key(self, column: Seq<char>) -> bool {
        text::texts(self.primary_key@).contains(column)
    }

    /// The column is listed for indexing.
    pub open spec fn is_listed(self, column: Seq<char>) -> bool {
        self.config.columns_to_index matches Some(cols) && text::texts(cols@).contains(column)
    }

    /// An index of the column is switched on.
    pub open spec fn is_enabled(self, column: Seq<char>) -> bool {
        self.index_configs@.dom().contains(column) && self.index_configs@[column].enabled
    }

    /// A column is indexed with each batch.
    pub open spec fn wants_in_batch(self, column: Seq<char>, is_vector: bool) -> bool {
        self.config.index_all || is_vector || self.is_key(column) || self.is_listed(column)
    }

    /// A column is indexed.
    pub open spec fn wants(self, column: Seq<char>, is_vector: bool) -> bool {
        self.wants_in_batch(column, is_vector) || self.is_enabled(column)
    }

    /// Columns of a batch that are indexed: all where that is asked for, else
    /// vectors, keys and the listed ones.
    pub fn indexes_batch_column(&self, column: &str, is_vector: bool) -> (r: bool)
        ensures
            r == self.wants_in_batch(column@, is_vector),
    {
        let listed: bool = match &self.config.columns_to_index {
            Some(cols) => text::list_has(cols, column),
            None => false,
        };
        self.config.index_all || text::list_has(&self.primary_key, column) || is_vector || listed
    }

    /// Columns that are indexed when asked to: those of a batch that are, and
    /// those whose index is switched on.
    pub fn indexes_column(&self, column: &str, is_vector: bool) -> (r: bool)
        requires
            self.wf(),
        ensures
            r == self.wants(column@, is_vector),
    {
        let enabled: bool = match self.index_configs.get(column) {
            Some(c) => c.enabled,
            None => false,
        };
        self.indexes_batch_column(column, is_vector) || enabled
    }

    /// The device that a column is indexed on: its own, else the default.
    pub fn desired_device(&self, column: &str) -> (r: Option<&String>)
        requires
            self.wf(),
        ensures
            match (r, self.device_of(column@)) {
                (Some(d), Some(wanted)) => *d == wanted,
                (None, None) => true,
                _ => false,
            },
    {
        match self.config.column_devices.get(column) {
            Some(d) => Some(d),
            None => match &self.config.default_device {
                Some(d) => Some(d),
                None => None,
            },
        }
    }
}

/// A device needs a context of its own: the backend in use is another one, and
/// not any that is available will do.
pub open spec fn needs_context(device: Seq<char>, existing: Option<(&str, bool)>) -> bool {
    match existing {
        Some((name, available)) => !(name@ == device || device == "auto"@ && available),
        None => true,
    }
}

/// Whether a device needs a context of its own, given the name of the backend
/// in use, if there is one, and whether that backend is available.
pub fn needs_new_context(device: &str, existing: Option<(&str, bool)>) -> (r: bool)
    ensures
        r == needs_context(device@, existing),
{
    match existing {
        Some((name, available)) => !(text::same(name, device) || (text::same(device, "auto")
            && available)),
        None => true,
    }
}

/// What is done for a column: a device whose context is opened first, and
/// whether the column is indexed.
#[derive(Debug)]
pub struct ColumnStep {
    pub device: Option<String>,
    pub indexed: bool,
}

impl HybridSegmentWriter {
    /// The device that a column is indexed on: its own, else the default.
    pub open spec fn device_of(self, column: Seq<char>) -> Option<String> {
        if self.config.column_devices@.dom().contains(column) {
            Some(self.config.column_devices@[column])
        } else {
            self.config.default_device
        }
    }

    /// What is done for a column, given the name of the backend in use, if there is
    /// one, and whether that backend is available.
    pub fn index_column(
        &self,
        column: &str,
        is_vector: bool,
        existing: Option<(&str, bool)>,
    ) -> (r: ColumnStep)
        requires
            self.wf(),
        ensures
            r.indexed == self.wants(column@, is_vector),
            match (r.device, self.device_of(column@)) {
                (Some(d), Some(wanted)) => d@ == wanted@ && needs_context(wanted@, existing),
                (None, Some(wanted)) => !needs_context(wanted@, existing),
                (None, None) => true,
                _ => false,
            },
    {
        let device: Option<String> = match self.desired_device(column) {
            Some(d) => if needs_new_context(d.as_str(), existing) {
                Some(d.clone())
            } else {
                None
            },
            None => None,
        };
        ColumnStep { device, indexed: self.indexes_column(column, is_vector) }
    }
}

// ---------------------------------------------------------------------------
// Virtual columns
// ---------------------------------------------------------------------------

/// The place of an algorithm in the index configurations.
pub type AlgorithmPlace = (usize, usize);

/// The algorithm makes a virtual column: a graph, or else a composite.
pub open spec fn makes_column(algorithm: IndexAlgorithm, graph: bool) -> bool {
    if graph {
        algorithm is CsrGraph
    } else {
        algorithm is CompositeBitmap
    }
}

/// The algorithm at a place makes a virtual column and is switched on.
pub open spec fn is_task(
    configs: Seq<(String, ColumnIndexConfig)>,
    graph: bool,
    place: AlgorithmPlace,
) -> bool {
    &&& place.0 < configs.len()
    &&& configs[place.0 as int].1.enabled
    &&& place.1 < configs[place.0 as int].1.algorithms@.len()
    &&& makes_column(configs[place.0 as int].1.algorithms@[place.1 as int], graph)
}

impl HybridSegmentWriter {
    /// The places of the algorithms that make virtual columns: those of graphs,
    /// or those of composites.
    pub fn virtual_columns(&self, graph: bool) -> (r: Vec<AlgorithmPlace>)
        ensures
            r@.no_duplicates(),
            forall|p: AlgorithmPlace|
                is_task(self.index_configs.items@, graph, p) <==> #[trigger] r@.contains(p),
    {
        let mut r: Vec<AlgorithmPlace> = Vec::new();
        let ghost configs = self.index_configs.items@;
        let mut c: usize = 0;
        while c < self.index_configs.items.len()
            invariant
                c <= self.index_configs.items.len(),
                configs == self.index_configs.items@,
                r@.no_duplicates(),
                forall|p: AlgorithmPlace|
                    is_task(configs, graph, p) && p.0 < c <==> #[trigger] r@.contains(p),
            decreases self.index_configs.items.len() - c,
        {
            if self.index_configs.items[c].1.enabled {
                let algorithms: &Vec<IndexAlgorithm> = &self.index_configs.items[c].1.algorithms;
                let mut a: usize = 0;
                while a < algorithms.len()
                    invariant
                        c < configs.len(),
                        configs[c as int].1.enabled,
                        *algorithms == configs[c as int].1.algorithms,
                        a <= algorithms.len(),
                        r@.no_duplicates(),
                        forall|p: AlgorithmPlace|
                            is_task(configs, graph, p) && (p.0 < c || p.0 == c && p.1 < a)
                                <==> #[trigger] r@.contains(p),
                    decreases algorithms.len() - a,
                {
                    let makes: bool = match &algorithms[a] {
                        IndexAlgorithm::CsrGraph { .. } => graph,
                        IndexAlgorithm::CompositeBitmap { .. } => !graph,
                        _ => false,
                    };
                    let ghost before = r@;
                    if makes {
                        r.push((c, a));
                    }
                    proof {
                        assert forall|p: AlgorithmPlace|
                            is_task(configs, graph, p) && (p.0 < c || p.0 == c && p.1 < a + 1)
                                <==> #[trigger] r@.contains(p) by {
                            assert(before.contains(p) <==> is_task(configs, graph, p) && (p.0 < c
                                || p.0 == c && p.1 < a));
                            if before.contains(p) {
                                let k = choose|k: int| 0 <= k < before.len() && before[k] == p;
                                assert(r@[k] == p);
                            }
                            if makes && p == (c, a) {
                                assert(r@[r.len() - 1] == p);
                            }
                        }
                        assert(!before.contains((c, a)));
                    }
                    a = a + 1;
                }
            }
            c = c + 1;
        }
        r
    }
}

/// A column of a composite index that the batch does not have.
#[derive(Debug)]
pub struct MissingColumn {
    pub column: String,
}

impl MissingColumn {
    /// What is reported.
    pub fn message(&self) -> (r: String)
        ensures
            r@ == "Column "@ + self.column@ + " not found for composite index"@,
    {
        let mut m: String = "Column ".to_owned();
        m.append(self.column.as_str());
        m.append(" not found for composite index");
        m
    }
}

/// `i` is the first place of a name.
pub open spec fn first_named(names: Seq<String>, name: Seq<char>, i: int) -> bool {
    &&& 0 <= i < names.len()
    &&& names[i]@ == name
    &&& forall|j: int| 0 <= j < i ==> (#[trigger] names[j])@ != name
}

/// The places in a batch of the columns of a composite index; the first column
/// that the batch does not have is reported.
pub fn composite_columns(names: &Vec<String>, columns: &Vec<String>) -> (r: Result<
    Vec<usize>,
    MissingColumn,
>)
    ensures
        match r {
            Ok(places) => {
                &&& places.len() == columns.len()
                &&& forall|k: int|
                    0 <= k < columns.len() ==> first_named(
                        names@,
                        columns@[k]@,
                        #[trigger] places@[k] as int,
                    )
            },
            Err(e) => exists|k: int|
                0 <= k < columns.len() && e.column@ == (#[trigger] columns@[k])@
                    && !text::texts(names@).contains(columns@[k]@) && forall|j: int|
                    0 <= j < k ==> text::texts(names@).contains((#[trigger] columns@[j])@),
        },
{
    let mut places: Vec<usize> = Vec::new();
    let mut k: usize = 0;
    while k < columns.len()
        invariant
            k <= columns.len(),
            places.len() == k,
            forall|j: int|
                0 <= j < k ==> first_named(names@, columns@[j]@, #[trigger] places@[j] as int),
        decreases columns.len() - k,
    {
        let mut i: usize = 0;
        while i < names.len() && !text::same(names[i].as_str(), columns[k].as_str())
            invariant
                k < columns.len(),
                i <= names.len(),
                forall|j: int| 0 <= j < i ==> (#[trigger] names@[j])@ != columns@[k as int]@,
            decreases names.len() - i,
        {
            i = i + 1;
        }
        if i == names.len() {
            proof {
                let all = text::texts(names@);
                assert forall|j: int| 0 <= j < all.len() implies all[j] != columns@[k as int]@ by {
                    assert(all[j] == names@[j]@);
                }
                assert forall|j: int| 0 <= j < k implies all.contains(
                    (#[trigger] columns@[j])@,
                ) by {
                    assert(first_named(names@, columns@[j]@, places@[j] as int));
                    assert(all[places@[j] as int] == columns@[j]@);
                }
            }
            return Err(MissingColumn { column: columns[k].clone() });
        }
        places.push(i);
        k = k + 1;
    }
    Ok(places)
}

/// The key of a row in a composite index: the texts of its values with a zero
/// character between them.
pub fn composite_key(values: &Vec<ManifestValue>) -> (r: String)
    ensures
        r@ == text::joined(
            values@.map_values(|v: ManifestValue| manifest::value_text(v)),
            "\0"@,
        ),
{
    let mut parts: Vec<String> = Vec::new();
    let mut i: usize = 0;
    while i < values.len()
        invariant
            i <= values.len(),
            text::texts(parts@) == values@.take(i as int).map_values(
                |v: ManifestValue| manifest::value_text(v),
            ),
        decreases values.len() - i,
    {
        let ghost before = parts@;
        let part: String = values[i].to_text();
        parts.push(part);
        assert(text::texts(parts@) =~= text::texts(before).push(part@));
        i = i + 1;
        assert(text::texts(parts@) =~= values@.take(i as int).map_values(
            |v: ManifestValue| manifest::value_text(v),
        ));
    }
    assert(values@.take(i as int) =~= values@);
    text::join(&parts, "\0")
}

/// What is indexed of a batch: the places of its columns, the composite indexes
/// with the places of their columns, and the graphs.
#[derive(Debug)]
pub struct IndexPlan {
    pub columns: Vec<usize>,
    pub composites: Vec<(AlgorithmPlace, Vec<usize>)>,
    pub graphs: Vec<AlgorithmPlace>,
}

/// The columns of the composite index at a place.
pub open spec fn columns_of(
    configs: Seq<(String, ColumnIndexConfig)>,
    place: AlgorithmPlace,
) -> Seq<String> {
    match configs[place.0 as int].1.algorithms@[place.1 as int] {
        IndexAlgorithm::CompositeBitmap { columns } => columns@,
        _ => Seq::empty(),
    }
}

/// The places in a batch of columns.
pub open spec fn are_places(names: Seq<String>, columns: Seq<String>, places: Seq<usize>) -> bool {
    &&& places.len() == columns.len()
    &&& forall|k: int|
        0 <= k < columns.len() ==> first_named(names, columns[k]@, #[trigger] places[k] as int)
}

/// The places of composite indexes.
pub open spec fn tasks_of(composites: Seq<(AlgorithmPlace, Vec<usize>)>) -> Seq<AlgorithmPlace> {
    composites.map_values(|c: (AlgorithmPlace, Vec<usize>)| c.0)
}

/// A composite index at a place has a column that is not in a batch.
pub open spec fn lacks(
    names: Seq<String>,
    configs: Seq<(String, ColumnIndexConfig)>,
    place: AlgorithmPlace,
    column: Seq<char>,
) -> bool {
    &&& is_task(configs, false, place)
    &&& text::texts(columns_of(configs, place)).contains(column)
    &&& !text::texts(names).contains(column)
}

/// Some composite index has a column that is not in a batch.
pub open spec fn is_lacking(
    names: Seq<String>,
    configs: Seq<(String, ColumnIndexConfig)>,
    column: Seq<char>,
) -> bool {
    exists|p: AlgorithmPlace| #[trigger] lacks(names, configs, p, column)
}

impl HybridSegmentWriter {
    /// The column of a batch at a place is indexed.
    pub open spec fn takes(self, names: Seq<String>, vectors: Seq<bool>, i: int) -> bool {
        self.config.index_all || vectors[i] || self.is_key(names[i]@) || self.is_listed(names[i]@)
    }

    /// A plan has the columns of a batch that are indexed, in their order, and all
    /// composite indexes and graphs that are switched on.
    pub open spec fn indexes(self, plan: IndexPlan, names: Seq<String>, vectors: Seq<bool>) -> bool {
        let configs = self.index_configs.items@;
        &&& forall|a: int, b: int|
            #![trigger plan.columns@[a], plan.columns@[b]]
            0 <= a < b < plan.columns.len() ==> plan.columns@[a] < plan.columns@[b]
        &&& forall|i: usize| #[trigger]
            plan.columns@.contains(i) <==> i < names.len() && self.takes(names, vectors, i as int)
        &&& tasks_of(plan.composites@).no_duplicates()
        &&& forall|p: AlgorithmPlace|
            is_task(configs, false, p) <==> #[trigger] tasks_of(plan.composites@).contains(p)
        &&& forall|k: int|
            0 <= k < plan.composites.len() ==> are_places(
                names,
                columns_of(configs, (#[trigger] plan.composites@[k]).0),
                plan.composites@[k].1@,
            )
        &&& plan.graphs@.no_duplicates()
        &&& forall|p: AlgorithmPlace|
            is_task(configs, true, p) <==> #[trigger] plan.graphs@.contains(p)
    }

    /// What is indexed of a batch, given the names of its columns and which of them
    /// hold vectors. A column of a composite index that the batch does not have is
    /// reported.
    pub fn build_indexes(&self, names: &Vec<String>, vectors: &Vec<bool>) -> (r: Result<
        IndexPlan,
        MissingColumn,
    >)
        requires
            names.len() == vectors.len(),
        ensures
            match r {
                Ok(plan) => self.indexes(plan, names@, vectors@),
                Err(e) => is_lacking(names@, self.index_configs.items@, e.column@),
            },
    {
        let ghost configs = self.index_configs.items@;
        let mut columns: Vec<usize> = Vec::new();
        let mut i: usize = 0;
        while i < names.len()
            invariant
                i <= names.len(),
                names.len() == vectors.len(),
                forall|a: int, b: int|
                    #![trigger columns@[a], columns@[b]]
                    0 <= a < b < columns.len() ==> columns@[a] < columns@[b],
                forall|j: usize| #[trigger]
                    columns@.contains(j) <==> j < i && self.takes(names@, vectors@, j as int),
            decreases names.len() - i,
        {
            let ghost before = columns@;
            if self.indexes_batch_column(names[i].as_str(), vectors[i]) {
                assert forall|a: int| 0 <= a < before.len() implies #[trigger] before[a] < i by {
                    assert(before.contains(before[a]));
                }
                columns.push(i);
            }
            proof {
                assert forall|j: usize| #[trigger]
                    columns@.contains(j) <==> j < i + 1 && self.takes(
                        names@,
                        vectors@,
                        j as int,
                    ) by {
                    assert(before.contains(j) <==> j < i && self.takes(names@, vectors@, j as int));
                    if before.contains(j) {
                        let k = choose|k: int| 0 <= k < before.len() && before[k] == j;
                        assert(columns@[k] == j);
                    }
                    if j == i && columns@.len() > before.len() {
                        assert(columns@[columns.len() - 1] == j);
                    }
                }
            }
            i = i + 1;
        }
        let tasks: Vec<AlgorithmPlace> = self.virtual_columns(false);
        let mut composites: Vec<(AlgorithmPlace, Vec<usize>)> = Vec::new();
        let mut k: usize = 0;
        while k < tasks.len()
            invariant
                k <= tasks.len(),
                configs == self.index_configs.items@,
                forall|p: AlgorithmPlace|
                    is_task(configs, false, p) <==> #[trigger] tasks@.contains(p),
                composites.len() == k,
                forall|a: int| 0 <= a < k ==> (#[trigger] composites@[a]).0 == tasks@[a],
                forall|a: int|
                    0 <= a < k ==> are_places(
                        names@,
                        columns_of(configs, (#[trigger] composites@[a]).0),
                        composites@[a].1@,
                    ),
            decreases tasks.len() - k,
        {
            let place: AlgorithmPlace = tasks[k];
            assert(tasks@.contains(place));
            match &self.index_configs.items[place.0].1.algorithms[place.1] {
                IndexAlgorithm::CompositeBitmap { columns: wanted } => {
                    match composite_columns(names, wanted) {
                        Ok(places) => {
                            composites.push((place, places));
                        },
                        Err(e) => {
                            proof {
                                let all = text::texts(wanted@);
                                let c = choose|c: int|
                                    0 <= c < wanted.len() && e.column@ == (#[trigger] wanted@[c])@
                                        && !text::texts(names@).contains(wanted@[c]@);
                                assert(all[c] == wanted@[c]@);
                                assert(columns_of(configs, place) == wanted@);
                                assert(lacks(names@, configs, place, e.column@));
                                assert(is_lacking(names@, configs, e.column@));
                            }
                            return Err(e);
                        },
                    }
                },
                _ => {
                    assert(false);
                },
            }
            k = k + 1;
        }
        assert(tasks_of(composites@) =~= tasks@);
        let graphs: Vec<AlgorithmPlace> = self.virtual_columns(true);
        Ok(IndexPlan { columns, composites, graphs })
    }
}

// ---------------------------------------------------------------------------
// Finishing indexes
// ---------------------------------------------------------------------------

/// There is no store that finished indexes can go to.
#[derive(Clone, Copy, Debug, PartialEq, Eq, Structural)]
pub struct NoStore;

impl NoStore {
    /// The message of the error.
    pub fn message(&self) -> (r: String)
        ensures
            r@ == "No store configured for finishing indexes"@,
    {
        "No store configured for finishing indexes".to_owned()
    }
}

/// The inverted index of a column as it is written: its tokens with their rows
/// as differences and, for a column with an analyzer, the name of the analyzer
/// and a file of document lengths.
#[derive(Debug)]
pub struct InvertedIndex {
    pub path: String,
    pub analyzer: Option<String>,
    pub keys: Vec<String>,
    pub rows: Vec<Vec<u32>>,
    pub lengths_path: Option<String>,
    pub lengths: Vec<(u32, u32)>,
}

/// The rows of a token: those of all its mentions among the first `n`, one list
/// after the other.
pub open spec fn rows_of(tokens: Seq<(String, Vec<u32>)>, token: Seq<char>, n: int) -> Seq<u32>
    decreases n,
{
    if n <= 0 {
        Seq::empty()
    } else if tokens[n - 1].0@ == token {
        rows_of(tokens, token, n - 1) + tokens[n - 1].1@
    } else {
        rows_of(tokens, token, n - 1)
    }
}

/// Batches add up: a token has the rows of one batch and behind them those of the
/// next.
pub proof fn law_batches_add_up(
    a: Seq<(String, Vec<u32>)>,
    b: Seq<(String, Vec<u32>)>,
    token: Seq<char>,
)
    ensures
        rows_of(a + b, token, (a + b).len() as int) == rows_of(a, token, a.len() as int)
            + rows_of(b, token, b.len() as int),
{
    lemma_rows_of_front(a, b, token, a.len() as int);
    lemma_rows_of_back(a, b, token, b.len() as int);
}

proof fn lemma_rows_of_front(
    a: Seq<(String, Vec<u32>)>,
    b: Seq<(String, Vec<u32>)>,
    token: Seq<char>,
    n: int,
)
    requires
        0 <= n <= a.len(),
    ensures
        rows_of(a + b, token, n) == rows_of(a, token, n),
    decreases n,
{
    if n > 0 {
        lemma_rows_of_front(a, b, token, n - 1);
    }
}

proof fn lemma_rows_of_back(
    a: Seq<(String, Vec<u32>)>,
    b: Seq<(String, Vec<u32>)>,
    token: Seq<char>,
    n: int,
)
    requires
        0 <= n <= b.len(),
    ensures
        rows_of(a + b, token, a.len() + n) == rows_of(a, token, a.len() as int) + rows_of(
            b,
            token,
            n,
        ),
    decreases n,
{
    let front = rows_of(a, token, a.len() as int);
    if n > 0 {
        lemma_rows_of_back(a, b, token, n - 1);
        assert((a + b)[a.len() + n - 1] == b[n - 1]);
        assert(front + (rows_of(b, token, n - 1) + b[n - 1].1@) =~= (front + rows_of(
            b,
            token,
            n - 1,
        )) + b[n - 1].1@);
    } else {
        lemma_rows_of_front(a, b, token, a.len() as int);
        assert(front + Seq::<u32>::empty() =~= front);
    }
}

/// Keys are the tokens that are mentioned, each once, in ascending order.
pub open spec fn lists_tokens(keys: Seq<String>, tokens: Seq<(String, Vec<u32>)>) -> bool {
    &&& forall|a: int, b: int|
        #![trigger keys[a], keys[b]]
        0 <= a < b < keys.len() ==> text::text_less(keys[a]@, keys[b]@)
    &&& forall|a: int|
        0 <= a < keys.len() ==> token_texts(tokens).contains((#[trigger] keys[a])@)
    &&& forall|k: int|
        0 <= k < tokens.len() ==> text::texts(keys).contains((#[trigger] tokens[k]).0@)
}

/// The texts of tokens.
pub open spec fn token_texts(tokens: Seq<(String, Vec<u32>)>) -> Seq<Seq<char>> {
    tokens.map_values(|t: (String, Vec<u32>)| t.0@)
}

/// The lists of rows of tokens.
pub open spec fn row_lists(tokens: Seq<(String, Vec<u32>)>) -> Seq<Vec<u32>> {
    tokens.map_values(|t: (String, Vec<u32>)| t.1)
}

/// The differences stand for the rows in ascending order.
pub open spec fn encodes(deltas: Seq<u32>, rows: Seq<u32>) -> bool {
    exists|sorted: Seq<u32>| #[trigger]
        is_sorting(rows, sorted) && running_sums(deltas) == sorted.map_values(|v: u32| v as int)
}

/// The document lengths of lists of rows, in ascending order of rows.
pub open spec fn are_lengths(lengths: Seq<(u32, u32)>, lists: Seq<Vec<u32>>) -> bool {
    &&& forall|a: int, b: int|
        #![trigger lengths[a], lengths[b]]
        0 <= a < b < lengths.len() ==> lengths[a].0 < lengths[b].0
    &&& forall|a: int|
        0 <= a < lengths.len() ==> (#[trigger] lengths[a]).1 == token_count(lists, lengths[a].0)
            && lengths[a].1 > 0
    &&& forall|v: u32| #[trigger]
        token_count(lists, v) > 0 ==> exists|a: int|
            0 <= a < lengths.len() && (#[trigger] lengths[a]).0 == v
}

/// Between two neighbours with one text, nothing else has it; where neighbours
/// differ, one text ends and another starts.
proof fn lemma_neighbours(keys: Seq<String>, order: Seq<usize>, p: int, c: int)
    requires
        order::is_sorted_order(keys, order),
        keys.len() <= usize::MAX,
        0 <= p < order.len(),
        0 <= c < keys.len(),
        keys[c]@ == keys[order[p] as int]@,
    ensures
        c < order[p] ==> p > 0 && keys[order[p - 1] as int]@ == keys[order[p] as int]@ && c
            <= order[p - 1],
        c > order[p] ==> p + 1 < order.len() && keys[order[p + 1] as int]@
            == keys[order[p] as int]@,
        p > 0 ==> keys[order[p - 1] as int]@ == keys[order[p] as int]@ || text::text_less(
            keys[order[p - 1] as int]@,
            keys[order[p] as int]@,
        ),
{
    let at = order[p] as int;
    text::lemma_text_order();
    assert(order.contains(c as usize));
    let q = choose|q: int| 0 <= q < order.len() && order[q] == c as usize;
    if q < p {
        assert(order::comes_before(keys, order[q] as int, at));
        let near = order[p - 1] as int;
        assert(order::comes_before(keys, near, at));
        if q < p - 1 {
            assert(order::comes_before(keys, order[q] as int, near));
        }
        if !text::text_less(keys[near]@, keys[at]@) && !text::text_less(keys[at]@, keys[near]@) {
            text::lemma_text_less_total(keys[near]@, keys[at]@);
        }
    } else if p < q {
        assert(order::comes_before(keys, at, order[q] as int));
        let near = order[p + 1] as int;
        assert(order::comes_before(keys, at, near));
        if p + 1 < q {
            assert(order::comes_before(keys, near, order[q] as int));
        }
        if !text::text_less(keys[near]@, keys[at]@) && !text::text_less(keys[at]@, keys[near]@) {
            text::lemma_text_less_total(keys[near]@, keys[at]@);
        }
    }
    if p > 0 {
        let near = order[p - 1] as int;
        assert(order::comes_before(keys, near, at));
        if !text::text_less(keys[near]@, keys[at]@) && !text::text_less(keys[at]@, keys[near]@) {
            text::lemma_text_less_total(keys[near]@, keys[at]@);
        }
    }
}

/// Where no mention of a token stands between two places, it has the same rows up to
/// both.
proof fn lemma_rows_between(
    tokens: Seq<(String, Vec<u32>)>,
    token: Seq<char>,
    from: int,
    to: int,
)
    requires
        0 <= from <= to <= tokens.len(),
        forall|c: int| from <= c < to ==> (#[trigger] tokens[c]).0@ != token,
    ensures
        rows_of(tokens, token, from) == rows_of(tokens, token, to),
    decreases to - from,
{
    if from < to {
        lemma_rows_between(tokens, token, from, to - 1);
    }
}

/// The last mention of a token in the order is its last one of all.
proof fn lemma_group_ends(
    tokens: Seq<(String, Vec<u32>)>,
    names: Seq<String>,
    order: Seq<usize>,
    p: int,
)
    requires
        order::is_sorted_order(names, order),
        names.len() == tokens.len(),
        names.len() <= usize::MAX,
        forall|k: int| 0 <= k < names.len() ==> (#[trigger] names[k])@ == tokens[k].0@,
        0 <= p < order.len(),
        p + 1 < order.len() ==> tokens[order[p + 1] as int].0@ != tokens[order[p] as int].0@,
    ensures
        rows_of(tokens, tokens[order[p] as int].0@, order[p] + 1) == rows_of(
            tokens,
            tokens[order[p] as int].0@,
            tokens.len() as int,
        ),
{
    let at = order[p] as int;
    let token = tokens[at].0@;
    assert(names[at]@ == token);
    assert forall|c: int| at + 1 <= c < tokens.len() implies (#[trigger] tokens[c]).0@
        != token by {
        if tokens[c].0@ == token {
            assert(names[c]@ == token);
            lemma_neighbours(names, order, p, c);
            assert(names[order[p + 1] as int]@ == tokens[order[p + 1] as int].0@);
        }
    }
    lemma_rows_between(tokens, token, at + 1, tokens.len() as int);
}

/// Adds rows to a list.
fn append_rows(list: &mut Vec<u32>, more: &Vec<u32>)
    ensures
        final(list)@ == old(list)@ + more@,
{
    let ghost before = list@;
    let mut i: usize = 0;
    assert(before + more@.take(0) =~= before);
    while i < more.len()
        invariant
            i <= more.len(),
            list@ == before + more@.take(i as int),
        decreases more.len() - i,
    {
        list.push(more[i]);
        assert(before + more@.take(i + 1) =~= (before + more@.take(i as int)).push(
            more@[i as int],
        ));
        i = i + 1;
    }
    assert(more@.take(i as int) =~= more@);
}

/// What is merged of tokens, up to the place `p` of their order.
spec fn merges(
    tokens: Seq<(String, Vec<u32>)>,
    order: Seq<usize>,
    p: int,
    keys: Seq<String>,
    rows: Seq<Vec<u32>>,
) -> bool {
    &&& keys.len() == rows.len()
    &&& keys.len() == 0 <==> p == 0
    &&& p > 0 ==> {
        let last = order[p - 1] as int;
        &&& keys.last()@ == tokens[last].0@
        &&& rows.last()@ == rows_of(tokens, tokens[last].0@, last + 1)
    }
    &&& forall|a: int|
        0 <= a < keys.len() - 1 ==> (#[trigger] rows[a])@ == rows_of(
            tokens,
            keys[a]@,
            tokens.len() as int,
        )
    &&& forall|a: int, b: int|
        #![trigger keys[a], keys[b]]
        0 <= a < b < keys.len() ==> text::text_less(keys[a]@, keys[b]@)
    &&& forall|a: int| 0 <= a < keys.len() ==> token_texts(tokens).contains((#[trigger] keys[a])@)
    &&& forall|q: int|
        0 <= q < p ==> text::texts(keys).contains(tokens[#[trigger] order[q] as int].0@)
}

/// The tokens that are mentioned, in ascending order, and the rows of each.
fn merge_tokens(tokens: &Vec<(String, Vec<u32>)>) -> (r: (Vec<String>, Vec<Vec<u32>>))
    ensures
        lists_tokens(r.0@, tokens@),
        r.1.len() == r.0.len(),
        forall|k: int|
            0 <= k < r.1.len() ==> (#[trigger] r.1@[k])@ == rows_of(
                tokens@,
                r.0@[k]@,
                tokens.len() as int,
            ),
{
    let mut names: Vec<String> = Vec::new();
    let mut i: usize = 0;
    while i < tokens.len()
        invariant
            i <= tokens.len(),
            names.len() == i,
            forall|k: int| 0 <= k < i ==> (#[trigger] names@[k])@ == tokens@[k].0@,
        decreases tokens.len() - i,
    {
        let name: String = tokens[i].0.clone();
        names.push(name);
        i = i + 1;
    }
    let places: Vec<usize> = order::sorted_order(&names);
    let mut keys: Vec<String> = Vec::new();
    let mut rows: Vec<Vec<u32>> = Vec::new();
    let mut p: usize = 0;
    while p < places.len()
        invariant
            p <= places.len(),
            order::is_sorted_order(names@, places@),
            names.len() == tokens.len(),
            forall|k: int| 0 <= k < names.len() ==> (#[trigger] names@[k])@ == tokens@[k].0@,
            merges(tokens@, places@, p as int, keys@, rows@),
        decreases places.len() - p,
    {
        let at: usize = places[p];
        let ghost token = tokens@[at as int].0@;
        let ghost was = keys@;
        let ghost had = rows@;
        let n: usize = rows.len();
        assert(names@[at as int]@ == token);
        assert(token_texts(tokens@)[at as int] == token);
        if n > 0 && text::same(keys[n - 1].as_str(), tokens[at].0.as_str()) {
            proof {
                let last = places@[p - 1] as int;
                assert(names@[last]@ == token);
                assert(order::comes_before(names@, last, at as int));
                text::lemma_text_order();
                assert(last < at);
                assert forall|c: int| last + 1 <= c < at implies (#[trigger] tokens@[c]).0@
                    != token by {
                    if tokens@[c].0@ == token {
                        assert(names@[c]@ == token);
                        lemma_neighbours(names@, places@, p as int, c);
                    }
                }
                lemma_rows_between(tokens@, token, last + 1, at as int);
            }
            let mut list: Vec<u32> = match rows.pop() {
                Some(list) => list,
                None => Vec::new(),
            };
            append_rows(&mut list, &tokens[at].1);
            rows.push(list);
            proof {
                assert(rows@.last()@ == rows_of(tokens@, token, at + 1));
                assert(text::texts(keys@)[n - 1] == token);
                assert forall|a: int| 0 <= a < keys.len() - 1 implies (#[trigger] rows@[a])@
                    == rows_of(tokens@, keys@[a]@, tokens.len() as int) by {
                    assert(rows@[a] == had[a]);
                }
            }
        } else {
            proof {
                assert forall|c: int| 0 <= c < at implies (#[trigger] tokens@[c]).0@ != token by {
                    if tokens@[c].0@ == token {
                        assert(names@[c]@ == token);
                        lemma_neighbours(names@, places@, p as int, c);
                        assert(names@[places@[p - 1] as int]@ == tokens@[places@[p - 1] as int].0@);
                    }
                }
                lemma_rows_between(tokens@, token, 0, at as int);
                if p > 0 {
                    lemma_group_ends(tokens@, names@, places@, p - 1);
                    lemma_neighbours(names@, places@, p as int, at as int);
                    assert(names@[places@[p - 1] as int]@ == tokens@[places@[p - 1] as int].0@);
                    text::lemma_text_order();
                }
            }
            let key: String = tokens[at].0.clone();
            keys.push(key);
            rows.push(vstd::slice::slice_to_vec(tokens[at].1.as_slice()));
            proof {
                assert(rows_of(tokens@, token, at + 1) =~= tokens@[at as int].1@);
                assert(text::texts(keys@) =~= text::texts(was).push(token));
                assert(text::texts(keys@)[n as int] == token);
                assert forall|a: int| 0 <= a < keys.len() - 1 implies (#[trigger] rows@[a])@
                    == rows_of(tokens@, keys@[a]@, tokens.len() as int) by {
                    assert(rows@[a] == had[a]);
                    assert(keys@[a] == was[a]);
                }
                assert forall|a: int, b: int|
                    #![trigger keys@[a], keys@[b]]
                    0 <= a < b < keys.len() implies text::text_less(keys@[a]@, keys@[b]@) by {
                    if b == n {
                        assert(keys@[a] == was[a]);
                        if a < n - 1 {
                            assert(text::text_less(was[a]@, was[n - 1]@));
                        }
                    } else {
                        assert(text::text_less(was[a]@, was[b]@));
                    }
                }
                assert forall|q: int| 0 <= q < p + 1 implies text::texts(keys@).contains(
                    tokens@[#[trigger] places@[q] as int].0@,
                ) by {
                    if q < p {
                        let x = tokens@[places@[q] as int].0@;
                        assert(text::texts(was).contains(x));
                        let a = choose|a: int|
                            0 <= a < text::texts(was).len() && text::texts(was)[a] == x;
                        assert(text::texts(keys@)[a] == x);
                    }
                }
            }
        }
        p = p + 1;
    }
    proof {
        if p > 0 {
            lemma_group_ends(tokens@, names@, places@, p - 1);
        }
        assert forall|k: int| 0 <= k < tokens.len() implies text::texts(keys@).contains(
            (#[trigger] tokens@[k]).0@,
        ) by {
            assert(places@.contains(k as usize));
            let q = choose|q: int| 0 <= q < places@.len() && places@[q] == k as usize;
            assert(text::texts(keys@).contains(tokens@[places@[q] as int].0@));
        }
        assert forall|k: int| 0 <= k < rows.len() implies (#[trigger] rows@[k])@ == rows_of(
            tokens@,
            keys@[k]@,
            tokens.len() as int,
        ) by {}
    }
    (keys, rows)
}

impl HybridSegmentWriter {
    /// Where an index file of a column goes.
    pub open spec fn index_path(self, column: Seq<char>, ending: Seq<char>) -> Seq<char> {
        directory_of(optional_text(self.config.parquet_path)) + (self.config.segment_id@ + "."@
            + column + ending)
    }

    /// Adds the tokens of a column that a batch brought.
    pub fn buffer_tokens(&mut self, column: &str, tokens: Vec<(String, Vec<u32>)>)
        requires
            old(self).wf(),
        ensures
            final(self).wf(),
            final(self).inverted_data@.dom() == old(self).inverted_data@.dom().insert(column@),
            final(self).inverted_data@[column@]@ == old(self).buffered(column@) + tokens@,
            forall|c: Seq<char>|
                c != column@ && #[trigger] old(self).inverted_data@.dom().contains(c)
                    ==> final(self).inverted_data@[c] == old(self).inverted_data@[c],
            *final(self) == (HybridSegmentWriter {
                inverted_data: final(self).inverted_data,
                ..*old(self)
            }),
    {
        let ghost before = self.buffered(column@);
        let ghost all = tokens@;
        let ghost had = self.inverted_data@;
        let mut list: Vec<(String, Vec<u32>)> = match self.inverted_data.remove(column) {
            Some(list) => list,
            None => Vec::new(),
        };
        assert(list@ =~= before + all.take(0));
        for token in it: tokens
            invariant
                it.seq() == all,
                list@ == before + all.take(it.index() as int),
        {
            let ghost i = it.index() as int;
            assert(token == all[i]);
            list.push(token);
            assert(before + all.take(i + 1) =~= (before + all.take(i)).push(all[i]));
        }
        assert(all.take(all.len() as int) =~= all);
        self.inverted_data.insert(column.to_owned(), list);
        assert(self.inverted_data@.dom() =~= had.dom().insert(column@));
    }

    /// The tokens of a column so far.
    pub open spec fn buffered(self, column: Seq<char>) -> Seq<(String, Vec<u32>)> {
        if self.inverted_data@.dom().contains(column) {
            self.inverted_data@[column]@
        } else {
            Seq::empty()
        }
    }

    /// Notes the file that holds the vectors of a column.
    pub fn buffer_vectors(&mut self, column: String, file: String)
        requires
            old(self).wf(),
        ensures
            final(self).wf(),
            final(self).vector_data@ == old(self).vector_data@.insert(column@, file),
            *final(self) == (HybridSegmentWriter {
                vector_data: final(self).vector_data,
                ..*old(self)
            }),
    {
        self.vector_data.insert(column, file);
    }

    /// Notes the file that holds the edges of a virtual column.
    pub fn buffer_graph(&mut self, column: String, file: String)
        requires
            old(self).wf(),
        ensures
            final(self).wf(),
            final(self).graph_data@ == old(self).graph_data@.insert(column@, file),
            *final(self) == (HybridSegmentWriter {
                graph_data: final(self).graph_data,
                ..*old(self)
            }),
    {
        self.graph_data.insert(column, file);
    }

    /// Starts to finish the indexes: hands out the tokens of all columns, of which
    /// the writer keeps none. Without a store nothing changes.
    pub fn take_inverted(&mut self) -> (r: Result<TextMap<Vec<(String, Vec<u32>)>>, NoStore>)
        requires
            old(self).wf(),
        ensures
            final(self).wf(),
            match r {
                Ok(taken) => {
                    &&& old(self).has_store
                    &&& taken == old(self).inverted_data
                    &&& final(self).inverted_data@ == Map::<
                        Seq<char>,
                        Vec<(String, Vec<u32>)>,
                    >::empty()
                    &&& *final(self) == (HybridSegmentWriter {
                        inverted_data: final(self).inverted_data,
                        ..*old(self)
                    })
                },
                Err(NoStore) => !old(self).has_store && *final(self) == *old(self),
            },
    {
        if !self.has_store {
            return Err(NoStore);
        }
        let mut taken: TextMap<Vec<(String, Vec<u32>)>> = TextMap::new();
        core::mem::swap(&mut self.inverted_data, &mut taken);
        Ok(taken)
    }

    /// Hands out the files with vectors, of which the writer keeps none.
    pub fn take_vectors(&mut self) -> (r: TextMap<String>)
        requires
            old(self).wf(),
        ensures
            final(self).wf(),
            r == old(self).vector_data,
            final(self).vector_data@ == Map::<Seq<char>, String>::empty(),
            *final(self) == (HybridSegmentWriter {
                vector_data: final(self).vector_data,
                ..*old(self)
            }),
    {
        let mut taken: TextMap<String> = TextMap::new();
        core::mem::swap(&mut self.vector_data, &mut taken);
        taken
    }

    /// Hands out the files with edges, of which the writer keeps none.
    pub fn take_graphs(&mut self) -> (r: TextMap<String>)
        requires
            old(self).wf(),
        ensures
            final(self).wf(),
            r == old(self).graph_data,
            final(self).graph_data@ == Map::<Seq<char>, String>::empty(),
            *final(self) == (HybridSegmentWriter {
                graph_data: final(self).graph_data,
                ..*old(self)
            }),
    {
        let mut taken: TextMap<String> = TextMap::new();
        core::mem::swap(&mut self.graph_data, &mut taken);
        taken
    }

    /// The inverted index of a column, given its tokens with the rows of each: every
    /// token once, in ascending order, with all its rows. Its files are added to
    /// those of the segment: the document lengths first, where there are some.
    pub fn finish_inverted(&mut self, column: &str, tokens: Vec<(String, Vec<u32>)>) -> (r:
        InvertedIndex)
        requires
            old(self).wf(),
            forall|v: u32| #[trigger] token_count(row_lists(tokens@), v) <= u32::MAX,
        ensures
            final(self).wf(),
            r.path@ == old(self).index_path(column@, ".inv.parquet"@),
            lists_tokens(r.keys@, tokens@),
            r.rows.len() == r.keys.len(),
            forall|i: int|
                0 <= i < r.rows.len() ==> encodes(
                    (#[trigger] r.rows@[i])@,
                    rows_of(tokens@, r.keys@[i]@, tokens.len() as int),
                ),
            match (r.analyzer, r.lengths_path) {
                (Some(name), Some(path)) => {
                    &&& old(self).index_metadata@.dom().contains(column@)
                    &&& name@ == old(self).index_metadata@[column@]@
                    &&& path@ == old(self).index_path(column@, ".doclen.parquet"@)
                    &&& are_lengths(r.lengths@, row_lists(tokens@))
                    &&& text::texts(final(self).generated_files@) == text::texts(
                        old(self).generated_files@,
                    ).push(path@).push(r.path@)
                },
                (None, None) => {
                    &&& !old(self).index_metadata@.dom().contains(column@)
                    &&& r.lengths@.len() == 0
                    &&& text::texts(final(self).generated_files@) == text::texts(
                        old(self).generated_files@,
                    ).push(r.path@)
                },
                _ => false,
            },
            *final(self) == (HybridSegmentWriter {
                generated_files: final(self).generated_files,
                ..*old(self)
            }),
    {
        let ghost before = text::texts(self.generated_files@);
        let ghost all = tokens@;
        let ghost lists = row_lists(tokens@);
        let analyzer: Option<String> = match self.index_metadata.get(column) {
            Some(name) => Some(name.clone()),
            None => None,
        };
        let lengths_path: Option<String> = self.document_lengths_path(column);
        let (keys, merged) = merge_tokens(&tokens);
        let mut rows: Vec<Vec<u32>> = Vec::new();
        let mut i: usize = 0;
        while i < merged.len()
            invariant
                i <= merged.len(),
                merged.len() == keys.len(),
                rows.len() == i,
                forall|k: int|
                    0 <= k < merged.len() ==> (#[trigger] merged@[k])@ == rows_of(
                        all,
                        keys@[k]@,
                        all.len() as int,
                    ),
                forall|k: int|
                    0 <= k < i ==> encodes(
                        (#[trigger] rows@[k])@,
                        rows_of(all, keys@[k]@, all.len() as int),
                    ),
            decreases merged.len() - i,
        {
            let deltas: Vec<u32> = encode_rows(&merged[i]);
            assert(merged@[i as int]@ == rows_of(all, keys@[i as int]@, all.len() as int));
            assert(encodes(deltas@, merged@[i as int]@));
            rows.push(deltas);
            i = i + 1;
        }
        let mut given: Vec<Vec<u32>> = Vec::new();
        for token in it: tokens
            invariant
                it.seq() == all,
                given.len() == it.index(),
                forall|k: int| 0 <= k < it.index() ==> #[trigger] given@[k] == all[k].1,
        {
            assert(token == all[it.index() as int]);
            given.push(token.1);
        }
        assert(given@ =~= lists);
        let mut lengths: Vec<(u32, u32)> = Vec::new();
        match &lengths_path {
            Some(path) => {
                lengths = document_lengths(&given);
                assert(are_lengths(lengths@, lists));
                self.generated_files.push(path.clone());
                assert(text::texts(self.generated_files@) =~= before.push(path@));
            },
            None => {},
        }
        let path: String = self.inverted_index_path(column);
        let ghost files = text::texts(self.generated_files@);
        self.generated_files.push(path.clone());
        assert(text::texts(self.generated_files@) =~= files.push(path@));
        InvertedIndex { path, analyzer, keys, rows, lengths_path, lengths }
    }

    /// Where the files of the graph index of a virtual column go. They are added to
    /// those of the segment, and the index to its indexes.
    pub fn finish_graph(&mut self, column: &str, file_names: &Vec<String>) -> (r: Vec<String>)
        requires
            old(self).wf(),
        ensures
            final(self).wf(),
            r.len() == file_names.len(),
            forall|i: int|
                0 <= i < r.len() ==> (#[trigger] r@[i])@ == directory_of(
                    optional_text(old(self).config.parquet_path),
                ) + file_names@[i]@,
            text::texts(final(self).generated_files@) == text::texts(old(self).generated_files@)
                + text::texts(r@),
            ({
                let name = old(self).config.segment_id@ + "."@ + column@;
                let after = final(self).index_metadata@;
                &&& after.dom().contains(name) && after[name]@ == "csr_graph"@
                &&& after == old(self).index_metadata@.insert(name, after[name])
            }),
            *final(self) == (HybridSegmentWriter {
                index_metadata: final(self).index_metadata,
                generated_files: final(self).generated_files,
                ..*old(self)
            }),
    {
        let ghost before = self.generated_files@;
        let mut targets: Vec<String> = Vec::new();
        let mut copies: Vec<String> = Vec::new();
        let mut i: usize = 0;
        while i < file_names.len()
            invariant
                i <= file_names.len(),
                targets.len() == i,
                copies.len() == i,
                forall|k: int|
                    0 <= k < i ==> (#[trigger] targets@[k])@ == directory_of(
                        optional_text(self.config.parquet_path),
                    ) + file_names@[k]@,
                forall|k: int| 0 <= k < i ==> (#[trigger] copies@[k])@ == targets@[k]@,
            decreases file_names.len() - i,
        {
            let target: String = self.graph_file_target(file_names[i].as_str());
            copies.push(target.clone());
            targets.push(target);
            i = i + 1;
        }
        let name: String = self.graph_index_name(column);
        let ghost added = copies@;
        self.record_index(name, "csr_graph".to_owned(), copies);
        assert(text::texts(before + added) =~= text::texts(before) + text::texts(targets@));
        targets
    }
}

// ---------------------------------------------------------------------------
// Laws
// ---------------------------------------------------------------------------

proof fn lemma_suffix(base: Seq<char>, ending: Seq<char>)
    ensures
        ending.is_suffix_of(base + ending),
{
    assert((base + ending).skip(base.len() as int) =~= ending);
}

proof fn lemma_ends_otherwise(base: Seq<char>, ending: Seq<char>, other: Seq<char>)
    requires
        ending.len() > 0,
        other.len() > 0,
        ending.last() != other.last(),
    ensures
        !other.is_suffix_of(base + ending),
{
    let t = base + ending;
    if other.is_suffix_of(t) {
        let n = t.len() - other.len();
        assert(t.skip(n)[other.len() - 1] == other.last());
    }
}

proof fn lemma_endings()
    ensures
        ".inv.parquet"@.len() == 12 && ".inv.parquet"@.last() == 't',
        ".parquet"@.len() == 8 && ".parquet"@.last() == 't',
        ".centroids.parquet"@.len() == 18 && ".centroids.parquet"@.last() == 't',
        ".mapping.parquet"@.len() == 16 && ".mapping.parquet"@.last() == 't',
        ".graph_v2.csr.offsets"@.len() == 21 && ".graph_v2.csr.offsets"@.last() == 's',
        ".graph_v2.csr.edges"@.len() == 19 && ".graph_v2.csr.edges"@.last() == 's',
        ".hnsw.graph"@.len() == 11 && ".hnsw.graph"@.last() == 'h',
        ".idx"@.len() == 4 && ".idx"@.last() == 'x',
{
    reveal_strlit(".inv.parquet");
    reveal_strlit(".parquet");
    reveal_strlit(".centroids.parquet");
    reveal_strlit(".mapping.parquet");
    reveal_strlit(".graph_v2.csr.offsets");
    reveal_strlit(".graph_v2.csr.edges");
    reveal_strlit(".hnsw.graph");
    reveal_strlit(".idx");
}

/// A file is known by its ending: inverted indexes, the files beside an index, scalar indexes,
/// the two files of a graph, and vector indexes. Every other Parquet file is data.
pub proof fn law_files_are_known_by_their_endings(base: Seq<char>)
    ensures
        file_kind(base + ".inv.parquet"@) == FileKind::Inverted,
        file_kind(base + ".centroids.parquet"@) == FileKind::Auxiliary,
        file_kind(base + ".mapping.parquet"@) == FileKind::Auxiliary,
        file_kind(base + ".doclen.parquet"@) == FileKind::Auxiliary,
        !text::occurs(base + ".idx"@, ".doclen.parquet"@) ==> file_kind(base + ".idx"@)
            == FileKind::Scalar,
        ({
            let name = base + ".parquet"@;
            !".inv.parquet"@.is_suffix_of(name) && !".centroids.parquet"@.is_suffix_of(name)
                && !".mapping.parquet"@.is_suffix_of(name) && !text::occurs(
                name,
                ".doclen.parquet"@,
            ) ==> file_kind(name) == FileKind::Data
        }),
        ({
            let name = base + ".graph_v2.csr.offsets"@;
            !text::occurs(name, ".idx"@) && !text::occurs(name, ".doclen.parquet"@) ==> file_kind(
                name,
            ) == FileKind::Graph
        }),
        ({
            let name = base + ".graph_v2.csr.edges"@;
            !text::occurs(name, ".idx"@) && !text::occurs(name, ".doclen.parquet"@) ==> file_kind(
                name,
            ) == FileKind::Graph
        }),
        ({
            let name = base + ".hnsw.graph"@;
            !text::occurs(name, ".idx"@) && !text::occurs(name, ".doclen.parquet"@) ==> file_kind(
                name,
            ) == FileKind::Vector
        }),
{
    lemma_endings();
    lemma_suffix(base, ".inv.parquet"@);
    lemma_suffix(base, ".centroids.parquet"@);
    lemma_suffix(base, ".mapping.parquet"@);
    lemma_suffix(base, ".parquet"@);
    lemma_suffix(base, ".graph_v2.csr.offsets"@);
    lemma_suffix(base, ".graph_v2.csr.edges"@);
    lemma_suffix(base, ".hnsw.graph"@);
    lemma_not_inverted(base);
    let n = base.len() as int;
    let d = base + ".doclen.parquet"@;
    assert(d.subrange(n, n + ".doclen.parquet"@.len()) =~= ".doclen.parquet"@);
    assert(text::occurs_at(d, ".doclen.parquet"@, n));
    let x = base + ".idx"@;
    assert(x.subrange(n, n + ".idx"@.len()) =~= ".idx"@);
    assert(text::occurs_at(x, ".idx"@, n));
    lemma_no_parquet(base, ".idx"@);
    lemma_no_parquet(base, ".graph_v2.csr.offsets"@);
    lemma_no_parquet(base, ".graph_v2.csr.edges"@);
    lemma_no_parquet(base, ".hnsw.graph"@);
    lemma_ends_otherwise(base, ".hnsw.graph"@, ".graph_v2.csr.offsets"@);
    lemma_ends_otherwise(base, ".hnsw.graph"@, ".graph_v2.csr.edges"@);
}

proof fn lemma_no_parquet(base: Seq<char>, ending: Seq<char>)
    requires
        ending.len() > 0,
        ending.last() != 't',
    ensures
        !".inv.parquet"@.is_suffix_of(base + ending),
        !".centroids.parquet"@.is_suffix_of(base + ending),
        !".mapping.parquet"@.is_suffix_of(base + ending),
        !".parquet"@.is_suffix_of(base + ending),
{
    lemma_endings();
    lemma_ends_otherwise(base, ending, ".inv.parquet"@);
    lemma_ends_otherwise(base, ending, ".centroids.parquet"@);
    lemma_ends_otherwise(base, ending, ".mapping.parquet"@);
    lemma_ends_otherwise(base, ending, ".parquet"@);
}

proof fn lemma_not_inverted(base: Seq<char>)
    ensures
        !".inv.parquet"@.is_suffix_of(base + ".centroids.parquet"@),
        !".inv.parquet"@.is_suffix_of(base + ".mapping.parquet"@),
        !".inv.parquet"@.is_suffix_of(base + ".doclen.parquet"@),
{
    reveal_strlit(".inv.parquet");
    reveal_strlit(".centroids.parquet");
    reveal_strlit(".mapping.parquet");
    reveal_strlit(".doclen.parquet");
    let i = ".inv.parquet"@;
    let c = base + ".centroids.parquet"@;
    let m = base + ".mapping.parquet"@;
    let d = base + ".doclen.parquet"@;
    if i.is_suffix_of(c) {
        assert(c.skip(c.len() - 12)[3] == i[3]);
        assert(c[c.len() - 9] == 's');
    }
    if i.is_suffix_of(m) {
        assert(m.skip(m.len() - 12)[3] == i[3]);
        assert(m[m.len() - 9] == 'g');
    }
    if i.is_suffix_of(d) {
        assert(d.skip(d.len() - 12)[3] == i[3]);
        assert(d[d.len() - 9] == 'n');
    }
}

/// The inverted index that is written for a column is found again as that column's.
pub proof fn law_inverted_indexes_are_found(
    segment: Seq<char>,
    column: Seq<char>,
    algorithms: Map<Seq<char>, String>,
)
    requires
        !segment.contains('.'),
        !column.contains('.'),
    ensures
        ({
            let name = segment + "."@ + column + ".inv.parquet"@;
            index_of_file(name, algorithms) == Some(
                whole_index(name, "inverted"@, Some(column), None),
            )
        }),
{
    reveal_strlit(".");
    reveal_strlit(".inv.parquet");
    reveal_strlit("inv");
    reveal_strlit("parquet");
    let inv = "inv"@;
    let parquet = "parquet"@;
    let name = segment + "."@ + column + ".inv.parquet"@;
    let a = segment.push('.') + column;
    let b = a.push('.') + inv;
    text::lemma_piece_behind(Seq::empty(), segment, '.');
    text::lemma_piece_behind(segment, column, '.');
    assert(!inv.contains('.'));
    assert(!parquet.contains('.'));
    text::lemma_piece_behind(a, inv, '.');
    text::lemma_piece_behind(b, parquet, '.');
    assert(b.push('.') + parquet =~= name);
    assert(text::pieces(name, '.') =~= seq![segment, column, inv, parquet]);
    law_files_are_known_by_their_endings(segment + "."@ + column);
}

/// The vector index that is written for a column under a name is found again under that name,
/// as that column's and with the algorithm that was recorded for it.
pub proof fn law_vector_indexes_are_found(
    segment: Seq<char>,
    column: Seq<char>,
    id: Seq<char>,
    algorithms: Map<Seq<char>, String>,
)
    requires
        !segment.contains('.'),
        !column.contains('.'),
        !id.contains('.'),
        ({
            let name = segment + "."@ + column + "."@ + id;
            !text::occurs(name + ".hnsw.graph"@, ".idx"@) && !text::occurs(
                name + ".hnsw.graph"@,
                ".doclen.parquet"@,
            ) && !text::occurs(name, ".cluster_"@)
        }),
    ensures
        ({
            let name = segment + "."@ + column + "."@ + id;
            index_of_file(name + ".hnsw.graph"@, algorithms) == Some(
                whole_index(
                    name,
                    "vector"@,
                    Some(column),
                    if algorithms.dom().contains(name) {
                        Some(algorithms[name]@)
                    } else {
                        None
                    },
                ),
            )
        }),
{
    reveal_strlit(".");
    reveal_strlit(".hnsw.graph");
    reveal_strlit("hnsw");
    reveal_strlit("graph");
    let name = segment + "."@ + column + "."@ + id;
    let file = name + ".hnsw.graph"@;
    let a = segment.push('.') + column;
    let b = a.push('.') + id;
    let c = b.push('.') + "hnsw"@;
    text::lemma_piece_behind(Seq::empty(), segment, '.');
    text::lemma_piece_behind(segment, column, '.');
    text::lemma_piece_behind(a, id, '.');
    assert(!"hnsw"@.contains('.'));
    assert(!"graph"@.contains('.'));
    text::lemma_piece_behind(b, "hnsw"@, '.');
    text::lemma_piece_behind(c, "graph"@, '.');
    assert(c.push('.') + "graph"@ =~= file);
    let parts = text::pieces(file, '.');
    assert(parts =~= seq![segment, column, id, "hnsw"@, "graph"@]);
    let three = seq![segment, column, id];
    assert(parts.take(3) =~= three);
    assert(three.drop_last() =~= seq![segment, column]);
    assert(three.drop_last().drop_last() =~= seq![segment]);
    assert(text::joined(seq![segment], "."@) == segment);
    assert(text::joined(seq![segment, column], "."@) == segment + "."@ + column);
    assert(text::joined(three, "."@) == name);
    law_files_are_known_by_their_endings(name);
}

/// What the last chunk of a column tells is what is known of the column, and what is known of
/// other columns stays as it was.
pub proof fn law_the_last_chunk_of_a_column_counts(
    stats: Map<Seq<char>, manifest::StatsView>,
    chunks: Seq<ColumnChunk>,
    i: int,
    column: Seq<char>,
)
    ensures
        0 <= i < chunks.len() && (forall|j: int|
            i < j < chunks.len() ==> (#[trigger] chunks[j]).name@ != chunks[i].name@)
            ==> with_chunks(stats, chunks).dom().contains(chunks[i].name@) && with_chunks(
            stats,
            chunks,
        )[chunks[i].name@] == chunk_stats(chunks[i].statistics),
        (forall|j: int| 0 <= j < chunks.len() ==> (#[trigger] chunks[j]).name@ != column) ==> (
        with_chunks(stats, chunks).dom().contains(column) == stats.dom().contains(column)
            && with_chunks(stats, chunks)[column] == stats[column]),
    decreases chunks.len(),
{
    if chunks.len() > 0 {
        let front = chunks.drop_last();
        let last = chunks.len() - 1;
        assert(chunks[last] == chunks.last());
        law_the_last_chunk_of_a_column_counts(stats, front, i, column);
        if 0 <= i < last && forall|j: int|
            i < j < chunks.len() ==> (#[trigger] chunks[j]).name@ != chunks[i].name@ {
            assert(chunks[last].name@ != chunks[i].name@);
            assert(front[i] == chunks[i]);
            assert forall|j: int| i < j < front.len() implies (#[trigger] front[j]).name@
                != front[i].name@ by {
                assert(front[j] == chunks[j]);
            }
        }
        if forall|j: int| 0 <= j < chunks.len() ==> (#[trigger] chunks[j]).name@ != column {
            assert forall|j: int| 0 <= j < front.len() implies (#[trigger] front[j]).name@
                != column by {
                assert(front[j] == chunks[j]);
            }
        }
    }
}

/// The bounds of a chunk are kept as they are, the lower one as the least value and the upper
/// one as the greatest, and so are its counts as far as they are given.
pub proof fn law_statistics_are_kept(lo: i64, hi: i64, nulls: u64, distinct: u64)
    requires
        nulls <= i64::MAX,
        distinct <= i64::MAX,
    ensures
        ({
            let s = chunk_stats(
                Some(
                    ChunkStatistics {
                        null_count: Some(nulls),
                        distinct_count: Some(distinct),
                        bounds: ChunkBounds::Int64(Some(lo), Some(hi)),
                    },
                ),
            );
            &&& s.min == Some(manifest::ValueView::Int64(lo))
            &&& s.max == Some(manifest::ValueView::Int64(hi))
            &&& s.null_count == nulls
            &&& s.distinct_count == Some(distinct as i64)
        }),
        ({
            let s = chunk_stats(
                Some(
                    ChunkStatistics {
                        null_count: None,
                        distinct_count: None,
                        bounds: ChunkBounds::Int64(Some(lo), None),
                    },
                ),
            );
            &&& s.min == Some(manifest::ValueView::Int64(lo))
            &&& s.max is None
            &&& s.null_count == 0
            &&& s.distinct_count is None
        }),
        i32::MIN <= lo <= hi <= i32::MAX ==> bound_values(
            ChunkBounds::Int32(Some(lo as i32), Some(hi as i32)),
        ) == (
            Some(manifest::ValueView::Int32(lo as i32)),
            Some(manifest::ValueView::Int32(hi as i32)),
        ),
{
}

/// The data file of a segment is the last Parquet file that is no index.
pub proof fn law_the_last_data_file_counts(
    files: Seq<Seq<char>>,
    sizes: Seq<Option<i64>>,
    i: int,
)
    requires
        0 <= i < files.len(),
        file_kind(text::pieces(files[i], '/').last()) == FileKind::Data,
        forall|j: int|
            i < j < files.len() ==> file_kind(text::pieces(#[trigger] files[j], '/').last())
                != FileKind::Data,
    ensures
        data_file_of(files, sizes).0 == text::pieces(files[i], '/').last(),
        sizes[i] matches Some(n) ==> data_file_of(files, sizes).1 == n,
    decreases files.len(),
{
    let front = files.drop_last();
    let last = files.len() - 1;
    assert(files[last] == files.last());
    if i < last {
        assert(file_kind(text::pieces(files[last], '/').last()) != FileKind::Data);
        assert(front[i] == files[i]);
        assert forall|j: int| i < j < front.len() implies file_kind(
            text::pieces(#[trigger] front[j], '/').last(),
        ) != FileKind::Data by {
            assert(front[j] == files[j]);
        }
        law_the_last_data_file_counts(front, sizes, i);
    }
}

/// The length of a document is the number of its tokens in all lists together.
pub proof fn law_document_lengths_add_up(a: Seq<Vec<u32>>, b: Seq<Vec<u32>>, row: u32)
    ensures
        token_count(a + b, row) == token_count(a, row) + token_count(b, row),
        forall|v: Vec<u32>| #[trigger]
            token_count(seq![v], row) == v@.to_multiset().count(row),
    decreases b.len(),
{
    assert forall|v: Vec<u32>| #[trigger]
        token_count(seq![v], row) == v@.to_multiset().count(row) by {
        assert(seq![v].drop_last() =~= Seq::<Vec<u32>>::empty());
        assert(token_count(Seq::<Vec<u32>>::empty(), row) == 0);
        lemma_occurrences_counted(v@, row);
    }
    if b.len() == 0 {
        assert(a + b =~= a);
    } else {
        law_document_lengths_add_up(a, b.drop_last(), row);
        assert((a + b).drop_last() =~= a + b.drop_last());
    }
}

proof fn lemma_occurrences_counted(rows: Seq<u32>, row: u32)
    ensures
        occurrences(rows, row) == rows.to_multiset().count(row),
    decreases rows.len(),
{
    rows.to_multiset_ensures();
    if rows.len() > 0 {
        let front = rows.drop_last();
        lemma_occurrences_counted(front, row);
        front.to_multiset_ensures();
        assert(rows =~= front.push(rows.last()));
        assert(rows.to_multiset() =~= front.to_multiset().insert(rows.last()));
    }
}

/// A delta is the distance from one row to the next, and the first one is the first row.
pub proof fn law_deltas_are_distances(deltas: Seq<u32>, i: int)
    requires
        0 <= i < deltas.len(),
    ensures
        running_sums(deltas).len() == deltas.len(),
        i == 0 ==> running_sums(deltas)[0] == deltas[0],
        i > 0 ==> running_sums(deltas)[i] - running_sums(deltas)[i - 1] == deltas[i],
    decreases deltas.len(),
{
    let front = deltas.drop_last();
    lemma_sums_len(front);
    if i < front.len() {
        law_deltas_are_distances(front, i);
        assert(front[i] == deltas[i]);
    }
}

proof fn lemma_sums_len(deltas: Seq<u32>)
    ensures
        running_sums(deltas).len() == deltas.len(),
    decreases deltas.len(),
{
    if deltas.len() > 0 {
        lemma_sums_len(deltas.drop_last());
    }
}

/// The data of a segment lies in its directory under the name of the segment, with or without
/// the scheme of local files; only another scheme makes the directory remote.
pub proof fn law_data_lies_in_the_directory(base: Seq<char>, segment: Seq<char>)
    requires
        base.len() > 0,
        !"file://"@.is_prefix_of(base),
    ensures
        local_data_path(base, segment) == base + "/"@ + segment + ".parquet"@,
        local_data_path("file://"@ + base, segment) == base + "/"@ + segment + ".parquet"@,
        local_data_path(Seq::empty(), segment) == segment + ".parquet"@,
        !is_remote_path("file://"@ + base),
        !text::occurs(base, "://"@) ==> !is_remote_path(base),
        text::occurs(base, "://"@) ==> is_remote_path(base),
{
    let f = "file://"@;
    let whole = f + base;
    assert(whole.subrange(0, f.len() as int) =~= f);
    assert(whole.skip(f.len() as int) =~= base);
    reveal_strlit("file://");
    assert(!f.is_prefix_of(Seq::<char>::empty()));
}

/// A local file goes to the directory of the table under its own name, with one slash before
/// it.
pub proof fn law_files_keep_their_names(base: Seq<char>, directory: Seq<char>, name: Seq<char>)
    requires
        !name.contains('/'),
        base.len() > 0,
        base.last() != '/',
    ensures
        remote_path_of(base, directory + "/"@ + name) == base + "/"@ + name,
        text::occurs(base, "://"@) ==> remote_path_of(base + "/"@, directory + "/"@ + name) == base
            + "/"@ + name,
        directory_of(Some(directory + "/"@ + name)) == directory + "/"@,
        directory_of(None) == Seq::<char>::empty(),
{
    reveal_strlit("/");
    let local = directory + "/"@ + name;
    text::lemma_piece_behind(directory, name, '/');
    assert(directory.push('/') + name =~= local);
    assert(text::pieces(local, '/').last() == name);
    assert(local.take(local.len() - name.len()) =~= directory + "/"@);
    if text::occurs(base, "://"@) {
        let i = choose|i: int| text::occurs_at(base, "://"@, i);
        let longer = base + "/"@;
        assert(longer.subrange(i, i + "://"@.len()) =~= base.subrange(i, i + "://"@.len()));
        assert(text::occurs_at(longer, "://"@, i));
    }
    assert((base + "/"@).last() == '/');
}

/// What is configured for a column counts before what the segment says of all columns.
pub proof fn law_columns_have_their_own_settings(w: HybridSegmentWriter, column: Seq<char>)
    ensures
        w.index_configs@.dom().contains(column) ==> w.own_algorithms(column)
            == w.index_configs@[column].algorithms@,
        !w.index_configs@.dom().contains(column) && w.config.column_algorithms@.dom().contains(
            column,
        ) ==> w.own_algorithms(column) == w.config.column_algorithms@[column]@,
        w.config.column_devices@.dom().contains(column) ==> w.device_of(column) == Some(
            w.config.column_devices@[column],
        ),
        !w.config.column_devices@.dom().contains(column) ==> w.device_of(column)
            == w.config.default_device,
{
}

/// All columns are indexed where that is asked for. Else those are that hold vectors, belong
/// to the key or are listed, and, where it is not done with each batch, those that are enabled.
pub proof fn law_columns_are_indexed_where_asked(
    w: HybridSegmentWriter,
    column: Seq<char>,
    is_vector: bool,
)
    ensures
        w.config.index_all ==> w.wants_in_batch(column, is_vector) && w.wants(column, is_vector),
        w.wants_in_batch(column, true),
        text::texts(w.primary_key@).contains(column) ==> w.wants_in_batch(column, is_vector),
        w.config.columns_to_index matches Some(list) ==> (text::texts(list@).contains(column)
            ==> w.wants_in_batch(column, is_vector)),
        w.wants_in_batch(column, is_vector) ==> w.wants(column, is_vector),
        w.index_configs@.dom().contains(column) && w.index_configs@[column].enabled ==> w.wants(
            column,
            is_vector,
        ),
        !w.config.index_all && !is_vector && !text::texts(w.primary_key@).contains(column)
            && w.config.columns_to_index is None ==> !w.wants_in_batch(column, is_vector),
        !w.wants_in_batch(column, is_vector) && w.wants(column, is_vector)
            ==> w.index_configs@.dom().contains(column) && w.index_configs@[column].enabled,
{
}

/// A device is opened anew unless the one that is open is the one that is wanted, or any will
/// do and it can be used.
pub proof fn law_open_devices_are_used_again(device: Seq<char>, name: &str, available: bool)
    ensures
        needs_context(device, None),
        name@ == device ==> !needs_context(device, Some((name, available))),
        !needs_context("auto"@, Some((name, true))),
        name@ != device && device != "auto"@ ==> needs_context(device, Some((name, available))),
        name@ != device && !available ==> needs_context(device, Some((name, available))),
{
}

} // verus!
