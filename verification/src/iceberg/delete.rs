//! Position and equality delete files.

use roaring::RoaringBitmap;
use std::collections::HashSet;
use vstd::prelude::*;
use vstd::string::*;

use crate::avro::{
    all_accepted, all_moderate, append_steps, assemble, avro_accepts, avro_bytes_out, avro_debug,
    avro_header_reads, avro_holds, avro_read, avro_schema_parses, avro_tree, check_header,
    check_schema, copy_value, debug_text, disassemble, field_trees, has_form, have_form, is_leaf,
    is_own_schema, is_own_shape, lemma_record_tree, position_record, position_shape, put,
    read_values, reads_as, reads_back, sum_of, tree_bytes, trees, write_file, AvroFailure,
    AvroParts, AvroShape, AvroStep, AvroTree, AvroValue, MAX_RECORD_BYTES, POSITION_DELETE_SCHEMA,
};
use crate::avro_schema::{can_be_opened, has_plain_name, is_plain_name, is_readable};
use crate::bitmap::{bitmap_insert, bitmap_ordered, bitmap_set, empty_bitmap};
use crate::manifest::{
    field_with_id, DeleteContent, DeleteFile, PartitionValue, SchemaField, TableSchema,
};
use crate::text;

verus! {

broadcast use vstd::std_specs::hash::group_hash_axioms;

// ---------------------------------------------------------------------------
// Position deletes: what a file says
// ---------------------------------------------------------------------------

/// The deleted positions of each data file that a delete file names.
///
/// No data file is listed twice.
#[derive(Debug)]
pub struct DeleteMap {
    pub files: Vec<(String, HashSet<i64>)>,
}

/// The list holds `path` at position `i`.
pub open spec fn lists_at(files: Seq<(String, HashSet<i64>)>, path: Seq<char>, i: int) -> bool {
    0 <= i < files.len() && files[i].0@ == path
}

impl DeleteMap {
    /// No data file is listed twice.
    pub open spec fn wf(self) -> bool {
        forall|i: int, j: int|
            #![trigger self.files@[i], self.files@[j]]
            0 <= i < j < self.files@.len() ==> self.files@[i].0@ != self.files@[j].0@
    }

    /// The positions by data file.
    pub open spec fn view(self) -> Map<Seq<char>, Set<i64>> {
        Map::new(
            |p: Seq<char>| exists|i: int| lists_at(self.files@, p, i),
            |p: Seq<char>| self.files@[choose|i: int| lists_at(self.files@, p, i)].1@,
        )
    }

    proof fn lemma_listed(self, path: Seq<char>, i: int)
        requires
            self.wf(),
            lists_at(self.files@, path, i),
        ensures
            self@.dom().contains(path),
            self@[path] == self.files@[i].1@,
    {
        let j = choose|j: int| lists_at(self.files@, path, j);
        if i < j {
            assert(self.files@[i].0@ != self.files@[j].0@);
        } else if j < i {
            assert(self.files@[j].0@ != self.files@[i].0@);
        }
    }

    /// No deletes.
    pub fn new() -> (r: Self)
        ensures
            r.wf(),
            r@ == Map::<Seq<char>, Set<i64>>::empty(),
    {
        let r: DeleteMap = DeleteMap { files: Vec::new() };
        assert(r@ =~= Map::<Seq<char>, Set<i64>>::empty());
        r
    }

    /// Adds a deleted position of a data file.
    pub fn insert(&mut self, path: String, pos: i64)
        requires
            old(self).wf(),
        ensures
            final(self).wf(),
            final(self)@ == with_position(old(self)@, path@, pos),
    {
        let ghost before = *self;
        let mut i: usize = 0;
        while i < self.files.len()
            invariant
                before == *self,
                before == *old(self),
                self.wf(),
                i <= self.files.len(),
                forall|k: int| 0 <= k < i ==> (#[trigger] self.files@[k]).0@ != path@,
            decreases self.files.len() - i,
        {
            if text::same(self.files[i].0.as_str(), path.as_str()) {
                self.files[i].1.insert(pos);
                proof {
                    assert(lists_at(before.files@, path@, i as int));
                    assert(lists_at(self.files@, path@, i as int));
                    assert(forall|k: int|
                        0 <= k < self.files@.len() ==> (#[trigger] self.files@[k]).0@
                            == before.files@[k].0@);
                    assert forall|p: Seq<char>| self@.dom().contains(p) <==> before@.dom().contains(
                        p,
                    ) by {
                        if self@.dom().contains(p) {
                            let k = choose|k: int| lists_at(self.files@, p, k);
                            assert(lists_at(before.files@, p, k));
                        }
                        if before@.dom().contains(p) {
                            let k = choose|k: int| lists_at(before.files@, p, k);
                            assert(lists_at(self.files@, p, k));
                        }
                    }
                    assert forall|p: Seq<char>| self@.dom().contains(p) implies self@[p]
                        == with_position(before@, path@, pos)[p] by {
                        let k = choose|k: int| lists_at(self.files@, p, k);
                        self.lemma_listed(p, k);
                        before.lemma_listed(p, k);
                        if k == i {
                            assert(self.files@[k].1@ =~= before.files@[k].1@.insert(pos));
                        }
                    }
                    assert(self@ =~= with_position(before@, path@, pos));
                }
                return ;
            }
            i = i + 1;
        }
        let mut set: HashSet<i64> = HashSet::new();
        set.insert(pos);
        self.files.push((path, set));
        proof {
            let n = before.files@.len() as int;
            assert(lists_at(self.files@, path@, n));
            assert(!before@.dom().contains(path@));
            assert forall|p: Seq<char>| p != path@ implies (self@.dom().contains(p)
                <==> before@.dom().contains(p)) by {
                if self@.dom().contains(p) {
                    let k = choose|k: int| lists_at(self.files@, p, k);
                    assert(lists_at(before.files@, p, k));
                }
                if before@.dom().contains(p) {
                    let k = choose|k: int| lists_at(before.files@, p, k);
                    assert(lists_at(self.files@, p, k));
                }
            }
            assert(set@ =~= set![pos]);
            assert forall|p: Seq<char>| self@.dom().contains(p) implies self@[p]
                == with_position(before@, path@, pos)[p] by {
                let k = choose|k: int| lists_at(self.files@, p, k);
                self.lemma_listed(p, k);
                if k < n {
                    before.lemma_listed(p, k);
                }
            }
            assert(self@ =~= with_position(before@, path@, pos));
        }
    }
}

/// The map with one more deleted position.
pub open spec fn with_position(m: Map<Seq<char>, Set<i64>>, path: Seq<char>, pos: i64) -> Map<
    Seq<char>,
    Set<i64>,
> {
    m.insert(
        path,
        if m.dom().contains(path) {
            m[path].insert(pos)
        } else {
            set![pos]
        },
    )
}

/// The deleted positions of each data file in a list of pairs.
pub open spec fn positions_of(pairs: Seq<(Seq<char>, i64)>) -> Map<Seq<char>, Set<i64>>
    decreases pairs.len(),
{
    if pairs.len() == 0 {
        Map::empty()
    } else {
        with_position(positions_of(pairs.drop_last()), pairs.last().0, pairs.last().1)
    }
}

/// The last text that the fields hold under `name`.
pub open spec fn last_text(fields: Seq<(Seq<char>, AvroTree)>, name: Seq<char>) -> Option<Seq<char>>
    decreases fields.len(),
{
    if fields.len() == 0 {
        None
    } else {
        match fields.last().1 {
            AvroTree::Text(s) => if fields.last().0 == name {
                Some(s)
            } else {
                last_text(fields.drop_last(), name)
            },
            _ => last_text(fields.drop_last(), name),
        }
    }
}

/// The last long that the fields hold under `name`.
pub open spec fn last_long(fields: Seq<(Seq<char>, AvroTree)>, name: Seq<char>) -> Option<i64>
    decreases fields.len(),
{
    if fields.len() == 0 {
        None
    } else {
        match fields.last().1 {
            AvroTree::Long(n) => if fields.last().0 == name {
                Some(n)
            } else {
                last_long(fields.drop_last(), name)
            },
            _ => last_long(fields.drop_last(), name),
        }
    }
}

/// The deleted position that a record describes.
pub open spec fn position_in(t: AvroTree) -> Option<(Seq<char>, i64)> {
    match t {
        AvroTree::Record(fields) => match (
            last_text(fields, "file_path"@),
            last_long(fields, "pos"@),
        ) {
            (Some(path), Some(pos)) => Some((path, pos)),
            _ => None,
        },
        _ => None,
    }
}

/// The deleted positions that a list of records describes.
pub open spec fn positions_in(ts: Seq<AvroTree>) -> Seq<(Seq<char>, i64)>
    decreases ts.len(),
{
    if ts.len() == 0 {
        Seq::empty()
    } else {
        match position_in(ts.last()) {
            Some(p) => positions_in(ts.drop_last()).push(p),
            None => positions_in(ts.drop_last()),
        }
    }
}

/// Reads the position that a record describes.
fn read_position(v: apache_avro::types::Value) -> (r: Option<(String, i64)>)
    ensures
        match r {
            Some((path, pos)) => position_in(avro_tree(v)) == Some((path@, pos)),
            None => position_in(avro_tree(v)) is None,
        },
{
    let fields: Vec<(String, apache_avro::types::Value)> = match disassemble(v) {
        AvroParts::Record(fields) => fields,
        _ => {
            return None;
        },
    };
    let ghost all = fields@;
    let ghost ts = all.map_values(|f: (String, apache_avro::types::Value)| (f.0@, avro_tree(f.1)));
    assert(avro_tree(v) == AvroTree::Record(ts));
    let mut path: Option<String> = None;
    let mut pos: Option<i64> = None;
    assert(ts.take(0) =~= Seq::empty());
    for field in it: fields
        invariant
            it.seq() == all,
            ts == all.map_values(
                |f: (String, apache_avro::types::Value)| (f.0@, avro_tree(f.1)),
            ),
            match path {
                Some(s) => last_text(ts.take(it.index() as int), "file_path"@) == Some(s@),
                None => last_text(ts.take(it.index() as int), "file_path"@) is None,
            },
            pos == last_long(ts.take(it.index() as int), "pos"@),
    {
        let ghost k = it.index() as int;
        let (name, value) = field;
        proof {
            assert(ts.take(k + 1).drop_last() =~= ts.take(k));
            assert(ts.take(k + 1).last() == (name@, avro_tree(value)));
            reveal_strlit("file_path");
            reveal_strlit("pos");
            assert("file_path"@.len() != "pos"@.len());
        }
        match disassemble(value) {
            AvroParts::Text(s) => {
                if text::same(name.as_str(), "file_path") {
                    path = Some(s);
                }
            },
            AvroParts::Long(n) => {
                if text::same(name.as_str(), "pos") {
                    pos = Some(n);
                }
            },
            _ => {},
        }
    }
    assert(ts.take(ts.len() as int) =~= ts);
    match (path, pos) {
        (Some(path), Some(pos)) => Some((path, pos)),
        _ => None,
    }
}

/// A column of a position delete file is not of its type.
#[derive(Clone, Copy, Debug, PartialEq, Eq, Structural)]
pub enum ColumnMismatch {
    FilePath,
    Position,
}

impl ColumnMismatch {
    /// The message of the error.
    pub fn message(&self) -> (r: String)
        ensures
            r@ == match *self {
                ColumnMismatch::FilePath => "file_path column is not string"@,
                ColumnMismatch::Position => "pos column is not int64"@,
            },
    {
        match self {
            ColumnMismatch::FilePath => "file_path column is not string".to_owned(),
            ColumnMismatch::Position => "pos column is not int64".to_owned(),
        }
    }
}

/// All columns of a batch have the same number of rows.
pub open spec fn rows_agree(columns: Seq<(String, ColumnData)>) -> bool {
    forall|i: int, j: int|
        #![trigger columns[i], columns[j]]
        0 <= i < columns.len() && 0 <= j < columns.len() ==> columns[i].1.rows()
            == columns[j].1.rows()
}

/// The paths and positions of rows. A missing path is empty, and a missing position
/// zero.
pub open spec fn pairs_of(paths: Seq<Option<String>>, positions: Seq<Option<i64>>) -> Seq<
    (Seq<char>, i64),
> {
    Seq::new(
        paths.len(),
        |i: int|
            (
                match paths[i] {
                    Some(s) => s@,
                    None => Seq::empty(),
                },
                match positions[i] {
                    Some(n) => n,
                    None => 0,
                },
            ),
    )
}

/// What is wrong with the two columns of a batch that has both.
pub open spec fn mismatch(columns: Seq<(String, ColumnData)>) -> Option<ColumnMismatch> {
    match (column_named(columns, "file_path"@), column_named(columns, "pos"@)) {
        (Some(paths), Some(positions)) => if !(paths is Utf8) {
            Some(ColumnMismatch::FilePath)
        } else if !(positions is Int64) {
            Some(ColumnMismatch::Position)
        } else {
            None
        },
        _ => None,
    }
}

/// What is wrong with the first batch that something is wrong with.
pub open spec fn first_mismatch(batches: Seq<Vec<(String, ColumnData)>>) -> Option<ColumnMismatch>
    decreases batches.len(),
{
    if batches.len() == 0 {
        None
    } else {
        match first_mismatch(batches.drop_last()) {
            Some(e) => Some(e),
            None => mismatch(batches.last()@),
        }
    }
}

/// The pairs that a batch lists; none where it lacks one of the two columns.
pub open spec fn batch_pairs(columns: Seq<(String, ColumnData)>) -> Seq<(Seq<char>, i64)> {
    match (column_named(columns, "file_path"@), column_named(columns, "pos"@)) {
        (Some(ColumnData::Utf8(paths)), Some(ColumnData::Int64(positions))) => pairs_of(
            paths@,
            positions@,
        ),
        _ => Seq::empty(),
    }
}

/// The pairs that batches list.
pub open spec fn pairs_in(batches: Seq<Vec<(String, ColumnData)>>) -> Seq<(Seq<char>, i64)>
    decreases batches.len(),
{
    if batches.len() == 0 {
        Seq::empty()
    } else {
        pairs_in(batches.drop_last()) + batch_pairs(batches.last()@)
    }
}

/// What is wrong with the first batch that is not in order is wrong with all of them.
proof fn lemma_first_mismatch(batches: Seq<Vec<(String, ColumnData)>>, n: int, m: int)
    requires
        0 <= n < m <= batches.len(),
        first_mismatch(batches.take(n)) is None,
        mismatch(batches[n]@) is Some,
    ensures
        first_mismatch(batches.take(m)) == mismatch(batches[n]@),
    decreases m,
{
    assert(batches.take(m).drop_last() =~= batches.take(m - 1));
    if n < m - 1 {
        lemma_first_mismatch(batches, n, m - 1);
    }
}

proof fn lemma_named_rows(columns: Seq<(String, ColumnData)>, a: Seq<char>, b: Seq<char>)
    requires
        rows_agree(columns),
        column_named(columns, a) is Some,
        column_named(columns, b) is Some,
    ensures
        column_named(columns, a)->0.rows() == column_named(columns, b)->0.rows(),
{
    let rows = columns[0].1.rows();
    assert(columns.len() > 0);
    assert forall|k: int| 0 <= k < columns.len() implies (#[trigger] columns[k]).1.rows()
        == rows by {
        assert(columns[0].1.rows() == columns[k].1.rows());
    }
    lemma_column_rows(columns, a, rows);
    lemma_column_rows(columns, b, rows);
}

/// Reads and filters position delete files.
#[derive(Debug)]
pub struct PositionDeleteReader;

impl PositionDeleteReader {
    pub fn new() -> (r: Self)
        ensures
            r == PositionDeleteReader,
    {
        PositionDeleteReader
    }

    /// The deletes of an Avro position delete file.
    pub fn read_deletes_avro_static(bytes: &[u8]) -> (r: Result<DeleteMap, AvroFailure>)
        ensures
            match r {
                Ok(m) => is_readable(bytes@) && m.wf() && avro_read(bytes@) is Some && m@
                    == positions_of(
                    positions_in(avro_read(bytes@)->0),
                ),
                Err(AvroFailure::Header) => !is_readable(bytes@),
                Err(AvroFailure::Read(_)) => is_readable(bytes@) && avro_read(bytes@) is None,
                Err(_) => false,
            },
    {
        if !can_be_opened(bytes) {
            return Err(AvroFailure::Header);
        }
        let values: Vec<apache_avro::types::Value> = match read_values(bytes) {
            Ok(values) => values,
            Err(e) => {
                return Err(AvroFailure::Read(e));
            },
        };
        let ghost all = values@;
        let ghost ts = all.map_values(|v: apache_avro::types::Value| avro_tree(v));
        let mut m: DeleteMap = DeleteMap::new();
        assert(ts.take(0) =~= Seq::empty());
        for value in it: values
            invariant
                it.seq() == all,
                ts == all.map_values(|v: apache_avro::types::Value| avro_tree(v)),
                m.wf(),
                m@ == positions_of(positions_in(ts.take(it.index() as int))),
        {
            let ghost k = it.index() as int;
            proof {
                assert(ts.take(k + 1).drop_last() =~= ts.take(k));
                assert(ts.take(k + 1).last() == avro_tree(value));
            }
            match read_position(value) {
                Some((path, pos)) => {
                    proof {
                        let before = positions_in(ts.take(k));
                        assert(before.push((path@, pos)).drop_last() =~= before);
                    }
                    m.insert(path, pos);
                },
                None => {},
            }
        }
        assert(ts.take(ts.len() as int) =~= ts);
        Ok(m)
    }

    /// The deletes of a position delete file in batches of columns. A batch without one
    /// of the two columns is passed over; in the others the columns have to be of texts
    /// and of 64-bit numbers.
    pub fn read_deletes_batches(batches: &Vec<Vec<(String, ColumnData)>>) -> (r: Result<
        DeleteMap,
        ColumnMismatch,
    >)
        requires
            forall|b: int| 0 <= b < batches.len() ==> rows_agree((#[trigger] batches@[b])@),
        ensures
            match r {
                Ok(m) => {
                    &&& forall|b: int|
                        0 <= b < batches.len() ==> mismatch((#[trigger] batches@[b])@) is None
                    &&& m.wf()
                    &&& m@ == positions_of(pairs_in(batches@))
                },
                Err(e) => first_mismatch(batches@) == Some(e),
            },
    {
        let mut m: DeleteMap = DeleteMap::new();
        let mut b: usize = 0;
        assert(batches@.take(0) =~= Seq::empty());
        while b < batches.len()
            invariant
                b <= batches.len(),
                forall|k: int| 0 <= k < batches.len() ==> rows_agree((#[trigger] batches@[k])@),
                forall|k: int| 0 <= k < b ==> mismatch((#[trigger] batches@[k])@) is None,
                first_mismatch(batches@.take(b as int)) is None,
                m.wf(),
                m@ == positions_of(pairs_in(batches@.take(b as int))),
            decreases batches.len() - b,
        {
            let batch: &Vec<(String, ColumnData)> = &batches[b];
            let ghost before = pairs_in(batches@.take(b as int));
            proof {
                assert(batches@.take(b + 1).drop_last() =~= batches@.take(b as int));
                assert(rows_agree(batches@[b as int]@));
                if mismatch(batches@[b as int]@) is Some {
                    lemma_first_mismatch(batches@, b as int, batches.len() as int);
                    assert(batches@.take(batches.len() as int) =~= batches@);
                }
            }
            match (find_column(batch, "file_path"), find_column(batch, "pos")) {
                (Some(paths), Some(positions)) => {
                    let paths: &Vec<Option<String>> = match paths {
                        ColumnData::Utf8(v) => v,
                        _ => {
                            return Err(ColumnMismatch::FilePath);
                        },
                    };
                    let positions: &Vec<Option<i64>> = match positions {
                        ColumnData::Int64(v) => v,
                        _ => {
                            return Err(ColumnMismatch::Position);
                        },
                    };
                    let ghost pairs = pairs_of(paths@, positions@);
                    proof {
                        lemma_named_rows(batch@, "file_path"@, "pos"@);
                    }
                    let mut i: usize = 0;
                    assert(before + pairs.take(0) =~= before);
                    while i < paths.len()
                        invariant
                            i <= paths.len(),
                            paths.len() == positions.len(),
                            pairs == pairs_of(paths@, positions@),
                            m.wf(),
                            m@ == positions_of(before + pairs.take(i as int)),
                        decreases paths.len() - i,
                    {
                        let path: String = match &paths[i] {
                            Some(s) => s.clone(),
                            None => "".to_owned(),
                        };
                        let pos: i64 = match positions[i] {
                            Some(n) => n,
                            None => 0,
                        };
                        proof {
                            reveal_strlit("");
                            assert(pairs[i as int].0 =~= path@);
                            let now = before + pairs.take(i + 1);
                            assert(now.drop_last() =~= before + pairs.take(i as int));
                            assert(now.last() == (path@, pos));
                        }
                        m.insert(path, pos);
                        i = i + 1;
                    }
                    assert(pairs.take(i as int) =~= pairs);
                },
                _ => {},
            }
            assert(before + Seq::<(Seq<char>, i64)>::empty() =~= before);
            b = b + 1;
        }
        assert(batches@.take(b as int) =~= batches@);
        Ok(m)
    }

    /// The deleted positions of one data file, as a bitmap.
    ///
    /// Positions outside the range of a row number are left out.
    pub fn filter_map_to_bitmap(full_map: &DeleteMap, target_data_file_path: &str) -> (r:
        RoaringBitmap)
        requires
            full_map.wf(),
        ensures
            bitmap_ordered(r),
            bitmap_set(r) == rows_deleted(full_map@, target_data_file_path@),
    {
        let target: String = without_file_scheme(target_data_file_path);
        let mut bm: RoaringBitmap = empty_bitmap();
        let ghost done = full_map.files@;
        let mut i: usize = 0;
        while i < full_map.files.len()
            invariant
                full_map.wf(),
                target@ == clean_path(target_data_file_path@),
                i <= full_map.files.len(),
                bitmap_ordered(bm),
                forall|x: u32| #[trigger]
                    bitmap_set(bm).contains(x) <==> exists|k: int|
                        #![trigger full_map.files@[k]]
                        0 <= k < i && paths_match(
                            full_map.files@[k].0@,
                            target_data_file_path@,
                        ) && full_map.files@[k].1@.contains(x as i64),
            decreases full_map.files.len() - i,
        {
            let ghost before = bitmap_set(bm);
            let name: String = without_file_scheme(full_map.files[i].0.as_str());
            if text::same(name.as_str(), target.as_str()) || text::ends_with(
                target.as_str(),
                name.as_str(),
            ) || text::ends_with(name.as_str(), target.as_str()) {
                add_rows(&mut bm, &full_map.files[i].1);
            }
            proof {
                assert forall|x: u32| #[trigger] bitmap_set(bm).contains(x) <==> exists|k: int|
                    #![trigger full_map.files@[k]]
                    0 <= k < i + 1 && paths_match(full_map.files@[k].0@, target_data_file_path@)
                        && full_map.files@[k].1@.contains(x as i64) by {
                    if bitmap_set(bm).contains(x) {
                        if before.contains(x) {
                            let k = choose|k: int|
                                #![trigger full_map.files@[k]]
                                0 <= k < i && paths_match(
                                    full_map.files@[k].0@,
                                    target_data_file_path@,
                                ) && full_map.files@[k].1@.contains(x as i64);
                            assert(full_map.files@[k].1@.contains(x as i64));
                        } else {
                            assert(full_map.files@[i as int].1@.contains(x as i64));
                        }
                    }
                }
            }
            i = i + 1;
        }
        proof {
            let target_path = target_data_file_path@;
            assert forall|x: u32| bitmap_set(bm).contains(x) <==> rows_deleted(
                full_map@,
                target_path,
            ).contains(x) by {
                if bitmap_set(bm).contains(x) {
                    let k = choose|k: int|
                        #![trigger full_map.files@[k]]
                        0 <= k < full_map.files@.len() && paths_match(
                            full_map.files@[k].0@,
                            target_path,
                        ) && full_map.files@[k].1@.contains(x as i64);
                    let p = full_map.files@[k].0@;
                    assert(lists_at(full_map.files@, p, k));
                    assert(full_map@.dom().contains(p));
                    assert(full_map@[p].contains(x as i64));
                }
                if rows_deleted(full_map@, target_path).contains(x) {
                    let p = choose|p: Seq<char>| #[trigger]
                        full_map@.dom().contains(p) && paths_match(p, target_path)
                            && full_map@[p].contains(x as i64);
                    let k = choose|k: int| lists_at(full_map.files@, p, k);
                    assert(full_map.files@[k].1@.contains(x as i64));
                }
            }
            assert(bitmap_set(bm) =~= rows_deleted(full_map@, target_path));
        }
        bm
    }

    /// The deleted positions of one data file.
    pub fn read_deletes(full_map: &DeleteMap, target_data_file_path: &str) -> (r: HashSet<i64>)
        requires
            full_map.wf(),
        ensures
            r@ == positions_deleted(full_map@, target_data_file_path@),
    {
        let target: String = without_file_scheme(target_data_file_path);
        let mut deleted: HashSet<i64> = HashSet::new();
        let mut i: usize = 0;
        while i < full_map.files.len()
            invariant
                full_map.wf(),
                target@ == clean_path(target_data_file_path@),
                i <= full_map.files.len(),
                forall|x: i64| #[trigger]
                    deleted@.contains(x) <==> exists|k: int|
                        #![trigger full_map.files@[k]]
                        0 <= k < i && paths_match(
                            full_map.files@[k].0@,
                            target_data_file_path@,
                        ) && full_map.files@[k].1@.contains(x),
            decreases full_map.files.len() - i,
        {
            let ghost before = deleted@;
            let name: String = without_file_scheme(full_map.files[i].0.as_str());
            if text::same(name.as_str(), target.as_str()) || text::ends_with(
                target.as_str(),
                name.as_str(),
            ) || text::ends_with(name.as_str(), target.as_str()) {
                add_all(&mut deleted, &full_map.files[i].1);
            }
            proof {
                assert forall|x: i64| #[trigger] deleted@.contains(x) <==> exists|k: int|
                    #![trigger full_map.files@[k]]
                    0 <= k < i + 1 && paths_match(full_map.files@[k].0@, target_data_file_path@)
                        && full_map.files@[k].1@.contains(x) by {
                    if deleted@.contains(x) {
                        if before.contains(x) {
                            let k = choose|k: int|
                                #![trigger full_map.files@[k]]
                                0 <= k < i && paths_match(
                                    full_map.files@[k].0@,
                                    target_data_file_path@,
                                ) && full_map.files@[k].1@.contains(x);
                            assert(full_map.files@[k].1@.contains(x));
                        } else {
                            assert(full_map.files@[i as int].1@.contains(x));
                        }
                    }
                }
            }
            i = i + 1;
        }
        proof {
            let target_path = target_data_file_path@;
            assert forall|x: i64| deleted@.contains(x) <==> positions_deleted(
                full_map@,
                target_path,
            ).contains(x) by {
                if deleted@.contains(x) {
                    let k = choose|k: int|
                        #![trigger full_map.files@[k]]
                        0 <= k < full_map.files@.len() && paths_match(
                            full_map.files@[k].0@,
                            target_path,
                        ) && full_map.files@[k].1@.contains(x);
                    let p = full_map.files@[k].0@;
                    assert(lists_at(full_map.files@, p, k));
                    assert(full_map@.dom().contains(p));
                    assert(full_map@[p].contains(x));
                }
                if positions_deleted(full_map@, target_path).contains(x) {
                    let p = choose|p: Seq<char>| #[trigger]
                        full_map@.dom().contains(p) && paths_match(p, target_path)
                            && full_map@[p].contains(x);
                    let k = choose|k: int| lists_at(full_map.files@, p, k);
                    assert(full_map.files@[k].1@.contains(x));
                }
            }
            assert(deleted@ =~= positions_deleted(full_map@, target_path));
        }
        deleted
    }
}

/// The rows of a position delete file in columns, as pairs.
pub open spec fn position_pairs(paths: Seq<String>, positions: Seq<i64>) -> Seq<(Seq<char>, i64)> {
    Seq::new(paths.len(), |i: int| (paths[i]@, positions[i]))
}

/// A path without a `file://` in front.
pub open spec fn clean_path(path: Seq<char>) -> Seq<char> {
    if "file://"@.is_prefix_of(path) {
        path.skip("file://"@.len() as int)
    } else {
        path
    }
}

/// Two paths name the same file: they are equal, or one ends with the other.
pub open spec fn paths_match(listed: Seq<char>, target: Seq<char>) -> bool {
    let a = clean_path(listed);
    let b = clean_path(target);
    a == b || a.is_suffix_of(b) || b.is_suffix_of(a)
}

/// The positions that a delete file deletes of the target data file.
pub open spec fn positions_deleted(m: Map<Seq<char>, Set<i64>>, target: Seq<char>) -> Set<i64> {
    Set::new(
        |x: i64|
            exists|p: Seq<char>| #[trigger]
                m.dom().contains(p) && paths_match(p, target) && m[p].contains(x),
    )
}

/// The positions that are row numbers.
pub open spec fn rows_deleted(m: Map<Seq<char>, Set<i64>>, target: Seq<char>) -> Set<u32> {
    Set::new(
        |x: u32|
            exists|p: Seq<char>| #[trigger]
                m.dom().contains(p) && paths_match(p, target) && m[p].contains(x as i64),
    )
}

/// A path without a `file://` in front.
pub fn without_file_scheme(path: &str) -> (r: String)
    ensures
        r@ == clean_path(path@),
{
    match text::strip_prefix(path, "file://") {
        Some(rest) => rest,
        None => path.to_owned(),
    }
}

/// Adds the positions that are row numbers to a bitmap.
pub fn add_rows(bm: &mut RoaringBitmap, positions: &HashSet<i64>)
    requires
        bitmap_ordered(*old(bm)),
    ensures
        bitmap_ordered(*final(bm)),
        forall|x: u32| #[trigger]
            bitmap_set(*final(bm)).contains(x) <==> bitmap_set(*old(bm)).contains(x)
                || positions@.contains(x as i64),
{
    let ghost start = bitmap_set(*bm);
    for p in it: positions.iter()
        invariant
            bitmap_ordered(*bm),
            it.seq().unref().to_set() == positions@,
            forall|x: u32| #[trigger]
                bitmap_set(*bm).contains(x) <==> start.contains(x) || listed_before(
                    it.seq().unref(),
                    it.index() as int,
                    x as i64,
                ),
    {
        let ghost keys = it.seq().unref();
        let ghost k = it.index() as int;
        let pos: i64 = *p;
        assert(keys[k] == pos);
        if pos >= 0 && pos <= 0xffff_ffff {
            bitmap_insert(bm, pos as u32);
        }
        proof {
            assert forall|x: u32| #[trigger] bitmap_set(*bm).contains(x) <==> start.contains(x)
                || listed_before(keys, k + 1, x as i64) by {
                lemma_listed_before(keys, k, x as i64);
            }
        }
    }
}

/// `x` stands among the first `n` keys.
spec fn listed_before(keys: Seq<i64>, n: int, x: i64) -> bool {
    exists|j: int| 0 <= j < n && j < keys.len() && #[trigger] keys[j] == x
}

proof fn lemma_listed_before(keys: Seq<i64>, n: int, x: i64)
    requires
        0 <= n < keys.len(),
    ensures
        listed_before(keys, n + 1, x) <==> listed_before(keys, n, x) || keys[n] == x,
{
}

fn add_all(set: &mut HashSet<i64>, positions: &HashSet<i64>)
    ensures
        final(set)@ == old(set)@.union(positions@),
{
    let ghost start = set@;
    for p in it: positions.iter()
        invariant
            it.seq().unref().to_set() == positions@,
            forall|x: i64| #[trigger]
                set@.contains(x) <==> start.contains(x) || listed_before(
                    it.seq().unref(),
                    it.index() as int,
                    x,
                ),
    {
        let ghost keys = it.seq().unref();
        let ghost k = it.index() as int;
        assert(keys[k] == *p);
        set.insert(*p);
        proof {
            assert forall|x: i64| #[trigger] set@.contains(x) <==> start.contains(x)
                || listed_before(keys, k + 1, x) by {
                lemma_listed_before(keys, k, x);
            }
        }
    }
    assert(set@ =~= start.union(positions@));
}

// ---------------------------------------------------------------------------
// Writing delete files
// ---------------------------------------------------------------------------

/// The values of a column. Floating-point numbers are held by their bits; a
/// column of any other type is held as text.
#[derive(Debug)]
pub enum ColumnData {
    Int32(Vec<Option<i32>>),
    Int64(Vec<Option<i64>>),
    Float32(Vec<Option<u32>>),
    Float64(Vec<Option<u64>>),
    Utf8(Vec<Option<String>>),
    Boolean(Vec<Option<bool>>),
    Other(Vec<Option<String>>),
}

impl ColumnData {
    /// The number of values.
    pub open spec fn rows(self) -> nat {
        match self {
            ColumnData::Int32(v) => v@.len(),
            ColumnData::Int64(v) => v@.len(),
            ColumnData::Float32(v) => v@.len(),
            ColumnData::Float64(v) => v@.len(),
            ColumnData::Utf8(v) => v@.len(),
            ColumnData::Boolean(v) => v@.len(),
            ColumnData::Other(v) => v@.len(),
        }
    }

    /// The value in row `i`, as an Avro value; a missing value is null.
    pub open spec fn cell(self, i: int) -> AvroTree {
        match self {
            ColumnData::Int32(v) => match v@[i] {
                Some(x) => AvroTree::Int(x),
                None => AvroTree::Null,
            },
            ColumnData::Int64(v) => match v@[i] {
                Some(x) => AvroTree::Long(x),
                None => AvroTree::Null,
            },
            ColumnData::Float32(v) => match v@[i] {
                Some(x) => AvroTree::Float(x),
                None => AvroTree::Null,
            },
            ColumnData::Float64(v) => match v@[i] {
                Some(x) => AvroTree::Double(x),
                None => AvroTree::Null,
            },
            ColumnData::Utf8(v) => match v@[i] {
                Some(x) => AvroTree::Text(x@),
                None => AvroTree::Null,
            },
            ColumnData::Boolean(v) => match v@[i] {
                Some(x) => AvroTree::Boolean(x),
                None => AvroTree::Null,
            },
            ColumnData::Other(v) => match v@[i] {
                Some(x) => AvroTree::Text(x@),
                None => AvroTree::Null,
            },
        }
    }

    /// The value in row `i`, as an Avro value.
    pub fn arrow_to_avro_value(&self, i: usize) -> (r: AvroValue)
        requires
            i < self.rows(),
        ensures
            r.tree() == self.cell(i as int),
    {
        match self {
            ColumnData::Int32(v) => match v[i] {
                Some(x) => AvroValue::Int(x),
                None => AvroValue::Null,
            },
            ColumnData::Int64(v) => match v[i] {
                Some(x) => AvroValue::Long(x),
                None => AvroValue::Null,
            },
            ColumnData::Float32(v) => match v[i] {
                Some(x) => AvroValue::Float(x),
                None => AvroValue::Null,
            },
            ColumnData::Float64(v) => match v[i] {
                Some(x) => AvroValue::Double(x),
                None => AvroValue::Null,
            },
            ColumnData::Utf8(v) => match &v[i] {
                Some(x) => AvroValue::Text(x.clone()),
                None => AvroValue::Null,
            },
            ColumnData::Boolean(v) => match v[i] {
                Some(x) => AvroValue::Boolean(x),
                None => AvroValue::Null,
            },
            ColumnData::Other(v) => match &v[i] {
                Some(x) => AvroValue::Text(x.clone()),
                None => AvroValue::Null,
            },
        }
    }
}

/// Why a delete file could not be written.
#[derive(Debug)]
pub enum DeleteWriteError {
    /// The two columns of a position delete differ in length.
    LengthMismatch,
    /// The schema has no field with this id.
    UnknownField(i32),
    /// The rows have no column for the field at this place in the id list.
    MissingColumn(usize),
    /// The Avro file could not be written.
    Avro(AvroFailure),
}

/// A delete file that is ready to be stored: the path relative to the table
/// root, the bytes to put there, and the file as the manifest records it.
#[derive(Debug)]
pub struct PreparedDelete {
    pub object_path: String,
    pub bytes: Vec<u8>,
    pub file: DeleteFile,
}

/// The records of a position delete file.
pub open spec fn position_records(pairs: Seq<(Seq<char>, i64)>) -> Seq<AvroTree> {
    pairs.map_values(|p: (Seq<char>, i64)| position_record(p.0, p.1))
}

/// The longest path, in bytes, for which reading a position delete file back is
/// stated.
pub const MAX_DELETE_PATH_BYTES: usize = 0x1000_0000;

/// Every path is short enough for the file to be read back.
pub open spec fn paths_readable(paths: Seq<String>) -> bool {
    forall|i: int|
        0 <= i < paths.len() ==> vstd::utf8::encode_utf8((#[trigger] paths[i])@).len()
            <= MAX_DELETE_PATH_BYTES
}

/// The name of a new delete file.
pub open spec fn delete_file_name(
    kind: Seq<char>,
    uuid: Seq<char>,
    format_version: i32,
) -> Seq<char> {
    kind + uuid + "-"@ + text::signed_decimal(format_version as int) + ".avro"@
}

/// The path of a new file, inside the directory of its partition.
pub open spec fn in_partition(partition: Option<Seq<char>>, name: Seq<char>) -> Seq<char> {
    match partition {
        Some(dir) => dir + "/"@ + name,
        None => name,
    }
}

/// The URI that the manifest records for a file under `base_path`.
pub open spec fn recorded_uri(base_path: Seq<char>, object_path: Seq<char>) -> Seq<char> {
    let full = base_path + "/"@ + object_path;
    if "file://"@.is_prefix_of(full) || "s3://"@.is_prefix_of(full) {
        full
    } else {
        "file://"@ + full
    }
}

/// How many bytes the last block of an Avro file takes: what the manifest
/// records as the size of a delete file.
pub open spec fn last_block(schema: Seq<char>, records: Seq<AvroTree>) -> int {
    let steps = append_steps(records);
    avro_bytes_out(schema, steps.push(AvroStep::Flush)) - avro_bytes_out(schema, steps)
}

/// Writes position and equality delete files.
#[derive(Debug)]
pub struct IcebergDeleteWriter {
    pub base_path: String,
    pub format_version: i32,
}

impl IcebergDeleteWriter {
    pub fn new(base_path: String, format_version: i32) -> (r: Self)
        ensures
            r.base_path@ == text::replaced(base_path@, "file://"@, ""@),
            r.format_version == format_version,
    {
        proof {
            reveal_strlit("file://");
        }
        IcebergDeleteWriter {
            base_path: text::replace(base_path.as_str(), "file://", ""),
            format_version,
        }
    }

    /// The full URI that the manifest records for a delete file at
    /// `object_path`, a path relative to the table root.
    pub fn metadata_uri(&self, object_path: &str) -> (r: String)
        ensures
            r@ == recorded_uri(self.base_path@, object_path@),
    {
        let mut full: String = self.base_path.clone();
        full.append("/");
        full.append(object_path);
        if text::starts_with(full.as_str(), "file://") || text::starts_with(
            full.as_str(),
            "s3://",
        ) {
            full
        } else {
            let mut r: String = "file://".to_owned();
            r.append(full.as_str());
            r
        }
    }

    fn file_name(&self, kind: &str, uuid: &str) -> (r: String)
        ensures
            r@ == delete_file_name(kind@, uuid@, self.format_version),
    {
        let mut r: String = kind.to_owned();
        r.append(uuid);
        r.append("-");
        let version: String = text::i64_text(self.format_version as i64);
        r.append(version.as_str());
        r.append(".avro");
        r
    }

    /// Builds a position delete file for the pairs of a data file path and a
    /// row position. `partition` is the directory of the partition with its
    /// values, and `uuid` a fresh identifier.
    pub fn write_position_delete(
        &self,
        uuid: &str,
        partition: Option<(String, Vec<(String, PartitionValue)>)>,
        file_paths: &Vec<String>,
        positions: &Vec<i64>,
    ) -> (r: Result<PreparedDelete, DeleteWriteError>)
        ensures
            match r {
                Ok(d) => {
                    let pairs = position_pairs(file_paths@, positions@);
                    let records = position_records(pairs);
                    let name = delete_file_name("del-pos-"@, uuid@, self.format_version);
                    &&& file_paths.len() == positions.len()
                    &&& all_accepted(POSITION_DELETE_SCHEMA@, records)
                    &&& avro_holds(POSITION_DELETE_SCHEMA@, records, d.bytes@)
                    &&& paths_readable(file_paths@) ==> is_readable(d.bytes@) && avro_read(d.bytes@)
                        == Some(records)
                    &&& d.object_path@ == in_partition(
                        match partition {
                            Some(p) => Some(p.0@),
                            None => None,
                        },
                        name,
                    )
                    &&& d.file.file_path@ == recorded_uri(self.base_path@, d.object_path@)
                    &&& d.file.content == DeleteContent::Position
                    &&& d.file.file_size_bytes == last_block(
                        POSITION_DELETE_SCHEMA@,
                        records,
                    ) as i64
                    &&& d.file.record_count == file_paths.len() as i64
                    &&& match partition {
                        Some(p) => d.file.partition_values == p.1,
                        None => d.file.partition_values@.len() == 0,
                    }
                },
                Err(DeleteWriteError::LengthMismatch) => file_paths.len() != positions.len(),
                Err(_) => false,
            },
    {
        if file_paths.len() != positions.len() {
            return Err(DeleteWriteError::LengthMismatch);
        }
        let name: String = self.file_name("del-pos-", uuid);
        let (object_path, partition_values) = match partition {
            Some((dir, values)) => {
                let mut path: String = dir;
                path.append("/");
                path.append(name.as_str());
                (path, values)
            },
            None => (name, Vec::new()),
        };
        let ghost pairs = position_pairs(file_paths@, positions@);
        let mut records: Vec<AvroValue> = Vec::new();
        let mut i: usize = 0;
        while i < file_paths.len()
            invariant
                file_paths.len() == positions.len(),
                i <= file_paths.len(),
                records.len() == i,
                pairs == position_pairs(file_paths@, positions@),
                forall|k: int|
                    0 <= k < i ==> (#[trigger] records@[k]).tree() == position_record(
                        pairs[k].0,
                        pairs[k].1,
                    ),
            decreases file_paths.len() - i,
        {
            let mut f: Vec<(String, AvroValue)> = Vec::new();
            put(&mut f, "file_path", AvroValue::Text(file_paths[i].clone()));
            put(&mut f, "pos", AvroValue::Long(positions[i]));
            proof {
                lemma_record_tree(f);
                assert(field_trees(f@) =~= position_record(
                    pairs[i as int].0,
                    pairs[i as int].1,
                )->Record_0);
            }
            records.push(AvroValue::Record(f));
            i = i + 1;
        }
        let ghost made = records@;
        proof {
            assert(trees(made) =~= position_records(pairs));
            let records = trees(made);
            assert forall|k: int| #![trigger records[k]] 0 <= k < records.len() implies has_form(
                POSITION_DELETE_SCHEMA@,
                records[k],
                records[k],
            ) by {
                lemma_position_form(pairs[k].0, pairs[k].1);
            }
            assert(have_form(POSITION_DELETE_SCHEMA@, records, records));
            assert(is_own_shape(POSITION_DELETE_SCHEMA@, position_shape()));
            if paths_readable(file_paths@) {
                assert forall|k: int| 0 <= k < records.len() implies tree_bytes(
                    #[trigger] records[k],
                ) <= MAX_RECORD_BYTES by {
                    assert(records[k] == position_record(file_paths@[k]@, positions@[k]));
                    lemma_position_bytes(file_paths@[k]@, positions@[k]);
                }
            }
        }
        match write_file(POSITION_DELETE_SCHEMA, records) {
            Ok((bytes, len)) => {
                let file_path: String = self.metadata_uri(object_path.as_str());
                Ok(
                    PreparedDelete {
                        object_path,
                        bytes,
                        file: DeleteFile {
                            file_path,
                            content: DeleteContent::Position,
                            file_size_bytes: len as i64,
                            record_count: file_paths.len() as i64,
                            partition_values,
                        },
                    },
                )
            },
            Err(e) => {
                proof {
                    if let AvroFailure::Record(k, _) = e {
                        assert(trees(made)[k as int] == made[k as int].tree());
                        lemma_position_form(pairs[k as int].0, pairs[k as int].1);
                    }
                }
                Err(DeleteWriteError::Avro(e))
            },
        }
    }
}

proof fn lemma_position_bytes(path: Seq<char>, pos: i64)
    ensures
        tree_bytes(position_record(path, pos)) == vstd::utf8::encode_utf8(path).len() + 20,
{
    let t = position_record(path, pos);
    let fields = t->Record_0;
    let sizes = Seq::new(
        fields.len(),
        |i: int|
            if 0 <= i < fields.len() {
                tree_bytes(fields[i].1)
            } else {
                0
            },
    );
    reveal_with_fuel(sum_of, 3);
    assert(tree_bytes(t) == sum_of(sizes));
    assert(sizes.drop_last().drop_last() =~= Seq::<nat>::empty());
    assert(sizes.drop_last().last() == tree_bytes(fields[0].1));
    assert(sizes.last() == tree_bytes(fields[1].1));
}

/// A position record has the form of its schema.
proof fn lemma_position_form(path: Seq<char>, pos: i64)
    ensures
        has_form(POSITION_DELETE_SCHEMA@, position_record(path, pos), position_record(path, pos)),
{
    let record = position_record(path, pos);
    let shape = position_shape();
    reveal_with_fuel(reads_as, 2);
    assert(is_own_shape(POSITION_DELETE_SCHEMA@, shape));
    assert(reads_as(shape, record, record));
}

proof fn lemma_position_records_read(pairs: Seq<(Seq<char>, i64)>)
    ensures
        positions_in(position_records(pairs)) == pairs,
    decreases pairs.len(),
{
    let ts = position_records(pairs);
    if pairs.len() > 0 {
        lemma_position_records_read(pairs.drop_last());
        assert(ts.drop_last() =~= position_records(pairs.drop_last()));
        let fields = position_record(pairs.last().0, pairs.last().1)->Record_0;
        reveal_strlit("file_path");
        reveal_strlit("pos");
        assert("file_path"@.len() != "pos"@.len());
        assert(fields.drop_last().last() == ("file_path"@, AvroTree::Text(pairs.last().0)));
        assert(last_text(fields.drop_last(), "file_path"@) == Some(pairs.last().0));
        assert(position_in(ts.last()) == Some(pairs.last()));
        assert(pairs.drop_last().push(pairs.last()) =~= pairs);
    } else {
        assert(pairs =~= Seq::empty());
    }
}

/// Reading a position delete file gives back the positions that were written:
/// a file that holds the records of some pairs deletes exactly those pairs.
pub proof fn law_position_deletes_read_back(pairs: Seq<(Seq<char>, i64)>, bytes: Seq<u8>)
    requires
        avro_read(bytes) == Some(position_records(pairs)),
    ensures
        positions_of(positions_in(avro_read(bytes)->0)) == positions_of(pairs),
        forall|i: int|
            0 <= i < pairs.len() ==> positions_of(pairs).dom().contains((#[trigger] pairs[i]).0)
                && positions_of(pairs)[pairs[i].0].contains(pairs[i].1),
{
    lemma_position_records_read(pairs);
    lemma_positions_of(pairs);
}

proof fn lemma_positions_of(pairs: Seq<(Seq<char>, i64)>)
    ensures
        forall|i: int|
            0 <= i < pairs.len() ==> positions_of(pairs).dom().contains((#[trigger] pairs[i]).0)
                && positions_of(pairs)[pairs[i].0].contains(pairs[i].1),
    decreases pairs.len(),
{
    if pairs.len() > 0 {
        lemma_positions_of(pairs.drop_last());
        assert forall|i: int| 0 <= i < pairs.len() implies positions_of(pairs).dom().contains(
            (#[trigger] pairs[i]).0,
        ) && positions_of(pairs)[pairs[i].0].contains(pairs[i].1) by {
            if i < pairs.len() - 1 {
                assert(pairs.drop_last()[i] == pairs[i]);
            }
        }
    }
}

// ---------------------------------------------------------------------------
// Equality deletes
// ---------------------------------------------------------------------------

/// The Avro type of a column in an equality delete file.
pub open spec fn equality_type(type_str: Seq<char>) -> Seq<char> {
    if type_str == "Int32"@ || type_str == "int"@ {
        "int"@
    } else if type_str == "Int64"@ || type_str == "long"@ {
        "long"@
    } else if type_str == "Float32"@ || type_str == "float"@ {
        "float"@
    } else if type_str == "Float64"@ || type_str == "double"@ {
        "double"@
    } else if type_str == "Utf8"@ || type_str == "string"@ {
        "string"@
    } else if type_str == "Boolean"@ || type_str == "bool"@ {
        "boolean"@
    } else {
        "string"@
    }
}

/// The schema text of one column.
pub open spec fn equality_field_text(f: SchemaField) -> Seq<char> {
    r#"{"name": ""#@ + f.name@ + r#"", "type": ""#@ + equality_type(f.type_str@) + r#""}"#@
}

/// The Avro schema of an equality delete file.
pub open spec fn equality_schema(fields: Seq<SchemaField>) -> Seq<char> {
    EQUALITY_SCHEMA_HEAD@ + text::joined(
        fields.map_values(|f: SchemaField| equality_field_text(f)),
        ","@,
    ) + EQUALITY_SCHEMA_TAIL@
}

/// The Avro schema of an equality delete file, up to its columns.
pub const EQUALITY_SCHEMA_HEAD: &'static str = r#"
        {
            "type": "record",
            "name": "equality_delete",
            "fields": ["#;

/// The Avro schema of an equality delete file, behind its columns.
pub const EQUALITY_SCHEMA_TAIL: &'static str = r#"]
        }
        "#;

/// The fields have names that are allowed.
pub open spec fn plain_fields(fields: Seq<SchemaField>) -> bool {
    forall|i: int| 0 <= i < fields.len() ==> is_plain_name((#[trigger] fields[i]).name@)
}

/// There are fields, their names are allowed, and no two are the same.
pub open spec fn sound_fields(fields: Seq<SchemaField>) -> bool {
    &&& fields.len() > 0
    &&& plain_fields(fields)
    &&& forall|i: int, j: int|
        #![trigger fields[i], fields[j]]
        0 <= i < j < fields.len() ==> fields[i].name@ != fields[j].name@
}

/// The form of a value in an equality delete file.
pub open spec fn equality_value_shape(type_str: Seq<char>) -> AvroShape {
    match column_type(type_str) {
        ColumnType::Int32 => AvroShape::Int,
        ColumnType::Int64 => AvroShape::Long,
        ColumnType::Float32 => AvroShape::Float,
        ColumnType::Float64 => AvroShape::Double,
        ColumnType::Utf8 => AvroShape::Text,
        ColumnType::Boolean => AvroShape::Boolean,
    }
}

/// The form of the records of an equality delete file.
pub open spec fn equality_shape(fields: Seq<SchemaField>) -> AvroShape {
    AvroShape::Record(
        fields.map_values(|f: SchemaField| (f.name@, equality_value_shape(f.type_str@))),
    )
}

/// The schema has a field for each of the ids.
pub open spec fn ids_known(ids: Seq<i32>, schema: TableSchema) -> bool {
    forall|k: int|
        0 <= k < ids.len() ==> field_with_id(schema.fields@, #[trigger] ids[k]) is Some
}

/// The fields with the given ids.
pub open spec fn fields_of(ids: Seq<i32>, schema: TableSchema) -> Seq<SchemaField> {
    ids.map_values(|id: i32| field_with_id(schema.fields@, id)->0)
}

/// The first column called `name`.
pub open spec fn column_named(columns: Seq<(String, ColumnData)>, name: Seq<char>) -> Option<
    ColumnData,
>
    decreases columns.len(),
{
    if columns.len() == 0 {
        None
    } else if columns[0].0@ == name {
        Some(columns[0].1)
    } else {
        column_named(columns.skip(1), name)
    }
}

/// There is a column for each of the fields.
pub open spec fn columns_cover(
    columns: Seq<(String, ColumnData)>,
    fields: Seq<SchemaField>,
) -> bool {
    forall|k: int|
        0 <= k < fields.len() ==> column_named(columns, (#[trigger] fields[k]).name@) is Some
}

/// The record of row `i`.
pub open spec fn equality_record(
    columns: Seq<(String, ColumnData)>,
    fields: Seq<SchemaField>,
    i: int,
) -> AvroTree {
    AvroTree::Record(
        fields.map_values(
            |f: SchemaField| (f.name@, column_named(columns, f.name@)->0.cell(i)),
        ),
    )
}

/// The records of the rows.
pub open spec fn equality_records(
    columns: Seq<(String, ColumnData)>,
    fields: Seq<SchemaField>,
    rows: nat,
) -> Seq<AvroTree> {
    Seq::new(rows, |i: int| equality_record(columns, fields, i))
}

/// The Avro type of a column in an equality delete file.
pub fn equality_avro_type(t: &str) -> (r: &'static str)
    ensures
        r@ == equality_type(t@),
{
    if text::same(t, "Int32") || text::same(t, "int") {
        "int"
    } else if text::same(t, "Int64") || text::same(t, "long") {
        "long"
    } else if text::same(t, "Float32") || text::same(t, "float") {
        "float"
    } else if text::same(t, "Float64") || text::same(t, "double") {
        "double"
    } else if text::same(t, "Utf8") || text::same(t, "string") {
        "string"
    } else if text::same(t, "Boolean") || text::same(t, "bool") {
        "boolean"
    } else {
        "string"
    }
}

fn find_column<'a>(columns: &'a Vec<(String, ColumnData)>, name: &str) -> (r: Option<
    &'a ColumnData,
>)
    ensures
        match r {
            Some(c) => column_named(columns@, name@) == Some(*c),
            None => column_named(columns@, name@) is None,
        },
{
    let mut i: usize = 0;
    assert(columns@.skip(0) =~= columns@);
    while i < columns.len()
        invariant
            i <= columns.len(),
            column_named(columns@.skip(i as int), name@) == column_named(columns@, name@),
        decreases columns.len() - i,
    {
        if text::same(columns[i].0.as_str(), name) {
            return Some(&columns[i].1);
        }
        assert(columns@.skip(i as int).skip(1) =~= columns@.skip(i + 1));
        i = i + 1;
    }
    None
}

proof fn lemma_column_rows(columns: Seq<(String, ColumnData)>, name: Seq<char>, rows: nat)
    requires
        forall|k: int| 0 <= k < columns.len() ==> (#[trigger] columns[k]).1.rows() == rows,
        column_named(columns, name) is Some,
    ensures
        column_named(columns, name)->0.rows() == rows,
    decreases columns.len(),
{
    if columns.len() > 0 && columns[0].0@ != name {
        assert forall|k: int| 0 <= k < columns.skip(1).len() implies (#[trigger] columns.skip(
            1,
        )[k]).1.rows() == rows by {
            assert(columns.skip(1)[k] == columns[k + 1]);
        }
        lemma_column_rows(columns.skip(1), name, rows);
    }
}

impl IcebergDeleteWriter {
    /// Builds an equality delete file that deletes the rows of `columns` by
    /// the fields `equality_ids`.
    pub fn write_equality_delete(
        &self,
        uuid: &str,
        partition: Option<&str>,
        columns: &Vec<(String, ColumnData)>,
        num_rows: usize,
        equality_ids: Vec<i32>,
        table_schema: &TableSchema,
    ) -> (r: Result<PreparedDelete, DeleteWriteError>)
        requires
            forall|k: int|
                0 <= k < columns.len() ==> (#[trigger] columns@[k]).1.rows() == num_rows,
        ensures
            ({
                let ids = equality_ids@;
                let fields = fields_of(ids, *table_schema);
                let schema = equality_schema(fields);
                let records = equality_records(columns@, fields, num_rows as nat);
                match r {
                    Ok(d) => {
                        let name = delete_file_name("del-eq-"@, uuid@, self.format_version);
                        &&& ids_known(ids, *table_schema)
                        &&& plain_fields(fields)
                        &&& avro_schema_parses(schema)
                        &&& num_rows > 0 ==> columns_cover(columns@, fields)
                        &&& all_accepted(schema, records)
                        &&& avro_holds(schema, records, d.bytes@)
                        &&& reads_back(schema, records, d.bytes@)
                        &&& d.object_path@ == in_partition(
                            match partition {
                                Some(p) => Some(p@),
                                None => None,
                            },
                            name,
                        )
                        &&& d.file.file_path@ == recorded_uri(self.base_path@, d.object_path@)
                        &&& d.file.content == (DeleteContent::Equality { equality_ids })
                        &&& d.file.file_size_bytes == last_block(schema, records) as i64
                        &&& d.file.record_count == num_rows as i64
                        &&& d.file.partition_values@.len() == 0
                    },
                    Err(DeleteWriteError::UnknownField(id)) => exists|k: int|
                        #![trigger ids[k]]
                        0 <= k < ids.len() && ids[k] == id && field_with_id(
                            table_schema.fields@,
                            id,
                        ) is None && ids_known(ids.take(k), *table_schema),
                    Err(DeleteWriteError::Avro(AvroFailure::Names)) => ids_known(
                        ids,
                        *table_schema,
                    ) && !plain_fields(fields),
                    Err(DeleteWriteError::Avro(AvroFailure::Schema(_))) => ids_known(
                        ids,
                        *table_schema,
                    ) && plain_fields(fields) && !avro_schema_parses(schema) && !sound_fields(
                        fields,
                    ),
                    Err(DeleteWriteError::MissingColumn(k)) => {
                        &&& ids_known(ids, *table_schema)
                        &&& plain_fields(fields)
                        &&& avro_schema_parses(schema)
                        &&& num_rows > 0
                        &&& k < fields.len()
                        &&& columns_cover(columns@, fields.take(k as int))
                        &&& column_named(columns@, fields[k as int].name@) is None
                    },
                    Err(DeleteWriteError::Avro(e)) => {
                        &&& ids_known(ids, *table_schema)
                        &&& plain_fields(fields)
                        &&& avro_schema_parses(schema)
                        &&& num_rows > 0 ==> columns_cover(columns@, fields)
                        &&& match e {
                            AvroFailure::Record(i, _) => {
                                &&& i < records.len()
                                &&& all_accepted(schema, records.take(i as int))
                                &&& !avro_accepts(schema, records[i as int])
                                &&& forall|read: AvroTree|
                                    !(#[trigger] has_form(schema, records[i as int], read))
                            },
                            _ => false,
                        }
                    },
                    Err(DeleteWriteError::LengthMismatch) => false,
                }
            }),
    {
        let name: String = self.file_name("del-eq-", uuid);
        let object_path: String = match partition {
            Some(dir) => {
                let mut path: String = dir.to_owned();
                path.append("/");
                path.append(name.as_str());
                path
            },
            None => name,
        };
        let ghost ids = equality_ids@;
        let ghost fields = fields_of(ids, *table_schema);
        let ghost target = fields.map_values(|f: SchemaField| equality_field_text(f));
        let mut found: Vec<&SchemaField> = Vec::new();
        let mut fields_json: Vec<String> = Vec::new();
        let mut k: usize = 0;
        assert(text::texts(fields_json@) =~= target.take(0));
        while k < equality_ids.len()
            invariant
                k <= equality_ids.len(),
                ids == equality_ids@,
                fields == fields_of(ids, *table_schema),
                target == fields.map_values(|f: SchemaField| equality_field_text(f)),
                found.len() == k,
                forall|m: int|
                    0 <= m < k ==> *(#[trigger] found@[m]) == fields[m] && field_with_id(
                        table_schema.fields@,
                        ids[m],
                    ) is Some,
                text::texts(fields_json@) == target.take(k as int),
            decreases equality_ids.len() - k,
        {
            match table_schema.find_id(equality_ids[k]) {
                Some(field) => {
                    let mut f: String = r#"{"name": ""#.to_owned();
                    f.append(field.name.as_str());
                    f.append(r#"", "type": ""#);
                    f.append(equality_avro_type(field.type_str.as_str()));
                    f.append(r#""}"#);
                    let ghost before = fields_json@;
                    fields_json.push(f);
                    found.push(field);
                    proof {
                        assert(text::texts(fields_json@) =~= text::texts(before).push(f@));
                        assert(target.take(k + 1) =~= target.take(k as int).push(
                            target[k as int],
                        ));
                    }
                },
                None => {
                    proof {
                        assert forall|m: int|
                            0 <= m < ids.take(k as int).len() implies field_with_id(
                            table_schema.fields@,
                            #[trigger] ids.take(k as int)[m],
                        ) is Some by {
                            assert(*found@[m] == fields[m]);
                        }
                        assert(ids[k as int] == equality_ids@[k as int]);
                    }
                    return Err(DeleteWriteError::UnknownField(equality_ids[k]));
                },
            }
            k = k + 1;
        }
        assert(target.take(k as int) =~= target);
        assert forall|m: int| 0 <= m < ids.len() implies field_with_id(
            table_schema.fields@,
            #[trigger] ids[m],
        ) is Some by {
            assert(*found@[m] == fields[m]);
        }
        let joined: String = text::join(&fields_json, ",");
        let mut schema_json: String = EQUALITY_SCHEMA_HEAD.to_owned();
        schema_json.append(joined.as_str());
        schema_json.append(EQUALITY_SCHEMA_TAIL);
        k = 0;
        while k < found.len()
            invariant
                k <= found.len(),
                found.len() == fields.len(),
                ids_known(ids, *table_schema),
                ids == equality_ids@,
                fields == fields_of(ids, *table_schema),
                forall|m: int| 0 <= m < found.len() ==> *(#[trigger] found@[m]) == fields[m],
                forall|m: int| 0 <= m < k ==> is_plain_name((#[trigger] fields[m]).name@),
            decreases found.len() - k,
        {
            if !has_plain_name(found[k].name.as_str()) {
                assert(!is_plain_name(fields[k as int].name@));
                return Err(DeleteWriteError::Avro(AvroFailure::Names));
            }
            k = k + 1;
        }
        proof {
            assert(schema_json@ == equality_schema(fields));
            assert(is_own_schema(equality_schema(fields)));
            if sound_fields(fields) {
                assert(is_own_shape(equality_schema(fields), equality_shape(fields)));
            }
        }
        match check_schema(schema_json.as_str()) {
            Ok(_) => {},
            Err(e) => {
                return Err(DeleteWriteError::Avro(e));
            },
        }
        let ghost all_records = equality_records(columns@, fields, num_rows as nat);
        let mut records: Vec<AvroValue> = Vec::new();
        let mut i: usize = 0;
        while i < num_rows
            invariant
                i <= num_rows,
                records.len() == i,
                ids_known(ids, *table_schema),
                plain_fields(fields),
                avro_schema_parses(schema_json@),
                schema_json@ == equality_schema(fields),
                ids == equality_ids@,
                fields == fields_of(ids, *table_schema),
                all_records == equality_records(columns@, fields, num_rows as nat),
                found.len() == fields.len(),
                forall|m: int| 0 <= m < found.len() ==> *(#[trigger] found@[m]) == fields[m],
                forall|c: int|
                    0 <= c < columns.len() ==> (#[trigger] columns@[c]).1.rows() == num_rows,
                i > 0 ==> columns_cover(columns@, fields),
                forall|m: int| 0 <= m < i ==> (#[trigger] records@[m]).tree() == all_records[m],
            decreases num_rows - i,
        {
            let mut f: Vec<(String, AvroValue)> = Vec::new();
            let ghost row = equality_record(columns@, fields, i as int)->Record_0;
            let mut m: usize = 0;
            assert(field_trees(f@) =~= row.take(0));
            while m < found.len()
                invariant
                    i < num_rows,
                    m <= found.len(),
                    ids_known(ids, *table_schema),
                    plain_fields(fields),
                    avro_schema_parses(schema_json@),
                    schema_json@ == equality_schema(fields),
                    ids == equality_ids@,
                    fields == fields_of(ids, *table_schema),
                    found.len() == fields.len(),
                    forall|c: int| 0 <= c < found.len() ==> *(#[trigger] found@[c]) == fields[c],
                    forall|c: int|
                        0 <= c < columns.len() ==> (#[trigger] columns@[c]).1.rows() == num_rows,
                    row == equality_record(columns@, fields, i as int)->Record_0,
                    field_trees(f@) == row.take(m as int),
                    forall|c: int|
                        0 <= c < m ==> column_named(
                            columns@,
                            (#[trigger] fields[c]).name@,
                        ) is Some,
                decreases found.len() - m,
            {
                let field: &SchemaField = found[m];
                match find_column(columns, field.name.as_str()) {
                    Some(column) => {
                        proof {
                            lemma_column_rows(columns@, field.name@, num_rows as nat);
                        }
                        put(&mut f, field.name.as_str(), column.arrow_to_avro_value(i));
                        proof {
                            assert(row.take(m + 1) =~= row.take(m as int).push(row[m as int]));
                        }
                    },
                    None => {
                        return Err(DeleteWriteError::MissingColumn(m));
                    },
                }
                m = m + 1;
            }
            proof {
                lemma_record_tree(f);
                assert(row.take(m as int) =~= row);
                assert(AvroTree::Record(row) == all_records[i as int]);
            }
            records.push(AvroValue::Record(f));
            i = i + 1;
        }
        let ghost made = records@;
        assert(trees(made) =~= all_records);
        assert(is_own_schema(equality_schema(fields)));
        match write_file(schema_json.as_str(), records) {
            Ok((bytes, len)) => {
                let file_path: String = self.metadata_uri(object_path.as_str());
                Ok(
                    PreparedDelete {
                        object_path,
                        bytes,
                        file: DeleteFile {
                            file_path,
                            content: DeleteContent::Equality { equality_ids },
                            file_size_bytes: len as i64,
                            record_count: num_rows as i64,
                            partition_values: Vec::new(),
                        },
                    },
                )
            },
            Err(e) => {
                proof {
                    if let AvroFailure::Record(n, _) = e {
                        assert(trees(made)[n as int] == made[n as int].tree());
                    }
                }
                Err(DeleteWriteError::Avro(e))
            },
        }
    }
}

/// The type of a column.
#[derive(Debug, Clone, Copy, PartialEq, Eq, Structural)]
pub enum ColumnType {
    Int32,
    Int64,
    Float32,
    Float64,
    Utf8,
    Boolean,
}

/// The column type of a schema type; a type that is not known is text.
pub open spec fn column_type(type_str: Seq<char>) -> ColumnType {
    if type_str == "Int32"@ || type_str == "int"@ {
        ColumnType::Int32
    } else if type_str == "Int64"@ || type_str == "long"@ {
        ColumnType::Int64
    } else if type_str == "Float32"@ || type_str == "float"@ {
        ColumnType::Float32
    } else if type_str == "Float64"@ || type_str == "double"@ {
        ColumnType::Float64
    } else if type_str == "Utf8"@ || type_str == "string"@ {
        ColumnType::Utf8
    } else if type_str == "Boolean"@ || type_str == "bool"@ {
        ColumnType::Boolean
    } else {
        ColumnType::Utf8
    }
}

/// Whether the schema type is one of the known ones.
pub open spec fn type_known(type_str: Seq<char>) -> bool {
    column_type(type_str) != ColumnType::Utf8 || type_str == "Utf8"@ || type_str == "string"@
}

/// The column type of a schema type.
pub fn map_type_to_arrow(t: &str) -> (r: ColumnType)
    ensures
        r == column_type(t@),
{
    if text::same(t, "Int32") || text::same(t, "int") {
        ColumnType::Int32
    } else if text::same(t, "Int64") || text::same(t, "long") {
        ColumnType::Int64
    } else if text::same(t, "Float32") || text::same(t, "float") {
        ColumnType::Float32
    } else if text::same(t, "Float64") || text::same(t, "double") {
        ColumnType::Float64
    } else if text::same(t, "Utf8") || text::same(t, "string") {
        ColumnType::Utf8
    } else if text::same(t, "Boolean") || text::same(t, "bool") {
        ColumnType::Boolean
    } else {
        ColumnType::Utf8
    }
}

/// The column holds values of the type.
pub open spec fn has_type(c: ColumnData, t: ColumnType) -> bool {
    match t {
        ColumnType::Int32 => c is Int32,
        ColumnType::Int64 => c is Int64,
        ColumnType::Float32 => c is Float32,
        ColumnType::Float64 => c is Float64,
        ColumnType::Utf8 => c is Utf8,
        ColumnType::Boolean => c is Boolean,
    }
}

/// The value is of the type.
pub open spec fn value_has_type(v: AvroTree, t: ColumnType) -> bool {
    match t {
        ColumnType::Int32 => v is Int,
        ColumnType::Int64 => v is Long,
        ColumnType::Float32 => v is Float,
        ColumnType::Float64 => v is Double,
        ColumnType::Utf8 => v is Text,
        ColumnType::Boolean => v is Boolean,
    }
}

/// What a column of the schema type holds for an Avro value: the value itself
/// where it is of that type, else nothing. A column of a type that is not known
/// holds the debug text of the value.
pub open spec fn cell_holds(cell: AvroTree, v: AvroTree, type_str: Seq<char>) -> bool {
    if !type_known(type_str) {
        is_leaf(v) ==> cell == AvroTree::Text(avro_debug(v))
    } else if value_has_type(v, column_type(type_str)) {
        cell == v
    } else {
        cell == AvroTree::Null
    }
}

/// The column of the schema type holds the values.
pub open spec fn column_holds(c: ColumnData, values: Seq<AvroTree>, type_str: Seq<char>) -> bool {
    &&& has_type(c, column_type(type_str))
    &&& c.rows() == values.len()
    &&& forall|i: int|
        #![trigger c.cell(i)]
        0 <= i < values.len() ==> cell_holds(c.cell(i), values[i], type_str)
}

/// The trees of `apache_avro` values.
pub open spec fn outside_trees(v: Seq<apache_avro::types::Value>) -> Seq<AvroTree> {
    v.map_values(|x: apache_avro::types::Value| avro_tree(x))
}

/// Collects Avro values into a column of the schema type.
pub fn avro_to_arrow_array(values: Vec<apache_avro::types::Value>, type_str: &str) -> (r: ColumnData)
    ensures
        column_holds(r, outside_trees(values@), type_str@),
{
    let ghost all = values@;
    let kind: ColumnType = map_type_to_arrow(type_str);
    let known: bool = match kind {
        ColumnType::Utf8 => text::same(type_str, "Utf8") || text::same(type_str, "string"),
        _ => true,
    };
    if !known {
        let mut out: Vec<Option<String>> = Vec::new();
        for v in it: values
            invariant
                it.seq() == all,
                out.len() == it.index(),
                forall|k: int|
                    0 <= k < out.len() ==> (#[trigger] out@[k]) is Some && (is_leaf(
                        avro_tree(all[k]),
                    ) ==> out@[k]->0@ == avro_debug(avro_tree(all[k]))),
        {
            out.push(Some(debug_text(&v)));
        }
        return ColumnData::Utf8(out);
    }
    match kind {
        ColumnType::Int32 => {
            let mut out: Vec<Option<i32>> = Vec::new();
            for v in it: values
                invariant
                    it.seq() == all,
                    out.len() == it.index(),
                    forall|k: int|
                        0 <= k < out.len() ==> #[trigger] out@[k] == match avro_tree(all[k]) {
                            AvroTree::Int(x) => Some(x),
                            _ => None,
                        },
            {
                out.push(
                    match disassemble(v) {
                        AvroParts::Int(x) => Some(x),
                        _ => None,
                    },
                );
            }
            ColumnData::Int32(out)
        },
        ColumnType::Int64 => {
            let mut out: Vec<Option<i64>> = Vec::new();
            for v in it: values
                invariant
                    it.seq() == all,
                    out.len() == it.index(),
                    forall|k: int|
                        0 <= k < out.len() ==> #[trigger] out@[k] == match avro_tree(all[k]) {
                            AvroTree::Long(x) => Some(x),
                            _ => None,
                        },
            {
                out.push(
                    match disassemble(v) {
                        AvroParts::Long(x) => Some(x),
                        _ => None,
                    },
                );
            }
            ColumnData::Int64(out)
        },
        ColumnType::Float32 => {
            let mut out: Vec<Option<u32>> = Vec::new();
            for v in it: values
                invariant
                    it.seq() == all,
                    out.len() == it.index(),
                    forall|k: int|
                        0 <= k < out.len() ==> #[trigger] out@[k] == match avro_tree(all[k]) {
                            AvroTree::Float(x) => Some(x),
                            _ => None,
                        },
            {
                out.push(
                    match disassemble(v) {
                        AvroParts::Float(x) => Some(x),
                        _ => None,
                    },
                );
            }
            ColumnData::Float32(out)
        },
        ColumnType::Float64 => {
            let mut out: Vec<Option<u64>> = Vec::new();
            for v in it: values
                invariant
                    it.seq() == all,
                    out.len() == it.index(),
                    forall|k: int|
                        0 <= k < out.len() ==> #[trigger] out@[k] == match avro_tree(all[k]) {
                            AvroTree::Double(x) => Some(x),
                            _ => None,
                        },
            {
                out.push(
                    match disassemble(v) {
                        AvroParts::Double(x) => Some(x),
                        _ => None,
                    },
                );
            }
            ColumnData::Float64(out)
        },
        ColumnType::Utf8 => {
            let mut out: Vec<Option<String>> = Vec::new();
            for v in it: values
                invariant
                    it.seq() == all,
                    out.len() == it.index(),
                    forall|k: int|
                        0 <= k < out.len() ==> match avro_tree(all[k]) {
                            AvroTree::Text(x) => (#[trigger] out@[k]) matches Some(s) && s@ == x,
                            _ => out@[k] is None,
                        },
            {
                out.push(
                    match disassemble(v) {
                        AvroParts::Text(x) => Some(x),
                        _ => None,
                    },
                );
            }
            ColumnData::Utf8(out)
        },
        ColumnType::Boolean => {
            let mut out: Vec<Option<bool>> = Vec::new();
            for v in it: values
                invariant
                    it.seq() == all,
                    out.len() == it.index(),
                    forall|k: int|
                        0 <= k < out.len() ==> #[trigger] out@[k] == match avro_tree(all[k]) {
                            AvroTree::Boolean(x) => Some(x),
                            _ => None,
                        },
            {
                out.push(
                    match disassemble(v) {
                        AvroParts::Boolean(x) => Some(x),
                        _ => None,
                    },
                );
            }
            ColumnData::Boolean(out)
        },
    }
}

/// The last field with id `id`.
pub open spec fn last_field_with_id(fields: Seq<SchemaField>, id: i32) -> Option<SchemaField>
    decreases fields.len(),
{
    if fields.len() == 0 {
        None
    } else if fields.last().id == id {
        Some(fields.last())
    } else {
        last_field_with_id(fields.drop_last(), id)
    }
}

/// The last value that the fields hold under `name`; null where there is none.
pub open spec fn last_value(fields: Seq<(Seq<char>, AvroTree)>, name: Seq<char>) -> AvroTree
    decreases fields.len(),
{
    if fields.len() == 0 {
        AvroTree::Null
    } else if fields.last().0 == name {
        fields.last().1
    } else {
        last_value(fields.drop_last(), name)
    }
}

/// The records among the values of a file, as lists of fields.
pub open spec fn records_in(ts: Seq<AvroTree>) -> Seq<Seq<(Seq<char>, AvroTree)>>
    decreases ts.len(),
{
    if ts.len() == 0 {
        Seq::empty()
    } else {
        match ts.last() {
            AvroTree::Record(fields) => records_in(ts.drop_last()).push(fields),
            _ => records_in(ts.drop_last()),
        }
    }
}

/// The values of the column called `name`, one per record.
pub open spec fn column_values(
    records: Seq<Seq<(Seq<char>, AvroTree)>>,
    name: Seq<char>,
) -> Seq<AvroTree> {
    records.map_values(|fields: Seq<(Seq<char>, AvroTree)>| last_value(fields, name))
}

/// The fields of `apache_avro` records.
pub open spec fn outside_fields(v: Seq<(String, apache_avro::types::Value)>) -> Seq<
    (Seq<char>, AvroTree),
> {
    v.map_values(|f: (String, apache_avro::types::Value)| (f.0@, avro_tree(f.1)))
}

fn last_value_named(fields: &Vec<(String, apache_avro::types::Value)>, name: &str) -> (r:
    apache_avro::types::Value)
    ensures
        avro_tree(r) == last_value(outside_fields(fields@), name@),
{
    let ghost ts = outside_fields(fields@);
    let mut i: usize = fields.len();
    assert(ts.take(i as int) =~= ts);
    while i > 0
        invariant
            i <= fields.len(),
            ts == outside_fields(fields@),
            last_value(ts.take(i as int), name@) == last_value(ts, name@),
        decreases i,
    {
        assert(ts.take(i as int).drop_last() =~= ts.take(i - 1));
        i = i - 1;
        if text::same(fields[i].0.as_str(), name) {
            return copy_value(&fields[i].1);
        }
    }
    assemble(AvroParts::Null)
}

/// Why an equality delete file could not be read.
#[derive(Debug)]
pub enum EqualityReadError {
    /// The bytes are no Avro container file.
    Avro(AvroFailure),
    /// The schema has no field with this id.
    UnknownField(i32),
    /// The file has no column with this name.
    MissingColumn(String),
}

/// The first place of a name.
pub open spec fn place_of(names: Seq<Seq<char>>, name: Seq<char>) -> Option<int>
    decreases names.len(),
{
    if names.len() == 0 {
        None
    } else {
        match place_of(names.drop_last(), name) {
            Some(i) => Some(i),
            None => if names.last() == name {
                Some(names.len() - 1)
            } else {
                None
            },
        }
    }
}

fn find_place(names: &Vec<String>, name: &str) -> (r: Option<usize>)
    ensures
        match r {
            Some(i) => i < names.len() && place_of(text::texts(names@), name@) == Some(i as int),
            None => place_of(text::texts(names@), name@) is None,
        },
{
    let ghost all = text::texts(names@);
    let mut found: Option<usize> = None;
    let mut i: usize = 0;
    assert(all.take(0) =~= Seq::empty());
    while i < names.len()
        invariant
            i <= names.len(),
            all == text::texts(names@),
            match found {
                Some(k) => k < i && place_of(all.take(i as int), name@) == Some(k as int),
                None => place_of(all.take(i as int), name@) is None,
            },
        decreases names.len() - i,
    {
        assert(all.take(i + 1).drop_last() =~= all.take(i as int));
        assert(all[i as int] == names@[i as int]@);
        if found.is_none() && text::same(names[i].as_str(), name) {
            found = Some(i);
        }
        i = i + 1;
    }
    assert(all.take(i as int) =~= all);
    found
}

/// The columns hold what the records say about the fields with the given ids.
pub open spec fn equality_columns_hold(
    columns: Seq<(String, ColumnData)>,
    records: Seq<Seq<(Seq<char>, AvroTree)>>,
    ids: Seq<i32>,
    schema: TableSchema,
) -> bool {
    &&& columns.len() == ids.len()
    &&& forall|k: int|
        #![trigger columns[k]]
        0 <= k < ids.len() ==> {
            let field = last_field_with_id(schema.fields@, ids[k])->0;
            &&& columns[k].0@ == field.name@
            &&& column_holds(columns[k].1, column_values(records, field.name@), field.type_str@)
        }
}

/// The schema has a field for each of the ids.
pub open spec fn ids_resolve(ids: Seq<i32>, schema: TableSchema) -> bool {
    forall|k: int|
        0 <= k < ids.len() ==> last_field_with_id(schema.fields@, #[trigger] ids[k]) is Some
}

fn last_field<'a>(schema: &'a TableSchema, id: i32) -> (r: Option<&'a SchemaField>)
    ensures
        match r {
            Some(f) => last_field_with_id(schema.fields@, id) == Some(*f),
            None => last_field_with_id(schema.fields@, id) is None,
        },
{
    let mut i: usize = schema.fields.len();
    assert(schema.fields@.take(i as int) =~= schema.fields@);
    while i > 0
        invariant
            i <= schema.fields.len(),
            last_field_with_id(schema.fields@.take(i as int), id) == last_field_with_id(
                schema.fields@,
                id,
            ),
        decreases i,
    {
        assert(schema.fields@.take(i as int).drop_last() =~= schema.fields@.take(i - 1));
        i = i - 1;
        if schema.fields[i].id == id {
            return Some(&schema.fields[i]);
        }
    }
    None
}

/// Reads equality delete files.
#[derive(Debug)]
pub struct EqualityDeleteReader;

impl EqualityDeleteReader {
    pub fn new() -> (r: Self)
        ensures
            r == EqualityDeleteReader,
    {
        EqualityDeleteReader
    }

    /// The names of the fields with the given ids.
    pub fn equality_columns(equality_ids: &Vec<i32>, schema: &TableSchema) -> (r: Result<
        Vec<String>,
        EqualityReadError,
    >)
        ensures
            match r {
                Ok(names) => {
                    &&& ids_resolve(equality_ids@, *schema)
                    &&& names.len() == equality_ids.len()
                    &&& forall|k: int|
                        0 <= k < names.len() ==> (#[trigger] names@[k])@ == last_field_with_id(
                            schema.fields@,
                            equality_ids@[k],
                        )->0.name@
                },
                Err(EqualityReadError::UnknownField(id)) => exists|k: int|
                    #![trigger equality_ids@[k]]
                    0 <= k < equality_ids.len() && equality_ids@[k] == id && last_field_with_id(
                        schema.fields@,
                        id,
                    ) is None && ids_resolve(equality_ids@.take(k), *schema),
                Err(_) => false,
            },
    {
        let mut names: Vec<String> = Vec::new();
        let mut k: usize = 0;
        while k < equality_ids.len()
            invariant
                k <= equality_ids.len(),
                names.len() == k,
                forall|m: int|
                    0 <= m < k ==> last_field_with_id(
                        schema.fields@,
                        #[trigger] equality_ids@[m],
                    ) is Some,
                forall|m: int|
                    0 <= m < k ==> (#[trigger] names@[m])@ == last_field_with_id(
                        schema.fields@,
                        equality_ids@[m],
                    )->0.name@,
            decreases equality_ids.len() - k,
        {
            match last_field(schema, equality_ids[k]) {
                Some(field) => {
                    names.push(field.name.clone());
                },
                None => {
                    proof {
                        let front = equality_ids@.take(k as int);
                        assert forall|m: int| 0 <= m < front.len() implies last_field_with_id(
                            schema.fields@,
                            #[trigger] front[m],
                        ) is Some by {
                            assert(front[m] == equality_ids@[m]);
                        }
                        assert(equality_ids@[k as int] == equality_ids[k as int]);
                    }
                    return Err(EqualityReadError::UnknownField(equality_ids[k]));
                },
            }
            k = k + 1;
        }
        Ok(names)
    }

    /// The places of the columns `names` among the columns of an equality delete file,
    /// which has to have all of them.
    pub fn equality_places(names: &Vec<String>, file_columns: &Vec<String>) -> (r: Result<
        Vec<usize>,
        EqualityReadError,
    >)
        ensures
            ({
                let all = text::texts(file_columns@);
                match r {
                    Ok(places) => {
                        &&& places.len() == names.len()
                        &&& forall|k: int|
                            0 <= k < names.len() ==> place_of(all, (#[trigger] names@[k])@) == Some(
                                places@[k] as int,
                            )
                    },
                    Err(EqualityReadError::MissingColumn(name)) => exists|k: int|
                        #![trigger names@[k]]
                        0 <= k < names.len() && name@ == names@[k]@ && place_of(
                            all,
                            names@[k]@,
                        ) is None && forall|j: int|
                            0 <= j < k ==> place_of(all, (#[trigger] names@[j])@) is Some,
                    Err(_) => false,
                }
            }),
    {
        let ghost all = text::texts(file_columns@);
        let mut places: Vec<usize> = Vec::new();
        let mut k: usize = 0;
        while k < names.len()
            invariant
                k <= names.len(),
                all == text::texts(file_columns@),
                places.len() == k,
                forall|j: int|
                    0 <= j < k ==> place_of(all, (#[trigger] names@[j])@) == Some(
                        places@[j] as int,
                    ),
            decreases names.len() - k,
        {
            match find_place(file_columns, names[k].as_str()) {
                Some(i) => {
                    places.push(i);
                },
                None => {
                    let name: String = names[k].clone();
                    assert(name@ == names@[k as int]@);
                    return Err(EqualityReadError::MissingColumn(name));
                },
            }
            k = k + 1;
        }
        Ok(places)
    }

    /// The columns of the fields `equality_ids` of an Avro equality delete
    /// file; `None` where it has no records.
    pub fn read_equality_deletes_avro(
        &self,
        bytes: &[u8],
        equality_ids: &Vec<i32>,
        schema: &TableSchema,
    ) -> (r: Result<Option<Vec<(String, ColumnData)>>, EqualityReadError>)
        ensures
            match r {
                Ok(found) => {
                    &&& is_readable(bytes@)
                    &&& avro_header_reads(bytes@)
                    &&& ids_resolve(equality_ids@, *schema)
                    &&& avro_read(bytes@) is Some
                    &&& match found {
                        None => records_in(avro_read(bytes@)->0).len() == 0,
                        Some(columns) => {
                            &&& records_in(avro_read(bytes@)->0).len() > 0
                            &&& equality_columns_hold(
                                columns@,
                                records_in(avro_read(bytes@)->0),
                                equality_ids@,
                                *schema,
                            )
                        },
                    }
                },
                Err(EqualityReadError::UnknownField(id)) => is_readable(bytes@)
                    && avro_header_reads(bytes@) && exists|k: int|
                    #![trigger equality_ids@[k]]
                    0 <= k < equality_ids.len() && equality_ids@[k] == id && last_field_with_id(
                        schema.fields@,
                        id,
                    ) is None && ids_resolve(equality_ids@.take(k), *schema),
                Err(EqualityReadError::Avro(AvroFailure::Header)) => !is_readable(bytes@),
                Err(EqualityReadError::Avro(AvroFailure::Read(_))) => {
                    &&& is_readable(bytes@)
                    &&& !avro_header_reads(bytes@) || (ids_resolve(equality_ids@, *schema)
                        && avro_read(bytes@) is None)
                },
                Err(EqualityReadError::Avro(_)) => false,
                Err(EqualityReadError::MissingColumn(_)) => false,
            },
    {
        if !can_be_opened(bytes) {
            return Err(EqualityReadError::Avro(AvroFailure::Header));
        }
        match check_header(bytes) {
            Ok(_) => {},
            Err(e) => {
                return Err(EqualityReadError::Avro(AvroFailure::Read(e)));
            },
        }
        let names: Vec<String> = match Self::equality_columns(equality_ids, schema) {
            Ok(names) => names,
            Err(e) => {
                return Err(e);
            },
        };
        let values: Vec<apache_avro::types::Value> = match read_values(bytes) {
            Ok(values) => values,
            Err(e) => {
                return Err(EqualityReadError::Avro(AvroFailure::Read(e)));
            },
        };
        let ghost all = values@;
        let ghost ts = outside_trees(all);
        assert(avro_read(bytes@) == Some(ts));
        let mut rows: Vec<Vec<(String, apache_avro::types::Value)>> = Vec::new();
        assert(ts.take(0) =~= Seq::empty());
        for value in it: values
            invariant
                it.seq() == all,
                ts == outside_trees(all),
                rows.len() == records_in(ts.take(it.index() as int)).len(),
                forall|k: int|
                    0 <= k < rows.len() ==> outside_fields((#[trigger] rows@[k])@) == records_in(
                        ts.take(it.index() as int),
                    )[k],
        {
            let ghost n = it.index() as int;
            proof {
                assert(ts.take(n + 1).drop_last() =~= ts.take(n));
                assert(ts.take(n + 1).last() == avro_tree(value));
            }
            match disassemble(value) {
                AvroParts::Record(fields) => {
                    rows.push(fields);
                },
                _ => {},
            }
        }
        assert(ts.take(ts.len() as int) =~= ts);
        let ghost records = records_in(ts);
        if rows.len() == 0 {
            return Ok(None);
        }
        let mut columns: Vec<(String, ColumnData)> = Vec::new();
        let mut k: usize = 0;
        while k < equality_ids.len()
            invariant
                k <= equality_ids.len(),
                names.len() == equality_ids.len(),
                ids_resolve(equality_ids@, *schema),
                columns.len() == k,
                rows.len() == records.len(),
                forall|m: int|
                    0 <= m < rows.len() ==> outside_fields((#[trigger] rows@[m])@) == records[m],
                forall|m: int|
                    0 <= m < names.len() ==> (#[trigger] names@[m])@ == last_field_with_id(
                        schema.fields@,
                        equality_ids@[m],
                    )->0.name@,
                forall|m: int|
                    #![trigger columns@[m]]
                    0 <= m < k ==> {
                        let field = last_field_with_id(schema.fields@, equality_ids@[m])->0;
                        &&& columns@[m].0@ == field.name@
                        &&& column_holds(
                            columns@[m].1,
                            column_values(records, field.name@),
                            field.type_str@,
                        )
                    },
            decreases equality_ids.len() - k,
        {
            assert(last_field_with_id(schema.fields@, equality_ids@[k as int]) is Some);
            let field: &SchemaField = match last_field(schema, equality_ids[k]) {
                Some(field) => field,
                None => {
                    return Err(EqualityReadError::UnknownField(equality_ids[k]));
                },
            };
            let mut values: Vec<apache_avro::types::Value> = Vec::new();
            let mut i: usize = 0;
            while i < rows.len()
                invariant
                    i <= rows.len(),
                    values.len() == i,
                    rows.len() == records.len(),
                    forall|m: int|
                        0 <= m < rows.len() ==> outside_fields((#[trigger] rows@[m])@)
                            == records[m],
                    forall|m: int|
                        0 <= m < i ==> avro_tree(#[trigger] values@[m]) == last_value(
                            records[m],
                            field.name@,
                        ),
                decreases rows.len() - i,
            {
                let value: apache_avro::types::Value = last_value_named(
                    &rows[i],
                    field.name.as_str(),
                );
                values.push(value);
                i = i + 1;
            }
            assert(outside_trees(values@) =~= column_values(records, field.name@));
            let column: ColumnData = avro_to_arrow_array(values, field.type_str.as_str());
            columns.push((names[k].clone(), column));
            k = k + 1;
        }
        Ok(Some(columns))
    }
}

/// The columns of an equality delete file can be read back: each has the type of its
/// field, which is a known one, and no value is missing.
pub open spec fn columns_readable(
    columns: Seq<(String, ColumnData)>,
    fields: Seq<SchemaField>,
    rows: nat,
) -> bool {
    forall|k: int|
        #![trigger fields[k]]
        0 <= k < fields.len() ==> {
            let column = column_named(columns, fields[k].name@);
            &&& column is Some
            &&& type_known(fields[k].type_str@)
            &&& forall|i: int|
                0 <= i < rows ==> value_has_type(
                    #[trigger] column->0.cell(i),
                    column_type(fields[k].type_str@),
                )
        }
}

proof fn lemma_equality_record(
    columns: Seq<(String, ColumnData)>,
    fields: Seq<SchemaField>,
    rows: nat,
    i: int,
)
    requires
        sound_fields(fields),
        columns_readable(columns, fields, rows),
        0 <= i < rows,
    ensures
        has_form(
            equality_schema(fields),
            equality_record(columns, fields, i),
            equality_record(columns, fields, i),
        ),
        forall|k: int|
            0 <= k < fields.len() ==> last_value(
                equality_record(columns, fields, i)->Record_0,
                (#[trigger] fields[k]).name@,
            ) == column_named(columns, fields[k].name@)->0.cell(i),
{
    let record = equality_record(columns, fields, i);
    let shape = equality_shape(fields);
    let w = record->Record_0;
    let s = shape->Record_0;
    assert(is_own_shape(equality_schema(fields), shape));
    assert forall|k: int|
        #![trigger w[k]]
        #![trigger s[k]]
        0 <= k < s.len() implies w[k].0 == s[k].0 && reads_as(s[k].1, w[k].1, w[k].1) by {
        let f = fields[k];
        assert(value_has_type(
            column_named(columns, f.name@)->0.cell(i),
            column_type(f.type_str@),
        ));
    }
    assert(reads_as(shape, record, record));
    assert forall|k: int| 0 <= k < fields.len() implies last_value(
        w,
        (#[trigger] fields[k]).name@,
    ) == column_named(columns, fields[k].name@)->0.cell(i) by {
        assert forall|m: int| k < m < w.len() implies (#[trigger] w[m]).0 != w[k].0 by {
            assert(fields[k].name@ != fields[m].name@);
        }
        lemma_last_value(w, k);
    }
}

proof fn lemma_last_value(fields: Seq<(Seq<char>, AvroTree)>, k: int)
    requires
        0 <= k < fields.len(),
        forall|m: int| k < m < fields.len() ==> (#[trigger] fields[m]).0 != fields[k].0,
    ensures
        last_value(fields, fields[k].0) == fields[k].1,
    decreases fields.len(),
{
    if k < fields.len() - 1 {
        let front = fields.drop_last();
        assert(fields[fields.len() - 1].0 != fields[k].0);
        assert forall|m: int| k < m < front.len() implies (#[trigger] front[m]).0
            != front[k].0 by {
            assert(fields[m].0 != fields[k].0);
        }
        lemma_last_value(front, k);
    }
}

proof fn lemma_records_in(records: Seq<AvroTree>)
    requires
        forall|i: int| 0 <= i < records.len() ==> (#[trigger] records[i]) is Record,
    ensures
        records_in(records).len() == records.len(),
        forall|i: int|
            0 <= i < records.len() ==> #[trigger] records_in(records)[i] == records[i]->Record_0,
    decreases records.len(),
{
    if records.len() > 0 {
        let front = records.drop_last();
        assert forall|i: int| 0 <= i < front.len() implies (#[trigger] front[i]) is Record by {
            assert(front[i] == records[i]);
        }
        assert(records[records.len() - 1] == records.last());
        lemma_records_in(front);
    }
}

/// An equality delete file gives back the columns that it was written with: what
/// [`EqualityDeleteReader::read_equality_deletes_avro`] finds in the file has the names
/// and the values of the written columns, where these have the types of their fields,
/// no value is missing, the names and ids of the fields are distinct and the schema and
/// each row have a moderate size.
pub proof fn law_equality_deletes_read_back(
    columns: Seq<(String, ColumnData)>,
    ids: Seq<i32>,
    schema: TableSchema,
    rows: nat,
    bytes: Seq<u8>,
    found: Seq<(String, ColumnData)>,
    k: int,
)
    requires
        ids_known(ids, schema),
        forall|m: int|
            0 <= m < ids.len() ==> last_field_with_id(schema.fields@, #[trigger] ids[m])
                == field_with_id(schema.fields@, ids[m]),
        sound_fields(fields_of(ids, schema)),
        columns_readable(columns, fields_of(ids, schema), rows),
        all_moderate(
            equality_schema(fields_of(ids, schema)),
            equality_records(columns, fields_of(ids, schema), rows),
        ),
        reads_back(
            equality_schema(fields_of(ids, schema)),
            equality_records(columns, fields_of(ids, schema), rows),
            bytes,
        ),
        avro_read(bytes) is Some ==> equality_columns_hold(
            found,
            records_in(avro_read(bytes)->0),
            ids,
            schema,
        ),
        0 <= k < ids.len(),
    ensures
        is_readable(bytes),
        avro_read(bytes) is Some,
        records_in(avro_read(bytes)->0).len() == rows,
        ({
            let name = fields_of(ids, schema)[k].name@;
            &&& found.len() == ids.len()
            &&& found[k].0@ == name
            &&& found[k].1.rows() == rows
            &&& forall|i: int|
                0 <= i < rows ==> #[trigger] found[k].1.cell(i) == column_named(
                    columns,
                    name,
                )->0.cell(i)
        }),
{
    let fields = fields_of(ids, schema);
    let text = equality_schema(fields);
    let records = equality_records(columns, fields, rows);
    assert forall|i: int| #![trigger records[i]] 0 <= i < records.len() implies has_form(
        text,
        records[i],
        records[i],
    ) by {
        lemma_equality_record(columns, fields, rows, i);
    }
    assert(have_form(text, records, records));
    assert(avro_read(bytes) == Some(records));
    lemma_records_in(records);
    let read = records_in(records);
    let name = fields[k].name@;
    assert(last_field_with_id(schema.fields@, ids[k]) == field_with_id(schema.fields@, ids[k]));
    assert(last_field_with_id(schema.fields@, ids[k])->0 == fields[k]);
    let column = found[k].1;
    let values = column_values(read, name);
    assert(column_holds(column, values, fields[k].type_str@));
    assert forall|i: int| 0 <= i < rows implies #[trigger] column.cell(i) == column_named(
        columns,
        name,
    )->0.cell(i) by {
        lemma_equality_record(columns, fields, rows, i);
        assert(read[i] == records[i]->Record_0);
        assert(values[i] == last_value(read[i], name));
        assert(values[i] == column_named(columns, name)->0.cell(i));
        assert(cell_holds(column.cell(i), values[i], fields[k].type_str@));
        assert(value_has_type(values[i], column_type(fields[k].type_str@)));
    }
}

/// A path without the scheme of local files.
pub open spec fn is_bare(path: Seq<char>, bare: Seq<char>) -> bool {
    ||| path == "file://"@ + bare
    ||| !"file://"@.is_prefix_of(path) && path == bare
}

proof fn lemma_bare(path: Seq<char>)
    ensures
        is_bare(path, clean_path(path)),
        forall|bare: Seq<char>| is_bare(path, bare) ==> bare == clean_path(path),
{
    reveal_strlit("file://");
    if "file://"@.is_prefix_of(path) {
        assert(path =~= "file://"@ + clean_path(path));
    }
    assert forall|bare: Seq<char>| is_bare(path, bare) implies bare == clean_path(path) by {
        if path == "file://"@ + bare {
            assert("file://"@.is_prefix_of(path));
            assert(path.skip(7) =~= bare);
        }
    }
}

/// A row of a data file is deleted exactly where it is a row number that is listed under
/// a path of which, both without a scheme, the one is the end of the other.
pub proof fn law_deletes_are_found_by_the_ends_of_paths(
    m: Map<Seq<char>, Set<i64>>,
    target: Seq<char>,
    bare: Seq<char>,
    x: u32,
)
    requires
        is_bare(target, bare),
    ensures
        positions_deleted(m, target).contains(x as i64) <==> exists|p: Seq<char>, b: Seq<char>|
            #![trigger is_bare(p, b)]
            m.dom().contains(p) && m[p].contains(x as i64) && is_bare(p, b) && (b.is_suffix_of(bare)
                || bare.is_suffix_of(b)),
        rows_deleted(m, target).contains(x) <==> positions_deleted(m, target).contains(x as i64),
{
    lemma_bare(target);
    if positions_deleted(m, target).contains(x as i64) {
        let p = choose|p: Seq<char>| #[trigger]
            m.dom().contains(p) && paths_match(p, target) && m[p].contains(x as i64);
        lemma_bare(p);
        assert(is_bare(p, clean_path(p)));
        assert(clean_path(p) == bare ==> bare.is_suffix_of(clean_path(p)));
    }
    if exists|p: Seq<char>, b: Seq<char>|
        #![trigger is_bare(p, b)]
        m.dom().contains(p) && m[p].contains(x as i64) && is_bare(p, b) && (b.is_suffix_of(bare)
            || bare.is_suffix_of(b)) {
        let (p, b) = choose|p: Seq<char>, b: Seq<char>|
            #![trigger is_bare(p, b)]
            m.dom().contains(p) && m[p].contains(x as i64) && is_bare(p, b) && (b.is_suffix_of(bare)
                || bare.is_suffix_of(b));
        lemma_bare(p);
        assert(m.dom().contains(p) && paths_match(p, target));
    }
}

/// A data file is known by its name: what is listed under the name is deleted of the file
/// in any directory, and what is listed under the file in a directory is deleted of the
/// file of that name.
pub proof fn law_deletes_reach_the_file_in_its_directory(
    m: Map<Seq<char>, Set<i64>>,
    dir: Seq<char>,
    name: Seq<char>,
    x: u32,
)
    ensures
        m.dom().contains(name) && m[name].contains(x as i64) ==> rows_deleted(
            m,
            dir + "/"@ + name,
        ).contains(x) && positions_deleted(m, dir + "/"@ + name).contains(x as i64),
        m.dom().contains(dir + "/"@ + name) && m[dir + "/"@ + name].contains(x as i64)
            ==> rows_deleted(m, name).contains(x) && positions_deleted(m, name).contains(x as i64),
{
    let whole = dir + "/"@ + name;
    lemma_name_matches(dir, name);
    lemma_bare(name);
    lemma_bare(whole);
    law_deletes_are_found_by_the_ends_of_paths(m, whole, clean_path(whole), x);
    law_deletes_are_found_by_the_ends_of_paths(m, name, clean_path(name), x);
}

proof fn lemma_name_matches(dir: Seq<char>, name: Seq<char>)
    ensures
        ({
            let a = clean_path(name);
            let b = clean_path(dir + "/"@ + name);
            a.is_suffix_of(b) || b.is_suffix_of(a)
        }),
{
    reveal_strlit("file://");
    reveal_strlit("/");
    let scheme = "file://"@;
    let whole = dir + "/"@ + name;
    let a = clean_path(name);
    let b = clean_path(whole);
    assert(name.is_suffix_of(whole)) by {
        assert(whole.subrange(whole.len() - name.len(), whole.len() as int) =~= name);
    }
    if scheme.is_prefix_of(whole) {
        assert(scheme =~= whole.subrange(0, 7));
        assert(forall|i: int| 0 <= i < 7 ==> whole[i] == #[trigger] scheme[i]);
        if dir.len() >= 6 {
            assert(b =~= whole.subrange(7, whole.len() as int));
            assert(b.subrange(b.len() - name.len(), b.len() as int) =~= name);
            if scheme.is_prefix_of(name) {
                assert(b.subrange(b.len() - a.len(), b.len() as int) =~= a);
            }
        } else {
            // The separator stands within the scheme, so that it is one of its slashes.
            assert(whole[dir.len() as int] == '/');
            assert(scheme[dir.len() as int] == '/');
            assert(dir.len() == 5);
            assert(name[0] == whole[6]);
            assert(whole[6] == scheme[6]);
            assert(scheme[6] == '/' && scheme[0] == 'f');
            assert(!scheme.is_prefix_of(name)) by {
                if scheme.is_prefix_of(name) {
                    assert(scheme =~= name.subrange(0, 7));
                    assert(name[0] == scheme[0]);
                }
            }
            assert(b =~= name.skip(1));
            assert(a.subrange(a.len() - b.len(), a.len() as int) =~= b);
        }
    } else if scheme.is_prefix_of(name) {
        assert(b.subrange(b.len() - a.len(), b.len() as int) =~= a);
    }
}

/// The positions of a file are those that are listed with it, and no others.
pub proof fn law_positions_are_those_listed(
    pairs: Seq<(Seq<char>, i64)>,
    path: Seq<char>,
    pos: i64,
)
    ensures
        positions_of(pairs).dom().contains(path) && positions_of(pairs)[path].contains(pos)
            <==> pairs.contains((path, pos)),
        positions_of(pairs).dom().contains(path) ==> exists|i: int|
            0 <= i < pairs.len() && (#[trigger] pairs[i]).0 == path,
    decreases pairs.len(),
{
    if pairs.len() > 0 {
        let front = pairs.drop_last();
        law_positions_are_those_listed(front, path, pos);
        assert(pairs[pairs.len() - 1] == pairs.last());
        assert(pairs.contains((path, pos)) <==> front.contains((path, pos)) || pairs.last() == (
            path,
            pos,
        )) by {
            if pairs.contains((path, pos)) {
                let i = choose|i: int| 0 <= i < pairs.len() && pairs[i] == (path, pos);
                if i < front.len() {
                    assert(front[i] == (path, pos));
                }
            }
            if front.contains((path, pos)) {
                let i = choose|i: int| 0 <= i < front.len() && front[i] == (path, pos);
                assert(pairs[i] == (path, pos));
            }
        }
        if positions_of(front).dom().contains(path) {
            let i = choose|i: int| 0 <= i < front.len() && (#[trigger] front[i]).0 == path;
            assert(pairs[i] == front[i]);
        }
    }
}

/// Every row of every batch is a deleted position: the path in the one column and the position
/// in the other.
pub proof fn law_batches_list_their_rows(
    a: Seq<Vec<(String, ColumnData)>>,
    b: Seq<Vec<(String, ColumnData)>>,
    columns: Seq<(String, ColumnData)>,
    paths: Vec<Option<String>>,
    positions: Vec<Option<i64>>,
    i: int,
)
    ensures
        pairs_in(a + b) == pairs_in(a) + pairs_in(b),
        column_named(columns, "file_path"@) == Some(ColumnData::Utf8(paths)) && column_named(
            columns,
            "pos"@,
        ) == Some(ColumnData::Int64(positions)) && 0 <= i < paths@.len() ==> {
            &&& batch_pairs(columns).len() == paths@.len()
            &&& paths@[i] matches Some(p) ==> batch_pairs(columns)[i].0 == p@
            &&& positions@[i] matches Some(n) ==> batch_pairs(columns)[i].1 == n
        },
    decreases b.len(),
{
    if b.len() == 0 {
        assert(a + b =~= a);
        assert(pairs_in(a) + pairs_in(b) =~= pairs_in(a));
    } else {
        law_batches_list_their_rows(a, b.drop_last(), columns, paths, positions, i);
        assert((a + b).drop_last() =~= a + b.drop_last());
        assert(pairs_in(a + b) =~= pairs_in(a) + pairs_in(b));
    }
}

/// A column is found by its name: the first one that has it.
pub proof fn law_the_first_such_column_is_found(
    columns: Seq<(String, ColumnData)>,
    name: Seq<char>,
    i: int,
)
    requires
        0 <= i <= columns.len(),
        forall|j: int| 0 <= j < i ==> (#[trigger] columns[j]).0@ != name,
    ensures
        i == columns.len() ==> column_named(columns, name) is None,
        i < columns.len() && columns[i].0@ == name ==> column_named(columns, name) == Some(
            columns[i].1,
        ),
    decreases i,
{
    if i > 0 {
        let rest = columns.skip(1);
        assert(columns[0].0@ != name);
        assert forall|j: int| 0 <= j < i - 1 implies (#[trigger] rest[j]).0@ != name by {
            assert(rest[j] == columns[j + 1]);
        }
        law_the_first_such_column_is_found(rest, name, i - 1);
        if i < columns.len() {
            assert(rest[i - 1] == columns[i]);
        }
    }
}

/// Columns of the wrong type are refused, and only those: the first batch that has one decides.
pub proof fn law_mismatched_columns_are_refused(batches: Seq<Vec<(String, ColumnData)>>, i: int)
    requires
        0 <= i <= batches.len(),
        forall|j: int| 0 <= j < i ==> mismatch((#[trigger] batches[j])@) is None,
    ensures
        i == batches.len() ==> first_mismatch(batches) is None,
        i < batches.len() && mismatch(batches[i]@) is Some ==> first_mismatch(batches) == mismatch(
            batches[i]@,
        ),
    decreases batches.len(),
{
    if batches.len() > 0 {
        let front = batches.drop_last();
        let last = batches.len() - 1;
        assert(batches[last] == batches.last());
        if i <= last {
            assert forall|j: int| 0 <= j < i implies mismatch((#[trigger] front[j])@) is None by {
                assert(front[j] == batches[j]);
            }
            law_mismatched_columns_are_refused(front, i);
            if i < last {
                assert(front[i] == batches[i]);
            }
        } else {
            assert forall|j: int| 0 <= j < last implies mismatch(
                (#[trigger] front[j])@,
            ) is None by {
                assert(front[j] == batches[j]);
            }
            law_mismatched_columns_are_refused(front, last);
        }
    }
}

/// A delete file is recorded under the directory of the table, with a scheme: that of the
/// directory where it has one, else that of local files.
pub proof fn law_delete_files_are_recorded_with_a_scheme(
    base: Seq<char>,
    dir: Seq<char>,
    name: Seq<char>,
)
    ensures
        recorded_uri("s3://"@ + base, name) == "s3://"@ + base + "/"@ + name,
        recorded_uri("file://"@ + base, name) == "file://"@ + base + "/"@ + name,
        base.len() > 0 && base[0] != 'f' && base[0] != 's' ==> recorded_uri(base, name)
            == "file://"@
            + base + "/"@ + name,
        in_partition(Some(dir), name) == dir + "/"@ + name,
        in_partition(None, name) == name,
{
    reveal_strlit("s3://");
    reveal_strlit("file://");
    let s = "s3://"@;
    let f = "file://"@;
    let x = s + base + "/"@ + name;
    let y = f + base + "/"@ + name;
    let z = base + "/"@ + name;
    assert(x.subrange(0, s.len() as int) =~= s);
    assert(y.subrange(0, f.len() as int) =~= f);
    if base.len() > 0 && base[0] != 'f' && base[0] != 's' {
        assert(z[0] == base[0]);
        if f.is_prefix_of(z) {
            assert(z[0] == f[0]);
        }
        if s.is_prefix_of(z) {
            assert(z[0] == s[0]);
        }
        assert(f + z =~= f + base + "/"@ + name);
    }
}

/// The record of a row to delete says, for each field, the value of the row in the column of
/// that name.
pub proof fn law_equality_records_hold_their_rows(
    columns: Seq<(String, ColumnData)>,
    fields: Seq<SchemaField>,
    rows: nat,
    i: int,
    k: int,
)
    requires
        0 <= i < rows,
        0 <= k < fields.len(),
    ensures
        equality_records(columns, fields, rows).len() == rows,
        equality_records(columns, fields, rows)[i] matches AvroTree::Record(cells) && cells.len()
            == fields.len() && cells[k].0 == fields[k].name@ && (column_named(
            columns,
            fields[k].name@,
        ) matches Some(c) ==> cells[k].1 == c.cell(i)),
{
}

/// Of several fields of one number the last counts, and of several values of one name too.
pub proof fn law_the_last_such_value_counts(
    fields: Seq<SchemaField>,
    id: i32,
    values: Seq<(Seq<char>, AvroTree)>,
    name: Seq<char>,
    f: SchemaField,
    v: (Seq<char>, AvroTree),
)
    ensures
        f.id == id ==> last_field_with_id(fields.push(f), id) == Some(f),
        f.id != id ==> last_field_with_id(fields.push(f), id) == last_field_with_id(fields, id),
        v.0 == name ==> last_value(values.push(v), name) == v.1,
        v.0 != name ==> last_value(values.push(v), name) == last_value(values, name),
{
    assert(fields.push(f).drop_last() =~= fields);
    assert(values.push(v).drop_last() =~= values);
}

} // verus!
