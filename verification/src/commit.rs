//! The manifest timeline: commits, imports, rollback and retries.
//!
//! A commit reads the latest version of a table, computes the next one and
//! writes it under a name that must not exist yet. Where another writer was
//! faster the commit starts over. The store is the caller's; the next version
//! and the decision to retry are computed here.

use vstd::prelude::*;
use vstd::string::*;

use crate::manifest::{
    same_spec, ColumnStats, DeleteFile, IndexFile, Manifest, ManifestEntry, ManifestListEntry,
    PartitionSpec, PartitionValue, SortOrder, TableSchema,
};
use crate::order::Ranked;
use crate::text;
use crate::textmap::TextMap;

verus! {

// ---------------------------------------------------------------------------
// The entries of a snapshot
// ---------------------------------------------------------------------------

/// A data file without its path.
pub ghost struct EntryCore {
    pub file_size_bytes: i64,
    pub record_count: i64,
    pub index_files: Vec<IndexFile>,
    pub column_stats: Vec<(String, ColumnStats)>,
    pub partition_values: Vec<(String, PartitionValue)>,
    pub file_checksum: Option<String>,
    pub delete_files: Seq<DeleteFile>,
}

/// The entry without its path.
pub open spec fn core_of(e: ManifestEntry) -> EntryCore {
    EntryCore {
        file_size_bytes: e.file_size_bytes,
        record_count: e.record_count,
        index_files: e.index_files,
        column_stats: e.column_stats,
        partition_values: e.partition_values,
        file_checksum: e.file_checksum,
        delete_files: e.delete_files@,
    }
}

/// A data file without its deletes. A commit keeps the deletes of a table in one list
/// of the manifest; those of an entry are derived from it.
pub open spec fn without_deletes(core: EntryCore) -> EntryCore {
    EntryCore { delete_files: Seq::empty(), ..core }
}

/// The files of a snapshot, by path.
pub type Files = Map<Seq<char>, EntryCore>;

/// The files of a list of entries; of two entries with one path the later one
/// counts.
pub open spec fn files_of(entries: Seq<ManifestEntry>) -> Files
    decreases entries.len(),
{
    if entries.len() == 0 {
        Map::empty()
    } else {
        files_of(entries.drop_last()).insert(entries.last().file_path@, core_of(entries.last()))
    }
}

/// The files without those at `paths`.
pub open spec fn without_paths(files: Files, paths: Seq<Seq<char>>) -> Files
    decreases paths.len(),
{
    if paths.len() == 0 {
        files
    } else {
        without_paths(files, paths.drop_last()).remove(paths.last())
    }
}

/// The files with one more file. A file that is already there with more
/// indexes keeps them: a commit of an unindexed version must not undo what a
/// background indexer did.
pub open spec fn with_file(files: Files, path: Seq<char>, core: EntryCore) -> Files {
    if files.dom().contains(path) && files[path].index_files@.len() > core.index_files@.len() {
        files.insert(path, EntryCore { index_files: files[path].index_files, ..core })
    } else {
        files.insert(path, core)
    }
}

/// The files with the files of some entries added in order.
pub open spec fn with_files(files: Files, entries: Seq<ManifestEntry>) -> Files
    decreases entries.len(),
{
    if entries.len() == 0 {
        files
    } else {
        with_file(
            with_files(files, entries.drop_last()),
            entries.last().file_path@,
            without_deletes(core_of(entries.last())),
        )
    }
}

/// The files after a commit.
pub open spec fn committed_files(
    all: Seq<ManifestEntry>,
    add: Seq<ManifestEntry>,
    remove: Seq<Seq<char>>,
) -> Files {
    with_files(without_paths(files_of(all), remove), add)
}

/// The path to remove at position `i` is not there any more when its turn
/// comes.
pub open spec fn removal_missing(files: Files, remove: Seq<Seq<char>>, i: int) -> bool {
    !without_paths(files, remove.take(i)).dom().contains(remove[i])
}

/// The entries stand in ascending order of their paths.
pub open spec fn entries_ascend(entries: Seq<ManifestEntry>) -> bool {
    forall|i: int, j: int|
        #![trigger entries[i], entries[j]]
        0 <= i < j < entries.len() ==> text::text_less(
            entries[i].file_path@,
            entries[j].file_path@,
        )
}

/// The entries of a snapshot, in ascending order of their paths.
#[derive(Debug)]
pub struct EntryTable {
    pub entries: Vec<ManifestEntry>,
}

proof fn lemma_files_of_contains(entries: Seq<ManifestEntry>, path: Seq<char>)
    ensures
        files_of(entries).dom().contains(path) <==> exists|i: int|
            0 <= i < entries.len() && (#[trigger] entries[i]).file_path@ == path,
    decreases entries.len(),
{
    if entries.len() > 0 {
        let front = entries.drop_last();
        lemma_files_of_contains(front, path);
        if files_of(front).dom().contains(path) {
            let i = choose|i: int| 0 <= i < front.len() && (#[trigger] front[i]).file_path@ == path;
            assert(entries[i].file_path@ == path);
        }
        if entries.last().file_path@ == path {
            assert(entries[entries.len() - 1].file_path@ == path);
        }
        if exists|i: int| 0 <= i < entries.len() && (#[trigger] entries[i]).file_path@ == path {
            let i = choose|i: int|
                0 <= i < entries.len() && (#[trigger] entries[i]).file_path@ == path;
            if i < front.len() {
                assert(front[i].file_path@ == path);
            }
        }
    }
}

proof fn lemma_files_of_at(entries: Seq<ManifestEntry>, i: int)
    requires
        entries_ascend(entries),
        0 <= i < entries.len(),
    ensures
        files_of(entries).dom().contains(entries[i].file_path@),
        files_of(entries)[entries[i].file_path@] == core_of(entries[i]),
    decreases entries.len(),
{
    text::lemma_text_order();
    let front = entries.drop_last();
    if i < front.len() {
        assert forall|a: int, b: int|
            #![trigger front[a], front[b]]
            0 <= a < b < front.len() implies text::text_less(
            front[a].file_path@,
            front[b].file_path@,
        ) by {
            assert(front[a] == entries[a] && front[b] == entries[b]);
        }
        lemma_files_of_at(front, i);
        assert(text::text_less(entries[i].file_path@, entries[entries.len() - 1].file_path@));
        assert(entries[i].file_path@ != entries.last().file_path@);
    }
}

/// What ascending entries say of a path: the entry that has it, or nothing.
proof fn lemma_files_of_lookup(entries: Seq<ManifestEntry>)
    requires
        entries_ascend(entries),
    ensures
        forall|i: int|
            #![trigger entries[i]]
            0 <= i < entries.len() ==> files_of(entries).dom().contains(entries[i].file_path@)
                && files_of(entries)[entries[i].file_path@] == core_of(entries[i]),
        forall|path: Seq<char>| #[trigger]
            files_of(entries).dom().contains(path) ==> exists|i: int|
                0 <= i < entries.len() && (#[trigger] entries[i]).file_path@ == path,
{
    assert forall|i: int|
        #![trigger entries[i]]
        0 <= i < entries.len() implies files_of(entries).dom().contains(entries[i].file_path@)
        && files_of(entries)[entries[i].file_path@] == core_of(entries[i]) by {
        lemma_files_of_at(entries, i);
    }
    assert forall|path: Seq<char>| #[trigger]
        files_of(entries).dom().contains(path) implies exists|i: int|
        0 <= i < entries.len() && (#[trigger] entries[i]).file_path@ == path by {
        lemma_files_of_contains(entries, path);
    }
}

impl EntryTable {
    /// The entries stand in ascending order of their paths.
    pub open spec fn wf(self) -> bool {
        entries_ascend(self.entries@)
    }

    /// The files of the table.
    pub open spec fn view(self) -> Files {
        files_of(self.entries@)
    }

    /// An empty table.
    pub fn new() -> (r: Self)
        ensures
            r.wf(),
            r@ == Map::<Seq<char>, EntryCore>::empty(),
    {
        EntryTable { entries: Vec::new() }
    }

    /// The position of the path, or the position at which it belongs.
    fn find(&self, path: &String) -> (r: (usize, bool))
        requires
            self.wf(),
        ensures
            r.0 <= self.entries.len(),
            r.1 ==> r.0 < self.entries.len() && self.entries@[r.0 as int].file_path@ == path@,
            r.1 == self@.dom().contains(path@),
            !r.1 ==> forall|i: int|
                0 <= i < r.0 ==> text::text_less((#[trigger] self.entries@[i]).file_path@, path@),
            !r.1 ==> forall|i: int|
                r.0 <= i < self.entries.len() ==> text::text_less(
                    path@,
                    (#[trigger] self.entries@[i]).file_path@,
                ),
    {
        let mut lo: usize = 0;
        let mut hi: usize = self.entries.len();
        proof {
            text::lemma_text_order();
            lemma_files_of_lookup(self.entries@);
        }
        while lo < hi
            invariant
                lo <= hi <= self.entries.len(),
                self.wf(),
                forall|a: Seq<char>| !#[trigger] text::text_less(a, a),
                forall|a: Seq<char>, b: Seq<char>, c: Seq<char>| #[trigger]
                    text::text_less(a, b) && #[trigger] text::text_less(b, c) ==> text::text_less(
                        a,
                        c,
                    ),
                forall|i: int|
                    #![trigger self.entries@[i]]
                    0 <= i < self.entries.len() ==> self@.dom().contains(
                        self.entries@[i].file_path@,
                    ),
                forall|i: int|
                    0 <= i < lo
                        ==> text::text_less((#[trigger] self.entries@[i]).file_path@, path@),
                forall|i: int|
                    hi <= i < self.entries.len() ==> text::text_less(
                        path@,
                        (#[trigger] self.entries@[i]).file_path@,
                    ),
            decreases hi - lo,
        {
            let mid: usize = lo + (hi - lo) / 2;
            let at: &String = &self.entries[mid].file_path;
            if at.is_less(path) {
                assert forall|i: int| 0 <= i < mid + 1 implies text::text_less(
                    (#[trigger] self.entries@[i]).file_path@,
                    path@,
                ) by {
                    if i < mid {
                        assert(text::text_less(
                            self.entries@[i].file_path@,
                            self.entries@[mid as int].file_path@,
                        ));
                    }
                }
                lo = mid + 1;
            } else if path.is_less(at) {
                assert forall|i: int| mid <= i < self.entries.len() implies text::text_less(
                    path@,
                    (#[trigger] self.entries@[i]).file_path@,
                ) by {
                    if i > mid {
                        assert(text::text_less(
                            self.entries@[mid as int].file_path@,
                            self.entries@[i].file_path@,
                        ));
                    }
                }
                hi = mid;
            } else {
                proof {
                    text::lemma_text_less_total(at@, path@);
                    assert(self.entries@[mid as int].file_path@ == path@);
                }
                return (mid, true);
            }
        }
        proof {
            if self@.dom().contains(path@) {
                let i = choose|i: int|
                    0 <= i < self.entries@.len() && (#[trigger] self.entries@[i]).file_path@
                        == path@;
                assert(self.entries@[i].file_path@ == path@);
            }
        }
        (lo, false)
    }

    /// Removes the file at `path`. The result says whether it was there.
    pub fn remove(&mut self, path: &String) -> (r: bool)
        requires
            old(self).wf(),
        ensures
            final(self).wf(),
            final(self)@ == old(self)@.remove(path@),
            r == old(self)@.dom().contains(path@),
    {
        let ghost before = self.entries@;
        let (at, found) = self.find(path);
        if found {
            self.entries.remove(at);
            proof {
                text::lemma_text_order();
                let now = self.entries@;
                assert forall|a: int, b: int|
                    #![trigger now[a], now[b]]
                    0 <= a < b < now.len() implies text::text_less(
                    now[a].file_path@,
                    now[b].file_path@,
                ) by {
                    let x = if a < at {
                        a
                    } else {
                        a + 1
                    };
                    let y = if b < at {
                        b
                    } else {
                        b + 1
                    };
                    assert(now[a] == before[x] && now[b] == before[y]);
                }
                lemma_files_of_lookup(before);
                lemma_files_of_lookup(now);
                assert forall|p: Seq<char>| files_of(now).dom().contains(p) <==> files_of(
                    before,
                ).remove(path@).dom().contains(p) by {
                    if files_of(now).dom().contains(p) {
                        let i = choose|i: int|
                            0 <= i < now.len() && (#[trigger] now[i]).file_path@ == p;
                        let x = if i < at {
                            i
                        } else {
                            i + 1
                        };
                        assert(before[x].file_path@ == p);
                        if x < at {
                            assert(text::text_less(
                                before[x].file_path@,
                                before[at as int].file_path@,
                            ));
                        } else {
                            assert(text::text_less(
                                before[at as int].file_path@,
                                before[x].file_path@,
                            ));
                        }
                    }
                    if files_of(before).dom().contains(p) && p != path@ {
                        let x = choose|x: int|
                            0 <= x < before.len() && (#[trigger] before[x]).file_path@ == p;
                        let i = if x < at {
                            x
                        } else {
                            x - 1
                        };
                        assert(now[i] == before[x]);
                        assert(now[i].file_path@ == p);
                    }
                }
                assert forall|p: Seq<char>| files_of(now).dom().contains(p) implies files_of(now)[p]
                    == files_of(before).remove(path@)[p] by {
                    let i = choose|i: int|
                        0 <= i < now.len() && (#[trigger] now[i]).file_path@ == p;
                    let x = if i < at {
                        i
                    } else {
                        i + 1
                    };
                    assert(now[i] == before[x]);
                    assert(before[x].file_path@ == p);
                }
                assert(files_of(now) =~= files_of(before).remove(path@));
            }
            true
        } else {
            assert(self@ =~= self@.remove(path@));
            false
        }
    }

    /// Adds a file, in place of the one with its path.
    pub fn put(&mut self, entry: ManifestEntry)
        requires
            old(self).wf(),
        ensures
            final(self).wf(),
            final(self)@ == old(self)@.insert(entry.file_path@, core_of(entry)),
    {
        let ghost before = self.entries@;
        let (at, found) = self.find(&entry.file_path);
        if found {
            self.entries.set(at, entry);
        } else {
            self.entries.insert(at, entry);
        }
        proof {
            self.lemma_placed(before, at as int, found, entry);
        }
    }

    /// Adds a file; one that is already there with more indexes keeps them.
    pub fn put_keeping_indexes(&mut self, entry: ManifestEntry)
        requires
            old(self).wf(),
        ensures
            final(self).wf(),
            final(self)@ == with_file(old(self)@, entry.file_path@, core_of(entry)),
    {
        let (at, found) = self.find(&entry.file_path);
        proof {
            lemma_files_of_lookup(self.entries@);
        }
        if found {
            let ghost here = self.entries@[at as int];
            if self.entries[at].index_files.len() > entry.index_files.len() {
                let existing: ManifestEntry = self.entries.remove(at);
                let merged: ManifestEntry = ManifestEntry {
                    index_files: existing.index_files,
                    ..entry
                };
                let ghost before = old(self).entries@;
                self.entries.insert(at, merged);
                proof {
                    assert(self.entries@ =~= before.update(at as int, merged));
                    self.lemma_placed(before, at as int, true, merged);
                }
                return ;
            }
        }
        self.put(entry);
    }

    proof fn lemma_placed(
        self,
        before: Seq<ManifestEntry>,
        at: int,
        found: bool,
        entry: ManifestEntry,
    )
        requires
            entries_ascend(before),
            0 <= at <= before.len(),
            found ==> at < before.len() && before[at].file_path@ == entry.file_path@
                && self.entries@
                == before.update(at, entry),
            !found ==> self.entries@ == before.insert(at, entry),
            !found ==> forall|i: int|
                0 <= i < at ==> text::text_less(
                    (#[trigger] before[i]).file_path@,
                    entry.file_path@,
                ),
            !found ==> forall|i: int|
                at <= i < before.len() ==> text::text_less(
                    entry.file_path@,
                    (#[trigger] before[i]).file_path@,
                ),
        ensures
            self.wf(),
            self@ == files_of(before).insert(entry.file_path@, core_of(entry)),
    {
        text::lemma_text_order();
        let now = self.entries@;
        let path = entry.file_path@;
        // Where the entry at position `i` of the new list stood before.
        let old_at = |i: int|
            if found || i < at {
                i
            } else {
                i - 1
            };
        assert forall|i: int| 0 <= i < now.len() && i != at implies now[i]
            == before[old_at(i)] by {}
        assert(now[at] == entry);
        assert forall|a: int, b: int|
            #![trigger now[a], now[b]]
            0 <= a < b < now.len() implies text::text_less(
            now[a].file_path@,
            now[b].file_path@,
        ) by {
            if found {
                assert(text::text_less(before[a].file_path@, before[b].file_path@));
            } else if a == at {
                assert(text::text_less(path, before[b - 1].file_path@));
            } else if b == at {
                assert(text::text_less(before[a].file_path@, path));
            } else {
                assert(text::text_less(
                    before[old_at(a)].file_path@,
                    before[old_at(b)].file_path@,
                ));
            }
        }
        lemma_files_of_lookup(before);
        lemma_files_of_lookup(now);
        let target = files_of(before).insert(path, core_of(entry));
        assert forall|p: Seq<char>| files_of(now).dom().contains(p) <==> target.dom().contains(
            p,
        ) by {
            if files_of(now).dom().contains(p) {
                let i = choose|i: int| 0 <= i < now.len() && (#[trigger] now[i]).file_path@ == p;
                if i != at {
                    assert(before[old_at(i)].file_path@ == p);
                }
            }
            if target.dom().contains(p) {
                if p == path {
                    assert(now[at].file_path@ == p);
                } else {
                    let x = choose|x: int|
                        0 <= x < before.len() && (#[trigger] before[x]).file_path@ == p;
                    let i = if found || x < at {
                        x
                    } else {
                        x + 1
                    };
                    assert(now[i] == before[x]);
                    assert(now[i].file_path@ == p);
                }
            }
        }
        assert forall|p: Seq<char>| files_of(now).dom().contains(p) implies files_of(now)[p]
            == target[p] by {
            let i = choose|i: int| 0 <= i < now.len() && (#[trigger] now[i]).file_path@ == p;
            if i == at {
                assert(now[at].file_path@ == p);
            } else {
                assert(now[i] == before[old_at(i)]);
                assert(before[old_at(i)].file_path@ == p);
                if i < at {
                    assert(text::text_less(now[i].file_path@, now[at].file_path@));
                } else {
                    assert(text::text_less(now[at].file_path@, now[i].file_path@));
                }
            }
        }
        assert(files_of(now) =~= target);
    }
}

// ---------------------------------------------------------------------------
// The delete list of a snapshot
// ---------------------------------------------------------------------------

/// The list holds a delete file with this path.
pub open spec fn lists_delete(list: Seq<DeleteFile>, path: Seq<char>) -> bool {
    exists|i: int| 0 <= i < list.len() && (#[trigger] list[i]).file_path@ == path
}

/// The list with one more delete file, unless it holds its path already.
pub open spec fn with_delete(list: Seq<DeleteFile>, d: DeleteFile) -> Seq<DeleteFile> {
    if lists_delete(list, d.file_path@) {
        list
    } else {
        list.push(d)
    }
}

/// The list with more delete files.
pub open spec fn with_deletes(list: Seq<DeleteFile>, ds: Seq<DeleteFile>) -> Seq<DeleteFile>
    decreases ds.len(),
{
    if ds.len() == 0 {
        list
    } else {
        with_delete(with_deletes(list, ds.drop_last()), ds.last())
    }
}

/// The list with the delete files of some entries.
pub open spec fn with_entry_deletes(list: Seq<DeleteFile>, entries: Seq<ManifestEntry>) -> Seq<
    DeleteFile,
>
    decreases entries.len(),
{
    if entries.len() == 0 {
        list
    } else {
        with_deletes(
            with_entry_deletes(list, entries.drop_last()),
            entries.last().delete_files@,
        )
    }
}

/// Adds delete files to a list that holds each path once.
fn add_deletes(list: &mut Vec<DeleteFile>, ds: Vec<DeleteFile>)
    ensures
        final(list)@ == with_deletes(old(list)@, ds@),
{
    let ghost start = list@;
    let ghost all = ds@;
    assert(all.take(0) =~= Seq::empty());
    for d in it: ds
        invariant
            it.seq() == all,
            list@ == with_deletes(start, all.take(it.index() as int)),
    {
        let ghost n = it.index() as int;
        assert(all.take(n + 1).drop_last() =~= all.take(n));
        assert(all[n] == d);
        let mut seen: bool = false;
        let mut k: usize = 0;
        while k < list.len() && !seen
            invariant
                k <= list.len(),
                !seen ==> forall|m: int|
                    0 <= m < k ==> (#[trigger] list@[m]).file_path@ != d.file_path@,
                seen ==> k < list.len() && list@[k as int].file_path@ == d.file_path@,
            decreases
                    list.len() - k,
                    if seen {
                        0int
                    } else {
                        1int
                    },
        {
            if text::same(list[k].file_path.as_str(), d.file_path.as_str()) {
                seen = true;
            } else {
                k = k + 1;
            }
        }
        assert(seen == lists_delete(list@, d.file_path@));
        if !seen {
            list.push(d);
        }
    }
    assert(all.take(all.len() as int) =~= all);
}

// ---------------------------------------------------------------------------
// Planning a commit
// ---------------------------------------------------------------------------

/// What a commit changes besides the files of the table.
#[derive(Debug, Clone)]
pub struct CommitMetadata {
    pub updated_schemas: Option<Vec<TableSchema>>,
    pub updated_schema_id: Option<i32>,
    pub updated_partition_specs: Option<Vec<PartitionSpec>>,
    pub updated_default_spec_id: Option<i32>,
    pub updated_properties: Option<Vec<(String, String)>>,
    pub removed_properties: Option<Vec<String>>,
    pub updated_sort_orders: Option<Vec<SortOrder>>,
    pub updated_default_sort_order_id: Option<i32>,
    pub updated_last_column_id: Option<i32>,
    /// Table format version of the new manifest; `None` keeps the current one.
    pub format_version: Option<i32>,
    pub is_fast_append: bool,
    /// Fail where a path to remove is not in the current snapshot.
    pub require_remove_paths_exist: bool,
    /// Skip a path to remove that is not in the current snapshot, in place of
    /// failing: a concurrent writer has removed it already.
    pub skip_missing_remove_paths: bool,
}

impl Default for CommitMetadata {
    fn default() -> (r: Self)
        ensures
            r.updated_schemas is None,
            r.updated_schema_id is None,
            r.updated_partition_specs is None,
            r.updated_default_spec_id is None,
            r.updated_properties is None,
            r.removed_properties is None,
            r.updated_sort_orders is None,
            r.updated_default_sort_order_id is None,
            r.updated_last_column_id is None,
            r.format_version is None,
            !r.is_fast_append,
            !r.require_remove_paths_exist,
            !r.skip_missing_remove_paths,
    {
        CommitMetadata {
            updated_schemas: None,
            updated_schema_id: None,
            updated_partition_specs: None,
            updated_default_spec_id: None,
            updated_properties: None,
            removed_properties: None,
            updated_sort_orders: None,
            updated_default_sort_order_id: None,
            updated_last_column_id: None,
            format_version: None,
            is_fast_append: false,
            require_remove_paths_exist: false,
            skip_missing_remove_paths: false,
        }
    }
}

/// A commit cannot go on: the file it wants to remove is gone.
#[derive(Debug, Clone)]
pub struct MissingRemovePath {
    /// Position in the list of paths to remove.
    pub index: usize,
    pub path: String,
    pub version: u64,
}

impl MissingRemovePath {
    /// The text of the error.
    pub fn message(&self) -> (r: String)
        ensures
            r@ == "Compaction precondition failed: candidate file '"@ + self.path@
                + "' was concurrently removed or replaced in snapshot v"@ + text::decimal(
                self.version as nat,
            ),
    {
        let mut r: String = "Compaction precondition failed: candidate file '".to_owned();
        r.append(self.path.as_str());
        r.append("' was concurrently removed or replaced in snapshot v");
        let version: String = text::u64_text(self.version);
        r.append(version.as_str());
        r
    }
}

/// The files and deletes of the next version.
///
/// The entries carry full paths and no deletes of their own, as manifests
/// record them.
#[derive(Debug)]
pub struct CommitPlan {
    pub entries: Vec<ManifestEntry>,
    pub delete_files: Vec<DeleteFile>,
}

/// The full location of a file: a path without a scheme that does not begin at
/// the file system's root lies under the table root.
pub open spec fn qualified_path(path: Seq<char>, root_uri: Seq<char>) -> Seq<char> {
    if text::occurs(path, "://"@) || (path.len() > 0 && path[0] == '/') {
        path
    } else {
        text::without_trailing(root_uri, '/') + "/"@ + text::without_leading(path, '/')
    }
}

/// The full location of a file.
pub fn qualify_path(path: &str, root_uri: &str) -> (r: String)
    ensures
        r@ == qualified_path(path@, root_uri@),
{
    if text::contains(path, "://") || text::begins_with(path, '/') {
        path.to_owned()
    } else {
        let mut r: String = text::trim_end_char(root_uri, '/');
        r.append("/");
        let rest: String = text::trim_start_char(path, '/');
        r.append(rest.as_str());
        r
    }
}

/// The entries list the files in ascending order of their paths, with their
/// full locations and without deletes.
pub open spec fn entries_record(
    entries: Seq<ManifestEntry>,
    keys: Seq<Seq<char>>,
    files: Files,
    root_uri: Seq<char>,
) -> bool {
    &&& entries.len() == keys.len()
    &&& forall|i: int, j: int|
        #![trigger keys[i], keys[j]]
        0 <= i < j < keys.len() ==> text::text_less(keys[i], keys[j])
    &&& forall|p: Seq<char>| #[trigger] files.dom().contains(p) <==> keys.contains(p)
    &&& forall|i: int|
        #![trigger entries[i]]
        0 <= i < entries.len() ==> {
            &&& entries[i].file_path@ == qualified_path(keys[i], root_uri)
            &&& core_of(entries[i]) == without_deletes(files[keys[i]])
        }
}

/// The entries record the files.
pub open spec fn records_files(
    entries: Seq<ManifestEntry>,
    files: Files,
    root_uri: Seq<char>,
) -> bool {
    exists|keys: Seq<Seq<char>>| #[trigger] entries_record(entries, keys, files, root_uri)
}

/// Whether a commit with these paths to remove is refused, and at which path.
pub open spec fn refused_at(
    all: Seq<ManifestEntry>,
    remove: Seq<Seq<char>>,
    require: bool,
    skip: bool,
    i: int,
) -> bool {
    &&& require
    &&& !skip
    &&& 0 <= i < remove.len()
    &&& removal_missing(files_of(all), remove, i)
    &&& forall|j: int| 0 <= j < i ==> !#[trigger] removal_missing(files_of(all), remove, j)
}

fn table_of(entries: Vec<ManifestEntry>) -> (r: EntryTable)
    ensures
        r.wf(),
        r@ == files_of(entries@),
{
    let ghost all = entries@;
    let mut table: EntryTable = EntryTable::new();
    assert(all.take(0) =~= Seq::empty());
    for e in it: entries
        invariant
            it.seq() == all,
            table.wf(),
            table@ == files_of(all.take(it.index() as int)),
    {
        let ghost n = it.index() as int;
        assert(all.take(n + 1).drop_last() =~= all.take(n));
        assert(all[n] == e);
        table.put(e);
    }
    assert(all.take(all.len() as int) =~= all);
    table
}

fn qualified_entries(table: EntryTable, root_uri: &str) -> (r: Vec<ManifestEntry>)
    requires
        table.wf(),
    ensures
        records_files(r@, table@, root_uri@),
{
    let ghost all = table.entries@;
    let ghost keys = all.map_values(|e: ManifestEntry| e.file_path@);
    proof {
        lemma_files_of_lookup(all);
    }
    let mut r: Vec<ManifestEntry> = Vec::new();
    for e in it: table.entries
        invariant
            it.seq() == all,
            keys == all.map_values(|e: ManifestEntry| e.file_path@),
            r.len() == it.index(),
            forall|i: int|
                #![trigger r@[i]]
                0 <= i < r.len() ==> {
                    &&& r@[i].file_path@ == qualified_path(keys[i], root_uri@)
                    &&& core_of(r@[i]) == without_deletes(core_of(all[i]))
                },
    {
        let file_path: String = qualify_path(e.file_path.as_str(), root_uri);
        let ghost core = core_of(e);
        let stored = ManifestEntry { file_path, delete_files: Vec::new(), ..e };
        assert(stored.delete_files@ =~= Seq::<DeleteFile>::empty());
        assert(core_of(stored) == without_deletes(core));
        r.push(stored);
    }
    proof {
        let files = files_of(all);
        assert forall|i: int, j: int|
            #![trigger keys[i], keys[j]]
            0 <= i < j < keys.len() implies text::text_less(keys[i], keys[j]) by {
            assert(text::text_less(all[i].file_path@, all[j].file_path@));
        }
        assert forall|p: Seq<char>| #[trigger] files.dom().contains(p) <==> keys.contains(p) by {
            if files.dom().contains(p) {
                let i = choose|i: int| 0 <= i < all.len() && (#[trigger] all[i]).file_path@ == p;
                assert(keys[i] == p);
            }
            if keys.contains(p) {
                let i = choose|i: int| 0 <= i < keys.len() && keys[i] == p;
                assert(all[i].file_path@ == p);
            }
        }
        assert forall|i: int|
            #![trigger r@[i]]
            0 <= i < r.len() implies {
            &&& r@[i].file_path@ == qualified_path(keys[i], root_uri@)
            &&& core_of(r@[i]) == without_deletes(files[keys[i]])
        } by {
            assert(keys[i] == all[i].file_path@);
        }
        assert(entries_record(r@, keys, files, root_uri@));
    }
    r
}

/// Computes the files and the delete list of the next version.
///
/// `all_entries` and `current_deletes` are those of the current version. A path
/// to remove that is not there is ignored, unless the commit requires it and
/// does not skip missing ones.
pub fn plan_commit(
    current_version: u64,
    all_entries: Vec<ManifestEntry>,
    current_deletes: Vec<DeleteFile>,
    add_entries: Vec<ManifestEntry>,
    remove_paths: &Vec<String>,
    require_remove_paths_exist: bool,
    skip_missing_remove_paths: bool,
    root_uri: &str,
) -> (r: Result<CommitPlan, MissingRemovePath>)
    ensures
        match r {
            Ok(plan) => {
                &&& forall|i: int|
                    !#[trigger] refused_at(
                        all_entries@,
                        text::texts(remove_paths@),
                        require_remove_paths_exist,
                        skip_missing_remove_paths,
                        i,
                    )
                &&& records_files(
                    plan.entries@,
                    committed_files(all_entries@, add_entries@, text::texts(remove_paths@)),
                    root_uri@,
                )
                &&& plan.delete_files@ == with_entry_deletes(current_deletes@, add_entries@)
            },
            Err(e) => {
                &&& refused_at(
                    all_entries@,
                    text::texts(remove_paths@),
                    require_remove_paths_exist,
                    skip_missing_remove_paths,
                    e.index as int,
                )
                &&& e.path@ == remove_paths@[e.index as int]@
                &&& e.version == current_version
            },
        },
{
    let ghost all = all_entries@;
    let ghost add = add_entries@;
    let ghost remove = text::texts(remove_paths@);
    let ghost files = files_of(all);
    let mut table: EntryTable = table_of(all_entries);
    let strict: bool = require_remove_paths_exist && !skip_missing_remove_paths;
    let mut i: usize = 0;
    assert(remove.take(0) =~= Seq::empty());
    while i < remove_paths.len()
        invariant
            i <= remove_paths.len(),
            all == all_entries@,
            files == files_of(all),
            remove == text::texts(remove_paths@),
            strict == (require_remove_paths_exist && !skip_missing_remove_paths),
            table.wf(),
            table@ == without_paths(files, remove.take(i as int)),
            strict ==> forall|j: int| 0 <= j < i ==> !#[trigger] removal_missing(files, remove, j),
        decreases remove_paths.len() - i,
    {
        proof {
            assert(remove.take(i + 1).drop_last() =~= remove.take(i as int));
            assert(remove[i as int] == remove_paths@[i as int]@);
        }
        let was_there: bool = table.remove(&remove_paths[i]);
        if !was_there && strict {
            assert(removal_missing(files, remove, i as int));
            return Err(
                MissingRemovePath {
                    index: i,
                    path: remove_paths[i].clone(),
                    version: current_version,
                },
            );
        }
        i = i + 1;
    }
    assert(remove.take(i as int) =~= remove);
    let ghost kept = without_paths(files, remove);
    let mut delete_files: Vec<DeleteFile> = current_deletes;
    let ghost deletes0 = delete_files@;
    assert(add.take(0) =~= Seq::empty());
    for e in it: add_entries
        invariant
            it.seq() == add,
            table.wf(),
            table@ == with_files(kept, add.take(it.index() as int)),
            delete_files@ == with_entry_deletes(deletes0, add.take(it.index() as int)),
    {
        let ghost n = it.index() as int;
        assert(add.take(n + 1).drop_last() =~= add.take(n));
        assert(add[n] == e);
        let ghost core = core_of(e);
        let ManifestEntry {
            file_path,
            file_size_bytes,
            record_count,
            index_files,
            delete_files: deletes,
            column_stats,
            partition_values,
            file_checksum,
        } = e;
        add_deletes(&mut delete_files, deletes);
        let stored = ManifestEntry {
            file_path,
            file_size_bytes,
            record_count,
            index_files,
            delete_files: Vec::new(),
            column_stats,
            partition_values,
            file_checksum,
        };
        assert(stored.delete_files@ =~= Seq::<DeleteFile>::empty());
        assert(core_of(stored) == without_deletes(core));
        table.put_keeping_indexes(stored);
    }
    assert(add.take(add.len() as int) =~= add);
    let entries: Vec<ManifestEntry> = qualified_entries(table, root_uri);
    proof {
        assert forall|k: int|
            !#[trigger] refused_at(
                all,
                remove,
                require_remove_paths_exist,
                skip_missing_remove_paths,
                k,
            ) by {
            if refused_at(all, remove, require_remove_paths_exist, skip_missing_remove_paths, k) {
                assert(!removal_missing(files, remove, k));
            }
        }
    }
    Ok(CommitPlan { entries, delete_files })
}

// ---------------------------------------------------------------------------
// The next version
// ---------------------------------------------------------------------------

/// The properties with some of them set.
pub open spec fn with_properties(
    properties: Map<Seq<char>, String>,
    updates: Seq<(String, String)>,
) -> Map<Seq<char>, String>
    decreases updates.len(),
{
    if updates.len() == 0 {
        properties
    } else {
        with_properties(properties, updates.drop_last()).insert(
            updates.last().0@,
            updates.last().1,
        )
    }
}

/// The properties without some of them.
pub open spec fn without_properties(
    properties: Map<Seq<char>, String>,
    keys: Seq<Seq<char>>,
) -> Map<Seq<char>, String>
    decreases keys.len(),
{
    if keys.len() == 0 {
        properties
    } else {
        without_properties(properties, keys.drop_last()).remove(keys.last())
    }
}

/// The properties after a commit: updates first, then removals.
pub open spec fn committed_properties(
    properties: Map<Seq<char>, String>,
    metadata: CommitMetadata,
) -> Map<Seq<char>, String> {
    let updated = match metadata.updated_properties {
        Some(updates) => with_properties(properties, updates@),
        None => properties,
    };
    match metadata.removed_properties {
        Some(keys) => without_properties(updated, text::texts(keys@)),
        None => updated,
    }
}

/// The schema of the table after a commit: the last one of the commit, else the last current
/// one.
pub open spec fn committed_schema(metadata: CommitMetadata, current: Manifest) -> Option<
    TableSchema,
> {
    let schemas = match metadata.updated_schemas {
        Some(schemas) => if schemas@.len() > 0 {
            schemas@
        } else {
            current.schemas@
        },
        None => current.schemas@,
    };
    if schemas.len() > 0 {
        Some(schemas.last())
    } else {
        None
    }
}

/// The schema that the manifests of a commit are written with: the last one of
/// the commit, else the last one of the current version. `None` stands for a
/// schema without fields.
pub fn table_schema<'a>(metadata: &'a CommitMetadata, current: &'a Manifest) -> (r: Option<
    &'a TableSchema,
>)
    ensures
        match r {
            Some(s) => committed_schema(*metadata, *current) == Some(*s),
            None => committed_schema(*metadata, *current) is None,
        },
        match r {
            Some(s) => {
                ||| metadata.updated_schemas matches Some(schemas) && schemas@.len() > 0 && *s
                    == schemas@.last()
                ||| !(metadata.updated_schemas matches Some(schemas) && schemas@.len() > 0)
                    && current.schemas@.len() > 0 && *s == current.schemas@.last()
            },
            None => !(metadata.updated_schemas matches Some(schemas) && schemas@.len() > 0)
                && current.schemas@.len() == 0,
        },
{
    match &metadata.updated_schemas {
        Some(schemas) => {
            if schemas.len() > 0 {
                return Some(&schemas[schemas.len() - 1]);
            }
        },
        None => {},
    }
    if current.schemas.len() > 0 {
        Some(&current.schemas[current.schemas.len() - 1])
    } else {
        None
    }
}

/// The partition spec after a commit: the last one of the commit, else the
/// current one.
pub open spec fn committed_spec(
    spec: PartitionSpec,
    metadata: CommitMetadata,
    current: Manifest,
) -> bool {
    match metadata.updated_partition_specs {
        Some(specs) => if specs@.len() > 0 {
            same_spec(spec, specs@.last())
        } else {
            spec == current.partition_spec
        },
        None => spec == current.partition_spec,
    }
}

/// The version that a commit makes out of the current one.
pub open spec fn is_next_manifest(
    next: Manifest,
    current: Manifest,
    current_version: u64,
    metadata: CommitMetadata,
    delete_files: Seq<DeleteFile>,
    manifest_list_path: Option<String>,
) -> bool {
    &&& next.version == current_version + 1
    &&& next.prev_version == Some(current_version)
    &&& next.entries@.len() == 0
    &&& next.delete_files@ == delete_files
    &&& next.manifest_list_path == manifest_list_path
    &&& next.schemas == match metadata.updated_schemas {
        Some(s) => s,
        None => current.schemas,
    }
    &&& next.current_schema_id == match metadata.updated_schema_id {
        Some(id) => id,
        None => current.current_schema_id,
    }
    &&& committed_spec(next.partition_spec, metadata, current)
    &&& next.partition_specs == match metadata.updated_partition_specs {
        Some(s) => s,
        None => current.partition_specs,
    }
    &&& next.default_spec_id == match metadata.updated_default_spec_id {
        Some(id) => id,
        None => current.default_spec_id,
    }
    &&& next.last_column_id == match metadata.updated_last_column_id {
        Some(id) => id,
        None => current.last_column_id,
    }
    &&& next.sort_orders == match metadata.updated_sort_orders {
        Some(s) => s,
        None => current.sort_orders,
    }
    &&& next.default_sort_order_id == match metadata.updated_default_sort_order_id {
        Some(id) => id,
        None => current.default_sort_order_id,
    }
    &&& next.format_version == match metadata.format_version {
        Some(v) => v,
        None => current.format_version,
    }
    &&& next.properties.wf()
    &&& next.properties@ == committed_properties(current.properties@, metadata)
}

/// Builds the version that a commit makes out of the current one.
pub fn next_manifest(
    current: Manifest,
    current_version: u64,
    metadata: CommitMetadata,
    delete_files: Vec<DeleteFile>,
    manifest_list_path: Option<String>,
) -> (r: Manifest)
    requires
        current_version < u64::MAX,
        current.properties.wf(),
    ensures
        is_next_manifest(
            r,
            current,
            current_version,
            metadata,
            delete_files@,
            manifest_list_path,
        ),
{
    let mut properties: TextMap<String> = current.properties;
    let ghost p0 = properties@;
    match metadata.updated_properties {
        Some(updates) => {
            let ghost all = updates@;
            assert(all.take(0) =~= Seq::empty());
            for u in it: updates
                invariant
                    it.seq() == all,
                    properties.wf(),
                    properties@ == with_properties(p0, all.take(it.index() as int)),
            {
                let ghost n = it.index() as int;
                assert(all.take(n + 1).drop_last() =~= all.take(n));
                assert(all[n] == u);
                let (key, value) = u;
                properties.insert(key, value);
            }
            assert(all.take(all.len() as int) =~= all);
        },
        None => {},
    }
    let ghost p1 = properties@;
    match &metadata.removed_properties {
        Some(keys) => {
            let ghost all = text::texts(keys@);
            let mut i: usize = 0;
            assert(all.take(0) =~= Seq::empty());
            while i < keys.len()
                invariant
                    i <= keys.len(),
                    all == text::texts(keys@),
                    properties.wf(),
                    properties@ == without_properties(p1, all.take(i as int)),
                decreases keys.len() - i,
            {
                assert(all.take(i + 1).drop_last() =~= all.take(i as int));
                assert(all[i as int] == keys@[i as int]@);
                properties.remove(keys[i].as_str());
                i = i + 1;
            }
            assert(all.take(i as int) =~= all);
        },
        None => {},
    }
    let (partition_spec, partition_specs) = match metadata.updated_partition_specs {
        Some(specs) => {
            if specs.len() > 0 {
                (specs[specs.len() - 1].copy(), specs)
            } else {
                (current.partition_spec, specs)
            }
        },
        None => (current.partition_spec, current.partition_specs),
    };
    Manifest {
        version: current_version + 1,
        entries: Vec::new(),
        prev_version: Some(current_version),
        schemas: match metadata.updated_schemas {
            Some(s) => s,
            None => current.schemas,
        },
        current_schema_id: match metadata.updated_schema_id {
            Some(id) => id,
            None => current.current_schema_id,
        },
        partition_spec,
        partition_specs,
        default_spec_id: match metadata.updated_default_spec_id {
            Some(id) => id,
            None => current.default_spec_id,
        },
        last_column_id: match metadata.updated_last_column_id {
            Some(id) => id,
            None => current.last_column_id,
        },
        sort_orders: match metadata.updated_sort_orders {
            Some(s) => s,
            None => current.sort_orders,
        },
        default_sort_order_id: match metadata.updated_default_sort_order_id {
            Some(id) => id,
            None => current.default_sort_order_id,
        },
        properties,
        manifest_list_path,
        format_version: match metadata.format_version {
            Some(v) => v,
            None => current.format_version,
        },
        delete_files,
    }
}

/// A manifest in the list of a version: all of its files and rows are added by that version.
pub open spec fn lists_added(
    e: ManifestListEntry,
    version: i64,
    file_count: usize,
    row_count: i64,
) -> bool {
    &&& e.content == 0
    &&& e.sequence_number == version
    &&& e.min_sequence_number == version
    &&& e.added_snapshot_id == version
    &&& e.added_files_count == file_count as i32
    &&& e.existing_files_count == 0
    &&& e.deleted_files_count == 0
    &&& e.added_rows_count == row_count
    &&& e.existing_rows_count == 0
    &&& e.deleted_rows_count == 0
    &&& e.partition_stats@.len() == 0
}

/// The manifest list entry of a manifest written by a commit of version
/// `version`.
pub fn list_entry(
    manifest_path: String,
    manifest_length: i64,
    partition_spec_id: i32,
    version: i64,
    file_count: usize,
    row_count: i64,
) -> (r: ManifestListEntry)
    ensures
        r.manifest_path == manifest_path,
        r.manifest_length == manifest_length,
        r.partition_spec_id == partition_spec_id,
        lists_added(r, version, file_count, row_count),
{
    ManifestListEntry {
        manifest_path,
        manifest_length,
        partition_spec_id,
        content: 0,
        sequence_number: version,
        min_sequence_number: version,
        added_snapshot_id: version,
        added_files_count: #[verifier::truncate] (file_count as i32),
        existing_files_count: 0,
        deleted_files_count: 0,
        added_rows_count: row_count,
        existing_rows_count: 0,
        deleted_rows_count: 0,
        partition_stats: Vec::new(),
    }
}

/// The absolute location of a file of the manifest directory.
pub open spec fn absolute_location(root_uri: Seq<char>, path: Seq<char>) -> Seq<char> {
    text::without_trailing(root_uri, '/') + "/"@ + text::without_leading(path, '/')
}

/// The absolute location of a file of the manifest directory.
pub fn manifest_location(root_uri: &str, path: &str) -> (r: String)
    ensures
        r@ == absolute_location(root_uri@, path@),
{
    let mut r: String = text::trim_end_char(root_uri, '/');
    r.append("/");
    let rest: String = text::trim_start_char(path, '/');
    r.append(rest.as_str());
    r
}

/// The version of an import: the current files with the imported ones in place
/// of those with the same path. The schemas, the partitioning, the sort orders, the
/// properties and the delete files stay; the number of the last column starts anew.
pub open spec fn is_import_manifest(
    next: Manifest,
    current: Manifest,
    current_version: u64,
    existing: Seq<ManifestEntry>,
    imported: Seq<ManifestEntry>,
) -> bool {
    &&& next.version == current_version + 1
    &&& next.prev_version == Some(current_version)
    &&& entries_ascend(next.entries@)
    &&& files_of(next.entries@) == files_of(existing + imported)
    &&& next.schemas == current.schemas
    &&& next.current_schema_id == current.current_schema_id
    &&& next.partition_spec == current.partition_spec
    &&& next.partition_specs == current.partition_specs
    &&& next.default_spec_id == current.default_spec_id
    &&& next.properties == current.properties
    &&& next.sort_orders == current.sort_orders
    &&& next.default_sort_order_id == current.default_sort_order_id
    &&& next.manifest_list_path == current.manifest_list_path
    &&& next.format_version == current.format_version
    &&& next.delete_files == current.delete_files
    &&& next.last_column_id == 0
}

/// Builds the version of an import.
pub fn import_manifest(
    current: Manifest,
    current_version: u64,
    existing: Vec<ManifestEntry>,
    imported: Vec<ManifestEntry>,
) -> (r: Manifest)
    requires
        current_version < u64::MAX,
    ensures
        is_import_manifest(r, current, current_version, existing@, imported@),
{
    let ghost old_entries = existing@;
    let ghost new_entries = imported@;
    let mut table: EntryTable = table_of(existing);
    assert(old_entries + new_entries.take(0) =~= old_entries);
    for e in it: imported
        invariant
            it.seq() == new_entries,
            table.wf(),
            table@ == files_of(old_entries + new_entries.take(it.index() as int)),
    {
        let ghost n = it.index() as int;
        proof {
            let now = old_entries + new_entries.take(n + 1);
            assert(now.drop_last() =~= old_entries + new_entries.take(n));
            assert(now.last() == e);
        }
        table.put(e);
    }
    assert(new_entries.take(new_entries.len() as int) =~= new_entries);
    let mut next: Manifest = Manifest::new_with_spec(
        current_version + 1,
        table.entries,
        Some(current_version),
        current.schemas,
        current.current_schema_id,
        current.partition_spec,
    );
    next.partition_specs = current.partition_specs;
    next.default_spec_id = current.default_spec_id;
    next.properties = current.properties;
    next.sort_orders = current.sort_orders;
    next.default_sort_order_id = current.default_sort_order_id;
    next.manifest_list_path = current.manifest_list_path;
    next.format_version = current.format_version;
    next.delete_files = current.delete_files;
    next
}

/// The manifest to commit does not follow the current version.
#[derive(Debug, Clone, Copy, PartialEq, Eq, Structural)]
pub struct VersionMismatch {
    pub expected: u64,
    pub got: u64,
}

impl VersionMismatch {
    /// The text of the error.
    pub fn message(&self) -> (r: String)
        ensures
            r@ == "Manifest version mismatch: expected "@ + text::decimal(self.expected as nat)
                + ", got "@ + text::decimal(self.got as nat),
    {
        let mut r: String = "Manifest version mismatch: expected ".to_owned();
        let expected: String = text::u64_text(self.expected);
        r.append(expected.as_str());
        r.append(", got ");
        let got: String = text::u64_text(self.got);
        r.append(got.as_str());
        r
    }
}

/// Whether a manifest follows the current version.
pub fn check_follows(version: u64, current_version: u64) -> (r: Result<(), VersionMismatch>)
    requires
        current_version < u64::MAX,
    ensures
        r == if version == current_version + 1 {
            Ok::<(), VersionMismatch>(())
        } else {
            Err(VersionMismatch { expected: (current_version + 1) as u64, got: version })
        },
{
    if version != current_version + 1 {
        Err(VersionMismatch { expected: current_version + 1, got: version })
    } else {
        Ok(())
    }
}

/// An earlier version as the version that follows the current one.
pub open spec fn rolled_back(target: Manifest, current_version: u64) -> Manifest {
    Manifest {
        version: (current_version + 1) as u64,
        prev_version: Some(current_version),
        ..target
    }
}

/// Builds the version of a rollback: a copy of the target under the next
/// version number.
pub fn rollback_manifest(target: Manifest, current_version: u64) -> (r: Manifest)
    requires
        current_version < u64::MAX,
    ensures
        r == rolled_back(target, current_version),
{
    let mut next: Manifest = target;
    next.version = current_version + 1;
    next.prev_version = Some(current_version);
    next
}

/// The name of the file that holds a version.
pub open spec fn version_file(version: u64) -> Seq<char> {
    "v"@ + text::decimal(version as nat) + ".json"@
}

/// The name of the file that holds a version.
pub fn version_file_name(version: u64) -> (r: String)
    ensures
        r@ == version_file(version),
{
    let mut r: String = "v".to_owned();
    let n: String = text::u64_text(version);
    r.append(n.as_str());
    r.append(".json");
    r
}

// ---------------------------------------------------------------------------
// Retries
// ---------------------------------------------------------------------------

/// Whether a store error says that the object exists already: another writer
/// committed this version.
pub fn is_already_exists(error: &str) -> (r: bool)
    ensures
        r == text::occurs(error@, "already exists"@),
{
    text::contains(error, "already exists")
}

/// What to do after a conflict.
#[derive(Debug, Clone, Copy, PartialEq, Eq, Structural)]
pub enum AfterConflict {
    /// Wait, then start over from the latest version.
    Retry { delay_ms: u64 },
    /// Give up.
    GiveUp,
}

/// How often a commit is tried.
pub const MAX_COMMIT_ATTEMPTS: u64 = 100;

/// How often an import, a manifest commit or a rollback is tried.
pub const MAX_OTHER_ATTEMPTS: u64 = 10;

/// The base delay after attempt number `attempt`, counted from zero: ten
/// milliseconds, doubled at most five times.
pub open spec fn base_delay_ms(attempt: u64) -> u64 {
    if attempt == 0 {
        10
    } else if attempt == 1 {
        20
    } else if attempt == 2 {
        40
    } else if attempt == 3 {
        80
    } else if attempt == 4 {
        160
    } else {
        320
    }
}

/// The wait after a commit met a conflict at attempt `attempt`, counted from
/// zero. `random` spreads concurrent writers out.
pub fn commit_delay_ms(attempt: u64, random: u64) -> (r: u64)
    ensures
        r == base_delay_ms(attempt) + random % base_delay_ms(attempt),
        base_delay_ms(attempt) <= r < 2 * base_delay_ms(attempt),
{
    let mut base: u64 = 10;
    let rounds: u64 = if attempt < 5 {
        attempt
    } else {
        5
    };
    let mut i: u64 = 0;
    while i < rounds
        invariant
            i <= rounds <= 5,
            base == base_delay_ms(i),
        decreases rounds - i,
    {
        base = base * 2;
        i = i + 1;
    }
    base + random % base
}

/// What follows a conflict: another attempt after a while, until there were too many.
pub open spec fn commit_retry(attempt: u64, random: u64) -> AfterConflict {
    if attempt + 1 < MAX_COMMIT_ATTEMPTS {
        AfterConflict::Retry {
            delay_ms: (base_delay_ms(attempt) + random % base_delay_ms(attempt)) as u64,
        }
    } else {
        AfterConflict::GiveUp
    }
}

/// What a commit does after a conflict at attempt `attempt`, counted from zero.
pub fn after_commit_conflict(attempt: u64, random: u64) -> (r: AfterConflict)
    ensures
        r == commit_retry(attempt, random),
{
    if attempt < MAX_COMMIT_ATTEMPTS - 1 {
        AfterConflict::Retry { delay_ms: commit_delay_ms(attempt, random) }
    } else {
        AfterConflict::GiveUp
    }
}

/// What follows a conflict of an import: a longer wait each time.
pub open spec fn import_retry(conflicts: u64) -> AfterConflict {
    if conflicts < MAX_OTHER_ATTEMPTS {
        AfterConflict::Retry { delay_ms: (20 * conflicts) as u64 }
    } else {
        AfterConflict::GiveUp
    }
}

/// What an import does after its conflict number `conflicts`, counted from one.
pub fn after_import_conflict(conflicts: u64) -> (r: AfterConflict)
    ensures
        r == import_retry(conflicts),
{
    if conflicts >= MAX_OTHER_ATTEMPTS {
        AfterConflict::GiveUp
    } else {
        AfterConflict::Retry { delay_ms: 20 * conflicts }
    }
}

/// What follows a conflict of a single manifest: the same wait each time.
pub open spec fn manifest_retry(conflicts: u64) -> AfterConflict {
    if conflicts < MAX_OTHER_ATTEMPTS {
        AfterConflict::Retry { delay_ms: 10 }
    } else {
        AfterConflict::GiveUp
    }
}

/// What a manifest commit or a rollback does after its conflict number
/// `conflicts`, counted from one.
pub fn after_manifest_conflict(conflicts: u64) -> (r: AfterConflict)
    ensures
        r == manifest_retry(conflicts),
{
    if conflicts >= MAX_OTHER_ATTEMPTS {
        AfterConflict::GiveUp
    } else {
        AfterConflict::Retry { delay_ms: 10 }
    }
}

// ---------------------------------------------------------------------------
// Laws
// ---------------------------------------------------------------------------

proof fn lemma_with_files_other(files: Files, entries: Seq<ManifestEntry>, path: Seq<char>)
    requires
        forall|i: int| 0 <= i < entries.len() ==> (#[trigger] entries[i]).file_path@ != path,
    ensures
        with_files(files, entries).dom().contains(path) == files.dom().contains(path),
        files.dom().contains(path) ==> with_files(files, entries)[path] == files[path],
    decreases entries.len(),
{
    if entries.len() > 0 {
        let front = entries.drop_last();
        assert forall|i: int| 0 <= i < front.len() implies (#[trigger] front[i]).file_path@
            != path by {
            assert(front[i] == entries[i]);
        }
        lemma_with_files_other(files, front, path);
        assert(entries[entries.len() - 1].file_path@ != path);
    }
}

proof fn lemma_without_paths(files: Files, paths: Seq<Seq<char>>, path: Seq<char>)
    ensures
        without_paths(files, paths).dom().contains(path) <==> files.dom().contains(path)
            && !paths.contains(path),
        without_paths(files, paths).dom().contains(path) ==> without_paths(files, paths)[path]
            == files[path],
    decreases paths.len(),
{
    if paths.len() > 0 {
        let front = paths.drop_last();
        lemma_without_paths(files, front, path);
        if front.contains(path) {
            let i = choose|i: int| 0 <= i < front.len() && front[i] == path;
            assert(paths[i] == path);
        }
        if paths.contains(path) {
            let i = choose|i: int| 0 <= i < paths.len() && paths[i] == path;
            if i < front.len() {
                assert(front[i] == path);
            }
        }
        if paths.last() == path {
            assert(paths[paths.len() - 1] == path);
        }
    }
}

/// A commit leaves every file alone that it neither removes nor adds.
pub proof fn law_commit_keeps_other_files(
    all: Seq<ManifestEntry>,
    add: Seq<ManifestEntry>,
    remove: Seq<Seq<char>>,
    path: Seq<char>,
)
    requires
        !remove.contains(path),
        forall|i: int| 0 <= i < add.len() ==> (#[trigger] add[i]).file_path@ != path,
    ensures
        committed_files(all, add, remove).dom().contains(path) == files_of(all).dom().contains(
            path,
        ),
        files_of(all).dom().contains(path) ==> committed_files(all, add, remove)[path] == files_of(
            all,
        )[path],
{
    lemma_without_paths(files_of(all), remove, path);
    lemma_with_files_other(without_paths(files_of(all), remove), add, path);
}

/// A file that a commit removes and does not add again is gone.
pub proof fn law_commit_removes_files(
    all: Seq<ManifestEntry>,
    add: Seq<ManifestEntry>,
    remove: Seq<Seq<char>>,
    path: Seq<char>,
)
    requires
        remove.contains(path),
        forall|i: int| 0 <= i < add.len() ==> (#[trigger] add[i]).file_path@ != path,
    ensures
        !committed_files(all, add, remove).dom().contains(path),
{
    lemma_without_paths(files_of(all), remove, path);
    lemma_with_files_other(without_paths(files_of(all), remove), add, path);
}

/// Every file that a commit adds is there afterwards with the size, rows,
/// statistics, partition and checksum of its last addition, and with at least
/// as many indexes.
pub proof fn law_commit_adds_files(
    all: Seq<ManifestEntry>,
    add: Seq<ManifestEntry>,
    remove: Seq<Seq<char>>,
    i: int,
)
    requires
        0 <= i < add.len(),
        forall|j: int|
            i < j < add.len() ==> (#[trigger] add[j]).file_path@ != add[i].file_path@,
    ensures
        ({
            let files = committed_files(all, add, remove);
            let path = add[i].file_path@;
            &&& files.dom().contains(path)
            &&& files[path].index_files@.len() >= add[i].index_files@.len()
            &&& files[path] == (EntryCore {
                index_files: files[path].index_files,
                ..without_deletes(core_of(add[i]))
            })
        }),
{
    let base = without_paths(files_of(all), remove);
    let front = add.take(i + 1);
    let rest = add.skip(i + 1);
    let path = add[i].file_path@;
    assert(front.last() == add[i]);
    lemma_with_files_split(base, front, rest);
    assert(front + rest =~= add);
    assert forall|j: int| 0 <= j < rest.len() implies (#[trigger] rest[j]).file_path@ != path by {
        assert(rest[j] == add[i + 1 + j]);
    }
    lemma_with_files_other(with_files(base, front), rest, path);
}

proof fn lemma_with_files_split(files: Files, a: Seq<ManifestEntry>, b: Seq<ManifestEntry>)
    ensures
        with_files(files, a + b) == with_files(with_files(files, a), b),
    decreases b.len(),
{
    if b.len() == 0 {
        assert(a + b =~= a);
    } else {
        lemma_with_files_split(files, a, b.drop_last());
        assert((a + b).drop_last() =~= a + b.drop_last());
    }
}

/// The paths of the list are distinct.
pub open spec fn deletes_distinct(list: Seq<DeleteFile>) -> bool {
    forall|i: int, j: int|
        #![trigger list[i], list[j]]
        0 <= i < j < list.len() ==> list[i].file_path@ != list[j].file_path@
}

proof fn lemma_with_deletes(list: Seq<DeleteFile>, ds: Seq<DeleteFile>)
    ensures
        list.is_prefix_of(with_deletes(list, ds)),
        deletes_distinct(list) ==> deletes_distinct(with_deletes(list, ds)),
        forall|i: int|
            0 <= i < ds.len() ==> lists_delete(
                with_deletes(list, ds),
                (#[trigger] ds[i]).file_path@,
            ),
    decreases ds.len(),
{
    if ds.len() > 0 {
        let front = ds.drop_last();
        lemma_with_deletes(list, front);
        let before = with_deletes(list, front);
        let now = with_deletes(list, ds);
        assert(list.is_prefix_of(now)) by {
            assert(now.subrange(0, list.len() as int) =~= before.subrange(0, list.len() as int));
        }
        assert forall|i: int| 0 <= i < ds.len() implies lists_delete(
            now,
            (#[trigger] ds[i]).file_path@,
        ) by {
            if i < front.len() {
                assert(front[i] == ds[i]);
                let k = choose|k: int|
                    0 <= k < before.len() && (#[trigger] before[k]).file_path@ == ds[i].file_path@;
                assert(now[k].file_path@ == ds[i].file_path@);
            } else if !lists_delete(before, ds.last().file_path@) {
                assert(now[now.len() - 1].file_path@ == ds[i].file_path@);
            }
        }
        if deletes_distinct(list) && !lists_delete(before, ds.last().file_path@) {
            assert forall|i: int, j: int|
                #![trigger now[i], now[j]]
                0 <= i < j < now.len() implies now[i].file_path@ != now[j].file_path@ by {
                assert(now[i] == before[i]);
                if j < before.len() {
                    assert(now[j] == before[j]);
                }
            }
        }
    } else {
        assert(list.subrange(0, list.len() as int) =~= list);
    }
}

/// A commit never drops a delete file and never lists one twice: the list of
/// the current version stays in front as it is, every delete file of an added
/// entry is listed, and a list with distinct paths keeps them distinct.
pub proof fn law_commit_keeps_deletes(list: Seq<DeleteFile>, entries: Seq<ManifestEntry>)
    ensures
        list.is_prefix_of(with_entry_deletes(list, entries)),
        deletes_distinct(list) ==> deletes_distinct(with_entry_deletes(list, entries)),
        forall|i: int, k: int|
            #![trigger entries[i].delete_files@[k]]
            0 <= i < entries.len() && 0 <= k < entries[i].delete_files@.len() ==> lists_delete(
                with_entry_deletes(list, entries),
                entries[i].delete_files@[k].file_path@,
            ),
    decreases entries.len(),
{
    if entries.len() > 0 {
        let front = entries.drop_last();
        law_commit_keeps_deletes(list, front);
        let before = with_entry_deletes(list, front);
        let now = with_entry_deletes(list, entries);
        lemma_with_deletes(before, entries.last().delete_files@);
        assert(list.is_prefix_of(now)) by {
            assert(now.subrange(0, list.len() as int) =~= before.subrange(0, list.len() as int))
                by {
                assert forall|k: int| 0 <= k < before.len() implies now[k] == before[k] by {
                    assert(now.subrange(0, before.len() as int)[k] == now[k]);
                }
            }
        }
        assert forall|i: int, k: int|
            #![trigger entries[i].delete_files@[k]]
            0 <= i < entries.len() && 0 <= k < entries[i].delete_files@.len() implies lists_delete(
            now,
            entries[i].delete_files@[k].file_path@,
        ) by {
            let path = entries[i].delete_files@[k].file_path@;
            if i < front.len() {
                assert(front[i] == entries[i]);
                assert(lists_delete(before, front[i].delete_files@[k].file_path@));
                let m = choose|m: int|
                    0 <= m < before.len() && (#[trigger] before[m]).file_path@ == path;
                assert(now.subrange(0, before.len() as int)[m] == now[m]);
                assert(now[m].file_path@ == path);
            }
        }
    } else {
        assert(list.subrange(0, list.len() as int) =~= list);
    }
}

/// Committing entries whose delete files are listed already leaves the list as
/// it is, so reading entries back and committing them again does not grow it.
pub proof fn law_recommit_adds_no_deletes(list: Seq<DeleteFile>, entries: Seq<ManifestEntry>)
    requires
        forall|i: int, k: int|
            #![trigger entries[i].delete_files@[k]]
            0 <= i < entries.len() && 0 <= k < entries[i].delete_files@.len() ==> lists_delete(
                list,
                entries[i].delete_files@[k].file_path@,
            ),
    ensures
        with_entry_deletes(list, entries) == list,
    decreases entries.len(),
{
    if entries.len() > 0 {
        let front = entries.drop_last();
        assert forall|i: int, k: int|
            #![trigger front[i].delete_files@[k]]
            0 <= i < front.len() && 0 <= k < front[i].delete_files@.len() implies lists_delete(
            list,
            front[i].delete_files@[k].file_path@,
        ) by {
            assert(front[i] == entries[i]);
            assert(lists_delete(list, entries[i].delete_files@[k].file_path@));
        }
        law_recommit_adds_no_deletes(list, front);
        let ds = entries.last().delete_files@;
        assert forall|k: int| 0 <= k < ds.len() implies lists_delete(
            list,
            (#[trigger] ds[k]).file_path@,
        ) by {
            assert(lists_delete(list, entries[entries.len() - 1].delete_files@[k].file_path@));
        }
        lemma_listed_deletes_add_nothing(list, ds);
    }
}

proof fn lemma_listed_deletes_add_nothing(list: Seq<DeleteFile>, ds: Seq<DeleteFile>)
    requires
        forall|k: int| 0 <= k < ds.len() ==> lists_delete(list, (#[trigger] ds[k]).file_path@),
    ensures
        with_deletes(list, ds) == list,
    decreases ds.len(),
{
    if ds.len() > 0 {
        let front = ds.drop_last();
        assert forall|k: int| 0 <= k < front.len() implies lists_delete(
            list,
            (#[trigger] front[k]).file_path@,
        ) by {
            assert(front[k] == ds[k]);
        }
        lemma_listed_deletes_add_nothing(list, front);
        assert(lists_delete(list, ds[ds.len() - 1].file_path@));
    }
}

/// An entry is known by its path and by what is recorded of it: two entries of which the
/// same is recorded agree in every field but the path.
pub proof fn law_records_are_complete(a: ManifestEntry, b: ManifestEntry)
    requires
        core_of(a) == core_of(b),
    ensures
        a.file_size_bytes == b.file_size_bytes,
        a.record_count == b.record_count,
        a.index_files == b.index_files,
        a.column_stats == b.column_stats,
        a.partition_values == b.partition_values,
        a.file_checksum == b.file_checksum,
        a.delete_files@ == b.delete_files@,
{
}

/// A file that a commit does not remove has, after it, no fewer indexes than before.
pub proof fn law_commit_loses_no_indexes(
    all: Seq<ManifestEntry>,
    add: Seq<ManifestEntry>,
    remove: Seq<Seq<char>>,
    path: Seq<char>,
)
    requires
        !remove.contains(path),
        files_of(all).dom().contains(path),
    ensures
        ({
            let files = committed_files(all, add, remove);
            &&& files.dom().contains(path)
            &&& files[path].index_files@.len() >= files_of(all)[path].index_files@.len()
        }),
{
    lemma_without_paths(files_of(all), remove, path);
    lemma_indexes_grow(without_paths(files_of(all), remove), add, path);
}

proof fn lemma_indexes_grow(files: Files, add: Seq<ManifestEntry>, path: Seq<char>)
    requires
        files.dom().contains(path),
    ensures
        with_files(files, add).dom().contains(path),
        with_files(files, add)[path].index_files@.len() >= files[path].index_files@.len(),
    decreases add.len(),
{
    if add.len() > 0 {
        lemma_indexes_grow(files, add.drop_last(), path);
    }
}

/// The last value that a list of updates gives a property.
pub open spec fn is_last_update(updates: Seq<(String, String)>, i: int) -> bool {
    &&& 0 <= i < updates.len()
    &&& forall|j: int| i < j < updates.len() ==> (#[trigger] updates[j]).0@ != updates[i].0@
}

proof fn lemma_with_properties(
    properties: Map<Seq<char>, String>,
    updates: Seq<(String, String)>,
    key: Seq<char>,
)
    ensures
        forall|i: int|
            #[trigger] is_last_update(updates, i) && updates[i].0@ == key ==> with_properties(
                properties,
                updates,
            ).dom().contains(key) && with_properties(properties, updates)[key] == updates[i].1,
        (forall|i: int| 0 <= i < updates.len() ==> (#[trigger] updates[i]).0@ != key) ==> (
        with_properties(properties, updates).dom().contains(key) == properties.dom().contains(key)
            && with_properties(properties, updates)[key] == properties[key]),
    decreases updates.len(),
{
    if updates.len() > 0 {
        let front = updates.drop_last();
        let last = updates.len() - 1;
        lemma_with_properties(properties, front, key);
        assert(updates[last] == updates.last());
        assert forall|i: int|
            #[trigger] is_last_update(updates, i) && updates[i].0@ == key implies with_properties(
            properties,
            updates,
        ).dom().contains(key) && with_properties(properties, updates)[key] == updates[i].1 by {
            if i < last {
                assert(updates[last].0@ != key);
                assert forall|j: int| i < j < front.len() implies (#[trigger] front[j]).0@
                    != front[i].0@ by {
                    assert(front[j] == updates[j]);
                }
                assert(is_last_update(front, i));
            }
        }
        if forall|i: int| 0 <= i < updates.len() ==> (#[trigger] updates[i]).0@ != key {
            assert forall|i: int| 0 <= i < front.len() implies (#[trigger] front[i]).0@ != key by {
                assert(front[i] == updates[i]);
            }
        }
    }
}

proof fn lemma_without_properties(
    properties: Map<Seq<char>, String>,
    keys: Seq<Seq<char>>,
    key: Seq<char>,
)
    ensures
        without_properties(properties, keys).dom().contains(key) == (properties.dom().contains(key)
            && !keys.contains(key)),
        !keys.contains(key) ==> without_properties(properties, keys)[key] == properties[key],
    decreases keys.len(),
{
    if keys.len() > 0 {
        let front = keys.drop_last();
        lemma_without_properties(properties, front, key);
        if keys.contains(key) {
            let i = choose|i: int| 0 <= i < keys.len() && keys[i] == key;
            if i < front.len() {
                assert(front[i] == key);
            }
        }
        if front.contains(key) {
            let i = choose|i: int| 0 <= i < front.len() && front[i] == key;
            assert(keys[i] == key);
        }
        assert(keys[keys.len() - 1] == keys.last());
    }
}

/// After a commit a property that it removes is gone; one that it sets and does not remove
/// has the last value that it gives; and any other property is as it was.
pub proof fn law_commit_sets_properties(
    properties: Map<Seq<char>, String>,
    metadata: CommitMetadata,
    updates: Seq<(String, String)>,
    removed: Seq<Seq<char>>,
    key: Seq<char>,
)
    requires
        updates == match metadata.updated_properties {
            Some(u) => u@,
            None => Seq::empty(),
        },
        removed == match metadata.removed_properties {
            Some(keys) => text::texts(keys@),
            None => Seq::empty(),
        },
    ensures
        ({
            let after = committed_properties(properties, metadata);
            &&& removed.contains(key) ==> !after.dom().contains(key)
            &&& forall|i: int|
                #[trigger] is_last_update(updates, i) && updates[i].0@ == key && !removed.contains(
                    key,
                ) ==> after.dom().contains(key) && after[key] == updates[i].1
            &&& (forall|i: int| 0 <= i < updates.len() ==> (#[trigger] updates[i]).0@ != key)
                && !removed.contains(key) ==> after.dom().contains(key)
                == properties.dom().contains(key) && after[key] == properties[key]
        }),
{
    lemma_with_properties(properties, updates, key);
    lemma_without_properties(with_properties(properties, updates), removed, key);
}

/// What a commit gives stands in the next version, and what it does not give is as it was in
/// the current one. The next version follows the current one, and the schema by which a commit
/// is written is the last one of the next version.
pub proof fn law_next_version_is_what_was_committed(
    next: Manifest,
    current: Manifest,
    current_version: u64,
    m: CommitMetadata,
    deletes: Seq<DeleteFile>,
    list: Option<String>,
)
    requires
        is_next_manifest(next, current, current_version, m, deletes, list),
    ensures
        next.version > current_version,
        next.version - 1 == current_version,
        next.prev_version == Some(current_version),
        next.delete_files@ == deletes,
        next.manifest_list_path == list,
        next.entries@.len() == 0,
        m.updated_schemas matches Some(s) ==> next.schemas == s,
        m.updated_schemas is None ==> next.schemas == current.schemas,
        m.updated_schema_id matches Some(id) ==> next.current_schema_id == id,
        m.updated_schema_id is None ==> next.current_schema_id == current.current_schema_id,
        m.updated_partition_specs matches Some(s) ==> next.partition_specs == s && (s@.len() > 0
            ==> same_spec(next.partition_spec, s@[s@.len() - 1])),
        m.updated_partition_specs is None ==> next.partition_specs == current.partition_specs
            && next.partition_spec == current.partition_spec,
        m.updated_default_spec_id matches Some(id) ==> next.default_spec_id == id,
        m.updated_default_spec_id is None ==> next.default_spec_id == current.default_spec_id,
        m.updated_last_column_id matches Some(id) ==> next.last_column_id == id,
        m.updated_last_column_id is None ==> next.last_column_id == current.last_column_id,
        m.updated_sort_orders matches Some(s) ==> next.sort_orders == s,
        m.updated_sort_orders is None ==> next.sort_orders == current.sort_orders,
        m.updated_default_sort_order_id matches Some(id) ==> next.default_sort_order_id == id,
        m.updated_default_sort_order_id is None ==> next.default_sort_order_id
            == current.default_sort_order_id,
        m.format_version matches Some(v) ==> next.format_version == v,
        m.format_version is None ==> next.format_version == current.format_version,
        m.updated_properties is None && m.removed_properties is None ==> next.properties@
            == current.properties@,
        next.schemas@.len() > 0 ==> committed_schema(m, current) == Some(
            next.schemas@[next.schemas@.len() - 1],
        ),
        next.schemas@.len() == 0 && current.schemas@.len() > 0 ==> committed_schema(m, current)
            == Some(current.schemas@[current.schemas@.len() - 1]),
        committed_schema(m, current) is None ==> next.schemas@.len() == 0,
{
}

/// A rollback brings an earlier version back, as a version of its own behind the current one:
/// the files, schemas and properties are those of the earlier version. Rolling back twice is
/// rolling back once.
pub proof fn law_rollback_restores(target: Manifest, current_version: u64, later: u64)
    requires
        current_version < u64::MAX,
        later < u64::MAX,
    ensures
        ({
            let r = rolled_back(target, current_version);
            &&& r.version > current_version
            &&& r.version - 1 == current_version
            &&& r.prev_version == Some(current_version)
            &&& r.entries == target.entries
            &&& r.delete_files == target.delete_files
            &&& r.schemas == target.schemas
            &&& r.current_schema_id == target.current_schema_id
            &&& r.partition_spec == target.partition_spec
            &&& r.partition_specs == target.partition_specs
            &&& r.default_spec_id == target.default_spec_id
            &&& r.last_column_id == target.last_column_id
            &&& r.sort_orders == target.sort_orders
            &&& r.default_sort_order_id == target.default_sort_order_id
            &&& r.properties == target.properties
            &&& r.manifest_list_path == target.manifest_list_path
            &&& r.format_version == target.format_version
            &&& rolled_back(r, later) == rolled_back(target, later)
        }),
{
}

/// An import adds files: one that it brings is recorded as it brings it, the last one where a
/// path comes twice, and one that it does not bring is recorded as it was.
pub proof fn law_import_adds_files(
    existing: Seq<ManifestEntry>,
    imported: Seq<ManifestEntry>,
    path: Seq<char>,
)
    ensures
        ({
            let files = files_of(existing + imported);
            &&& files.dom().contains(path) == (files_of(existing).dom().contains(path)
                || files_of(imported).dom().contains(path))
            &&& files_of(imported).dom().contains(path) ==> files[path] == files_of(imported)[path]
            &&& files_of(existing).dom().contains(path) && !files_of(imported).dom().contains(path)
                ==> files[path] == files_of(existing)[path]
        }),
        forall|i: int|
            0 <= i < imported.len() && (#[trigger] imported[i]).file_path@ == path
                && (forall|j: int|
                i < j < imported.len() ==> (#[trigger] imported[j]).file_path@ != path)
                ==> files_of(existing + imported)[path] == core_of(imported[i]),
    decreases imported.len(),
{
    if imported.len() == 0 {
        assert(existing + imported =~= existing);
    } else {
        let front = imported.drop_last();
        let last = imported.len() - 1;
        law_import_adds_files(existing, front, path);
        assert((existing + imported).drop_last() =~= existing + front);
        assert((existing + imported).last() == imported[last]);
        assert forall|i: int|
            0 <= i < imported.len() && (#[trigger] imported[i]).file_path@ == path
                && (forall|j: int|
                i < j < imported.len() ==> (#[trigger] imported[j]).file_path@ != path)
            implies files_of(existing + imported)[path] == core_of(imported[i]) by {
            if i < last {
                assert(imported[last].file_path@ != path);
                assert(front[i] == imported[i]);
                assert forall|j: int| i < j < front.len() implies (#[trigger] front[j]).file_path@
                    != path by {
                    assert(front[j] == imported[j]);
                }
            }
        }
    }
}

/// A path of the table is looked for below its root, whether the root ends with a slash or
/// not; a path from the root of the file system, or with a scheme, is left as it is. A file of
/// the manifest directory always lies below the root.
pub proof fn law_paths_lie_below_the_root(path: Seq<char>, root: Seq<char>)
    ensures
        qualified_path(path, root + "/"@) == qualified_path(path, root),
        text::occurs(path, "://"@) ==> qualified_path(path, root) == path,
        path.len() > 0 && path[0] == '/' ==> qualified_path(path, root) == path,
        !text::occurs(path, "://"@) && path.len() > 0 && path[0] != '/' && root.len() > 0
            && root.last() != '/' ==> qualified_path(path, root) == root + "/"@ + path
            && absolute_location(root, path) == root + "/"@ + path,
        root.len() > 0 && root.last() != '/' ==> absolute_location(root, "/"@ + path)
            == absolute_location(root, path),
        absolute_location(root + "/"@, path) == absolute_location(root, path),
{
    reveal_strlit("/");
    assert((root + "/"@).drop_last() =~= root);
    assert((root + "/"@).last() == '/');
    assert(("/"@ + path).skip(1) =~= path);
    assert(("/"@ + path)[0] == '/');
}

/// Waiting times start at ten milliseconds and double from attempt to attempt, up to 320.
pub proof fn law_waiting_times_double(attempt: u64)
    requires
        attempt < u64::MAX,
    ensures
        base_delay_ms(0) == 10,
        base_delay_ms((attempt + 1) as u64) == if 2 * base_delay_ms(attempt) <= 320 {
            2 * base_delay_ms(attempt)
        } else {
            320
        },
{
}

/// The versions have files of their own, and the name of the file tells the version.
pub proof fn law_version_files_are_distinct(a: u64, b: u64)
    requires
        version_file(a) == version_file(b),
    ensures
        a == b,
{
    let max = u64::MAX as nat;
    text::law_decimal_reads_back(a as nat, max);
    text::law_decimal_reads_back(b as nat, max);
    reveal_strlit("v");
    reveal_strlit(".json");
    let x = text::decimal(a as nat);
    let y = text::decimal(b as nat);
    assert(version_file(a).len() == x.len() + 6);
    assert(version_file(b).len() == y.len() + 6);
    assert(version_file(a).subrange(1, x.len() as int + 1) =~= x);
    assert(version_file(b).subrange(1, y.len() as int + 1) =~= y);
}

/// A commit is tried a hundred times, an import and a single manifest ten times each. A commit
/// waits for its time of this attempt and up to as long again, an import for twenty
/// milliseconds more after each conflict, and a manifest for ten.
pub proof fn law_conflicts_are_retried(n: u64, random: u64)
    ensures
        commit_retry(n, random) is Retry <==> n < 99,
        commit_retry(n, random) matches AfterConflict::Retry { delay_ms } ==> base_delay_ms(n)
            <= delay_ms < 2 * base_delay_ms(n),
        commit_retry(n, random) matches AfterConflict::Retry { delay_ms } ==> (delay_ms
            - base_delay_ms(n) - random) % (base_delay_ms(n) as int) == 0,
        import_retry(n) is Retry <==> n < 10,
        import_retry(0) == (AfterConflict::Retry { delay_ms: 0 }),
        n < 9 ==> (import_retry(n) matches AfterConflict::Retry { delay_ms } && import_retry(
            (n + 1) as u64,
        ) == (AfterConflict::Retry { delay_ms: (delay_ms + 20) as u64 })),
        manifest_retry(n) is Retry <==> n < 10,
        manifest_retry(n) matches AfterConflict::Retry { delay_ms } ==> delay_ms == 10,
{
    let base = base_delay_ms(n) as int;
    let r = random as int;
    assert(r == base * (r / base) + r % base) by {
        vstd::arithmetic::div_mod::lemma_fundamental_div_mod(r, base);
    }
    assert((r % base - r) % base == 0) by {
        vstd::arithmetic::mul::lemma_mul_unary_negation(base, r / base);
        assert(r % base - r == base * (-(r / base)));
        vstd::arithmetic::mul::lemma_mul_is_commutative(base, -(r / base));
        vstd::arithmetic::div_mod::lemma_mod_multiples_basic(-(r / base), base);
    }
}

/// The files and rows of a manifest are all counted, and all of them as added: what is added,
/// what existed and what is deleted together are what it holds.
pub proof fn law_manifests_list_what_they_hold(
    e: ManifestListEntry,
    version: i64,
    files: usize,
    rows: i64,
)
    requires
        lists_added(e, version, files, rows),
        files <= i32::MAX,
    ensures
        e.added_files_count + e.existing_files_count + e.deleted_files_count == files,
        e.added_rows_count + e.existing_rows_count + e.deleted_rows_count == rows,
        e.added_files_count == files,
        e.added_rows_count == rows,
        e.min_sequence_number == e.sequence_number == e.added_snapshot_id,
        e.sequence_number == version,
{
}

} // verus!
