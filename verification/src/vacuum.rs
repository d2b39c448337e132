//! Deleting what no retained version needs any more.

use vstd::prelude::*;
use vstd::string::*;

use crate::commit::version_file;
use crate::manifest::{DeleteFile, IndexFile, ManifestEntry};
use crate::order::{self, Ranked};
use crate::store::manifest_dir_of;
use crate::text;

verus! {

/// A set of texts, kept as an ascending list.
#[derive(Debug)]
pub struct TextSet {
    items: Vec<String>,
}

/// The list stands in ascending order.
pub open spec fn texts_ascend(items: Seq<String>) -> bool {
    forall|i: int, j: int|
        #![trigger items[i], items[j]]
        0 <= i < j < items.len() ==> !text::text_less(items[j]@, items[i]@)
}

impl TextSet {
    /// The list stands in ascending order.
    pub closed spec fn wf(self) -> bool {
        texts_ascend(self.items@)
    }

    /// The members.
    pub closed spec fn view(self) -> Set<Seq<char>> {
        text::texts(self.items@).to_set()
    }

    /// The set of the texts of a list.
    pub fn from_list(list: Vec<String>) -> (r: TextSet)
        ensures
            r.wf(),
            r@ == text::texts(list@).to_set(),
    {
        let by_text: Vec<usize> = order::sorted_order(&list);
        let mut items: Vec<String> = Vec::new();
        let mut i: usize = 0;
        while i < by_text.len()
            invariant
                i <= by_text.len(),
                order::is_sorted_order(list@, by_text@),
                items.len() == i,
                forall|k: int|
                    0 <= k < i ==> (#[trigger] items@[k])@ == list@[by_text@[k] as int]@,
            decreases by_text.len() - i,
        {
            assert(by_text@[i as int] < list.len());
            items.push(list[by_text[i]].clone());
            i = i + 1;
        }
        proof {
            text::lemma_text_order();
            assert forall|a: int, b: int|
                #![trigger items@[a], items@[b]]
                0 <= a < b < items.len() implies !text::text_less(items@[b]@, items@[a]@) by {
                assert(order::comes_before(list@, by_text@[a] as int, by_text@[b] as int));
            }
            let from = text::texts(list@);
            let to = text::texts(items@);
            assert forall|t: Seq<char>| from.to_set().contains(t) <==> to.to_set().contains(t) by {
                if from.contains(t) {
                    let p = choose|p: int| 0 <= p < from.len() && from[p] == t;
                    assert(by_text@.contains(p as usize));
                    let k = choose|k: int| 0 <= k < by_text@.len() && by_text@[k] == p as usize;
                    assert(to[k] == t);
                }
                if to.contains(t) {
                    let k = choose|k: int| 0 <= k < to.len() && to[k] == t;
                    assert(from[by_text@[k] as int] == t);
                }
            }
            assert(from.to_set() =~= to.to_set());
        }
        TextSet { items }
    }

    /// Whether the text is a member.
    pub fn contains(&self, t: &String) -> (r: bool)
        requires
            self.wf(),
        ensures
            r == self@.contains(t@),
    {
        let mut lo: usize = 0;
        let mut hi: usize = self.items.len();
        proof {
            <String as Ranked>::less_is_weak_order();
            text::lemma_text_order();
        }
        while lo < hi
            invariant
                lo <= hi <= self.items.len(),
                texts_ascend(self.items@),
                self.wf(),
                forall|a: String, b: String, c: String|
                    !#[trigger] a.less(b) && !#[trigger] b.less(c) ==> !a.less(c),
                forall|a: Seq<char>| !#[trigger] text::text_less(a, a),
                forall|i: int| 0 <= i < lo ==> text::text_less((#[trigger] self.items@[i])@, t@),
                forall|i: int|
                    hi <= i < self.items.len() ==> text::text_less(
                        t@,
                        (#[trigger] self.items@[i])@,
                    ),
            decreases hi - lo,
        {
            let mid: usize = lo + (hi - lo) / 2;
            let at: &String = &self.items[mid];
            if at.is_less(t) {
                assert forall|i: int| 0 <= i < mid + 1 implies text::text_less(
                    (#[trigger] self.items@[i])@,
                    t@,
                ) by {
                    if i < mid {
                        assert(!text::text_less(self.items@[mid as int]@, self.items@[i]@));
                        if !text::text_less(self.items@[i]@, t@) {
                            assert(!self.items@[mid as int].less(self.items@[i]));
                            assert(!self.items@[i].less(*t));
                            assert(!self.items@[mid as int].less(*t));
                        }
                    }
                }
                lo = mid + 1;
            } else if t.is_less(at) {
                assert forall|i: int| mid <= i < self.items.len() implies text::text_less(
                    t@,
                    (#[trigger] self.items@[i])@,
                ) by {
                    if i > mid {
                        assert(!text::text_less(self.items@[i]@, self.items@[mid as int]@));
                        if !text::text_less(t@, self.items@[i]@) {
                            assert(!t.less(self.items@[i]));
                            assert(!self.items@[i].less(self.items@[mid as int]));
                            assert(!t.less(self.items@[mid as int]));
                        }
                    }
                }
                hi = mid;
            } else {
                proof {
                    text::lemma_text_less_total(at@, t@);
                    assert(text::texts(self.items@)[mid as int] == t@);
                    assert(text::texts(self.items@).contains(t@));
                }
                return true;
            }
        }
        proof {
            if self@.contains(t@) {
                assert(text::texts(self.items@).contains(t@));
                let i = choose|i: int|
                    0 <= i < text::texts(self.items@).len() && text::texts(self.items@)[i] == t@;
                assert(self.items@[i]@ == t@);
            }
        }
        false
    }
}

/// The versions that a vacuum retains.
#[derive(Debug, Clone, Copy, PartialEq, Eq, Structural)]
pub struct RetentionWindow {
    pub first: u64,
    pub last: u64,
}

/// The first retained version.
pub open spec fn first_retained(latest: u64, retention: usize) -> u64 {
    if latest < retention {
        1
    } else {
        (latest - (retention - 1)) as u64
    }
}

/// A vacuum that would retain no version.
#[derive(Debug, Clone, Copy, PartialEq, Eq, Structural)]
pub struct ZeroRetention;

impl ZeroRetention {
    /// The text of the error.
    pub fn message(&self) -> (r: String)
        ensures
            r@ == "Retention versions must be at least 1"@,
    {
        "Retention versions must be at least 1".to_owned()
    }
}

/// The versions that a vacuum retains; `None` where the table has no version
/// yet and there is nothing to do.
pub fn retention_window(latest: u64, retention_versions: usize) -> (r: Result<
    Option<RetentionWindow>,
    ZeroRetention,
>)
    ensures
        match r {
            Err(_) => retention_versions == 0,
            Ok(None) => retention_versions > 0 && latest == 0,
            Ok(Some(w)) => {
                &&& retention_versions > 0
                &&& latest > 0
                &&& w.first == first_retained(latest, retention_versions)
                &&& w.last == latest
                &&& 1 <= w.first <= w.last
                &&& w.last - w.first + 1 == if latest < retention_versions {
                    latest as int
                } else {
                    retention_versions as int
                }
            },
        },
{
    if retention_versions == 0 {
        return Err(ZeroRetention);
    }
    if latest == 0 {
        return Ok(None);
    }
    let back: u64 = retention_versions as u64 - 1;
    let first: u64 = latest.saturating_sub(back);
    let first: u64 = if first < 1 {
        1
    } else {
        first
    };
    Ok(Some(RetentionWindow { first, last: latest }))
}

/// A vacuum retains the latest versions, as many as are asked for or as there are: a
/// version lies in the window exactly where fewer versions than that are newer.
pub proof fn law_the_latest_versions_are_retained(latest: u64, retention: usize, v: u64)
    requires
        latest > 0,
        retention > 0,
    ensures
        first_retained(latest, retention) <= v <= latest <==> 1 <= v <= latest && latest - v
            < retention,
        first_retained(latest, retention) >= 1,
{
}

/// The window never loses a version by retaining more, and moves by at most one version
/// with each commit.
pub proof fn law_windows_follow_one_another(latest: u64, retention: usize)
    requires
        0 < latest < u64::MAX,
        0 < retention < usize::MAX,
    ensures
        first_retained(latest, (retention + 1) as usize) <= first_retained(latest, retention),
        first_retained(latest, retention) <= first_retained((latest + 1) as u64, retention)
            <= first_retained(latest, retention) + 1,
        retention >= latest ==> first_retained(latest, retention) == 1,
        retention == 1 ==> first_retained(latest, retention) == latest,
{
}

/// The paths that a version refers to: data files, indexes and delete files.
pub open spec fn references(
    entries: Seq<ManifestEntry>,
    delete_files: Seq<DeleteFile>,
    path: Seq<char>,
) -> bool {
    ||| exists|i: int| 0 <= i < entries.len() && (#[trigger] entries[i]).file_path@ == path
    ||| exists|i: int, k: int|
        0 <= i < entries.len() && 0 <= k < entries[i].index_files@.len() && (
        #[trigger] entries[i].index_files@[k]).file_path@ == path
    ||| exists|i: int, k: int|
        0 <= i < entries.len() && 0 <= k < entries[i].delete_files@.len() && (
        #[trigger] entries[i].delete_files@[k]).file_path@ == path
    ||| exists|i: int| 0 <= i < delete_files.len() && (#[trigger] delete_files[i]).file_path@
        == path
}

fn push_index_paths(active: &mut Vec<String>, files: &Vec<IndexFile>)
    ensures
        forall|p: Seq<char>| #[trigger]
            text::texts(final(active)@).contains(p) <==> text::texts(old(active)@).contains(p) || (
            exists|k: int| 0 <= k < files.len() && (#[trigger] files@[k]).file_path@ == p),
{
    let ghost start = text::texts(active@);
    let mut k: usize = 0;
    while k < files.len()
        invariant
            k <= files.len(),
            start == text::texts(old(active)@),
            forall|p: Seq<char>| #[trigger]
                text::texts(active@).contains(p) <==> start.contains(p) || (exists|m: int|
                    0 <= m < k && (#[trigger] files@[m]).file_path@ == p),
        decreases files.len() - k,
    {
        let ghost before = active@;
        active.push(files[k].file_path.clone());
        proof {
            lemma_texts_push(before, active@);
            assert forall|p: Seq<char>| #[trigger] text::texts(active@).contains(p)
                <==> start.contains(p) || (exists|m: int|
                0 <= m < k + 1 && (#[trigger] files@[m]).file_path@ == p) by {
                if files@[k as int].file_path@ == p {
                    assert(files@[k as int].file_path@ == p);
                }
                assert(text::texts(active@).contains(p) <==> text::texts(before).contains(p)
                    || active@.last()@ == p);
            }
        }
        k = k + 1;
    }
}

fn push_delete_paths(active: &mut Vec<String>, files: &Vec<DeleteFile>)
    ensures
        forall|p: Seq<char>| #[trigger]
            text::texts(final(active)@).contains(p) <==> text::texts(old(active)@).contains(p) || (
            exists|k: int| 0 <= k < files.len() && (#[trigger] files@[k]).file_path@ == p),
{
    let ghost start = text::texts(active@);
    let mut k: usize = 0;
    while k < files.len()
        invariant
            k <= files.len(),
            start == text::texts(old(active)@),
            forall|p: Seq<char>| #[trigger]
                text::texts(active@).contains(p) <==> start.contains(p) || (exists|m: int|
                    0 <= m < k && (#[trigger] files@[m]).file_path@ == p),
        decreases files.len() - k,
    {
        let ghost before = active@;
        active.push(files[k].file_path.clone());
        proof {
            lemma_texts_push(before, active@);
            assert forall|p: Seq<char>| #[trigger] text::texts(active@).contains(p)
                <==> start.contains(p) || (exists|m: int|
                0 <= m < k + 1 && (#[trigger] files@[m]).file_path@ == p) by {
                if files@[k as int].file_path@ == p {
                    assert(files@[k as int].file_path@ == p);
                }
                assert(text::texts(active@).contains(p) <==> text::texts(before).contains(p)
                    || active@.last()@ == p);
            }
        }
        k = k + 1;
    }
}

proof fn lemma_texts_push(before: Seq<String>, now: Seq<String>)
    requires
        now.len() == before.len() + 1,
        now.drop_last() =~= before,
    ensures
        forall|p: Seq<char>| #[trigger]
            text::texts(now).contains(p) <==> text::texts(before).contains(p) || now.last()@ == p,
{
    let a = text::texts(before);
    let b = text::texts(now);
    assert forall|p: Seq<char>| #[trigger] b.contains(p) <==> a.contains(p) || now.last()@
        == p by {
        if b.contains(p) {
            let i = choose|i: int| 0 <= i < b.len() && b[i] == p;
            if i < a.len() {
                assert(now.drop_last()[i] == now[i]);
                assert(a[i] == p);
            }
        }
        if a.contains(p) {
            let i = choose|i: int| 0 <= i < a.len() && a[i] == p;
            assert(now.drop_last()[i] == now[i]);
            assert(b[i] == p);
        }
        if now.last()@ == p {
            assert(b[b.len() - 1] == p);
        }
    }
}

/// Adds the paths that a version refers to.
///
/// The delete list of the version counts even where no entry shares its
/// partition.
pub fn add_references(
    active: &mut Vec<String>,
    entries: &Vec<ManifestEntry>,
    delete_files: &Vec<DeleteFile>,
)
    ensures
        forall|p: Seq<char>| #[trigger]
            text::texts(final(active)@).contains(p) <==> text::texts(old(active)@).contains(p)
                || references(entries@, delete_files@, p),
{
    let ghost start = text::texts(active@);
    let mut i: usize = 0;
    while i < entries.len()
        invariant
            i <= entries.len(),
            start == text::texts(old(active)@),
            forall|p: Seq<char>| #[trigger]
                text::texts(active@).contains(p) <==> start.contains(p) || references(
                    entries@.take(i as int),
                    Seq::empty(),
                    p,
                ),
        decreases entries.len() - i,
    {
        let ghost before = active@;
        let e: &ManifestEntry = &entries[i];
        active.push(e.file_path.clone());
        proof {
            lemma_texts_push(before, active@);
        }
        let ghost with_path = text::texts(active@);
        push_index_paths(active, &e.index_files);
        let ghost with_indexes = text::texts(active@);
        push_delete_paths(active, &e.delete_files);
        proof {
            assert forall|p: Seq<char>| #[trigger] text::texts(active@).contains(p)
                <==> start.contains(p) || references(
                entries@.take(i + 1),
                Seq::empty(),
                p,
            ) by {
                assert(with_indexes.contains(p) <==> with_path.contains(p) || (exists|k: int|
                    0 <= k < e.index_files.len() && (#[trigger] e.index_files@[k]).file_path@
                        == p));
                assert(with_path.contains(p) <==> text::texts(before).contains(p) || e.file_path@
                    == p);
                lemma_references_step(entries@, i as int, p);
            }
        }
        i = i + 1;
    }
    assert(entries@.take(i as int) =~= entries@);
    let ghost from_entries = text::texts(active@);
    push_delete_paths(active, delete_files);
    proof {
        assert forall|p: Seq<char>| #[trigger] text::texts(active@).contains(p)
            <==> start.contains(p) || references(entries@, delete_files@, p) by {
            assert(from_entries.contains(p) <==> start.contains(p) || references(
                entries@,
                Seq::empty(),
                p,
            ));
            lemma_references_split(entries@, delete_files@, p);
        }
    }
}

proof fn lemma_references_split(
    entries: Seq<ManifestEntry>,
    delete_files: Seq<DeleteFile>,
    p: Seq<char>,
)
    ensures
        references(entries, delete_files, p) <==> references(entries, Seq::empty(), p) || (exists|
            i: int,
        |
            0 <= i < delete_files.len() && (#[trigger] delete_files[i]).file_path@ == p),
{
}

proof fn lemma_references_step(entries: Seq<ManifestEntry>, i: int, p: Seq<char>)
    requires
        0 <= i < entries.len(),
    ensures
        references(entries.take(i + 1), Seq::empty(), p) <==> {
            ||| references(entries.take(i), Seq::empty(), p)
            ||| entries[i].file_path@ == p
            ||| exists|k: int|
                0 <= k < entries[i].index_files@.len() && (
                #[trigger] entries[i].index_files@[k]).file_path@ == p
            ||| exists|k: int|
                0 <= k < entries[i].delete_files@.len() && (
                #[trigger] entries[i].delete_files@[k]).file_path@ == p
        },
{
    let a = entries.take(i);
    let b = entries.take(i + 1);
    assert(b[i] == entries[i]);
    assert forall|j: int| 0 <= j < i implies a[j] == b[j] by {}
    if references(a, Seq::empty(), p) {
        if exists|j: int| 0 <= j < a.len() && (#[trigger] a[j]).file_path@ == p {
            let j = choose|j: int| 0 <= j < a.len() && (#[trigger] a[j]).file_path@ == p;
            assert(b[j].file_path@ == p);
        } else if exists|j: int, k: int|
            0 <= j < a.len() && 0 <= k < a[j].index_files@.len() && (
            #[trigger] a[j].index_files@[k]).file_path@ == p {
            let (j, k) = choose|j: int, k: int|
                0 <= j < a.len() && 0 <= k < a[j].index_files@.len() && (
                #[trigger] a[j].index_files@[k]).file_path@ == p;
            assert(b[j].index_files@[k].file_path@ == p);
        } else {
            let (j, k) = choose|j: int, k: int|
                0 <= j < a.len() && 0 <= k < a[j].delete_files@.len() && (
                #[trigger] a[j].delete_files@[k]).file_path@ == p;
            assert(b[j].delete_files@[k].file_path@ == p);
        }
    }
    if entries[i].file_path@ == p {
        assert(b[i].file_path@ == p);
    }
    if exists|k: int|
        0 <= k < entries[i].index_files@.len() && (
        #[trigger] entries[i].index_files@[k]).file_path@ == p {
        let k = choose|k: int|
            0 <= k < entries[i].index_files@.len() && (
            #[trigger] entries[i].index_files@[k]).file_path@ == p;
        assert(b[i].index_files@[k].file_path@ == p);
    }
    if exists|k: int|
        0 <= k < entries[i].delete_files@.len() && (
        #[trigger] entries[i].delete_files@[k]).file_path@ == p {
        let k = choose|k: int|
            0 <= k < entries[i].delete_files@.len() && (
            #[trigger] entries[i].delete_files@[k]).file_path@ == p;
        assert(b[i].delete_files@[k].file_path@ == p);
    }
    if references(b, Seq::empty(), p) {
        if exists|j: int| 0 <= j < b.len() && (#[trigger] b[j]).file_path@ == p {
            let j = choose|j: int| 0 <= j < b.len() && (#[trigger] b[j]).file_path@ == p;
            if j < i {
                assert(a[j].file_path@ == p);
            }
        } else if exists|j: int, k: int|
            0 <= j < b.len() && 0 <= k < b[j].index_files@.len() && (
            #[trigger] b[j].index_files@[k]).file_path@ == p {
            let (j, k) = choose|j: int, k: int|
                0 <= j < b.len() && 0 <= k < b[j].index_files@.len() && (
                #[trigger] b[j].index_files@[k]).file_path@ == p;
            if j < i {
                assert(a[j].index_files@[k].file_path@ == p);
            } else {
                assert(entries[i].index_files@[k].file_path@ == p);
            }
        } else {
            let (j, k) = choose|j: int, k: int|
                0 <= j < b.len() && 0 <= k < b[j].delete_files@.len() && (
                #[trigger] b[j].delete_files@[k]).file_path@ == p;
            if j < i {
                assert(a[j].delete_files@[k].file_path@ == p);
            } else {
                assert(entries[i].delete_files@[k].file_path@ == p);
            }
        }
    }
}

/// What a stored file is to a vacuum.
#[derive(Debug, Clone, Copy, PartialEq, Eq, Structural)]
pub enum FileClass {
    /// A version of the manifest.
    Version,
    /// A data file, an index or a temporary file.
    Data,
    /// Anything else: never deleted.
    Other,
}

/// What a stored file is to a vacuum.
pub open spec fn class_of(path: Seq<char>) -> FileClass {
    if text::occurs(path, "_manifest/v"@) {
        FileClass::Version
    } else if text::occurs(path, "_manifest/"@) {
        FileClass::Other
    } else if ".parquet"@.is_suffix_of(path) || ".hnsw"@.is_suffix_of(path) || ".idx"@.is_suffix_of(
        path,
    ) || ".tmp"@.is_suffix_of(path) {
        FileClass::Data
    } else {
        FileClass::Other
    }
}

/// What a stored file is to a vacuum.
pub fn classify(path: &str) -> (r: FileClass)
    ensures
        r == class_of(path@),
{
    if text::contains(path, "_manifest/v") {
        FileClass::Version
    } else if text::contains(path, "_manifest/") {
        FileClass::Other
    } else if text::ends_with(path, ".parquet") || text::ends_with(path, ".hnsw")
        || text::ends_with(path, ".idx") || text::ends_with(path, ".tmp") {
        FileClass::Data
    } else {
        FileClass::Other
    }
}

/// A file in the store, with its age in seconds.
#[derive(Debug)]
pub struct StoredFile {
    pub path: String,
    pub age_secs: i64,
}

/// Whether a vacuum deletes a stored file: a version that is not kept, or a
/// data file that no version refers to and that is old enough.
pub open spec fn doomed(
    f: StoredFile,
    active: Set<Seq<char>>,
    kept: Set<Seq<char>>,
    min_age_secs: i64,
) -> bool {
    match class_of(f.path@) {
        FileClass::Version => !kept.contains(f.path@),
        FileClass::Data => !active.contains(f.path@) && f.age_secs >= min_age_secs,
        FileClass::Other => false,
    }
}

/// The positions of the doomed files of one class, in order.
pub open spec fn doomed_of_class(
    files: Seq<StoredFile>,
    class: FileClass,
    active: Set<Seq<char>>,
    kept: Set<Seq<char>>,
    min_age_secs: i64,
) -> Seq<int>
    decreases files.len(),
{
    if files.len() == 0 {
        Seq::empty()
    } else {
        let before = doomed_of_class(files.drop_last(), class, active, kept, min_age_secs);
        if class_of(files.last().path@) == class && doomed(
            files.last(),
            active,
            kept,
            min_age_secs,
        ) {
            before.push(files.len() - 1)
        } else {
            before
        }
    }
}

/// The files that a vacuum deletes, as positions in the listing: first the
/// versions, then the data files.
pub fn plan_vacuum(
    files: &Vec<StoredFile>,
    active: &TextSet,
    kept: &TextSet,
    min_age_secs: i64,
) -> (r: Vec<usize>)
    requires
        active.wf(),
        kept.wf(),
    ensures
        r@.map_values(|i: usize| i as int) == doomed_of_class(
            files@,
            FileClass::Version,
            active@,
            kept@,
            min_age_secs,
        ) + doomed_of_class(files@, FileClass::Data, active@, kept@, min_age_secs),
{
    let mut versions: Vec<usize> = Vec::new();
    let mut data: Vec<usize> = Vec::new();
    let ghost as_int = |i: usize| i as int;
    let mut i: usize = 0;
    assert(versions@.map_values(as_int) =~= Seq::empty());
    assert(data@.map_values(as_int) =~= Seq::empty());
    while i < files.len()
        invariant
            i <= files.len(),
            active.wf(),
            kept.wf(),
            as_int == (|i: usize| i as int),
            versions@.map_values(as_int) == doomed_of_class(
                files@.take(i as int),
                FileClass::Version,
                active@,
                kept@,
                min_age_secs,
            ),
            data@.map_values(as_int) == doomed_of_class(
                files@.take(i as int),
                FileClass::Data,
                active@,
                kept@,
                min_age_secs,
            ),
        decreases files.len() - i,
    {
        let f: &StoredFile = &files[i];
        let ghost versions0 = versions@;
        let ghost data0 = data@;
        proof {
            assert(files@.take(i + 1).drop_last() =~= files@.take(i as int));
            assert(files@.take(i + 1).last() == *f);
        }
        match classify(f.path.as_str()) {
            FileClass::Version => {
                if !kept.contains(&f.path) {
                    versions.push(i);
                    assert(versions@.map_values(as_int) =~= versions0.map_values(as_int).push(
                        i as int,
                    ));
                }
            },
            FileClass::Data => {
                if !active.contains(&f.path) && f.age_secs >= min_age_secs {
                    data.push(i);
                    assert(data@.map_values(as_int) =~= data0.map_values(as_int).push(i as int));
                }
            },
            FileClass::Other => {},
        }
        i = i + 1;
    }
    assert(files@.take(i as int) =~= files@);
    let ghost versions1 = versions@;
    let ghost data1 = data@;
    versions.append(&mut data);
    assert(versions@.map_values(as_int) =~= versions1.map_values(as_int) + data1.map_values(
        as_int,
    ));
    versions
}

/// The least age in seconds at which an unreferenced file is deleted: the value
/// of the setting where it is a number and not negative, else a minute.
pub open spec fn min_file_age(setting: Option<Seq<char>>) -> int {
    match setting {
        Some(s) => match text::signed_number(s) {
            Some(n) => if n >= 0 {
                n
            } else {
                60
            },
            None => 60,
        },
        None => 60,
    }
}

/// The least age in seconds at which an unreferenced file is deleted, from the
/// value of the setting `BSDB_VACUUM_MIN_FILE_AGE_SECS`.
pub fn vacuum_min_file_age_secs(setting: Option<&str>) -> (r: i64)
    ensures
        r == min_file_age(
            match setting {
                Some(s) => Some(s@),
                None => None,
            },
        ),
        r >= 0,
{
    match setting {
        Some(s) => match text::parse_i64(s) {
            Some(n) => if n >= 0 {
                n
            } else {
                60
            },
            None => 60,
        },
        None => 60,
    }
}

/// A vacuum deletes no file that a retained version refers to, no data file
/// younger than the least age, no kept version and no file of another class.
pub proof fn law_vacuum_spares(
    files: Seq<StoredFile>,
    active: Set<Seq<char>>,
    kept: Set<Seq<char>>,
    min_age_secs: i64,
    class: FileClass,
    k: int,
)
    requires
        0 <= k < doomed_of_class(files, class, active, kept, min_age_secs).len(),
    ensures
        ({
            let i = doomed_of_class(files, class, active, kept, min_age_secs)[k];
            &&& 0 <= i < files.len()
            &&& class_of(files[i].path@) == class
            &&& class != FileClass::Other
            &&& class == FileClass::Version ==> !kept.contains(files[i].path@)
            &&& class == FileClass::Data ==> !active.contains(files[i].path@) && files[i].age_secs
                >= min_age_secs
        }),
    decreases files.len(),
{
    let front = files.drop_last();
    let before = doomed_of_class(front, class, active, kept, min_age_secs);
    if k < before.len() {
        law_vacuum_spares(front, active, kept, min_age_secs, class, k);
        assert(front[before[k]] == files[before[k]]);
    }
}

/// Every file of a class that may go is listed, once and in the order of the files.
pub proof fn law_vacuum_lists_what_may_go(
    files: Seq<StoredFile>,
    active: Set<Seq<char>>,
    kept: Set<Seq<char>>,
    min_age_secs: i64,
    class: FileClass,
)
    ensures
        ({
            let list = doomed_of_class(files, class, active, kept, min_age_secs);
            &&& forall|i: int|
                0 <= i < files.len() && class_of((#[trigger] files[i]).path@) == class && (class
                    == FileClass::Version && !kept.contains(files[i].path@) || class
                    == FileClass::Data && !active.contains(files[i].path@) && files[i].age_secs
                    >= min_age_secs) ==> list.contains(i)
            &&& forall|k: int| 0 <= k < list.len() ==> 0 <= #[trigger] list[k] < files.len()
            &&& forall|k: int, l: int|
                #![trigger list[k], list[l]]
                0 <= k < l < list.len() ==> list[k] < list[l]
        }),
    decreases files.len(),
{
    if files.len() > 0 {
        let front = files.drop_last();
        let last = files.len() - 1;
        law_vacuum_lists_what_may_go(front, active, kept, min_age_secs, class);
        let before = doomed_of_class(front, class, active, kept, min_age_secs);
        let list = doomed_of_class(files, class, active, kept, min_age_secs);
        assert forall|i: int|
            0 <= i < files.len() && class_of((#[trigger] files[i]).path@) == class && (class
                == FileClass::Version && !kept.contains(files[i].path@) || class
                == FileClass::Data && !active.contains(files[i].path@) && files[i].age_secs
                >= min_age_secs) implies list.contains(i) by {
            if i < last {
                assert(front[i] == files[i]);
                let k = choose|k: int| 0 <= k < before.len() && before[k] == i;
                assert(list[k] == i);
            } else {
                assert(list[list.len() - 1] == last);
            }
        }
    }
}

/// The endings of the files that hold data or indexes, and of unfinished ones.
pub open spec fn is_data_ending(ending: Seq<char>) -> bool {
    ending == ".parquet"@ || ending == ".hnsw"@ || ending == ".idx"@ || ending == ".tmp"@
}

/// A file outside of the manifest directory with such an ending is data; the file of a
/// version in the manifest directory is a version; and nothing else in that directory is
/// either, so that it is never removed.
pub proof fn law_files_go_by_their_paths(
    directory: Seq<char>,
    name: Seq<char>,
    ending: Seq<char>,
    version: u64,
)
    ensures
        is_data_ending(ending) && !text::occurs(name + ending, "_manifest/"@) ==> class_of(
            name + ending,
        ) == FileClass::Data,
        class_of(directory + "_manifest/"@ + version_file(version)) == FileClass::Version,
        class_of(name) == FileClass::Version ==> text::occurs(name, "_manifest/v"@),
        class_of(name) == FileClass::Data ==> !text::occurs(name, "_manifest/"@) && (
        ".parquet"@.is_suffix_of(name) || ".hnsw"@.is_suffix_of(name) || ".idx"@.is_suffix_of(name)
            || ".tmp"@.is_suffix_of(name)),
{
    reveal_strlit("_manifest/");
    reveal_strlit("_manifest/v");
    reveal_strlit("v");
    let path = directory + "_manifest/"@ + version_file(version);
    let d = directory.len() as int;
    assert(path.subrange(d, d + 11) =~= "_manifest/v"@);
    assert(text::occurs_at(path, "_manifest/v"@, d));
    let t = name + ending;
    if text::occurs(t, "_manifest/v"@) {
        let i = choose|i: int| text::occurs_at(t, "_manifest/v"@, i);
        assert(t.subrange(i, i + 10) =~= t.subrange(i, i + 11).take(10));
        assert("_manifest/v"@.take(10) =~= "_manifest/"@);
        assert(text::occurs_at(t, "_manifest/"@, i));
    }
    assert(t.skip(name.len() as int) =~= ending);
    if is_data_ending(ending) {
        assert(ending.is_suffix_of(t));
    }
}

/// A file that a retained version refers to counts as referred to: its data, its indexes, and
/// the deletes of the entry and of the version.
pub proof fn law_every_file_of_a_version_counts(
    entries: Seq<ManifestEntry>,
    deletes: Seq<DeleteFile>,
    i: int,
    k: int,
)
    ensures
        0 <= i < entries.len() ==> references(entries, deletes, entries[i].file_path@),
        0 <= i < entries.len() && 0 <= k < entries[i].index_files@.len() ==> references(
            entries,
            deletes,
            entries[i].index_files@[k].file_path@,
        ),
        0 <= i < entries.len() && 0 <= k < entries[i].delete_files@.len() ==> references(
            entries,
            deletes,
            entries[i].delete_files@[k].file_path@,
        ),
        0 <= k < deletes.len() ==> references(entries, deletes, deletes[k].file_path@),
{
}

/// Nothing is referred to where there is nothing.
pub proof fn law_no_version_refers_to_nothing(path: Seq<char>)
    ensures
        !references(Seq::empty(), Seq::empty(), path),
{
}

/// A number of seconds that is set is the least age of a file that goes; a minute is, where
/// none is set, or a negative one.
pub proof fn law_the_least_age_is_set(secs: int)
    ensures
        0 <= secs <= i64::MAX ==> min_file_age(Some(text::signed_decimal(secs))) == secs,
        i64::MIN <= secs < 0 ==> min_file_age(Some(text::signed_decimal(secs))) == 60,
        min_file_age(None) == 60,
{
    if i64::MIN <= secs <= i64::MAX {
        text::law_signed_decimal_reads_back(secs);
    }
}

/// The file of a version is where the manifests of a table are kept, and is known there as the
/// file of a version, whichever directory the table lies in.
pub proof fn law_versions_are_found_in_the_manifest_directory(base: Seq<char>, version: u64)
    ensures
        class_of(manifest_dir_of(base) + version_file(version)) == FileClass::Version,
        manifest_dir_of(Seq::empty()) == "_manifest/"@,
        base.len() > 0 ==> manifest_dir_of(base) == base + "/"@ + "_manifest/"@,
{
    reveal_strlit("_manifest/");
    reveal_strlit("/_manifest/");
    reveal_strlit("/");
    assert("/_manifest/"@ =~= "/"@ + "_manifest/"@);
    let e = Seq::<char>::empty();
    law_files_go_by_their_paths(e, e, e, version);
    law_files_go_by_their_paths(base + "/"@, e, e, version);
    assert(e + "_manifest/"@ + version_file(version) =~= "_manifest/"@ + version_file(version));
    if base.len() > 0 {
        assert(manifest_dir_of(base) =~= base + "/"@ + "_manifest/"@);
    }
}

} // verus!
