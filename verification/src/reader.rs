//! Which rows of a segment are deleted.
//!
//! A segment reader fetches the delete files that apply to its data file and
//! merges them into one bitmap of deleted rows. The fetching is the caller's;
//! what to fetch and how to merge it is decided here.

use roaring::RoaringBitmap;
use std::collections::HashSet;
use vstd::prelude::*;
use vstd::string::*;

use crate::bitmap::{
    bitmap_file_ordered, bitmap_file_set, bitmap_members, bitmap_ordered, bitmap_read,
    bitmap_set, bitmap_union, empty_bitmap,
};
use crate::iceberg::delete::{
    add_rows, clean_path, rows_deleted, without_file_scheme, DeleteMap, PositionDeleteReader,
};
use crate::manifest::{field_with_id, DeleteContent, DeleteFile, TableSchema};
use crate::order;
use crate::segment::local_data_path;
use crate::text;

verus! {

broadcast use vstd::std_specs::hash::group_hash_axioms;

/// What a segment reader knows of its segment.
#[derive(Debug)]
pub struct HybridReader {
    pub delete_files: Vec<DeleteFile>,
    pub parquet_path: Option<String>,
    pub base_path: String,
    pub segment_id: String,
    pub root_uri: String,
}

/// The paths of some delete files.
pub open spec fn paths_of(files: Seq<DeleteFile>) -> Seq<Seq<char>> {
    files.map_values(|d: DeleteFile| d.file_path@)
}

/// The positions at which a path stands for the first time.
pub open spec fn first_positions(paths: Seq<Seq<char>>) -> Seq<int>
    decreases paths.len(),
{
    if paths.len() == 0 {
        Seq::empty()
    } else {
        let before = first_positions(paths.drop_last());
        if paths.drop_last().contains(paths.last()) {
            before
        } else {
            before.push(paths.len() - 1)
        }
    }
}

/// The distinct paths, in the order of their first occurrence.
pub open spec fn distinct_paths(paths: Seq<Seq<char>>) -> Seq<Seq<char>> {
    first_positions(paths).map_values(|i: int| paths[i])
}

proof fn lemma_first_positions(paths: Seq<Seq<char>>)
    ensures
        forall|k: int|
            0 <= k < first_positions(paths).len() ==> 0 <= #[trigger] first_positions(paths)[k]
                < paths.len(),
        forall|k: int, m: int|
            #![trigger first_positions(paths)[k], first_positions(paths)[m]]
            0 <= k < m < first_positions(paths).len() ==> first_positions(paths)[k]
                < first_positions(paths)[m] && paths[first_positions(paths)[k]]
                != paths[first_positions(paths)[m]],
        forall|p: Seq<char>|
            paths.contains(p) <==> #[trigger] distinct_paths(paths).contains(p),
    decreases paths.len(),
{
    let fs = first_positions(paths);
    if paths.len() > 0 {
        let front = paths.drop_last();
        lemma_first_positions(front);
        let ff = first_positions(front);
        assert forall|k: int| 0 <= k < ff.len() implies #[trigger] front[ff[k]] == paths[ff[k]] by {
        }
        assert forall|k: int, m: int|
            #![trigger fs[k], fs[m]]
            0 <= k < m < fs.len() implies fs[k] < fs[m] && paths[fs[k]] != paths[fs[m]] by {
            if m < ff.len() {
                assert(ff[k] < ff[m]);
                assert(front[ff[k]] != front[ff[m]]);
            } else {
                assert(front[ff[k]] == paths[fs[k]]);
                assert(front.contains(paths[fs[k]]));
            }
        }
        assert forall|p: Seq<char>| paths.contains(p) <==> #[trigger] distinct_paths(
            paths,
        ).contains(p) by {
            let dp = distinct_paths(paths);
            let df = distinct_paths(front);
            if paths.contains(p) {
                let i = choose|i: int| 0 <= i < paths.len() && paths[i] == p;
                if i < paths.len() - 1 {
                    assert(front[i] == p);
                    assert(df.contains(p));
                    let k = choose|k: int| 0 <= k < df.len() && df[k] == p;
                    assert(dp[k] == p);
                } else if front.contains(p) {
                    assert(df.contains(p));
                    let k = choose|k: int| 0 <= k < df.len() && df[k] == p;
                    assert(dp[k] == p);
                } else {
                    assert(dp[fs.len() - 1] == p);
                }
            }
            if dp.contains(p) {
                let k = choose|k: int| 0 <= k < dp.len() && dp[k] == p;
                assert(paths[fs[k]] == p);
            }
        }
    } else {
        assert forall|p: Seq<char>| paths.contains(p) <==> #[trigger] distinct_paths(
            paths,
        ).contains(p) by {}
    }
}

/// The data file that a segment's delete files speak of.
pub open spec fn target_of(r: HybridReader) -> Seq<char> {
    match r.parquet_path {
        Some(p) => p@,
        None => r.base_path@ + "/"@ + r.segment_id@ + ".parquet"@,
    }
}

/// `sorted` lists the paths of `paths` in ascending order.
pub open spec fn sorts(sorted: Seq<Seq<char>>, paths: Seq<Seq<char>>) -> bool {
    &&& forall|i: int, j: int|
        #![trigger sorted[i], sorted[j]]
        0 <= i < j < sorted.len() ==> text::text_less(sorted[i], sorted[j])
    &&& forall|p: Seq<char>| sorted.contains(p) <==> #[trigger] paths.contains(p)
}

/// The cache key of a target with the given sorted delete paths.
pub open spec fn cache_key(target: Seq<char>, sorted: Seq<Seq<char>>) -> Seq<char> {
    target + "::"@ + text::joined(sorted, ","@)
}

/// Two ascending lists with the same members are the same list, so the delete
/// paths and the target decide the cache key: neither the order of the delete
/// files nor repetitions among them change it.
pub proof fn law_cache_key_is_stable(
    target: Seq<char>,
    a: Seq<Seq<char>>,
    b: Seq<Seq<char>>,
    sorted_a: Seq<Seq<char>>,
    sorted_b: Seq<Seq<char>>,
)
    requires
        sorts(sorted_a, a),
        sorts(sorted_b, b),
        forall|p: Seq<char>| #[trigger] a.contains(p) <==> b.contains(p),
    ensures
        sorted_a == sorted_b,
        cache_key(target, sorted_a) == cache_key(target, sorted_b),
{
    assert forall|p: Seq<char>| sorted_a.contains(p) <==> sorted_b.contains(p) by {
        assert(a.contains(p) <==> b.contains(p));
        assert(sorted_b.contains(p) <==> b.contains(p));
    }
    lemma_ascending_unique(sorted_a, sorted_b);
}

proof fn lemma_ascending_unique(a: Seq<Seq<char>>, b: Seq<Seq<char>>)
    requires
        forall|i: int, j: int|
            #![trigger a[i], a[j]]
            0 <= i < j < a.len() ==> text::text_less(a[i], a[j]),
        forall|i: int, j: int|
            #![trigger b[i], b[j]]
            0 <= i < j < b.len() ==> text::text_less(b[i], b[j]),
        forall|p: Seq<char>| a.contains(p) <==> b.contains(p),
    ensures
        a == b,
    decreases a.len(),
{
    text::lemma_text_order();
    if a.len() == 0 {
        if b.len() > 0 {
            assert(b.contains(b[0]));
            assert(a.contains(b[0]));
        }
        assert(a =~= b);
    } else if b.len() == 0 {
        assert(a.contains(a[0]));
        assert(b.contains(a[0]));
    } else {
        let x = a.last();
        let y = b.last();
        assert(a.contains(x) && b.contains(x));
        assert(b.contains(y) && a.contains(y));
        let i = choose|i: int| 0 <= i < b.len() && b[i] == x;
        let j = choose|j: int| 0 <= j < a.len() && a[j] == y;
        assert(x == y) by {
            if i < b.len() - 1 && j < a.len() - 1 {
                assert(text::text_less(b[i], b[b.len() - 1]));
                assert(text::text_less(a[j], a[a.len() - 1]));
            }
        }
        let fa = a.drop_last();
        let fb = b.drop_last();
        assert forall|p: Seq<char>| fa.contains(p) <==> fb.contains(p) by {
            if fa.contains(p) {
                let k = choose|k: int| 0 <= k < fa.len() && fa[k] == p;
                assert(a[k] == p);
                assert(text::text_less(a[k], a[a.len() - 1]));
                assert(a.contains(p));
                assert(b.contains(p));
                let m = choose|m: int| 0 <= m < b.len() && b[m] == p;
                assert(fb[m] == p);
            }
            if fb.contains(p) {
                let k = choose|k: int| 0 <= k < fb.len() && fb[k] == p;
                assert(b[k] == p);
                assert(text::text_less(b[k], b[b.len() - 1]));
                assert(b.contains(p));
                assert(a.contains(p));
                let m = choose|m: int| 0 <= m < a.len() && a[m] == p;
                assert(fa[m] == p);
            }
        }
        assert forall|p: int, q: int|
            #![trigger fa[p], fa[q]]
            0 <= p < q < fa.len() implies text::text_less(fa[p], fa[q]) by {
            assert(fa[p] == a[p] && fa[q] == a[q]);
        }
        assert forall|p: int, q: int|
            #![trigger fb[p], fb[q]]
            0 <= p < q < fb.len() implies text::text_less(fb[p], fb[q]) by {
            assert(fb[p] == b[p] && fb[q] == b[q]);
        }
        lemma_ascending_unique(fa, fb);
        assert(a =~= fa.push(x));
        assert(b =~= fb.push(y));
    }
}

/// The path of a delete file relative to the table root: a `file://` path loses
/// its scheme, the root where it lies under it, and leading slashes; any other
/// path stays as it is.
pub open spec fn resolved_path(path: Seq<char>, root_uri: Seq<char>) -> Seq<char> {
    if "file://"@.is_prefix_of(path) {
        let root = text::without_trailing(clean_path(root_uri), '/');
        let clean = clean_path(path);
        if root.len() > 0 && root.is_prefix_of(clean) {
            text::without_leading(clean.skip(root.len() as int), '/')
        } else {
            text::without_leading(clean, '/')
        }
    } else {
        path
    }
}

/// The path of a delete file relative to the table root.
pub fn resolve_delete_path(path: &str, root_uri: &str) -> (r: String)
    ensures
        r@ == resolved_path(path@, root_uri@),
{
    if !text::starts_with(path, "file://") {
        return path.to_owned();
    }
    let root_clean: String = without_file_scheme(root_uri);
    let root: String = text::trim_end_char(root_clean.as_str(), '/');
    let clean: String = without_file_scheme(path);
    if !root.as_str().is_empty() {
        match text::strip_prefix(clean.as_str(), root.as_str()) {
            Some(rest) => text::trim_start_char(rest.as_str(), '/'),
            None => text::trim_start_char(clean.as_str(), '/'),
        }
    } else {
        text::trim_start_char(clean.as_str(), '/')
    }
}

/// What to fetch for a delete file.
#[derive(Debug)]
pub enum DeleteFetch {
    /// A position delete file, to be parsed into a [`DeleteMap`].
    Positions { path: String },
    /// A bitmap in the portable format.
    Bitmap { path: String },
    /// A byte range of a Puffin file that holds a bitmap.
    Vector { path: String, start: u64, end: u64 },
    /// Nothing: equality deletes are read elsewhere.
    Skip,
}

/// What to fetch for a delete file.
pub open spec fn fetch_for(d: DeleteFile, root_uri: Seq<char>, f: DeleteFetch) -> bool {
    match d.content {
        DeleteContent::Position => {
            let path = resolved_path(d.file_path@, root_uri);
            if ".parquet"@.is_suffix_of(path) || ".avro"@.is_suffix_of(path) {
                f matches DeleteFetch::Positions { path: p } && p@ == path
            } else {
                f matches DeleteFetch::Bitmap { path: p } && p@ == d.file_path@
            }
        },
        DeleteContent::DeletionVector { puffin_file_path, content_offset, content_size_in_bytes } =>
        f matches DeleteFetch::Vector { path, start, end } && path@ == puffin_file_path@ && start
            == content_offset as u64 && end == (content_offset + content_size_in_bytes) as u64,
        DeleteContent::Equality { equality_ids } => f is Skip,
    }
}

/// The byte range of every deletion vector can be computed.
pub open spec fn ranges_fit(files: Seq<DeleteFile>) -> bool {
    forall|i: int|
        #![trigger files[i]]
        0 <= i < files.len() ==> match files[i].content {
            DeleteContent::DeletionVector {
                puffin_file_path,
                content_offset,
                content_size_in_bytes,
            } => i64::MIN <= content_offset + content_size_in_bytes <= i64::MAX,
            _ => true,
        }
}

impl HybridReader {
    /// The positions in the list of delete files at which a file stands for
    /// the first time. A manifest can attach the same delete file many times.
    pub fn unique_delete_files(&self) -> (r: Vec<usize>)
        ensures
            r@.map_values(|i: usize| i as int) == first_positions(paths_of(self.delete_files@)),
            forall|k: int| 0 <= k < r.len() ==> #[trigger] r@[k] < self.delete_files.len(),
    {
        let ghost paths = paths_of(self.delete_files@);
        let mut r: Vec<usize> = Vec::new();
        let mut i: usize = 0;
        assert(r@.map_values(|i: usize| i as int) =~= first_positions(paths.take(0)));
        while i < self.delete_files.len()
            invariant
                i <= self.delete_files.len(),
                paths == paths_of(self.delete_files@),
                r@.map_values(|i: usize| i as int) == first_positions(paths.take(i as int)),
                forall|k: int| 0 <= k < r.len() ==> #[trigger] r@[k] < i,
            decreases self.delete_files.len() - i,
        {
            let ghost front = paths.take(i as int);
            let ghost fs = first_positions(front);
            let path: &String = &self.delete_files[i].file_path;
            let mut seen: bool = false;
            let mut k: usize = 0;
            while k < r.len() && !seen
                invariant
                    k <= r.len(),
                    i < self.delete_files.len(),
                    paths == paths_of(self.delete_files@),
                    path@ == paths[i as int],
                    forall|k: int| 0 <= k < r.len() ==> #[trigger] r@[k] < i,
                    !seen ==> forall|m: int| 0 <= m < k ==> paths[#[trigger] r@[m] as int] != path@,
                    seen ==> k < r.len() && paths[r@[k as int] as int] == path@,
                decreases r.len() - k, if seen { 0int } else { 1int },
            {
                if text::same(self.delete_files[r[k]].file_path.as_str(), path.as_str()) {
                    seen = true;
                } else {
                    k = k + 1;
                }
            }
            proof {
                lemma_first_positions(front);
                assert(paths.take(i + 1).drop_last() =~= front);
                assert(r@.map_values(|i: usize| i as int).len() == r@.len());
                if seen {
                    assert(front[r@[k as int] as int] == path@);
                    assert(front.contains(path@));
                } else if front.contains(path@) {
                    assert(distinct_paths(front).contains(path@));
                    let m = choose|m: int|
                        0 <= m < distinct_paths(front).len() && distinct_paths(front)[m] == path@;
                    assert(fs[m] == r@.map_values(|i: usize| i as int)[m]);
                    assert(fs[m] == r@[m]);
                    assert(paths[r@[m] as int] == path@);
                }
            }
            let ghost before = r@;
            if !seen {
                r.push(i);
            }
            proof {
                if !seen {
                    assert(r@.map_values(|i: usize| i as int) =~= before.map_values(
                        |i: usize| i as int,
                    ).push(i as int));
                }
            }
            i = i + 1;
        }
        assert(paths.take(i as int) =~= paths);
        r
    }

    /// The data file that the delete files speak of.
    pub fn target_path(&self) -> (r: String)
        ensures
            r@ == target_of(*self),
    {
        match &self.parquet_path {
            Some(p) => p.clone(),
            None => {
                let mut r: String = self.base_path.clone();
                r.append("/");
                r.append(self.segment_id.as_str());
                r.append(".parquet");
                r
            },
        }
    }

    /// A cache key made of the data file and the sorted paths of its delete
    /// files; `None` where there are no delete files.
    pub fn merged_deletes_cache_key(&self) -> (r: Option<String>)
        ensures
            match r {
                None => self.delete_files.len() == 0,
                Some(key) => self.delete_files.len() > 0 && exists|sorted: Seq<Seq<char>>|
                    sorts(sorted, paths_of(self.delete_files@)) && key@ == #[trigger] cache_key(
                        target_of(*self),
                        sorted,
                    ),
            },
    {
        if self.delete_files.len() == 0 {
            return None;
        }
        let ghost paths = paths_of(self.delete_files@);
        let unique: Vec<usize> = self.unique_delete_files();
        let ghost fs = first_positions(paths);
        proof {
            lemma_first_positions(paths);
        }
        let mut keys: Vec<String> = Vec::new();
        let mut i: usize = 0;
        while i < unique.len()
            invariant
                i <= unique.len(),
                keys.len() == i,
                paths == paths_of(self.delete_files@),
                forall|k: int| 0 <= k < unique.len()
                    ==> #[trigger] unique@[k] < self.delete_files.len(),
                forall|k: int|
                    0 <= k < i ==> (#[trigger] keys@[k])@ == paths[unique@[k] as int],
            decreases unique.len() - i,
        {
            keys.push(self.delete_files[unique[i]].file_path.clone());
            i = i + 1;
        }
        let by_key: Vec<usize> = order::sorted_order(&keys);
        let mut parts: Vec<String> = Vec::new();
        let mut j: usize = 0;
        while j < by_key.len()
            invariant
                j <= by_key.len(),
                parts.len() == j,
                order::is_sorted_order(keys@, by_key@),
                forall|k: int|
                    0 <= k < j ==> (#[trigger] parts@[k])@ == keys@[by_key@[k] as int]@,
            decreases by_key.len() - j,
        {
            assert(by_key@[j as int] < keys.len());
            parts.push(keys[by_key[j]].clone());
            j = j + 1;
        }
        let ghost sorted = text::texts(parts@);
        proof {
            assert forall|k: int| 0 <= k < keys.len() implies fs[k] == unique@[k] by {
                assert(unique@.map_values(|i: usize| i as int)[k] == fs[k]);
            }
            assert(unique@.map_values(|i: usize| i as int).len() == fs.len());
            text::lemma_text_order();
            assert forall|a: int, b: int|
                #![trigger sorted[a], sorted[b]]
                0 <= a < b < sorted.len() implies text::text_less(sorted[a], sorted[b]) by {
                let x = by_key@[a] as int;
                let y = by_key@[b] as int;
                assert(order::comes_before(keys@, x, y));
                assert(sorted[a] == keys@[x]@);
                assert(sorted[b] == keys@[y]@);
                if keys@[x]@ == keys@[y]@ {
                    assert(x < y) by {
                        assert(!text::text_less(keys@[x]@, keys@[y]@));
                    }
                    assert(paths[fs[x]] != paths[fs[y]]);
                } else if !text::text_less(keys@[x]@, keys@[y]@) {
                    text::lemma_text_less_total(keys@[x]@, keys@[y]@);
                }
            }
            assert forall|p: Seq<char>| sorted.contains(p) <==> #[trigger] paths.contains(p) by {
                assert(paths.contains(p) <==> distinct_paths(paths).contains(p));
                if sorted.contains(p) {
                    let a = choose|a: int| 0 <= a < sorted.len() && sorted[a] == p;
                    let x = by_key@[a] as int;
                    assert(sorted[a] == keys@[x]@);
                    assert(distinct_paths(paths)[x] == p);
                }
                if distinct_paths(paths).contains(p) {
                    let x = choose|x: int|
                        0 <= x < distinct_paths(paths).len() && distinct_paths(paths)[x] == p;
                    assert(keys@[x]@ == p);
                    assert(by_key@.contains(x as usize));
                    let a = choose|a: int| 0 <= a < by_key@.len() && by_key@[a] == x as usize;
                    assert(sorted[a] == p);
                }
            }
            assert(sorts(sorted, paths));
        }
        let mut key: String = self.target_path();
        key.append("::");
        let joined: String = text::join(&parts, ",");
        key.append(joined.as_str());
        assert(key@ == cache_key(target_of(*self), sorted));
        Some(key)
    }

    /// What to fetch for each of the distinct delete files, in order.
    pub fn plan_delete_fetches(&self) -> (r: Vec<DeleteFetch>)
        requires
            ranges_fit(self.delete_files@),
        ensures
            r.len() == first_positions(paths_of(self.delete_files@)).len(),
            forall|k: int|
                #![trigger r@[k]]
                0 <= k < r.len() ==> fetch_for(
                    self.delete_files@[first_positions(paths_of(self.delete_files@))[k]],
                    self.root_uri@,
                    r@[k],
                ),
    {
        let unique: Vec<usize> = self.unique_delete_files();
        let ghost fs = first_positions(paths_of(self.delete_files@));
        let mut r: Vec<DeleteFetch> = Vec::new();
        let mut i: usize = 0;
        assert(unique@.map_values(|i: usize| i as int).len() == unique@.len());
        while i < unique.len()
            invariant
                i <= unique.len(),
                r.len() == i,
                unique.len() == fs.len(),
                ranges_fit(self.delete_files@),
                unique@.map_values(|i: usize| i as int) == fs,
                forall|k: int| 0 <= k < unique.len()
                    ==> #[trigger] unique@[k] < self.delete_files.len(),
                forall|k: int|
                    #![trigger r@[k]]
                    0 <= k < i ==> fetch_for(
                        self.delete_files@[fs[k]],
                        self.root_uri@,
                        r@[k],
                    ),
            decreases unique.len() - i,
        {
            assert(unique@.map_values(|i: usize| i as int)[i as int] == unique@[i as int]);
            let d: &DeleteFile = &self.delete_files[unique[i]];
            let fetch: DeleteFetch = match &d.content {
                DeleteContent::Position => {
                    let path: String = resolve_delete_path(
                        d.file_path.as_str(),
                        self.root_uri.as_str(),
                    );
                    if text::ends_with(path.as_str(), ".parquet") || text::ends_with(
                        path.as_str(),
                        ".avro",
                    ) {
                        DeleteFetch::Positions { path }
                    } else {
                        DeleteFetch::Bitmap { path: d.file_path.clone() }
                    }
                },
                DeleteContent::DeletionVector {
                    puffin_file_path,
                    content_offset,
                    content_size_in_bytes,
                } => {
                    let end: i64 = *content_offset + *content_size_in_bytes;
                    DeleteFetch::Vector {
                        path: puffin_file_path.clone(),
                        start: *content_offset as u64,
                        end: end as u64,
                    }
                },
                DeleteContent::Equality { .. } => DeleteFetch::Skip,
            };
            r.push(fetch);
            i = i + 1;
        }
        r
    }
}

/// What was fetched for a position delete file.
#[derive(Debug)]
pub enum FileDeletes {
    /// Parsed content, by data file.
    Positions(DeleteMap),
    /// A bitmap that was read as it is.
    Bitmap(RoaringBitmap),
}

/// The rows that one delete file deletes of the target.
pub open spec fn deletes_of(f: FileDeletes, target: Seq<char>) -> Set<u32> {
    match f {
        FileDeletes::Positions(m) => rows_deleted(m@, target),
        FileDeletes::Bitmap(b) => bitmap_set(b),
    }
}

/// The rows that any of the files deletes of the target.
pub open spec fn deletes_of_all(fs: Seq<FileDeletes>, target: Seq<char>) -> Set<u32>
    decreases fs.len(),
{
    if fs.len() == 0 {
        Set::empty()
    } else {
        deletes_of_all(fs.drop_last(), target).union(deletes_of(fs.last(), target))
    }
}

/// The rows in any of the bitmaps.
pub open spec fn union_all(bs: Seq<RoaringBitmap>) -> Set<u32>
    decreases bs.len(),
{
    if bs.len() == 0 {
        Set::empty()
    } else {
        union_all(bs.drop_last()).union(bitmap_set(bs.last()))
    }
}

/// The parsed files are well formed.
pub open spec fn maps_wf(fs: Seq<FileDeletes>) -> bool {
    forall|i: int|
        #![trigger fs[i]]
        0 <= i < fs.len() ==> (fs[i] matches FileDeletes::Positions(m) ==> m.wf())
}

/// Every bitmap among the files is in order.
pub open spec fn bitmaps_ordered(fs: Seq<FileDeletes>, vectors: Seq<RoaringBitmap>) -> bool {
    &&& forall|i: int|
        #![trigger fs[i]]
        0 <= i < fs.len() ==> (fs[i] matches FileDeletes::Bitmap(b) ==> bitmap_ordered(b))
    &&& forall|i: int| 0 <= i < vectors.len() ==> bitmap_ordered(#[trigger] vectors[i])
}

/// The deletes of a bitmap file: the bitmap that its bytes hold, or nothing
/// where the file could not be fetched or its bytes hold none.
pub fn native_deletes(bytes: Option<&[u8]>) -> (r: FileDeletes)
    ensures
        r matches FileDeletes::Bitmap(b) && match bytes {
            None => bitmap_ordered(b) && bitmap_set(b) == Set::<u32>::empty(),
            Some(bytes) => match bitmap_file_set(bytes@) {
                None => bitmap_ordered(b) && bitmap_set(b) == Set::<u32>::empty(),
                Some(s) => bitmap_file_ordered(bytes@) ==> bitmap_ordered(b) && bitmap_set(b) == s,
            },
        },
{
    let mut local: RoaringBitmap = empty_bitmap();
    match bytes {
        Some(bytes) => match bitmap_read(bytes) {
            Some(b) => {
                bitmap_union(&mut local, b);
                proof {
                    if bitmap_file_ordered(bytes@) {
                        assert(bitmap_set(local) =~= bitmap_file_set(bytes@)->0);
                    }
                }
            },
            None => {},
        },
        None => {},
    }
    FileDeletes::Bitmap(local)
}

/// Merges what was fetched into the rows deleted of the target: the position
/// deletes that name it, the bitmaps and the deletion vectors.
pub fn merge_deletes(results: Vec<FileDeletes>, vectors: Vec<RoaringBitmap>, target: &str) -> (r:
    RoaringBitmap)
    requires
        maps_wf(results@),
    ensures
        bitmaps_ordered(results@, vectors@) ==> {
            &&& bitmap_ordered(r)
            &&& bitmap_set(r) == deletes_of_all(results@, clean_path(target@)).union(
                union_all(vectors@),
            )
        },
{
    let target_clean: String = without_file_scheme(target);
    let ghost all = results@;
    let ghost vs = vectors@;
    let ghost ok = bitmaps_ordered(all, vs);
    let ghost tc = clean_path(target@);
    let mut from_maps: RoaringBitmap = empty_bitmap();
    let mut native: Vec<RoaringBitmap> = Vec::new();
    assert(all.take(0) =~= Seq::empty());
    for result in it: results
        invariant
            it.seq() == all,
            maps_wf(all),
            ok == bitmaps_ordered(all, vs),
            target_clean@ == tc,
            bitmap_ordered(from_maps),
            ok ==> forall|k: int| 0 <= k < native.len() ==> bitmap_ordered(#[trigger] native@[k]),
            bitmap_set(from_maps).union(union_all(native@)) == deletes_of_all(
                all.take(it.index() as int),
                tc,
            ),
    {
        let ghost n = it.index() as int;
        let ghost before = bitmap_set(from_maps);
        let ghost before_native = native@;
        assert(all.take(n + 1).drop_last() =~= all.take(n));
        assert(all[n] == result);
        match result {
            FileDeletes::Positions(m) => {
                let one: RoaringBitmap = PositionDeleteReader::filter_map_to_bitmap(
                    &m,
                    target_clean.as_str(),
                );
                bitmap_union(&mut from_maps, one);
            },
            FileDeletes::Bitmap(b) => {
                native.push(b);
                assert(native@.drop_last() =~= before_native);
            },
        }
        assert(bitmap_set(from_maps).union(union_all(native@)) =~= deletes_of_all(
            all.take(n + 1),
            tc,
        ));
    }
    assert(all.take(all.len() as int) =~= all);
    let mut deleted: RoaringBitmap = empty_bitmap();
    bitmap_union(&mut deleted, from_maps);
    let ghost base = bitmap_set(from_maps);
    let ghost natives = native@;
    assert(bitmap_set(deleted) =~= base);
    assert(natives.take(0) =~= Seq::empty());
    assert(base.union(Set::empty()) =~= base);
    for b in it: native
        invariant
            it.seq() == natives,
            ok ==> forall|k: int| 0 <= k < natives.len() ==> bitmap_ordered(#[trigger] natives[k]),
            ok ==> bitmap_ordered(deleted) && bitmap_set(deleted) == base.union(
                union_all(natives.take(it.index() as int)),
            ),
    {
        let ghost n = it.index() as int;
        assert(natives.take(n + 1).drop_last() =~= natives.take(n));
        assert(natives[n] == b);
        bitmap_union(&mut deleted, b);
        proof {
            if ok {
                assert(bitmap_set(deleted) =~= base.union(union_all(natives.take(n + 1))));
            }
        }
    }
    assert(natives.take(natives.len() as int) =~= natives);
    let ghost merged = base.union(union_all(natives));
    assert(vs.take(0) =~= Seq::empty());
    assert(merged.union(Set::empty()) =~= merged);
    for b in it: vectors
        invariant
            it.seq() == vs,
            ok ==> forall|k: int| 0 <= k < vs.len() ==> bitmap_ordered(#[trigger] vs[k]),
            ok ==> bitmap_ordered(deleted) && bitmap_set(deleted) == merged.union(
                union_all(vs.take(it.index() as int)),
            ),
    {
        let ghost n = it.index() as int;
        assert(vs.take(n + 1).drop_last() =~= vs.take(n));
        assert(vs[n] == b);
        bitmap_union(&mut deleted, b);
        proof {
            if ok {
                assert(bitmap_set(deleted) =~= merged.union(union_all(vs.take(n + 1))));
            }
        }
    }
    assert(vs.take(vs.len() as int) =~= vs);
    deleted
}

/// The rows among some positions.
pub open spec fn rows_among(positions: Set<i64>) -> Set<u32> {
    Set::new(|x: u32| positions.contains(x as i64))
}

/// The positions of some rows.
pub open spec fn positions_of_rows(rows: Set<u32>) -> Set<i64> {
    Set::new(|p: i64| 0 <= p <= u32::MAX && rows.contains(p as u32))
}

/// Storing the deleted rows in the cache and reading them back gives the same
/// rows.
pub proof fn law_cached_deletes_read_back(rows: Set<u32>)
    ensures
        rows_among(positions_of_rows(rows)) == rows,
{
    assert(rows_among(positions_of_rows(rows)) =~= rows);
}

/// The deleted rows of cached positions.
pub fn deletes_from_cache(cached: &HashSet<i64>) -> (r: RoaringBitmap)
    ensures
        bitmap_ordered(r),
        bitmap_set(r) == rows_among(cached@),
{
    let mut r: RoaringBitmap = empty_bitmap();
    add_rows(&mut r, cached);
    assert(bitmap_set(r) =~= rows_among(cached@));
    r
}

/// The positions to cache for some deleted rows.
pub fn deletes_for_cache(rows: &RoaringBitmap) -> (r: HashSet<i64>)
    ensures
        bitmap_ordered(*rows) ==> r@ == positions_of_rows(bitmap_set(*rows)),
{
    let members: Vec<u32> = bitmap_members(rows);
    let mut r: HashSet<i64> = HashSet::new();
    let mut i: usize = 0;
    while i < members.len()
        invariant
            i <= members.len(),
            forall|p: i64| #[trigger]
                r@.contains(p) <==> exists|k: int|
                    0 <= k < i && (#[trigger] members@[k]) as i64 == p,
        decreases members.len() - i,
    {
        let ghost before = r@;
        r.insert(members[i] as i64);
        proof {
            assert forall|p: i64| #[trigger] r@.contains(p) <==> exists|k: int|
                0 <= k < i + 1 && (#[trigger] members@[k]) as i64 == p by {
                if before.contains(p) {
                    let k = choose|k: int| 0 <= k < i && (#[trigger] members@[k]) as i64 == p;
                    assert(members@[k] as i64 == p);
                }
                if p == members@[i as int] as i64 {
                    assert(members@[i as int] as i64 == p);
                }
            }
        }
        i = i + 1;
    }
    proof {
        if bitmap_ordered(*rows) {
            assert forall|p: i64| r@.contains(p) <==> positions_of_rows(
                bitmap_set(*rows),
            ).contains(p) by {
                if r@.contains(p) {
                    let k = choose|k: int|
                        0 <= k < members.len() && (#[trigger] members@[k]) as i64 == p;
                    assert(members@.to_set().contains(members@[k]));
                }
                if positions_of_rows(bitmap_set(*rows)).contains(p) {
                    assert(members@.to_set().contains(p as u32));
                    let k = choose|k: int| 0 <= k < members.len() && members@[k] == p as u32;
                    assert(members@[k] as i64 == p);
                }
            }
            assert(r@ =~= positions_of_rows(bitmap_set(*rows)));
        }
    }
    r
}

impl HybridReader {
    /// The deleted rows of the segment: those of the cache where it has an
    /// entry, else the merge of what was fetched.
    pub fn load_merged_deletes(
        &self,
        cached: Option<&HashSet<i64>>,
        results: Vec<FileDeletes>,
        vectors: Vec<RoaringBitmap>,
    ) -> (r: RoaringBitmap)
        requires
            maps_wf(results@),
        ensures
            match cached {
                Some(positions) => bitmap_ordered(r) && bitmap_set(r) == rows_among(positions@),
                None => bitmaps_ordered(results@, vectors@) ==> bitmap_ordered(r) && bitmap_set(r)
                    == deletes_of_all(results@, clean_path(target_of(*self))).union(
                    union_all(vectors@),
                ),
            },
    {
        match cached {
            Some(positions) => deletes_from_cache(positions),
            None => {
                let target: String = self.target_path();
                merge_deletes(results, vectors, target.as_str())
            },
        }
    }

    /// The equality delete files to read, as positions in the list of delete
    /// files, each with its path relative to the table root. Without a table
    /// schema an equality delete cannot be applied: `None`.
    pub fn plan_equality_deletes(&self, has_schema: bool) -> (r: Option<Vec<(usize, String)>>)
        ensures
            match r {
                None => !has_schema && equality_plan(
                    self.delete_files@,
                    self.root_uri@,
                    first_positions(paths_of(self.delete_files@)),
                ).len() > 0,
                Some(plan) => {
                    &&& plan@.map_values(|p: (usize, String)| (p.0 as int, p.1@)) == equality_plan(
                        self.delete_files@,
                        self.root_uri@,
                        first_positions(paths_of(self.delete_files@)),
                    )
                    &&& has_schema || plan.len() == 0
                },
            },
    {
        let unique: Vec<usize> = self.unique_delete_files();
        let ghost fs = first_positions(paths_of(self.delete_files@));
        let ghost files = self.delete_files@;
        let ghost root = self.root_uri@;
        let ghost whole = equality_plan(files, root, fs);
        let mut plan: Vec<(usize, String)> = Vec::new();
        let mut i: usize = 0;
        assert(fs.take(0) =~= Seq::empty());
        assert(plan@.map_values(|p: (usize, String)| (p.0 as int, p.1@)) =~= equality_plan(
            files,
            root,
            fs.take(0),
        ));
        assert(unique@.map_values(|i: usize| i as int).len() == unique@.len());
        while i < unique.len()
            invariant
                i <= unique.len(),
                unique.len() == fs.len(),
                files == self.delete_files@,
                root == self.root_uri@,
                unique@.map_values(|i: usize| i as int) == fs,
                fs == first_positions(paths_of(self.delete_files@)),
                forall|k: int| 0 <= k < unique.len()
                    ==> #[trigger] unique@[k] < self.delete_files.len(),
                plan@.map_values(|p: (usize, String)| (p.0 as int, p.1@)) == equality_plan(
                    files,
                    root,
                    fs.take(i as int),
                ),
                has_schema || plan.len() == 0,
            decreases unique.len() - i,
        {
            assert(unique@.map_values(|i: usize| i as int)[i as int] == unique@[i as int]);
            assert(fs.take(i + 1).drop_last() =~= fs.take(i as int));
            let at: usize = unique[i];
            match &self.delete_files[at].content {
                DeleteContent::Equality { .. } => {
                    if !has_schema {
                        proof {
                            lemma_equality_plan_grows(files, root, fs, i + 1);
                        }
                        return None;
                    }
                    let path: String = resolve_delete_path(
                        self.delete_files[at].file_path.as_str(),
                        self.root_uri.as_str(),
                    );
                    let ghost before = plan@;
                    plan.push((at, path));
                    assert(plan@.map_values(|p: (usize, String)| (p.0 as int, p.1@))
                        =~= before.map_values(|p: (usize, String)| (p.0 as int, p.1@)).push(
                        (at as int, path@),
                    ));
                },
                _ => {},
            }
            i = i + 1;
        }
        assert(fs.take(i as int) =~= fs);
        Some(plan)
    }
}

/// The equality delete files among the files at the given positions.
pub open spec fn equality_plan(
    files: Seq<DeleteFile>,
    root_uri: Seq<char>,
    positions: Seq<int>,
) -> Seq<(int, Seq<char>)>
    decreases positions.len(),
{
    if positions.len() == 0 {
        Seq::empty()
    } else {
        let before = equality_plan(files, root_uri, positions.drop_last());
        let d = files[positions.last()];
        match d.content {
            DeleteContent::Equality { equality_ids } => before.push(
                (positions.last(), resolved_path(d.file_path@, root_uri)),
            ),
            _ => before,
        }
    }
}

proof fn lemma_equality_plan_grows(
    files: Seq<DeleteFile>,
    root: Seq<char>,
    positions: Seq<int>,
    k: int,
)
    requires
        0 <= k <= positions.len(),
    ensures
        equality_plan(files, root, positions.take(k)).len() <= equality_plan(
            files,
            root,
            positions,
        ).len(),
    decreases positions.len() - k,
{
    if k < positions.len() {
        assert(positions.take(k + 1).drop_last() =~= positions.take(k));
        lemma_equality_plan_grows(files, root, positions, k + 1);
    } else {
        assert(positions.take(k) =~= positions);
    }
}

/// The column whose values an equality delete file lists, for files that delete
/// by one column and hold at least one batch. Deletes by several columns are
/// not applied.
pub fn equality_delete_column(equality_ids: &Vec<i32>, schema: &TableSchema, batches: usize) -> (r:
    Option<String>)
    ensures
        match r {
            Some(name) => {
                &&& equality_ids.len() == 1
                &&& batches > 0
                &&& field_with_id(schema.fields@, equality_ids@[0]) matches Some(f) && name@
                    == f.name@
            },
            None => equality_ids.len() != 1 || batches == 0 || field_with_id(
                schema.fields@,
                equality_ids@[0],
            ) is None,
        },
{
    if equality_ids.len() != 1 || batches == 0 {
        return None;
    }
    match schema.find_id(equality_ids[0]) {
        Some(field) => Some(field.name.clone()),
        None => None,
    }
}

/// The rows that any of the files at the given paths deletes, where `deletes`
/// gives the rows of each file.
pub open spec fn union_over(
    paths: Seq<Seq<char>>,
    deletes: spec_fn(Seq<char>) -> Set<u32>,
) -> Set<u32> {
    Set::new(|x: u32| exists|p: Seq<char>| #[trigger] paths.contains(p) && deletes(p).contains(x))
}

/// Merging a delete file more than once adds nothing: the distinct files delete
/// the same rows as the whole list.
pub proof fn law_repeated_delete_files_add_nothing(
    paths: Seq<Seq<char>>,
    deletes: spec_fn(Seq<char>) -> Set<u32>,
)
    ensures
        union_over(distinct_paths(paths), deletes) == union_over(paths, deletes),
        distinct_paths(paths).no_duplicates(),
{
    lemma_first_positions(paths);
    let d = distinct_paths(paths);
    assert forall|x: u32| union_over(d, deletes).contains(x) <==> union_over(
        paths,
        deletes,
    ).contains(x) by {
        if union_over(d, deletes).contains(x) {
            let p = choose|p: Seq<char>| #[trigger] d.contains(p) && deletes(p).contains(x);
            assert(paths.contains(p));
        }
        if union_over(paths, deletes).contains(x) {
            let p = choose|p: Seq<char>| #[trigger] paths.contains(p) && deletes(p).contains(x);
            assert(d.contains(p));
        }
    }
    assert(union_over(d, deletes) =~= union_over(paths, deletes));
    assert forall|i: int, j: int| 0 <= i < d.len() && 0 <= j < d.len() && i != j implies d[i]
        != d[j] by {
        let fs = first_positions(paths);
        if i < j {
            assert(paths[fs[i]] != paths[fs[j]]);
        } else {
            assert(paths[fs[j]] != paths[fs[i]]);
        }
    }
}

/// The distinct delete files, in the order of their first occurrence.
pub open spec fn distinct_files(files: Seq<DeleteFile>) -> Seq<DeleteFile> {
    first_positions(paths_of(files)).map_values(|i: int| files[i])
}

/// The rows that files list: those of each file of positions and of each deletion
/// vector, where `listed` says what the file under a path lists of a data file.
/// Equality deletes list no rows.
pub open spec fn rows_listed(
    files: Seq<DeleteFile>,
    listed: spec_fn(Seq<char>) -> Set<u32>,
) -> Set<u32> {
    Set::new(
        |x: u32|
            exists|i: int|
                0 <= i < files.len() && !((#[trigger] files[i]).content is Equality) && listed(
                    files[i].file_path@,
                ).contains(x),
    )
}

/// What was fetched for files, in their order: what each file of positions and each
/// deletion vector lists. For a file that could not be read, nothing that deletes a
/// row was fetched.
pub open spec fn fetched(
    files: Seq<DeleteFile>,
    results: Seq<FileDeletes>,
    vectors: Seq<RoaringBitmap>,
    target: Seq<char>,
    listed: spec_fn(Seq<char>) -> Set<u32>,
) -> bool
    decreases files.len(),
{
    if files.len() == 0 {
        results.len() == 0 && vectors.len() == 0
    } else {
        let front = files.drop_last();
        let rows = listed(files.last().file_path@);
        let nothing = rows == Set::<u32>::empty() && fetched(
            front,
            results,
            vectors,
            target,
            listed,
        );
        match files.last().content {
            DeleteContent::Position => nothing || results.len() > 0 && deletes_of(
                results.last(),
                target,
            ) == rows && fetched(front, results.drop_last(), vectors, target, listed),
            DeleteContent::DeletionVector { .. } => nothing || vectors.len() > 0 && bitmap_set(
                vectors.last(),
            ) == rows && fetched(front, results, vectors.drop_last(), target, listed),
            DeleteContent::Equality { .. } => fetched(front, results, vectors, target, listed),
        }
    }
}

/// A delete file is known by its path: two with one path are of one kind.
pub open spec fn known_by_path(a: Seq<DeleteFile>, b: Seq<DeleteFile>) -> bool {
    forall|i: int, j: int|
        #![trigger a[i], b[j]]
        0 <= i < a.len() && 0 <= j < b.len() && a[i].file_path@ == b[j].file_path@ ==> (
        a[i].content is Equality <==> b[j].content is Equality)
}

proof fn lemma_fetched(
    files: Seq<DeleteFile>,
    results: Seq<FileDeletes>,
    vectors: Seq<RoaringBitmap>,
    target: Seq<char>,
    listed: spec_fn(Seq<char>) -> Set<u32>,
)
    requires
        fetched(files, results, vectors, target, listed),
    ensures
        deletes_of_all(results, target).union(union_all(vectors)) == rows_listed(files, listed),
    decreases files.len(),
{
    let now = rows_listed(files, listed);
    if files.len() == 0 {
        assert(deletes_of_all(results, target).union(union_all(vectors)) =~= now);
    } else {
        let front = files.drop_last();
        let last = files.last();
        let before = rows_listed(front, listed);
        let rows = listed(last.file_path@);
        let added = if last.content is Equality {
            Set::empty()
        } else {
            rows
        };
        assert forall|x: u32| now.contains(x) <==> before.union(added).contains(x) by {
            if now.contains(x) {
                let i = choose|i: int|
                    0 <= i < files.len() && !((#[trigger] files[i]).content is Equality) && listed(
                        files[i].file_path@,
                    ).contains(x);
                if i < files.len() - 1 {
                    assert(front[i] == files[i]);
                }
            }
            if before.contains(x) {
                let i = choose|i: int|
                    0 <= i < front.len() && !((#[trigger] front[i]).content is Equality) && listed(
                        front[i].file_path@,
                    ).contains(x);
                assert(files[i] == front[i]);
            }
            if added.contains(x) {
                assert(files[files.len() - 1] == last);
            }
        }
        assert(now =~= before.union(added));
        if fetched(front, results, vectors, target, listed) && (rows == Set::<u32>::empty()
            || last.content is Equality) {
            lemma_fetched(front, results, vectors, target, listed);
        } else if last.content is Position {
            lemma_fetched(front, results.drop_last(), vectors, target, listed);
        } else {
            lemma_fetched(front, results, vectors.drop_last(), target, listed);
        }
        assert(deletes_of_all(results, target).union(union_all(vectors)) =~= now);
    }
}

proof fn lemma_distinct_files_list_the_same(
    files: Seq<DeleteFile>,
    listed: spec_fn(Seq<char>) -> Set<u32>,
)
    requires
        known_by_path(files, files),
    ensures
        rows_listed(distinct_files(files), listed) == rows_listed(files, listed),
{
    let paths = paths_of(files);
    let fs = first_positions(paths);
    let d = distinct_files(files);
    lemma_first_positions(paths);
    assert forall|x: u32| rows_listed(d, listed).contains(x) <==> rows_listed(
        files,
        listed,
    ).contains(x) by {
        if rows_listed(d, listed).contains(x) {
            let k = choose|k: int|
                0 <= k < d.len() && !((#[trigger] d[k]).content is Equality) && listed(
                    d[k].file_path@,
                ).contains(x);
            assert(files[fs[k]] == d[k]);
        }
        if rows_listed(files, listed).contains(x) {
            let i = choose|i: int|
                0 <= i < files.len() && !((#[trigger] files[i]).content is Equality) && listed(
                    files[i].file_path@,
                ).contains(x);
            assert(paths[i] == files[i].file_path@);
            assert(distinct_paths(paths).contains(paths[i]));
            let k = choose|k: int|
                0 <= k < distinct_paths(paths).len() && distinct_paths(paths)[k] == paths[i];
            assert(files[fs[k]].file_path@ == paths[i]);
            assert(d[k] == files[fs[k]]);
        }
    }
    assert(rows_listed(d, listed) =~= rows_listed(files, listed));
}

/// The deleted rows of a data file are those that its delete files list, whatever is
/// fetched twice or in another order: merging what was fetched for the distinct files
/// gives all rows that any file of the list has.
pub proof fn law_merged_deletes_are_all_listed_rows(
    reader: HybridReader,
    results: Seq<FileDeletes>,
    vectors: Seq<RoaringBitmap>,
    listed: spec_fn(Seq<char>) -> Set<u32>,
)
    requires
        known_by_path(reader.delete_files@, reader.delete_files@),
        fetched(
            distinct_files(reader.delete_files@),
            results,
            vectors,
            clean_path(target_of(reader)),
            listed,
        ),
    ensures
        deletes_of_all(results, clean_path(target_of(reader))).union(union_all(vectors))
            == rows_listed(reader.delete_files@, listed),
{
    let files = reader.delete_files@;
    lemma_fetched(distinct_files(files), results, vectors, clean_path(target_of(reader)), listed);
    lemma_distinct_files_list_the_same(files, listed);
}

/// Two lists of delete files with the same paths, in any order and however often each
/// is repeated, delete the same rows of a data file.
pub proof fn law_deletes_do_not_depend_on_order(
    a: HybridReader,
    b: HybridReader,
    a_results: Seq<FileDeletes>,
    b_results: Seq<FileDeletes>,
    a_vectors: Seq<RoaringBitmap>,
    b_vectors: Seq<RoaringBitmap>,
    listed: spec_fn(Seq<char>) -> Set<u32>,
)
    requires
        target_of(a) == target_of(b),
        paths_of(a.delete_files@).to_set() == paths_of(b.delete_files@).to_set(),
        known_by_path(a.delete_files@, a.delete_files@),
        known_by_path(b.delete_files@, b.delete_files@),
        known_by_path(a.delete_files@, b.delete_files@),
        fetched(
            distinct_files(a.delete_files@),
            a_results,
            a_vectors,
            clean_path(target_of(a)),
            listed,
        ),
        fetched(
            distinct_files(b.delete_files@),
            b_results,
            b_vectors,
            clean_path(target_of(b)),
            listed,
        ),
    ensures
        deletes_of_all(a_results, clean_path(target_of(a))).union(union_all(a_vectors))
            == deletes_of_all(b_results, clean_path(target_of(b))).union(union_all(b_vectors)),
{
    law_merged_deletes_are_all_listed_rows(a, a_results, a_vectors, listed);
    law_merged_deletes_are_all_listed_rows(b, b_results, b_vectors, listed);
    lemma_listed_by_path(a.delete_files@, b.delete_files@, listed);
    lemma_listed_by_path(b.delete_files@, a.delete_files@, listed);
    assert(rows_listed(a.delete_files@, listed) =~= rows_listed(b.delete_files@, listed));
}

proof fn lemma_listed_by_path(
    a: Seq<DeleteFile>,
    b: Seq<DeleteFile>,
    listed: spec_fn(Seq<char>) -> Set<u32>,
)
    requires
        paths_of(a).to_set() == paths_of(b).to_set(),
        known_by_path(a, b) || known_by_path(b, a),
    ensures
        rows_listed(a, listed).subset_of(rows_listed(b, listed)),
{
    assert forall|x: u32| rows_listed(a, listed).contains(x) implies rows_listed(
        b,
        listed,
    ).contains(x) by {
        let i = choose|i: int|
            0 <= i < a.len() && !((#[trigger] a[i]).content is Equality) && listed(
                a[i].file_path@,
            ).contains(x);
        let p = a[i].file_path@;
        assert(paths_of(a)[i] == p);
        assert(paths_of(a).to_set().contains(p));
        assert(paths_of(b).to_set().contains(p));
        let j = choose|j: int| 0 <= j < paths_of(b).len() && paths_of(b)[j] == p;
        assert(b[j].file_path@ == p);
    }
}

/// A row is deleted by several files exactly where one of them deletes it.
pub proof fn law_every_delete_file_counts(
    fs: Seq<FileDeletes>,
    vectors: Seq<RoaringBitmap>,
    target: Seq<char>,
    x: u32,
)
    ensures
        deletes_of_all(fs, target).contains(x) <==> exists|i: int|
            0 <= i < fs.len() && deletes_of(#[trigger] fs[i], target).contains(x),
        union_all(vectors).contains(x) <==> exists|i: int|
            0 <= i < vectors.len() && bitmap_set(#[trigger] vectors[i]).contains(x),
{
    lemma_deletes_of_all(fs, target, x);
    lemma_union_all(vectors, x);
}

proof fn lemma_deletes_of_all(fs: Seq<FileDeletes>, target: Seq<char>, x: u32)
    ensures
        deletes_of_all(fs, target).contains(x) <==> exists|i: int|
            0 <= i < fs.len() && deletes_of(#[trigger] fs[i], target).contains(x),
    decreases fs.len(),
{
    if fs.len() > 0 {
        let front = fs.drop_last();
        lemma_deletes_of_all(front, target, x);
        if deletes_of_all(front, target).contains(x) {
            let i = choose|i: int|
                0 <= i < front.len() && deletes_of(#[trigger] front[i], target).contains(x);
            assert(fs[i] == front[i]);
        }
        if exists|i: int| 0 <= i < fs.len() && deletes_of(#[trigger] fs[i], target).contains(x) {
            let i = choose|i: int|
                0 <= i < fs.len() && deletes_of(#[trigger] fs[i], target).contains(x);
            if i < front.len() {
                assert(fs[i] == front[i]);
            }
        }
        assert(fs[fs.len() - 1] == fs.last());
    }
}

proof fn lemma_union_all(vectors: Seq<RoaringBitmap>, x: u32)
    ensures
        union_all(vectors).contains(x) <==> exists|i: int|
            0 <= i < vectors.len() && bitmap_set(#[trigger] vectors[i]).contains(x),
    decreases vectors.len(),
{
    if vectors.len() > 0 {
        let front = vectors.drop_last();
        lemma_union_all(front, x);
        if union_all(front).contains(x) {
            let i = choose|i: int|
                0 <= i < front.len() && bitmap_set(#[trigger] front[i]).contains(x);
            assert(vectors[i] == front[i]);
        }
        if exists|i: int|
            0 <= i < vectors.len() && bitmap_set(#[trigger] vectors[i]).contains(x) {
            let i = choose|i: int|
                0 <= i < vectors.len() && bitmap_set(#[trigger] vectors[i]).contains(x);
            if i < front.len() {
                assert(vectors[i] == front[i]);
            }
        }
        assert(vectors[vectors.len() - 1] == vectors.last());
    }
}

/// Of the files that stand more than once the first one is read: the positions rise, each
/// path is among theirs, and none of them stands before.
pub proof fn law_each_delete_file_is_read_once(paths: Seq<Seq<char>>, i: int)
    requires
        0 <= i < paths.len(),
    ensures
        first_positions(paths).contains(i) <==> forall|j: int|
            0 <= j < i ==> #[trigger] paths[j] != paths[i],
    decreases paths.len(),
{
    let front = paths.drop_last();
    let last = paths.len() - 1;
    let before = first_positions(front);
    let all = first_positions(paths);
    lemma_positions_within(front);
    if i < last {
        law_each_delete_file_is_read_once(front, i);
        if before.contains(i) {
            let k = choose|k: int| 0 <= k < before.len() && before[k] == i;
            assert(all[k] == i);
        }
        if all.contains(i) {
            let k = choose|k: int| 0 <= k < all.len() && all[k] == i;
            assert(before[k] == i);
        }
        if forall|j: int| 0 <= j < i ==> #[trigger] front[j] != front[i] {
            assert forall|j: int| 0 <= j < i implies #[trigger] paths[j] != paths[i] by {
                assert(front[j] == paths[j]);
            }
        }
        if forall|j: int| 0 <= j < i ==> #[trigger] paths[j] != paths[i] {
            assert forall|j: int| 0 <= j < i implies #[trigger] front[j] != front[i] by {
                assert(front[j] == paths[j]);
            }
        }
    } else {
        if front.contains(paths.last()) {
            let j = choose|j: int| 0 <= j < front.len() && front[j] == paths.last();
            assert(paths[j] == paths[i]);
            if all.contains(i) {
                let k = choose|k: int| 0 <= k < all.len() && all[k] == i;
                assert(before[k] == i);
            }
        } else {
            assert(all[all.len() - 1] == i);
            assert forall|j: int| 0 <= j < i implies #[trigger] paths[j] != paths[i] by {
                assert(front[j] == paths[j]);
                assert(front.contains(front[j]));
            }
        }
    }
}

proof fn lemma_positions_within(paths: Seq<Seq<char>>)
    ensures
        forall|k: int|
            0 <= k < first_positions(paths).len() ==> 0 <= #[trigger] first_positions(paths)[k]
                < paths.len(),
    decreases paths.len(),
{
    if paths.len() > 0 {
        let front = paths.drop_last();
        lemma_positions_within(front);
        let before = first_positions(front);
        let all = first_positions(paths);
        assert forall|k: int| 0 <= k < all.len() implies 0 <= #[trigger] all[k] < paths.len() by {
            if k < before.len() {
                assert(all[k] == before[k]);
            }
        }
    }
}

/// A delete file is fetched by its kind: lists of positions and bitmaps from their files, the
/// vector of a Puffin file from its place in it, and a file of equality deletes not at all.
pub proof fn law_delete_files_are_fetched_by_their_kind(
    d: DeleteFile,
    root_uri: Seq<char>,
    f: DeleteFetch,
)
    requires
        fetch_for(d, root_uri, f),
    ensures
        f is Skip <==> d.content is Equality,
        f is Vector <==> d.content is DeletionVector,
        f matches DeleteFetch::Vector { path, start, end } ==> (
        d.content matches DeleteContent::DeletionVector {
            puffin_file_path,
            content_offset,
            content_size_in_bytes,
        } && path@ == puffin_file_path@ && (content_offset >= 0 && content_size_in_bytes >= 0
            && content_offset + content_size_in_bytes <= i64::MAX ==> start == content_offset && end
            - start == content_size_in_bytes)),
        f matches DeleteFetch::Bitmap { path } ==> path@ == d.file_path@,
        f matches DeleteFetch::Positions { path } ==> path@ == resolved_path(d.file_path@, root_uri)
            && (".parquet"@.is_suffix_of(path@) || ".avro"@.is_suffix_of(path@)),
{
}

/// A file is found below the root of the table: the path of a file that lies there is what
/// stands behind the root. What has no scheme of the file system is left as it is.
pub proof fn law_delete_paths_are_found_below_the_root(root: Seq<char>, rel: Seq<char>)
    requires
        root.len() > 0,
        root.last() != '/',
        rel.len() > 0,
        rel[0] != '/',
    ensures
        resolved_path("file://"@ + root + "/"@ + rel, "file://"@ + root) == rel,
        !"file://"@.is_prefix_of(rel) ==> resolved_path(rel, "file://"@ + root) == rel,
{
    reveal_strlit("/");
    let path = "file://"@ + root + "/"@ + rel;
    let f = "file://"@;
    assert(path.subrange(0, f.len() as int) =~= f);
    assert((f + root).subrange(0, f.len() as int) =~= f);
    assert((f + root).skip(f.len() as int) =~= root);
    let clean = root + "/"@ + rel;
    assert(path.skip(f.len() as int) =~= clean);
    assert(clean_path(path) == clean);
    assert(clean_path(f + root) == root);
    assert(text::without_trailing(root, '/') == root);
    assert(clean.subrange(0, root.len() as int) =~= root);
    let tail = clean.skip(root.len() as int);
    assert(tail =~= "/"@ + rel);
    assert(tail[0] == '/');
    assert(tail.skip(1) =~= rel);
    assert(text::without_leading(tail, '/') == text::without_leading(rel, '/'));
}

/// Every file of equality deletes among the files is planned, once, by its position and the
/// place where it is found; and no other file.
pub proof fn law_equality_deletes_are_planned(
    files: Seq<DeleteFile>,
    root_uri: Seq<char>,
    positions: Seq<int>,
    k: int,
)
    requires
        0 <= k < positions.len(),
    ensures
        files[positions[k]].content is Equality
            ==> equality_plan(files, root_uri, positions).contains(
            (positions[k], resolved_path(files[positions[k]].file_path@, root_uri)),
        ),
        forall|i: int|
            0 <= i < equality_plan(files, root_uri, positions).len() ==> files[(
            #[trigger] equality_plan(files, root_uri, positions)[i]).0].content is Equality,
        equality_plan(files, root_uri, positions).len() <= positions.len(),
    decreases positions.len(),
{
    let front = positions.drop_last();
    let before = equality_plan(files, root_uri, front);
    let all = equality_plan(files, root_uri, positions);
    lemma_equality_plan(files, root_uri, positions);
    let own = (positions[k], resolved_path(files[positions[k]].file_path@, root_uri));
    if k < front.len() {
        law_equality_deletes_are_planned(files, root_uri, front, k);
        assert(front[k] == positions[k]);
        if before.contains(own) {
            let i = choose|i: int| 0 <= i < before.len() && before[i] == own;
            assert(all[i] == own);
        }
    } else if files[positions[k]].content is Equality {
        assert(all[all.len() - 1] == own);
    }
}

proof fn lemma_equality_plan(files: Seq<DeleteFile>, root_uri: Seq<char>, positions: Seq<int>)
    ensures
        forall|i: int|
            0 <= i < equality_plan(files, root_uri, positions).len() ==> files[(
            #[trigger] equality_plan(files, root_uri, positions)[i]).0].content is Equality,
        equality_plan(files, root_uri, positions).len() <= positions.len(),
    decreases positions.len(),
{
    if positions.len() > 0 {
        let front = positions.drop_last();
        lemma_equality_plan(files, root_uri, front);
        let before = equality_plan(files, root_uri, front);
        let all = equality_plan(files, root_uri, positions);
        assert forall|i: int| 0 <= i < all.len() implies files[(
        #[trigger] all[i]).0].content is Equality by {
            if i < before.len() {
                assert(all[i] == before[i]);
            }
        }
    }
}

/// A segment is read where it is written: under the path that is set for its data, else in the
/// directory of the table under its own name.
pub proof fn law_segments_are_read_where_they_are_written(r: HybridReader)
    ensures
        r.parquet_path matches Some(p) ==> target_of(r) == p@,
        r.parquet_path is None && r.base_path@.len() > 0 && !"file://"@.is_prefix_of(r.base_path@)
            ==> target_of(r) == local_data_path(r.base_path@, r.segment_id@),
        r.parquet_path is None ==> clean_path(target_of(r)) == clean_path(
            r.base_path@ + "/"@ + r.segment_id@ + ".parquet"@,
        ),
{
}

} // verus!
