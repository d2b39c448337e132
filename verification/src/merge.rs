//! Merging a batch of rows into the segments of a table by key.
//!
//! Each source row updates the first candidate segment that holds its key, at
//! the first row with that key; a row whose key no segment holds is inserted.
//! Copy-on-write rewrites the segments it touches, merge-on-read deletes the
//! touched rows by position and inserts the new ones.

use vstd::prelude::*;
use vstd::string::*;

use crate::manifest::{DeleteFile, ManifestEntry, ManifestValue};
use crate::order::{self, Ranked};
use crate::text;

verus! {

// ---------------------------------------------------------------------------
// Keys
// ---------------------------------------------------------------------------

/// `a` sorts before `b`, byte by byte.
pub open spec fn bytes_less(a: Seq<u8>, b: Seq<u8>) -> bool
    decreases a.len(),
{
    if b.len() == 0 {
        false
    } else if a.len() == 0 {
        true
    } else if a[0] == b[0] {
        bytes_less(a.skip(1), b.skip(1))
    } else {
        a[0] < b[0]
    }
}

proof fn lemma_bytes_irreflexive(a: Seq<u8>)
    ensures
        !bytes_less(a, a),
    decreases a.len(),
{
    if a.len() > 0 {
        lemma_bytes_irreflexive(a.skip(1));
    }
}

proof fn lemma_bytes_transitive(a: Seq<u8>, b: Seq<u8>, c: Seq<u8>)
    requires
        bytes_less(a, b),
        bytes_less(b, c),
    ensures
        bytes_less(a, c),
    decreases a.len(),
{
    if a.len() > 0 && b.len() > 0 && c.len() > 0 && a[0] == b[0] && b[0] == c[0] {
        lemma_bytes_transitive(a.skip(1), b.skip(1), c.skip(1));
    }
}

proof fn lemma_bytes_total(a: Seq<u8>, b: Seq<u8>)
    requires
        !bytes_less(a, b),
        !bytes_less(b, a),
    ensures
        a == b,
    decreases a.len(),
{
    if a.len() > 0 && b.len() > 0 {
        lemma_bytes_total(a.skip(1), b.skip(1));
        assert(a =~= seq![a[0]] + a.skip(1));
        assert(b =~= seq![b[0]] + b.skip(1));
    } else {
        assert(a =~= b);
    }
}

impl Ranked for Vec<u8> {
    open spec fn less(self, other: Self) -> bool {
        bytes_less(self@, other@)
    }

    proof fn less_is_weak_order() {
        assert forall|a: Vec<u8>| !#[trigger] a.less(a) by {
            lemma_bytes_irreflexive(a@);
        }
        assert forall|a: Vec<u8>, b: Vec<u8>, c: Vec<u8>| #[trigger]
            a.less(b) && #[trigger] b.less(c) implies a.less(c) by {
            lemma_bytes_transitive(a@, b@, c@);
        }
        assert forall|a: Vec<u8>, b: Vec<u8>, c: Vec<u8>|
            !#[trigger] a.less(b) && !#[trigger] b.less(c) implies !a.less(c) by {
            if a.less(c) {
                if c.less(b) {
                    lemma_bytes_transitive(a@, c@, b@);
                } else {
                    lemma_bytes_total(b@, c@);
                }
            }
        }
    }

    fn is_less(&self, other: &Self) -> (r: bool) {
        let mut i: usize = 0;
        assert(self@.skip(0) =~= self@);
        assert(other@.skip(0) =~= other@);
        while i < self.len() && i < other.len() && self[i] == other[i]
            invariant
                i <= self.len(),
                i <= other.len(),
                bytes_less(self@, other@) == bytes_less(
                    self@.skip(i as int),
                    other@.skip(i as int),
                ),
            decreases self.len() - i,
        {
            assert(self@.skip(i as int).skip(1) =~= self@.skip(i + 1));
            assert(other@.skip(i as int).skip(1) =~= other@.skip(i + 1));
            i = i + 1;
        }
        if i == other.len() {
            false
        } else if i == self.len() {
            true
        } else {
            self[i] < other[i]
        }
    }
}

/// The first position of a key.
pub open spec fn first_with_key(keys: Seq<Vec<u8>>, key: Seq<u8>) -> Option<int>
    decreases keys.len(),
{
    if keys.len() == 0 {
        None
    } else {
        match first_with_key(keys.drop_last(), key) {
            Some(i) => Some(i),
            None => if keys.last()@ == key {
                Some(keys.len() - 1)
            } else {
                None
            },
        }
    }
}

proof fn lemma_first_with_key(keys: Seq<Vec<u8>>, key: Seq<u8>)
    ensures
        match first_with_key(keys, key) {
            Some(i) => {
                &&& 0 <= i < keys.len()
                &&& keys[i]@ == key
                &&& forall|j: int| 0 <= j < i ==> (#[trigger] keys[j])@ != key
            },
            None => forall|j: int| 0 <= j < keys.len() ==> (#[trigger] keys[j])@ != key,
        },
    decreases keys.len(),
{
    if keys.len() > 0 {
        let front = keys.drop_last();
        lemma_first_with_key(front, key);
        assert forall|j: int| 0 <= j < front.len() implies front[j] == keys[j] by {}
        match first_with_key(front, key) {
            Some(i) => {
                assert forall|j: int| 0 <= j < i implies (#[trigger] keys[j])@ != key by {
                    assert(front[j]@ != key);
                }
            },
            None => {
                assert forall|j: int| 0 <= j < front.len() implies (#[trigger] keys[j])@ != key by {
                    assert(front[j]@ != key);
                }
            },
        }
    }
}

/// Looks a key up in the sorted order of `keys`.
fn find_key(keys: &Vec<Vec<u8>>, by_key: &Vec<usize>, key: &Vec<u8>) -> (r: Option<usize>)
    requires
        order::is_sorted_order(keys@, by_key@),
    ensures
        match r {
            Some(i) => first_with_key(keys@, key@) == Some(i as int),
            None => first_with_key(keys@, key@) is None,
        },
{
    let mut lo: usize = 0;
    let mut hi: usize = by_key.len();
    proof {
        <Vec<u8> as Ranked>::less_is_weak_order();
    }
    while lo < hi
        invariant
            lo <= hi <= by_key.len(),
            order::is_sorted_order(keys@, by_key@),
            forall|a: Vec<u8>| !#[trigger] a.less(a),
            forall|a: Vec<u8>, b: Vec<u8>, c: Vec<u8>|
                !#[trigger] a.less(b) && !#[trigger] b.less(c) ==> !a.less(c),
            forall|a: Vec<u8>, b: Vec<u8>, c: Vec<u8>| #[trigger]
                a.less(b) && #[trigger] b.less(c) ==> a.less(c),
            forall|p: int| 0 <= p < lo ==> keys@[#[trigger] by_key@[p] as int].less(*key),
            forall|p: int| hi <= p < by_key.len()
                ==> !keys@[#[trigger] by_key@[p] as int].less(*key),
        decreases hi - lo,
    {
        let mid: usize = lo + (hi - lo) / 2;
        assert(by_key@[mid as int] < keys.len());
        if keys[by_key[mid]].is_less(key) {
            assert forall|p: int| 0 <= p < mid + 1 implies keys@[#[trigger] by_key@[p] as int].less(
                *key,
            ) by {
                if p < mid {
                    assert(order::comes_before(keys@, by_key@[p] as int, by_key@[mid as int] as int));
                    let a = keys@[by_key@[p] as int];
                    let b = keys@[by_key@[mid as int] as int];
                    if !a.less(*key) {
                        assert(!b.less(a));
                        assert(!b.less(*key));
                    }
                }
            }
            lo = mid + 1;
        } else {
            assert forall|p: int| mid <= p < by_key.len() implies !keys@[#[trigger] by_key@[p] as int].less(
                *key,
            ) by {
                if p > mid {
                    assert(order::comes_before(keys@, by_key@[mid as int] as int, by_key@[p] as int));
                    let a = keys@[by_key@[mid as int] as int];
                    let b = keys@[by_key@[p] as int];
                    assert(!b.less(a));
                    assert(!a.less(*key));
                }
            }
            hi = mid;
        }
    }
    proof {
        lemma_first_with_key(keys@, key@);
        lemma_bytes_irreflexive(key@);
        // Whoever has the key stands at `lo` or behind it.
        assert forall|j: int| 0 <= j < keys.len() && (#[trigger] keys@[j])@ == key@ implies exists|
            p: int,
        | lo <= p < by_key.len() && #[trigger] by_key@[p] == j by {
            assert(by_key@.contains(j as usize));
            let p = choose|p: int| 0 <= p < by_key@.len() && by_key@[p] == j as usize;
            if p < lo {
                assert(keys@[by_key@[p] as int].less(*key));
            }
            assert(by_key@[p] == j);
        }
    }
    if lo == by_key.len() {
        return None;
    }
    let at: usize = by_key[lo];
    assert(by_key@[lo as int] < keys.len());
    if key.is_less(&keys[at]) {
        proof {
            if first_with_key(keys@, key@) is Some {
                let j = first_with_key(keys@, key@)->0;
                assert(keys@[j]@ == key@);
                let p = choose|p: int| lo <= p < by_key.len() && #[trigger] by_key@[p] == j;
                if p > lo {
                    assert(order::comes_before(keys@, by_key@[lo as int] as int, by_key@[p] as int));
                    assert(!keys@[j].less(keys@[at as int]));
                }
            }
        }
        return None;
    }
    proof {
        assert(!keys@[at as int].less(*key));
        lemma_bytes_total(keys@[at as int]@, key@);
        let j = first_with_key(keys@, key@)->0;
        if j < at {
            assert(keys@[j]@ == key@);
            let p = choose|p: int| lo <= p < by_key.len() && #[trigger] by_key@[p] == j;
            if p > lo {
                assert(order::comes_before(keys@, by_key@[lo as int] as int, by_key@[p] as int));
                lemma_bytes_irreflexive(key@);
            }
        }
    }
    Some(at)
}

// ---------------------------------------------------------------------------
// Matching
// ---------------------------------------------------------------------------

/// The matches of the first `n` source rows in one segment: pairs of a source
/// row and a segment row. Rows that are not free are passed over.
pub open spec fn segment_matches(
    source: Seq<Vec<u8>>,
    free: Seq<bool>,
    segment: Seq<Vec<u8>>,
    n: int,
) -> Seq<(usize, usize)>
    decreases n,
{
    if n <= 0 {
        Seq::empty()
    } else {
        let before = segment_matches(source, free, segment, n - 1);
        match first_with_key(segment, source[n - 1]@) {
            Some(i) => if free[n - 1] {
                before.push(((n - 1) as usize, i as usize))
            } else {
                before
            },
            None => before,
        }
    }
}

/// The rows that are still free after matching one segment.
pub open spec fn free_after(source: Seq<Vec<u8>>, free: Seq<bool>, segment: Seq<Vec<u8>>) -> Seq<
    bool,
> {
    Seq::new(
        free.len(),
        |r: int|
            free[r] && !(r < source.len() && first_with_key(segment, source[r]@) is Some),
    )
}

/// Source rows matched so far, by segment.
#[derive(Debug)]
pub struct MergeMatches {
    /// Whether each source row is still unmatched.
    pub free: Vec<bool>,
    /// The matches of each segment, in the order in which segments first
    /// matched. No segment is listed twice.
    pub updates: Vec<(String, Vec<(usize, usize)>)>,
}

/// The segment names are distinct.
pub open spec fn names_distinct(updates: Seq<(String, Vec<(usize, usize)>)>) -> bool {
    forall|i: int, j: int|
        #![trigger updates[i], updates[j]]
        0 <= i < j < updates.len() ==> updates[i].0@ != updates[j].0@
}

/// The matches listed for a segment.
pub open spec fn matches_of(
    updates: Seq<(String, Vec<(usize, usize)>)>,
    segment: Seq<char>,
) -> Seq<(usize, usize)>
    decreases updates.len(),
{
    if updates.len() == 0 {
        Seq::empty()
    } else if updates.last().0@ == segment {
        updates.last().1@
    } else {
        matches_of(updates.drop_last(), segment)
    }
}

proof fn lemma_matches_of(updates: Seq<(String, Vec<(usize, usize)>)>, segment: Seq<char>)
    requires
        names_distinct(updates),
    ensures
        forall|i: int|
            0 <= i < updates.len() && (#[trigger] updates[i]).0@ == segment ==> matches_of(
                updates,
                segment,
            ) == updates[i].1@,
        (forall|i: int| 0 <= i < updates.len() ==> (#[trigger] updates[i]).0@ != segment)
            ==> matches_of(updates, segment) == Seq::<(usize, usize)>::empty(),
    decreases updates.len(),
{
    if updates.len() > 0 {
        let front = updates.drop_last();
        assert forall|i: int, j: int|
            #![trigger front[i], front[j]]
            0 <= i < j < front.len() implies front[i].0@ != front[j].0@ by {
            assert(front[i] == updates[i] && front[j] == updates[j]);
        }
        lemma_matches_of(front, segment);
        assert forall|i: int|
            0 <= i < updates.len() && (#[trigger] updates[i]).0@ == segment implies matches_of(
            updates,
            segment,
        ) == updates[i].1@ by {
            if i < front.len() {
                assert(front[i] == updates[i]);
                assert(updates[i].0@ != updates[updates.len() - 1].0@);
            }
        }
        if forall|i: int| 0 <= i < updates.len() ==> (#[trigger] updates[i]).0@ != segment {
            assert(updates[updates.len() - 1].0@ != segment);
            assert forall|i: int| 0 <= i < front.len() implies (#[trigger] front[i]).0@
                != segment by {
                assert(front[i] == updates[i]);
            }
        }
    }
}

/// A source row stands at a place in the matches of a segment.
pub open spec fn matched_at(
    updates: Seq<(String, Vec<(usize, usize)>)>,
    segment: Seq<char>,
    k: int,
    row: int,
) -> bool {
    &&& 0 <= k < matches_of(updates, segment).len()
    &&& matches_of(updates, segment)[k].0 == row
}

/// Every row that is not free is matched at exactly one place, and no free row
/// is matched.
pub open spec fn each_once(updates: Seq<(String, Vec<(usize, usize)>)>, free: Seq<bool>) -> bool {
    &&& forall|s: Seq<char>, k: int, r: int| #[trigger]
        matched_at(updates, s, k, r) ==> 0 <= r < free.len() && !free[r]
    &&& forall|r: int|
        0 <= r < free.len() && !#[trigger] free[r] ==> exists|s: Seq<char>, k: int|
            matched_at(updates, s, k, r)
    &&& forall|s: Seq<char>, k: int, t: Seq<char>, l: int, r: int|
        #![trigger matched_at(updates, s, k, r), matched_at(updates, t, l, r)]
        matched_at(updates, s, k, r) && matched_at(updates, t, l, r) ==> s == t && k == l
}

proof fn lemma_segment_matches(
    source: Seq<Vec<u8>>,
    free: Seq<bool>,
    segment: Seq<Vec<u8>>,
    n: int,
)
    requires
        0 <= n <= source.len() <= free.len(),
        source.len() <= usize::MAX,
        segment.len() <= usize::MAX,
    ensures
        ({
            let found = segment_matches(source, free, segment, n);
            &&& forall|k: int|
                0 <= k < found.len() ==> {
                    &&& (#[trigger] found[k]).0 < n
                    &&& free[found[k].0 as int]
                    &&& first_with_key(segment, source[found[k].0 as int]@) == Some(
                        found[k].1 as int,
                    )
                }
            &&& forall|k: int, l: int|
                #![trigger found[k], found[l]]
                0 <= k < l < found.len() ==> found[k].0 < found[l].0
            &&& forall|r: int|
                0 <= r < n && #[trigger] free[r] && first_with_key(segment, source[r]@) is Some
                    ==> exists|k: int| 0 <= k < found.len() && (#[trigger] found[k]).0 == r
        }),
    decreases n,
{
    if n > 0 {
        lemma_segment_matches(source, free, segment, n - 1);
        lemma_first_with_key(segment, source[n - 1]@);
        let before = segment_matches(source, free, segment, n - 1);
        let found = segment_matches(source, free, segment, n);
        assert forall|r: int|
            0 <= r < n && #[trigger] free[r]
                && first_with_key(segment, source[r]@) is Some implies exists|
            k: int,
        | 0 <= k < found.len() && (#[trigger] found[k]).0 == r by {
            if r < n - 1 {
                let k = choose|k: int| 0 <= k < before.len() && (#[trigger] before[k]).0 == r;
                assert(found[k] == before[k]);
            } else {
                assert(found[found.len() - 1].0 == r);
            }
        }
    }
}

/// Matching one more segment keeps every row matched at most once: only free
/// rows are matched, and they are not free afterwards.
pub proof fn law_rows_match_once(
    before: MergeMatches,
    after: MergeMatches,
    segment: Seq<char>,
    source: Seq<Vec<u8>>,
    keys: Seq<Vec<u8>>,
)
    requires
        each_once(before.updates@, before.free@),
        source.len() <= before.free@.len(),
        source.len() <= usize::MAX,
        keys.len() <= usize::MAX,
        after.free@ == free_after(source, before.free@, keys),
        forall|name: Seq<char>| #[trigger]
            matches_of(after.updates@, name) == if name == segment {
                matches_of(before.updates@, name) + segment_matches(
                    source,
                    before.free@,
                    keys,
                    source.len() as int,
                )
            } else {
                matches_of(before.updates@, name)
            },
    ensures
        each_once(after.updates@, after.free@),
{
    let u0 = before.updates@;
    let u1 = after.updates@;
    let found = segment_matches(source, before.free@, keys, source.len() as int);
    lemma_segment_matches(source, before.free@, keys, source.len() as int);
    let n0 = matches_of(u0, segment).len() as int;
    assert forall|s: Seq<char>, k: int, r: int| #[trigger] matched_at(u1, s, k, r) implies {
        ||| matched_at(u0, s, k, r)
        ||| s == segment && k >= n0 && 0 <= k - n0 < found.len() && found[k - n0].0 == r
    } by {}
    assert forall|s: Seq<char>, k: int, r: int| #[trigger] matched_at(u1, s, k, r) implies 0 <= r
        < after.free@.len() && !after.free@[r] by {
        if !matched_at(u0, s, k, r) {
            assert(found[k - n0].0 == r);
        }
    }
    assert forall|r: int| 0 <= r < after.free@.len() && !#[trigger] after.free@[r] implies exists|
        s: Seq<char>,
        k: int,
    | matched_at(u1, s, k, r) by {
        if before.free@[r] {
            let k = choose|k: int| 0 <= k < found.len() && (#[trigger] found[k]).0 == r;
            assert(matched_at(u1, segment, n0 + k, r));
        } else {
            let (s, k) = choose|s: Seq<char>, k: int| matched_at(u0, s, k, r);
            assert(matched_at(u1, s, k, r));
        }
    }
    assert forall|s: Seq<char>, k: int, t: Seq<char>, l: int, r: int|
        #![trigger matched_at(u1, s, k, r), matched_at(u1, t, l, r)]
        matched_at(u1, s, k, r) && matched_at(u1, t, l, r) implies s == t && k == l by {
        let a = matched_at(u0, s, k, r);
        let b = matched_at(u0, t, l, r);
        if !a {
            assert(found[k - n0].0 == r);
            assert(before.free@[r]);
        }
        if !b {
            assert(found[l - n0].0 == r);
            assert(before.free@[r]);
        }
    }
}

/// Every listed segment has a match.
pub open spec fn all_matched(updates: Seq<(String, Vec<(usize, usize)>)>) -> bool {
    forall|i: int| 0 <= i < updates.len() ==> (#[trigger] updates[i]).1@.len() > 0
}

impl MergeMatches {
    /// No segment is listed twice or without a match, and no row is matched twice.
    pub open spec fn wf(self) -> bool {
        &&& names_distinct(self.updates@)
        &&& all_matched(self.updates@)
        &&& each_once(self.updates@, self.free@)
    }

    /// Nothing matched yet.
    pub fn new(rows: usize) -> (r: Self)
        ensures
            r.wf(),
            r.free@ == Seq::new(rows as nat, |i: int| true),
            r.updates@.len() == 0,
    {
        let mut free: Vec<bool> = Vec::new();
        let mut i: usize = 0;
        while i < rows
            invariant
                i <= rows,
                free@ == Seq::new(i as nat, |k: int| true),
            decreases rows - i,
        {
            free.push(true);
            assert(free@ =~= Seq::new((i + 1) as nat, |k: int| true));
            i = i + 1;
        }
        let r = MergeMatches { free, updates: Vec::new() };
        assert(forall|s: Seq<char>| #[trigger] matches_of(r.updates@, s).len() == 0);
        r
    }

    /// Matches the free source rows against one segment. A row takes the first
    /// segment row with its key and is not free any more.
    pub fn match_segment(
        &mut self,
        segment: String,
        source_keys: &Vec<Vec<u8>>,
        segment_keys: &Vec<Vec<u8>>,
    )
        requires
            old(self).wf(),
            source_keys.len() <= old(self).free.len(),
        ensures
            final(self).wf(),
            final(self).free@ == free_after(source_keys@, old(self).free@, segment_keys@),
            forall|name: Seq<char>| #[trigger]
                matches_of(final(self).updates@, name) == if name == segment@ {
                    matches_of(old(self).updates@, name) + segment_matches(
                        source_keys@,
                        old(self).free@,
                        segment_keys@,
                        source_keys.len() as int,
                    )
                } else {
                    matches_of(old(self).updates@, name)
                },
    {
        let by_key: Vec<usize> = order::sorted_order(segment_keys);
        let ghost free0 = self.free@;
        let ghost updates0 = self.updates@;
        let ghost src = source_keys@;
        let ghost seg = segment_keys@;
        let mut found: Vec<(usize, usize)> = Vec::new();
        let mut row: usize = 0;
        while row < source_keys.len()
            invariant
                row <= source_keys.len(),
                src == source_keys@,
                seg == segment_keys@,
                src.len() <= free0.len(),
                self.free@.len() == free0.len(),
                self.updates@ == updates0,
                order::is_sorted_order(seg, by_key@),
                found@ == segment_matches(src, free0, seg, row as int),
                forall|r: int|
                    0 <= r < free0.len() ==> #[trigger] self.free@[r] == (free0[r] && !(r < row
                        && first_with_key(seg, src[r]@) is Some)),
            decreases source_keys.len() - row,
        {
            if self.free[row] {
                match find_key(segment_keys, &by_key, &source_keys[row]) {
                    Some(i) => {
                        found.push((row, i));
                        self.free.set(row, false);
                    },
                    None => {},
                }
            }
            row = row + 1;
        }
        assert(self.free@ =~= free_after(src, free0, seg));
        let ghost new = found@;
        let ghost name0 = segment@;
        if found.len() > 0 {
            self.add_matches(segment, found);
        } else {
            proof {
                assert forall|name: Seq<char>| #[trigger]
                    matches_of(self.updates@, name) == if name == segment@ {
                        matches_of(updates0, name) + new
                    } else {
                        matches_of(updates0, name)
                    } by {
                    assert(matches_of(updates0, name) + new =~= matches_of(updates0, name));
                }
            }
        }
        proof {
            assert(segment_keys.len() <= usize::MAX);
            law_rows_match_once(*old(self), *self, name0, src, seg);
        }
    }

    fn add_matches(&mut self, segment: String, found: Vec<(usize, usize)>)
        requires
            names_distinct(old(self).updates@),
            all_matched(old(self).updates@),
            found@.len() > 0,
        ensures
            names_distinct(final(self).updates@),
            all_matched(final(self).updates@),
            final(self).free == old(self).free,
            forall|name: Seq<char>| #[trigger]
                matches_of(final(self).updates@, name) == if name == segment@ {
                    matches_of(old(self).updates@, name) + found@
                } else {
                    matches_of(old(self).updates@, name)
                },
    {
        let ghost before = self.updates@;
        let ghost new = found@;
        let mut i: usize = 0;
        while i < self.updates.len()
            invariant
                i <= self.updates.len(),
                self.updates@ == before,
                before == old(self).updates@,
                self.free == old(self).free,
                names_distinct(before),
                all_matched(before),
                new == found@,
                new.len() > 0,
                forall|k: int| 0 <= k < i ==> (#[trigger] before[k]).0@ != segment@,
            decreases self.updates.len() - i,
        {
            if text::same(self.updates[i].0.as_str(), segment.as_str()) {
                let mut extra: Vec<(usize, usize)> = found;
                self.updates[i].1.append(&mut extra);
                proof {
                    let now = self.updates@;
                    let at = i as int;
                    assert forall|k: int| 0 <= k < now.len() implies (#[trigger] now[k]).0@
                        == before[k].0@ by {}
                    assert forall|k: int| 0 <= k < now.len() implies (#[trigger] now[k]).1@.len()
                        > 0 by {
                        assert(before[k].1@.len() > 0);
                    }
                    assert forall|a: int, b: int|
                        #![trigger now[a], now[b]]
                        0 <= a < b < now.len() implies now[a].0@ != now[b].0@ by {
                        assert(before[a].0@ != before[b].0@);
                    }
                    assert forall|name: Seq<char>| #[trigger]
                        matches_of(now, name) == if name == segment@ {
                            matches_of(before, name) + new
                        } else {
                            matches_of(before, name)
                        } by {
                        lemma_matches_of(now, name);
                        lemma_matches_of(before, name);
                        if name == segment@ {
                            assert(now[at].0@ == name);
                            assert(before[at].0@ == name);
                        } else if exists|k: int|
                            0 <= k < now.len() && (#[trigger] now[k]).0@ == name {
                            let k = choose|k: int|
                                0 <= k < now.len() && (#[trigger] now[k]).0@ == name;
                            assert(before[k].0@ == name);
                        } else {
                            assert forall|k: int| 0 <= k < before.len() implies (
                            #[trigger] before[k]).0@ != name by {
                                assert(now[k].0@ != name);
                            }
                        }
                    }
                }
                return ;
            }
            i = i + 1;
        }
        let ghost name0 = segment@;
        self.updates.push((segment, found));
        proof {
            let now = self.updates@;
            let n = before.len() as int;
            assert forall|a: int, b: int|
                #![trigger now[a], now[b]]
                0 <= a < b < now.len() implies now[a].0@ != now[b].0@ by {
                assert(now[a] == before[a]);
                if b < n {
                    assert(before[a].0@ != before[b].0@);
                }
            }
            assert forall|k: int| 0 <= k < now.len() implies (#[trigger] now[k]).1@.len() > 0 by {
                if k < n {
                    assert(before[k].1@.len() > 0);
                }
            }
            lemma_matches_of(before, name0);
            assert(now.drop_last() =~= before);
            assert forall|name: Seq<char>| #[trigger]
                matches_of(now, name) == if name == name0 {
                    matches_of(before, name) + new
                } else {
                    matches_of(before, name)
                } by {
                if name == name0 {
                    assert(Seq::<(usize, usize)>::empty() + new =~= new);
                }
            }
        }
    }
}

/// The rows that are still free after matching segments one after another.
pub open spec fn free_after_all(
    source: Seq<Vec<u8>>,
    free: Seq<bool>,
    segments: Seq<Seq<Vec<u8>>>,
) -> Seq<bool>
    decreases segments.len(),
{
    if segments.len() == 0 {
        free
    } else {
        free_after(source, free_after_all(source, free, segments.drop_last()), segments.last())
    }
}

/// A row is inserted as new exactly when no segment holds its key, whatever the
/// order of the segments.
pub proof fn law_new_rows_have_new_keys(
    source: Seq<Vec<u8>>,
    free: Seq<bool>,
    segments: Seq<Seq<Vec<u8>>>,
    row: int,
)
    requires
        source.len() <= free.len(),
        0 <= row < source.len(),
    ensures
        free_after_all(source, free, segments).len() == free.len(),
        free_after_all(source, free, segments)[row] == (free[row] && forall|s: int, i: int|
            0 <= s < segments.len() && 0 <= i < segments[s].len() ==> (
            #[trigger] segments[s][i])@ != source[row]@),
    decreases segments.len(),
{
    if segments.len() > 0 {
        let front = segments.drop_last();
        let last = segments.last();
        law_new_rows_have_new_keys(source, free, front, row);
        lemma_first_with_key(last, source[row]@);
        let n = front.len() as int;
        if forall|s: int, i: int|
            0 <= s < segments.len() && 0 <= i < segments[s].len() ==> (
            #[trigger] segments[s][i])@ != source[row]@ {
            assert forall|s: int, i: int| 0 <= s < front.len() && 0 <= i < front[s].len() implies (
            #[trigger] front[s][i])@ != source[row]@ by {
                assert(front[s][i] == segments[s][i]);
            }
            assert forall|i: int| 0 <= i < last.len() implies (#[trigger] last[i])@
                != source[row]@ by {
                assert(last[i] == segments[n][i]);
            }
        } else {
            let (s, i) = choose|s: int, i: int|
                0 <= s < segments.len() && 0 <= i < segments[s].len() && (
                #[trigger] segments[s][i])@ == source[row]@;
            if s < n {
                assert(front[s][i] == segments[s][i]);
            } else {
                assert(last[i]@ == source[row]@);
            }
        }
    }
}

// ---------------------------------------------------------------------------
// Planning
// ---------------------------------------------------------------------------

/// How matched rows are updated.
#[derive(Debug, Clone, Copy, PartialEq, Eq, Structural)]
pub enum MergeMode {
    /// Segments with matches are rewritten.
    CopyOnWrite,
    /// Matched rows are deleted by position and inserted again.
    MergeOnRead,
}

/// A change of the table that a merge asks for.
#[derive(Debug)]
pub enum MergeCommitAction {
    /// A data file takes the place of another.
    ReplaceData { old_segment_path: String, new_entry: ManifestEntry },
    /// A data file gets one more delete file.
    AddDelete { old_segment_path: String, updated_entry: ManifestEntry },
    /// A data file of new rows.
    AddData { new_entry: ManifestEntry },
}

/// The name of the segment in a data file's path.
pub open spec fn segment_name(file_path: Seq<char>) -> Seq<char> {
    text::replaced(text::pieces(file_path, '/').last(), ".parquet"@, ""@)
}

/// The last piece of the path, without `.parquet`.
pub fn segment_id(file_path: &str) -> (r: String)
    ensures
        r@ == segment_name(file_path@),
{
    let name: String = text::last_piece(file_path, '/');
    proof {
        reveal_strlit(".parquet");
    }
    text::replace(name.as_str(), ".parquet", "")
}

/// The first entry whose path holds the name of a segment.
pub open spec fn entry_of(candidates: Seq<ManifestEntry>, segment: Seq<char>) -> Option<int>
    decreases candidates.len(),
{
    if candidates.len() == 0 {
        None
    } else {
        match entry_of(candidates.drop_last(), segment) {
            Some(i) => Some(i),
            None => if text::occurs(candidates.last().file_path@, segment) {
                Some(candidates.len() - 1)
            } else {
                None
            },
        }
    }
}

/// The first entry whose path contains the name of a segment.
pub fn find_entry(candidates: &Vec<ManifestEntry>, segment: &str) -> (r: Option<usize>)
    ensures
        match r {
            Some(i) => i < candidates.len() && entry_of(candidates@, segment@) == Some(i as int),
            None => entry_of(candidates@, segment@) is None,
        },
{
    let mut found: Option<usize> = None;
    let mut i: usize = 0;
    while i < candidates.len()
        invariant
            i <= candidates.len(),
            match found {
                Some(k) => k < i && entry_of(candidates@.take(i as int), segment@) == Some(
                    k as int,
                ),
                None => entry_of(candidates@.take(i as int), segment@) is None,
            },
        decreases candidates.len() - i,
    {
        proof {
            assert(candidates@.take(i + 1).drop_last() =~= candidates@.take(i as int));
        }
        if found.is_none() && text::contains(candidates[i].file_path.as_str(), segment) {
            found = Some(i);
        }
        i = i + 1;
    }
    assert(candidates@.take(i as int) =~= candidates@);
    found
}

/// The update of one segment.
#[derive(Debug)]
pub struct SegmentUpdate {
    /// The name of the segment.
    pub segment: String,
    /// The position of its entry among the candidates.
    pub entry: usize,
    /// Pairs of a source row and the segment row that it replaces.
    pub rows: Vec<(usize, usize)>,
}

/// Plans merges.
#[derive(Debug)]
pub struct MergePlanner {}

/// What a merge does with its source rows.
#[derive(Debug)]
pub struct MergePlan {
    /// The segments to update.
    pub updates: Vec<SegmentUpdate>,
    /// The source rows to insert, in ascending order.
    pub inserts: Vec<usize>,
}

/// The updates of the segments that have an entry.
pub open spec fn planned(
    candidates: Seq<ManifestEntry>,
    updates: Seq<(String, Vec<(usize, usize)>)>,
) -> Seq<SegmentUpdate>
    decreases updates.len(),
{
    if updates.len() == 0 {
        Seq::empty()
    } else {
        let before = planned(candidates, updates.drop_last());
        match entry_of(candidates, updates.last().0@) {
            Some(i) => before.push(
                (SegmentUpdate {
                    segment: updates.last().0,
                    entry: i as usize,
                    rows: updates.last().1,
                }),
            ),
            None => before,
        }
    }
}

/// A source row updates some segment of the plan.
pub open spec fn is_updated(updates: Seq<SegmentUpdate>, row: int) -> bool {
    exists|u: int, k: int|
        0 <= u < updates.len() && 0 <= k < updates[u].rows@.len() && (
        #[trigger] updates[u].rows@[k]).0 == row
}

/// Whether a source row is inserted as new data.
pub open spec fn is_inserted(
    mode: MergeMode,
    updates: Seq<SegmentUpdate>,
    free: Seq<bool>,
    row: int,
) -> bool {
    &&& 0 <= row < free.len()
    &&& free[row] || mode == MergeMode::MergeOnRead && is_updated(updates, row)
}

/// The positions ascend, and each is below a bound.
pub open spec fn ascending_below(positions: Seq<usize>, bound: nat) -> bool {
    &&& forall|k: int, l: int|
        #![trigger positions[k], positions[l]]
        0 <= k < l < positions.len() ==> positions[k] < positions[l]
    &&& forall|k: int| 0 <= k < positions.len() ==> #[trigger] positions[k] < bound
}

/// The positions that are marked, in ascending order.
fn marked_positions(marks: &Vec<bool>) -> (r: Vec<usize>)
    ensures
        ascending_below(r@, marks@.len()),
        forall|i: int|
            0 <= i < marks.len() ==> (#[trigger] marks@[i] <==> r@.contains(i as usize)),
{
    let mut r: Vec<usize> = Vec::new();
    let mut i: usize = 0;
    while i < marks.len()
        invariant
            i <= marks.len(),
            ascending_below(r@, i as nat),
            forall|j: int| 0 <= j < i ==> (#[trigger] marks@[j] <==> r@.contains(j as usize)),
        decreases marks.len() - i,
    {
        let ghost before = r@;
        if marks[i] {
            r.push(i);
        }
        proof {
            assert forall|j: int| 0 <= j < i + 1 implies (#[trigger] marks@[j] <==> r@.contains(
                j as usize,
            )) by {
                if j < i {
                    assert(marks@[j] <==> before.contains(j as usize));
                    if before.contains(j as usize) {
                        let k = choose|k: int| 0 <= k < before.len() && before[k] == j as usize;
                        assert(r@[k] == j as usize);
                    }
                } else if marks@[j] {
                    assert(r@[r.len() - 1] == i);
                }
            }
        }
        i = i + 1;
    }
    r
}

impl MergePlan {
    /// The rows to insert are those that [`is_inserted`] names, ascending.
    pub open spec fn inserts_are(self, mode: MergeMode, free: Seq<bool>) -> bool {
        &&& ascending_below(self.inserts@, free.len())
        &&& forall|r: int|
            0 <= r < free.len() ==> (#[trigger] is_inserted(mode, self.updates@, free, r)
                <==> self.inserts@.contains(r as usize))
    }
}

impl MergePlanner {
    /// A planner; it holds no state.
    pub fn new() -> (r: Self)
        ensures
            r == (MergePlanner {  }),
    {
        MergePlanner {  }
    }

    /// Plans the updates and inserts of a merge whose matching is done. A segment
    /// without an entry among the candidates is passed over.
    pub fn plan_merge(
        &self,
        mode: MergeMode,
        candidates: &Vec<ManifestEntry>,
        matches: MergeMatches,
    ) -> (r: MergePlan)
        requires
            matches.wf(),
        ensures
            r.updates@ == planned(candidates@, matches.updates@),
            r.inserts_are(mode, matches.free@),
    {
        let ghost pairs = matches.updates@;
        let ghost free0 = matches.free@;
        let mut marks: Vec<bool> = matches.free;
        let mut updates: Vec<SegmentUpdate> = Vec::new();
        for pair in it: matches.updates
            invariant
                it.seq() == pairs,
                updates@ == planned(candidates@, pairs.take(it.index() as int)),
                names_distinct(pairs),
                each_once(pairs, free0),
                marks@.len() == free0.len(),
                forall|r: int|
                    0 <= r < free0.len() ==> #[trigger] marks@[r] == is_inserted(
                        mode,
                        updates@,
                        free0,
                        r,
                    ),
        {
            let ghost d = it.index() as int;
            let ghost before = updates@;
            let (segment, rows) = pair;
            assert((segment, rows) == pairs[d]);
            assert(pairs.take(d + 1).drop_last() =~= pairs.take(d));
            match find_entry(candidates, segment.as_str()) {
                Some(entry) => {
                    let ghost now = before.push((SegmentUpdate { segment, entry, rows }));
                    if mode == MergeMode::MergeOnRead {
                        let mut k: usize = 0;
                        while k < rows.len()
                            invariant
                                k <= rows.len(),
                                marks@.len() == free0.len(),
                                mode == MergeMode::MergeOnRead,
                                each_once(pairs, free0),
                                names_distinct(pairs),
                                0 <= d < pairs.len(),
                                rows == pairs[d].1,
                                forall|r: int|
                                    0 <= r < free0.len() ==> #[trigger] marks@[r] == (is_inserted(
                                        mode,
                                        before,
                                        free0,
                                        r,
                                    ) || exists|i: int|
                                        0 <= i < k && (#[trigger] rows@[i]).0 == r),
                            decreases rows.len() - k,
                        {
                            proof {
                                lemma_matches_of(pairs, pairs[d].0@);
                                assert(matched_at(pairs, pairs[d].0@, k as int, rows@[k as int].0 as int));
                            }
                            let ghost m0 = marks@;
                            marks.set(rows[k].0, true);
                            proof {
                                let row = rows@[k as int].0 as int;
                                assert forall|r: int| 0 <= r < free0.len() implies #[trigger] marks@[r]
                                    == (is_inserted(mode, before, free0, r) || exists|i: int|
                                    0 <= i < k + 1 && (#[trigger] rows@[i]).0 == r) by {
                                    assert(m0[r] == (is_inserted(mode, before, free0, r) || exists|
                                        i: int,
                                    | 0 <= i < k && (#[trigger] rows@[i]).0 == r));
                                    if r == row {
                                        assert(rows@[k as int].0 == r);
                                    }
                                }
                            }
                            k = k + 1;
                        }
                    }
                    proof {
                        assert forall|r: int| #[trigger] is_updated(now, r)
                            == (is_updated(before, r)
                            || exists|i: int| 0 <= i < rows@.len() && (#[trigger] rows@[i]).0
                                == r) by {
                            let last = before.len() as int;
                            if is_updated(before, r) {
                                let (u, k) = choose|u: int, k: int|
                                    0 <= u < before.len() && 0 <= k < before[u].rows@.len() && (
                                    #[trigger] before[u].rows@[k]).0 == r;
                                assert(now[u].rows@[k].0 == r);
                            }
                            if exists|i: int| 0 <= i < rows@.len() && (#[trigger] rows@[i]).0 == r {
                                let i = choose|i: int|
                                    0 <= i < rows@.len() && (#[trigger] rows@[i]).0 == r;
                                assert(now[last].rows@[i].0 == r);
                            }
                            if is_updated(now, r) {
                                let (u, k) = choose|u: int, k: int|
                                    0 <= u < now.len() && 0 <= k < now[u].rows@.len() && (
                                    #[trigger] now[u].rows@[k]).0 == r;
                                if u < last {
                                    assert(before[u].rows@[k].0 == r);
                                } else {
                                    assert(rows@[k].0 == r);
                                }
                            }
                        }
                    }
                    updates.push(SegmentUpdate { segment, entry, rows });
                    assert(updates@ =~= now);
                },
                None => {},
            }
        }
        assert(pairs.take(pairs.len() as int) =~= pairs);
        let inserts: Vec<usize> = marked_positions(&marks);
        let plan = MergePlan { updates, inserts };
        proof {
            assert forall|r: int| 0 <= r < free0.len() implies (#[trigger] is_inserted(
                mode,
                plan.updates@,
                free0,
                r,
            ) <==> plan.inserts@.contains(r as usize)) by {
                assert(marks@[r] <==> plan.inserts@.contains(r as usize));
            }
        }
        plan
    }
}

/// Every matched segment has an entry among the candidates.
pub open spec fn all_have_entries(
    candidates: Seq<ManifestEntry>,
    updates: Seq<(String, Vec<(usize, usize)>)>,
) -> bool {
    forall|i: int|
        0 <= i < updates.len() ==> entry_of(candidates, (#[trigger] updates[i]).0@) is Some
}

proof fn lemma_planned(
    candidates: Seq<ManifestEntry>,
    updates: Seq<(String, Vec<(usize, usize)>)>,
)
    requires
        all_have_entries(candidates, updates),
    ensures
        planned(candidates, updates).len() == updates.len(),
        forall|i: int|
            0 <= i < updates.len() ==> {
                &&& (#[trigger] planned(candidates, updates)[i]).segment == updates[i].0
                &&& planned(candidates, updates)[i].rows == updates[i].1
            },
    decreases updates.len(),
{
    if updates.len() > 0 {
        let front = updates.drop_last();
        assert forall|i: int| 0 <= i < front.len() implies entry_of(
            candidates,
            (#[trigger] front[i]).0@,
        ) is Some by {
            assert(front[i] == updates[i]);
        }
        assert(updates[updates.len() - 1] == updates.last());
        lemma_planned(candidates, front);
    }
}

/// No source row is lost: each is inserted or updates a segment. Copy-on-write
/// does exactly one of the two with it, merge-on-read inserts all of them.
pub proof fn law_merge_keeps_every_row(
    mode: MergeMode,
    candidates: Seq<ManifestEntry>,
    matches: MergeMatches,
    row: int,
)
    requires
        matches.wf(),
        all_have_entries(candidates, matches.updates@),
        0 <= row < matches.free@.len(),
    ensures
        ({
            let updates = planned(candidates, matches.updates@);
            let inserted = is_inserted(mode, updates, matches.free@, row);
            match mode {
                MergeMode::CopyOnWrite => inserted != is_updated(updates, row),
                MergeMode::MergeOnRead => inserted,
            }
        }),
{
    let pairs = matches.updates@;
    let updates = planned(candidates, pairs);
    lemma_planned(candidates, pairs);
    if !matches.free@[row] {
        let (s, k) = choose|s: Seq<char>, k: int| matched_at(pairs, s, k, row);
        assert(matched_at(pairs, s, k, row));
        lemma_matches_of(pairs, s);
        assert(exists|i: int| 0 <= i < pairs.len() && (#[trigger] pairs[i]).0@ == s);
        let i = choose|i: int| 0 <= i < pairs.len() && (#[trigger] pairs[i]).0@ == s;
        assert(updates[i].rows@[k].0 == row);
        assert(is_updated(updates, row));
    } else if is_updated(updates, row) {
        let (u, k) = choose|u: int, k: int|
            0 <= u < updates.len() && 0 <= k < updates[u].rows@.len() && (
            #[trigger] updates[u].rows@[k]).0 == row;
        lemma_matches_of(pairs, pairs[u].0@);
        assert(updates[u].rows == pairs[u].1);
        assert(matched_at(pairs, pairs[u].0@, k, row));
    }
}

/// A merge updates exactly the segments that hold a matched row: each once, with all
/// its matches, and no other segment. Without source rows it does nothing.
pub proof fn law_merge_updates_matched_segments(
    mode: MergeMode,
    candidates: Seq<ManifestEntry>,
    matches: MergeMatches,
    name: Seq<char>,
)
    requires
        matches.wf(),
        all_have_entries(candidates, matches.updates@),
    ensures
        ({
            let updates = planned(candidates, matches.updates@);
            let rows = matches_of(matches.updates@, name);
            &&& rows.len() > 0 <==> exists|u: int|
                0 <= u < updates.len() && (#[trigger] updates[u]).segment@ == name
            &&& forall|u: int|
                0 <= u < updates.len() && (#[trigger] updates[u]).segment@ == name
                    ==> updates[u].rows@ == rows
            &&& forall|u: int, v: int|
                #![trigger updates[u], updates[v]]
                0 <= u < v < updates.len() ==> updates[u].segment@ != updates[v].segment@
            &&& matches.free@.len() == 0 ==> updates.len() == 0 && forall|r: int|
                !#[trigger] is_inserted(mode, updates, matches.free@, r)
        }),
{
    let pairs = matches.updates@;
    let updates = planned(candidates, pairs);
    lemma_planned(candidates, pairs);
    lemma_matches_of(pairs, name);
    if matches_of(pairs, name).len() > 0 {
        let i = choose|i: int| 0 <= i < pairs.len() && (#[trigger] pairs[i]).0@ == name;
        assert(updates[i].segment@ == name);
    }
    assert forall|u: int| 0 <= u < updates.len() && (#[trigger] updates[u]).segment@
        == name implies updates[u].rows@ == matches_of(pairs, name) && matches_of(pairs, name).len()
        > 0 by {
        assert(pairs[u].0@ == name);
        assert(pairs[u].1@.len() > 0);
    }
    assert forall|u: int, v: int|
        #![trigger updates[u], updates[v]]
        0 <= u < v < updates.len() implies updates[u].segment@ != updates[v].segment@ by {
        assert(pairs[u].0@ != pairs[v].0@);
    }
    if matches.free@.len() == 0 && updates.len() > 0 {
        let first = pairs[0];
        lemma_matches_of(pairs, first.0@);
        assert(first.1@.len() > 0);
        assert(matched_at(pairs, first.0@, 0, first.1@[0].0 as int));
    }
}

// ---------------------------------------------------------------------------
// Rewriting and deleting
// ---------------------------------------------------------------------------

/// A segment row is replaced by some source row.
pub open spec fn is_replaced(rows: Seq<(usize, usize)>, position: int) -> bool {
    exists|k: int| 0 <= k < rows.len() && (#[trigger] rows[k]).1 == position
}

/// Which of the rows of a segment a rewrite keeps: those that nothing replaces.
pub fn keep_mask(segment_rows: usize, rows: &Vec<(usize, usize)>) -> (r: Vec<bool>)
    ensures
        r.len() == segment_rows,
        forall|i: int| 0 <= i < segment_rows ==> #[trigger] r@[i] == !is_replaced(rows@, i),
{
    let mut mask: Vec<bool> = Vec::new();
    let mut i: usize = 0;
    while i < segment_rows
        invariant
            i <= segment_rows,
            mask.len() == i,
            forall|j: int| 0 <= j < i ==> #[trigger] mask@[j],
        decreases segment_rows - i,
    {
        mask.push(true);
        i = i + 1;
    }
    let mut k: usize = 0;
    while k < rows.len()
        invariant
            k <= rows.len(),
            mask.len() == segment_rows,
            forall|j: int|
                0 <= j < segment_rows ==> #[trigger] mask@[j] == !is_replaced(
                    rows@.take(k as int),
                    j,
                ),
        decreases rows.len() - k,
    {
        let ghost before = mask@;
        let ghost done = rows@.take(k as int);
        let ghost next = rows@.take(k + 1);
        if rows[k].1 < segment_rows {
            mask.set(rows[k].1, false);
        }
        proof {
            assert forall|j: int| 0 <= j < segment_rows implies #[trigger] mask@[j]
                == !is_replaced(next, j) by {
                assert(before[j] == !is_replaced(done, j));
                if is_replaced(done, j) {
                    let a = choose|a: int| 0 <= a < done.len() && (#[trigger] done[a]).1 == j;
                    assert(next[a].1 == j);
                }
                if is_replaced(next, j) {
                    let a = choose|a: int| 0 <= a < next.len() && (#[trigger] next[a]).1 == j;
                    if a < k {
                        assert(done[a].1 == j);
                    }
                }
                if j == rows@[k as int].1 {
                    assert(next[k as int].1 == j);
                }
            }
        }
        k = k + 1;
    }
    assert(rows@.take(k as int) =~= rows@);
    mask
}

/// The source rows of a segment's matches, in their order.
pub fn replacing_rows(rows: &Vec<(usize, usize)>) -> (r: Vec<usize>)
    ensures
        r@ == rows@.map_values(|p: (usize, usize)| p.0),
{
    let mut r: Vec<usize> = Vec::new();
    let mut k: usize = 0;
    while k < rows.len()
        invariant
            k <= rows.len(),
            r@ == rows@.take(k as int).map_values(|p: (usize, usize)| p.0),
        decreases rows.len() - k,
    {
        r.push(rows[k].0);
        k = k + 1;
        assert(r@ =~= rows@.take(k as int).map_values(|p: (usize, usize)| p.0));
    }
    assert(rows@.take(k as int) =~= rows@);
    r
}

/// The positions that a delete file lists for a segment's matches, in their
/// order.
pub fn deleted_positions(rows: &Vec<(usize, usize)>) -> (r: Vec<i64>)
    requires
        forall|k: int| 0 <= k < rows.len() ==> (#[trigger] rows@[k]).1 <= i64::MAX,
    ensures
        r@ == rows@.map_values(|p: (usize, usize)| p.1 as i64),
{
    let mut r: Vec<i64> = Vec::new();
    let mut k: usize = 0;
    while k < rows.len()
        invariant
            k <= rows.len(),
            forall|k: int| 0 <= k < rows.len() ==> (#[trigger] rows@[k]).1 <= i64::MAX,
            r@ == rows@.take(k as int).map_values(|p: (usize, usize)| p.1 as i64),
        decreases rows.len() - k,
    {
        r.push(rows[k].1 as i64);
        k = k + 1;
        assert(r@ =~= rows@.take(k as int).map_values(|p: (usize, usize)| p.1 as i64));
    }
    assert(rows@.take(k as int) =~= rows@);
    r
}

/// The action that deletes rows of a data file: its entry with one more delete
/// file.
pub fn add_delete(entry: ManifestEntry, delete_file: DeleteFile) -> (r: MergeCommitAction)
    ensures
        match r {
            MergeCommitAction::AddDelete { old_segment_path, updated_entry } => {
                &&& old_segment_path@ == entry.file_path@
                &&& updated_entry.delete_files@ == entry.delete_files@.push(delete_file)
                &&& updated_entry == (ManifestEntry {
                    delete_files: updated_entry.delete_files,
                    ..entry
                })
            },
            _ => false,
        },
{
    let mut updated_entry = entry;
    let old_segment_path: String = updated_entry.file_path.clone();
    updated_entry.delete_files.push(delete_file);
    MergeCommitAction::AddDelete { old_segment_path, updated_entry }
}

// ---------------------------------------------------------------------------
// Pruning
// ---------------------------------------------------------------------------

/// The exponent of a single-precision value marks it as infinite or not a
/// number.
pub open spec fn not_finite_32(bits: u32) -> bool {
    bits / 0x80_0000 % 0x100 == 0xff
}

/// The exponent of a double-precision value marks it as infinite or not a
/// number.
pub open spec fn not_finite_64(bits: u64) -> bool {
    bits / 0x10_0000_0000_0000 % 0x800 == 0x7ff
}

/// A text that tells the keys of one column apart; null keys have none, and
/// neither have numbers that JSON cannot write.
pub open spec fn key_text(v: ManifestValue) -> Option<Seq<char>> {
    match v {
        ManifestValue::Null => None,
        ManifestValue::Boolean(b) => Some(if b { "true"@ } else { "false"@ }),
        ManifestValue::Int32(i) => Some(text::signed_decimal(i as int)),
        ManifestValue::Int64(i) => Some(text::signed_decimal(i as int)),
        ManifestValue::Float32(bits, t) => if not_finite_32(bits) {
            None
        } else {
            Some(text::decimal(bits as nat))
        },
        ManifestValue::Float64(bits, t) => if not_finite_64(bits) {
            None
        } else {
            Some(text::decimal(bits as nat))
        },
        ManifestValue::Text(s) => Some(s@),
    }
}

fn key_text_of(v: &ManifestValue) -> (r: Option<String>)
    ensures
        match r {
            Some(t) => key_text(*v) == Some(t@),
            None => key_text(*v) is None,
        },
{
    match v {
        ManifestValue::Null => None,
        ManifestValue::Boolean(b) => Some(
            if *b {
                "true".to_owned()
            } else {
                "false".to_owned()
            },
        ),
        ManifestValue::Int32(i) => Some(text::i64_text(*i as i64)),
        ManifestValue::Int64(i) => Some(text::i64_text(*i)),
        ManifestValue::Float32(bits, _) => if *bits / 0x80_0000 % 0x100 == 0xff {
            None
        } else {
            Some(text::u64_text(*bits as u64))
        },
        ManifestValue::Float64(bits, _) => if *bits / 0x10_0000_0000_0000 % 0x800 == 0x7ff {
            None
        } else {
            Some(text::u64_text(*bits))
        },
        ManifestValue::Text(s) => Some(s.clone()),
    }
}

/// Key `i` is not null and none before it is the same.
pub open spec fn is_test_key(values: Seq<ManifestValue>, i: int) -> bool {
    &&& key_text(values[i]) is Some
    &&& forall|j: int| 0 <= j < i ==> key_text(#[trigger] values[j]) != key_text(values[i])
}

/// The positions of the distinct keys that a segment is tested for, in order
/// of their first occurrence.
pub fn test_keys(values: &Vec<ManifestValue>) -> (r: Vec<usize>)
    ensures
        ascending_below(r@, values@.len()),
        forall|i: int|
            0 <= i < values.len() ==> (#[trigger] is_test_key(values@, i) <==> r@.contains(
                i as usize,
            )),
{
    let mut keys: Vec<String> = Vec::new();
    let mut at: Vec<usize> = Vec::new();
    let mut i: usize = 0;
    while i < values.len()
        invariant
            i <= values.len(),
            keys.len() == at.len(),
            forall|k: int, l: int|
                #![trigger at@[k], at@[l]]
                0 <= k < l < at.len() ==> at@[k] < at@[l],
            forall|k: int|
                0 <= k < at.len() ==> #[trigger] at@[k] < i && key_text(values@[at@[k] as int])
                    == Some(keys@[k]@),
            forall|j: int|
                0 <= j < i && key_text(#[trigger] values@[j]) is Some ==> exists|k: int|
                    0 <= k < at.len() && #[trigger] at@[k] == j,
        decreases values.len() - i,
    {
        let ghost before = at@;
        match key_text_of(&values[i]) {
            Some(t) => {
                keys.push(t);
                at.push(i);
            },
            None => {},
        }
        proof {
            assert forall|j: int|
                0 <= j < i + 1 && key_text(#[trigger] values@[j]) is Some implies exists|k: int|
                0 <= k < at.len() && #[trigger] at@[k] == j by {
                if j < i {
                    let k = choose|k: int| 0 <= k < before.len() && #[trigger] before[k] == j;
                    assert(at@[k] == j);
                } else {
                    assert(at@[at.len() - 1] == i);
                }
            }
        }
        i = i + 1;
    }
    let fresh: Vec<bool> = text::first_occurrences(&keys);
    proof {
        assert forall|k: int| 0 <= k < at.len() implies #[trigger] fresh@[k] == is_test_key(
            values@,
            at@[k] as int,
        ) by {
            let before = text::texts(keys@).take(k);
            if before.contains(keys@[k]@) {
                let l = choose|l: int| 0 <= l < before.len() && before[l] == keys@[k]@;
                assert(keys@[l]@ == keys@[k]@);
                assert(at@[l] < at@[k]);
                assert(key_text(values@[at@[l] as int]) == key_text(values@[at@[k] as int]));
            } else {
                assert forall|j: int| 0 <= j < at@[k] implies key_text(#[trigger] values@[j])
                    != key_text(values@[at@[k] as int]) by {
                    if key_text(values@[j]) == key_text(values@[at@[k] as int]) {
                        let l = choose|l: int| 0 <= l < at.len() && #[trigger] at@[l] == j;
                        assert(l < k);
                        assert(before[l] == keys@[l]@);
                    }
                }
            }
        }
    }
    let mut marks: Vec<bool> = Vec::new();
    let mut i: usize = 0;
    while i < values.len()
        invariant
            i <= values.len(),
            marks.len() == i,
            forall|j: int| 0 <= j < i ==> !#[trigger] marks@[j],
        decreases values.len() - i,
    {
        marks.push(false);
        i = i + 1;
    }
    let mut k: usize = 0;
    while k < at.len()
        invariant
            k <= at.len(),
            fresh.len() == at.len(),
            marks.len() == values.len(),
            forall|k: int, l: int|
                #![trigger at@[k], at@[l]]
                0 <= k < l < at.len() ==> at@[k] < at@[l],
            forall|k: int|
                0 <= k < at.len() ==> #[trigger] at@[k] < values.len() && key_text(
                    values@[at@[k] as int],
                ) is Some,
            forall|l: int| 0 <= l < k ==> marks@[#[trigger] at@[l] as int] == fresh@[l],
            forall|j: int| 0 <= j < marks.len() && #[trigger] marks@[j]
                ==> key_text(values@[j]) is Some,
        decreases at.len() - k,
    {
        marks.set(at[k], fresh[k]);
        k = k + 1;
    }
    let r: Vec<usize> = marked_positions(&marks);
    proof {
        assert forall|i: int| 0 <= i < values.len() implies (#[trigger] is_test_key(values@, i)
            <==> r@.contains(i as usize)) by {
            assert(marks@[i] <==> r@.contains(i as usize));
            if key_text(values@[i]) is Some {
                let l = choose|l: int| 0 <= l < at.len() && #[trigger] at@[l] == i;
                assert(marks@[at@[l] as int] == fresh@[l]);
            }
        }
    }
    r
}

/// A segment may hold a key: its filter says so, or could not be asked.
pub open spec fn may_hold(answers: Seq<Option<bool>>) -> bool {
    exists|i: int| 0 <= i < answers.len() && #[trigger] answers[i] != Some(false)
}

impl MergePlanner {
    /// The segments that a merge has to look at, given what the filter of each
    /// answers for each tested key (`None` where it could not be asked). Without a
    /// key column in the source every segment is looked at.
    pub fn prune_segments(
        &self,
        segments: usize,
        has_key_column: bool,
        answers: &Vec<Vec<Option<bool>>>,
    ) -> (r: Vec<usize>)
        requires
            has_key_column ==> answers.len() == segments,
        ensures
            ascending_below(r@, segments as nat),
            forall|i: int|
                0 <= i < segments ==> (!has_key_column || may_hold(answers@[i]@)
                    <==> #[trigger] r@.contains(i as usize)),
    {
        let mut marks: Vec<bool> = Vec::new();
        let mut i: usize = 0;
        while i < segments
            invariant
                i <= segments,
                marks.len() == i,
                has_key_column ==> answers.len() == segments,
                forall|j: int|
                    0 <= j < i ==> #[trigger] marks@[j] == (!has_key_column
                        || may_hold(answers@[j]@)),
            decreases segments - i,
        {
            let keep: bool = if has_key_column {
                any_may_hold(&answers[i])
            } else {
                true
            };
            marks.push(keep);
            i = i + 1;
        }
        let r: Vec<usize> = marked_positions(&marks);
        proof {
            assert forall|i: int| 0 <= i < segments implies (!has_key_column
                || may_hold(answers@[i]@)
                <==> #[trigger] r@.contains(i as usize)) by {
                assert(marks@[i] == (!has_key_column || may_hold(answers@[i]@)));
            }
        }
        r
    }
}

fn any_may_hold(answers: &Vec<Option<bool>>) -> (r: bool)
    ensures
        r == may_hold(answers@),
{
    let mut i: usize = 0;
    while i < answers.len()
        invariant
            i <= answers.len(),
            forall|j: int| 0 <= j < i ==> #[trigger] answers@[j] == Some(false),
        decreases answers.len() - i,
    {
        match answers[i] {
            Some(false) => {},
            _ => {
                assert(answers@[i as int] != Some(false));
                return true;
            },
        }
        i = i + 1;
    }
    false
}

/// A key is found where it stands first, and is not found where it does not stand.
pub proof fn law_keys_are_found_where_they_stand_first(keys: Seq<Vec<u8>>, key: Seq<u8>)
    ensures
        first_with_key(keys, key) is None <==> forall|i: int|
            0 <= i < keys.len() ==> (#[trigger] keys[i])@ != key,
        first_with_key(keys, key) matches Some(i) ==> 0 <= i < keys.len() && keys[i]@ == key
            && forall|j: int| 0 <= j < i ==> (#[trigger] keys[j])@ != key,
    decreases keys.len(),
{
    if keys.len() > 0 {
        let front = keys.drop_last();
        law_keys_are_found_where_they_stand_first(front, key);
        assert forall|i: int| 0 <= i < front.len() implies #[trigger] front[i] == keys[i] by {}
        match first_with_key(front, key) {
            Some(i) => {
                assert(front[i] == keys[i]);
                assert forall|j: int| 0 <= j < i implies (#[trigger] keys[j])@ != key by {
                    assert(front[j] == keys[j]);
                }
            },
            None => {
                assert forall|j: int| 0 <= j < front.len() implies (#[trigger] keys[j])@ != key by {
                    assert(front[j] == keys[j]);
                }
            },
        }
    }
}

/// The matches of a segment pair rows that are not matched yet with rows of the segment that
/// have the same key, the first such row each; every row that has such a row is paired, and the
/// pairs come in the order of the rows.
pub proof fn law_matches_pair_equal_keys(
    source: Seq<Vec<u8>>,
    free: Seq<bool>,
    segment: Seq<Vec<u8>>,
    n: int,
)
    requires
        0 <= n <= source.len() <= free.len(),
        source.len() <= usize::MAX,
        segment.len() <= usize::MAX,
    ensures
        ({
            let pairs = segment_matches(source, free, segment, n);
            &&& forall|k: int|
                0 <= k < pairs.len() ==> {
                    let p = #[trigger] pairs[k];
                    &&& p.0 < n
                    &&& p.1 < segment.len()
                    &&& free[p.0 as int]
                    &&& segment[p.1 as int]@ == source[p.0 as int]@
                    &&& forall|j: int|
                        0 <= j < p.1 ==> (#[trigger] segment[j])@ != source[p.0 as int]@
                }
            &&& forall|r: int, i: int|
                #![trigger source[r], segment[i]]
                0 <= r < n && free[r] && 0 <= i < segment.len() && segment[i]@ == source[r]@
                    ==> exists|k: int| 0 <= k < pairs.len() && (#[trigger] pairs[k]).0 == r
            &&& forall|k: int, l: int|
                #![trigger pairs[k], pairs[l]]
                0 <= k < l < pairs.len() ==> pairs[k].0 < pairs[l].0
        }),
    decreases n,
{
    if n > 0 {
        law_matches_pair_equal_keys(source, free, segment, n - 1);
        law_keys_are_found_where_they_stand_first(segment, source[n - 1]@);
        let before = segment_matches(source, free, segment, n - 1);
        let pairs = segment_matches(source, free, segment, n);
        assert forall|r: int, i: int|
            #![trigger source[r], segment[i]]
            0 <= r < n && free[r] && 0 <= i < segment.len() && segment[i]@ == source[r]@
            implies exists|k: int| 0 <= k < pairs.len() && (#[trigger] pairs[k]).0 == r by {
            if r < n - 1 {
                let k = choose|k: int| 0 <= k < before.len() && (#[trigger] before[k]).0 == r;
                assert(pairs[k] == before[k]);
            } else {
                assert(pairs[pairs.len() - 1].0 == r);
            }
        }
    }
}

/// An update goes to the first candidate whose path holds the name of the segment.
pub proof fn law_updates_go_to_the_first_candidate(
    candidates: Seq<ManifestEntry>,
    segment: Seq<char>,
)
    ensures
        entry_of(candidates, segment) is None <==> forall|i: int|
            0 <= i < candidates.len() ==> !text::occurs(
                (#[trigger] candidates[i]).file_path@,
                segment,
            ),
        entry_of(candidates, segment) matches Some(i) ==> 0 <= i < candidates.len() && text::occurs(
            candidates[i].file_path@,
            segment,
        ) && forall|j: int|
            0 <= j < i ==> !text::occurs((#[trigger] candidates[j]).file_path@, segment),
    decreases candidates.len(),
{
    if candidates.len() > 0 {
        let front = candidates.drop_last();
        law_updates_go_to_the_first_candidate(front, segment);
        match entry_of(front, segment) {
            Some(i) => {
                assert(front[i] == candidates[i]);
                assert forall|j: int| 0 <= j < i implies !text::occurs(
                    (#[trigger] candidates[j]).file_path@,
                    segment,
                ) by {
                    assert(front[j] == candidates[j]);
                }
            },
            None => {
                assert forall|j: int| 0 <= j < front.len() implies !text::occurs(
                    (#[trigger] candidates[j]).file_path@,
                    segment,
                ) by {
                    assert(front[j] == candidates[j]);
                }
            },
        }
    }
}

/// The file of a segment has its name, in whatever directory it lies.
pub proof fn law_segments_are_named_by_their_files(directory: Seq<char>, name: Seq<char>)
    requires
        !name.contains('/'),
        forall|i: int| text::occurs_at(name + ".parquet"@, ".parquet"@, i) ==> i >= name.len(),
    ensures
        segment_name(directory + "/"@ + name + ".parquet"@) == name,
        segment_name(name + ".parquet"@) == name,
{
    reveal_strlit("/");
    reveal_strlit(".parquet");
    reveal_strlit("");
    let pat = ".parquet"@;
    let file = name + pat;
    assert(!file.contains('/')) by {
        assert forall|k: int| 0 <= k < file.len() implies file[k] != '/' by {
            if k < name.len() {
                assert(name.contains(name[k]));
            } else {
                assert(file[k] == pat[k - name.len()]);
            }
        }
    }
    text::lemma_piece_behind(directory, file, '/');
    assert(directory.push('/') + file =~= directory + "/"@ + name + pat);
    text::law_patterns_are_replaced(file, pat, ""@);
    let n = name.len() as int;
    assert(file.subrange(n, n + pat.len()) =~= pat);
    assert(text::first_at(file, pat, n));
    assert(file.take(n) =~= name);
    assert(file.skip(n + pat.len()) =~= Seq::<char>::empty());
    assert(text::replaced(file, pat, ""@) =~= name);
}

/// Different whole numbers have different keys, of whichever width they are; a text and a truth
/// value are their own keys, and a missing value has none.
pub proof fn law_keys_tell_values_apart(a: i64, b: i64, s: String)
    ensures
        key_text(ManifestValue::Null) is None,
        key_text(ManifestValue::Int64(a)) is Some,
        key_text(ManifestValue::Int64(a)) == key_text(ManifestValue::Int64(b)) ==> a == b,
        i32::MIN <= a <= i32::MAX ==> key_text(ManifestValue::Int32(a as i32)) == key_text(
            ManifestValue::Int64(a),
        ),
        key_text(ManifestValue::Text(s)) == Some(s@),
        key_text(ManifestValue::Boolean(true)) == Some("true"@),
        key_text(ManifestValue::Boolean(false)) == Some("false"@),
{
    text::law_signed_decimal_reads_back(a as int);
    text::law_signed_decimal_reads_back(b as int);
}

} // verus!
