//! The order and the pages of results.

use vstd::prelude::*;
use vstd::string::*;

use crate::order::{self, Ranked};
use crate::search::qdrant_types::{PointId, RetrievedPoint, ScoredPoint, ScrollResult};
use crate::text;

verus! {

// ---------------------------------------------------------------------------
// Pages
// ---------------------------------------------------------------------------

/// The number of results of a page: ten unless asked for, and at least one.
pub open spec fn page_limit(limit: Option<usize>) -> usize {
    match limit {
        Some(n) => if n < 1 {
            1
        } else {
            n
        },
        None => 10,
    }
}

/// The number of results of a page.
pub fn limit_or_default(limit: Option<usize>) -> (r: usize)
    ensures
        r == page_limit(limit),
{
    match limit {
        Some(n) => if n < 1 {
            1
        } else {
            n
        },
        None => 10,
    }
}

/// The part of a list that starts at an offset and has at most a number of
/// items.
pub open spec fn page_of<T>(list: Seq<T>, offset: int, limit: int) -> Seq<T> {
    let lo = if offset < list.len() {
        offset
    } else {
        list.len() as int
    };
    let hi = if lo + limit < list.len() {
        lo + limit
    } else {
        list.len() as int
    };
    list.subrange(lo, hi)
}

fn page_end(len: usize, offset: usize, limit: usize) -> (r: (usize, usize))
    ensures
        r.0 <= r.1 <= len,
        r.0 == if offset < len {
            offset
        } else {
            len
        },
        r.1 == if r.0 + limit < len {
            r.0 + limit
        } else {
            len as int
        },
{
    let lo: usize = if offset < len {
        offset
    } else {
        len
    };
    let hi: usize = if limit < len - lo {
        lo + limit
    } else {
        len
    };
    (lo, hi)
}

/// The positions of a page.
fn page_positions(list: &Vec<usize>, offset: usize, limit: usize) -> (r: Vec<usize>)
    ensures
        r@ == page_of(list@, offset as int, limit as int),
{
    let (lo, hi) = page_end(list.len(), offset, limit);
    let mut page: Vec<usize> = Vec::new();
    let mut k: usize = lo;
    while k < hi
        invariant
            lo <= k <= hi,
            hi <= list.len(),
            page@ == list@.subrange(lo as int, k as int),
        decreases hi - k,
    {
        page.push(list[k]);
        k = k + 1;
        assert(page@ =~= list@.subrange(lo as int, k as int));
    }
    page
}

proof fn lemma_sorted_once<K: Ranked>(keys: Seq<K>, order: Seq<usize>)
    requires
        order::is_sorted_order(keys, order),
    ensures
        order.no_duplicates(),
{
    K::less_is_weak_order();
    assert forall|i: int, j: int|
        0 <= i < order.len() && 0 <= j < order.len() && i != j implies order[i] != order[j] by {
        if i < j {
            assert(order::comes_before(keys, order[i] as int, order[j] as int));
        } else {
            assert(order::comes_before(keys, order[j] as int, order[i] as int));
        }
    }
}

proof fn lemma_page(list: Seq<usize>, offset: int, limit: int)
    requires
        list.no_duplicates(),
        0 <= offset,
        0 <= limit,
    ensures
        page_of(list, offset, limit).no_duplicates(),
        forall|i: int|
            0 <= i < page_of(list, offset, limit).len() ==> list.contains(
                #[trigger] page_of(list, offset, limit)[i],
            ),
        page_of(list, offset, limit).len() <= limit,
{
    let page = page_of(list, offset, limit);
    let lo = if offset < list.len() {
        offset
    } else {
        list.len() as int
    };
    assert forall|i: int| 0 <= i < page.len() implies list.contains(#[trigger] page[i]) by {
        assert(page[i] == list[lo + i]);
    }
    assert forall|i: int, j: int|
        0 <= i < page.len() && 0 <= j < page.len() && i != j implies page[i] != page[j] by {
        assert(page[i] == list[lo + i]);
        assert(page[j] == list[lo + j]);
    }
}

/// The items at positions, in the order of the positions.
pub open spec fn picked<T>(items: Seq<T>, positions: Seq<usize>) -> Seq<T> {
    positions.map_values(|i: usize| items[i as int])
}

/// Takes the items at positions out of a list.
fn pick<T>(items: Vec<T>, positions: &Vec<usize>) -> (r: Vec<T>)
    requires
        forall|i: int| 0 <= i < positions.len() ==> #[trigger] positions@[i] < items.len(),
        positions@.no_duplicates(),
    ensures
        r@ == picked(items@, positions@),
{
    let ghost all = items@;
    let mut slots: Vec<Option<T>> = Vec::new();
    for item in it: items
        invariant
            it.seq() == all,
            slots.len() == it.index(),
            forall|k: int| 0 <= k < slots.len() ==> #[trigger] slots@[k] == Some(all[k]),
    {
        assert(item == all[it.index() as int]);
        slots.push(Some(item));
    }
    let mut out: Vec<T> = Vec::new();
    let mut i: usize = 0;
    while i < positions.len()
        invariant
            i <= positions.len(),
            slots.len() == all.len(),
            forall|k: int| 0 <= k < positions.len() ==> #[trigger] positions@[k] < all.len(),
            positions@.no_duplicates(),
            out.len() == i,
            forall|k: int| 0 <= k < i ==> #[trigger] out@[k] == all[positions@[k] as int],
            forall|k: int|
                i <= k < positions.len() ==> slots@[#[trigger] positions@[k] as int] == Some(
                    all[positions@[k] as int],
                ),
        decreases positions.len() - i,
    {
        let at: usize = positions[i];
        match slots[at].take() {
            Some(item) => {
                out.push(item);
            },
            None => {},
        }
        i = i + 1;
    }
    assert(out@ =~= picked(all, positions@));
    out
}

// ---------------------------------------------------------------------------
// Searches
// ---------------------------------------------------------------------------

/// A number that orders scores as they stand to one another: their bits are a
/// sign and a magnitude.
pub open spec fn score_rank(score: u32) -> int {
    if score < 0x8000_0000 {
        score as int
    } else {
        0x8000_0000 - score
    }
}

fn rank_of(score: u32) -> (r: i64)
    ensures
        r == score_rank(score),
        -0x8000_0000 < r < 0x8000_0000,
{
    if score < 0x8000_0000 {
        score as i64
    } else {
        0x8000_0000i64 - score as i64
    }
}

/// The bits are those of no number.
pub open spec fn is_nan(score: u32) -> bool {
    score_rank(score) > 0x7f80_0000 || score_rank(score) < -0x7f80_0000
}

/// The place of a score, the better ones first. What is no number has one place,
/// behind all numbers.
pub open spec fn score_place(score: u32, higher_is_better: bool) -> int {
    if is_nan(score) {
        0x7f80_0001
    } else if higher_is_better {
        -score_rank(score)
    } else {
        score_rank(score)
    }
}

fn place_of(score: u32, higher_is_better: bool) -> (r: i64)
    ensures
        r == score_place(score, higher_is_better),
{
    let rank: i64 = rank_of(score);
    if rank > 0x7f80_0000 || rank < -0x7f80_0000 {
        0x7f80_0001
    } else if higher_is_better {
        -rank
    } else {
        rank
    }
}

/// The order of a result: the place of its score, best first, then its
/// identity.
#[derive(Debug)]
struct ResultKey {
    place: i64,
    id: String,
}

impl Ranked for ResultKey {
    closed spec fn less(self, other: Self) -> bool {
        self.place < other.place || self.place == other.place && text::text_less(
            self.id@,
            other.id@,
        )
    }

    proof fn less_is_weak_order() {
        text::lemma_text_order();
        assert forall|a: ResultKey, b: ResultKey, c: ResultKey|
            !#[trigger] a.less(b) && !#[trigger] b.less(c) implies !a.less(c) by {
            if a.less(c) && a.place == b.place && b.place == c.place {
                if !text::text_less(c.id@, b.id@) {
                    text::lemma_text_less_total(b.id@, c.id@);
                }
            }
        }
    }

    fn is_less(&self, other: &Self) -> (r: bool) {
        self.place < other.place || (self.place == other.place && self.id.is_less(&other.id))
    }
}

/// A result that comes before another: a better score, or the same and a
/// smaller identity. Scores that are no numbers count as the same.
pub open spec fn is_better(a: ScoredPoint, b: ScoredPoint, higher_is_better: bool) -> bool {
    let x = score_place(a.score, higher_is_better);
    let y = score_place(b.score, higher_is_better);
    x < y || x == y && text::text_less(a.id.spec_text(), b.id.spec_text())
}

/// The score passes the threshold.
pub open spec fn passes(score: u32, threshold: Option<u32>, higher_is_better: bool) -> bool {
    match threshold {
        Some(t) => !is_nan(score) && !is_nan(t) && if higher_is_better {
            score_rank(score) >= score_rank(t)
        } else {
            score_rank(score) <= score_rank(t)
        },
        None => true,
    }
}

fn score_passes(score: u32, threshold: Option<u32>, higher_is_better: bool) -> (r: bool)
    ensures
        r == passes(score, threshold, higher_is_better),
{
    match threshold {
        Some(t) => {
            let s: i64 = rank_of(score);
            let t: i64 = rank_of(t);
            let numbers: bool = s <= 0x7f80_0000 && s >= -0x7f80_0000 && t <= 0x7f80_0000 && t
                >= -0x7f80_0000;
            numbers && if higher_is_better {
                s >= t
            } else {
                s <= t
            }
        },
        None => true,
    }
}

/// The positions of results that pass the threshold, in the given order.
pub open spec fn passing(
    order: Seq<usize>,
    results: Seq<ScoredPoint>,
    threshold: Option<u32>,
    higher_is_better: bool,
) -> Seq<usize>
    decreases order.len(),
{
    if order.len() == 0 {
        Seq::empty()
    } else {
        let before = passing(order.drop_last(), results, threshold, higher_is_better);
        if passes(results[order.last() as int].score, threshold, higher_is_better) {
            before.push(order.last())
        } else {
            before
        }
    }
}

proof fn lemma_passing(
    order: Seq<usize>,
    results: Seq<ScoredPoint>,
    threshold: Option<u32>,
    higher_is_better: bool,
)
    requires
        order.no_duplicates(),
    ensures
        passing(order, results, threshold, higher_is_better).no_duplicates(),
        forall|i: int|
            0 <= i < passing(order, results, threshold, higher_is_better).len()
                ==> order.contains(#[trigger] passing(order, results, threshold, higher_is_better)[i]),
    decreases order.len(),
{
    if order.len() > 0 {
        let init = order.drop_last();
        let before = passing(init, results, threshold, higher_is_better);
        let after = passing(order, results, threshold, higher_is_better);
        lemma_passing(init, results, threshold, higher_is_better);
        assert forall|i: int| 0 <= i < before.len() implies order.contains(#[trigger] before[i])
            && before[i] != order.last() by {
            assert(init.contains(before[i]));
            let k = choose|k: int| 0 <= k < init.len() && init[k] == before[i];
            assert(order[k] == before[i]);
            assert(order[order.len() - 1] != order[k]);
        }
        assert(order[order.len() - 1] == order.last());
        assert forall|i: int| 0 <= i < after.len() implies order.contains(#[trigger] after[i]) by {
            if i < before.len() {
                assert(after[i] == before[i]);
            }
        }
    }
}

/// The positions of results, the better ones first; results that nothing tells
/// apart keep their order.
pub open spec fn is_best_first(
    order: Seq<usize>,
    results: Seq<ScoredPoint>,
    higher_is_better: bool,
) -> bool {
    &&& order::lists_range(order, 0, results.len() as int)
    &&& forall|i: int, j: int|
        #![trigger order[i], order[j]]
        0 <= i < j < order.len() ==> {
            let a = results[order[i] as int];
            let b = results[order[j] as int];
            ||| is_better(a, b, higher_is_better)
            ||| !is_better(b, a, higher_is_better) && order[i] < order[j]
        }
}

/// A page of the results of a search: the better ones first, those that do not
/// pass the threshold left out.
pub fn search_page(
    results: Vec<ScoredPoint>,
    higher_is_better: bool,
    threshold: Option<u32>,
    offset: usize,
    limit: usize,
) -> (r: Vec<ScoredPoint>)
    ensures
        exists|all: Seq<usize>| #[trigger]
            is_best_first(all, results@, higher_is_better) && r@ == picked(
                results@,
                page_of(
                    passing(all, results@, threshold, higher_is_better),
                    offset as int,
                    limit as int,
                ),
            ),
{
    let mut keys: Vec<ResultKey> = Vec::new();
    let mut i: usize = 0;
    while i < results.len()
        invariant
            i <= results.len(),
            keys.len() == i,
            forall|k: int|
                0 <= k < i ==> (#[trigger] keys@[k]).place == score_place(
                    results@[k].score,
                    higher_is_better,
                ) && keys@[k].id@ == results@[k].id.spec_text(),
        decreases results.len() - i,
    {
        let place: i64 = place_of(results[i].score, higher_is_better);
        keys.push(ResultKey { place, id: results[i].id.as_string() });
        i = i + 1;
    }
    let sorted: Vec<usize> = order::sorted_order(&keys);
    let ghost all = sorted@;
    let mut kept: Vec<usize> = Vec::new();
    let mut p: usize = 0;
    assert(all.take(0) =~= Seq::<usize>::empty());
    while p < sorted.len()
        invariant
            p <= sorted.len(),
            all == sorted@,
            order::lists_range(all, 0, results.len() as int),
            kept@ == passing(all.take(p as int), results@, threshold, higher_is_better),
        decreases sorted.len() - p,
    {
        assert(all.take(p + 1).drop_last() =~= all.take(p as int));
        assert(all[p as int] < results.len());
        if score_passes(results[sorted[p]].score, threshold, higher_is_better) {
            kept.push(sorted[p]);
        }
        p = p + 1;
    }
    assert(all.take(p as int) =~= all);
    let page: Vec<usize> = page_positions(&kept, offset, limit);
    proof {
        <ResultKey as Ranked>::less_is_weak_order();
        assert(is_best_first(all, results@, higher_is_better)) by {
            assert forall|a: int, b: int|
                #![trigger all[a], all[b]]
                0 <= a < b < all.len() implies {
                let x = results@[all[a] as int];
                let y = results@[all[b] as int];
                ||| is_better(x, y, higher_is_better)
                ||| !is_better(y, x, higher_is_better) && all[a] < all[b]
            } by {
                let x = all[a] as int;
                let y = all[b] as int;
                assert(order::comes_before(keys@, x, y));
                assert(keys@[x].id@ == results@[x].id.spec_text());
                assert(keys@[y].id@ == results@[y].id.spec_text());
            }
        }
        lemma_sorted_once(keys@, all);
        lemma_passing(all, results@, threshold, higher_is_better);
        lemma_page(kept@, offset as int, limit as int);
        assert forall|k: int| 0 <= k < page.len() implies #[trigger] page@[k] < results.len() by {
            assert(kept@.contains(page@[k]));
            let m = choose|m: int| 0 <= m < kept.len() && kept@[m] == page@[k];
            assert(all.contains(kept@[m]));
        }
    }
    pick(results, &page)
}

/// The number of results that are asked of a search: those of the page and those
/// before it.
pub fn search_depth(limit: Option<usize>, offset: Option<usize>) -> (r: usize)
    requires
        page_limit(limit) + (match offset {
            Some(n) => n,
            None => 0,
        }) <= usize::MAX,
    ensures
        r == page_limit(limit) + (match offset {
            Some(n) => n,
            None => 0,
        }),
{
    let before: usize = match offset {
        Some(n) => n,
        None => 0,
    };
    limit_or_default(limit) + before
}

/// Points as results of a query that names no vector: the score of each is zero.
pub fn without_score(points: Vec<RetrievedPoint>) -> (r: Vec<ScoredPoint>)
    ensures
        r.len() == points.len(),
        forall|k: int|
            0 <= k < r.len() ==> #[trigger] r@[k] == (ScoredPoint {
                id: points@[k].id,
                version: 0,
                score: 0,
                payload: points@[k].payload,
                vector: points@[k].vector,
            }),
{
    let ghost all = points@;
    let mut out: Vec<ScoredPoint> = Vec::new();
    for p in it: points
        invariant
            it.seq() == all,
            out.len() == it.index(),
            forall|k: int|
                0 <= k < out.len() ==> #[trigger] out@[k] == (ScoredPoint {
                    id: all[k].id,
                    version: 0,
                    score: 0,
                    payload: all[k].payload,
                    vector: all[k].vector,
                }),
    {
        assert(p == all[it.index() as int]);
        out.push(
            ScoredPoint { id: p.id, version: 0, score: 0, payload: p.payload, vector: p.vector },
        );
    }
    out
}

/// How many candidates a discovery looks at: four times the results.
pub fn discovery_depth(limit: Option<usize>) -> (r: usize)
    requires
        page_limit(limit) * 4 <= usize::MAX,
    ensures
        r == page_limit(limit) * 4,
{
    limit_or_default(limit) * 4
}

/// Every answer is yes.
pub open spec fn all_true(answers: Seq<bool>) -> bool {
    forall|i: int| 0 <= i < answers.len() ==> #[trigger] answers[i]
}

fn every(answers: &Vec<bool>) -> (r: bool)
    ensures
        r == all_true(answers@),
{
    let mut i: usize = 0;
    while i < answers.len()
        invariant
            i <= answers.len(),
            forall|k: int| 0 <= k < i ==> #[trigger] answers@[k],
        decreases answers.len() - i,
    {
        if !answers[i] {
            return false;
        }
        i = i + 1;
    }
    true
}

/// The candidates of a discovery that stay, in their order: those without a
/// vector, and those on the good side of every pair.
pub open spec fn discovered(points: Seq<ScoredPoint>, closer: Seq<Vec<bool>>) -> Seq<ScoredPoint>
    decreases points.len(),
{
    if points.len() == 0 {
        Seq::empty()
    } else {
        let last = points.len() - 1;
        let before = discovered(points.drop_last(), closer);
        if points[last].vector is None || all_true(closer[last]@) {
            before.push(points[last])
        } else {
            before
        }
    }
}

/// A point, without its vector unless it is wanted.
pub open spec fn shown(p: ScoredPoint, want_vector: bool) -> ScoredPoint {
    if want_vector {
        p
    } else {
        ScoredPoint { vector: None, ..p }
    }
}

/// The results of a discovery, given for each candidate and each pair of
/// examples whether the candidate is at least as close to the good one.
pub fn discover_results(
    points: Vec<ScoredPoint>,
    closer: &Vec<Vec<bool>>,
    limit: usize,
    want_vector: bool,
) -> (r: Vec<ScoredPoint>)
    requires
        closer.len() == points.len(),
    ensures
        r.len() == page_of(discovered(points@, closer@), 0, limit as int).len(),
        forall|k: int|
            0 <= k < r.len() ==> #[trigger] r@[k] == shown(
                discovered(points@, closer@)[k],
                want_vector,
            ),
{
    let ghost all = points@;
    let mut out: Vec<ScoredPoint> = Vec::new();
    let mut place: usize = 0;
    assert(all.take(0) =~= Seq::<ScoredPoint>::empty());
    for p in it: points
        invariant
            it.seq() == all,
            closer.len() == all.len(),
            place == it.index(),
            out.len() == page_of(
                discovered(all.take(it.index() as int), closer@),
                0,
                limit as int,
            ).len(),
            forall|k: int|
                0 <= k < out.len() ==> #[trigger] out@[k] == shown(
                    discovered(all.take(it.index() as int), closer@)[k],
                    want_vector,
                ),
    {
        let ghost i = it.index() as int;
        assert(p == all[i]);
        assert(all.take(i + 1).drop_last() =~= all.take(i));
        let stays: bool = match &p.vector {
            Some(_) => every(&closer[place]),
            None => true,
        };
        place = place + 1;
        if stays && out.len() < limit {
            if want_vector {
                out.push(p);
            } else {
                out.push(
                    ScoredPoint {
                        id: p.id,
                        version: p.version,
                        score: p.score,
                        payload: p.payload,
                        vector: None,
                    },
                );
            }
        }
    }
    assert(all.take(all.len() as int) =~= all);
    out
}

// ---------------------------------------------------------------------------
// Scrolling
// ---------------------------------------------------------------------------

/// The place behind a point in a list of points, the start where it is not in
/// it.
pub open spec fn start_behind(ids: Seq<Seq<char>>, offset: Option<Seq<char>>) -> int {
    match offset {
        Some(o) => if ids.contains(o) {
            first_place(ids, o) + 1
        } else {
            0
        },
        None => 0,
    }
}

/// The first place of a text in a list that has it.
pub open spec fn first_place(ids: Seq<Seq<char>>, id: Seq<char>) -> int
    decreases ids.len(),
{
    if ids.len() == 0 {
        0
    } else if ids[0] == id {
        0
    } else {
        1 + first_place(ids.skip(1), id)
    }
}

proof fn lemma_first_place(ids: Seq<Seq<char>>, id: Seq<char>, i: int)
    requires
        0 <= i < ids.len(),
        ids[i] == id,
        forall|j: int| 0 <= j < i ==> #[trigger] ids[j] != id,
    ensures
        first_place(ids, id) == i,
    decreases ids.len(),
{
    if i > 0 {
        let rest = ids.skip(1);
        assert forall|j: int| 0 <= j < i - 1 implies #[trigger] rest[j] != id by {
            assert(rest[j] == ids[j + 1]);
        }
        assert(ids[0] != id);
        lemma_first_place(rest, id, i - 1);
    }
}

/// Points in the order of their identities.
pub open spec fn ordered_by_id(order: Seq<usize>, ids: Seq<Seq<char>>) -> bool {
    &&& order::lists_range(order, 0, ids.len() as int)
    &&& forall|i: int, j: int|
        #![trigger order[i], order[j]]
        0 <= i < j < order.len() ==> !text::text_less(ids[order[j] as int], ids[order[i] as int])
            && (ids[order[i] as int] == ids[order[j] as int] ==> order[i] < order[j])
}

/// The identities in an order.
pub open spec fn in_order(order: Seq<usize>, ids: Seq<Seq<char>>) -> Seq<Seq<char>> {
    order.map_values(|i: usize| ids[i as int])
}

/// The texts of the identities of points.
pub open spec fn ids_of(points: Seq<RetrievedPoint>) -> Seq<Seq<char>> {
    points.map_values(|p: RetrievedPoint| p.id.spec_text())
}

/// The text of the point behind which a page starts.
pub open spec fn wanted_text(offset: Option<PointId>) -> Option<Seq<char>> {
    match offset {
        Some(o) => Some(o.spec_text()),
        None => None,
    }
}

/// A page of points in the order of their identities, and the point behind which
/// the next page starts: the last one of a full page.
pub open spec fn is_page(
    points: Seq<RetrievedPoint>,
    limit: Option<usize>,
    offset: Option<PointId>,
    r: ScrollResult,
) -> bool {
    &&& exists|all: Seq<usize>| #[trigger]
        ordered_by_id(all, ids_of(points)) && r.points@ == picked(
            points,
            page_of(
                all,
                start_behind(in_order(all, ids_of(points)), wanted_text(offset)),
                page_limit(limit) as int,
            ),
        )
    &&& match r.next_page_offset {
        Some(id) => r.points@.len() == page_limit(limit) && id.spec_text()
            == r.points@.last().id.spec_text() && (id is Num <==> r.points@.last().id is Num),
        None => r.points@.len() < page_limit(limit),
    }
}

/// A page of points in the order of their identities. It starts behind the
/// point that is named, and at the start where there is no such point. The next
/// page is asked for behind its last point; there is none where the page is
/// not full.
pub fn scroll(points: Vec<RetrievedPoint>, limit: Option<usize>, offset: Option<PointId>) -> (r:
    ScrollResult)
    ensures
        is_page(points@, limit, offset, r),
{
    let ghost texts = ids_of(points@);
    let mut ids: Vec<String> = Vec::new();
    let mut i: usize = 0;
    while i < points.len()
        invariant
            i <= points.len(),
            texts == ids_of(points@),
            ids.len() == i,
            forall|k: int| 0 <= k < i ==> (#[trigger] ids@[k])@ == texts[k],
        decreases points.len() - i,
    {
        ids.push(points[i].id.as_string());
        i = i + 1;
    }
    let sorted: Vec<usize> = order::sorted_order(&ids);
    let ghost all = sorted@;
    let ghost names = in_order(all, texts);
    let ghost target: Option<Seq<char>> = wanted_text(offset);
    let mut start: usize = 0;
    match offset {
        Some(o) => {
            let id: String = o.as_string();
            let mut p: usize = 0;
            while p < sorted.len() && !text::same(ids[sorted[p]].as_str(), id.as_str())
                invariant
                    p <= sorted.len(),
                    all == sorted@,
                    ids.len() == texts.len(),
                    forall|k: int| 0 <= k < ids.len() ==> (#[trigger] ids@[k])@ == texts[k],
                    names == in_order(all, texts),
                    order::lists_range(all, 0, ids.len() as int),
                    forall|k: int| 0 <= k < p ==> #[trigger] names[k] != id@,
                decreases sorted.len() - p,
            {
                assert(names[p as int] == ids@[all[p as int] as int]@);
                p = p + 1;
            }
            if p < sorted.len() {
                assert(names[p as int] == ids@[all[p as int] as int]@);
                assert(names.contains(id@));
                proof {
                    lemma_first_place(names, id@, p as int);
                }
                start = p + 1;
            } else {
                assert(!names.contains(id@));
            }
        },
        None => {},
    }
    assert(start == start_behind(names, target));
    let limit: usize = limit_or_default(limit);
    let page: Vec<usize> = page_positions(&sorted, start, limit);
    proof {
        text::lemma_text_order();
        assert(ordered_by_id(all, texts)) by {
            assert forall|a: int, b: int|
                #![trigger all[a], all[b]]
                0 <= a < b < all.len() implies !text::text_less(
                texts[all[b] as int],
                texts[all[a] as int],
            ) && (texts[all[a] as int] == texts[all[b] as int] ==> all[a] < all[b]) by {
                assert(order::comes_before(ids@, all[a] as int, all[b] as int));
                assert(texts[all[a] as int] == ids@[all[a] as int]@);
                assert(texts[all[b] as int] == ids@[all[b] as int]@);
            }
        }
        lemma_sorted_once(ids@, all);
        lemma_page(all, start as int, limit as int);
        assert forall|k: int| 0 <= k < page.len() implies #[trigger] page@[k] < points.len() by {
            assert(all.contains(page@[k]));
        }
    }
    let points: Vec<RetrievedPoint> = pick(points, &page);
    let next_page_offset: Option<PointId> = if points.len() == limit {
        Some(points[points.len() - 1].id.copy())
    } else {
        None
    };
    ScrollResult { points, next_page_offset }
}

/// Where no identity occurs twice, a page that is asked for behind the last
/// point of another starts exactly where that one ended: nothing is left out
/// and nothing comes twice.
pub proof fn law_pages_follow_one_another(
    order: Seq<usize>,
    ids: Seq<Seq<char>>,
    start: int,
    limit: int,
    next_limit: int,
)
    requires
        ordered_by_id(order, ids),
        forall|i: int, j: int|
            #![trigger ids[i], ids[j]]
            0 <= i < j < ids.len() ==> ids[i] != ids[j],
        0 <= start,
        0 < limit,
        0 < next_limit,
        start + limit <= order.len(),
    ensures
        ({
            let page = page_of(order, start, limit);
            let last = ids[page.last() as int];
            let next = start_behind(in_order(order, ids), Some(last));
            &&& page.len() == limit
            &&& next == start + limit
            &&& page + page_of(order, next, next_limit) == page_of(
                order,
                start,
                limit + next_limit,
            )
        }),
{
    let page = page_of(order, start, limit);
    let at = start + limit - 1;
    assert(page.last() == order[at]);
    let last = ids[order[at] as int];
    let names = in_order(order, ids);
    assert(names[at] == last);
    assert(names.contains(last));
    assert forall|j: int| 0 <= j < at implies #[trigger] names[j] != last by {
        let x = order[j] as int;
        let y = order[at] as int;
        if ids[x] == ids[y] {
            assert(order[j] < order[at]);
            assert(ids[x] != ids[y]);
        }
    }
    lemma_first_place(names, last, at);
    assert(page + page_of(order, start + limit, next_limit) =~= page_of(
        order,
        start,
        limit + next_limit,
    ));
}

/// There is one order of points by their identities.
proof fn lemma_one_order(a: Seq<usize>, b: Seq<usize>, ids: Seq<Seq<char>>, i: int)
    requires
        ordered_by_id(a, ids),
        ordered_by_id(b, ids),
        0 <= i < ids.len(),
    ensures
        a[i] == b[i],
    decreases i,
{
    assert forall|j: int| 0 <= j < i implies #[trigger] a[j] == b[j] by {
        lemma_one_order(a, b, ids, j);
    }
    let x = a[i];
    let y = b[i];
    assert(b.contains(x as int as usize));
    assert(a.contains(y as int as usize));
    let q = choose|q: int| 0 <= q < b.len() && b[q] == x;
    let p = choose|p: int| 0 <= p < a.len() && a[p] == y;
    if q < i {
        assert(a[q] == b[q]);
        assert(a[q] < a[i]);
    }
    if p < i {
        assert(a[p] == b[p]);
        assert(b[p] < b[i]);
    }
    if i < q && i < p {
        assert(!text::text_less(ids[x as int], ids[y as int]));
        assert(!text::text_less(ids[y as int], ids[x as int]));
        text::lemma_text_less_total(ids[x as int], ids[y as int]);
    }
}

/// Pages that were asked for one after the other: the first without an offset, each
/// further one behind the last point of the one before, until there is no next page.
pub open spec fn is_chain(
    points: Seq<RetrievedPoint>,
    limit: Option<usize>,
    pages: Seq<ScrollResult>,
) -> bool {
    &&& pages.len() > 0
    &&& is_page(points, limit, None, pages[0])
    &&& forall|k: int|
        #![trigger pages[k]]
        0 < k < pages.len() ==> pages[k - 1].next_page_offset is Some && is_page(
            points,
            limit,
            pages[k - 1].next_page_offset,
            pages[k],
        )
    &&& pages.last().next_page_offset is None
}

/// The points of pages, one page after the other.
pub open spec fn visited(pages: Seq<ScrollResult>) -> Seq<RetrievedPoint>
    decreases pages.len(),
{
    if pages.len() == 0 {
        Seq::empty()
    } else {
        visited(pages.drop_last()) + pages.last().points@
    }
}

/// What the first pages of a chain visited, and where the next one starts.
proof fn lemma_chain(
    points: Seq<RetrievedPoint>,
    limit: Option<usize>,
    pages: Seq<ScrollResult>,
    order: Seq<usize>,
    k: int,
)
    requires
        is_chain(points, limit, pages),
        ordered_by_id(order, ids_of(points)),
        forall|i: int, j: int|
            #![trigger ids_of(points)[i], ids_of(points)[j]]
            0 <= i < j < points.len() ==> ids_of(points)[i] != ids_of(points)[j],
        0 <= k < pages.len(),
    ensures
        k * page_limit(limit) <= points.len(),
        visited(pages.take(k)) == picked(points, order.take(k * page_limit(limit))),
        pages[k].points@ == picked(
            points,
            page_of(order, k * page_limit(limit), page_limit(limit) as int),
        ),
    decreases k,
{
    let ids = ids_of(points);
    let n = page_limit(limit) as int;
    let offset = if k == 0 {
        None
    } else {
        pages[k - 1].next_page_offset
    };
    assert(is_page(points, limit, offset, pages[k]));
    let all = choose|all: Seq<usize>| #[trigger]
        ordered_by_id(all, ids) && pages[k].points@ == picked(
            points,
            page_of(all, start_behind(in_order(all, ids), wanted_text(offset)), n),
        );
    assert(all =~= order) by {
        assert forall|i: int| 0 <= i < ids.len() implies all[i] == order[i] by {
            lemma_one_order(all, order, ids, i);
        }
    }
    if k == 0 {
        assert(pages.take(0) =~= Seq::<ScrollResult>::empty());
        assert(order.take(0) =~= Seq::<usize>::empty());
        assert(visited(pages.take(0)) =~= picked(points, order.take(0)));
        assert(0 * n == 0);
    } else {
        let start = (k - 1) * n;
        lemma_chain(points, limit, pages, order, k - 1);
        assert(k * n == start + n) by (nonlinear_arith)
            requires
                start == (k - 1) * n,
        ;
        let before = page_of(order, start, n);
        assert(picked(points, before).len() == before.len());
        assert(before.len() == n);
        assert(start + n <= order.len());
        law_pages_follow_one_another(order, ids, start, n, n);
        let last = pages[k - 1].points@.last();
        assert(last == points[before.last() as int]);
        assert(ids[before.last() as int] == last.id.spec_text());
        assert(pages.take(k).drop_last() =~= pages.take(k - 1));
        assert(pages.take(k).last() == pages[k - 1]);
        assert(picked(points, order.take(start)) + picked(points, before) =~= picked(
            points,
            order.take(start + n),
        ));
    }
}

/// Scrolling visits every point exactly once: where no identity occurs twice, the
/// pages from the first one to the one without a next page hold all points, in the
/// order of their identities, and each but the last is full.
pub proof fn law_scrolling_visits_every_point_once(
    points: Seq<RetrievedPoint>,
    limit: Option<usize>,
    pages: Seq<ScrollResult>,
)
    requires
        is_chain(points, limit, pages),
        forall|i: int, j: int|
            #![trigger ids_of(points)[i], ids_of(points)[j]]
            0 <= i < j < points.len() ==> ids_of(points)[i] != ids_of(points)[j],
    ensures
        exists|order: Seq<usize>| #[trigger]
            ordered_by_id(order, ids_of(points)) && visited(pages) == picked(points, order),
        visited(pages).len() == points.len(),
        pages.len() == points.len() / (page_limit(limit) as nat) + 1,
{
    let ids = ids_of(points);
    let n = page_limit(limit) as int;
    let order = choose|all: Seq<usize>| #[trigger]
        ordered_by_id(all, ids) && pages[0].points@ == picked(
            points,
            page_of(all, start_behind(in_order(all, ids), wanted_text(None)), n),
        );
    let k = pages.len() - 1;
    lemma_chain(points, limit, pages, order, k);
    assert(pages.take(k) =~= pages.drop_last());
    let last = page_of(order, k * n, n);
    assert(picked(points, last).len() == last.len());
    if k > 0 {
        assert(is_page(points, limit, pages[k - 1].next_page_offset, pages[k]));
    }
    assert(last.len() < n);
    assert(picked(points, order.take(k * n)) + picked(points, last) =~= picked(points, order));
    assert(points.len() as int / n == k) by (nonlinear_arith)
        requires
            n > 0,
            k >= 0,
            k * n <= points.len(),
            points.len() - k * n < n,
    ;
}

/// Scores are ordered as the numbers that their bits stand for: positive ones by their bits,
/// negative ones the other way round and below the positive ones, and the two zeros are equal.
pub proof fn law_scores_are_ordered_as_numbers(a: u32, b: u32)
    ensures
        a < 0x8000_0000 && b < 0x8000_0000 ==> (score_rank(a) < score_rank(b) <==> a < b),
        a >= 0x8000_0000 && b >= 0x8000_0000 ==> (score_rank(a) < score_rank(b) <==> a > b),
        a >= 0x8000_0000 && b < 0x8000_0000 ==> score_rank(a) <= score_rank(b),
        a >= 0x8000_0000 && b < 0x8000_0000 ==> (score_rank(a) == score_rank(b) <==> a - 0x8000_0000
            == 0 && b == 0),
        is_nan(a) <==> a % 0x8000_0000 > 0x7f80_0000,
{
}

/// The better of two points has the higher score where higher is better, and the lower one
/// elsewhere; a score that is no number is the worst, and equal scores go by the identifiers.
pub proof fn law_better_points_come_first(a: ScoredPoint, b: ScoredPoint, higher: bool)
    ensures
        !is_nan(a.score) && !is_nan(b.score) && score_rank(a.score) != score_rank(b.score) ==> (
        is_better(a, b, higher) <==> (higher <==> score_rank(a.score) > score_rank(b.score))),
        !is_nan(a.score) && is_nan(b.score) ==> is_better(a, b, higher) && !is_better(b, a, higher),
        !is_nan(a.score) && !is_nan(b.score) && score_rank(a.score) == score_rank(b.score) ==> (
        is_better(a, b, higher) <==> text::text_less(a.id.spec_text(), b.id.spec_text())),
        is_nan(a.score) && is_nan(b.score) ==> (is_better(a, b, higher) <==> text::text_less(
            a.id.spec_text(),
            b.id.spec_text(),
        )),
{
}

/// A threshold lets through the scores that are as good as itself or better, and no others;
/// without one all come through.
pub proof fn law_thresholds_part_good_from_bad(a: u32, b: u32, t: u32, higher: bool)
    ensures
        passes(a, None, higher),
        !is_nan(t) ==> passes(t, Some(t), higher),
        is_nan(a) || is_nan(t) ==> !passes(a, Some(t), higher),
        !is_nan(a) && !is_nan(t) ==> (passes(a, Some(t), higher) <==> !(if higher {
            score_rank(a) < score_rank(t)
        } else {
            score_rank(a) > score_rank(t)
        })),
        passes(a, Some(t), higher) && !is_nan(b) && score_place(b, higher) <= score_place(a, higher)
            ==> passes(b, Some(t), higher),
{
}

/// Every point that comes through is listed, in the order in which they stood, and no other.
pub proof fn law_passing_points_are_listed(
    order: Seq<usize>,
    results: Seq<ScoredPoint>,
    threshold: Option<u32>,
    higher: bool,
)
    ensures
        ({
            let list = passing(order, results, threshold, higher);
            &&& forall|i: usize| #[trigger]
                list.contains(i) <==> order.contains(i) && passes(
                    results[i as int].score,
                    threshold,
                    higher,
                )
            &&& threshold is None ==> list == order
            &&& list.len() <= order.len()
        }),
        forall|n: usize| #[trigger]
            passing(order.push(n), results, threshold, higher) == if passes(
                results[n as int].score,
                threshold,
                higher,
            ) {
                passing(order, results, threshold, higher).push(n)
            } else {
                passing(order, results, threshold, higher)
            },
    decreases order.len(),
{
    assert forall|n: usize| #[trigger]
        passing(order.push(n), results, threshold, higher) == if passes(
            results[n as int].score,
            threshold,
            higher,
        ) {
            passing(order, results, threshold, higher).push(n)
        } else {
            passing(order, results, threshold, higher)
        } by {
        assert(order.push(n).drop_last() =~= order);
    }
    if order.len() > 0 {
        let front = order.drop_last();
        let last = order.last();
        law_passing_points_are_listed(front, results, threshold, higher);
        let before = passing(front, results, threshold, higher);
        let list = passing(order, results, threshold, higher);
        assert(order =~= front.push(last));
        assert forall|i: usize| #[trigger]
            list.contains(i) <==> order.contains(i) && passes(
                results[i as int].score,
                threshold,
                higher,
            ) by {
            assert(order.contains(i) <==> front.contains(i) || i == last) by {
                if order.contains(i) {
                    let k = choose|k: int| 0 <= k < order.len() && order[k] == i;
                    if k < front.len() {
                        assert(front[k] == i);
                    }
                }
                if front.contains(i) {
                    let k = choose|k: int| 0 <= k < front.len() && front[k] == i;
                    assert(order[k] == i);
                }
                assert(order[order.len() - 1] == last);
            }
            if passes(results[last as int].score, threshold, higher) {
                assert(list.contains(i) <==> before.contains(i) || i == last) by {
                    if list.contains(i) {
                        let k = choose|k: int| 0 <= k < list.len() && list[k] == i;
                        if k < before.len() {
                            assert(before[k] == i);
                        }
                    }
                    if before.contains(i) {
                        let k = choose|k: int| 0 <= k < before.len() && before[k] == i;
                        assert(list[k] == i);
                    }
                    assert(list[list.len() - 1] == last);
                }
            }
        }
    }
}

/// A page starts where it is asked to and is as long as it is asked to be, as far as the list
/// goes; pages of one size side by side are the list.
pub proof fn law_pages_are_parts<T>(list: Seq<T>, offset: int, limit: int, more: int)
    requires
        0 <= offset,
        0 <= limit,
        0 <= more,
    ensures
        page_of(list, offset, limit).len() <= limit,
        forall|i: int|
            0 <= i < limit && offset + i < list.len() ==> i < page_of(list, offset, limit).len()
                && #[trigger] page_of(list, offset, limit)[i] == list[offset + i],
        offset >= list.len() ==> page_of(list, offset, limit).len() == 0,
        page_of(list, offset, limit) + page_of(list, offset + limit, more) == page_of(
            list,
            offset,
            limit + more,
        ),
        limit >= list.len() ==> page_of(list, 0, limit) == list,
{
    assert(page_of(list, offset, limit) + page_of(list, offset + limit, more) =~= page_of(
        list,
        offset,
        limit + more,
    ));
    if limit >= list.len() {
        assert(page_of(list, 0, limit) =~= list);
    }
}

/// A page holds as many points as are asked for, ten where nothing is asked, and one at least.
pub proof fn law_page_sizes(n: usize)
    ensures
        page_limit(None) == 10,
        n >= 1 ==> page_limit(Some(n)) == n,
        page_limit(Some(0)) == 1,
{
}

/// A point is one of a list that has no vector, or lies on the right side of every pair.
pub open spec fn is_one_discovered(
    points: Seq<ScoredPoint>,
    closer: Seq<Vec<bool>>,
    p: ScoredPoint,
) -> bool {
    exists|k: int|
        0 <= k < points.len() && #[trigger] points[k] == p && (points[k].vector is None || all_true(
            closer[k]@,
        ))
}

/// A point is discovered exactly where it lies on the right side of every pair, or has no
/// vector; the points keep their order.
pub proof fn law_discovered_points_are_closer(
    points: Seq<ScoredPoint>,
    closer: Seq<Vec<bool>>,
    i: int,
)
    requires
        0 <= i < points.len() <= closer.len(),
    ensures
        points[i].vector is None || (forall|k: int|
            0 <= k < closer[i]@.len() ==> #[trigger] closer[i]@[k]) ==> discovered(
            points,
            closer,
        ).contains(points[i]),
        discovered(points, closer).len() <= points.len(),
        forall|j: int|
            0 <= j < discovered(points, closer).len() ==> is_one_discovered(
                points,
                closer,
                #[trigger] discovered(points, closer)[j],
            ),
        discovered(points.take(i), closer).is_prefix_of(discovered(points, closer)),
    decreases points.len(),
{
    let front = points.drop_last();
    let last = points.len() - 1;
    let before = discovered(front, closer);
    let list = discovered(points, closer);
    lemma_discovered(points, closer);
    if i < last {
        law_discovered_points_are_closer(front, closer, i);
        assert(front.take(i) =~= points.take(i));
        assert(front[i] == points[i]);
        if before.contains(points[i]) {
            let k = choose|k: int| 0 <= k < before.len() && before[k] == points[i];
            assert(list[k] == points[i]);
        }
        let head = discovered(points.take(i), closer);
        assert(list.subrange(0, head.len() as int) =~= before.subrange(0, head.len() as int));
    } else {
        assert(points.take(i) =~= front);
        if points[last].vector is None || all_true(closer[last]@) {
            assert(list[list.len() - 1] == points[i]);
        }
        assert(list.subrange(0, before.len() as int) =~= before);
    }
}

proof fn lemma_discovered(points: Seq<ScoredPoint>, closer: Seq<Vec<bool>>)
    requires
        points.len() <= closer.len(),
    ensures
        discovered(points, closer).len() <= points.len(),
        forall|j: int|
            0 <= j < discovered(points, closer).len() ==> is_one_discovered(
                points,
                closer,
                #[trigger] discovered(points, closer)[j],
            ),
    decreases points.len(),
{
    if points.len() > 0 {
        let front = points.drop_last();
        let last = points.len() - 1;
        lemma_discovered(front, closer);
        let before = discovered(front, closer);
        let list = discovered(points, closer);
        assert forall|j: int| 0 <= j < list.len() implies is_one_discovered(
            points,
            closer,
            #[trigger] list[j],
        ) by {
            if j < before.len() {
                assert(list[j] == before[j]);
                assert(is_one_discovered(front, closer, before[j]));
                let k = choose|k: int|
                    0 <= k < front.len() && #[trigger] front[k] == before[j] && (
                    front[k].vector is None || all_true(closer[k]@));
                assert(points[k] == front[k]);
            } else {
                assert(list[j] == points[last]);
            }
        }
    }
}

} // verus!
