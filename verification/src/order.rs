//! Stable sorting by key.
//!
//! Everything in the crate that sorts goes through [`sorted_order`], which
//! returns the positions of the keys in ascending order. Equal keys keep their
//! original relative order, so the returned positions are the only ones that
//! satisfy the contract.

use vstd::prelude::*;

verus! {

/// A key with a strict weak order.
pub trait Ranked: Sized {
    /// Whether `self` sorts strictly before `other`.
    spec fn less(self, other: Self) -> bool;

    /// The order is irreflexive and both it and its complement are transitive.
    proof fn less_is_weak_order()
        ensures
            forall|a: Self| !#[trigger] a.less(a),
            forall|a: Self, b: Self, c: Self|
                #[trigger] a.less(b) && #[trigger] b.less(c) ==> a.less(c),
            forall|a: Self, b: Self, c: Self|
                !#[trigger] a.less(b) && !#[trigger] b.less(c) ==> !a.less(c),
    ;

    /// Decides [`Ranked::less`].
    fn is_less(&self, other: &Self) -> (r: bool)
        ensures
            r == self.less(*other),
    ;
}

impl Ranked for u64 {
    open spec fn less(self, other: Self) -> bool {
        self < other
    }

    proof fn less_is_weak_order() {
    }

    fn is_less(&self, other: &Self) -> (r: bool) {
        *self < *other
    }
}

impl Ranked for u32 {
    open spec fn less(self, other: Self) -> bool {
        self < other
    }

    proof fn less_is_weak_order() {
    }

    fn is_less(&self, other: &Self) -> (r: bool) {
        *self < *other
    }
}

impl Ranked for usize {
    open spec fn less(self, other: Self) -> bool {
        self < other
    }

    proof fn less_is_weak_order() {
    }

    fn is_less(&self, other: &Self) -> (r: bool) {
        *self < *other
    }
}

/// Position `a` of `keys` comes before position `b`: by key, then by position.
pub open spec fn comes_before<K: Ranked>(keys: Seq<K>, a: int, b: int) -> bool {
    ||| keys[a].less(keys[b])
    ||| !keys[b].less(keys[a]) && a < b
}

/// `order` lists positions of `keys` in strictly ascending sorted order.
pub open spec fn ascending<K: Ranked>(keys: Seq<K>, order: Seq<usize>) -> bool {
    forall|i: int, j: int|
        #![trigger order[i], order[j]]
        0 <= i < j < order.len() ==> comes_before(keys, order[i] as int, order[j] as int)
}

/// `order` lists exactly the positions `lo..hi`.
pub open spec fn lists_range(order: Seq<usize>, lo: int, hi: int) -> bool {
    &&& order.len() == hi - lo
    &&& forall|i: int| 0 <= i < order.len() ==> lo <= (#[trigger] order[i]) < hi
    &&& forall|p: int| lo <= p < hi ==> #[trigger] order.contains(p as usize)
}

/// `order` is the stable ascending order of all positions of `keys`.
pub open spec fn is_sorted_order<K: Ranked>(keys: Seq<K>, order: Seq<usize>) -> bool {
    &&& lists_range(order, 0, keys.len() as int)
    &&& ascending(keys, order)
}

/// The positions of `keys` in ascending order, equal keys in original order.
pub fn sorted_order<K: Ranked>(keys: &Vec<K>) -> (order: Vec<usize>)
    ensures
        is_sorted_order(keys@, order@),
{
    sort_range(keys, 0, keys.len())
}

fn sort_range<K: Ranked>(keys: &Vec<K>, lo: usize, hi: usize) -> (order: Vec<usize>)
    requires
        lo <= hi <= keys.len(),
    ensures
        lists_range(order@, lo as int, hi as int),
        ascending(keys@, order@),
    decreases hi - lo,
{
    let mut order: Vec<usize> = Vec::new();
    if hi - lo == 0 {
        return order;
    }
    if hi - lo == 1 {
        order.push(lo);
        assert(order@[0] == lo);
        return order;
    }
    let mid: usize = lo + (hi - lo) / 2;
    let left: Vec<usize> = sort_range(keys, lo, mid);
    let right: Vec<usize> = sort_range(keys, mid, hi);
    merge(keys, &left, &right, lo, mid, hi)
}

fn merge<K: Ranked>(
    keys: &Vec<K>,
    left: &Vec<usize>,
    right: &Vec<usize>,
    lo: usize,
    mid: usize,
    hi: usize,
) -> (order: Vec<usize>)
    requires
        lo <= mid <= hi <= keys.len(),
        lists_range(left@, lo as int, mid as int),
        lists_range(right@, mid as int, hi as int),
        ascending(keys@, left@),
        ascending(keys@, right@),
    ensures
        lists_range(order@, lo as int, hi as int),
        ascending(keys@, order@),
{
    let mut order: Vec<usize> = Vec::new();
    let mut i: usize = 0;
    let mut j: usize = 0;
    let ghost ks = keys@;
    proof {
        K::less_is_weak_order();
    }
    while i < left.len() || j < right.len()
        invariant
            ks == keys@,
            lo <= mid <= hi <= keys.len(),
            lists_range(left@, lo as int, mid as int),
            lists_range(right@, mid as int, hi as int),
            ascending(ks, left@),
            ascending(ks, right@),
            i <= left.len(),
            j <= right.len(),
            order.len() == i + j,
            forall|k: int| 0 <= k < order.len() ==> lo <= (#[trigger] order@[k]) < hi,
            forall|k: int| 0 <= k < i ==> order@.contains(#[trigger] left@[k]),
            forall|k: int| 0 <= k < j ==> order@.contains(#[trigger] right@[k]),
            ascending(ks, order@),
            forall|k: int, m: int|
                #![trigger order@[k], left@[m]]
                0 <= k < order.len() && i <= m < left.len() ==> comes_before(
                    ks,
                    order@[k] as int,
                    left@[m] as int,
                ),
            forall|k: int, m: int|
                #![trigger order@[k], right@[m]]
                0 <= k < order.len() && j <= m < right.len() ==> comes_before(
                    ks,
                    order@[k] as int,
                    right@[m] as int,
                ),
            forall|a: K| !#[trigger] a.less(a),
            forall|a: K, b: K, c: K|
                #[trigger] a.less(b) && #[trigger] b.less(c) ==> a.less(c),
            forall|a: K, b: K, c: K|
                !#[trigger] a.less(b) && !#[trigger] b.less(c) ==> !a.less(c),
        decreases left.len() - i + right.len() - j,
    {
        let take_left: bool = if i >= left.len() {
            false
        } else if j >= right.len() {
            true
        } else {
            !keys[right[j]].is_less(&keys[left[i]])
        };
        let ghost before = order@;
        if take_left {
            order.push(left[i]);
            proof {
                assert(order@[before.len() as int] == left@[i as int]);
                assert forall|x: usize| before.contains(x) implies order@.contains(x) by {
                    let k = choose|k: int| 0 <= k < before.len() && before[k] == x;
                    assert(order@[k] == x);
                }
                if j < right.len() {
                    assert forall|m: int| j <= m < right.len() implies comes_before(
                        ks,
                        left@[i as int] as int,
                        #[trigger] right@[m] as int,
                    ) by {
                        assert(left@[i as int] < right@[m]);
                        assert(comes_before(ks, right@[j as int] as int, right@[m] as int)
                            || j == m);
                    }
                }
            }
            i = i + 1;
        } else {
            order.push(right[j]);
            proof {
                assert(order@[before.len() as int] == right@[j as int]);
                assert forall|x: usize| before.contains(x) implies order@.contains(x) by {
                    let k = choose|k: int| 0 <= k < before.len() && before[k] == x;
                    assert(order@[k] == x);
                }
                if i < left.len() {
                    assert forall|m: int| i <= m < left.len() implies comes_before(
                        ks,
                        right@[j as int] as int,
                        #[trigger] left@[m] as int,
                    ) by {
                        assert(comes_before(ks, left@[i as int] as int, left@[m] as int) || i == m);
                    }
                }
            }
            j = j + 1;
        }
    }
    proof {
        assert forall|p: int| lo <= p < hi implies #[trigger] order@.contains(p as usize) by {
            if p < mid {
                assert(left@.contains(p as usize));
                let k = choose|k: int| 0 <= k < left.len() && left@[k] == p as usize;
                assert(order@.contains(left@[k]));
            } else {
                assert(right@.contains(p as usize));
                let k = choose|k: int| 0 <= k < right.len() && right@[k] == p as usize;
                assert(order@.contains(right@[k]));
            }
        }
    }
    order
}

} // verus!
