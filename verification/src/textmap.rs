//! A map from text keys, kept as a list in which no key occurs twice.

use vstd::prelude::*;
use vstd::string::*;

use crate::text;

verus! {

/// A map from text keys to values. The list keeps the order in which the keys
/// were first added.
#[derive(Debug, Clone)]
pub struct TextMap<V> {
    pub items: Vec<(String, V)>,
}

/// The list holds `key` at position `i`.
pub open spec fn holds_at<V>(items: Seq<(String, V)>, key: Seq<char>, i: int) -> bool {
    0 <= i < items.len() && items[i].0@ == key
}

/// No key occurs twice.
pub open spec fn keys_distinct<V>(items: Seq<(String, V)>) -> bool {
    forall|i: int, j: int|
        #![trigger items[i], items[j]]
        0 <= i < j < items.len() ==> items[i].0@ != items[j].0@
}

/// The map that a list of pairs stands for.
pub open spec fn map_of<V>(items: Seq<(String, V)>) -> Map<Seq<char>, V> {
    Map::new(
        |k: Seq<char>| exists|i: int| holds_at(items, k, i),
        |k: Seq<char>| items[choose|i: int| holds_at(items, k, i)].1,
    )
}

/// What the list says of the key at position `i`.
pub proof fn lemma_holds_at<V>(items: Seq<(String, V)>, key: Seq<char>, i: int)
    requires
        keys_distinct(items),
        holds_at(items, key, i),
    ensures
        map_of(items).dom().contains(key),
        map_of(items)[key] == items[i].1,
{
    let j = choose|j: int| holds_at(items, key, j);
    if i < j {
        assert(items[i].0@ != items[j].0@);
    } else if j < i {
        assert(items[j].0@ != items[i].0@);
    }
}

impl<V> TextMap<V> {
    /// No key occurs twice.
    pub open spec fn wf(self) -> bool {
        keys_distinct(self.items@)
    }

    /// The map.
    pub open spec fn view(self) -> Map<Seq<char>, V> {
        map_of(self.items@)
    }

    /// An empty map.
    pub fn new() -> (r: Self)
        ensures
            r.wf(),
            r@ == Map::<Seq<char>, V>::empty(),
            r.items@.len() == 0,
    {
        let r: TextMap<V> = TextMap { items: Vec::new() };
        assert(r@ =~= Map::<Seq<char>, V>::empty());
        r
    }

    fn find(&self, key: &str) -> (r: Option<usize>)
        ensures
            match r {
                Some(i) => holds_at(self.items@, key@, i as int),
                None => !self@.dom().contains(key@),
            },
    {
        let mut i: usize = 0;
        while i < self.items.len()
            invariant
                i <= self.items.len(),
                forall|k: int| 0 <= k < i ==> (#[trigger] self.items@[k]).0@ != key@,
            decreases self.items.len() - i,
        {
            if text::same(self.items[i].0.as_str(), key) {
                return Some(i);
            }
            i = i + 1;
        }
        None
    }

    /// The value of a key.
    pub fn get(&self, key: &str) -> (r: Option<&V>)
        requires
            self.wf(),
        ensures
            match r {
                Some(v) => self@.dom().contains(key@) && *v == self@[key@],
                None => !self@.dom().contains(key@),
            },
    {
        match self.find(key) {
            Some(i) => {
                proof {
                    lemma_holds_at(self.items@, key@, i as int);
                }
                Some(&self.items[i].1)
            },
            None => None,
        }
    }

    /// Sets the value of a key.
    pub fn insert(&mut self, key: String, value: V)
        requires
            old(self).wf(),
        ensures
            final(self).wf(),
            final(self)@ == old(self)@.insert(key@, value),
            old(self)@.dom().contains(key@) ==> final(self).items.len() == old(self).items.len(),
            !old(self)@.dom().contains(key@) ==> final(self).items@ == old(self).items@.push(
                (key, value),
            ),
    {
        let ghost before = self.items@;
        match self.find(key.as_str()) {
            Some(i) => {
                let ghost k = key@;
                assert(map_of(before).dom().contains(k));
                self.items.set(i, (key, value));
                proof {
                    let now = self.items@;
                    assert forall|a: int, b: int|
                        #![trigger now[a], now[b]]
                        0 <= a < b < now.len() implies now[a].0@ != now[b].0@ by {
                        assert(before[a].0@ != before[b].0@);
                    }
                    assert forall|p: Seq<char>| map_of(now).dom().contains(p) <==> map_of(
                        before,
                    ).insert(k, value).dom().contains(p) by {
                        if map_of(now).dom().contains(p) {
                            let j = choose|j: int| holds_at(now, p, j);
                            assert(holds_at(before, p, j));
                        }
                        if map_of(before).dom().contains(p) {
                            let j = choose|j: int| holds_at(before, p, j);
                            assert(holds_at(now, p, j));
                        }
                    }
                    assert forall|p: Seq<char>| map_of(now).dom().contains(p) implies map_of(now)[p]
                        == map_of(before).insert(k, value)[p] by {
                        let j = choose|j: int| holds_at(now, p, j);
                        lemma_holds_at(now, p, j);
                        assert(holds_at(before, p, j));
                        lemma_holds_at(before, p, j);
                        assert(holds_at(before, k, i as int));
                        if j < i {
                            assert(before[j].0@ != before[i as int].0@);
                        } else if i < j {
                            assert(before[i as int].0@ != before[j].0@);
                        }
                    }
                    assert(map_of(now) =~= map_of(before).insert(k, value));
                }
            },
            None => {
                let ghost k = key@;
                self.items.push((key, value));
                proof {
                    let now = self.items@;
                    let n = before.len() as int;
                    assert forall|a: int, b: int|
                        #![trigger now[a], now[b]]
                        0 <= a < b < now.len() implies now[a].0@ != now[b].0@ by {
                        if b == n {
                            assert(now[a] == before[a]);
                            if before[a].0@ == k {
                                assert(holds_at(before, k, a));
                            }
                        } else {
                            assert(before[a].0@ != before[b].0@);
                        }
                    }
                    assert(holds_at(now, k, n));
                    assert forall|p: Seq<char>| map_of(now).dom().contains(p) <==> map_of(
                        before,
                    ).insert(k, value).dom().contains(p) by {
                        if map_of(now).dom().contains(p) && p != k {
                            let j = choose|j: int| holds_at(now, p, j);
                            assert(holds_at(before, p, j));
                        }
                        if map_of(before).dom().contains(p) {
                            let j = choose|j: int| holds_at(before, p, j);
                            assert(holds_at(now, p, j));
                        }
                    }
                    assert forall|p: Seq<char>| map_of(now).dom().contains(p) implies map_of(now)[p]
                        == map_of(before).insert(k, value)[p] by {
                        let j = choose|j: int| holds_at(now, p, j);
                        lemma_holds_at(now, p, j);
                        if j < n {
                            assert(holds_at(before, p, j));
                            lemma_holds_at(before, p, j);
                        }
                    }
                    assert(map_of(now) =~= map_of(before).insert(k, value));
                }
            },
        }
    }

    /// Removes a key and returns its value.
    pub fn remove(&mut self, key: &str) -> (r: Option<V>)
        requires
            old(self).wf(),
        ensures
            final(self).wf(),
            final(self)@ == old(self)@.remove(key@),
            match r {
                Some(v) => old(self)@.dom().contains(key@) && v == old(self)@[key@],
                None => !old(self)@.dom().contains(key@),
            },
    {
        let ghost before = self.items@;
        match self.find(key) {
            Some(i) => {
                proof {
                    lemma_holds_at(before, key@, i as int);
                }
                let (_, value) = self.items.remove(i);
                proof {
                    let now = self.items@;
                    let at = i as int;
                    assert forall|a: int, b: int|
                        #![trigger now[a], now[b]]
                        0 <= a < b < now.len() implies now[a].0@ != now[b].0@ by {
                        let x = if a < at {
                            a
                        } else {
                            a + 1
                        };
                        let y = if b < at {
                            b
                        } else {
                            b + 1
                        };
                        assert(now[a] == before[x] && now[b] == before[y]);
                    }
                    assert forall|p: Seq<char>| map_of(now).dom().contains(p) <==> map_of(
                        before,
                    ).remove(key@).dom().contains(p) by {
                        if map_of(now).dom().contains(p) {
                            let j = choose|j: int| holds_at(now, p, j);
                            let x = if j < at {
                                j
                            } else {
                                j + 1
                            };
                            assert(holds_at(before, p, x));
                            if x < at {
                                assert(before[x].0@ != before[at].0@);
                            } else {
                                assert(before[at].0@ != before[x].0@);
                            }
                        }
                        if map_of(before).dom().contains(p) && p != key@ {
                            let x = choose|x: int| holds_at(before, p, x);
                            let j = if x < at {
                                x
                            } else {
                                x - 1
                            };
                            assert(now[j] == before[x]);
                            assert(holds_at(now, p, j));
                        }
                    }
                    assert forall|p: Seq<char>| map_of(now).dom().contains(p) implies map_of(now)[p]
                        == map_of(before).remove(key@)[p] by {
                        let j = choose|j: int| holds_at(now, p, j);
                        lemma_holds_at(now, p, j);
                        let x = if j < at {
                            j
                        } else {
                            j + 1
                        };
                        assert(holds_at(before, p, x));
                        lemma_holds_at(before, p, x);
                    }
                    assert(map_of(now) =~= map_of(before).remove(key@));
                }
                Some(value)
            },
            None => {
                assert(map_of(before) =~= map_of(before).remove(key@));
                None
            },
        }
    }
}

} // verus!
