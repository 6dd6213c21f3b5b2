//! A table from names to values, and sets of names.

use crate::text;
use vstd::prelude::*;

verus! {

/// A table from names to values. No name occurs twice.
#[derive(Debug, Clone, PartialEq)]
pub struct NameMap<V> {
    pub entries: Vec<(String, V)>,
}

/// The index of `name` in `entries`, or the number of entries when it is absent.
pub open spec fn position<V>(entries: Seq<(String, V)>, name: Seq<char>) -> int
    decreases entries.len(),
{
    if entries.len() == 0 {
        0
    } else if entries[0].0@ == name {
        0
    } else {
        1 + position(entries.drop_first(), name)
    }
}

pub proof fn lemma_position<V>(entries: Seq<(String, V)>, name: Seq<char>, i: int)
    requires
        0 <= i <= entries.len(),
        forall|k: int| 0 <= k < i ==> (#[trigger] entries[k]).0@ != name,
        i < entries.len() ==> entries[i].0@ == name,
    ensures
        position(entries, name) == i,
    decreases entries.len(),
{
    if i > 0 {
        let rest = entries.drop_first();
        assert forall|k: int| 0 <= k < i - 1 implies (#[trigger] rest[k]).0@ != name by {
            assert(entries[k + 1].0@ != name);
        }
        lemma_position(rest, name, i - 1);
    }
}

pub proof fn lemma_position_bounds<V>(entries: Seq<(String, V)>, name: Seq<char>)
    ensures
        0 <= position(entries, name) <= entries.len(),
        forall|k: int| 0 <= k < position(entries, name) ==> (#[trigger] entries[k]).0@ != name,
        position(entries, name) < entries.len() ==> entries[position(entries, name)].0@ == name,
    decreases entries.len(),
{
    if entries.len() > 0 && entries[0].0@ != name {
        let rest = entries.drop_first();
        lemma_position_bounds(rest, name);
        assert forall|k: int| 0 <= k < position(entries, name) implies (#[trigger] entries[k]).0@
            != name by {
            if k > 0 {
                assert(rest[k - 1].0@ != name);
            }
        }
    }
}

impl<V> NameMap<V> {
    /// Whether no name occurs twice.
    pub open spec fn wf(&self) -> bool {
        forall|i: int, j: int|
            0 <= i < j < self.entries@.len() ==> (#[trigger] self.entries@[i]).0@ != (
            #[trigger] self.entries@[j]).0@
    }

    /// The table as a mathematical map.
    pub open spec fn map(&self) -> Map<Seq<char>, V> {
        Map::new(
            |n: Seq<char>| position(self.entries@, n) < self.entries@.len(),
            |n: Seq<char>| self.entries@[position(self.entries@, n)].1,
        )
    }

    /// The names of the table.
    pub open spec fn names(&self) -> Set<Seq<char>> {
        self.map().dom()
    }

    pub open spec fn has(&self, name: Seq<char>) -> bool {
        self.map().contains_key(name)
    }

    /// The value under `name`; meaningful where `has(name)`.
    pub open spec fn at(&self, name: Seq<char>) -> V {
        self.map()[name]
    }

    /// Every entry is found under its own name.
    pub proof fn lemma_entry(&self, i: int)
        requires
            self.wf(),
            0 <= i < self.entries@.len(),
        ensures
            self.has(self.entries@[i].0@),
            self.at(self.entries@[i].0@) == self.entries@[i].1,
            position(self.entries@, self.entries@[i].0@) == i,
    {
        lemma_position(self.entries@, self.entries@[i].0@, i);
    }

    /// Every name of the table belongs to some entry.
    pub proof fn lemma_has(&self, name: Seq<char>) -> (i: int)
        requires
            self.has(name),
        ensures
            0 <= i < self.entries@.len(),
            self.entries@[i].0@ == name,
            self.entries@[i].1 == self.at(name),
            i == position(self.entries@, name),
    {
        lemma_position_bounds(self.entries@, name);
        position(self.entries@, name)
    }

    /// The empty table.
    pub fn new() -> (r: Self)
        ensures
            r.wf(),
            r.map() == Map::<Seq<char>, V>::empty(),
            r.entries@.len() == 0,
    {
        let r = NameMap { entries: Vec::new() };
        assert(r.map() =~= Map::<Seq<char>, V>::empty());
        r
    }

    /// Whether no name occurs twice.
    pub fn has_distinct_names(&self) -> (r: bool)
        ensures
            r == self.wf(),
    {
        let n: usize = self.entries.len();
        let mut j: usize = 0;
        while j < n
            invariant
                j <= n,
                n == self.entries@.len(),
                forall|a: int, b: int|
                    0 <= a < b < j ==> (#[trigger] self.entries@[a]).0@ != (
                    #[trigger] self.entries@[b]).0@,
            decreases n - j,
        {
            let mut i: usize = 0;
            while i < j
                invariant
                    i <= j,
                    j < n,
                    n == self.entries@.len(),
                    forall|a: int|
                        0 <= a < i ==> (#[trigger] self.entries@[a]).0@ != self.entries@[j as int].0@,
                decreases j - i,
            {
                if text::same(self.entries[i].0.as_str(), self.entries[j].0.as_str()) {
                    assert(self.entries@[i as int].0@ == self.entries@[j as int].0@);
                    return false;
                }
                i += 1;
            }
            j += 1;
        }
        true
    }

    /// The number of names.
    pub fn len(&self) -> (r: usize)
        ensures
            r == self.entries@.len(),
    {
        self.entries.len()
    }

    /// The index of the entry under `name`, if there is one.
    pub fn find(&self, name: &str) -> (r: Option<usize>)
        ensures
            match r {
                Some(i) => i < self.entries@.len() && self.has(name@) && position(
                    self.entries@,
                    name@,
                ) == i && self.entries@[i as int].0@ == name@ && self.entries@[i as int].1
                    == self.at(name@),
                None => !self.has(name@),
            },
    {
        let n: usize = self.entries.len();
        let mut i: usize = 0;
        while i < n
            invariant
                n == self.entries@.len(),
                i <= n,
                forall|k: int| 0 <= k < i ==> (#[trigger] self.entries@[k]).0@ != name@,
            decreases n - i,
        {
            if text::same(self.entries[i].0.as_str(), name) {
                proof {
                    lemma_position(self.entries@, name@, i as int);
                }
                return Some(i);
            }
            i += 1;
        }
        proof {
            lemma_position(self.entries@, name@, i as int);
        }
        None
    }

    /// Whether `name` is in the table.
    pub fn contains_key(&self, name: &str) -> (r: bool)
        ensures
            r == self.has(name@),
    {
        self.find(name).is_some()
    }

    /// The value under `name`, if there is one.
    pub fn get(&self, name: &str) -> (r: Option<&V>)
        ensures
            match r {
                Some(v) => self.has(name@) && *v == self.at(name@),
                None => !self.has(name@),
            },
    {
        match self.find(name) {
            Some(i) => Some(&self.entries[i].1),
            None => None,
        }
    }

    /// Takes the entry under `name` out of the table and returns its value.
    pub fn remove(&mut self, name: &str) -> (r: Option<V>)
        requires
            old(self).wf(),
        ensures
            final(self).wf(),
            final(self).map() == old(self).map().remove(name@),
            match r {
                Some(v) => old(self).has(name@) && v == old(self).at(name@) && final(self).entries@.len() + 1 == old(self).entries@.len(),
                None => !old(self).has(name@) && final(self).entries@ == old(self).entries@,
            },
    {
        match self.find(name) {
            Some(i) => {
                let e = self.entries.remove(i);
                proof {
                    let was = old(self).entries@;
                    let now = self.entries@;
                    assert(now == was.remove(i as int));
                    assert forall|a: int, b: int| 0 <= a < b < now.len() implies (
                    #[trigger] now[a]).0@ != (#[trigger] now[b]).0@ by {
                        let x = if a < i {
                            a
                        } else {
                            a + 1
                        };
                        let y = if b < i {
                            b
                        } else {
                            b + 1
                        };
                        assert(now[a] == was[x]);
                        assert(now[b] == was[y]);
                    }
                    let want = old(self).map().remove(name@);
                    assert forall|n: Seq<char>|
                        #![trigger self.map().dom().contains(n)]
                        #![trigger want.dom().contains(n)]
                        self.map().dom().contains(n) == want.dom().contains(n) && (
                        want.dom().contains(n) ==> self.map()[n] == want[n]) by {
                        lemma_position_bounds(was, n);
                        lemma_position_bounds(now, n);
                        let p = position(was, n);
                        let q = position(now, n);
                        if q < now.len() {
                            let x = if q < i {
                                q
                            } else {
                                q + 1
                            };
                            assert(now[q] == was[x]);
                            old(self).lemma_entry(x);
                            assert(was[x].0@ != was[i as int].0@);
                        } else if p < was.len() && n != name@ {
                            assert(p != i);
                            let x = if p < i {
                                p
                            } else {
                                p - 1
                            };
                            assert(now[x] == was[p]);
                        }
                    }
                    assert(self.map() =~= want);
                }
                Some(e.1)
            },
            None => {
                assert(self.map() =~= old(self).map().remove(name@));
                None
            },
        }
    }

    /// Puts `value` under `name` and returns the value that stood there before.
    pub fn insert(&mut self, name: String, value: V) -> (r: Option<V>)
        requires
            old(self).wf(),
        ensures
            final(self).wf(),
            final(self).map() == old(self).map().insert(name@, value),
            match r {
                Some(v) => old(self).has(name@) && v == old(self).at(name@),
                None => !old(self).has(name@),
            },
    {
        let before = self.remove(name.as_str());
        let ghost mid = *self;
        assert(!mid.has(name@));
        self.entries.push((name, value));
        proof {
            let was = mid.entries@;
            let now = self.entries@;
            assert forall|a: int, b: int| 0 <= a < b < now.len() implies (#[trigger] now[a]).0@ != (
            #[trigger] now[b]).0@ by {
                if b == was.len() {
                    if was[a].0@ == name@ {
                        mid.lemma_entry(a);
                    }
                } else {
                    assert(now[a] == was[a] && now[b] == was[b]);
                }
            }
            let want = mid.map().insert(name@, value);
            assert forall|n: Seq<char>|
                #![trigger self.map().dom().contains(n)]
                #![trigger want.dom().contains(n)]
                self.map().dom().contains(n) == want.dom().contains(n) && (want.dom().contains(n)
                    ==> self.map()[n] == want[n]) by {
                lemma_position_bounds(was, n);
                let p = position(was, n);
                if n == name@ {
                    self.lemma_entry(was.len() as int);
                } else if p < was.len() {
                    assert(now[p] == was[p]);
                    self.lemma_entry(p);
                } else {
                    assert forall|k: int| 0 <= k < now.len() implies (#[trigger] now[k]).0@ != n by {
                        if k < was.len() {
                            assert(was[k].0@ != n);
                        }
                    }
                    lemma_position(now, n, now.len() as int);
                }
            }
            assert(self.map() =~= want);
            assert(self.map() =~= old(self).map().insert(name@, value));
        }
        before
    }
}

} // verus!
