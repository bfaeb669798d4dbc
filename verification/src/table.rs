//! An insertion-ordered table keyed by names: the lookup structure used for
//! variables, functions, namespaces and name sets.

use vstd::prelude::*;

verus! {

/// Entries `(name, value)` in insertion order, each name at most once.
#[derive(Debug)]
pub struct Table<T> {
    pub entries: Vec<(String, T)>,
}

/// The names of `entries`, in order.
pub open spec fn names_of<T>(entries: Seq<(String, T)>) -> Seq<Seq<char>> {
    entries.map_values(|e: (String, T)| e.0@)
}

proof fn lemma_first_exists<T>(e: Seq<(String, T)>, k: Seq<char>, i: int)
    requires
        0 <= i < e.len(),
        e[i].0@ == k,
    ensures
        exists|m: int| 0 <= m < e.len() && e[m].0@ == k && forall|j: int| 0 <= j < m ==> e[j].0@ != k,
    decreases i,
{
    if exists|j: int| 0 <= j < i && e[j].0@ == k {
        let j = choose|j: int| 0 <= j < i && e[j].0@ == k;
        lemma_first_exists(e, k, j);
    }
}

impl<T> Table<T> {
    /// No name occurs twice.
    pub open spec fn wf(&self) -> bool {
        forall|i: int, j: int|
            0 <= i < j < self.entries@.len() ==> self.entries@[i].0@ != self.entries@[j].0@
    }

    /// The names, in insertion order.
    pub open spec fn names(&self) -> Seq<Seq<char>> {
        names_of(self.entries@)
    }

    /// `k` is one of the names.
    pub open spec fn has(&self, k: Seq<char>) -> bool {
        exists|i: int| 0 <= i < self.entries@.len() && self.entries@[i].0@ == k
    }

    /// The position of the first entry named `k`.
    pub open spec fn position(&self, k: Seq<char>) -> int {
        choose|i: int|
            0 <= i < self.entries@.len() && self.entries@[i].0@ == k
                && forall|j: int| 0 <= j < i ==> self.entries@[j].0@ != k
    }

    /// The value stored under `k` (in its first entry).
    pub open spec fn lookup(&self, k: Seq<char>) -> Option<T> {
        if self.has(k) {
            Some(self.entries@[self.position(k)].1)
        } else {
            None
        }
    }

    /// Facts about `position`.
    pub proof fn lemma_position(&self, k: Seq<char>)
        requires
            self.has(k),
        ensures
            0 <= self.position(k) < self.entries@.len(),
            self.entries@[self.position(k)].0@ == k,
            forall|j: int| 0 <= j < self.position(k) ==> self.entries@[j].0@ != k,
    {
        let i = choose|i: int| 0 <= i < self.entries@.len() && self.entries@[i].0@ == k;
        lemma_first_exists(self.entries@, k, i);
    }

    /// The first entry named `k` is at `i`.
    pub proof fn lemma_position_is(&self, k: Seq<char>, i: int)
        requires
            0 <= i < self.entries@.len(),
            self.entries@[i].0@ == k,
            forall|j: int| 0 <= j < i ==> self.entries@[j].0@ != k,
        ensures
            self.has(k),
            self.position(k) == i,
            self.lookup(k) == Some(self.entries@[i].1),
    {
        self.lemma_position(k);
        let p = self.position(k);
        if p < i {
        } else if p > i {
        }
    }

    pub fn new() -> (t: Table<T>)
        ensures
            t.entries@.len() == 0,
            t.wf(),
    {
        Table { entries: Vec::new() }
    }

    pub fn len(&self) -> (n: usize)
        ensures
            n == self.entries@.len(),
    {
        self.entries.len()
    }

    /// The position of `k`, if present.
    pub fn find(&self, k: &str) -> (r: Option<usize>)
        ensures
            r matches Some(i) ==> i < self.entries@.len() && self.entries@[i as int].0@ == k@
                && forall|j: int| 0 <= j < i ==> self.entries@[j].0@ != k@,
            r is None <==> !self.has(k@),
    {
        let ks = k.to_owned();
        let mut i: usize = 0;
        while i < self.entries.len()
            invariant
                ks@ == k@,
                i <= self.entries@.len(),
                forall|j: int| 0 <= j < i ==> self.entries@[j].0@ != k@,
            decreases self.entries@.len() - i,
        {
            if self.entries[i].0 == ks {
                return Some(i);
            }
            i = i + 1;
        }
        None
    }

    pub fn contains(&self, k: &str) -> (b: bool)
        ensures
            b == self.has(k@),
    {
        self.find(k).is_some()
    }

    /// The value stored under `k`.
    pub fn get(&self, k: &str) -> (r: Option<&T>)
        ensures
            r matches Some(v) ==> self.lookup(k@) == Some(*v),
            r is None ==> self.lookup(k@) is None,
    {
        match self.find(k) {
            Some(i) => {
                proof {
                    self.lemma_position_is(k@, i as int);
                }
                Some(&self.entries[i].1)
            },
            None => None,
        }
    }

    /// Store `v` under `k`: an existing entry keeps its position, a new one
    /// goes last.
    pub fn insert(&mut self, k: String, v: T)
        ensures
            old(self).wf() ==> final(self).wf(),
            old(self).has(k@) ==> final(self).entries@ == old(self).entries@.update(old(self).position(k@), (k, v)),
            !old(self).has(k@) ==> final(self).entries@ == old(self).entries@.push((k, v)),
            final(self).lookup(k@) == Some(v),
            forall|q: Seq<char>| q != k@ ==> final(self).lookup(q) == old(self).lookup(q),
            forall|q: Seq<char>| final(self).has(q) <==> (old(self).has(q) || q == k@),
            final(self).names().len() >= old(self).names().len(),
    {
        let ghost prev = *self;
        match self.find(k.as_str()) {
            Some(i) => {
                proof {
                    prev.lemma_position_is(k@, i as int);
                }
                self.entries.set(i, (k, v));
                proof {
                    let cur = *self;
                    cur.lemma_position_is(k@, i as int);
                    assert forall|q: Seq<char>| q != k@ implies cur.lookup(q) == prev.lookup(q) && (cur.has(q) <==> prev.has(q)) by {
                        if prev.has(q) {
                            prev.lemma_position(q);
                            let p = prev.position(q);
                            cur.lemma_position_is(q, p);
                        }
                        if cur.has(q) {
                            cur.lemma_position(q);
                            let p = cur.position(q);
                            prev.lemma_position_is(q, p);
                        }
                    }
                }
            },
            None => {
                self.entries.push((k, v));
                proof {
                    let cur = *self;
                    let n = prev.entries@.len() as int;
                    cur.lemma_position_is(k@, n);
                    assert forall|q: Seq<char>| q != k@ implies cur.lookup(q) == prev.lookup(q) && (cur.has(q) <==> prev.has(q)) by {
                        if prev.has(q) {
                            prev.lemma_position(q);
                            let p = prev.position(q);
                            cur.lemma_position_is(q, p);
                        }
                        if cur.has(q) {
                            cur.lemma_position(q);
                            let p = cur.position(q);
                            if p < n {
                                prev.lemma_position_is(q, p);
                            }
                        }
                    }
                }
            },
        }
    }
}

/// The value of the first entry named `k` of `entries`.
pub fn find_entry<'a, T>(entries: &'a Vec<(String, T)>, k: &str) -> (r: Option<&'a T>)
    ensures
        r matches Some(v) ==> (Table { entries: *entries }).lookup(k@) == Some(*v),
        r is None ==> (Table { entries: *entries }).lookup(k@) is None,
{
    let ks = k.to_owned();
    let mut i: usize = 0;
    while i < entries.len()
        invariant
            ks@ == k@,
            i <= entries@.len(),
            forall|j: int| 0 <= j < i ==> entries@[j].0@ != k@,
        decreases entries@.len() - i,
    {
        if entries[i].0 == ks {
            proof {
                (Table { entries: *entries }).lemma_position_is(k@, i as int);
            }
            return Some(&entries[i].1);
        }
        i = i + 1;
    }
    None
}

} // verus!
