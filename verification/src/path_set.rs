//! A small set of vault paths, kept in insertion order.

use vstd::prelude::*;

use crate::text::{chars_equal, chars_of};

verus! {

/// Distinct paths; a path is in the set at most once.
#[derive(Debug, Clone)]
pub struct PathSet {
    items: Vec<String>,
}

/// The set of paths a list of strings holds.
pub open spec fn path_set(v: Seq<String>) -> Set<Seq<char>> {
    Set::new(|p: Seq<char>| exists|i: int| 0 <= i < v.len() && (#[trigger] v[i])@ == p)
}

/// No path occurs twice.
pub open spec fn distinct_paths(v: Seq<String>) -> bool {
    forall|i: int, j: int| 0 <= i < j < v.len() ==> (#[trigger] v[i])@ != (#[trigger] v[j])@
}

impl PathSet {
    /// The paths in the set.
    pub closed spec fn set(&self) -> Set<Seq<char>> {
        path_set(self.items@)
    }

    /// How many paths the set holds.
    pub closed spec fn size(&self) -> nat {
        self.items@.len()
    }

    /// The path at position `i` in insertion order.
    pub closed spec fn item(&self, i: int) -> Seq<char> {
        self.items@[i]@
    }

    /// A path is in the set exactly when it is at some position.
    pub proof fn lemma_items(&self)
        ensures
            forall|p: Seq<char>|
                self.set().contains(p) <==> exists|i: int|
                    0 <= i < self.size() && #[trigger] self.item(i) == p,
    {
        assert forall|p: Seq<char>|
            self.set().contains(p) <==> exists|i: int|
                0 <= i < self.size() && #[trigger] self.item(i) == p by {
            if self.set().contains(p) {
                let i = choose|i: int| 0 <= i < self.items@.len() && (#[trigger] self.items@[i])@ == p;
                assert(self.item(i) == p);
            }
            if exists|i: int| 0 <= i < self.size() && #[trigger] self.item(i) == p {
                let i = choose|i: int| 0 <= i < self.size() && #[trigger] self.item(i) == p;
                assert((self.items@[i])@ == p);
            }
        }
    }

    /// The set's internal invariant: each path once.
    pub closed spec fn wf(&self) -> bool {
        distinct_paths(self.items@)
    }

    /// The number of paths is the size of the set.
    pub proof fn lemma_size(&self)
        requires
            self.wf(),
        ensures
            self.set().finite(),
            self.set().len() == self.size(),
    {
        lemma_distinct_len(self.items@);
    }

    /// An empty set.
    pub fn new() -> (s: PathSet)
        ensures
            s.wf(),
            s.set() == Set::<Seq<char>>::empty(),
            s.size() == 0,
    {
        let s = PathSet { items: Vec::new() };
        assert(s.set() =~= Set::<Seq<char>>::empty());
        s
    }

    fn index_of(&self, p: &Vec<char>) -> (r: Option<usize>)
        ensures
            r matches Some(i) ==> i < self.items@.len() && self.items@[i as int]@ == p@,
            r is None ==> !self.set().contains(p@),
    {
        let mut i: usize = 0;
        while i < self.items.len()
            invariant
                i <= self.items@.len(),
                forall|j: int| 0 <= j < i ==> (#[trigger] self.items@[j])@ != p@,
            decreases self.items@.len() - i,
        {
            if chars_equal(&chars_of(self.items[i].as_str()), p) {
                return Some(i);
            }
            i = i + 1;
        }
        None
    }

    /// Whether `path` is in the set.
    pub fn contains(&self, path: &str) -> (r: bool)
        ensures
            r == self.set().contains(path@),
    {
        let p = chars_of(path);
        match self.index_of(&p) {
            Some(i) => {
                assert(self.items@[i as int]@ == path@);
                true
            },
            None => false,
        }
    }

    /// How many paths the set holds.
    pub fn len(&self) -> (r: usize)
        ensures
            r == self.size(),
    {
        self.items.len()
    }

    /// Whether the set is empty.
    pub fn is_empty(&self) -> (r: bool)
        requires
            self.wf(),
        ensures
            r == (self.set() == Set::<Seq<char>>::empty()),
    {
        let r = self.items.len() == 0;
        proof {
            if r {
                assert(self.set() =~= Set::<Seq<char>>::empty());
            } else {
                assert(self.set().contains(self.items@[0]@));
            }
        }
        r
    }

    /// Remove every path.
    pub fn clear(&mut self)
        ensures
            final(self).wf(),
            final(self).set() == Set::<Seq<char>>::empty(),
            final(self).size() == 0,
    {
        self.items = Vec::new();
        assert(self.set() =~= Set::<Seq<char>>::empty());
    }

    /// Add `path` if it is absent.
    pub fn insert(&mut self, path: String)
        requires
            old(self).wf(),
        ensures
            final(self).wf(),
            final(self).set() == old(self).set().insert(path@),
    {
        let p = chars_of(path.as_str());
        if let Some(i) = self.index_of(&p) {
            assert(old(self).set().contains(path@));
            assert(self.set().insert(path@) =~= self.set());
            return;
        }
        let ghost before = self.items@;
        self.items.push(path);
        proof {
            let after = self.items@;
            let n = before.len() as int;
            assert(path_set(after) =~= path_set(before).insert(after[n]@)) by {
                assert forall|q: Seq<char>| path_set(after).contains(q) implies path_set(
                    before,
                ).insert(after[n]@).contains(q) by {
                    let k = choose|k: int| 0 <= k < after.len() && (#[trigger] after[k])@ == q;
                    if k < n {
                        assert(before[k] == after[k]);
                    }
                }
                assert forall|q: Seq<char>| path_set(before).insert(after[n]@).contains(
                    q,
                ) implies path_set(after).contains(q) by {
                    if q != after[n]@ {
                        let k = choose|k: int| 0 <= k < before.len() && (#[trigger] before[k])@ == q;
                        assert(after[k] == before[k]);
                    }
                }
            }
            assert forall|a: int, b: int| 0 <= a < b < after.len() implies (
            #[trigger] after[a])@ != (#[trigger] after[b])@ by {
                assert(after[a] == before[a]);
                if b < n {
                    assert(after[b] == before[b]);
                } else {
                    assert(path_set(before).contains(before[a]@));
                }
            }
        }
    }

    /// Remove `path` if it is present; returns whether it was.
    pub fn remove(&mut self, path: &str) -> (was: bool)
        requires
            old(self).wf(),
        ensures
            final(self).wf(),
            was == old(self).set().contains(path@),
            final(self).set() == old(self).set().remove(path@),
    {
        let p = chars_of(path);
        match self.index_of(&p) {
            None => {
                assert(self.set().remove(path@) =~= self.set());
                false
            },
            Some(i) => {
                let ghost before = self.items@;
                self.items.remove(i);
                proof {
                    let after = self.items@;
                    assert forall|k: int| 0 <= k < after.len() implies after[k] == (if k < i {
                        before[k]
                    } else {
                        before[k + 1]
                    }) by {}
                    assert(path_set(after) =~= path_set(before).remove(path@)) by {
                        assert forall|q: Seq<char>| path_set(after).contains(q) implies path_set(
                            before,
                        ).remove(path@).contains(q) by {
                            let k = choose|k: int| 0 <= k < after.len() && (#[trigger] after[k])@ == q;
                            if k < i {
                                assert(before[k] == after[k]);
                                assert(before[k]@ != before[i as int]@);
                            } else {
                                assert(before[k + 1] == after[k]);
                                assert(before[k + 1]@ != before[i as int]@);
                            }
                        }
                        assert forall|q: Seq<char>| path_set(before).remove(path@).contains(
                            q,
                        ) implies path_set(after).contains(q) by {
                            let k = choose|k: int| 0 <= k < before.len() && (#[trigger] before[k])@ == q;
                            assert(k != i);
                            if k < i {
                                assert(after[k] == before[k]);
                            } else {
                                assert(after[k - 1] == before[k]);
                            }
                        }
                    }
                    assert forall|a: int, b: int| 0 <= a < b < after.len() implies (
                    #[trigger] after[a])@ != (#[trigger] after[b])@ by {
                        let a2 = if a < i { a } else { a + 1 };
                        let b2 = if b < i { b } else { b + 1 };
                        assert(after[a] == before[a2]);
                        assert(after[b] == before[b2]);
                    }
                    assert(path_set(before).contains(path@)) by {
                        assert(before[i as int]@ == path@);
                    }
                }
                true
            },
        }
    }

    /// Remove `path` if it is present, add it otherwise.
    pub fn toggle(&mut self, path: String)
        requires
            old(self).wf(),
        ensures
            final(self).wf(),
            final(self).set() == (if old(self).set().contains(path@) {
                old(self).set().remove(path@)
            } else {
                old(self).set().insert(path@)
            }),
    {
        if !self.remove(path.as_str()) {
            self.insert(path);
        }
    }

    /// The paths, in the order they were added.
    pub fn to_vec(&self) -> (v: Vec<String>)
        requires
            self.wf(),
        ensures
            path_set(v@) == self.set(),
            v@.len() == self.size(),
            distinct_paths(v@),
    {
        let mut v: Vec<String> = Vec::new();
        let mut i: usize = 0;
        while i < self.items.len()
            invariant
                i <= self.items@.len(),
                v@ == self.items@.take(i as int),
            decreases self.items@.len() - i,
        {
            v.push(self.items[i].clone());
            assert(self.items@.take(i + 1) =~= self.items@.take(i as int).push(self.items@[i as int]));
            i = i + 1;
        }
        assert(self.items@.take(i as int) =~= self.items@);
        v
    }

    /// The path at position `i` in insertion order.
    pub fn get(&self, i: usize) -> (r: &String)
        requires
            i < self.size(),
        ensures
            r@ == self.item(i as int),
            self.set().contains(r@),
    {
        let r = &self.items[i];
        assert(path_set(self.items@).contains(self.items@[i as int]@));
        r
    }
}

/// Adding a string adds its path to the set.
pub proof fn lemma_path_set_push(v: Seq<String>, x: String)
    ensures
        path_set(v.push(x)) == path_set(v).insert(x@),
{
    let w = v.push(x);
    assert forall|q: Seq<char>| path_set(w).contains(q) implies path_set(v).insert(x@).contains(q) by {
        let k = choose|k: int| 0 <= k < w.len() && (#[trigger] w[k])@ == q;
        if k < v.len() {
            assert(w[k] == v[k]);
        }
    }
    assert forall|q: Seq<char>| path_set(v).insert(x@).contains(q) implies path_set(w).contains(q) by {
        if q == x@ {
            assert(w[v.len() as int] == x);
        } else {
            let k = choose|k: int| 0 <= k < v.len() && (#[trigger] v[k])@ == q;
            assert(w[k] == v[k]);
        }
    }
    assert(path_set(w) =~= path_set(v).insert(x@));
}

/// Distinct paths have as many elements as their set.
pub proof fn lemma_distinct_len(v: Seq<String>)
    requires
        distinct_paths(v),
    ensures
        path_set(v).finite(),
        path_set(v).len() == v.len(),
    decreases v.len(),
{
    if v.len() == 0 {
        assert(path_set(v) =~= Set::<Seq<char>>::empty());
    } else {
        let w = v.drop_last();
        assert(distinct_paths(w)) by {
            assert forall|i: int, j: int| 0 <= i < j < w.len() implies (#[trigger] w[i])@ != (
            #[trigger] w[j])@ by {
                assert(w[i] == v[i]);
                assert(w[j] == v[j]);
            }
        }
        lemma_distinct_len(w);
        assert(path_set(v) =~= path_set(w).insert(v.last()@)) by {
            assert forall|q: Seq<char>| path_set(v).contains(q) implies path_set(w).insert(
                v.last()@,
            ).contains(q) by {
                let k = choose|k: int| 0 <= k < v.len() && (#[trigger] v[k])@ == q;
                if k < v.len() - 1 {
                    assert(w[k] == v[k]);
                }
            }
            assert forall|q: Seq<char>| path_set(w).insert(v.last()@).contains(q) implies path_set(
                v,
            ).contains(q) by {
                if q != v.last()@ {
                    let k = choose|k: int| 0 <= k < w.len() && (#[trigger] w[k])@ == q;
                    assert(v[k] == w[k]);
                }
            }
        }
        assert(!path_set(w).contains(v.last()@)) by {
            if path_set(w).contains(v.last()@) {
                let k = choose|k: int| 0 <= k < w.len() && (#[trigger] w[k])@ == v.last()@;
                assert(w[k] == v[k]);
            }
        }
    }
}

} // verus!
