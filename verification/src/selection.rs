//! The set of files that the user marked for deletion: a map from file keys to
//! whether the file's checkbox is ticked.
use vstd::prelude::*;
use crate::text::{list_contains, str_eq};

verus! {

/// A map from file keys to a checkbox state, each key at most once.
pub struct Selection {
    entries: Vec<(String, bool)>,
}

/// The keys and states of a list of entries.
pub open spec fn pairs(e: Seq<(String, bool)>) -> Seq<(Seq<char>, bool)> {
    e.map_values(|p: (String, bool)| (p.0@, p.1))
}

/// No key occurs twice.
pub open spec fn keys_unique(p: Seq<(Seq<char>, bool)>) -> bool {
    forall|i: int, j: int| 0 <= i < p.len() && 0 <= j < p.len() && i != j ==> (#[trigger] p[i]).0 != (#[trigger] p[j]).0
}

/// Key `k` occurs in the entries.
pub open spec fn has_key(p: Seq<(Seq<char>, bool)>, k: Seq<char>) -> bool {
    exists|i: int| 0 <= i < p.len() && (#[trigger] p[i]).0 == k
}

/// The state recorded for key `k`.
pub open spec fn state_of(p: Seq<(Seq<char>, bool)>, k: Seq<char>) -> bool {
    p[choose|i: int| 0 <= i < p.len() && (#[trigger] p[i]).0 == k].1
}

/// The map that a list of entries with unique keys stands for.
pub open spec fn map_of(p: Seq<(Seq<char>, bool)>) -> Map<Seq<char>, bool> {
    Map::new(|k: Seq<char>| has_key(p, k), |k: Seq<char>| state_of(p, k))
}

proof fn lemma_state_at(p: Seq<(Seq<char>, bool)>, i: int)
    requires
        keys_unique(p),
        0 <= i < p.len(),
    ensures
        has_key(p, p[i].0),
        state_of(p, p[i].0) == p[i].1,
{
    let k = p[i].0;
    assert(has_key(p, k));
    let c = choose|c: int| 0 <= c < p.len() && (#[trigger] p[c]).0 == k;
    assert(c == i);
}

impl View for Selection {
    type V = Map<Seq<char>, bool>;

    closed spec fn view(&self) -> Map<Seq<char>, bool> {
        map_of(pairs(self.entries@))
    }
}

impl Selection {
    /// The selection is well formed: no key is recorded twice.
    pub closed spec fn wf(&self) -> bool {
        keys_unique(pairs(self.entries@))
    }

    /// The keys whose checkbox is ticked.
    pub open spec fn ticked(&self) -> Set<Seq<char>> {
        self@.dom().filter(|k: Seq<char>| self@[k])
    }

    /// An empty selection.
    pub fn new() -> (r: Selection)
        ensures
            r.wf(),
            r@ == Map::<Seq<char>, bool>::empty(),
    {
        let r = Selection { entries: Vec::new() };
        assert(r@ =~= Map::<Seq<char>, bool>::empty());
        r
    }

    fn find(&self, key: &str) -> (r: Option<usize>)
        ensures
            match r {
                Some(i) => i < self.entries@.len() && self.entries@[i as int].0@ == key@,
                None => !has_key(pairs(self.entries@), key@),
            },
    {
        let n = self.entries.len();
        for i in 0..n
            invariant
                n == self.entries@.len(),
                forall|k: int| 0 <= k < i ==> (#[trigger] pairs(self.entries@)[k]).0 != key@,
        {
            if str_eq(self.entries[i].0.as_str(), key) {
                return Some(i);
            }
        }
        None
    }

    /// Whether the file with key `key` is ticked: a key without a state is not.
    pub fn is_selected(&self, key: &str) -> (r: bool)
        requires
            self.wf(),
        ensures
            r == (self@.contains_key(key@) && self@[key@]),
    {
        match self.find(key) {
            Some(i) => {
                proof {
                    lemma_state_at(pairs(self.entries@), i as int);
                }
                self.entries[i].1
            },
            None => false,
        }
    }

    /// Whether a state is recorded for `key`.
    pub fn contains_key(&self, key: &str) -> (r: bool)
        requires
            self.wf(),
        ensures
            r == self@.contains_key(key@),
    {
        match self.find(key) {
            Some(i) => {
                proof {
                    lemma_state_at(pairs(self.entries@), i as int);
                }
                true
            },
            None => false,
        }
    }

    /// Records the state of `key`, replacing an earlier one.
    pub fn insert(&mut self, key: String, selected: bool)
        requires
            old(self).wf(),
        ensures
            final(self).wf(),
            final(self)@ == old(self)@.insert(key@, selected),
    {
        let ghost p0 = pairs(self.entries@);
        let ghost k = key@;
        match self.find(key.as_str()) {
            Some(i) => {
                self.entries.set(i, (key, selected));
                let ghost p1 = pairs(self.entries@);
                assert(p1 =~= p0.update(i as int, (k, selected)));
                assert forall|a: int, b: int| 0 <= a < p1.len() && 0 <= b < p1.len() && a != b implies (#[trigger] p1[a]).0 != (#[trigger] p1[b]).0 by {
                    assert(p1[a].0 == p0[a].0 && p1[b].0 == p0[b].0);
                }
                assert forall|x: Seq<char>| #[trigger] has_key(p1, x) == (has_key(p0, x) || x == k) by {
                    if has_key(p0, x) {
                        let c = choose|c: int| 0 <= c < p0.len() && (#[trigger] p0[c]).0 == x;
                        assert(p1[c].0 == x);
                    }
                    if has_key(p1, x) {
                        let c = choose|c: int| 0 <= c < p1.len() && (#[trigger] p1[c]).0 == x;
                        if c != i {
                            assert(p0[c].0 == x);
                        }
                    }
                    assert(p1[i as int].0 == k);
                }
                assert forall|x: Seq<char>| has_key(p1, x) implies #[trigger] state_of(p1, x) == (if x == k {
                    selected
                } else {
                    state_of(p0, x)
                }) by {
                    let c = choose|c: int| 0 <= c < p1.len() && (#[trigger] p1[c]).0 == x;
                    lemma_state_at(p1, c);
                    if x == k {
                        assert(p1[i as int].0 == k);
                        assert(c == i);
                    } else {
                        assert(c != i);
                        assert(p0[c] == p1[c]);
                        lemma_state_at(p0, c);
                    }
                }
                assert(self@ =~= old(self)@.insert(k, selected));
            },
            None => {
                self.entries.push((key, selected));
                let ghost p1 = pairs(self.entries@);
                assert(p1 =~= p0.push((k, selected)));
                assert forall|a: int, b: int| 0 <= a < p1.len() && 0 <= b < p1.len() && a != b implies (#[trigger] p1[a]).0 != (#[trigger] p1[b]).0 by {
                    if a < p0.len() && b < p0.len() {
                        assert(p1[a] == p0[a] && p1[b] == p0[b]);
                    } else if a < p0.len() {
                        assert(p1[a] == p0[a]);
                        assert(!has_key(p0, k));
                    } else {
                        assert(p1[b] == p0[b]);
                        assert(!has_key(p0, k));
                    }
                }
                assert forall|x: Seq<char>| #[trigger] has_key(p1, x) == (has_key(p0, x) || x == k) by {
                    if has_key(p0, x) {
                        let c = choose|c: int| 0 <= c < p0.len() && (#[trigger] p0[c]).0 == x;
                        assert(p1[c].0 == x);
                    }
                    assert(p1[p0.len() as int].0 == k);
                }
                assert forall|x: Seq<char>| has_key(p1, x) implies #[trigger] state_of(p1, x) == (if x == k {
                    selected
                } else {
                    state_of(p0, x)
                }) by {
                    let c = choose|c: int| 0 <= c < p1.len() && (#[trigger] p1[c]).0 == x;
                    lemma_state_at(p1, c);
                    if c < p0.len() {
                        lemma_state_at(p0, c);
                    }
                }
                assert(self@ =~= old(self)@.insert(k, selected));
            },
        }
    }

    /// Forgets the state of `key`.
    pub fn remove(&mut self, key: &str)
        requires
            old(self).wf(),
        ensures
            final(self).wf(),
            final(self)@ == old(self)@.remove(key@),
    {
        let ghost p0 = pairs(self.entries@);
        match self.find(key) {
            Some(i) => {
                let _ = self.entries.remove(i);
                let ghost p1 = pairs(self.entries@);
                assert(p1 =~= p0.remove(i as int));
                assert(p0[i as int].0 == key@);
                assert forall|a: int, b: int| 0 <= a < p1.len() && 0 <= b < p1.len() && a != b implies (#[trigger] p1[a]).0 != (#[trigger] p1[b]).0 by {
                    let a0 = if a < i { a } else { a + 1 };
                    let b0 = if b < i { b } else { b + 1 };
                    assert(p1[a] == p0[a0] && p1[b] == p0[b0]);
                }
                assert forall|x: Seq<char>| #[trigger] has_key(p1, x) == (has_key(p0, x) && x != key@) by {
                    if has_key(p0, x) && x != key@ {
                        let c = choose|c: int| 0 <= c < p0.len() && (#[trigger] p0[c]).0 == x;
                        if c < i {
                            assert(p1[c].0 == x);
                        } else {
                            assert(p1[c - 1].0 == x);
                        }
                    }
                    if has_key(p1, x) {
                        let c = choose|c: int| 0 <= c < p1.len() && (#[trigger] p1[c]).0 == x;
                        if c < i {
                            assert(p0[c].0 == x);
                            assert(c != i);
                        } else {
                            assert(p0[c + 1].0 == x);
                            assert(c + 1 != i);
                        }
                        assert(x != key@);
                        assert(has_key(p0, x));
                    }
                }
                assert forall|x: Seq<char>| has_key(p1, x) implies #[trigger] state_of(p1, x) == state_of(p0, x) by {
                    let c = choose|c: int| 0 <= c < p1.len() && (#[trigger] p1[c]).0 == x;
                    lemma_state_at(p1, c);
                    if c < i {
                        lemma_state_at(p0, c);
                    } else {
                        lemma_state_at(p0, c + 1);
                    }
                }
                assert(self@ =~= old(self)@.remove(key@));
            },
            None => {
                assert(self@ =~= old(self)@.remove(key@));
            },
        }
    }

    /// Forgets every state.
    pub fn clear(&mut self)
        ensures
            final(self).wf(),
            final(self)@ == Map::<Seq<char>, bool>::empty(),
    {
        self.entries.clear();
        assert(self@ =~= Map::<Seq<char>, bool>::empty());
    }

    /// Keeps only the states of the listed keys.
    pub fn retain_keys(&mut self, keep: &Vec<String>)
        requires
            old(self).wf(),
        ensures
            final(self).wf(),
            final(self)@ == old(self)@.restrict(
                Set::new(|k: Seq<char>| exists|j: int| 0 <= j < keep@.len() && (#[trigger] keep@[j])@ == k),
            ),
    {
        let ghost p0 = pairs(self.entries@);
        let ghost keys = Set::new(|k: Seq<char>| exists|j: int| 0 <= j < keep@.len() && (#[trigger] keep@[j])@ == k);
        let mut kept: Vec<(String, bool)> = Vec::new();
        let n = self.entries.len();
        for i in 0..n
            invariant
                n == self.entries@.len(),
                p0 == pairs(self.entries@),
                keys_unique(p0),
                keys == Set::new(|k: Seq<char>| exists|j: int| 0 <= j < keep@.len() && (#[trigger] keep@[j])@ == k),
                keys_unique(pairs(kept@)),
                forall|x: Seq<char>| #[trigger] has_key(pairs(kept@), x) == (exists|c: int|
                    0 <= c < i && (#[trigger] p0[c]).0 == x && keys.contains(x)),
                forall|q: int| 0 <= q < kept@.len() ==> has_key(p0, (#[trigger] pairs(kept@)[q]).0)
                    && state_of(p0, pairs(kept@)[q].0) == pairs(kept@)[q].1,
        {
            let key = &self.entries[i].0;
            let found = list_contains(keep, key.as_str());
            assert(found == keys.contains(key@)) by {
                if found {
                    let j = choose|j: int| 0 <= j < keep@.len() && (#[trigger] keep@[j])@ == key@;
                    assert(keys.contains(key@));
                }
            }
            let ghost before = pairs(kept@);
            if found {
                kept.push((key.clone(), self.entries[i].1));
                let ghost after = pairs(kept@);
                assert(after =~= before.push(p0[i as int]));
                assert(!has_key(before, p0[i as int].0)) by {
                    if has_key(before, p0[i as int].0) {
                        let c = choose|c: int| 0 <= c < i && (#[trigger] p0[c]).0 == p0[i as int].0 && keys.contains(p0[i as int].0);
                        assert(c != i);
                    }
                }
                assert forall|a: int, b: int| 0 <= a < after.len() && 0 <= b < after.len() && a != b implies (#[trigger] after[a]).0 != (#[trigger] after[b]).0 by {
                    if a < before.len() && b < before.len() {
                        assert(after[a] == before[a] && after[b] == before[b]);
                    } else if a < before.len() {
                        assert(after[a] == before[a]);
                        assert(has_key(before, before[a].0));
                    } else {
                        assert(after[b] == before[b]);
                        assert(has_key(before, before[b].0));
                    }
                }
                assert forall|x: Seq<char>| #[trigger] has_key(after, x) == (exists|c: int|
                    0 <= c < i + 1 && (#[trigger] p0[c]).0 == x && keys.contains(x)) by {
                    if has_key(after, x) {
                        let q = choose|q: int| 0 <= q < after.len() && (#[trigger] after[q]).0 == x;
                        if q == before.len() {
                            assert(p0[i as int].0 == x);
                        } else {
                            assert(before[q].0 == x);
                            assert(has_key(before, x));
                        }
                    }
                    if exists|c: int| 0 <= c < i + 1 && (#[trigger] p0[c]).0 == x && keys.contains(x) {
                        let c = choose|c: int| 0 <= c < i + 1 && (#[trigger] p0[c]).0 == x && keys.contains(x);
                        if c == i {
                            assert(after[before.len() as int].0 == x);
                        } else {
                            assert(has_key(before, x));
                            let q = choose|q: int| 0 <= q < before.len() && (#[trigger] before[q]).0 == x;
                            assert(after[q].0 == x);
                        }
                    }
                }
                assert forall|q: int| 0 <= q < kept@.len() implies has_key(p0, (#[trigger] pairs(kept@)[q]).0)
                    && state_of(p0, pairs(kept@)[q].0) == pairs(kept@)[q].1 by {
                    if q == before.len() {
                        assert(p0[i as int] == pairs(kept@)[q]);
                        lemma_state_at(p0, i as int);
                    } else {
                        assert(pairs(kept@)[q] == before[q]);
                    }
                }
            } else {
                assert forall|x: Seq<char>| #[trigger] has_key(before, x) == (exists|c: int|
                    0 <= c < i + 1 && (#[trigger] p0[c]).0 == x && keys.contains(x)) by {
                    if exists|c: int| 0 <= c < i + 1 && (#[trigger] p0[c]).0 == x && keys.contains(x) {
                        let c = choose|c: int| 0 <= c < i + 1 && (#[trigger] p0[c]).0 == x && keys.contains(x);
                        assert(c != i);
                    }
                }
            }
        }
        self.entries = kept;
        let ghost p1 = pairs(self.entries@);
        assert forall|x: Seq<char>| #[trigger] has_key(p1, x) == (has_key(p0, x) && keys.contains(x)) by {
            if has_key(p0, x) && keys.contains(x) {
                let c = choose|c: int| 0 <= c < p0.len() && (#[trigger] p0[c]).0 == x;
                assert(exists|c: int| 0 <= c < n && (#[trigger] p0[c]).0 == x && keys.contains(x));
            }
        }
        assert forall|x: Seq<char>| has_key(p1, x) implies #[trigger] state_of(p1, x) == state_of(p0, x) by {
            let q = choose|q: int| 0 <= q < p1.len() && (#[trigger] p1[q]).0 == x;
            lemma_state_at(p1, q);
        }
        assert(self@ =~= old(self)@.restrict(keys));
    }

    /// The number of ticked keys.
    pub fn selected_count(&self) -> (r: usize)
        requires
            self.wf(),
        ensures
            r == self.ticked().len(),
    {
        let ghost p = pairs(self.entries@);
        let mut count: usize = 0;
        let n = self.entries.len();
        let ghost mut seen: Set<Seq<char>> = Set::empty();
        for i in 0..n
            invariant
                n == self.entries@.len(),
                p == pairs(self.entries@),
                keys_unique(p),
                count <= i,
                seen.finite(),
                count == seen.len(),
                forall|x: Seq<char>| #[trigger] seen.contains(x) == (exists|c: int|
                    0 <= c < i && (#[trigger] p[c]).0 == x && p[c].1),
        {
            if self.entries[i].1 {
                proof {
                    assert(!seen.contains(p[i as int].0)) by {
                        if seen.contains(p[i as int].0) {
                            let c = choose|c: int| 0 <= c < i && (#[trigger] p[c]).0 == p[i as int].0 && p[c].1;
                        }
                    }
                    seen = seen.insert(p[i as int].0);
                }
                count = count + 1;
            }
            assert forall|x: Seq<char>| #[trigger] seen.contains(x) == (exists|c: int|
                0 <= c < i + 1 && (#[trigger] p[c]).0 == x && p[c].1) by {
                if exists|c: int| 0 <= c < i + 1 && (#[trigger] p[c]).0 == x && p[c].1 {
                    let c = choose|c: int| 0 <= c < i + 1 && (#[trigger] p[c]).0 == x && p[c].1;
                    if c < i {
                        assert(exists|c: int| 0 <= c < i && (#[trigger] p[c]).0 == x && p[c].1);
                    }
                }
            }
        }
        assert(seen =~= self.ticked()) by {
            assert forall|x: Seq<char>| seen.contains(x) == self.ticked().contains(x) by {
                if seen.contains(x) {
                    let c = choose|c: int| 0 <= c < n && (#[trigger] p[c]).0 == x && p[c].1;
                    lemma_state_at(p, c);
                }
                if self.ticked().contains(x) {
                    let c = choose|c: int| 0 <= c < p.len() && (#[trigger] p[c]).0 == x;
                    lemma_state_at(p, c);
                }
            }
        }
        count
    }
}

} // verus!
