use vstd::prelude::*;

verus! {

/// A map from strings to values, kept as a list of entries with distinct
/// keys.
pub struct StrTable<V> {
    entries: Vec<(String, V)>,
}

/// Whether `k` is the key of some entry of `e`.
pub open spec fn has_key<V>(e: Seq<(String, V)>, k: Seq<char>) -> bool {
    exists|i: int| 0 <= i < e.len() && #[trigger] e[i].0@ == k
}

impl<V: View> View for StrTable<V> {
    type V = Map<Seq<char>, V::V>;

    closed spec fn view(&self) -> Map<Seq<char>, V::V> {
        let e = self.entries@;
        Map::new(
            |k: Seq<char>| has_key(e, k),
            |k: Seq<char>| e[choose|i: int| 0 <= i < e.len() && #[trigger] e[i].0@ == k].1@,
        )
    }
}

impl<V: View> StrTable<V> {
    /// The table's entries have distinct keys.
    pub closed spec fn wf(&self) -> bool {
        forall|i: int, j: int|
            0 <= i < self.entries@.len() && 0 <= j < self.entries@.len() && i != j
                ==> #[trigger] self.entries@[i].0@ != #[trigger] self.entries@[j].0@
    }

    proof fn lemma_at(&self, i: int)
        requires
            self.wf(),
            0 <= i < self.entries@.len(),
        ensures
            self@.dom().contains(self.entries@[i].0@),
            self@[self.entries@[i].0@] == self.entries@[i].1@,
    {
        let e = self.entries@;
        let k = e[i].0@;
        assert(has_key(e, k));
        let j = choose|j: int| 0 <= j < e.len() && #[trigger] e[j].0@ == k;
        assert(j == i);
    }

    /// An empty table.
    pub fn new() -> (res: Self)
        ensures
            res.wf(),
            res@ == Map::<Seq<char>, V::V>::empty(),
    {
        let res = StrTable { entries: Vec::new() };
        assert(res@ =~= Map::<Seq<char>, V::V>::empty());
        res
    }

    /// The position of the entry whose key is `k`, if any.
    fn find(&self, k: &str) -> (res: Option<usize>)
        requires
            self.wf(),
        ensures
            match res {
                Some(i) => i < self.entries@.len() && self.entries@[i as int].0@ == k@,
                None => !self@.dom().contains(k@),
            },
    {
        let key = String::from_str(k);
        let mut i: usize = 0;
        while i < self.entries.len()
            invariant
                key@ == k@,
                i <= self.entries@.len(),
                forall|j: int| 0 <= j < i ==> self.entries@[j].0@ != k@,
            decreases self.entries@.len() - i,
        {
            if self.entries[i].0 == key {
                return Some(i);
            }
            i = i + 1;
        }
        None
    }

    /// The value stored under `k`.
    pub fn get(&self, k: &str) -> (res: Option<&V>)
        requires
            self.wf(),
        ensures
            match res {
                Some(v) => self@.dom().contains(k@) && self@[k@] == v@,
                None => !self@.dom().contains(k@),
            },
    {
        match self.find(k) {
            Some(i) => {
                proof {
                    self.lemma_at(i as int);
                }
                Some(&self.entries[i].1)
            },
            None => None,
        }
    }

    /// The stored key and value for `k`.
    pub fn get_key_value(&self, k: &str) -> (res: Option<(&String, &V)>)
        requires
            self.wf(),
        ensures
            match res {
                Some((key, v)) => key@ == k@ && self@.dom().contains(k@) && self@[k@] == v@,
                None => !self@.dom().contains(k@),
            },
    {
        match self.find(k) {
            Some(i) => {
                proof {
                    self.lemma_at(i as int);
                }
                Some((&self.entries[i].0, &self.entries[i].1))
            },
            None => None,
        }
    }

    /// Stores `v` under `k`, replacing any earlier value.
    pub fn insert(&mut self, k: String, v: V)
        requires
            old(self).wf(),
        ensures
            final(self).wf(),
            final(self)@ == old(self)@.insert(k@, v@),
    {
        let ghost old_e = self.entries@;
        let ghost kv = k@;
        let ghost vv = v@;
        match self.find(k.as_str()) {
            Some(i) => {
                self.entries.set(i, (k, v));
                let ghost e = self.entries@;
                assert forall|a: int, b: int|
                    0 <= a < e.len() && 0 <= b < e.len() && a != b implies #[trigger] e[a].0@
                    != #[trigger] e[b].0@ by {
                    assert(old_e[a].0@ == e[a].0@);
                    assert(old_e[b].0@ == e[b].0@);
                }
                proof {
                    assert forall|key: Seq<char>| #[trigger] has_key(e, key) == has_key(old_e, key) by {
                        if has_key(e, key) {
                            let j = choose|j: int| 0 <= j < e.len() && #[trigger] e[j].0@ == key;
                            assert(old_e[j].0@ == key);
                        }
                        if has_key(old_e, key) {
                            let j = choose|j: int| 0 <= j < old_e.len() && #[trigger] old_e[j].0@ == key;
                            assert(e[j].0@ == key);
                        }
                    }
                    let m = self@;
                    let om = old(self)@.insert(kv, vv);
                    assert forall|key: Seq<char>| #[trigger] m.dom().contains(key) implies m[key] == om[key] by {
                        let j = choose|j: int| 0 <= j < e.len() && #[trigger] e[j].0@ == key;
                        self.lemma_at(j);
                        if j != i as int {
                            assert(old_e[j] == e[j]);
                            assert(old_e[j].0@ != kv);
                            let oj = choose|oj: int| 0 <= oj < old_e.len() && #[trigger] old_e[oj].0@ == key;
                            assert(oj == j);
                        }
                    }
                    assert(m.dom() =~= om.dom());
                    assert(m =~= om);
                }
            },
            None => {
                self.entries.push((k, v));
                let ghost e = self.entries@;
                assert forall|a: int, b: int|
                    0 <= a < e.len() && 0 <= b < e.len() && a != b implies #[trigger] e[a].0@
                    != #[trigger] e[b].0@ by {
                    if a < old_e.len() && b < old_e.len() {
                        assert(old_e[a] == e[a]);
                        assert(old_e[b] == e[b]);
                    } else if a < old_e.len() {
                        assert(old_e[a] == e[a]);
                        assert(has_key(old_e, e[a].0@));
                    } else {
                        assert(old_e[b] == e[b]);
                        assert(has_key(old_e, e[b].0@));
                    }
                }
                proof {
                    assert forall|key: Seq<char>| #[trigger] has_key(e, key) == (has_key(old_e, key) || key == kv) by {
                        if has_key(e, key) {
                            let j = choose|j: int| 0 <= j < e.len() && #[trigger] e[j].0@ == key;
                            if j < old_e.len() {
                                assert(old_e[j].0@ == key);
                            }
                        }
                        if has_key(old_e, key) {
                            let j = choose|j: int| 0 <= j < old_e.len() && #[trigger] old_e[j].0@ == key;
                            assert(e[j].0@ == key);
                        }
                        if key == kv {
                            assert(e[old_e.len() as int].0@ == key);
                        }
                    }
                    let m = self@;
                    let om = old(self)@.insert(kv, vv);
                    assert forall|key: Seq<char>| #[trigger] m.dom().contains(key) implies m[key] == om[key] by {
                        let j = choose|j: int| 0 <= j < e.len() && #[trigger] e[j].0@ == key;
                        self.lemma_at(j);
                        if j < old_e.len() {
                            assert(old_e[j] == e[j]);
                            let oj = choose|oj: int| 0 <= oj < old_e.len() && #[trigger] old_e[oj].0@ == key;
                            assert(oj == j);
                        }
                    }
                    assert(m.dom() =~= om.dom());
                    assert(m =~= om);
                }
            },
        }
    }

    /// Removes the entry for `k`, if there is one.
    pub fn remove(&mut self, k: &str)
        requires
            old(self).wf(),
        ensures
            final(self).wf(),
            final(self)@ == old(self)@.remove(k@),
    {
        let ghost old_e = self.entries@;
        match self.find(k) {
            Some(i) => {
                let _ = self.entries.remove(i);
                let ghost e = self.entries@;
                assert forall|a: int| 0 <= a < e.len() implies #[trigger] e[a] == (if a < i {
                    old_e[a]
                } else {
                    old_e[a + 1]
                }) by {}
                assert forall|a: int, b: int|
                    0 <= a < e.len() && 0 <= b < e.len() && a != b implies #[trigger] e[a].0@
                    != #[trigger] e[b].0@ by {
                    let oa = if a < i { a } else { a + 1 };
                    let ob = if b < i { b } else { b + 1 };
                    assert(e[a] == old_e[oa]);
                    assert(e[b] == old_e[ob]);
                }
                proof {
                    assert forall|key: Seq<char>| #[trigger] has_key(e, key) == (has_key(old_e, key) && key != k@) by {
                        if has_key(e, key) {
                            let j = choose|j: int| 0 <= j < e.len() && #[trigger] e[j].0@ == key;
                            let oj = if j < i { j } else { j + 1 };
                            assert(e[j] == old_e[oj]);
                            assert(old_e[oj].0@ == key);
                        }
                        if has_key(old_e, key) && key != k@ {
                            let j = choose|j: int| 0 <= j < old_e.len() && #[trigger] old_e[j].0@ == key;
                            assert(j != i);
                            let nj = if j < i { j } else { j - 1 };
                            assert(e[nj] == old_e[j]);
                            assert(e[nj].0@ == key);
                        }
                    }
                    let m = self@;
                    let om = old(self)@.remove(k@);
                    assert forall|key: Seq<char>| #[trigger] m.dom().contains(key) implies m[key] == om[key] by {
                        let j = choose|j: int| 0 <= j < e.len() && #[trigger] e[j].0@ == key;
                        self.lemma_at(j);
                        let oj = if j < i { j } else { j + 1 };
                        assert(e[j] == old_e[oj]);
                        let cj = choose|cj: int| 0 <= cj < old_e.len() && #[trigger] old_e[cj].0@ == key;
                        assert(cj == oj);
                    }
                    assert(m.dom() =~= om.dom());
                    assert(m =~= om);
                }
            },
            None => {
                assert(self@ =~= old(self)@.remove(k@));
            },
        }
    }
}

} // verus!
