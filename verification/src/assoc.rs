//! A small map from texts to values, kept as a list of distinct keys.

use vstd::prelude::*;

verus! {

/// The texts of a list of strings.
pub open spec fn texts(v: Seq<String>) -> Set<Seq<char>> {
    Set::new(|k: Seq<char>| exists|m: int| 0 <= m < v.len() && (#[trigger] v[m])@ == k)
}

/// The texts of a list of strings, in order.
pub open spec fn texts_seq(v: Seq<String>) -> Seq<Seq<char>> {
    v.map_values(|s: String| s@)
}

/// Copies of the texts of `v`.
pub fn copy_texts(v: &Vec<String>) -> (r: Vec<String>)
    ensures
        r@ == v@,
{
    let mut r: Vec<String> = Vec::new();
    let mut i: usize = 0;
    while i < v.len()
        invariant
            i <= v@.len(),
            r@ == v@.subrange(0, i as int),
        decreases v.len() - i,
    {
        r.push(v[i].clone());
        proof {
            assert(r@ =~= v@.subrange(0, i + 1));
        }
        i = i + 1;
    }
    proof {
        assert(v@.subrange(0, v@.len() as int) =~= v@);
    }
    r
}

/// A map from texts to copyable values, one entry per key.
#[derive(Debug)]
pub struct Assoc<V> {
    entries: Vec<(String, V)>,
}

impl<V> Assoc<V> {
    /// No two entries share a key.
    #[verifier::type_invariant]
    spec fn distinct_keys(self) -> bool {
        forall|i: int, j: int|
            0 <= i < self.entries@.len() && 0 <= j < self.entries@.len() && i != j ==> (
            #[trigger] self.entries@[i]).0@ != (#[trigger] self.entries@[j]).0@
    }

    /// Whether entry `i` holds key `k`.
    spec fn holds(self, i: int, k: Seq<char>) -> bool {
        0 <= i < self.entries@.len() && self.entries@[i].0@ == k
    }

    /// The map the entries stand for.
    pub closed spec fn view(&self) -> Map<Seq<char>, V> {
        Map::new(
            |k: Seq<char>| exists|i: int| self.holds(i, k),
            |k: Seq<char>| self.entries@[choose|i: int| self.holds(i, k)].1,
        )
    }
}

impl<V: Copy> Assoc<V> {
    proof fn lemma_at(&self, i: int)
        requires
            0 <= i < self.entries@.len(),
            self.distinct_keys(),
        ensures
            self.view().contains_key(self.entries@[i].0@),
            self.view()[self.entries@[i].0@] == self.entries@[i].1,
    {
        let k = self.entries@[i].0@;
        assert(self.holds(i, k));
        let j = choose|j: int| self.holds(j, k);
        assert(self.holds(j, k));
        if j != i {
            assert(self.entries@[i].0@ != self.entries@[j].0@);
        }
    }

    /// An empty map.
    pub fn new() -> (m: Assoc<V>)
        ensures
            m.view() == Map::<Seq<char>, V>::empty(),
    {
        let m = Assoc { entries: Vec::new() };
        assert(m.view() =~= Map::<Seq<char>, V>::empty());
        m
    }

    /// The index of key `k`, if present.
    fn find(&self, k: &str) -> (r: Option<usize>)
        ensures
            match r {
                Some(i) => self.holds(i as int, k@),
                None => forall|i: int| 0 <= i < self.entries@.len() ==> !#[trigger] self.holds(i, k@),
            },
    {
        let mut i: usize = 0;
        while i < self.entries.len()
            invariant
                i <= self.entries@.len(),
                forall|j: int| 0 <= j < i ==> !#[trigger] self.holds(j, k@),
            decreases self.entries.len() - i,
        {
            if crate::text::str_is(self.entries[i].0.as_str(), k) {
                return Some(i);
            }
            i = i + 1;
        }
        None
    }

    /// The value of key `k`.
    pub fn get(&self, k: &str) -> (r: Option<V>)
        ensures
            r == self.view().get(k@),
    {
        proof {
            use_type_invariant(self);
        }
        match self.find(k) {
            Some(i) => {
                proof {
                    self.lemma_at(i as int);
                }
                Some(self.entries[i].1)
            },
            None => {
                assert(!self.view().contains_key(k@));
                None
            },
        }
    }

    /// Sets key `k` to `v`.
    pub fn insert(&mut self, k: String, v: V)
        ensures
            final(self).view() == old(self).view().insert(k@, v),
    {
        proof {
            use_type_invariant(&*self);
        }
        let ghost old_self = *self;
        match self.find(k.as_str()) {
            Some(i) => {
                let ghost kk = k@;
                let mut entries: Vec<(String, V)> = Vec::new();
                std::mem::swap(&mut entries, &mut self.entries);
                entries.set(i, (k, v));
                proof {
                    assert forall|a: int, b: int|
                        0 <= a < entries@.len() && 0 <= b < entries@.len() && a != b implies (
                        #[trigger] entries@[a]).0@ != (#[trigger] entries@[b]).0@ by {
                        if a != i && b != i {
                            assert(old_self.entries@[a] == entries@[a]);
                            assert(old_self.entries@[b] == entries@[b]);
                        } else if a == i {
                            assert(old_self.entries@[b] == entries@[b]);
                            assert(old_self.entries@[i as int].0@ == kk);
                        } else {
                            assert(old_self.entries@[a] == entries@[a]);
                            assert(old_self.entries@[i as int].0@ == kk);
                        }
                    }
                }
                self.entries = entries;
                proof {
                    self.lemma_view_update(old_self, i as int, kk, v);
                }
            },
            None => {
                let ghost kk = k@;
                let mut entries: Vec<(String, V)> = Vec::new();
                std::mem::swap(&mut entries, &mut self.entries);
                entries.push((k, v));
                proof {
                    let n = old_self.entries@.len() as int;
                    assert forall|a: int, b: int|
                        0 <= a < entries@.len() && 0 <= b < entries@.len() && a != b implies (
                        #[trigger] entries@[a]).0@ != (#[trigger] entries@[b]).0@ by {
                        if a < n && b < n {
                            assert(old_self.entries@[a] == entries@[a]);
                            assert(old_self.entries@[b] == entries@[b]);
                        } else if a == n {
                            assert(old_self.entries@[b] == entries@[b]);
                            assert(!old_self.holds(b, kk));
                        } else {
                            assert(old_self.entries@[a] == entries@[a]);
                            assert(!old_self.holds(a, kk));
                        }
                    }
                }
                self.entries = entries;
                proof {
                    self.lemma_view_push(old_self, kk, v);
                }
            },
        }
    }

    proof fn lemma_view_update(self, old_self: Assoc<V>, i: int, k: Seq<char>, v: V)
        requires
            old_self.distinct_keys(),
            self.distinct_keys(),
            0 <= i < old_self.entries@.len(),
            old_self.entries@[i].0@ == k,
            self.entries@.len() == old_self.entries@.len(),
            self.entries@[i].0@ == k,
            self.entries@[i].1 == v,
            forall|j: int| 0 <= j < self.entries@.len() && j != i ==> self.entries@[j] == old_self.entries@[j],
        ensures
            self.view() == old_self.view().insert(k, v),
    {
        assert forall|key: Seq<char>| #[trigger] self.view().contains_key(key) <==> old_self.view().insert(k, v).contains_key(key) by {
            if self.view().contains_key(key) {
                let j = choose|j: int| self.holds(j, key);
                if j != i {
                    assert(old_self.holds(j, key));
                }
            }
            if old_self.view().contains_key(key) {
                let j = choose|j: int| old_self.holds(j, key);
                if j != i {
                    assert(self.holds(j, key));
                } else {
                    assert(self.holds(i, key));
                }
            }
            if key == k {
                assert(self.holds(i, key));
            }
        }
        assert forall|key: Seq<char>| #[trigger] self.view().contains_key(key) implies self.view()[key] == old_self.view().insert(k, v)[key] by {
            let j = choose|j: int| self.holds(j, key);
            self.lemma_at(j);
            if j != i {
                old_self.lemma_at(j);
            }
        }
        assert(self.view() =~= old_self.view().insert(k, v));
    }

    proof fn lemma_view_push(self, old_self: Assoc<V>, k: Seq<char>, v: V)
        requires
            old_self.distinct_keys(),
            self.distinct_keys(),
            self.entries@ == old_self.entries@.push((self.entries@.last().0, v)),
            self.entries@.last().0@ == k,
        ensures
            self.view() == old_self.view().insert(k, v),
    {
        let n = old_self.entries@.len() as int;
        assert forall|key: Seq<char>| #[trigger] self.view().contains_key(key) <==> old_self.view().insert(k, v).contains_key(key) by {
            if self.view().contains_key(key) {
                let j = choose|j: int| self.holds(j, key);
                if j != n {
                    assert(old_self.holds(j, key));
                }
            }
            if old_self.view().contains_key(key) {
                let j = choose|j: int| old_self.holds(j, key);
                assert(self.holds(j, key));
            }
            if key == k {
                assert(self.holds(n, key));
            }
        }
        assert forall|key: Seq<char>| #[trigger] self.view().contains_key(key) implies self.view()[key] == old_self.view().insert(k, v)[key] by {
            let j = choose|j: int| self.holds(j, key);
            self.lemma_at(j);
            if j != n {
                old_self.lemma_at(j);
            }
        }
        assert(self.view() =~= old_self.view().insert(k, v));
    }


    /// Keeps only the keys in `keep`.
    pub fn retain(&mut self, keep: &Vec<String>)
        ensures
            final(self).view() == old(self).view().restrict(texts(keep@)),
    {
        proof {
            use_type_invariant(&*self);
        }
        let ghost old_self = *self;
        let mut entries: Vec<(String, V)> = Vec::new();
        std::mem::swap(&mut entries, &mut self.entries);
        let ghost old_e = entries@;
        let mut out: Vec<(String, V)> = Vec::new();
        let ghost mut idx: Seq<int> = Seq::empty();
        let mut i: usize = 0;
        while i < entries.len()
            invariant
                i <= entries@.len(),
                entries@ == old_e,
                old_e == old_self.entries@,
                old_self.distinct_keys(),
                idx.len() == out@.len(),
                forall|j: int| 0 <= j < idx.len() ==> 0 <= #[trigger] idx[j] < i && out@[j] == old_e[idx[j]],
                forall|a: int, b: int| 0 <= a < b < idx.len() ==> idx[a] < idx[b],
                forall|j: int| 0 <= j < out@.len() ==> texts(keep@).contains((#[trigger] out@[j]).0@),
                forall|o: int|
                    0 <= o < i && texts(keep@).contains(old_e[o].0@) ==> exists|j: int|
                        0 <= j < idx.len() && #[trigger] idx[j] == o,
            decreases entries.len() - i,
        {
            let mut wanted = false;
            let mut k: usize = 0;
            while k < keep.len()
                invariant
                    k <= keep@.len(),
                    i < entries@.len(),
                    wanted == exists|m: int| 0 <= m < k && (#[trigger] keep@[m])@ == entries@[i as int].0@,
                decreases keep.len() - k,
            {
                if keep[k].eq(&entries[i].0) {
                    wanted = true;
                }
                k = k + 1;
            }
            let ghost idx_before = idx;
            if wanted {
                let key = entries[i].0.clone();
                let val = entries[i].1;
                out.push((key, val));
                proof {
                    idx = idx.push(i as int);
                }
            }
            proof {
                assert forall|o: int|
                    0 <= o < i + 1 && texts(keep@).contains(old_e[o].0@) implies exists|j: int|
                        0 <= j < idx.len() && #[trigger] idx[j] == o by {
                    if o == i {
                        let m = choose|m: int| 0 <= m < keep@.len() && keep@[m]@ == old_e[o].0@;
                        assert(keep@[m]@ == entries@[i as int].0@);
                        assert(idx[idx.len() - 1] == o);
                    } else {
                        let j = choose|j: int| 0 <= j < idx_before.len() && #[trigger] idx_before[j] == o;
                        assert(idx[j] == idx_before[j]);
                    }
                }
            }
            i = i + 1;
        }
        proof {
            assert forall|a: int, b: int|
                0 <= a < out@.len() && 0 <= b < out@.len() && a != b implies (
                #[trigger] out@[a]).0@ != (#[trigger] out@[b]).0@ by {
                assert(idx[a] != idx[b]);
            }
        }
        self.entries = out;
        proof {
            let t = texts(keep@);
            assert forall|key: Seq<char>| #[trigger] self.view().contains_key(key) <==> old_self.view().restrict(t).contains_key(key) by {
                if self.view().contains_key(key) {
                    let j = choose|j: int| self.holds(j, key);
                    assert(old_self.holds(idx[j], key));
                }
                if old_self.view().restrict(t).contains_key(key) {
                    let o = choose|o: int| old_self.holds(o, key);
                    let j = choose|j: int| 0 <= j < idx.len() && #[trigger] idx[j] == o;
                    assert(self.holds(j, key));
                }
            }
            assert forall|key: Seq<char>| #[trigger] self.view().contains_key(key) implies self.view()[key] == old_self.view()[key] by {
                let j = choose|j: int| self.holds(j, key);
                self.lemma_at(j);
                old_self.lemma_at(idx[j]);
            }
            assert(self.view() =~= old_self.view().restrict(t));
        }
    }

    /// Removes key `k`.
    pub fn remove(&mut self, k: &str)
        ensures
            final(self).view() == old(self).view().remove(k@),
    {
        proof {
            use_type_invariant(&*self);
        }
        let ghost old_self = *self;
        match self.find(k) {
            Some(i) => {
                let mut entries: Vec<(String, V)> = Vec::new();
                std::mem::swap(&mut entries, &mut self.entries);
                let _ = entries.remove(i);
                proof {
                    assert forall|j: int| 0 <= j < entries@.len() implies #[trigger] entries@[j]
                        == old_self.entries@[if j < i { j } else { j + 1 }] by {}
                    assert forall|a: int, b: int|
                        0 <= a < entries@.len() && 0 <= b < entries@.len() && a != b implies (
                        #[trigger] entries@[a]).0@ != (#[trigger] entries@[b]).0@ by {
                        let oa = if a < i { a } else { a + 1 };
                        let ob = if b < i { b } else { b + 1 };
                        assert(entries@[a] == old_self.entries@[oa]);
                        assert(entries@[b] == old_self.entries@[ob]);
                    }
                }
                self.entries = entries;
                proof {
                    assert forall|key: Seq<char>| #[trigger] self.view().contains_key(key) <==> old_self.view().remove(k@).contains_key(key) by {
                        if self.view().contains_key(key) {
                            let j = choose|j: int| self.holds(j, key);
                            let oj = if j < i { j } else { j + 1 };
                            assert(self.entries@[j] == old_self.entries@[oj]);
                            assert(old_self.holds(oj, key));
                            assert(oj != i);
                        }
                        if old_self.view().remove(k@).contains_key(key) {
                            let j = choose|j: int| old_self.holds(j, key);
                            assert(j != i);
                            let nj = if j < i { j } else { j - 1 };
                            assert(self.entries@[nj] == old_self.entries@[j]);
                            assert(self.holds(nj, key));
                        }
                    }
                    assert forall|key: Seq<char>| #[trigger] self.view().contains_key(key) implies self.view()[key] == old_self.view()[key] by {
                        let j = choose|j: int| self.holds(j, key);
                        let oj = if j < i { j } else { j + 1 };
                        assert(self.entries@[j] == old_self.entries@[oj]);
                        self.lemma_at(j);
                        old_self.lemma_at(oj);
                    }
                    assert(self.view() =~= old_self.view().remove(k@));
                }
            },
            None => {
                assert(self.view() =~= old_self.view().remove(k@));
            },
        }
    }
}

} // verus!
