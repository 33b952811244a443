use vstd::prelude::*;

verus! {

use vstd::utf8::encode_utf8_decode_utf8;
use vstd::string::StringSliceAdditionalSpecFns;
use vstd::map::*;

/// Byte-for-byte equality of two slices.
pub fn bytes_eq(a: &[u8], b: &[u8]) -> (r: bool)
    ensures
        r == (a@ == b@),
{
    if a.len() != b.len() {
        assert(a@.len() != b@.len());
        return false;
    }
    let mut i: usize = 0;
    while i < a.len()
        invariant
            a@.len() == b@.len(),
            i <= a@.len(),
            forall|j: int| 0 <= j < i ==> a@[j] == b@[j],
        decreases a@.len() - i,
    {
        if a[i] != b[i] {
            return false;
        }
        i = i + 1;
    }
    proof {
        assert(a@ =~= b@);
    }
    true
}

/// Equality of two strings, decided on their UTF-8 bytes.
pub fn str_eq(a: &str, b: &str) -> (r: bool)
    ensures
        r == (a@ == b@),
{
    let r = bytes_eq(a.as_bytes(), b.as_bytes());
    proof {
        encode_utf8_decode_utf8(a@);
        encode_utf8_decode_utf8(b@);
    }
    r
}

/// A map from path or encoding names to values, kept as a vector of entries
/// with pairwise distinct keys. Entry order is the insertion order, which
/// fixes the order of listings.
pub struct Table<V> {
    pub entries: Vec<(String, V)>,
}

impl<V> Table<V> {
    /// Keys are pairwise distinct.
    pub open spec fn wf(self) -> bool {
        forall|i: int, j: int|
            0 <= i < j < self.entries@.len() ==> self.entries@[i].0@ != self.entries@[j].0@
    }

    pub open spec fn contains(self, k: Seq<char>) -> bool {
        exists|i: int| 0 <= i < self.entries@.len() && self.entries@[i].0@ == k
    }

    pub open spec fn idx_of(self, k: Seq<char>) -> int {
        choose|i: int| 0 <= i < self.entries@.len() && self.entries@[i].0@ == k
    }

    /// An entry's key and value are visible through the map view.
    pub proof fn lemma_entry_in_view(self, i: int)
        requires
            self.wf(),
            0 <= i < self.entries@.len(),
        ensures
            self@.contains_key(self.entries@[i].0@),
            self@[self.entries@[i].0@] == self.entries@[i].1,
    {
        let k = self.entries@[i].0@;
        assert(self.contains(k));
        let j = self.idx_of(k);
        assert(0 <= j < self.entries@.len() && self.entries@[j].0@ == k);
        if i != j {
            assert(false);
        }
    }

    pub fn new() -> (r: Table<V>)
        ensures
            r@ == Map::<Seq<char>, V>::empty(),
            r.wf(),
            r.entries@.len() == 0,
    {
        let r = Table { entries: Vec::new() };
        proof {
            assert(r@ =~= Map::<Seq<char>, V>::empty());
        }
        r
    }

    pub fn len(&self) -> (n: usize)
        ensures
            n == self.entries@.len(),
    {
        self.entries.len()
    }

    pub fn key_at(&self, i: usize) -> (r: &String)
        requires
            i < self.entries@.len(),
        ensures
            r@ == self.entries@[i as int].0@,
    {
        &self.entries[i].0
    }

    pub fn val_at(&self, i: usize) -> (r: &V)
        requires
            i < self.entries@.len(),
        ensures
            *r == self.entries@[i as int].1,
    {
        &self.entries[i].1
    }

    pub fn get(&self, k: &str) -> (r: Option<&V>)
        requires
            self.wf(),
        ensures
            (match r {
                Some(v) => self@.contains_key(k@) && *v == self@[k@],
                None => !self@.contains_key(k@),
            }),
    {
        let mut i: usize = 0;
        while i < self.entries.len()
            invariant
                self.wf(),
                i <= self.entries@.len(),
                forall|j: int| 0 <= j < i ==> self.entries@[j].0@ != k@,
            decreases self.entries@.len() - i,
        {
            if str_eq(self.entries[i].0.as_str(), k) {
                proof {
                    self.lemma_entry_in_view(i as int);
                }
                return Some(&self.entries[i].1);
            }
            i = i + 1;
        }
        assert(!self.contains(k@));
        None
    }

    pub fn contains_key(&self, k: &str) -> (r: bool)
        requires
            self.wf(),
        ensures
            r == self@.contains_key(k@),
    {
        let g = self.get(k);
        g.is_some()
    }

    /// Index of the entry holding `k`, if any.
    fn find(&self, k: &str) -> (r: Option<usize>)
        requires
            self.wf(),
        ensures
            (match r {
                Some(i) => i < self.entries@.len() && self.entries@[i as int].0@ == k@,
                None => !self.contains(k@),
            }),
    {
        let mut i: usize = 0;
        while i < self.entries.len()
            invariant
                i <= self.entries@.len(),
                forall|j: int| 0 <= j < i ==> self.entries@[j].0@ != k@,
            decreases self.entries@.len() - i,
        {
            if str_eq(self.entries[i].0.as_str(), k) {
                return Some(i);
            }
            i = i + 1;
        }
        None
    }

    pub fn insert(&mut self, k: String, v: V)
        requires
            old(self).wf(),
        ensures
            final(self)@ == old(self)@.insert(k@, v),
            final(self).wf(),
            final(self).entries@.len() == old(self).entries@.len() + (if old(self).contains(k@) {
                0int
            } else {
                1int
            }),
            (!old(self).contains(k@) ==> final(self).entries@ == old(self).entries@.push((k, v))),
    {
        let found = self.find(k.as_str());
        match found {
            Some(i) => {
                let ghost olds = *self;
                self.entries.set(i, (k, v));
                proof {
                    assert forall|i2: int, j2: int|
                        0 <= i2 < j2 < self.entries@.len() implies self.entries@[i2].0@
                        != self.entries@[j2].0@ by {
                        assert(olds.entries@[i2].0@ != olds.entries@[j2].0@);
                    }
                    let m1 = self@;
                    let m2 = old(self)@.insert(k@, v);
                    assert_maps_equal!(m1, m2, k2 => {
                        if k2 == k@ {
                            assert(self.entries@[i as int].0@ == k@);
                            assert(self.contains(k2));
                            let j = self.idx_of(k2);
                            if j != i as int {
                                assert(self.entries@[j].0@ == k@);
                                assert(false);
                            }
                            assert(olds.entries@[i as int].0@ == k@);
                            assert(olds.contains(k2));
                        } else {
                            if self.contains(k2) {
                                let j = self.idx_of(k2);
                                assert(self.entries@[j].0@ == k2);
                                assert(j != i as int);
                                assert(olds.entries@[j].0@ == k2);
                                assert(olds.contains(k2));
                                olds.lemma_entry_in_view(j);
                            }
                            if olds.contains(k2) {
                                let j = choose|j: int|
                                    0 <= j < olds.entries@.len() && olds.entries@[j].0@ == k2;
                                assert(j != i as int);
                                assert(self.entries@[j].0@ == k2);
                                assert(self.contains(k2));
                                let j2 = self.idx_of(k2);
                                if j2 != j {
                                    assert(false);
                                }
                                olds.lemma_entry_in_view(j);
                            }
                        }
                    });
                }
            },
            None => {
                let ghost olds = *self;
                self.entries.push((k, v));
                proof {
                    let n = olds.entries@.len() as int;
                    assert(self.entries@ == olds.entries@.push((k, v)));
                    assert forall|i2: int, j2: int|
                        0 <= i2 < j2 < self.entries@.len() implies self.entries@[i2].0@
                        != self.entries@[j2].0@ by {
                        if j2 < n {
                            assert(olds.entries@[i2].0@ != olds.entries@[j2].0@);
                        } else {
                            assert(self.entries@[j2].0@ == k@);
                            assert(self.entries@[i2] == olds.entries@[i2]);
                        }
                    }
                    assert forall|k2: Seq<char>| self.contains(k2) <==> (olds.contains(k2) || k2
                        == k@) by {
                        if self.contains(k2) {
                            let j = self.idx_of(k2);
                            if j < n {
                                assert(olds.entries@[j].0@ == k2);
                            }
                        }
                        if olds.contains(k2) {
                            let j = choose|j: int|
                                0 <= j < olds.entries@.len() && olds.entries@[j].0@ == k2;
                            assert(self.entries@[j].0@ == k2);
                        }
                        if k2 == k@ {
                            assert(self.entries@[n].0@ == k2);
                        }
                    }
                    assert forall|k2: Seq<char>| #[trigger] self@.contains_key(k2) implies self@[k2]
                        == old(self)@.insert(k@, v)[k2] by {
                        let j = self.idx_of(k2);
                        if k2 == k@ {
                            if j != n {
                                assert(olds.entries@[j].0@ == k@);
                                assert(olds.contains(k@));
                                assert(false);
                            }
                        } else {
                            assert(j < n);
                            olds.lemma_entry_in_view(j);
                        }
                    }
                    assert(self@ =~= old(self)@.insert(k@, v));
                }
            },
        }
    }

    pub fn remove(&mut self, k: &str) -> (r: Option<V>)
        requires
            old(self).wf(),
        ensures
            final(self)@ == old(self)@.remove(k@),
            final(self).wf(),
            (match r {
                Some(v) => old(self)@.contains_key(k@) && v == old(self)@[k@],
                None => !old(self)@.contains_key(k@),
            }),
            final(self).entries@.len() == old(self).entries@.len() - (if old(self).contains(k@) {
                1int
            } else {
                0int
            }),
            (!old(self).contains(k@) ==> final(self).entries@ == old(self).entries@),
    {
        let found = self.find(k);
        match found {
            Some(i) => {
                let ghost olds = *self;
                let (_, v) = self.entries.remove(i);
                proof {
                    let n = olds.entries@.len() as int;
                    olds.lemma_entry_in_view(i as int);
                    assert(self.entries@ == olds.entries@.remove(i as int));
                    assert forall|i2: int, j2: int|
                        0 <= i2 < j2 < self.entries@.len() implies self.entries@[i2].0@
                        != self.entries@[j2].0@ by {
                        let oi = if i2 < i { i2 } else { i2 + 1 };
                        let oj = if j2 < i { j2 } else { j2 + 1 };
                        assert(self.entries@[i2] == olds.entries@[oi]);
                        assert(self.entries@[j2] == olds.entries@[oj]);
                    }
                    assert forall|k2: Seq<char>| self.contains(k2) <==> (olds.contains(k2) && k2
                        != k@) by {
                        if self.contains(k2) {
                            let j = self.idx_of(k2);
                            let oj = if j < i { j } else { j + 1 };
                            assert(olds.entries@[oj].0@ == k2);
                            if k2 == k@ {
                                assert(oj != i);
                                assert(olds.entries@[i as int].0@ == k@);
                                assert(false);
                            }
                        }
                        if olds.contains(k2) && k2 != k@ {
                            let j = choose|j: int|
                                0 <= j < olds.entries@.len() && olds.entries@[j].0@ == k2;
                            assert(j != i);
                            if j < i {
                                assert(self.entries@[j].0@ == k2);
                            } else {
                                assert(self.entries@[j - 1].0@ == k2);
                            }
                        }
                    }
                    assert forall|k2: Seq<char>| #[trigger] self@.contains_key(k2) implies self@[k2]
                        == old(self)@.remove(k@)[k2] by {
                        let j = self.idx_of(k2);
                        let oj = if j < i { j } else { j + 1 };
                        assert(self.entries@[j] == olds.entries@[oj]);
                        olds.lemma_entry_in_view(oj);
                    }
                    assert(self@ =~= old(self)@.remove(k@));
                }
                Some(v)
            },
            None => {
                proof {
                    assert(self@ =~= old(self)@.remove(k@));
                }
                None
            },
        }
    }

    pub fn clear(&mut self)
        ensures
            final(self)@ == Map::<Seq<char>, V>::empty(),
            final(self).wf(),
            final(self).entries@.len() == 0,
    {
        self.entries.clear();
        proof {
            assert(self@ =~= Map::<Seq<char>, V>::empty());
        }
    }
}

impl<V> View for Table<V> {
    type V = Map<Seq<char>, V>;

    open spec fn view(&self) -> Map<Seq<char>, V> {
        Map::new(
            |k: Seq<char>| self.contains(k),
            |k: Seq<char>| self.entries@[self.idx_of(k)].1,
        )
    }
}

/// A map from numeric identifiers (batch and chunk ids) to values, kept as a
/// vector of entries with pairwise distinct keys.
pub struct IdTable<V> {
    pub entries: Vec<(u64, V)>,
}

impl<V> IdTable<V> {
    pub open spec fn wf(self) -> bool {
        forall|i: int, j: int|
            0 <= i < j < self.entries@.len() ==> self.entries@[i].0 != self.entries@[j].0
    }

    pub open spec fn contains(self, k: u64) -> bool {
        exists|i: int| 0 <= i < self.entries@.len() && self.entries@[i].0 == k
    }

    pub open spec fn idx_of(self, k: u64) -> int {
        choose|i: int| 0 <= i < self.entries@.len() && self.entries@[i].0 == k
    }

    pub proof fn lemma_entry_in_view(self, i: int)
        requires
            self.wf(),
            0 <= i < self.entries@.len(),
        ensures
            self@.contains_key(self.entries@[i].0),
            self@[self.entries@[i].0] == self.entries@[i].1,
    {
        let k = self.entries@[i].0;
        assert(self.contains(k));
        let j = self.idx_of(k);
        assert(0 <= j < self.entries@.len() && self.entries@[j].0 == k);
        if i != j {
            assert(false);
        }
    }

    pub fn new() -> (r: IdTable<V>)
        ensures
            r@ == Map::<u64, V>::empty(),
            r.wf(),
            r.entries@.len() == 0,
    {
        let r = IdTable { entries: Vec::new() };
        proof {
            assert(r@ =~= Map::<u64, V>::empty());
        }
        r
    }

    pub fn len(&self) -> (n: usize)
        ensures
            n == self.entries@.len(),
    {
        self.entries.len()
    }

    pub fn key_at(&self, i: usize) -> (r: u64)
        requires
            i < self.entries@.len(),
        ensures
            r == self.entries@[i as int].0,
    {
        self.entries[i].0
    }

    pub fn val_at(&self, i: usize) -> (r: &V)
        requires
            i < self.entries@.len(),
        ensures
            *r == self.entries@[i as int].1,
    {
        &self.entries[i].1
    }

    fn find(&self, k: u64) -> (r: Option<usize>)
        requires
            self.wf(),
        ensures
            (match r {
                Some(i) => i < self.entries@.len() && self.entries@[i as int].0 == k,
                None => !self.contains(k),
            }),
    {
        let mut i: usize = 0;
        while i < self.entries.len()
            invariant
                i <= self.entries@.len(),
                forall|j: int| 0 <= j < i ==> self.entries@[j].0 != k,
            decreases self.entries@.len() - i,
        {
            if self.entries[i].0 == k {
                return Some(i);
            }
            i = i + 1;
        }
        None
    }

    pub fn get(&self, k: u64) -> (r: Option<&V>)
        requires
            self.wf(),
        ensures
            (match r {
                Some(v) => self@.contains_key(k) && *v == self@[k],
                None => !self@.contains_key(k),
            }),
    {
        let found = self.find(k);
        match found {
            Some(i) => {
                proof {
                    self.lemma_entry_in_view(i as int);
                }
                Some(&self.entries[i].1)
            },
            None => {
                assert(!self.contains(k));
                None
            },
        }
    }

    pub fn insert(&mut self, k: u64, v: V)
        requires
            old(self).wf(),
        ensures
            final(self)@ == old(self)@.insert(k, v),
            final(self).wf(),
            final(self).entries@.len() == old(self).entries@.len() + (if old(self).contains(k) {
                0int
            } else {
                1int
            }),
    {
        let found = self.find(k);
        match found {
            Some(i) => {
                let ghost olds = *self;
                self.entries.set(i, (k, v));
                proof {
                    assert forall|i2: int, j2: int|
                        0 <= i2 < j2 < self.entries@.len() implies self.entries@[i2].0
                        != self.entries@[j2].0 by {
                        assert(olds.entries@[i2].0 != olds.entries@[j2].0);
                    }
                    let m1 = self@;
                    let m2 = old(self)@.insert(k, v);
                    assert_maps_equal!(m1, m2, k2 => {
                        if k2 == k {
                            assert(self.entries@[i as int].0 == k);
                            assert(self.contains(k2));
                            let j = self.idx_of(k2);
                            if j != i as int {
                                assert(self.entries@[j].0 == k);
                                assert(false);
                            }
                            assert(olds.entries@[i as int].0 == k);
                            assert(olds.contains(k2));
                        } else {
                            if self.contains(k2) {
                                let j = self.idx_of(k2);
                                assert(self.entries@[j].0 == k2);
                                assert(j != i as int);
                                assert(olds.entries@[j].0 == k2);
                                assert(olds.contains(k2));
                                olds.lemma_entry_in_view(j);
                            }
                            if olds.contains(k2) {
                                let j = choose|j: int|
                                    0 <= j < olds.entries@.len() && olds.entries@[j].0 == k2;
                                assert(j != i as int);
                                assert(self.entries@[j].0 == k2);
                                assert(self.contains(k2));
                                let j2 = self.idx_of(k2);
                                if j2 != j {
                                    assert(false);
                                }
                                olds.lemma_entry_in_view(j);
                            }
                        }
                    });
                }
            },
            None => {
                let ghost olds = *self;
                self.entries.push((k, v));
                proof {
                    let n = olds.entries@.len() as int;
                    assert forall|i2: int, j2: int|
                        0 <= i2 < j2 < self.entries@.len() implies self.entries@[i2].0
                        != self.entries@[j2].0 by {
                        if j2 < n {
                            assert(olds.entries@[i2].0 != olds.entries@[j2].0);
                        } else {
                            assert(self.entries@[j2].0 == k);
                            assert(self.entries@[i2] == olds.entries@[i2]);
                        }
                    }
                    assert forall|k2: u64| self.contains(k2) <==> (olds.contains(k2) || k2
                        == k) by {
                        if self.contains(k2) {
                            let j = self.idx_of(k2);
                            if j < n {
                                assert(olds.entries@[j].0 == k2);
                            }
                        }
                        if olds.contains(k2) {
                            let j = choose|j: int|
                                0 <= j < olds.entries@.len() && olds.entries@[j].0 == k2;
                            assert(self.entries@[j].0 == k2);
                        }
                        if k2 == k {
                            assert(self.entries@[n].0 == k2);
                        }
                    }
                    assert forall|k2: u64| #[trigger] self@.contains_key(k2) implies self@[k2]
                        == old(self)@.insert(k, v)[k2] by {
                        let j = self.idx_of(k2);
                        if k2 == k {
                            if j != n {
                                assert(olds.entries@[j].0 == k);
                                assert(olds.contains(k));
                                assert(false);
                            }
                        } else {
                            assert(j < n);
                            olds.lemma_entry_in_view(j);
                        }
                    }
                    assert(self@ =~= old(self)@.insert(k, v));
                }
            },
        }
    }

    pub fn remove(&mut self, k: u64) -> (r: Option<V>)
        requires
            old(self).wf(),
        ensures
            final(self)@ == old(self)@.remove(k),
            final(self).wf(),
            (match r {
                Some(v) => old(self)@.contains_key(k) && v == old(self)@[k],
                None => !old(self)@.contains_key(k),
            }),
    {
        let found = self.find(k);
        match found {
            Some(i) => {
                let ghost olds = *self;
                let (_, v) = self.entries.remove(i);
                proof {
                    olds.lemma_entry_in_view(i as int);
                    assert forall|i2: int, j2: int|
                        0 <= i2 < j2 < self.entries@.len() implies self.entries@[i2].0
                        != self.entries@[j2].0 by {
                        let oi = if i2 < i { i2 } else { i2 + 1 };
                        let oj = if j2 < i { j2 } else { j2 + 1 };
                        assert(self.entries@[i2] == olds.entries@[oi]);
                        assert(self.entries@[j2] == olds.entries@[oj]);
                    }
                    assert forall|k2: u64| self.contains(k2) <==> (olds.contains(k2) && k2
                        != k) by {
                        if self.contains(k2) {
                            let j = self.idx_of(k2);
                            let oj = if j < i { j } else { j + 1 };
                            assert(olds.entries@[oj].0 == k2);
                            if k2 == k {
                                assert(olds.entries@[i as int].0 == k);
                                assert(false);
                            }
                        }
                        if olds.contains(k2) && k2 != k {
                            let j = choose|j: int|
                                0 <= j < olds.entries@.len() && olds.entries@[j].0 == k2;
                            assert(j != i);
                            if j < i {
                                assert(self.entries@[j].0 == k2);
                            } else {
                                assert(self.entries@[j - 1].0 == k2);
                            }
                        }
                    }
                    assert forall|k2: u64| #[trigger] self@.contains_key(k2) implies self@[k2]
                        == old(self)@.remove(k)[k2] by {
                        let j = self.idx_of(k2);
                        let oj = if j < i { j } else { j + 1 };
                        assert(self.entries@[j] == olds.entries@[oj]);
                        olds.lemma_entry_in_view(oj);
                    }
                    assert(self@ =~= old(self)@.remove(k));
                }
                Some(v)
            },
            None => {
                proof {
                    assert(self@ =~= old(self)@.remove(k));
                }
                None
            },
        }
    }

    pub fn clear(&mut self)
        ensures
            final(self)@ == Map::<u64, V>::empty(),
            final(self).wf(),
            final(self).entries@.len() == 0,
    {
        self.entries.clear();
        proof {
            assert(self@ =~= Map::<u64, V>::empty());
        }
    }
}

impl<V> View for IdTable<V> {
    type V = Map<u64, V>;

    open spec fn view(&self) -> Map<u64, V> {
        Map::new(|k: u64| self.contains(k), |k: u64| self.entries@[self.idx_of(k)].1)
    }
}

} // verus!
