//! Embedded sub-databases with byte-string keys, held in memory.

use vstd::prelude::*;
use crate::bytes::{bytes_eq, bytes_to_vec, lemma_lex_transitive, lex_le, lex_less, lex_lt};

verus! {

/// A sub-database that holds one value under each key.
#[derive(Debug)]
pub struct Database<V> {
    entries: Vec<(Vec<u8>, V)>,
}

impl<V> View for Database<V> {
    type V = Map<Seq<u8>, V>;

    closed spec fn view(&self) -> Map<Seq<u8>, V> {
        Map::new(
            |k: Seq<u8>| self.keys().contains(k),
            |k: Seq<u8>| self.entries@[self.keys().index_of(k)].1,
        )
    }
}

impl<V> Database<V> {
    /// The keys in the order in which they are held.
    pub closed spec fn keys(&self) -> Seq<Seq<u8>> {
        Seq::new(self.entries@.len(), |i: int| self.entries@[i].0@)
    }

    /// No key is held twice.
    pub closed spec fn wf(&self) -> bool {
        self.keys().no_duplicates()
    }

    /// `k` is a key of `m` and none of its keys sorts after it.
    pub open spec fn is_greatest(m: Map<Seq<u8>, V>, k: Seq<u8>) -> bool {
        &&& m.contains_key(k)
        &&& forall|other: Seq<u8>| m.contains_key(other) ==> lex_le(other, k)
    }

    /// `k` is a key of `m` and none of its keys sorts before it.
    pub open spec fn is_least(m: Map<Seq<u8>, V>, k: Seq<u8>) -> bool {
        &&& m.contains_key(k)
        &&& forall|other: Seq<u8>| m.contains_key(other) ==> lex_le(k, other)
    }

    proof fn lemma_view(&self)
        requires
            self.wf(),
        ensures
            self@.dom().finite(),
            self@.dom().len() == self.entries@.len(),
            forall|i: int|
                0 <= i < self.entries@.len() ==> #[trigger] self@.contains_key(self.keys()[i])
                    && self@[self.keys()[i]] == self.entries@[i].1,
            forall|k: Seq<u8>|
                self@.contains_key(k) ==> exists|i: int|
                    0 <= i < self.entries@.len() && #[trigger] self.keys()[i] == k,
    {
        let keys = self.keys();
        assert forall|i: int| 0 <= i < self.entries@.len() implies #[trigger] self@.contains_key(
            keys[i],
        ) && self@[keys[i]] == self.entries@[i].1 by {
            assert(keys.contains(keys[i]));
            let j = keys.index_of(keys[i]);
            assert(keys[j] == keys[i]);
        }
        assert forall|k: Seq<u8>| self@.contains_key(k) implies exists|i: int|
            0 <= i < self.entries@.len() && #[trigger] keys[i] == k by {
            assert(keys.contains(k));
        }
        keys.unique_seq_to_set();
        assert(self@.dom() =~= keys.to_set());
    }

    /// Tells whether no key is held twice.
    pub fn is_wf(&self) -> (r: bool)
        ensures
            r == self.wf(),
    {
        let mut i: usize = 0;
        while i < self.entries.len()
            invariant
                i <= self.entries@.len(),
                forall|a: int, b: int| 0 <= a < b < i ==> self.keys()[a] != self.keys()[b],
            decreases self.entries@.len() - i,
        {
            let mut k: usize = 0;
            while k < i
                invariant
                    k <= i < self.entries@.len(),
                    forall|a: int| 0 <= a < k ==> self.keys()[a] != self.keys()[i as int],
                decreases i - k,
            {
                if bytes_eq(self.entries[k].0.as_slice(), self.entries[i].0.as_slice()) {
                    assert(self.keys()[k as int] == self.keys()[i as int]);
                    return false;
                }
                k += 1;
            }
            i += 1;
        }
        true
    }

    /// An empty sub-database.
    pub fn new() -> (db: Database<V>)
        ensures
            db.wf(),
            db@ == Map::<Seq<u8>, V>::empty(),
    {
        let db = Database::<V> { entries: Vec::new() };
        assert(db@ =~= Map::<Seq<u8>, V>::empty());
        db
    }

    fn find(&self, key: &[u8]) -> (r: Option<usize>)
        ensures
            r matches Some(i) ==> i < self.entries@.len() && self.keys()[i as int] == key@,
            r.is_none() ==> !self.keys().contains(key@),
    {
        let mut i: usize = 0;
        while i < self.entries.len()
            invariant
                i <= self.entries@.len(),
                forall|j: int| 0 <= j < i ==> self.keys()[j] != key@,
            decreases self.entries@.len() - i,
        {
            if bytes_eq(self.entries[i].0.as_slice(), key) {
                return Some(i);
            }
            i += 1;
        }
        None
    }

    /// The value held under `key`.
    pub fn get(&self, key: &[u8]) -> (r: Option<&V>)
        requires
            self.wf(),
        ensures
            r == (if self@.contains_key(key@) {
                Some(&self@[key@])
            } else {
                None
            }),
    {
        proof {
            self.lemma_view();
        }
        match self.find(key) {
            Some(i) => {
                assert(self@.contains_key(self.keys()[i as int]));
                Some(&self.entries[i].1)
            },
            None => None,
        }
    }

    /// Puts `value` under `key`, in place of what was held there.
    pub fn put(&mut self, key: &[u8], value: V)
        requires
            old(self).wf(),
        ensures
            final(self).wf(),
            final(self)@ == old(self)@.insert(key@, value),
    {
        proof {
            self.lemma_view();
        }
        let ghost before = *self;
        let ghost pos: int;
        match self.find(key) {
            Some(i) => {
                self.entries.set(i, (bytes_to_vec(key), value));
                assert(self.keys() =~= before.keys());
                proof {
                    pos = i as int;
                }
            },
            None => {
                self.entries.push((bytes_to_vec(key), value));
                assert(self.keys() =~= before.keys().push(key@));
                proof {
                    pos = before.keys().len() as int;
                }
                assert forall|a: int, b: int|
                    0 <= a < self.keys().len() && 0 <= b < self.keys().len() && a != b
                        implies self.keys()[a]
                    != self.keys()[b] by {
                    if a < before.keys().len() {
                        assert(before.keys().contains(before.keys()[a]));
                    }
                    if b < before.keys().len() {
                        assert(before.keys().contains(before.keys()[b]));
                    }
                }
            },
        }
        proof {
            self.lemma_view();
            assert forall|k: Seq<u8>| #[trigger]
                self@.contains_key(k) == old(self)@.insert(key@, value).contains_key(k) by {
                if self@.contains_key(k) {
                    let i = choose|i: int| 0 <= i < self.entries@.len() && self.keys()[i] == k;
                    if k != key@ {
                        assert(before.keys()[i] == k);
                        assert(before@.contains_key(before.keys()[i]));
                    }
                }
                if before@.contains_key(k) {
                    let i = choose|i: int| 0 <= i < before.entries@.len() && before.keys()[i] == k;
                    assert(self.keys()[i] == k);
                    assert(self@.contains_key(self.keys()[i]));
                }
                if k == key@ {
                    assert(self@.contains_key(self.keys()[pos]));
                }
            }
            assert forall|k: Seq<u8>| self@.contains_key(k)
                implies #[trigger] self@[k] == old(self)@.insert(key@, value)[k] by {
                let i = choose|i: int| 0 <= i < self.entries@.len() && self.keys()[i] == k;
                assert(self@.contains_key(self.keys()[i]));
                if k != key@ {
                    assert(before.keys()[i] == k);
                    assert(before@.contains_key(before.keys()[i]));
                }
            }
            assert(self@ =~= old(self)@.insert(key@, value));
        }
    }

    /// Removes `key` and what is held under it; tells whether it was there.
    pub fn del(&mut self, key: &[u8]) -> (r: bool)
        requires
            old(self).wf(),
        ensures
            final(self).wf(),
            final(self)@ == old(self)@.remove(key@),
            r == old(self)@.contains_key(key@),
    {
        proof {
            self.lemma_view();
        }
        let ghost before = *self;
        match self.find(key) {
            Some(i) => {
                assert(before@.contains_key(before.keys()[i as int]));
                self.entries.remove(i);
                assert(self.keys() =~= before.keys().remove(i as int));
                assert forall|a: int, b: int|
                    0 <= a < self.keys().len() && 0 <= b < self.keys().len() && a != b
                        implies self.keys()[a]
                    != self.keys()[b] by {
                    let a2 = if a < i { a } else { a + 1 };
                    let b2 = if b < i { b } else { b + 1 };
                    assert(self.keys()[a] == before.keys()[a2]);
                    assert(self.keys()[b] == before.keys()[b2]);
                }
                proof {
                    self.lemma_view();
                    assert forall|k: Seq<u8>| #[trigger]
                        self@.contains_key(k) == before@.remove(key@).contains_key(k) by {
                        if self@.contains_key(k) {
                            let a = choose|a: int| 0 <= a < self.entries@.len()
                                && self.keys()[a] == k;
                            let a2 = if a < i { a } else { a + 1 };
                            assert(before.keys()[a2] == k);
                            assert(before@.contains_key(before.keys()[a2]));
                        }
                        if before@.contains_key(k) && k != key@ {
                            let a = choose|a: int|
                                0 <= a < before.entries@.len() && before.keys()[a] == k;
                            let a2 = if a < i { a } else { a - 1 };
                            assert(self.keys()[a2] == k);
                            assert(self@.contains_key(self.keys()[a2]));
                        }
                    }
                    assert forall|k: Seq<u8>| self@.contains_key(k) implies #[trigger] self@[k]
                        == before@.remove(key@)[k] by {
                        let a = choose|a: int| 0 <= a < self.entries@.len() && self.keys()[a] == k;
                        let a2 = if a < i { a } else { a + 1 };
                        assert(self@.contains_key(self.keys()[a]));
                        assert(before.keys()[a2] == k);
                        assert(before@.contains_key(before.keys()[a2]));
                    }
                    assert(self@ =~= before@.remove(key@));
                }
                true
            },
            None => {
                assert(!before@.contains_key(key@));
                assert(self@ =~= before@.remove(key@));
                false
            },
        }
    }

    /// The number of keys.
    pub fn len(&self) -> (r: usize)
        requires
            self.wf(),
        ensures
            self@.dom().finite(),
            r == self@.dom().len(),
    {
        proof {
            self.lemma_view();
        }
        self.entries.len()
    }

    /// The entry with the greatest key, as a cursor moved to the last
    /// position finds it.
    pub fn last(&self) -> (r: Option<(Vec<u8>, &V)>)
        requires
            self.wf(),
        ensures
            r.is_none() <==> self@ == Map::<Seq<u8>, V>::empty(),
            r matches Some(e) ==> Self::is_greatest(self@, e.0@) && *e.1 == self@[e.0@],
    {
        proof {
            self.lemma_view();
        }
        if self.entries.len() == 0 {
            assert(self@ =~= Map::<Seq<u8>, V>::empty());
            return None;
        }
        let mut best: usize = 0;
        let mut i: usize = 1;
        while i < self.entries.len()
            invariant
                best < i <= self.entries@.len(),
                forall|j: int| 0 <= j < i
                    ==> lex_le(#[trigger] self.keys()[j], self.keys()[best as int]),
            decreases self.entries@.len() - i,
        {
            if lex_less(self.entries[best].0.as_slice(), self.entries[i].0.as_slice()) {
                proof {
                    let nb = self.keys()[i as int];
                    let ob = self.keys()[best as int];
                    assert forall|j: int| 0 <= j < i + 1 implies lex_le(
                        #[trigger] self.keys()[j],
                        nb,
                    ) by {
                        if lex_lt(nb, self.keys()[j]) {
                            lemma_lex_transitive(ob, nb, self.keys()[j]);
                        }
                    }
                }
                best = i;
            } else {
                proof {
                    crate::bytes::lemma_lex_irreflexive(self.keys()[best as int]);
                }
            }
            i += 1;
        }
        proof {
            assert(self@.contains_key(self.keys()[best as int]));
            assert(self@ != Map::<Seq<u8>, V>::empty());
        }
        Some((bytes_to_vec(self.entries[best].0.as_slice()), &self.entries[best].1))
    }

    /// The entry with the least key, as a cursor moved to the first position
    /// finds it.
    pub fn first(&self) -> (r: Option<(Vec<u8>, &V)>)
        requires
            self.wf(),
        ensures
            r.is_none() <==> self@ == Map::<Seq<u8>, V>::empty(),
            r matches Some(e) ==> Self::is_least(self@, e.0@) && *e.1 == self@[e.0@],
    {
        proof {
            self.lemma_view();
        }
        if self.entries.len() == 0 {
            assert(self@ =~= Map::<Seq<u8>, V>::empty());
            return None;
        }
        let mut best: usize = 0;
        let mut i: usize = 1;
        while i < self.entries.len()
            invariant
                best < i <= self.entries@.len(),
                forall|j: int| 0 <= j < i
                    ==> lex_le(self.keys()[best as int], #[trigger] self.keys()[j]),
            decreases self.entries@.len() - i,
        {
            if lex_less(self.entries[i].0.as_slice(), self.entries[best].0.as_slice()) {
                proof {
                    let nb = self.keys()[i as int];
                    let ob = self.keys()[best as int];
                    assert forall|j: int| 0 <= j < i + 1 implies lex_le(
                        nb,
                        #[trigger] self.keys()[j],
                    ) by {
                        if lex_lt(self.keys()[j], nb) {
                            lemma_lex_transitive(self.keys()[j], nb, ob);
                        }
                    }
                }
                best = i;
            } else {
                proof {
                    crate::bytes::lemma_lex_irreflexive(self.keys()[best as int]);
                }
            }
            i += 1;
        }
        proof {
            assert(self@.contains_key(self.keys()[best as int]));
            assert(self@ != Map::<Seq<u8>, V>::empty());
        }
        Some((bytes_to_vec(self.entries[best].0.as_slice()), &self.entries[best].1))
    }
}

/// The members of a sequence with one more at its end.
pub proof fn lemma_push_to_set<T>(s: Seq<T>, x: T)
    ensures
        s.push(x).to_set() == s.to_set().insert(x),
        s.no_duplicates() && !s.contains(x) ==> s.push(x).no_duplicates(),
{
    let t = s.push(x);
    assert forall|a: T| #[trigger] t.to_set().contains(a) == s.to_set().insert(x).contains(a) by {
        if t.contains(a) {
            let i = choose|i: int| 0 <= i < t.len() && t[i] == a;
            if i < s.len() {
                assert(s[i] == a);
            }
        }
        if s.contains(a) {
            let i = choose|i: int| 0 <= i < s.len() && s[i] == a;
            assert(t[i] == a);
        }
        if a == x {
            assert(t[s.len() as int] == a);
        }
    }
    assert(t.to_set() =~= s.to_set().insert(x));
}

/// The members of a sequence without repetitions after one of them left.
pub proof fn lemma_remove_to_set<T>(s: Seq<T>, i: int)
    requires
        s.no_duplicates(),
        0 <= i < s.len(),
    ensures
        s.remove(i).to_set() == s.to_set().remove(s[i]),
        s.remove(i).no_duplicates(),
{
    let t = s.remove(i);
    assert forall|a: T| #[trigger] t.to_set().contains(a) == s.to_set().remove(s[i]).contains(a) by {
        if t.contains(a) {
            let j = choose|j: int| 0 <= j < t.len() && t[j] == a;
            let j2 = if j < i { j } else { j + 1 };
            assert(s[j2] == a);
        }
        if s.contains(a) && a != s[i] {
            let j = choose|j: int| 0 <= j < s.len() && s[j] == a;
            let j2 = if j < i { j } else { j - 1 };
            assert(t[j2] == a);
        }
    }
    assert(t.to_set() =~= s.to_set().remove(s[i]));
    assert forall|a: int, b: int| 0 <= a < t.len() && 0 <= b < t.len() && a != b implies t[a]
        != t[b] by {
        let a2 = if a < i { a } else { a + 1 };
        let b2 = if b < i { b } else { b + 1 };
        assert(t[a] == s[a2]);
        assert(t[b] == s[b2]);
    }
}

/// A sub-database that holds any number of 64-bit values under each key,
/// each of them once.
#[derive(Debug)]
pub struct DupSortDatabase {
    entries: Vec<(Vec<u8>, u64)>,
}

impl View for DupSortDatabase {
    type V = Set<(Seq<u8>, u64)>;

    closed spec fn view(&self) -> Set<(Seq<u8>, u64)> {
        self.pairs().to_set()
    }
}

impl DupSortDatabase {
    /// The entries in the order in which they are held.
    pub closed spec fn pairs(&self) -> Seq<(Seq<u8>, u64)> {
        Seq::new(self.entries@.len(), |i: int| (self.entries@[i].0@, self.entries@[i].1))
    }

    /// No entry is held twice.
    pub closed spec fn wf(&self) -> bool {
        self.pairs().no_duplicates()
    }

    /// An empty sub-database.
    pub fn new() -> (db: DupSortDatabase)
        ensures
            db.wf(),
            db@ == Set::<(Seq<u8>, u64)>::empty(),
    {
        let db = DupSortDatabase { entries: Vec::new() };
        assert(db@ =~= Set::<(Seq<u8>, u64)>::empty());
        db
    }

    fn find(&self, key: &[u8], value: u64) -> (r: Option<usize>)
        ensures
            r matches Some(i) ==> i < self.entries@.len() && self.pairs()[i as int] == (
                key@,
                value,
            ),
            r.is_none() ==> !self.pairs().contains((key@, value)),
    {
        let mut i: usize = 0;
        while i < self.entries.len()
            invariant
                i <= self.entries@.len(),
                forall|j: int| 0 <= j < i ==> self.pairs()[j] != (key@, value),
            decreases self.entries@.len() - i,
        {
            if self.entries[i].1 == value && bytes_eq(self.entries[i].0.as_slice(), key) {
                return Some(i);
            }
            i += 1;
        }
        None
    }

    /// Holds `value` under `key` from now on.
    pub fn insert(&mut self, key: &[u8], value: u64)
        requires
            old(self).wf(),
        ensures
            final(self).wf(),
            final(self)@ == old(self)@.insert((key@, value)),
    {
        let ghost before = self.pairs();
        match self.find(key, value) {
            Some(i) => {
                assert(before.contains(before[i as int]));
                assert(self@ =~= old(self)@.insert((key@, value)));
            },
            None => {
                self.entries.push((bytes_to_vec(key), value));
                proof {
                    assert(self.pairs() =~= before.push((key@, value)));
                    lemma_push_to_set(before, (key@, value));
                }
            },
        }
    }

    /// Holds `value` under `key` no longer.
    pub fn delete(&mut self, key: &[u8], value: u64)
        requires
            old(self).wf(),
        ensures
            final(self).wf(),
            final(self)@ == old(self)@.remove((key@, value)),
    {
        let ghost before = self.pairs();
        match self.find(key, value) {
            Some(i) => {
                self.entries.remove(i);
                proof {
                    assert(self.pairs() =~= before.remove(i as int));
                    lemma_remove_to_set(before, i as int);
                }
            },
            None => {
                assert(self@ =~= old(self)@.remove((key@, value)));
            },
        }
    }

    /// Tells whether `value` is held under `key`.
    pub fn contains(&self, key: &[u8], value: u64) -> (r: bool)
        ensures
            r == self@.contains((key@, value)),
    {
        match self.find(key, value) {
            Some(i) => {
                assert(self.pairs().contains(self.pairs()[i as int]));
                true
            },
            None => false,
        }
    }

    /// The entries, each once.
    pub fn to_vec(&self) -> (r: Vec<(Vec<u8>, u64)>)
        requires
            self.wf(),
        ensures
            self@.finite(),
            r@.len() == self@.len(),
            forall|i: int| 0 <= i < r@.len() ==> self@.contains(((#[trigger] r@[i]).0@, r@[i].1)),
            forall|e: (Seq<u8>, u64)|
                self@.contains(e) ==> exists|i: int|
                    0 <= i < r@.len() && ((#[trigger] r@[i]).0@, r@[i].1) == e,
    {
        let mut r: Vec<(Vec<u8>, u64)> = Vec::new();
        let mut i: usize = 0;
        while i < self.entries.len()
            invariant
                i <= self.entries@.len(),
                r@.len() == i,
                forall|j: int|
                    0 <= j < i ==> ((#[trigger] r@[j]).0@, r@[j].1) == self.pairs()[j],
            decreases self.entries@.len() - i,
        {
            r.push((bytes_to_vec(self.entries[i].0.as_slice()), self.entries[i].1));
            i += 1;
        }
        proof {
            self.pairs().unique_seq_to_set();
            assert forall|j: int| 0 <= j < r@.len() implies self@.contains(
                ((#[trigger] r@[j]).0@, r@[j].1),
            ) by {
                assert(self.pairs().contains(self.pairs()[j]));
            }
            assert forall|e: (Seq<u8>, u64)| self@.contains(e) implies exists|i: int|
                0 <= i < r@.len() && ((#[trigger] r@[i]).0@, r@[i].1) == e by {
                let j = choose|j: int| 0 <= j < self.pairs().len() && self.pairs()[j] == e;
                assert(((r@[j]).0@, r@[j].1) == e);
            }
        }
        r
    }

    /// The number of entries.
    pub fn count(&self) -> (r: usize)
        requires
            self.wf(),
        ensures
            self@.finite(),
            r == self@.len(),
    {
        proof {
            self.pairs().unique_seq_to_set();
        }
        self.entries.len()
    }
}

} // verus!
