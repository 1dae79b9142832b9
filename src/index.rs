//! The in-memory index: for each live key, where its latest `Set` record lies
//! in the log.
use vstd::prelude::*;

verus! {

/// One key of the index and the byte range of its latest `Set` record.
pub struct Entry {
    pub key: Vec<u8>,
    pub offset: u64,
    pub len: u64,
}

/// The entries are kept in a vector with unique keys; `model` is the map they
/// stand for, from key to `(offset, length)`.
pub struct Index {
    pub entries: Vec<Entry>,
    pub model: Ghost<Map<Seq<u8>, (nat, nat)>>,
}

/// The vector `entries` holds each key of `m` once, with its range, and no other.
pub open spec fn agrees(entries: Seq<Entry>, m: Map<Seq<u8>, (nat, nat)>) -> bool {
    &&& forall|i: int|
        0 <= i < entries.len() ==> #[trigger] m.contains_key(entries[i].key@) && m[entries[i].key@]
            == (entries[i].offset as nat, entries[i].len as nat)
    &&& forall|i: int, j: int|
        0 <= i < entries.len() && 0 <= j < entries.len() && i != j ==> #[trigger] entries[i].key@
            != #[trigger] entries[j].key@
    &&& forall|k: Seq<u8>|
        #[trigger] m.contains_key(k) ==> exists|i: int|
            0 <= i < entries.len() && #[trigger] entries[i].key@ == k
}

/// The sum of the lengths of the entries' records.
pub open spec fn live_bytes(entries: Seq<Entry>) -> nat
    decreases entries.len(),
{
    if entries.len() == 0 {
        0
    } else {
        live_bytes(entries.drop_last()) + entries.last().len as nat
    }
}

pub proof fn lemma_live_bytes_update(s: Seq<Entry>, i: int, e: Entry)
    requires
        0 <= i < s.len(),
    ensures
        live_bytes(s.update(i, e)) + s[i].len == live_bytes(s) + e.len,
    decreases s.len(),
{
    if i < s.len() - 1 {
        lemma_live_bytes_update(s.drop_last(), i, e);
        assert(s.update(i, e).drop_last() =~= s.drop_last().update(i, e));
    } else {
        assert(s.update(i, e).drop_last() =~= s.drop_last());
    }
}

pub proof fn lemma_live_bytes_remove(s: Seq<Entry>, i: int)
    requires
        0 <= i < s.len(),
    ensures
        live_bytes(s.remove(i)) + s[i].len == live_bytes(s),
    decreases s.len(),
{
    if i < s.len() - 1 {
        lemma_live_bytes_remove(s.drop_last(), i);
        assert(s.remove(i).drop_last() =~= s.drop_last().remove(i));
    } else {
        assert(s.remove(i) =~= s.drop_last());
    }
}

pub proof fn lemma_live_bytes_prefix(s: Seq<Entry>, i: int)
    requires
        0 <= i <= s.len(),
    ensures
        live_bytes(s.take(i)) <= live_bytes(s),
    decreases s.len() - i,
{
    if i < s.len() {
        lemma_live_bytes_prefix(s, i + 1);
        assert(s.take(i + 1).drop_last() =~= s.take(i));
    } else {
        assert(s.take(i) =~= s);
    }
}

/// Whether two byte strings are equal.
pub fn bytes_eq(a: &[u8], b: &[u8]) -> (r: bool)
    ensures
        r == (a@ == b@),
{
    if a.len() != b.len() {
        return false;
    }
    let mut i: usize = 0;
    while i < a.len()
        invariant
            i <= a@.len(),
            a@.len() == b@.len(),
            forall|j: int| 0 <= j < i ==> a@[j] == b@[j],
        decreases a@.len() - i,
    {
        if a[i] != b[i] {
            return false;
        }
        i = i + 1;
    }
    assert(a@ =~= b@);
    true
}

impl Index {
    pub open spec fn view(&self) -> Map<Seq<u8>, (nat, nat)> {
        self.model@
    }

    pub open spec fn wf(&self) -> bool {
        agrees(self.entries@, self.model@)
    }

    /// The sum of the lengths of the live records.
    pub open spec fn live(&self) -> nat {
        live_bytes(self.entries@)
    }

    pub fn new() -> (r: Index)
        ensures
            r.wf(),
            r@ == Map::<Seq<u8>, (nat, nat)>::empty(),
            r.live() == 0,
            r.entries@.len() == 0,
    {
        Index { entries: Vec::new(), model: Ghost(Map::empty()) }
    }

    /// The position of `key` in the entries.
    pub fn find(&self, key: &[u8]) -> (r: Option<usize>)
        requires
            self.wf(),
        ensures
            match r {
                Some(i) => i < self.entries@.len() && self.entries@[i as int].key@ == key@,
                None => !self@.contains_key(key@),
            },
    {
        let mut i: usize = 0;
        while i < self.entries.len()
            invariant
                i <= self.entries@.len(),
                forall|j: int| 0 <= j < i ==> self.entries@[j].key@ != key@,
            decreases self.entries@.len() - i,
        {
            if bytes_eq(self.entries[i].key.as_slice(), key) {
                return Some(i);
            }
            i = i + 1;
        }
        None
    }

    /// The range recorded for `key`.
    pub fn get(&self, key: &[u8]) -> (r: Option<(u64, u64)>)
        requires
            self.wf(),
        ensures
            match r {
                Some((o, l)) => self@.contains_key(key@) && self@[key@] == (o as nat, l as nat),
                None => !self@.contains_key(key@),
            },
    {
        match self.find(key) {
            Some(i) => {
                assert(self.model@.contains_key(self.entries@[i as int].key@));
                Some((self.entries[i].offset, self.entries[i].len))
            },
            None => None,
        }
    }

    /// Records `key` at `(offset, len)`; returns the length of the range it had.
    pub fn insert(&mut self, key: Vec<u8>, offset: u64, len: u64) -> (r: Option<u64>)
        requires
            old(self).wf(),
        ensures
            final(self).wf(),
            final(self)@ == old(self)@.insert(key@, (offset as nat, len as nat)),
            match r {
                Some(l) => old(self)@.contains_key(key@) && old(self)@[key@].1 == l
                    && final(self).live() + l == old(self).live() + len,
                None => !old(self)@.contains_key(key@) && final(self).live() == old(self).live()
                    + len,
            },
    {
        let ghost k = key@;
        match self.find(key.as_slice()) {
            Some(i) => {
                let prior = self.entries[i].len;
                assert(self.model@.contains_key(self.entries@[i as int].key@));
                let e = Entry { key, offset, len };
                proof {
                    lemma_live_bytes_update(self.entries@, i as int, e);
                }
                self.entries.set(i, e);
                self.model = Ghost(self.model@.insert(k, (offset as nat, len as nat)));
                proof {
                    assert forall|k2: Seq<u8>| #[trigger]
                        self.model@.contains_key(k2) implies exists|j: int|
                        0 <= j < self.entries@.len() && #[trigger] self.entries@[j].key@ == k2 by {
                        if k2 != k {
                            let j = choose|j: int|
                                0 <= j < old(self).entries@.len() && #[trigger] old(
                                    self,
                                ).entries@[j].key@ == k2;
                            assert(self.entries@[j].key@ == k2);
                        } else {
                            assert(self.entries@[i as int].key@ == k2);
                        }
                    }
                }
                Some(prior)
            },
            None => {
                let e = Entry { key, offset, len };
                proof {
                    assert(self.entries@.push(e).drop_last() =~= self.entries@);
                }
                self.entries.push(e);
                self.model = Ghost(self.model@.insert(k, (offset as nat, len as nat)));
                proof {
                    let n = self.entries@.len() - 1;
                    assert forall|j: int| 0 <= j < n implies self.entries@[j].key@ != k by {
                        assert(old(self).model@.contains_key(old(self).entries@[j].key@));
                    }
                    assert forall|k2: Seq<u8>| #[trigger]
                        self.model@.contains_key(k2) implies exists|j: int|
                        0 <= j < self.entries@.len() && #[trigger] self.entries@[j].key@ == k2 by {
                        if k2 != k {
                            let j = choose|j: int|
                                0 <= j < old(self).entries@.len() && #[trigger] old(
                                    self,
                                ).entries@[j].key@ == k2;
                            assert(self.entries@[j].key@ == k2);
                        } else {
                            assert(self.entries@[n].key@ == k2);
                        }
                    }
                }
                None
            },
        }
    }

    /// Takes `key` out; returns the length of the range it had.
    pub fn remove(&mut self, key: &[u8]) -> (r: Option<u64>)
        requires
            old(self).wf(),
        ensures
            final(self).wf(),
            final(self)@ == old(self)@.remove(key@),
            match r {
                Some(l) => old(self)@.contains_key(key@) && old(self)@[key@].1 == l
                    && final(self).live() + l == old(self).live(),
                None => !old(self)@.contains_key(key@) && *final(self) == *old(self),
            },
    {
        match self.find(key) {
            Some(i) => {
                let prior = self.entries[i].len;
                assert(self.model@.contains_key(self.entries@[i as int].key@));
                proof {
                    lemma_live_bytes_remove(self.entries@, i as int);
                }
                self.entries.remove(i);
                self.model = Ghost(self.model@.remove(key@));
                proof {
                    let old_e = old(self).entries@;
                    assert forall|j: int| 0 <= j < self.entries@.len() implies #[trigger]
                        self.model@.contains_key(self.entries@[j].key@) && self.model@[self.entries@[j].key@] == (
                        self.entries@[j].offset as nat,
                        self.entries@[j].len as nat,
                    ) by {
                        if j < i {
                            assert(self.entries@[j] == old_e[j]);
                            assert(old(self).model@.contains_key(old_e[j].key@));
                            assert(old_e[j].key@ != old_e[i as int].key@);
                        } else {
                            assert(self.entries@[j] == old_e[j + 1]);
                            assert(old(self).model@.contains_key(old_e[j + 1].key@));
                            assert(old_e[j + 1].key@ != old_e[i as int].key@);
                        }
                    }
                    assert forall|k2: Seq<u8>| #[trigger]
                        self.model@.contains_key(k2) implies exists|j: int|
                        0 <= j < self.entries@.len() && #[trigger] self.entries@[j].key@ == k2 by {
                        let j = choose|j: int|
                            0 <= j < old_e.len() && #[trigger] old_e[j].key@ == k2;
                        if j < i {
                            assert(self.entries@[j].key@ == k2);
                        } else {
                            assert(j != i);
                            assert(self.entries@[j - 1].key@ == k2);
                        }
                    }
                }
                Some(prior)
            },
            None => {
                assert(self.model@.remove(key@) =~= self.model@);
                None
            },
        }
    }
}

} // verus!
