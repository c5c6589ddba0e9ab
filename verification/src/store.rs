//! An in-memory key-value byte store.
//!
//! This is the single injected collaborator through which the file cache and
//! the package manager persist anything.  Keys are path-like strings, values
//! are byte strings.  The store is a sequence of entries with pairwise
//! distinct keys; enumeration order is the order of first insertion.

use vstd::prelude::*;

use crate::strutil::clone_bytes;
use crate::strutil::str_eq;

verus! {

struct Entry {
    key: String,
    value: Vec<u8>,
}

/// A key-value byte store held in memory.
pub struct Store {
    entries: Vec<Entry>,
}

impl Store {
    /// The keys, in enumeration order.
    pub closed spec fn key_seq(self) -> Seq<Seq<char>> {
        self.entries@.map_values(|e: Entry| e.key@)
    }

    /// No two entries share a key.
    pub closed spec fn wf(self) -> bool {
        forall|i: int, j: int|
            0 <= i < j < self.entries@.len() ==> self.entries@[i].key@ != self.entries@[j].key@
    }

    /// The contents, as a map from key to value.
    pub closed spec fn view(self) -> Map<Seq<char>, Seq<u8>> {
        Map::new(
            |k: Seq<char>| exists|i: int| 0 <= i < self.entries@.len() && self.entries@[i].key@ == k,
            |k: Seq<char>|
                self.entries@[choose|i: int|
                    0 <= i < self.entries@.len() && self.entries@[i].key@ == k].value@,
        )
    }

    /// The entry at a known index determines the view at its key.
    proof fn lemma_entry_value(self, i: int)
        requires
            self.wf(),
            0 <= i < self.entries@.len(),
        ensures
            self@.contains_key(self.entries@[i].key@),
            self@[self.entries@[i].key@] == self.entries@[i].value@,
    {
        let k = self.entries@[i].key@;
        let w = choose|j: int| 0 <= j < self.entries@.len() && self.entries@[j].key@ == k;
        assert(self.entries@[i].key@ == k);
        assert(0 <= w < self.entries@.len() && self.entries@[w].key@ == k);
        if w != i {
            if w < i {
                assert(self.entries@[w].key@ != self.entries@[i].key@);
            } else {
                assert(self.entries@[i].key@ != self.entries@[w].key@);
            }
        }
    }

    /// A key is in the view exactly when it is among the keys.
    pub proof fn lemma_key_seq_dom(self)
        requires
            self.wf(),
        ensures
            forall|k: Seq<char>| #[trigger]
                self.key_seq().contains(k) <==> self@.contains_key(k),
    {
        assert forall|k: Seq<char>| #[trigger]
            self.key_seq().contains(k) <==> self@.contains_key(k) by {
            if self.key_seq().contains(k) {
                let i = choose|i: int|
                    0 <= i < self.key_seq().len() && self.key_seq()[i] == k;
                assert(self.entries@[i].key@ == k);
            }
            if self@.contains_key(k) {
                let i = choose|i: int|
                    0 <= i < self.entries@.len() && self.entries@[i].key@ == k;
                assert(self.key_seq()[i] == k);
            }
        }
    }

    /// An empty store.
    pub fn new() -> (s: Store)
        ensures
            s.wf(),
            s@ == Map::<Seq<char>, Seq<u8>>::empty(),
            s.key_seq() == Seq::<Seq<char>>::empty(),
    {
        let s = Store { entries: Vec::new() };
        proof {
            assert(s@ =~= Map::<Seq<char>, Seq<u8>>::empty());
            assert(s.key_seq() =~= Seq::<Seq<char>>::empty());
        }
        s
    }

    /// The index of the entry holding `key`, if any.
    fn find_index(&self, key: &str) -> (r: Option<usize>)
        requires
            self.wf(),
        ensures
            match r {
                Some(i) => i < self.entries@.len() && self.entries@[i as int].key@ == key@,
                None => !self@.contains_key(key@),
            },
    {
        let mut i: usize = 0;
        while i < self.entries.len()
            invariant
                0 <= i <= self.entries@.len(),
                forall|j: int| 0 <= j < i ==> self.entries@[j].key@ != key@,
            decreases self.entries@.len() - i,
        {
            if str_eq(self.entries[i].key.as_str(), key) {
                return Some(i);
            }
            i = i + 1;
        }
        None
    }

    /// Is `key` present?
    pub fn contains(&self, key: &str) -> (r: bool)
        requires
            self.wf(),
        ensures
            r == self@.contains_key(key@),
    {
        match self.find_index(key) {
            Some(i) => {
                proof {
                    self.lemma_entry_value(i as int);
                }
                true
            },
            None => false,
        }
    }

    /// The value under `key`, if any.
    pub fn get(&self, key: &str) -> (r: Option<Vec<u8>>)
        requires
            self.wf(),
        ensures
            match r {
                Some(v) => self@.contains_key(key@) && v@ == self@[key@],
                None => !self@.contains_key(key@),
            },
    {
        match self.find_index(key) {
            Some(i) => {
                proof {
                    self.lemma_entry_value(i as int);
                }
                Some(clone_bytes(&self.entries[i].value))
            },
            None => None,
        }
    }

    /// Write `value` under `key`, replacing any previous value.  A new key
    /// goes to the end of the enumeration order; an old key keeps its place.
    pub fn set(&mut self, key: &str, value: Vec<u8>)
        requires
            old(self).wf(),
        ensures
            final(self).wf(),
            final(self)@ == old(self)@.insert(key@, value@),
            final(self).key_seq() == if old(self)@.contains_key(key@) {
                old(self).key_seq()
            } else {
                old(self).key_seq().push(key@)
            },
    {
        let ghost old_self = *self;
        match self.find_index(key) {
            Some(i) => {
                proof {
                    old_self.lemma_entry_value(i as int);
                }
                self.entries.set(i, Entry { key: key.to_owned(), value });
                proof {
                    assert((*self).key_seq() =~= old_self.key_seq());
                    assert forall|j: int, k: int|
                        0 <= j < k < (*self).entries@.len() implies (*self).entries@[j].key@ != (*self).entries@[k].key@ by {
                        assert(old_self.entries@[j].key@ != old_self.entries@[k].key@);
                        assert((*self).entries@[j].key@ == old_self.entries@[j].key@);
                        assert((*self).entries@[k].key@ == old_self.entries@[k].key@);
                    }
                    assert forall|k: Seq<char>| true implies #[trigger] (*self)@.contains_key(k) == old_self@.insert(key@, value@).contains_key(k) && ((*self)@.contains_key(k) ==> (*self)@[k] == old_self@.insert(key@, value@)[k])
                        by {
                        if k == key@ {
                            (*self).lemma_entry_value(i as int);
                        } else {
                            if old_self@.contains_key(k) {
                                let j = choose|j: int|
                                    0 <= j < old_self.entries@.len() && old_self.entries@[j].key@
                                        == k;
                                old_self.lemma_entry_value(j);
                                (*self).lemma_entry_value(j);
                            }
                            if (*self)@.contains_key(k) {
                                let j = choose|j: int|
                                    0 <= j < (*self).entries@.len() && (*self).entries@[j].key@ == k;
                                (*self).lemma_entry_value(j);
                                old_self.lemma_entry_value(j);
                            }
                        }
                    }
                    assert((*self)@ =~= old_self@.insert(key@, value@));
                }
            },
            None => {
                self.entries.push(Entry { key: key.to_owned(), value });
                proof {
                    let n = old_self.entries@.len() as int;
                    assert((*self).key_seq() =~= old_self.key_seq().push(key@));
                    assert forall|j: int, k: int|
                        0 <= j < k < (*self).entries@.len() implies (*self).entries@[j].key@ != (*self).entries@[k].key@ by {
                        if k < n {
                            assert(old_self.entries@[j].key@ != old_self.entries@[k].key@);
                        } else {
                            assert((*self).entries@[k].key@ == key@);
                            if old_self@.contains_key((*self).entries@[j].key@) {
                            } else {
                                assert(old_self.entries@[j].key@ == (*self).entries@[j].key@);
                                assert(old_self@.contains_key(old_self.entries@[j].key@)) by {
                                    old_self.lemma_entry_value(j);
                                }
                            }
                        }
                    }
                    assert forall|k: Seq<char>| true implies #[trigger] (*self)@.contains_key(k) == old_self@.insert(key@, value@).contains_key(k) && ((*self)@.contains_key(k) ==> (*self)@[k] == old_self@.insert(key@, value@)[k])
                        by {
                        if k == key@ {
                            (*self).lemma_entry_value(n);
                        } else {
                            if old_self@.contains_key(k) {
                                let j = choose|j: int|
                                    0 <= j < old_self.entries@.len() && old_self.entries@[j].key@
                                        == k;
                                old_self.lemma_entry_value(j);
                                (*self).lemma_entry_value(j);
                            }
                            if (*self)@.contains_key(k) {
                                let j = choose|j: int|
                                    0 <= j < (*self).entries@.len() && (*self).entries@[j].key@ == k;
                                assert(j != n);
                                (*self).lemma_entry_value(j);
                                old_self.lemma_entry_value(j);
                            }
                        }
                    }
                    assert((*self)@ =~= old_self@.insert(key@, value@));
                }
            },
        }
    }

    /// Remove `key`.  Returns whether it was present; absence is not an
    /// error.
    pub fn delete(&mut self, key: &str) -> (r: bool)
        requires
            old(self).wf(),
        ensures
            final(self).wf(),
            r == old(self)@.contains_key(key@),
            final(self)@ == old(self)@.remove(key@),
            final(self).key_seq() == if old(self)@.contains_key(key@) {
                old(self).key_seq().remove(old(self).key_seq().index_of(key@))
            } else {
                old(self).key_seq()
            },
    {
        let ghost old_self = *self;
        match self.find_index(key) {
            Some(i) => {
                proof {
                    old_self.lemma_entry_value(i as int);
                }
                self.entries.remove(i);
                proof {
                    let n = old_self.entries@.len() as int;
                    assert forall|j: int, k: int|
                        0 <= j < k < (*self).entries@.len() implies (*self).entries@[j].key@ != (*self).entries@[k].key@ by {
                        let oj = if j < i { j } else { j + 1 };
                        let ok = if k < i { k } else { k + 1 };
                        assert((*self).entries@[j] == old_self.entries@[oj]);
                        assert((*self).entries@[k] == old_self.entries@[ok]);
                        assert(old_self.entries@[oj].key@ != old_self.entries@[ok].key@);
                    }
                    assert forall|k: Seq<char>| true implies #[trigger] (*self)@.contains_key(k) == old_self@.remove(key@).contains_key(k) && ((*self)@.contains_key(k) ==> (*self)@[k] == old_self@.remove(key@)[k]) by {
                        if (*self)@.contains_key(k) {
                            let j = choose|j: int|
                                0 <= j < (*self).entries@.len() && (*self).entries@[j].key@
                                    == k;
                            let oj = if j < i { j } else { j + 1 };
                            assert((*self).entries@[j] == old_self.entries@[oj]);
                            (*self).lemma_entry_value(j);
                            old_self.lemma_entry_value(oj);
                            assert(k != key@);
                        }
                        if old_self@.remove(key@).contains_key(k) {
                            let j = choose|j: int|
                                0 <= j < old_self.entries@.len() && old_self.entries@[j].key@ == k;
                            assert(j != i);
                            let nj = if j < i { j } else { j - 1 };
                            assert((*self).entries@[nj] == old_self.entries@[j]);
                            old_self.lemma_entry_value(j);
                            (*self).lemma_entry_value(nj);
                        }
                    }
                    assert((*self)@ =~= old_self@.remove(key@));
                    assert(old_self.key_seq().index_of(key@) == i as int) by {
                        assert(old_self.key_seq()[i as int] == key@);
                        let w = old_self.key_seq().index_of(key@);
                        assert(old_self.key_seq().contains(key@));
                        assert(0 <= w < n && old_self.key_seq()[w] == key@);
                        if w != i as int {
                            if w < i as int {
                                assert(old_self.entries@[w].key@ != old_self.entries@[i as int].key@);
                            } else {
                                assert(old_self.entries@[i as int].key@ != old_self.entries@[w].key@);
                            }
                        }
                    }
                    assert((*self).key_seq() =~= old_self.key_seq().remove(i as int));
                }
                true
            },
            None => {
                proof {
                    assert((*self)@ =~= old_self@.remove(key@));
                }
                false
            },
        }
    }

    /// Every key, in enumeration order.
    pub fn list(&self) -> (r: Vec<String>)
        requires
            self.wf(),
        ensures
            r.deep_view() == self.key_seq(),
    {
        let mut r: Vec<String> = Vec::new();
        let mut i: usize = 0;
        while i < self.entries.len()
            invariant
                0 <= i <= self.entries@.len(),
                r@.len() == i,
                forall|j: int| 0 <= j < i ==> r@[j]@ == self.key_seq()[j],
            decreases self.entries@.len() - i,
        {
            let k = self.entries[i].key.clone();
            r.push(k);
            i = i + 1;
        }
        proof {
            assert(r.deep_view() =~= self.key_seq());
        }
        r
    }

    /// How many keys are present.
    pub fn len(&self) -> (r: usize)
        requires
            self.wf(),
        ensures
            r == self.key_seq().len(),
    {
        self.entries.len()
    }
}

} // verus!
