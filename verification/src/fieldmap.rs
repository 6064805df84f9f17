//! The named-field table: a map from field names to bit-range descriptors.
//!
//! Entries are held in a vector whose keys are pairwise distinct; the
//! abstraction is a `Map<Seq<char>, BitfieldValue>`. Lookups walk the
//! vector, so their cost is linear in the number of registered fields, and
//! no ordering of the entries is promised to callers.

use vstd::prelude::*;

verus! {

/// One field's position inside a register: `start` bits above the
/// least-significant bit, `length` bits long.
#[derive(Clone, Copy, Debug, PartialEq, Eq, Structural)]
pub struct BitfieldValue {
    /// Offset of the field's lowest bit, counted from bit 0.
    pub start: u8,
    /// Number of bits the field occupies.
    pub length: u8,
}

/// A map from field names to [`BitfieldValue`] descriptors.
#[derive(Debug)]
pub struct FieldMap {
    entries: Vec<(String, BitfieldValue)>,
}

impl View for FieldMap {
    type V = Map<Seq<char>, BitfieldValue>;

    /// The map abstraction: each stored key, bound to its descriptor.
    open spec fn view(&self) -> Map<Seq<char>, BitfieldValue> {
        Map::new(
            |k: Seq<char>| self.spec_contains(k),
            |k: Seq<char>| self.entries_seq()[self.spec_index_of(k)].1,
        )
    }
}

impl FieldMap {
    /// The stored entries, in insertion order.
    pub closed spec fn entries_seq(self) -> Seq<(String, BitfieldValue)> {
        self.entries@
    }

    /// Some entry carries the key `k`.
    pub open spec fn spec_contains(self, k: Seq<char>) -> bool {
        exists|i: int| 0 <= i < self.entries_seq().len() && self.entries_seq()[i].0@ == k
    }

    /// An index of an entry carrying the key `k`; meaningful only when
    /// [`Self::spec_contains`] holds of `k`.
    pub open spec fn spec_index_of(self, k: Seq<char>) -> int {
        choose|i: int| 0 <= i < self.entries_seq().len() && self.entries_seq()[i].0@ == k
    }

    /// The keys of the stored entries are pairwise distinct.
    pub open spec fn wf(self) -> bool {
        forall|i: int, j: int|
            0 <= i < j < self.entries_seq().len() ==> self.entries_seq()[i].0@
                != self.entries_seq()[j].0@
    }

    /// Under distinct keys, the entry at index `i` is exactly what the map
    /// abstraction binds its key to.
    pub proof fn lemma_entry_is_view(self, i: int)
        requires
            self.wf(),
            0 <= i < self.entries_seq().len(),
        ensures
            self@.contains_key(self.entries_seq()[i].0@),
            self@[self.entries_seq()[i].0@] == self.entries_seq()[i].1,
    {
        let k = self.entries_seq()[i].0@;
        assert(self.spec_contains(k));
        let j = self.spec_index_of(k);
        assert(0 <= j < self.entries_seq().len() && self.entries_seq()[j].0@ == k);
        if i != j {
            assert(false);
        }
    }

    /// An empty table.
    pub fn new() -> (m: FieldMap)
        ensures
            m.wf(),
            m@ == Map::<Seq<char>, BitfieldValue>::empty(),
            m.entries_seq().len() == 0,
    {
        let m = FieldMap { entries: Vec::new() };
        proof {
            assert(m@ =~= Map::<Seq<char>, BitfieldValue>::empty());
        }
        m
    }

    /// Looks a key up and borrows its descriptor.
    pub fn get(&self, key: &str) -> (r: Option<&BitfieldValue>)
        requires
            self.wf(),
        ensures
            match r {
                Some(d) => self@.contains_key(key@) && *d == self@[key@],
                None => !self@.contains_key(key@),
            },
    {
        let k: String = key.to_owned();
        let n = self.entries.len();
        let mut i: usize = 0;
        while i < n
            invariant
                self.wf(),
                n == self.entries_seq().len(),
                i <= n,
                k@ == key@,
                forall|j: int| 0 <= j < i ==> self.entries_seq()[j].0@ != key@,
            decreases n - i,
        {
            if self.entries[i].0 == k {
                proof {
                    self.lemma_entry_is_view(i as int);
                }
                return Some(&self.entries[i].1);
            }
            i += 1;
        }
        proof {
            assert(!self.spec_contains(key@));
        }
        None
    }

    /// Looks a key up and returns a copy of its descriptor.
    pub fn lookup(&self, key: &str) -> (r: Option<BitfieldValue>)
        requires
            self.wf(),
        ensures
            match r {
                Some(d) => self@.contains_key(key@) && d == self@[key@],
                None => !self@.contains_key(key@),
            },
    {
        match self.get(key) {
            Some(d) => Some(*d),
            None => None,
        }
    }

    /// Reports whether a key is registered.
    pub fn contains(&self, key: &str) -> (r: bool)
        requires
            self.wf(),
        ensures
            r == self@.contains_key(key@),
    {
        self.get(key).is_some()
    }

    /// Adds an entry unless its key is already present; reports whether the
    /// entry was added. A refused insertion leaves the table untouched.
    pub fn try_insert(&mut self, key: String, desc: BitfieldValue) -> (r: bool)
        requires
            old(self).wf(),
        ensures
            final(self).wf(),
            r == !old(self)@.contains_key(key@),
            r ==> final(self)@ == old(self)@.insert(key@, desc),
            !r ==> *final(self) == *old(self),
    {
        let ghost kv = key@;
        if self.contains(key.as_str()) {
            return false;
        }
        self.entries.push((key, desc));
        proof {
            Self::lemma_push_view(*old(self), *self, kv, desc);
        }
        true
    }

    /// Removes the entry with the given key; reports whether one existed.
    /// When none does, the table is left untouched.
    pub fn remove(&mut self, key: &str) -> (r: bool)
        requires
            old(self).wf(),
        ensures
            final(self).wf(),
            r == old(self)@.contains_key(key@),
            r ==> final(self)@ == old(self)@.remove(key@),
            !r ==> *final(self) == *old(self),
    {
        let k: String = key.to_owned();
        let n = self.entries.len();
        let mut i: usize = 0;
        while i < n
            invariant
                self.wf(),
                *self == *old(self),
                n == self.entries_seq().len(),
                i <= n,
                k@ == key@,
                forall|j: int| 0 <= j < i ==> self.entries_seq()[j].0@ != key@,
            decreases n - i,
        {
            if self.entries[i].0 == k {
                proof {
                    self.lemma_entry_is_view(i as int);
                }
                self.entries.remove(i);
                proof {
                    Self::lemma_remove_view(*old(self), *self, i as int, key@);
                }
                return true;
            }
            i += 1;
        }
        proof {
            assert(!self.spec_contains(key@));
        }
        false
    }

    /// Pushing an entry with a fresh key refines `Map::insert`.
    proof fn lemma_push_view(pre: FieldMap, post: FieldMap, k: Seq<char>, desc: BitfieldValue)
        requires
            pre.wf(),
            !pre.spec_contains(k),
            post.entries_seq().len() == pre.entries_seq().len() + 1,
            post.entries_seq()[pre.entries_seq().len() as int].0@ == k,
            post.entries_seq()[pre.entries_seq().len() as int].1 == desc,
            forall|i: int|
                0 <= i < pre.entries_seq().len() ==> post.entries_seq()[i] == pre.entries_seq()[i],
        ensures
            post.wf(),
            post@ == pre@.insert(k, desc),
    {
        let n = pre.entries_seq().len() as int;
        assert forall|i: int, j: int|
            0 <= i < j < post.entries_seq().len() implies post.entries_seq()[i].0@
            != post.entries_seq()[j].0@ by {
            if j < n {
            } else {
                assert(post.entries_seq()[i].0@ == pre.entries_seq()[i].0@);
            }
        }
        assert forall|k2: Seq<char>| #[trigger] post@.contains_key(k2) implies (pre@.contains_key(
            k2,
        ) || k2 == k) && post@[k2] == pre@.insert(k, desc)[k2] by {
            let i = post.spec_index_of(k2);
            post.lemma_entry_is_view(i);
            if i < n {
                pre.lemma_entry_is_view(i);
            }
        }
        assert forall|k2: Seq<char>| pre@.contains_key(k2) || k2 == k implies post@.contains_key(
            k2,
        ) by {
            if pre@.contains_key(k2) {
                let i = pre.spec_index_of(k2);
                assert(post.entries_seq()[i].0@ == k2);
            } else {
                assert(post.entries_seq()[n].0@ == k2);
            }
        }
        assert(post@ =~= pre@.insert(k, desc));
    }

    /// Removing the entry at the index of a key refines `Map::remove`.
    proof fn lemma_remove_view(pre: FieldMap, post: FieldMap, at: int, k: Seq<char>)
        requires
            pre.wf(),
            0 <= at < pre.entries_seq().len(),
            pre.entries_seq()[at].0@ == k,
            post.entries_seq() == pre.entries_seq().remove(at),
        ensures
            post.wf(),
            post@ == pre@.remove(k),
    {
        let pres = pre.entries_seq();
        let posts = post.entries_seq();
        pres.remove_ensures(at);
        assert forall|i: int, j: int|
            0 <= i < j < posts.len() implies posts[i].0@ != posts[j].0@ by {
            let pi: int = if i < at {
                i
            } else {
                i + 1
            };
            let pj: int = if j < at {
                j
            } else {
                j + 1
            };
            assert(posts[i] == pres[pi] && posts[j] == pres[pj]);
        }
        assert forall|k2: Seq<char>| #[trigger] post@.contains_key(k2) implies pre@.remove(
            k,
        ).contains_key(k2) && post@[k2] == pre@.remove(k)[k2] by {
            let i = post.spec_index_of(k2);
            post.lemma_entry_is_view(i);
            let pi: int = if i < at {
                i
            } else {
                i + 1
            };
            assert(posts[i] == pres[pi]);
            pre.lemma_entry_is_view(pi);
            assert(k2 != k);
        }
        assert forall|k2: Seq<char>| pre@.contains_key(k2) && k2 != k implies post@.contains_key(
            k2,
        ) by {
            let pi = pre.spec_index_of(k2);
            assert(pres[pi].0@ == k2);
            if pi != at {
                let i: int = if pi < at {
                    pi
                } else {
                    pi - 1
                };
                assert(posts[i] == pres[pi]);
                assert(post.spec_contains(k2));
            }
        }
        assert(post@ =~= pre@.remove(k));
    }
}

} // verus!
