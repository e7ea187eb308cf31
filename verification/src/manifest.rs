//! The record of storage keys already handled.
//!
//! A `Manifest` is the dedup tracker behind the synchronizer: a set of
//! canonical key sequences. It is injectable, so a copy carried over
//! from an earlier run makes a re-run skip what that run uploaded.

use vstd::prelude::*;
use crate::keys::str_seq_view;

verus! {

/// A set of canonical storage keys, each an ordered sequence of path
/// segments.
pub struct Manifest {
    entries: Vec<Vec<String>>,
}

/// Whether the view of some element of `entries` is `k`.
spec fn holds_key(entries: Seq<Vec<String>>, k: Seq<Seq<char>>) -> bool {
    exists|i: int| 0 <= i < entries.len() && str_seq_view(entries[i]@) == k
}

fn key_eq(a: &Vec<String>, b: &Vec<String>) -> (eq: bool)
    ensures
        eq == (str_seq_view(a@) == str_seq_view(b@)),
{
    if a.len() != b.len() {
        proof {
            assert(str_seq_view(a@).len() != str_seq_view(b@).len());
        }
        return false;
    }
    let mut i: usize = 0;
    while i < a.len()
        invariant
            a@.len() == b@.len(),
            i <= a@.len(),
            forall|j: int| 0 <= j < i ==> a@[j]@ == b@[j]@,
        decreases a@.len() - i,
    {
        if a[i] != b[i] {
            proof {
                assert(str_seq_view(a@)[i as int] != str_seq_view(b@)[i as int]);
            }
            return false;
        }
        i = i + 1;
    }
    proof {
        assert(str_seq_view(a@) =~= str_seq_view(b@));
    }
    true
}

impl Manifest {
    /// The set of keys the manifest holds.
    pub closed spec fn key_set(self) -> Set<Seq<Seq<char>>> {
        Set::new(|k: Seq<Seq<char>>| holds_key(self.entries@, k))
    }

    /// An empty manifest: the tracker of a fresh run, holding nothing.
    pub fn new() -> (m: Manifest)
        ensures
            m.key_set() == Set::<Seq<Seq<char>>>::empty(),
    {
        let m = Manifest { entries: Vec::new() };
        proof {
            assert(m.key_set() =~= Set::<Seq<Seq<char>>>::empty());
        }
        m
    }

    /// Whether the key was already recorded.
    pub fn contains(&self, key: &Vec<String>) -> (present: bool)
        ensures
            present == self.key_set().contains(str_seq_view(key@)),
    {
        let mut i: usize = 0;
        while i < self.entries.len()
            invariant
                i <= self.entries@.len(),
                forall|j: int| 0 <= j < i ==> str_seq_view(self.entries@[j]@) != str_seq_view(
                    key@,
                ),
            decreases self.entries@.len() - i,
        {
            if key_eq(&self.entries[i], key) {
                return true;
            }
            i = i + 1;
        }
        false
    }

    /// Records the key; recording a key already present changes nothing.
    pub fn record(&mut self, key: Vec<String>)
        ensures
            final(self).key_set() == old(self).key_set().insert(str_seq_view(key@)),
    {
        let present = self.contains(&key);
        if !present {
            let ghost before = self.entries@;
            self.entries.push(key);
            proof {
                assert forall|k: Seq<Seq<char>>| holds_key(self.entries@, k) <==> (holds_key(
                    before,
                    k,
                ) || k == str_seq_view(key@)) by {
                    if holds_key(before, k) {
                        let i = choose|i: int| 0 <= i < before.len() && str_seq_view(before[i]@)
                            == k;
                        assert(str_seq_view(self.entries@[i]@) == k);
                    }
                    if holds_key(self.entries@, k) {
                        let i = choose|i: int|
                            0 <= i < self.entries@.len() && str_seq_view(self.entries@[i]@) == k;
                        if i < before.len() {
                            assert(str_seq_view(before[i]@) == k);
                        }
                    }
                    if k == str_seq_view(key@) {
                        assert(str_seq_view(self.entries@[before.len() as int]@) == k);
                    }
                }
                assert(self.key_set() =~= old(self).key_set().insert(str_seq_view(key@)));
            }
        } else {
            proof {
                assert(self.key_set() =~= old(self).key_set().insert(str_seq_view(key@)));
            }
        }
    }
}

} // verus!
