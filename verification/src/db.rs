use vstd::prelude::*;

verus! {

/// True when the two byte strings are equal.
pub fn bytes_eq(a: &[u8], b: &[u8]) -> (r: bool)
    ensures
        r <==> a@ == b@,
{
    if a.len() != b.len() {
        proof {
            assert(a@.len() != b@.len());
        }
        return false;
    }
    let mut i: usize = 0;
    while i < a.len()
        invariant
            i <= a@.len(),
            a@.len() == b@.len(),
            forall|j: int| 0 <= j < i ==> a@[j] == b@[j],
        decreases a@.len() - i,
    {
        if a[i] != b[i] {
            return false;
        }
        i += 1;
    }
    proof {
        assert(a@ =~= b@);
    }
    true
}

/// The value most recently stored under `k` in the entry list, or `None`.
pub open spec fn entries_get(s: Seq<(Vec<u8>, Vec<u8>)>, k: Seq<u8>) -> Option<Seq<u8>>
    decreases s.len(),
{
    if s.len() == 0 {
        None
    } else if s.last().0@ == k {
        Some(s.last().1@)
    } else {
        entries_get(s.drop_last(), k)
    }
}

/// A trivial in-memory adapter for the backing key/value store: node
/// digests map to canonical node encodings. Later writes shadow earlier
/// ones; it never fails.
#[derive(Debug)]
pub struct MemoryDB {
    pub entries: Vec<(Vec<u8>, Vec<u8>)>,
}

impl MemoryDB {
    /// The value stored under `k`, or `None`.
    pub open spec fn spec_get(&self, k: Seq<u8>) -> Option<Seq<u8>> {
        entries_get(self.entries@, k)
    }

    /// An empty store.
    pub fn new() -> (r: MemoryDB)
        ensures
            forall|k: Seq<u8>| r.spec_get(k) is None,
    {
        MemoryDB { entries: Vec::new() }
    }

    /// Looks up `key`, returning a copy of the stored value.
    pub fn get(&self, key: &[u8]) -> (r: Option<Vec<u8>>)
        ensures
            match r {
                Some(v) => self.spec_get(key@) == Some(v@),
                None => self.spec_get(key@) is None,
            },
    {
        let mut i: usize = self.entries.len();
        proof {
            assert(self.entries@.subrange(0, i as int) =~= self.entries@);
        }
        while i > 0
            invariant
                i <= self.entries@.len(),
                entries_get(self.entries@, key@) == entries_get(
                    self.entries@.subrange(0, i as int),
                    key@,
                ),
            decreases i,
        {
            i -= 1;
            proof {
                assert(self.entries@.subrange(0, i + 1).last() == self.entries@[i as int]);
                assert(self.entries@.subrange(0, i + 1).drop_last() =~= self.entries@.subrange(
                    0,
                    i as int,
                ));
            }
            if bytes_eq(self.entries[i].0.as_slice(), key) {
                return Some(vstd::slice::slice_to_vec(self.entries[i].1.as_slice()));
            }
        }
        proof {
            assert(self.entries@.subrange(0, 0) =~= Seq::<(Vec<u8>, Vec<u8>)>::empty());
        }
        None
    }

    /// Stores `value` under `key`, shadowing any earlier entry.
    pub fn insert(&mut self, key: Vec<u8>, value: Vec<u8>)
        ensures
            final(self).spec_get(key@) == Some(value@),
            forall|k: Seq<u8>| k != key@ ==> final(self).spec_get(k) == old(self).spec_get(k),
    {
        self.entries.push((key, value));
        proof {
            assert(self.entries@.drop_last() =~= old(self).entries@);
        }
    }

    /// Removes every entry stored under `key`.
    pub fn remove(&mut self, key: &[u8])
        ensures
            final(self).spec_get(key@) is None,
            forall|k: Seq<u8>| k != key@ ==> final(self).spec_get(k) == old(self).spec_get(k),
    {
        let mut kept: Vec<(Vec<u8>, Vec<u8>)> = Vec::new();
        let mut i: usize = 0;
        while i < self.entries.len()
            invariant
                i <= self.entries@.len(),
                entries_get(kept@, key@) is None,
                forall|k: Seq<u8>|
                    k != key@ ==> entries_get(kept@, k) == entries_get(
                        self.entries@.subrange(0, i as int),
                        k,
                    ),
            decreases self.entries@.len() - i,
        {
            proof {
                assert(self.entries@.subrange(0, i + 1).last() == self.entries@[i as int]);
                assert(self.entries@.subrange(0, i + 1).drop_last() =~= self.entries@.subrange(
                    0,
                    i as int,
                ));
            }
            let ghost kept0 = kept@;
            let keep = !bytes_eq(self.entries[i].0.as_slice(), key);
            if keep {
                let k2 = vstd::slice::slice_to_vec(self.entries[i].0.as_slice());
                let v2 = vstd::slice::slice_to_vec(self.entries[i].1.as_slice());
                kept.push((k2, v2));
                proof {
                    assert(kept@.drop_last() =~= kept0);
                    assert(kept@.last().0@ == self.entries@[i as int].0@);
                    assert(kept@.last().1@ == self.entries@[i as int].1@);
                }
            }
            proof {
                assert forall|k: Seq<u8>| k != key@ implies entries_get(kept@, k) == entries_get(
                    self.entries@.subrange(0, i + 1),
                    k,
                ) by {
                    if keep {
                        if k == self.entries@[i as int].0@ {
                        } else {
                            assert(entries_get(kept@, k) == entries_get(kept0, k));
                        }
                    }
                }
            }
            i += 1;
        }
        proof {
            assert(self.entries@.subrange(0, self.entries@.len() as int) =~= self.entries@);
        }
        self.entries = kept;
    }
}

} // verus!
