//! The registry of shared values: which runs of bytes were written, and
//! where, so that a second occurrence is not written again.
//!
//! The runs are kept in the order in which they were registered. A hash
//! table leads from the digest of a run to the run registered last with
//! that digest, and each run leads to the one registered before it with
//! the same digest, so that a lookup compares a run with those of its
//! own digest only.

use crate::document::same_bytes;
use std::collections::HashMap;
use vstd::prelude::*;

verus! {

broadcast use vstd::std_specs::hash::group_hash_axioms;

/// A value was registered a second time.
#[derive(Clone, Copy, Debug, PartialEq, Eq, Structural)]
pub struct DuplicateSharedValue;

/// The digest of the empty run.
pub const DIGEST_OFFSET: u64 = 0xcbf2_9ce4_8422_2325;

/// What a digest is multiplied by after each byte.
pub const DIGEST_PRIME: u64 = 0x0000_0100_0000_01b3;

/// The digest of a run of bytes: the 64-bit FNV-1a hash.
pub open spec fn digest(bytes: Seq<u8>) -> u64
    decreases bytes.len(),
{
    if bytes.len() == 0 {
        DIGEST_OFFSET
    } else {
        (digest(bytes.drop_last()) ^ (bytes.last() as u64)).wrapping_mul(DIGEST_PRIME)
    }
}

/// The digest of `bytes`.
pub fn digest_of(bytes: &[u8]) -> (r: u64)
    ensures
        r == digest(bytes@),
{
    let mut h: u64 = DIGEST_OFFSET;
    let mut i: usize = 0;
    while i < bytes.len()
        invariant
            i <= bytes@.len(),
            h == digest(bytes@.take(i as int)),
        decreases bytes@.len() - i,
    {
        proof {
            assert(bytes@.take(i + 1).drop_last() =~= bytes@.take(i as int));
        }
        h = (h ^ (bytes[i] as u64)).wrapping_mul(DIGEST_PRIME);
        i += 1;
    }
    proof {
        assert(bytes@.take(i as int) =~= bytes@);
    }
    h
}

/// A registered run, the position it was written at, and the run
/// registered before it with the same digest, if any.
#[derive(Debug)]
struct Entry {
    key: Vec<u8>,
    pos: usize,
    before: Option<usize>,
}

/// The entry at `to` is found from the entry at `from` by going back
/// from each entry to the one registered before it.
spec fn reaches(entries: Seq<Entry>, from: int, to: int) -> bool
    decreases from,
{
    0 <= from < entries.len() && (from == to || match entries[from].before {
        Some(earlier) => earlier < from && reaches(entries, earlier as int, to),
        None => false,
    })
}

/// What is found stays found when entries are added.
proof fn lemma_reaches_on(entries: Seq<Entry>, more: Seq<Entry>, from: int, to: int)
    requires
        entries.is_prefix_of(more),
        reaches(entries, from, to),
    ensures
        reaches(more, from, to),
    decreases from,
{
    assert(more[from] == entries[from]);
    if from != to {
        lemma_reaches_on(entries, more, entries[from].before->Some_0 as int, to);
    }
}

/// The registry of shared values: for each run of bytes that was written
/// once, the position where it was written. An entry is written once and
/// never changed.
#[derive(Debug)]
pub struct SharedRegistry {
    entries: Vec<Entry>,
    heads: HashMap<u64, usize>,
}

impl SharedRegistry {
    /// No run of bytes is registered twice, and every run is found from
    /// the head of its digest.
    pub closed spec fn wf(&self) -> bool {
        &&& forall|i: int, j: int|
            0 <= i < j < self.entries@.len() ==> (#[trigger] self.entries@[i]).key@
                != (#[trigger] self.entries@[j]).key@
        &&& forall|i: int|
            0 <= i < self.entries@.len() ==> match (#[trigger] self.entries@[i]).before {
                Some(earlier) => earlier < i && digest(self.entries@[earlier as int].key@)
                    == digest(self.entries@[i].key@),
                None => true,
            }
        &&& forall|h: u64| #[trigger]
            self.heads@.contains_key(h) ==> self.heads@[h] < self.entries@.len() && digest(
                self.entries@[self.heads@[h] as int].key@,
            ) == h
        &&& forall|i: int|
            0 <= i < self.entries@.len() ==> self.heads@.contains_key(
                digest((#[trigger] self.entries@[i]).key@),
            ) && reaches(self.entries@, self.heads@[digest(self.entries@[i].key@)] as int, i)
    }

    /// The position registered for `key`, if any.
    pub closed spec fn lookup(&self, key: Seq<u8>) -> Option<usize> {
        if exists|i: int|
            0 <= i < self.entries@.len() && (#[trigger] self.entries@[i]).key@ == key {
            let i = choose|i: int|
                0 <= i < self.entries@.len() && (#[trigger] self.entries@[i]).key@ == key;
            Some(self.entries@[i].pos)
        } else {
            None
        }
    }

    /// Creates a new, empty registry.
    pub fn new() -> (r: Self)
        ensures
            r.wf(),
            forall|key: Seq<u8>| r.lookup(key) is None,
    {
        SharedRegistry { entries: Vec::new(), heads: HashMap::new() }
    }

    /// Forgets every entry.
    pub fn clear(&mut self)
        ensures
            final(self).wf(),
            forall|key: Seq<u8>| final(self).lookup(key) is None,
    {
        self.entries.clear();
        self.heads.clear();
    }

    /// The position registered for `value`, if any.
    pub fn get_shared_ptr(&self, value: &[u8]) -> (r: Option<usize>)
        requires
            self.wf(),
        ensures
            r == self.lookup(value@),
    {
        let h: u64 = digest_of(value);
        let mut cur: usize = match self.heads.get(&h) {
            Some(head) => *head,
            None => {
                return None;
            },
        };
        loop
            invariant
                self.wf(),
                h == digest(value@),
                cur < self.entries@.len(),
                forall|j: int|
                    0 <= j < self.entries@.len() && (#[trigger] self.entries@[j]).key@ == value@
                        ==> reaches(self.entries@, cur as int, j),
            decreases cur,
        {
            if same_bytes(self.entries[cur].key.as_slice(), value) {
                proof {
                    let found = choose|i: int|
                        0 <= i < self.entries@.len() && (#[trigger] self.entries@[i]).key@
                            == value@;
                    if found < cur {
                        assert(self.entries@[found].key@ != self.entries@[cur as int].key@);
                    } else if cur < found {
                        assert(self.entries@[cur as int].key@ != self.entries@[found].key@);
                    }
                }
                return Some(self.entries[cur].pos);
            }
            match self.entries[cur].before {
                Some(earlier) => {
                    proof {
                        assert(self.entries@[cur as int].before == Some(earlier));
                    }
                    cur = earlier;
                },
                None => {
                    return None;
                },
            }
        }
    }

    /// Registers `pos` for `value`. Fails, and changes nothing, when
    /// `value` is registered already.
    pub fn add_shared_ptr(&mut self, value: &[u8], pos: usize) -> (r: Result<
        (),
        DuplicateSharedValue,
    >)
        requires
            old(self).wf(),
        ensures
            final(self).wf(),
            r is Ok <==> old(self).lookup(value@) is None,
            r is Ok ==> forall|key: Seq<u8>|
                #[trigger] final(self).lookup(key) == if key == value@ {
                    Some(pos)
                } else {
                    old(self).lookup(key)
                },
            r is Err ==> forall|key: Seq<u8>|
                #[trigger] final(self).lookup(key) == old(self).lookup(key),
    {
        if self.get_shared_ptr(value).is_some() {
            return Err(DuplicateSharedValue);
        }
        let h: u64 = digest_of(value);
        let before: Option<usize> = match self.heads.get(&h) {
            Some(head) => Some(*head),
            None => None,
        };
        let at: usize = self.entries.len();
        let ghost earlier = self.entries@;
        let ghost heads = self.heads@;
        self.entries.push(Entry { key: vstd::slice::slice_to_vec(value), pos, before });
        self.heads.insert(h, at);
        proof {
            let now = self.entries@;
            assert(earlier.is_prefix_of(now)) by {
                assert(now.subrange(0, earlier.len() as int) =~= earlier);
            }
            assert(now[at as int].key@ == value@);
            assert forall|i: int| 0 <= i < now.len() implies self.heads@.contains_key(
                digest((#[trigger] now[i]).key@),
            ) && reaches(now, self.heads@[digest(now[i].key@)] as int, i) by {
                if i < at {
                    assert(now[i] == earlier[i]);
                    let d = digest(earlier[i].key@);
                    lemma_reaches_on(earlier, now, heads[d] as int, i);
                    if d == h {
                        assert(before == Some(heads[d]));
                    }
                }
            }
            assert forall|key: Seq<u8>| #[trigger] self.lookup(key) == if key == value@ {
                Some(pos)
            } else {
                old(self).lookup(key)
            } by {
                if key == value@ {
                    let k = choose|k: int| 0 <= k < now.len() && (#[trigger] now[k]).key@ == key;
                    if k < at {
                        assert(earlier[k] == now[k]);
                    }
                } else {
                    if exists|i: int|
                        0 <= i < earlier.len() && (#[trigger] earlier[i]).key@ == key {
                        let i = choose|i: int|
                            0 <= i < earlier.len() && (#[trigger] earlier[i]).key@ == key;
                        assert(now[i].key@ == key);
                        let k = choose|k: int|
                            0 <= k < now.len() && (#[trigger] now[k]).key@ == key;
                        assert(k < earlier.len());
                        assert(earlier[k] == now[k]);
                        let m = choose|m: int|
                            0 <= m < earlier.len() && (#[trigger] earlier[m]).key@ == key;
                        assert(k == m) by {
                            if k < m {
                                assert(earlier[k].key@ != earlier[m].key@);
                            } else if m < k {
                                assert(earlier[m].key@ != earlier[k].key@);
                            }
                        }
                    } else {
                        if exists|k: int| 0 <= k < now.len() && (#[trigger] now[k]).key@ == key {
                            let k = choose|k: int|
                                0 <= k < now.len() && (#[trigger] now[k]).key@ == key;
                            assert(k < earlier.len());
                            assert(earlier[k] == now[k]);
                        }
                    }
                }
            }
        }
        Ok(())
    }
}

impl Default for SharedRegistry {
    fn default() -> (r: Self)
        ensures
            r.wf(),
            forall|key: Seq<u8>| r.lookup(key) is None,
    {
        SharedRegistry::new()
    }
}

} // verus!
