//! A set of operation identifiers with constant expected cost per lookup.
//!
//! An identifier is already a hash, so no further hashing is done: the
//! identifiers are spread over buckets by their first eight bytes.

use std::collections::HashMap;
use vstd::prelude::*;
use crate::operation::OperationId;

verus! {

broadcast use vstd::std_specs::hash::group_hash_axioms;

/// The bucket of an identifier: its first eight bytes, read as a little-endian number.
pub closed spec fn bucket_key(id: OperationId) -> u64 {
    let b = id@;
    (b[0] as int + b[1] as int * 0x100 + b[2] as int * 0x1_0000 + b[3] as int * 0x100_0000 + b[4] as int
        * 0x1_0000_0000 + b[5] as int * 0x100_0000_0000 + b[6] as int * 0x1_0000_0000_0000 + b[7] as int
        * 0x100_0000_0000_0000) as u64
}

fn bucket_of(id: &OperationId) -> (k: u64)
    ensures
        k == bucket_key(*id),
{
    let b = id.to_bytes();
    (b[0] as u64) + (b[1] as u64) * 0x100 + (b[2] as u64) * 0x1_0000 + (b[3] as u64) * 0x100_0000 + (
    b[4] as u64) * 0x1_0000_0000 + (b[5] as u64) * 0x100_0000_0000 + (b[6] as u64)
        * 0x1_0000_0000_0000 + (b[7] as u64) * 0x100_0000_0000_0000
}

/// Position of `id` in `ids`, if it occurs there.
pub fn position_of(ids: &Vec<OperationId>, id: &OperationId) -> (r: Option<usize>)
    ensures
        match r {
            Some(i) => i < ids@.len() && ids@[i as int] == *id,
            None => !ids@.contains(*id),
        },
{
    let mut i: usize = 0;
    while i < ids.len()
        invariant
            i <= ids@.len(),
            forall|j: int| 0 <= j < i ==> ids@[j] != *id,
        decreases ids@.len() - i,
    {
        if ids[i].equals(id) {
            return Some(i);
        }
        i += 1;
    }
    None
}

/// A finite set of operation identifiers.
pub struct OperationIdSet {
    buckets: HashMap<u64, Vec<OperationId>>,
    count: usize,
    elems: Ghost<Set<OperationId>>,
}

impl View for OperationIdSet {
    type V = Set<OperationId>;

    closed spec fn view(&self) -> Set<OperationId> {
        self.elems@
    }
}

impl Clone for OperationIdSet {
    /// A set with the same members.
    fn clone(&self) -> (copy: Self)
        ensures
            copy@ == self@,
            self.wf() ==> copy.wf(),
    {
        OperationIdSet {
            buckets: self.buckets.clone(),
            count: self.count,
            elems: Ghost(self.elems@),
        }
    }
}

impl OperationIdSet {
    /// The representation invariant: the buckets hold exactly the members,
    /// each once and in the bucket of its key, and the count is their number.
    pub closed spec fn wf(&self) -> bool {
        &&& self.elems@.finite()
        &&& self.count == self.elems@.len()
        &&& forall|k: u64, j: int|
            #![trigger self.buckets@[k]@[j]]
            self.buckets@.contains_key(k) && 0 <= j < self.buckets@[k]@.len() ==> bucket_key(
                self.buckets@[k]@[j],
            ) == k && self.elems@.contains(self.buckets@[k]@[j])
        &&& forall|k: u64, i: int, j: int|
            #![trigger self.buckets@[k]@[i], self.buckets@[k]@[j]]
            self.buckets@.contains_key(k) && 0 <= i < j < self.buckets@[k]@.len()
                ==> self.buckets@[k]@[i] != self.buckets@[k]@[j]
        &&& forall|x: OperationId| #[trigger]
            self.elems@.contains(x) ==> self.buckets@.contains_key(bucket_key(x))
                && self.buckets@[bucket_key(x)]@.contains(x)
    }

    /// The empty set.
    pub fn new() -> (s: OperationIdSet)
        ensures
            s.wf(),
            s@ == Set::<OperationId>::empty(),
    {
        OperationIdSet { buckets: HashMap::new(), count: 0, elems: Ghost(Set::empty()) }
    }

    /// Number of members.
    pub fn len(&self) -> (n: usize)
        requires
            self.wf(),
        ensures
            n == self@.len(),
    {
        self.count
    }

    /// Whether the set has no member.
    pub fn is_empty(&self) -> (b: bool)
        requires
            self.wf(),
        ensures
            b == (self@.len() == 0),
            b == (self@ == Set::<OperationId>::empty()),
    {
        proof {
            if self.elems@.len() == 0 {
                self.elems@.lemma_len0_is_empty();
                assert(self.elems@ =~= Set::empty());
            }
        }
        self.count == 0
    }

    /// Whether `id` is a member.
    pub fn contains(&self, id: &OperationId) -> (b: bool)
        requires
            self.wf(),
        ensures
            b == self@.contains(*id),
    {
        let key = bucket_of(id);
        match self.buckets.get(&key) {
            None => false,
            Some(bucket) => position_of(bucket, id).is_some(),
        }
    }

    /// Adds `id` and tells whether it was new. A member is never added twice.
    pub fn insert(&mut self, id: OperationId) -> (fresh: bool)
        requires
            old(self).wf(),
            old(self)@.len() < usize::MAX,
        ensures
            final(self).wf(),
            fresh == !old(self)@.contains(id),
            final(self)@ == old(self)@.insert(id),
    {
        let key = bucket_of(&id);
        let mut bucket = match self.buckets.remove(&key) {
            None => Vec::new(),
            Some(bucket) => bucket,
        };
        let ghost before = old(self).buckets@;
        let ghost old_bucket = bucket@;
        if position_of(&bucket, &id).is_some() {
            self.buckets.insert(key, bucket);
            assert(self.buckets@ =~= before);
            assert(old(self)@.insert(id) =~= old(self)@);
            return false;
        }
        bucket.push(id);
        self.buckets.insert(key, bucket);
        self.count = self.count + 1;
        self.elems = Ghost(self.elems@.insert(id));
        proof {
            assert(!old(self).elems@.contains(id));
            assert(self.buckets@[key]@ == old_bucket.push(id));
            assert forall|k: u64, j: int|
                #![trigger self.buckets@[k]@[j]]
                self.buckets@.contains_key(k) && 0 <= j < self.buckets@[k]@.len() implies bucket_key(
                self.buckets@[k]@[j],
            ) == k && self.elems@.contains(self.buckets@[k]@[j]) by {
                if k == key {
                    if j < old_bucket.len() {
                        assert(self.buckets@[k]@[j] == before[k]@[j]);
                    }
                } else {
                    assert(self.buckets@[k]@[j] == before[k]@[j]);
                }
            }
            assert forall|k: u64, i: int, j: int|
                #![trigger self.buckets@[k]@[i], self.buckets@[k]@[j]]
                self.buckets@.contains_key(k) && 0 <= i < j < self.buckets@[k]@.len()
                    implies self.buckets@[k]@[i] != self.buckets@[k]@[j] by {
                if k == key {
                    if j < old_bucket.len() {
                        assert(self.buckets@[k]@[i] == before[k]@[i]);
                        assert(self.buckets@[k]@[j] == before[k]@[j]);
                    } else {
                        assert(self.buckets@[k]@[i] == old_bucket[i]);
                    }
                } else {
                    assert(self.buckets@[k]@[i] == before[k]@[i]);
                    assert(self.buckets@[k]@[j] == before[k]@[j]);
                }
            }
            assert forall|x: OperationId| #[trigger]
                self.elems@.contains(x) implies self.buckets@.contains_key(bucket_key(x))
                && self.buckets@[bucket_key(x)]@.contains(x) by {
                if x == id {
                    assert(self.buckets@[key]@[old_bucket.len() as int] == id);
                } else {
                    assert(old(self).elems@.contains(x));
                    let kx = bucket_key(x);
                    let i = choose|i: int| 0 <= i < before[kx]@.len() && before[kx]@[i] == x;
                    assert(self.buckets@[kx]@[i] == x);
                }
            }
        }
        true
    }

    /// Removes `id` and tells whether it was a member.
    pub fn remove(&mut self, id: &OperationId) -> (found: bool)
        requires
            old(self).wf(),
        ensures
            final(self).wf(),
            found == old(self)@.contains(*id),
            final(self)@ == old(self)@.remove(*id),
    {
        let key = bucket_of(id);
        let ghost before = old(self).buckets@;
        let mut bucket = match self.buckets.remove(&key) {
            None => {
                assert(self.buckets@ =~= before);
                assert(old(self)@.remove(*id) =~= old(self)@);
                return false;
            },
            Some(bucket) => bucket,
        };
        let ghost old_bucket = bucket@;
        match position_of(&bucket, id) {
            None => {
                self.buckets.insert(key, bucket);
                assert(self.buckets@ =~= before);
                assert(old(self)@.remove(*id) =~= old(self)@);
                false
            },
            Some(at) => {
                let _ = bucket.remove(at);
                let ghost new_bucket = bucket@;
                if bucket.len() > 0 {
                    self.buckets.insert(key, bucket);
                }
                self.count = self.count - 1;
                self.elems = Ghost(self.elems@.remove(*id));
                proof {
                    assert(new_bucket == old_bucket.remove(at as int));
                    assert forall|k: u64, j: int|
                        #![trigger self.buckets@[k]@[j]]
                        self.buckets@.contains_key(k) && 0 <= j < self.buckets@[k]@.len() implies bucket_key(
                        self.buckets@[k]@[j],
                    ) == k && self.elems@.contains(self.buckets@[k]@[j]) by {
                        if k == key {
                            let jj = if j < at { j } else { j + 1 };
                            assert(self.buckets@[k]@[j] == before[k]@[jj]);
                            assert(before[k]@[at as int] == *id);
                        } else {
                            assert(self.buckets@[k]@[j] == before[k]@[j]);
                        }
                    }
                    assert forall|k: u64, i: int, j: int|
                        #![trigger self.buckets@[k]@[i], self.buckets@[k]@[j]]
                        self.buckets@.contains_key(k) && 0 <= i < j < self.buckets@[k]@.len()
                            implies self.buckets@[k]@[i] != self.buckets@[k]@[j] by {
                        if k == key {
                            let ii = if i < at { i } else { i + 1 };
                            let jj = if j < at { j } else { j + 1 };
                            assert(self.buckets@[k]@[i] == before[k]@[ii]);
                            assert(self.buckets@[k]@[j] == before[k]@[jj]);
                        } else {
                            assert(self.buckets@[k]@[i] == before[k]@[i]);
                            assert(self.buckets@[k]@[j] == before[k]@[j]);
                        }
                    }
                    assert forall|x: OperationId| #[trigger]
                        self.elems@.contains(x) implies self.buckets@.contains_key(bucket_key(x))
                        && self.buckets@[bucket_key(x)]@.contains(x) by {
                        assert(old(self).elems@.contains(x));
                        let kx = bucket_key(x);
                        let i = choose|i: int| 0 <= i < before[kx]@.len() && before[kx]@[i] == x;
                        if kx == key {
                            assert(i != at);
                            let ii = if i < at { i } else { i - 1 };
                            assert(new_bucket[ii] == x);
                            assert(self.buckets@[kx]@[ii] == x);
                        } else {
                            assert(self.buckets@[kx]@[i] == x);
                        }
                    }
                }
                true
            },
        }
    }
}

} // verus!
