//! A pool of recyclable slot indices.
//!
//! The allocator hands out the indices `0, 1, 2, ...` and takes released
//! indices back into a free list; the most recently released index is
//! reused first. It knows nothing about versions: stale-handle detection
//! is layered on top by [`crate::entity_manager::EntityManager`].

use crate::registry_error::RegistryError;
use crate::types::INDEX_MASK;
use vstd::prelude::*;

verus! {

/// Relies on `Vec::capacity`: the capacity of a vector is at least its
/// length.
#[verifier::external_body]
fn vec_capacity_of(v: &Vec<u32>) -> (c: usize)
    ensures
        c >= v@.len(),
{
    v.capacity()
}

/// Issues and recycles slot indices below [`INDEX_MASK`]` + 1`.
pub struct EntityAllocator {
    next_id: u32,
    free_ids: Vec<u32>,
}

impl EntityAllocator {
    /// Lowest index never handed out so far.
    pub closed spec fn spec_next(self) -> u32 {
        self.next_id
    }

    /// Released indices awaiting reuse, oldest first.
    pub closed spec fn spec_free(self) -> Seq<u32> {
        self.free_ids@
    }

    /// Whether `id` is currently in the free pool.
    pub open spec fn spec_is_free(self, id: u32) -> bool {
        self.spec_free().contains(id)
    }

    /// Every free index was handed out before and appears only once, and
    /// the pool never outgrows the index bit-width.
    pub open spec fn wf(self) -> bool {
        &&& self.spec_next() <= INDEX_MASK + 1
        &&& forall|i: int|
            0 <= i < self.spec_free().len() ==> (#[trigger] self.spec_free()[i])
                < self.spec_next()
        &&& self.spec_free().no_duplicates()
    }

    /// Creates an empty allocator.
    pub fn new() -> (r: EntityAllocator)
        ensures
            r.wf(),
            r.spec_next() == 0,
            r.spec_free() == Seq::<u32>::empty(),
    {
        EntityAllocator { next_id: 0, free_ids: Vec::new() }
    }

    /// Creates an empty allocator whose free pool has room for `capacity`
    /// indices before reallocating.
    pub fn with_capacity(capacity: usize) -> (r: EntityAllocator)
        ensures
            r.wf(),
            r.spec_next() == 0,
            r.spec_free() == Seq::<u32>::empty(),
    {
        EntityAllocator { next_id: 0, free_ids: Vec::with_capacity(capacity) }
    }

    /// Hands out an index: the most recently released one if any is free,
    /// otherwise the next never-used index. Fails with `CapacityExceeded`
    /// once all `INDEX_MASK + 1` indices are in use.
    pub fn create(&mut self) -> (r: Result<u32, RegistryError>)
        requires
            old(self).wf(),
        ensures
            final(self).wf(),
            old(self).spec_free().len() > 0 ==> r == Ok::<u32, RegistryError>(
                old(self).spec_free().last(),
            ) && final(self).spec_free() == old(self).spec_free().drop_last() && final(self).spec_next() == old(self).spec_next(),
            old(self).spec_free().len() == 0 && old(self).spec_next() <= INDEX_MASK ==> r
                == Ok::<u32, RegistryError>(old(self).spec_next()) && final(self).spec_free()
                == old(self).spec_free() && final(self).spec_next() == old(self).spec_next() + 1,
            old(self).spec_free().len() == 0 && old(self).spec_next() > INDEX_MASK ==> r
                == Err::<u32, RegistryError>(RegistryError::CapacityExceeded) && final(self).spec_free()
                == old(self).spec_free() && final(self).spec_next() == old(self).spec_next(),
            r is Ok ==> r.unwrap() <= INDEX_MASK && r.unwrap() < final(self).spec_next() && !final(self).spec_is_free(r.unwrap()),
    {
        match self.free_ids.pop() {
            Some(id) => {
                proof {
                    let f = old(self).free_ids@;
                    assert forall|i: int, j: int|
                        0 <= i < f.drop_last().len() && 0 <= j < f.drop_last().len() && i
                            != j implies f.drop_last()[i] != f.drop_last()[j] by {
                        assert(f[i] != f[j]);
                    }
                    assert(!self.free_ids@.contains(id)) by {
                        if self.free_ids@.contains(id) {
                            let k = choose|k: int|
                                0 <= k < self.free_ids@.len() && self.free_ids@[k] == id;
                            assert(f[k] == f[f.len() - 1]);
                        }
                    }
                }
                Ok(id)
            },
            None => {
                if self.next_id <= INDEX_MASK {
                    let idx = self.next_id;
                    self.next_id = self.next_id + 1;
                    proof {
                        assert(!self.free_ids@.contains(idx)) by {
                            if self.free_ids@.contains(idx) {
                                let k = choose|k: int|
                                    0 <= k < self.free_ids@.len() && self.free_ids@[k] == idx;
                            }
                        }
                    }
                    Ok(idx)
                } else {
                    Err(RegistryError::CapacityExceeded)
                }
            },
        }
    }

    /// Whether `id` currently sits in the free pool.
    pub fn is_free(&self, id: u32) -> (b: bool)
        ensures
            b == self.spec_is_free(id),
    {
        let n: usize = self.free_ids.len();
        let mut k: usize = 0;
        while k < n
            invariant
                k <= n,
                n == self.free_ids@.len(),
                forall|t: int| 0 <= t < k ==> self.free_ids@[t] != id,
            decreases n - k,
        {
            if self.free_ids[k] == id {
                return true;
            }
            k = k + 1;
        }
        proof {
            if self.free_ids@.contains(id) {
                let t = choose|t: int| 0 <= t < self.free_ids@.len() && self.free_ids@[t] == id;
            }
        }
        false
    }

    /// Returns `id` to the free pool. Fails with `NoSuchEntity` when `id`
    /// was never handed out or is already free.
    pub fn destroy(&mut self, id: u32) -> (r: Result<(), RegistryError>)
        requires
            old(self).wf(),
        ensures
            final(self).wf(),
            id >= old(self).spec_next() || old(self).spec_is_free(id) ==> r == Err::<
                (),
                RegistryError,
            >(RegistryError::NoSuchEntity) && *final(self) == *old(self),
            id < old(self).spec_next() && !old(self).spec_is_free(id) ==> r == Ok::<
                (),
                RegistryError,
            >(()) && final(self).spec_free() == old(self).spec_free().push(id) && final(self).spec_next() == old(self).spec_next(),
    {
        if id >= self.next_id {
            return Err(RegistryError::NoSuchEntity);
        }
        if self.is_free(id) {
            return Err(RegistryError::NoSuchEntity);
        }
        self.free_ids.push(id);
        proof {
            let f = old(self).free_ids@;
            assert forall|i: int, j: int|
                0 <= i < f.push(id).len() && 0 <= j < f.push(id).len() && i != j implies f.push(
                id,
            )[i] != f.push(id)[j] by {
                if i < f.len() && j < f.len() {
                    assert(f[i] != f[j]);
                } else if i < f.len() {
                    assert(!f.contains(id));
                    assert(f[i] != id) by {
                        if f[i] == id {
                            assert(f.contains(id));
                        }
                    }
                } else if j < f.len() {
                    assert(!f.contains(id));
                    assert(f[j] != id) by {
                        if f[j] == id {
                            assert(f.contains(id));
                        }
                    }
                }
            }
        }
        Ok(())
    }

    /// Grows the free pool's capacity by at least `amount` extra slots.
    pub fn reserve(&mut self, amount: usize)
        requires
            old(self).wf(),
        ensures
            final(self).wf(),
            final(self).spec_next() == old(self).spec_next(),
            final(self).spec_free() == old(self).spec_free(),
    {
        self.free_ids.reserve(amount);
    }

    /// Number of free-pool slots allocated in memory; at least the number
    /// of indices currently free.
    pub fn capacity(&self) -> (c: usize)
        ensures
            c >= self.spec_free().len(),
    {
        vec_capacity_of(&self.free_ids)
    }
}

} // verus!
