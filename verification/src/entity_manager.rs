//! Generational entity handles.
//!
//! Each slot index carries a stored version; a handle is alive exactly
//! while its version field equals the stored version of its slot.
//! Destroying an entity bumps the stored version, so every handle issued
//! earlier for that slot is dead from then on, and the slot is recycled
//! (most recently freed first) with the new version. A slot whose version
//! field is exhausted is retired instead of recycled, so a destroyed
//! handle can never come back to life.

use crate::entity_allocator::EntityAllocator;
use crate::registry_error::RegistryError;
use crate::types::build_entity_index;
use crate::types::get_entity_index;
use crate::types::get_entity_version;
use crate::types::spec_entity_index;
use crate::types::spec_entity_version;
use crate::types::Entity;
use crate::types::INDEX_MASK;
use crate::types::MAX_VERSION;
use vstd::prelude::*;

verus! {

/// Issues generational entity handles and detects stale ones.
pub struct EntityManager {
    versions: Vec<u32>,
    allocator: EntityAllocator,
}

impl EntityManager {
    /// Stored version of every slot handed out so far.
    pub closed spec fn spec_versions(self) -> Seq<u32> {
        self.versions@
    }

    /// The free pool itself, most recently freed last.
    pub closed spec fn spec_free_seq(self) -> Seq<u32> {
        self.allocator.spec_free()
    }

    /// Whether slot `id` waits in the free pool for reuse.
    pub open spec fn spec_free(self, id: u32) -> bool {
        self.spec_free_seq().contains(id)
    }

    /// A handle is alive while its version equals its slot's stored version.
    pub open spec fn spec_alive(self, e: Entity) -> bool {
        &&& spec_entity_index(e) < self.spec_versions().len()
        &&& self.spec_versions()[spec_entity_index(e) as int] == spec_entity_version(e)
    }

    /// One stored version per slot the allocator has handed out; free slots
    /// still have an issuable version; retired slots sit one past
    /// [`MAX_VERSION`].
    pub closed spec fn wf(self) -> bool {
        &&& self.allocator.wf()
        &&& self.allocator.spec_next() == self.versions@.len()
        &&& self.versions@.len() <= INDEX_MASK + 1
        &&& forall|i: int|
            0 <= i < self.versions@.len() ==> (#[trigger] self.versions@[i]) <= MAX_VERSION + 1
        &&& forall|k: int|
            0 <= k < self.allocator.spec_free().len() ==> self.versions@[(
            #[trigger] self.allocator.spec_free()[k]) as int] <= MAX_VERSION
    }

    /// Creates a manager with no entities.
    pub fn new() -> (r: EntityManager)
        ensures
            r.wf(),
            r.spec_versions() == Seq::<u32>::empty(),
            r.spec_free_seq() == Seq::<u32>::empty(),
    {
        EntityManager { versions: Vec::new(), allocator: EntityAllocator::new() }
    }

    /// Pre-grows the version table and free pool for `amount` more entities.
    pub fn reserve(&mut self, amount: usize)
        requires
            old(self).wf(),
        ensures
            final(self).wf(),
            final(self).spec_versions() == old(self).spec_versions(),
            final(self).spec_free_seq() == old(self).spec_free_seq(),
    {
        self.versions.reserve(amount);
        self.allocator.reserve(amount);
    }

    /// Creates an entity: reuses the most recently freed slot with its
    /// current stored version, or opens a fresh slot with version zero.
    /// Fails with `CapacityExceeded` only when every slot index is in use.
    pub fn create(&mut self) -> (r: Result<Entity, RegistryError>)
        requires
            old(self).wf(),
        ensures
            final(self).wf(),
            r is Err ==> r == Err::<Entity, RegistryError>(RegistryError::CapacityExceeded)
                && old(self).spec_free_seq().len() == 0 && old(self).spec_versions().len()
                > INDEX_MASK && final(self).spec_versions() == old(self).spec_versions()
                && final(self).spec_free_seq() == old(self).spec_free_seq(),
            r is Ok ==> final(self).spec_alive(r.unwrap()) && !final(self).spec_free(
                spec_entity_index(r.unwrap()),
            ) && spec_entity_version(r.unwrap()) == final(self).spec_versions()[spec_entity_index(
                r.unwrap(),
            ) as int],
            r is Ok && old(self).spec_free_seq().len() > 0 ==> spec_entity_index(r.unwrap()) == old(self).spec_free_seq().last() && spec_entity_version(r.unwrap()) == old(self).spec_versions()[old(self).spec_free_seq().last() as int] && final(self).spec_versions() == old(self).spec_versions() && final(self).spec_free_seq() == old(self).spec_free_seq().drop_last(),
            r is Ok && old(self).spec_free_seq().len() == 0 ==> spec_entity_index(r.unwrap())
                == old(self).spec_versions().len() && spec_entity_version(r.unwrap()) == 0 && final(self).spec_versions() == old(self).spec_versions().push(0u32) && final(self).spec_free_seq() == old(self).spec_free_seq(),
    {
        let idx = match self.allocator.create() {
            Ok(idx) => idx,
            Err(e) => {
                return Err(e);
            },
        };
        if idx as usize == self.versions.len() {
            self.versions.push(0);
        }
        let version = self.versions[idx as usize];
        Ok(build_entity_index(idx, version))
    }

    /// Destroys a live entity: bumps its slot's stored version, killing the
    /// handle for good, and recycles the slot unless its version field is
    /// exhausted. Fails with `NoSuchEntity` when the handle is stale, out
    /// of range, or its slot is already awaiting reuse.
    pub fn destroy(&mut self, e: Entity) -> (r: Result<(), RegistryError>)
        requires
            old(self).wf(),
        ensures
            final(self).wf(),
            !old(self).spec_alive(e) || old(self).spec_free(spec_entity_index(e)) ==> r == Err::<
                (),
                RegistryError,
            >(RegistryError::NoSuchEntity) && final(self).spec_versions() == old(self).spec_versions() && final(self).spec_free_seq() == old(self).spec_free_seq(),
            old(self).spec_alive(e) && !old(self).spec_free(spec_entity_index(e)) ==> r == Ok::<
                (),
                RegistryError,
            >(()) && final(self).spec_versions() == old(self).spec_versions().update(
                spec_entity_index(e) as int,
                (spec_entity_version(e) + 1) as u32,
            ) && !final(self).spec_alive(e) && (spec_entity_version(e) < MAX_VERSION ==> final(self).spec_free_seq() == old(self).spec_free_seq().push(spec_entity_index(e))) && (
            spec_entity_version(e) == MAX_VERSION ==> final(self).spec_free_seq() == old(self).spec_free_seq()),
    {
        let idx = get_entity_index(e);
        let ver = get_entity_version(e);
        if idx as usize >= self.versions.len() {
            return Err(RegistryError::NoSuchEntity);
        }
        if self.versions[idx as usize] != ver {
            return Err(RegistryError::NoSuchEntity);
        }
        if self.allocator.is_free(idx) {
            return Err(RegistryError::NoSuchEntity);
        }
        self.versions[idx as usize] = ver + 1;
        if ver < MAX_VERSION {
            let freed = self.allocator.destroy(idx);
            proof {
                assert(freed is Ok);
            }
        }
        proof {
            let old_fs = old(self).allocator.spec_free();
            let fs = self.allocator.spec_free();
            assert forall|k: int|
                0 <= k < fs.len() implies self.versions@[(#[trigger] fs[k]) as int]
                <= MAX_VERSION by {
                if ver < MAX_VERSION {
                    assert(fs == old_fs.push(idx));
                    if k < old_fs.len() {
                        if old_fs[k] == idx {
                            assert(old_fs.contains(idx));
                        } else {
                            assert(old(self).versions@[old_fs[k] as int] <= MAX_VERSION);
                        }
                    } else {
                        assert(fs[k] == idx);
                    }
                } else {
                    assert(fs == old_fs);
                    if old_fs[k] == idx {
                        assert(old_fs.contains(idx));
                    } else {
                        assert(old(self).versions@[old_fs[k] as int] <= MAX_VERSION);
                    }
                }
            }
        }
        Ok(())
    }

    /// Whether `e`'s version matches its slot's stored version.
    pub fn is_alive(&self, e: Entity) -> (b: bool)
        requires
            self.wf(),
        ensures
            b == self.spec_alive(e),
    {
        let idx = get_entity_index(e);
        let ver = get_entity_version(e);
        (idx as usize) < self.versions.len() && self.versions[idx as usize] == ver
    }

    /// The stored version table, one entry per slot handed out so far.
    pub fn get_versions(&self) -> (v: &Vec<u32>)
        ensures
            v@ == self.spec_versions(),
    {
        &self.versions
    }
}

/// A handle whose slot's stored version has moved past it is dead, in this
/// state and in every later one: stored versions only grow, so a destroyed
/// handle is never reported alive again.
pub proof fn lemma_stale_handle_stays_dead(m1: EntityManager, m2: EntityManager, e: Entity)
    requires
        spec_entity_index(e) < m1.spec_versions().len(),
        m1.spec_versions()[spec_entity_index(e) as int] > spec_entity_version(e),
        m1.spec_versions().len() <= m2.spec_versions().len(),
        forall|i: int|
            0 <= i < m1.spec_versions().len() ==> (#[trigger] m2.spec_versions()[i])
                >= m1.spec_versions()[i],
    ensures
        !m1.spec_alive(e),
        !m2.spec_alive(e),
        m2.spec_versions()[spec_entity_index(e) as int] > spec_entity_version(e),
{
}

/// After an entity is destroyed, a later `create` that reuses its slot
/// index issues a handle whose version is strictly greater, and the old
/// handle stays dead.
pub proof fn lemma_recreated_slot_has_newer_version(m: EntityManager, e_old: Entity, e_new: Entity)
    requires
        spec_entity_index(e_new) == spec_entity_index(e_old),
        spec_entity_index(e_old) < m.spec_versions().len(),
        m.spec_versions()[spec_entity_index(e_old) as int] > spec_entity_version(e_old),
        spec_entity_version(e_new) == m.spec_versions()[spec_entity_index(e_new) as int],
    ensures
        spec_entity_version(e_new) > spec_entity_version(e_old),
        !m.spec_alive(e_old),
        e_new != e_old,
{
}

} // verus!
