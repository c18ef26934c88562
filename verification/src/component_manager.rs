//! One sparse set per registered component kind.
//!
//! A component kind is identified by the small integer handed out by
//! [`ComponentManager::register`]; each kind owns a
//! [`SparseSet`] of values. Operations on an unregistered kind fail with
//! `NoSuchComponentSet` and touch nothing.

use crate::component::Component;
use crate::registry_error::RegistryError;
use crate::registry_error::SparseSetError;
use crate::sparse_set::SparseSet;
use crate::types::spec_entity_index;
use crate::types::Entity;
use crate::types::SPARSE_SET_SIZE;
use vstd::prelude::*;

verus! {

/// Owns the component storage of every registered kind.
pub struct ComponentManager<T> {
    sets: Vec<SparseSet<T>>,
}

impl<T: Component> ComponentManager<T> {
    /// All storages, one per registered kind, in registration order.
    pub closed spec fn spec_sets(self) -> Seq<SparseSet<T>> {
        self.sets@
    }

    /// Number of registered component kinds.
    pub open spec fn spec_count(self) -> nat {
        self.spec_sets().len()
    }

    /// The storage of kind `c`.
    pub open spec fn spec_set(self, c: int) -> SparseSet<T> {
        self.spec_sets()[c]
    }

    /// The contents of kind `c`, as a map from entity index to value.
    pub open spec fn spec_view(self, c: int) -> Map<u32, T> {
        self.spec_set(c)@
    }

    /// Every kind's storage is internally consistent.
    pub open spec fn wf(self) -> bool {
        forall|c: int| 0 <= c < self.spec_count() ==> (#[trigger] self.spec_set(c)).wf()
    }

    /// Creates a manager with no registered kinds.
    pub fn new() -> (r: ComponentManager<T>)
        ensures
            r.wf(),
            r.spec_count() == 0,
    {
        ComponentManager { sets: Vec::new() }
    }

    /// Number of registered kinds.
    pub fn count(&self) -> (n: usize)
        ensures
            n == self.spec_count(),
    {
        self.sets.len()
    }

    /// Registers a new component kind and returns its identifier. Each
    /// identifier is handed out once and stays valid for the manager's
    /// lifetime.
    pub fn register(&mut self) -> (c: usize)
        requires
            old(self).wf(),
        ensures
            final(self).wf(),
            c == old(self).spec_count(),
            final(self).spec_count() == old(self).spec_count() + 1,
            forall|c2: int|
                0 <= c2 < old(self).spec_count() ==> #[trigger] final(self).spec_set(c2) == old(self).spec_set(c2),
            final(self).spec_view(c as int) == Map::<u32, T>::empty(),
            final(self).spec_set(c as int).spec_entities() == Seq::<Entity>::empty(),
    {
        let c = self.sets.len();
        let fresh: SparseSet<T> = SparseSet::new();
        self.sets.push(fresh);
        proof {
            assert forall|c2: int|
                0 <= c2 < self.spec_count() implies (#[trigger] self.spec_set(c2)).wf() by {
                if c2 < old(self).spec_count() {
                    assert(self.spec_set(c2) == old(self).spec_set(c2));
                    assert(old(self).spec_set(c2).wf());
                } else {
                    assert(self.spec_set(c2) == fresh);
                }
            }
            assert forall|c2: int|
                0 <= c2 < old(self).spec_count() implies #[trigger] self.spec_set(c2) == old(self).spec_set(c2) by {
            }
            assert(self.spec_set(c as int) == fresh);
        }
        c
    }

    /// Stores `value` for entity `e` under kind `comp`, overwriting any
    /// value already there. Fails only when `comp` was never registered.
    pub fn attach(&mut self, comp: usize, e: Entity, value: T) -> (r: Result<(), RegistryError>)
        requires
            old(self).wf(),
        ensures
            final(self).wf(),
            final(self).spec_count() == old(self).spec_count(),
            comp >= old(self).spec_count() ==> r == Err::<(), RegistryError>(
                RegistryError::NoSuchComponentSet,
            ) && *final(self) == *old(self),
            comp < old(self).spec_count() ==> r == Ok::<(), RegistryError>(()) && final(self).spec_view(comp as int) == old(self).spec_view(comp as int).insert(
                spec_entity_index(e),
                value,
            ) && (forall|c2: int|
                0 <= c2 < old(self).spec_count() && c2 != comp ==> #[trigger] final(self).spec_set(
                    c2,
                ) == old(self).spec_set(c2)) && (old(self).spec_view(comp as int).contains_key(
                spec_entity_index(e),
            ) ==> final(self).spec_set(comp as int).spec_entities() == old(self).spec_set(
                comp as int,
            ).spec_entities()) && (!old(self).spec_view(comp as int).contains_key(
                spec_entity_index(e),
            ) ==> final(self).spec_set(comp as int).spec_entities() == old(self).spec_set(
                comp as int,
            ).spec_entities().push(e)),
    {
        if comp >= self.sets.len() {
            return Err(RegistryError::NoSuchComponentSet);
        }
        proof {
            assert(self.spec_set(comp as int).wf());
        }
        let set: &mut SparseSet<T> = &mut self.sets[comp];
        let r = set.insert(e, value);
        proof {
            assert(r is Ok);
        }
        proof {
            assert forall|c2: int|
                0 <= c2 < self.spec_count() implies (#[trigger] self.spec_set(c2)).wf() by {
                if c2 == comp as int {
                    assert(self.spec_set(c2) == self.sets@[c2]);
                } else {
                    assert(self.spec_set(c2) == old(self).spec_set(c2));
                    assert(old(self).spec_set(c2).wf());
                }
            }
        }
        Ok(())
    }

    /// Removes entity `e`'s value of kind `comp`. Fails with
    /// `NoSuchComponentSet` for an unregistered kind and with the sparse
    /// set's `InvalidPosition` when `e` holds no such component; in both
    /// cases nothing changes.
    pub fn detach(&mut self, comp: usize, e: Entity) -> (r: Result<(), RegistryError>)
        requires
            old(self).wf(),
        ensures
            final(self).wf(),
            final(self).spec_count() == old(self).spec_count(),
            comp >= old(self).spec_count() ==> r == Err::<(), RegistryError>(
                RegistryError::NoSuchComponentSet,
            ) && *final(self) == *old(self),
            comp < old(self).spec_count() && !old(self).spec_view(comp as int).contains_key(
                spec_entity_index(e),
            ) ==> r == Err::<(), RegistryError>(
                RegistryError::SparseSet(SparseSetError::InvalidPosition),
            ) && (forall|c2: int|
                0 <= c2 < old(self).spec_count() ==> #[trigger] final(self).spec_set(c2) == old(self).spec_set(c2)),
            comp < old(self).spec_count() && old(self).spec_view(comp as int).contains_key(
                spec_entity_index(e),
            ) ==> r == Ok::<(), RegistryError>(()) && final(self).spec_view(comp as int) == old(self).spec_view(comp as int).remove(spec_entity_index(e)) && (forall|c2: int|
                0 <= c2 < old(self).spec_count() && c2 != comp ==> #[trigger] final(self).spec_set(
                    c2,
                ) == old(self).spec_set(c2)) && final(self).spec_set(comp as int).spec_entities()
                == old(self).spec_set(comp as int).spec_entities().update(
                old(self).spec_set(comp as int).slot(spec_entity_index(e)) as int,
                old(self).spec_set(comp as int).spec_entities().last(),
            ).drop_last(),
    {
        if comp >= self.sets.len() {
            return Err(RegistryError::NoSuchComponentSet);
        }
        proof {
            assert(self.spec_set(comp as int).wf());
        }
        let set: &mut SparseSet<T> = &mut self.sets[comp];
        match set.remove(e) {
            Ok(()) => {
                proof {
                    assert(self.sets@ =~= old(self).sets@.update(
                        comp as int,
                        self.sets@[comp as int],
                    ));
                }
        proof {
            assert forall|c2: int|
                0 <= c2 < self.spec_count() implies (#[trigger] self.spec_set(c2)).wf() by {
                if c2 == comp as int {
                    assert(self.spec_set(c2) == self.sets@[c2]);
                } else {
                    assert(self.spec_set(c2) == old(self).spec_set(c2));
                    assert(old(self).spec_set(c2).wf());
                }
            }
        }
                Ok(())
            },
            Err(err) => {
                proof {
                    assert(self.sets@ =~= old(self).sets@);
                    assert forall|c2: int|
                        0 <= c2 < self.spec_count() implies (#[trigger] self.spec_set(c2)).wf() by {
                        assert(self.spec_set(c2) == old(self).spec_set(c2));
                        assert(old(self).spec_set(c2).wf());
                    }
                }
                Err(RegistryError::SparseSet(err))
            },
        }
    }

    /// Reads entity `e`'s value of kind `comp`, if the kind is registered
    /// and the entity holds one.
    pub fn get(&self, comp: usize, e: Entity) -> (r: Option<&T>)
        requires
            self.wf(),
        ensures
            (comp < self.spec_count() && self.spec_view(comp as int).contains_key(
                spec_entity_index(e),
            )) <==> r is Some,
            r is Some ==> *r.unwrap() == self.spec_view(comp as int)[spec_entity_index(e)],
    {
        if comp >= self.sets.len() {
            return None;
        }
        proof {
            assert(self.spec_set(comp as int).wf());
        }
        self.sets[comp].get(e)
    }

    /// Hands out a mutable borrow of entity `e`'s value of kind `comp`,
    /// if present. While the borrow lives the caller may overwrite the
    /// value; no other kind and no other entry changes.
    pub fn get_mut(&mut self, comp: usize, e: Entity) -> (r: Option<&mut T>)
        requires
            old(self).wf(),
        ensures
            final(self).wf(),
            (comp < old(self).spec_count() && old(self).spec_view(comp as int).contains_key(
                spec_entity_index(e),
            )) <==> r is Some,
            r is None ==> final(self).spec_count() == old(self).spec_count() && (forall|c2: int|
                0 <= c2 < old(self).spec_count() ==> #[trigger] final(self).spec_set(c2) == old(self).spec_set(c2)),
            r is Some ==> *r.unwrap() == old(self).spec_view(comp as int)[spec_entity_index(e)]
                && final(self).spec_count() == old(self).spec_count() && (forall|c2: int|
                0 <= c2 < old(self).spec_count() && c2 != comp ==> #[trigger] final(self).spec_set(
                    c2,
                ) == old(self).spec_set(c2)) && final(self).spec_set(comp as int).spec_entities()
                == old(self).spec_set(comp as int).spec_entities() && final(self).spec_set(
                comp as int,
            ).spec_pages() == old(self).spec_set(comp as int).spec_pages() && final(self).spec_set(
                comp as int,
            ).spec_dense() == old(self).spec_set(comp as int).spec_dense().update(
                old(self).spec_set(comp as int).slot(spec_entity_index(e)) as int,
                *final(r.unwrap()),
            ),
    {
        if comp >= self.sets.len() {
            return None;
        }
        proof {
            assert(self.spec_set(comp as int).wf());
            assert forall|m2: ComponentManager<T>, x: SparseSet<T>|
                #![trigger m2.wf(), x.wf()]
                (m2.sets@ == self.sets@.update(comp as int, x) && x.wf()) implies m2.wf() by {
                assert forall|c2: int|
                    0 <= c2 < m2.spec_count() implies (#[trigger] m2.spec_set(c2)).wf() by {
                    if c2 == comp as int {
                        assert(m2.spec_set(c2) == x);
                    } else {
                        assert(m2.spec_set(c2) == self.spec_set(c2));
                    }
                }
            }
        }
        let set: &mut SparseSet<T> = &mut self.sets[comp];
        set.get_mut(e)
    }

    /// Whether kind `comp` is registered and entity `e` holds a value of
    /// it.
    pub fn contains(&self, comp: usize, e: Entity) -> (b: bool)
        requires
            self.wf(),
        ensures
            b == (comp < self.spec_count() && self.spec_view(comp as int).contains_key(
                spec_entity_index(e),
            )),
    {
        if comp >= self.sets.len() {
            return false;
        }
        proof {
            assert(self.spec_set(comp as int).wf());
        }
        self.sets[comp].has(e)
    }

    /// Number of entities holding a value of kind `comp`. Fails only when
    /// the kind was never registered.
    pub fn len(&self, comp: usize) -> (r: Result<usize, RegistryError>)
        requires
            self.wf(),
        ensures
            comp < self.spec_count() <==> r is Ok,
            r is Err ==> r == Err::<usize, RegistryError>(RegistryError::NoSuchComponentSet),
            r is Ok ==> r.unwrap() == self.spec_set(comp as int).spec_entities().len(),
    {
        if comp >= self.sets.len() {
            return Err(RegistryError::NoSuchComponentSet);
        }
        proof {
            assert(self.spec_set(comp as int).wf());
        }
        Ok(self.sets[comp].len())
    }

    /// Pre-grows the storage of kind `comp` for `amount` entries. Purely
    /// an optimization; fails only when the kind was never registered.
    pub fn reserve(&mut self, comp: usize, amount: usize) -> (r: Result<(), RegistryError>)
        requires
            old(self).wf(),
            amount <= usize::MAX - (SPARSE_SET_SIZE - 1),
        ensures
            final(self).wf(),
            final(self).spec_count() == old(self).spec_count(),
            comp >= old(self).spec_count() ==> r == Err::<(), RegistryError>(
                RegistryError::NoSuchComponentSet,
            ) && *final(self) == *old(self),
            comp < old(self).spec_count() ==> r == Ok::<(), RegistryError>(()) && (forall|c2: int|
                0 <= c2 < old(self).spec_count() && c2 != comp ==> #[trigger] final(self).spec_set(
                    c2,
                ) == old(self).spec_set(c2)) && final(self).spec_view(comp as int) == old(self).spec_view(comp as int) && final(self).spec_set(comp as int).spec_entities() == old(self).spec_set(comp as int).spec_entities(),
    {
        if comp >= self.sets.len() {
            return Err(RegistryError::NoSuchComponentSet);
        }
        proof {
            assert(self.spec_set(comp as int).wf());
        }
        let set: &mut SparseSet<T> = &mut self.sets[comp];
        set.reserve(amount);
        proof {
            assert forall|c2: int|
                0 <= c2 < self.spec_count() implies (#[trigger] self.spec_set(c2)).wf() by {
                if c2 == comp as int {
                    assert(self.spec_set(c2) == self.sets@[c2]);
                } else {
                    assert(self.spec_set(c2) == old(self).spec_set(c2));
                    assert(old(self).spec_set(c2).wf());
                }
            }
        }
        Ok(())
    }

    /// The storage of kind `comp`, if registered.
    pub fn storage(&self, comp: usize) -> (r: Option<&SparseSet<T>>)
        ensures
            comp < self.spec_count() <==> r is Some,
            r is Some ==> *r.unwrap() == self.spec_set(comp as int),
    {
        if comp >= self.sets.len() {
            return None;
        }
        Some(&self.sets[comp])
    }
}

} // verus!
