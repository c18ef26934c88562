//! The facade that application code touches.
//!
//! A [`Registry`] composes the generational entity manager, the
//! per-kind component storage, and the signature index into one object:
//! create and destroy entities, attach and detach component values,
//! look them up, and query for every live entity holding a given set of
//! component kinds. Every operation validates the entity handle first:
//! no operation on a dead handle mutates live data.
//!
//! The registry keeps one invariant across all three parts: bit `b` of
//! an entity's signature is set exactly when the entity holds a value of
//! component kind `b`, and every entity with a signature is alive.

use crate::bitset::Bitset;
use crate::component::Component;
use crate::component_manager::ComponentManager;
use crate::entity_manager::EntityManager;
use crate::registry_error::RegistryError;
use crate::registry_error::SparseSetError;
use crate::signature_index::SignatureIndex;
use crate::sparse_set::SparseSet;
use crate::types::Entity;
use crate::types::INDEX_MASK;
use crate::types::MAX_VERSION;
use crate::types::NPOS;
use crate::types::SPARSE_SET_SIZE;
use crate::types::lemma_entity_index_bounded;
use crate::types::spec_entity_index;
use crate::types::spec_entity_version;
use vstd::prelude::*;

verus! {

broadcast use crate::bitset::lemma_bitset_view_len;

/// Component kinds a registry supports before reporting
/// `CapacityExceeded` on registration.
pub const DEFAULT_MAX_COMPONENTS: usize = 16;

/// Storage and signatures agree: for every registered kind `b`, an
/// entity index has an occupied slot in kind `b`'s storage exactly when
/// bit `b` of its signature is set.
pub open spec fn comps_match_sigs<T: Component>(cm: ComponentManager<T>, si: SignatureIndex) -> bool {
    forall|b: int, k: u32|
        0 <= b < cm.spec_count() ==> (((#[trigger] cm.spec_set(b).slot(k)) != NPOS && k
            <= INDEX_MASK) <==> si.spec_sig_bit(k, b))
}

/// The required bitset of a query: bit `b` is set exactly when some
/// requested kind has identifier `b`.
pub open spec fn spec_required(comps: Seq<usize>, max: int) -> Seq<bool> {
    Seq::new(
        max as nat,
        |b: int| exists|j: int| 0 <= j < comps.len() && (#[trigger] comps[j]) == b,
    )
}

/// Entity identity, component storage, and signatures in one object.
pub struct Registry<T> {
    entities: EntityManager,
    components: ComponentManager<T>,
    signatures: SignatureIndex,
}

impl<T: Component> Registry<T> {
    /// The entity manager.
    pub closed spec fn spec_entity_manager(self) -> EntityManager {
        self.entities
    }

    /// The component storage.
    pub closed spec fn spec_component_manager(self) -> ComponentManager<T> {
        self.components
    }

    /// The signature index.
    pub closed spec fn spec_signature_index(self) -> SignatureIndex {
        self.signatures
    }

    /// Whether handle `e` names a live entity.
    pub open spec fn spec_alive(self, e: Entity) -> bool {
        self.spec_entity_manager().spec_alive(e)
    }

    /// Number of registered component kinds.
    pub open spec fn spec_count(self) -> nat {
        self.spec_component_manager().spec_count()
    }

    /// The contents of component kind `c`, from entity index to value.
    pub open spec fn spec_comp_view(self, c: int) -> Map<u32, T> {
        self.spec_component_manager().spec_view(c)
    }

    /// The owner entities of kind `c`'s storage, in dense order.
    pub open spec fn spec_comp_entities(self, c: int) -> Seq<Entity> {
        self.spec_component_manager().spec_set(c).spec_entities()
    }

    /// Storage and signatures agree, as [`comps_match_sigs`] states it,
    /// for this registry's own parts.
    pub open spec fn spec_sync(self) -> bool {
        comps_match_sigs(self.spec_component_manager(), self.spec_signature_index())
    }

    /// The three parts agree: counts match, bit `b` of an entity's
    /// signature is set exactly when the entity holds component kind `b`,
    /// and every entity with a signature is alive.
    pub open spec fn wf(self) -> bool {
        &&& self.spec_entity_manager().wf()
        &&& self.spec_component_manager().wf()
        &&& self.spec_signature_index().wf()
        &&& self.spec_component_manager().spec_count()
            == self.spec_signature_index().spec_registered()
        &&& self.spec_sync()
        &&& forall|i: int|
            0 <= i < self.spec_signature_index().spec_entity_seq().len()
                ==> self.spec_entity_manager().spec_alive(
                #[trigger] self.spec_signature_index().spec_entity_seq()[i],
            )
    }

    /// Creates a registry with no entities and no component kinds.
    pub fn new() -> (r: Registry<T>)
        ensures
            r.wf(),
            r.spec_count() == 0,
            r.spec_entity_manager().spec_versions() == Seq::<u32>::empty(),
            r.spec_signature_index().spec_entity_seq() == Seq::<Entity>::empty(),
            r.spec_signature_index().spec_max() == DEFAULT_MAX_COMPONENTS,
    {
        Registry {
            entities: EntityManager::new(),
            components: ComponentManager::new(),
            signatures: SignatureIndex::new(DEFAULT_MAX_COMPONENTS),
        }
    }

    /// Creates an empty registry with room reserved for `len` entities.
    pub fn with_capacity(len: usize) -> (r: Registry<T>)
        ensures
            r.wf(),
            r.spec_count() == 0,
            r.spec_entity_manager().spec_versions() == Seq::<u32>::empty(),
            r.spec_signature_index().spec_entity_seq() == Seq::<Entity>::empty(),
            r.spec_signature_index().spec_max() == DEFAULT_MAX_COMPONENTS,
    {
        let mut entities = EntityManager::new();
        entities.reserve(len);
        Registry {
            entities,
            components: ComponentManager::new(),
            signatures: SignatureIndex::new(DEFAULT_MAX_COMPONENTS),
        }
    }

    /// Creates an entity and returns its handle, alive from this moment.
    /// Recycles the most recently destroyed slot (with a fresh version)
    /// before opening new ones; fails with `CapacityExceeded` only when
    /// every slot index is in use.
    pub fn create(&mut self) -> (r: Result<Entity, RegistryError>)
        requires
            old(self).wf(),
        ensures
            final(self).wf(),
            final(self).spec_component_manager() == old(self).spec_component_manager(),
            final(self).spec_signature_index() == old(self).spec_signature_index(),
            r is Err ==> r == Err::<Entity, RegistryError>(RegistryError::CapacityExceeded)
                && final(self).spec_entity_manager().spec_versions() == old(self).spec_entity_manager().spec_versions() && final(self).spec_entity_manager().spec_free_seq() == old(self).spec_entity_manager().spec_free_seq() && old(self).spec_entity_manager().spec_free_seq().len() == 0 && old(self).spec_entity_manager().spec_versions().len() > INDEX_MASK,
            r is Ok ==> final(self).spec_alive(r.unwrap()) && !final(self).spec_entity_manager().spec_free(spec_entity_index(r.unwrap())) && spec_entity_index(
                r.unwrap(),
            ) < final(self).spec_entity_manager().spec_versions().len(),
            r is Ok && old(self).spec_entity_manager().spec_free_seq().len() > 0 ==> final(self).spec_entity_manager().spec_versions() == old(self).spec_entity_manager().spec_versions() && spec_entity_index(r.unwrap()) == old(self).spec_entity_manager().spec_free_seq().last() && spec_entity_version(
                r.unwrap(),
            ) == old(self).spec_entity_manager().spec_versions()[spec_entity_index(
                r.unwrap(),
            ) as int] && final(self).spec_entity_manager().spec_free_seq() == old(self).spec_entity_manager().spec_free_seq().drop_last(),
            r is Ok && old(self).spec_entity_manager().spec_free_seq().len() == 0 ==> final(self).spec_entity_manager().spec_versions() == old(self).spec_entity_manager().spec_versions().push(0u32) && spec_entity_index(r.unwrap())
                == old(self).spec_entity_manager().spec_versions().len() && spec_entity_version(
                r.unwrap(),
            ) == 0 && final(self).spec_entity_manager().spec_free_seq() == old(self).spec_entity_manager().spec_free_seq(),
    {
        let r = self.entities.create();
        proof {
            let mold = old(self).spec_entity_manager();
            let mnew = self.spec_entity_manager();
            assert forall|i: int|
                0 <= i < self.spec_signature_index().spec_entity_seq().len() implies self.spec_entity_manager().spec_alive(
                #[trigger] self.spec_signature_index().spec_entity_seq()[i],
            ) by {
                let ee = old(self).spec_signature_index().spec_entity_seq()[i];
                assert(mold.spec_alive(ee));
                assert(spec_entity_index(ee) < mold.spec_versions().len());
                assert(mnew.spec_versions()[spec_entity_index(ee) as int]
                    == mold.spec_versions()[spec_entity_index(ee) as int]);
            }
            assert forall|b: int, k: u32|
                0 <= b < self.spec_count() implies (((#[trigger] self.spec_component_manager().spec_set(
                b,
            ).slot(k)) != NPOS && k <= INDEX_MASK) <==> self.spec_signature_index().spec_sig_bit(
                k,
                b,
            )) by {
                assert(self.spec_component_manager().spec_set(b) == old(self).spec_component_manager().spec_set(b));
                assert((old(self).spec_component_manager().spec_set(b).slot(k) != NPOS && k
                    <= INDEX_MASK) <==> old(self).spec_signature_index().spec_sig_bit(k, b));
            }
        }
        r
    }

    /// Whether `e` names a live entity: its version matches its slot's
    /// stored version.
    pub fn is_alive(&self, e: Entity) -> (b: bool)
        requires
            self.wf(),
        ensures
            b == self.spec_alive(e),
    {
        self.entities.is_alive(e)
    }

    /// The stored version table of the entity manager.
    pub fn get_versions(&self) -> (v: &Vec<u32>)
        ensures
            v@ == self.spec_entity_manager().spec_versions(),
    {
        self.entities.get_versions()
    }

    /// Registers a new component kind and returns its identifier, the
    /// next free signature bit. Fails with `CapacityExceeded` once the
    /// configured maximum is reached: every signature would need global
    /// resizing.
    pub fn register(&mut self) -> (r: Result<usize, RegistryError>)
        requires
            old(self).wf(),
        ensures
            final(self).wf(),
            final(self).spec_entity_manager() == old(self).spec_entity_manager(),
            final(self).spec_signature_index().spec_max() == old(
                self,
            ).spec_signature_index().spec_max(),
            old(self).spec_count() < old(self).spec_signature_index().spec_max() <==> r is Ok,
            r is Err ==> r == Err::<usize, RegistryError>(RegistryError::CapacityExceeded)
                && final(self).spec_component_manager() == old(self).spec_component_manager()
                && final(self).spec_signature_index() == old(self).spec_signature_index(),
            r is Ok ==> r == Ok::<usize, RegistryError>(old(self).spec_count() as usize) && final(self).spec_count() == old(self).spec_count() + 1 && final(self).spec_comp_view(
                old(self).spec_count() as int,
            ) == Map::<u32, T>::empty() && (forall|c2: int|
                0 <= c2 < old(self).spec_count()
                    ==> #[trigger] final(self).spec_component_manager().spec_set(c2) == old(self).spec_component_manager().spec_set(c2)) && final(self).spec_signature_index().spec_sigs() == old(self).spec_signature_index().spec_sigs()
                && final(self).spec_signature_index().spec_entity_seq() == old(self).spec_signature_index().spec_entity_seq(),
    {
        let b = match self.signatures.register_bit() {
            Ok(b) => b,
            Err(err) => {
                proof {
                    assert(*self == *old(self));
                }
                return Err(err);
            },
        };
        let c = self.components.register();
        proof {
            assert(c == b);
            let cnt = self.spec_count() as int;
            assert forall|b2: int, k: u32|
                0 <= b2 < self.spec_count() implies (((
            #[trigger] self.spec_component_manager().spec_set(b2).slot(k)) != NPOS && k
                <= INDEX_MASK) <==> self.spec_signature_index().spec_sig_bit(k, b2)) by {
                if b2 < cnt - 1 {
                    assert(self.spec_component_manager().spec_set(b2) == old(self).spec_component_manager().spec_set(b2));
                    assert((old(self).spec_component_manager().spec_set(b2).slot(k) != NPOS && k
                        <= INDEX_MASK) <==> old(self).spec_signature_index().spec_sig_bit(k, b2));
                } else {
                    self.spec_component_manager().spec_set(b2).lemma_contains_is_slot(k);
                    assert(!self.spec_comp_view(b2).contains_key(k));
                    if self.spec_signature_index().spec_sigs().contains_key(k) {
                        assert(old(self).spec_signature_index().spec_sigs().contains_key(k));
                        assert(!old(self).spec_signature_index().spec_sigs()[k]@[b2]);
                    }
                }
            }
            assert forall|i: int|
                0 <= i < self.spec_signature_index().spec_entity_seq().len() implies self.spec_entity_manager().spec_alive(
                #[trigger] self.spec_signature_index().spec_entity_seq()[i],
            ) by {
                assert(old(self).spec_entity_manager().spec_alive(
                    old(self).spec_signature_index().spec_entity_seq()[i],
                ));
            }
        }
        Ok(c)
    }

    /// Stores `value` as entity `e`'s component of kind `comp` and sets
    /// the matching signature bit; an existing value is overwritten in
    /// place. Fails with `NoSuchEntity` on a dead handle and
    /// `NoSuchComponentSet` on an unregistered kind, changing nothing.
    pub fn attach(&mut self, comp: usize, e: Entity, value: T) -> (r: Result<(), RegistryError>)
        requires
            old(self).wf(),
        ensures
            final(self).wf(),
            final(self).spec_signature_index().spec_max() == old(
                self,
            ).spec_signature_index().spec_max(),
            (old(self).spec_alive(e) && comp < old(self).spec_count()) <==> r is Ok,
            !old(self).spec_alive(e) ==> r == Err::<(), RegistryError>(RegistryError::NoSuchEntity)
                && *final(self) == *old(self),
            old(self).spec_alive(e) && comp >= old(self).spec_count() ==> r == Err::<
                (),
                RegistryError,
            >(RegistryError::NoSuchComponentSet) && *final(self) == *old(self),
            r is Ok ==> final(self).spec_comp_view(comp as int) == old(self).spec_comp_view(
                comp as int,
            ).insert(spec_entity_index(e), value) && (forall|c2: int|
                0 <= c2 < old(self).spec_count() && c2 != comp
                    ==> #[trigger] final(self).spec_component_manager().spec_set(c2) == old(self).spec_component_manager().spec_set(c2)) && final(self).spec_entity_manager()
                == old(self).spec_entity_manager() && final(self).spec_count() == old(self).spec_count() && (old(self).spec_comp_view(comp as int).contains_key(
                spec_entity_index(e),
            ) ==> final(self).spec_comp_entities(comp as int) == old(self).spec_comp_entities(
                comp as int,
            )) && (!old(self).spec_comp_view(comp as int).contains_key(spec_entity_index(e))
                ==> final(self).spec_comp_entities(comp as int) == old(self).spec_comp_entities(
                comp as int,
            ).push(e)) && final(self).spec_signature_index().spec_sig_bit(
                spec_entity_index(e),
                comp as int,
            ),
    {
        if !self.entities.is_alive(e) {
            return Err(RegistryError::NoSuchEntity);
        }
        if comp >= self.components.count() {
            return Err(RegistryError::NoSuchComponentSet);
        }
        let ghost r0 = *old(self);
        let ghost eidx = spec_entity_index(e);
        let ar = self.components.attach(comp, e, value);
        proof {
            assert(ar is Ok);
        }
        self.signatures.set_bit(e, comp);
        proof {
            let si0 = r0.spec_signature_index();
            let si1 = self.spec_signature_index();
            assert(si1.spec_sigs()[eidx]@[comp as int]);
            assert forall|b: int, k: u32|
                0 <= b < self.spec_count() implies (((
            #[trigger] self.spec_component_manager().spec_set(b).slot(k)) != NPOS && k
                <= INDEX_MASK) <==> si1.spec_sig_bit(k, b)) by {
                self.spec_component_manager().spec_set(b).lemma_contains_is_slot(k);
                r0.spec_component_manager().spec_set(b).lemma_contains_is_slot(k);
                assert((r0.spec_comp_view(b).contains_key(k)) <==> si0.spec_sig_bit(k, b));
                if b == comp as int {
                    if k == eidx {
                        assert(self.spec_comp_view(b).contains_key(k));
                        assert(si1.spec_sig_bit(k, b));
                    } else {
                        assert(self.spec_comp_view(b).contains_key(k) == r0.spec_comp_view(
                            b,
                        ).contains_key(k));
                        assert(si1.spec_sigs().contains_key(k) == si0.spec_sigs().contains_key(k));
                        if si0.spec_sigs().contains_key(k) {
                            assert(si1.spec_sigs()[k] == si0.spec_sigs()[k]);
                        }
                    }
                } else {
                    assert(self.spec_component_manager().spec_set(b)
                        == r0.spec_component_manager().spec_set(b));
                    if k == eidx {
                        if si0.spec_sigs().contains_key(eidx) {
                            assert(si0.spec_sigs()[eidx].wf());
                            assert(si1.spec_sigs()[eidx]@[b] == si0.spec_sigs()[eidx]@[b]);
                        } else {
                            assert(!si0.spec_sig_bit(eidx, b));
                            assert(si1.spec_sigs()[eidx]@[b] == Seq::<bool>::new(
                                si0.spec_max() as nat,
                                |i: int| false,
                            ).update(comp as int, true)[b]);
                            assert(!si1.spec_sigs()[eidx]@[b]);
                        }
                    } else {
                        assert(si1.spec_sigs().contains_key(k) == si0.spec_sigs().contains_key(k));
                        if si0.spec_sigs().contains_key(k) {
                            assert(si1.spec_sigs()[k] == si0.spec_sigs()[k]);
                        }
                    }
                }
            }
            assert forall|i: int|
                0 <= i < si1.spec_entity_seq().len() implies self.spec_entity_manager().spec_alive(
                #[trigger] si1.spec_entity_seq()[i],
            ) by {
                if i < si0.spec_entity_seq().len() {
                    assert(si1.spec_entity_seq()[i] == si0.spec_entity_seq()[i]);
                    assert(r0.spec_entity_manager().spec_alive(si0.spec_entity_seq()[i]));
                } else {
                    assert(si1.spec_entity_seq()[i] == e);
                }
            }
        }
        Ok(())
    }

    /// Removes entity `e`'s component of kind `comp` and clears the
    /// matching signature bit, as one transaction. Fails with
    /// `NoSuchEntity` on a dead handle, `NoSuchComponentSet` on an
    /// unregistered kind, and the sparse set's `InvalidPosition` when the
    /// entity holds no such component; in every failure nothing changes.
    pub fn detach(&mut self, comp: usize, e: Entity) -> (r: Result<(), RegistryError>)
        requires
            old(self).wf(),
        ensures
            final(self).wf(),
            final(self).spec_signature_index().spec_max() == old(
                self,
            ).spec_signature_index().spec_max(),
            (old(self).spec_alive(e) && comp < old(self).spec_count() && old(self).spec_comp_view(
                comp as int,
            ).contains_key(spec_entity_index(e))) <==> r is Ok,
            !old(self).spec_alive(e) ==> r == Err::<(), RegistryError>(RegistryError::NoSuchEntity)
                && *final(self) == *old(self),
            old(self).spec_alive(e) && comp >= old(self).spec_count() ==> r == Err::<
                (),
                RegistryError,
            >(RegistryError::NoSuchComponentSet) && *final(self) == *old(self),
            old(self).spec_alive(e) && comp < old(self).spec_count() && !old(self).spec_comp_view(
                comp as int,
            ).contains_key(spec_entity_index(e)) ==> r == Err::<(), RegistryError>(
                RegistryError::SparseSet(SparseSetError::InvalidPosition),
            ) && final(self).spec_entity_manager() == old(self).spec_entity_manager() && final(self).spec_signature_index() == old(self).spec_signature_index() && (forall|c2: int|
                0 <= c2 < old(self).spec_count()
                    ==> #[trigger] final(self).spec_component_manager().spec_set(c2) == old(self).spec_component_manager().spec_set(c2)),
            r is Ok ==> final(self).spec_comp_view(comp as int) == old(self).spec_comp_view(
                comp as int,
            ).remove(spec_entity_index(e)) && final(self).spec_comp_entities(comp as int) == old(
                self,
            ).spec_comp_entities(comp as int).update(
                old(self).spec_component_manager().spec_set(comp as int).slot(
                    spec_entity_index(e),
                ) as int,
                old(self).spec_comp_entities(comp as int).last(),
            ).drop_last() && final(self).spec_comp_entities(comp as int).len() == old(
                self,
            ).spec_comp_entities(comp as int).len() - 1 && (forall|c2: int|
                0 <= c2 < old(self).spec_count() && c2 != comp
                    ==> #[trigger] final(self).spec_component_manager().spec_set(c2) == old(self).spec_component_manager().spec_set(c2)) && final(self).spec_entity_manager()
                == old(self).spec_entity_manager() && final(self).spec_count() == old(self).spec_count() && !final(self).spec_signature_index().spec_sig_bit(
                spec_entity_index(e),
                comp as int,
            ),
    {
        if !self.entities.is_alive(e) {
            return Err(RegistryError::NoSuchEntity);
        }
        if comp >= self.components.count() {
            return Err(RegistryError::NoSuchComponentSet);
        }
        let ghost r0 = *old(self);
        let ghost eidx = spec_entity_index(e);
        match self.components.detach(comp, e) {
            Err(err) => {
                proof {
                    assert(!r0.spec_comp_view(comp as int).contains_key(eidx));
                    assert(err == RegistryError::SparseSet(
                        SparseSetError::InvalidPosition,
                    ));
                    assert forall|b: int, k: u32|
                        0 <= b < self.spec_count() implies (((
                    #[trigger] self.spec_component_manager().spec_set(b).slot(k)) != NPOS && k
                        <= INDEX_MASK) <==> self.spec_signature_index().spec_sig_bit(k, b)) by {
                        assert(self.spec_component_manager().spec_set(b)
                            == r0.spec_component_manager().spec_set(b));
                        assert((r0.spec_component_manager().spec_set(b).slot(k) != NPOS && k
                            <= INDEX_MASK) <==> r0.spec_signature_index().spec_sig_bit(k, b));
                    }
                    assert forall|i: int|
                        0 <= i
                            < self.spec_signature_index().spec_entity_seq().len() implies self.spec_entity_manager().spec_alive(
                        #[trigger] self.spec_signature_index().spec_entity_seq()[i],
                    ) by {
                        assert(r0.spec_entity_manager().spec_alive(
                            r0.spec_signature_index().spec_entity_seq()[i],
                        ));
                    }
                }
                return Err(err);
            },
            Ok(()) => {},
        }
        proof {
            assert(r0.spec_comp_view(comp as int).contains_key(eidx));
            assert(r0.spec_signature_index().spec_sig_bit(eidx, comp as int));
        }
        self.signatures.clear_bit(e, comp);
        proof {
            let si0 = r0.spec_signature_index();
            let si1 = self.spec_signature_index();
            assert(!si1.spec_sigs()[eidx]@[comp as int]);
            assert forall|b: int, k: u32|
                0 <= b < self.spec_count() implies (((
            #[trigger] self.spec_component_manager().spec_set(b).slot(k)) != NPOS && k
                <= INDEX_MASK) <==> si1.spec_sig_bit(k, b)) by {
                self.spec_component_manager().spec_set(b).lemma_contains_is_slot(k);
                r0.spec_component_manager().spec_set(b).lemma_contains_is_slot(k);
                assert((r0.spec_comp_view(b).contains_key(k)) <==> si0.spec_sig_bit(k, b));
                if b == comp as int {
                    if k == eidx {
                        assert(!self.spec_comp_view(b).contains_key(k));
                        assert(!si1.spec_sig_bit(k, b));
                    } else {
                        assert(self.spec_comp_view(b).contains_key(k) == r0.spec_comp_view(
                            b,
                        ).contains_key(k));
                        assert(si1.spec_sigs().contains_key(k) == si0.spec_sigs().contains_key(k));
                        if si0.spec_sigs().contains_key(k) {
                            assert(si1.spec_sigs()[k] == si0.spec_sigs()[k]);
                        }
                    }
                } else {
                    assert(self.spec_component_manager().spec_set(b)
                        == r0.spec_component_manager().spec_set(b));
                    if k == eidx {
                        assert(si0.spec_sigs()[eidx].wf());
                        assert(si1.spec_sigs()[eidx]@[b] == si0.spec_sigs()[eidx]@[b]);
                    } else {
                        assert(si1.spec_sigs().contains_key(k) == si0.spec_sigs().contains_key(k));
                        if si0.spec_sigs().contains_key(k) {
                            assert(si1.spec_sigs()[k] == si0.spec_sigs()[k]);
                        }
                    }
                }
            }
            assert forall|i: int|
                0 <= i < si1.spec_entity_seq().len() implies self.spec_entity_manager().spec_alive(
                #[trigger] si1.spec_entity_seq()[i],
            ) by {
                assert(si1.spec_entity_seq()[i] == si0.spec_entity_seq()[i]);
                assert(r0.spec_entity_manager().spec_alive(si0.spec_entity_seq()[i]));
            }
        }
        Ok(())
    }

    /// Reads entity `e`'s component of kind `comp`. Returns nothing — not
    /// an error — when the handle is dead, the kind is unregistered, or
    /// the entity holds no such component.
    pub fn get(&self, comp: usize, e: Entity) -> (r: Option<&T>)
        requires
            self.wf(),
        ensures
            (self.spec_alive(e) && comp < self.spec_count() && self.spec_comp_view(
                comp as int,
            ).contains_key(spec_entity_index(e))) <==> r is Some,
            r is Some ==> *r.unwrap() == self.spec_comp_view(comp as int)[spec_entity_index(e)],
    {
        if !self.entities.is_alive(e) {
            return None;
        }
        self.components.get(comp, e)
    }

    /// Hands out a mutable borrow of entity `e`'s component of kind
    /// `comp`, if the handle is live and the component present. While the
    /// borrow lives the caller may overwrite the value; nothing else in
    /// the registry changes, and since the invariant does not depend on
    /// stored values it still holds once the borrow expires:
    /// [`Registry::lemma_wf_after_component_value_update`] restates it
    /// for the state left behind.
    pub fn get_mut(&mut self, comp: usize, e: Entity) -> (r: Option<&mut T>)
        requires
            old(self).wf(),
        ensures
            (old(self).spec_alive(e) && comp < old(self).spec_count() && old(self).spec_comp_view(
                comp as int,
            ).contains_key(spec_entity_index(e))) <==> r is Some,
            comp < old(self).spec_count() ==> final(self).spec_component_manager().wf() && final(self).spec_component_manager().spec_count() == old(self).spec_count() && final(self).spec_component_manager().spec_set(comp as int).spec_pages() == old(self).spec_component_manager().spec_set(comp as int).spec_pages() && (forall|c2: int|
                0 <= c2 < old(self).spec_count() && c2 != comp
                    ==> #[trigger] final(self).spec_component_manager().spec_set(c2) == old(self).spec_component_manager().spec_set(c2)),
            r is None ==> final(self).spec_entity_manager() == old(self).spec_entity_manager()
                && final(self).spec_signature_index() == old(self).spec_signature_index() && (
            forall|c2: int|
                0 <= c2 < old(self).spec_count()
                    ==> #[trigger] final(self).spec_component_manager().spec_set(c2) == old(self).spec_component_manager().spec_set(c2)),
            r is Some ==> *r.unwrap() == old(self).spec_comp_view(comp as int)[spec_entity_index(
                e,
            )] && final(self).spec_entity_manager() == old(self).spec_entity_manager() && final(self).spec_signature_index() == old(self).spec_signature_index() && final(self).spec_count() == old(self).spec_count() && (forall|c2: int|
                0 <= c2 < old(self).spec_count() && c2 != comp
                    ==> #[trigger] final(self).spec_component_manager().spec_set(c2) == old(self).spec_component_manager().spec_set(c2)) && final(self).spec_component_manager().spec_set(comp as int).spec_entities() == old(self).spec_component_manager().spec_set(comp as int).spec_entities() && final(self).spec_component_manager().spec_set(comp as int).spec_pages() == old(self).spec_component_manager().spec_set(comp as int).spec_pages() && final(self).spec_component_manager().spec_set(comp as int).spec_dense() == old(self).spec_component_manager().spec_set(comp as int).spec_dense().update(
                old(self).spec_component_manager().spec_set(comp as int).slot(
                    spec_entity_index(e),
                ) as int,
                *final(r.unwrap()),
            ),
    {
        if !self.entities.is_alive(e) {
            return None;
        }
        if comp >= self.components.count() {
            return None;
        }
        self.components.get_mut(comp, e)
    }

    /// Well-formedness does not depend on the stored component values:
    /// a state that differs from a well-formed one only in the dense
    /// values of one kind — same entities, same signatures, same pages,
    /// hence same occupied slots — is well-formed too. This is the state
    /// [`Registry::get_mut`] leaves behind once its borrow expires, with
    /// the pieces of this lemma's premise being exactly what its
    /// contract guarantees.
    pub proof fn lemma_wf_after_component_value_update(
        r1: Registry<T>,
        r2: Registry<T>,
        comp: usize,
    )
        requires
            r1.wf(),
            comp < r1.spec_count(),
            r2.spec_entity_manager() == r1.spec_entity_manager(),
            r2.spec_signature_index() == r1.spec_signature_index(),
            r2.spec_component_manager().wf(),
            r2.spec_component_manager().spec_count() == r1.spec_count(),
            forall|c2: int|
                0 <= c2 < r1.spec_count() && c2 != comp
                    ==> #[trigger] r2.spec_component_manager().spec_set(c2)
                    == r1.spec_component_manager().spec_set(c2),
            r2.spec_component_manager().spec_set(comp as int).spec_pages()
                == r1.spec_component_manager().spec_set(comp as int).spec_pages(),
        ensures
            r2.wf(),
    {
        let cm0 = r1.spec_component_manager();
        let cm2 = r2.spec_component_manager();
        let si0 = r1.spec_signature_index();
        assert(cm2.spec_count() == cm0.spec_count());
        assert forall|b: int, k: u32|
            0 <= b < cm2.spec_count() implies (((#[trigger] cm2.spec_set(b).slot(k)) != NPOS && k
                <= INDEX_MASK) <==> si0.spec_sig_bit(k, b)) by {
            assert((cm0.spec_set(b).slot(k) != NPOS && k <= INDEX_MASK) <==> si0.spec_sig_bit(
                k,
                b,
            ));
            if b == comp as int {
                assert(cm2.spec_set(b).slot(k) == cm0.spec_set(b).slot(k));
            } else {
                assert(cm2.spec_set(b) == cm0.spec_set(b));
            }
        }
        assert(comps_match_sigs(cm2, r2.spec_signature_index()));
        assert forall|i: int|
            0 <= i < r2.spec_signature_index().spec_entity_seq().len() implies r2.spec_entity_manager().spec_alive(
            #[trigger] r2.spec_signature_index().spec_entity_seq()[i],
        ) by {
            assert(r1.spec_entity_manager().spec_alive(si0.spec_entity_seq()[i]));
        }
    }

    /// Whether the handle is live, the kind registered, and a component
    /// of that kind attached to the entity.
    pub fn has(&self, comp: usize, e: Entity) -> (b: bool)
        requires
            self.wf(),
        ensures
            b == (self.spec_alive(e) && comp < self.spec_count() && self.spec_comp_view(
                comp as int,
            ).contains_key(spec_entity_index(e))),
    {
        if !self.entities.is_alive(e) {
            return false;
        }
        self.components.contains(comp, e)
    }

    /// Same test as [`Registry::has`].
    pub fn contains(&self, comp: usize, e: Entity) -> (b: bool)
        requires
            self.wf(),
        ensures
            b == (self.spec_alive(e) && comp < self.spec_count() && self.spec_comp_view(
                comp as int,
            ).contains_key(spec_entity_index(e))),
    {
        self.has(comp, e)
    }

    /// Number of entities holding a component of kind `comp`. Fails only
    /// when the kind was never registered.
    pub fn len(&self, comp: usize) -> (r: Result<usize, RegistryError>)
        requires
            self.wf(),
        ensures
            comp < self.spec_count() <==> r is Ok,
            r is Err ==> r == Err::<usize, RegistryError>(RegistryError::NoSuchComponentSet),
            r is Ok ==> r.unwrap() == self.spec_comp_entities(comp as int).len(),
    {
        self.components.len(comp)
    }

    /// Pre-grows the storage of kind `comp` for `amount` entries. Purely
    /// an optimization; fails only when the kind was never registered.
    pub fn reserve(&mut self, comp: usize, amount: usize) -> (r: Result<(), RegistryError>)
        requires
            old(self).wf(),
            amount <= usize::MAX - (SPARSE_SET_SIZE - 1),
        ensures
            final(self).wf(),
            comp < old(self).spec_count() <==> r is Ok,
            r is Err ==> r == Err::<(), RegistryError>(RegistryError::NoSuchComponentSet) && *final(self) == *old(self),
            r is Ok ==> final(self).spec_comp_view(comp as int) == old(self).spec_comp_view(
                comp as int,
            ) && final(self).spec_comp_entities(comp as int) == old(self).spec_comp_entities(
                comp as int,
            ) && (forall|c2: int|
                0 <= c2 < old(self).spec_count() && c2 != comp
                    ==> #[trigger] final(self).spec_component_manager().spec_set(c2) == old(
                    self,
                ).spec_component_manager().spec_set(c2)) && final(self).spec_entity_manager()
                == old(self).spec_entity_manager() && final(self).spec_signature_index() == old(self).spec_signature_index() && final(self).spec_count()
                == old(self).spec_count(),
    {
        let ghost r0 = *old(self);
        let r = self.components.reserve(comp, amount);
        proof {
            if r is Ok {
                assert forall|b: int, k: u32|
                    0 <= b < self.spec_count() implies (((
                #[trigger] self.spec_component_manager().spec_set(b).slot(k)) != NPOS && k
                    <= INDEX_MASK) <==> self.spec_signature_index().spec_sig_bit(k, b)) by {
                    self.spec_component_manager().spec_set(b).lemma_contains_is_slot(k);
                    r0.spec_component_manager().spec_set(b).lemma_contains_is_slot(k);
                    assert((r0.spec_comp_view(b).contains_key(k))
                        <==> r0.spec_signature_index().spec_sig_bit(k, b));
                    if b != comp as int {
                        assert(self.spec_component_manager().spec_set(b)
                            == r0.spec_component_manager().spec_set(b));
                    } else {
                        assert(self.spec_comp_view(b) == r0.spec_comp_view(b));
                        assert(self.spec_component_manager().spec_set(b).slot(k)
                            != NPOS <==> self.spec_comp_view(b).contains_key(k) && k
                            <= INDEX_MASK || self.spec_component_manager().spec_set(b).slot(k)
                            != NPOS);
                    }
                }
                assert forall|i: int|
                    0 <= i
                        < self.spec_signature_index().spec_entity_seq().len() implies self.spec_entity_manager().spec_alive(
                    #[trigger] self.spec_signature_index().spec_entity_seq()[i],
                ) by {
                    assert(r0.spec_entity_manager().spec_alive(
                        r0.spec_signature_index().spec_entity_seq()[i],
                    ));
                }
            }
        }
        r
    }

    /// The storage of kind `comp`, if registered.
    pub fn storage(&self, comp: usize) -> (r: Option<&SparseSet<T>>)
        ensures
            comp < self.spec_count() <==> r is Some,
            r is Some ==> *r.unwrap() == self.spec_component_manager().spec_set(comp as int),
    {
        self.components.storage(comp)
    }

    /// A copy of entity `e`'s signature: one bit per registered kind,
    /// all-unset for an entity that never had a component.
    pub fn signature_of(&self, e: Entity) -> (r: Bitset)
        requires
            self.wf(),
        ensures
            r.wf(),
            r.spec_len() == self.spec_signature_index().spec_max(),
            r@.len() == self.spec_signature_index().spec_max(),
            self.spec_signature_index().spec_sigs().contains_key(spec_entity_index(e)) ==> r@
                == self.spec_signature_index().spec_sigs()[spec_entity_index(e)]@,
            !self.spec_signature_index().spec_sigs().contains_key(spec_entity_index(e))
                ==> forall|i: int| 0 <= i < r@.len() ==> !r@[i],
    {
        self.signatures.signature_of(e)
    }

    /// Largest number of component kinds this registry can register.
    pub fn max_components(&self) -> (n: usize)
        ensures
            n == self.spec_signature_index().spec_max(),
    {
        self.signatures.max_components()
    }

    /// Destroys a live entity: detaches every component it holds, forgets
    /// its signature, bumps its slot's stored version — so the handle is
    /// dead for good — and recycles the slot. Fails with `NoSuchEntity`
    /// on a stale or out-of-range handle, changing nothing.
    pub fn destroy(&mut self, e: Entity) -> (r: Result<(), RegistryError>)
        requires
            old(self).wf(),
        ensures
            final(self).wf(),
            (old(self).spec_alive(e) && !old(self).spec_entity_manager().spec_free(
                spec_entity_index(e),
            )) <==> r is Ok,
            final(self).spec_signature_index().spec_max() == old(self).spec_signature_index().spec_max(),
            r is Err ==> r == Err::<(), RegistryError>(RegistryError::NoSuchEntity) && final(self).spec_entity_manager().spec_versions() == old(self).spec_entity_manager().spec_versions() && final(self).spec_entity_manager().spec_free_seq() == old(self).spec_entity_manager().spec_free_seq() && final(self).spec_signature_index() == old(self).spec_signature_index() && final(self).spec_component_manager() == old(self).spec_component_manager(),
            r is Ok ==> final(self).spec_entity_manager().spec_versions() == old(self).spec_entity_manager().spec_versions().update(
                spec_entity_index(e) as int,
                (spec_entity_version(e) + 1) as u32,
            ) && !final(self).spec_alive(e) && (spec_entity_version(e) < MAX_VERSION ==> final(self).spec_entity_manager().spec_free_seq() == old(self).spec_entity_manager().spec_free_seq().push(spec_entity_index(e))) && (
            spec_entity_version(e) == MAX_VERSION ==> final(self).spec_entity_manager().spec_free_seq() == old(self).spec_entity_manager().spec_free_seq()) && (forall|b: int|
                0 <= b < old(self).spec_count() ==> #[trigger] final(self).spec_comp_view(b)
                    == old(self).spec_comp_view(b).remove(spec_entity_index(e))) && final(self).spec_count() == old(self).spec_count() && !final(self).spec_signature_index().spec_sigs().contains_key(spec_entity_index(e)),
    {
        let ghost r0 = *old(self);
        let ghost eidx = spec_entity_index(e);
        match self.entities.destroy(e) {
            Err(err) => {
                proof {
                    assert(self.components == r0.spec_component_manager());
                    assert(self.signatures == r0.spec_signature_index());
                    assert forall|b: int, k: u32|
                        0 <= b < self.spec_count() implies (((
                    #[trigger] self.spec_component_manager().spec_set(b).slot(k)) != NPOS && k
                        <= INDEX_MASK) <==> self.spec_signature_index().spec_sig_bit(k, b)) by {
                        assert((r0.spec_component_manager().spec_set(b).slot(k) != NPOS && k
                            <= INDEX_MASK) <==> r0.spec_signature_index().spec_sig_bit(k, b));
                    }
                    assert forall|i: int|
                        0 <= i
                            < self.spec_signature_index().spec_entity_seq().len() implies self.spec_entity_manager().spec_alive(
                        #[trigger] self.spec_signature_index().spec_entity_seq()[i],
                    ) by {
                        assert(r0.spec_entity_manager().spec_alive(
                            r0.spec_signature_index().spec_entity_seq()[i],
                        ));
                    }
                }
                return Err(err);
            },
            Ok(()) => {},
        }
        let ghost em1 = self.spec_entity_manager();
        let n = self.components.count();
        let mut b: usize = 0;
        while b < n
            invariant
                b <= n,
                r0 == *old(self),
                r0.wf(),
                eidx == spec_entity_index(e),
                n == self.spec_count(),
                self.spec_entity_manager() == em1,
                self.spec_signature_index() == r0.spec_signature_index(),
                self.spec_component_manager().wf(),
                forall|c: int|
                    b <= c < n ==> #[trigger] self.spec_component_manager().spec_set(c)
                        == r0.spec_component_manager().spec_set(c),
                forall|c: int|
                    0 <= c < b ==> (#[trigger] self.spec_component_manager().spec_view(c))
                        == r0.spec_component_manager().spec_view(c).remove(eidx),
            decreases n - b,
        {
            let ghost cm_it = self.spec_component_manager();
            let present = self.components.contains(b, e);
            if present {
                let dr = self.components.detach(b, e);
                proof {
                    assert(dr is Ok);
                }
            }
            proof {
                let c = b as int;
                assert(cm_it.spec_set(c) == r0.spec_component_manager().spec_set(c));
                if present {
                    assert(self.spec_comp_view(c) == cm_it.spec_view(c).remove(eidx));
                    assert(self.spec_comp_view(c) == r0.spec_comp_view(c).remove(eidx));
                } else {
                    assert(self.spec_component_manager().spec_set(c) == cm_it.spec_set(c));
                    assert(!r0.spec_comp_view(c).contains_key(eidx));
                    assert(self.spec_comp_view(c) =~= r0.spec_comp_view(c).remove(eidx));
                }
                assert forall|c2: int|
                    0 <= c2 < b + 1 implies (#[trigger] self.spec_component_manager().spec_view(
                    c2,
                )) == r0.spec_component_manager().spec_view(c2).remove(eidx) by {
                    if c2 < b as int {
                        if present {
                            assert(self.spec_component_manager().spec_set(c2) == cm_it.spec_set(
                                c2,
                            ));
                        }
                        assert(cm_it.spec_view(c2) == r0.spec_component_manager().spec_view(
                            c2,
                        ).remove(eidx));
                    }
                }
                assert forall|c2: int|
                    b + 1 <= c2 < n implies #[trigger] self.spec_component_manager().spec_set(c2)
                    == r0.spec_component_manager().spec_set(c2) by {
                    if present {
                        assert(self.spec_component_manager().spec_set(c2) == cm_it.spec_set(c2));
                    }
                    assert(cm_it.spec_set(c2) == r0.spec_component_manager().spec_set(c2));
                }
            }
            b = b + 1;
        }
        let ghost cm2 = self.spec_component_manager();
        let had_sig = self.signatures.remove(e);
        proof {
            let si0 = r0.spec_signature_index();
            let si2 = self.spec_signature_index();
            if had_sig {
                assert(si2.spec_sigs() == si0.spec_sigs().remove(eidx));
            } else {
                assert(si2.spec_store() == si0.spec_store());
                assert(!si0.spec_sigs().contains_key(eidx));
            }
            assert(!si2.spec_sigs().contains_key(eidx));
            assert forall|bb: int|
                0 <= bb < self.spec_count() implies (#[trigger] self.spec_comp_view(bb))
                == r0.spec_comp_view(bb).remove(eidx) by {
                assert(cm2.spec_view(bb) == r0.spec_component_manager().spec_view(bb).remove(
                    eidx,
                ));
                assert(self.spec_component_manager() == cm2);
            }
            assert forall|bb: int, k: u32|
                0 <= bb < self.spec_count() implies (((
            #[trigger] self.spec_component_manager().spec_set(bb).slot(k)) != NPOS && k
                <= INDEX_MASK) <==> si2.spec_sig_bit(k, bb)) by {
                self.spec_component_manager().spec_set(bb).lemma_contains_is_slot(k);
                r0.spec_component_manager().spec_set(bb).lemma_contains_is_slot(k);
                assert((r0.spec_component_manager().spec_set(bb).slot(k) != NPOS && k
                    <= INDEX_MASK) <==> r0.spec_signature_index().spec_sig_bit(k, bb));
                assert(self.spec_comp_view(bb) == r0.spec_comp_view(bb).remove(eidx));
                if k == eidx {
                    assert(!self.spec_comp_view(bb).contains_key(k));
                    assert(!si2.spec_sig_bit(k, bb));
                } else {
                    assert(self.spec_comp_view(bb).contains_key(k) == r0.spec_comp_view(
                        bb,
                    ).contains_key(k));
                    if had_sig {
                        if si0.spec_sigs().contains_key(k) {
                            assert(si2.spec_sigs()[k] == si0.spec_sigs()[k]);
                        }
                        assert(si2.spec_sigs().contains_key(k) == si0.spec_sigs().contains_key(k));
                    }
                }
            }
            assert forall|i: int|
                0 <= i < si2.spec_entity_seq().len() implies self.spec_entity_manager().spec_alive(
                #[trigger] si2.spec_entity_seq()[i],
            ) by {
                let ee = si2.spec_entity_seq()[i];
                if had_sig {
                    let s0seq = si0.spec_entity_seq();
                    let pos = si0.spec_store().slot(eidx) as int;
                    assert(si2.spec_entity_seq() == s0seq.update(pos, s0seq.last()).drop_last());
                    assert(ee == s0seq.update(pos, s0seq.last())[i]);
                    assert(ee == s0seq[i] || ee == s0seq[s0seq.len() - 1]);
                    assert(r0.spec_entity_manager().spec_alive(ee));
                } else {
                    assert(ee == si0.spec_entity_seq()[i]);
                    assert(r0.spec_entity_manager().spec_alive(ee));
                }
                assert(spec_entity_index(ee) != eidx) by {
                    if spec_entity_index(ee) == eidx {
                        assert(si2.spec_store().wf());
                        assert(si2.spec_store().slot(spec_entity_index(ee)) as int == i);
                        si2.spec_store().lemma_contains_is_slot(eidx);
                        lemma_entity_index_bounded(ee);
                        assert(si2.spec_sigs().contains_key(eidx));
                    }
                }
            }
        }
        Ok(())
    }

    /// Builds the required bitset for the requested component kinds — the
    /// bitwise or of each kind's single-bit mask — and collects every
    /// live entity whose signature contains all of them. Entities with
    /// extra unrelated components still match. Only *tracked* entities —
    /// those that have ever had a component attached — are scanned: a
    /// live entity that never held any component carries no signature
    /// entry, so no query returns it, not even one for an empty kind
    /// list. Fails with `NoSuchComponentSet` if any requested kind was
    /// never registered.
    pub fn query(&self, comps: &Vec<usize>) -> (r: Result<Vec<Entity>, RegistryError>)
        requires
            self.wf(),
        ensures
            (forall|j: int| 0 <= j < comps@.len() ==> (#[trigger] comps@[j]) < self.spec_count())
                <==> r is Ok,
            r is Err ==> r == Err::<Vec<Entity>, RegistryError>(RegistryError::NoSuchComponentSet),
            r is Ok ==> r.unwrap()@ == self.spec_signature_index().spec_matching(
                spec_required(comps@, self.spec_signature_index().spec_max() as int),
                self.spec_signature_index().spec_entity_seq(),
            ),
    {
        let max = self.signatures.max_components();
        let mut req = Bitset::new(max);
        let mut j: usize = 0;
        while j < comps.len()
            invariant
                self.wf(),
                req.wf(),
                req.spec_len() == max,
                req@.len() == max,
                max == self.spec_signature_index().spec_max(),
                j <= comps@.len(),
                forall|jj: int| 0 <= jj < j ==> (#[trigger] comps@[jj]) < self.spec_count(),
                forall|bb: int|
                    0 <= bb < max ==> ((#[trigger] req@[bb]) <==> exists|t: int|
                        0 <= t < j && comps@[t] == bb),
            decreases comps@.len() - j,
        {
            let c = comps[j];
            if c >= self.components.count() {
                return Err(RegistryError::NoSuchComponentSet);
            }
            req.set(c);
            proof {
                assert forall|bb: int|
                    0 <= bb < max implies ((#[trigger] req@[bb]) <==> exists|t: int|
                        0 <= t < j + 1 && comps@[t] == bb) by {
                    if bb == c as int {
                        assert(req@[bb]);
                        assert(comps@[j as int] == bb);
                    } else {
                        if req@[bb] {
                            let t = choose|t: int| 0 <= t < j && comps@[t] == bb;
                            assert(0 <= t < j + 1 && comps@[t] == bb);
                        }
                        if exists|t: int| 0 <= t < j + 1 && comps@[t] == bb {
                            let t = choose|t: int| 0 <= t < j + 1 && comps@[t] == bb;
                            assert(t < j);
                        }
                    }
                }
            }
            j = j + 1;
        }
        proof {
            assert(req@ =~= spec_required(comps@, max as int));
        }
        Ok(self.signatures.query(&req))
    }

    /// After a component is attached, reading it back yields exactly the
    /// attached value: inserting a key into a kind's contents makes the
    /// kind contain that key with that value.
    pub proof fn lemma_attach_then_get(r0: Registry<T>, r1: Registry<T>, comp: usize, e: Entity, v: T)
        requires
            r1.spec_comp_view(comp as int) == r0.spec_comp_view(comp as int).insert(
                spec_entity_index(e),
                v,
            ),
        ensures
            r1.spec_comp_view(comp as int).contains_key(spec_entity_index(e)),
            r1.spec_comp_view(comp as int)[spec_entity_index(e)] == v,
    {
    }

    /// Attaching twice to the same entity overwrites the value and adds
    /// no second entry: the contents after the second attach hold the
    /// second value under the same set of keys.
    pub proof fn lemma_attach_twice_overwrites(
        r0: Registry<T>,
        r1: Registry<T>,
        r2: Registry<T>,
        comp: usize,
        e: Entity,
        v1: T,
        v2: T,
    )
        requires
            r1.spec_comp_view(comp as int) == r0.spec_comp_view(comp as int).insert(
                spec_entity_index(e),
                v1,
            ),
            r2.spec_comp_view(comp as int) == r1.spec_comp_view(comp as int).insert(
                spec_entity_index(e),
                v2,
            ),
        ensures
            r2.spec_comp_view(comp as int)[spec_entity_index(e)] == v2,
            r2.spec_comp_view(comp as int).dom() == r1.spec_comp_view(comp as int).dom(),
    {
        assert(r2.spec_comp_view(comp as int).dom() =~= r1.spec_comp_view(comp as int).dom());
    }

    /// After a component is detached, reading it back yields nothing —
    /// and by [`Registry::detach`]'s contract, a second detach of the
    /// same kind must fail with the not-present error.
    pub proof fn lemma_detach_then_get(r0: Registry<T>, r1: Registry<T>, comp: usize, e: Entity)
        requires
            r1.spec_comp_view(comp as int) == r0.spec_comp_view(comp as int).remove(
                spec_entity_index(e),
            ),
        ensures
            !r1.spec_comp_view(comp as int).contains_key(spec_entity_index(e)),
    {
    }
}

} // verus!
