//! Per-entity component signatures and query matching.
//!
//! Each component kind is assigned a stable bit position when it is
//! registered, in registration order. Every entity that ever had a
//! component carries a [`Bitset`] of fixed length recording which kinds
//! it currently holds. A query builds a required bitset and selects the
//! entities whose signature contains every required bit — a subset test,
//! so entities with extra unrelated components still match.

use crate::bitset::Bitset;
use crate::registry_error::RegistryError;
use crate::sparse_set::SparseSet;
use crate::types::get_entity_index;
use crate::types::spec_entity_index;
use crate::types::Entity;
use crate::types::INDEX_MASK;
use vstd::prelude::*;

verus! {

broadcast use crate::bitset::lemma_bitset_view_len;

/// A signature contains a requirement when every required bit is set in
/// it.
pub open spec fn spec_sig_matches(sig: Seq<bool>, req: Seq<bool>) -> bool {
    forall|b: int| 0 <= b < req.len() ==> ((#[trigger] req[b]) ==> sig[b])
}

/// Tracks which component kinds each entity holds.
pub struct SignatureIndex {
    signatures: SparseSet<Bitset>,
    max_components: usize,
    registered: usize,
}

impl SignatureIndex {
    /// The signature store itself: entity index to bitset, in dense order.
    pub closed spec fn spec_store(self) -> SparseSet<Bitset> {
        self.signatures
    }

    /// Largest number of component kinds this index can ever hold.
    pub closed spec fn spec_max(self) -> usize {
        self.max_components
    }

    /// Number of kinds registered so far; also the next free bit.
    pub closed spec fn spec_registered(self) -> usize {
        self.registered
    }

    /// The signatures, as a map from entity index to bitset.
    pub open spec fn spec_sigs(self) -> Map<u32, Bitset> {
        self.spec_store()@
    }

    /// The tracked entities, in dense order.
    pub open spec fn spec_entity_seq(self) -> Seq<Entity> {
        self.spec_store().spec_entities()
    }

    /// The store is consistent and every signature is a well-formed
    /// bitset of the configured length.
    pub open spec fn wf(self) -> bool {
        &&& self.spec_store().wf()
        &&& self.spec_registered() <= self.spec_max()
        &&& self.spec_max() <= usize::MAX - 31
        &&& forall|k: u32|
            #[trigger] self.spec_sigs().contains_key(k) ==> self.spec_sigs()[k].wf()
                && self.spec_sigs()[k].spec_len() == self.spec_max()
        &&& forall|k: u32, b: int|
            self.spec_sigs().contains_key(k) && self.spec_registered() <= b < self.spec_max()
                ==> !(#[trigger] self.spec_sigs()[k]@[b])
    }

    /// Whether bit `b` is set in the signature of entity index `k`.
    pub open spec fn spec_sig_bit(self, k: u32, b: int) -> bool {
        self.spec_sigs().contains_key(k) && self.spec_sigs()[k]@[b]
    }

    /// Whether `e`'s signature contains every bit of `req`.
    pub open spec fn spec_matches(self, req: Seq<bool>, e: Entity) -> bool {
        spec_sig_matches(self.spec_sigs()[spec_entity_index(e)]@, req)
    }

    /// The subsequence of `ents` whose signatures contain every bit of
    /// `req`, in order.
    pub open spec fn spec_matching(self, req: Seq<bool>, ents: Seq<Entity>) -> Seq<Entity>
        decreases ents.len(),
    {
        if ents.len() == 0 {
            Seq::<Entity>::empty()
        } else {
            let rest = self.spec_matching(req, ents.drop_last());
            if self.spec_matches(req, ents.last()) {
                rest.push(ents.last())
            } else {
                rest
            }
        }
    }

    /// Creates an index for at most `max` component kinds, tracking no
    /// entities.
    pub fn new(max: usize) -> (r: SignatureIndex)
        requires
            max <= usize::MAX - 31,
        ensures
            r.wf(),
            r.spec_max() == max,
            r.spec_registered() == 0,
            r.spec_sigs() == Map::<u32, Bitset>::empty(),
            r.spec_entity_seq() == Seq::<Entity>::empty(),
    {
        SignatureIndex { signatures: SparseSet::new(), max_components: max, registered: 0 }
    }

    /// Largest number of component kinds this index can ever hold.
    pub fn max_components(&self) -> (n: usize)
        ensures
            n == self.spec_max(),
    {
        self.max_components
    }

    /// Number of kinds registered so far.
    pub fn registered(&self) -> (n: usize)
        ensures
            n == self.spec_registered(),
    {
        self.registered
    }

    /// Assigns the next bit position to a new component kind. Fails with
    /// `CapacityExceeded` once `max` kinds exist, since every signature
    /// in the system would need resizing.
    pub fn register_bit(&mut self) -> (r: Result<usize, RegistryError>)
        requires
            old(self).wf(),
        ensures
            final(self).wf(),
            final(self).spec_max() == old(self).spec_max(),
            final(self).spec_store() == old(self).spec_store(),
            old(self).spec_registered() < old(self).spec_max() ==> r == Ok::<usize, RegistryError>(
                old(self).spec_registered(),
            ) && final(self).spec_registered() == old(self).spec_registered() + 1,
            old(self).spec_registered() == old(self).spec_max() ==> r == Err::<
                usize,
                RegistryError,
            >(RegistryError::CapacityExceeded) && *final(self) == *old(self),
    {
        let r: Result<usize, RegistryError>;
        if self.registered < self.max_components {
            let b = self.registered;
            self.registered = self.registered + 1;
            r = Ok(b);
        } else {
            r = Err(RegistryError::CapacityExceeded);
        }
        proof {
            assert(self.spec_sigs() == old(self).spec_sigs());
            assert forall|k: u32| #[trigger] self.spec_sigs().contains_key(k) implies self.spec_sigs()[k].wf()
                && self.spec_sigs()[k].spec_len() == self.spec_max() by {
                assert(old(self).spec_sigs().contains_key(k));
            }
            assert(self.wf());
        }
        r
    }

    /// Sets bit `b` in `e`'s signature, creating an empty signature for
    /// it first if the entity was never tracked.
    pub fn set_bit(&mut self, e: Entity, b: usize)
        requires
            old(self).wf(),
            b < old(self).spec_registered(),
        ensures
            final(self).wf(),
            final(self).spec_max() == old(self).spec_max(),
            final(self).spec_registered() == old(self).spec_registered(),
            final(self).spec_sigs().dom() == old(self).spec_sigs().dom().insert(
                spec_entity_index(e),
            ),
            forall|k: u32|
                k != spec_entity_index(e) && #[trigger] old(self).spec_sigs().contains_key(k)
                    ==> final(self).spec_sigs()[k] == old(self).spec_sigs()[k],
            final(self).spec_sigs()[spec_entity_index(e)]@ == (if old(self).spec_sigs().contains_key(spec_entity_index(e)) {
                old(self).spec_sigs()[spec_entity_index(e)]@
            } else {
                Seq::<bool>::new(old(self).spec_max() as nat, |i: int| false)
            }).update(b as int, true),
            old(self).spec_sigs().contains_key(spec_entity_index(e)) ==> final(self).spec_entity_seq() == old(self).spec_entity_seq(),
            !old(self).spec_sigs().contains_key(spec_entity_index(e)) ==> final(self).spec_entity_seq() == old(self).spec_entity_seq().push(e),
    {
        let ghost s0 = self.signatures;
        let ghost eidx = spec_entity_index(e);
        let present = self.signatures.has(e);
        if present {
            let r = self.signatures.get_mut(e);
            proof {
                assert(s0@.contains_key(eidx));
                assert(old(self).spec_sigs().contains_key(eidx));
                assert(s0@[eidx].wf() && s0@[eidx].spec_len() == old(self).spec_max());
            }
            match r {
                Some(sig) => {
                    sig.set(b);
                },
                None => {},
            }
            proof {
                assert((s0.slot(eidx) as int) < s0.spec_dense().len());
                let x = self.signatures.spec_dense()[s0.slot(eidx) as int];
                assert(x@ == s0@[eidx]@.update(b as int, true));
                assert(x.wf());
                assert(x.spec_len() == self.spec_max());
                s0.lemma_view_after_value_update(self.signatures, e, x);
                assert(self.spec_sigs() == s0@.insert(eidx, x));
                assert(self.spec_sigs().dom() =~= s0@.dom().insert(eidx));
                assert(self.spec_sigs()[eidx] == x);
            }
        } else {
            let mut fresh = Bitset::new(self.max_components);
            fresh.set(b);
            let ir = self.signatures.insert(e, fresh);
            proof {
                assert(ir is Ok);
                assert(self.spec_sigs() == s0@.insert(eidx, fresh));
                assert(self.spec_sigs().dom() =~= s0@.dom().insert(eidx));
                assert(self.spec_sigs()[eidx] == fresh);
                assert(fresh@ =~= Seq::<bool>::new(old(self).spec_max() as nat, |i: int| false)
                    .update(b as int, true));
            }
        }
        proof {
            assert forall|k: u32| #[trigger] self.spec_sigs().contains_key(k) implies self.spec_sigs()[k].wf()
                && self.spec_sigs()[k].spec_len() == self.spec_max() by {
                if k != eidx {
                    assert(self.spec_sigs()[k] == s0@[k]);
                    assert(old(self).spec_sigs().contains_key(k));
                }
            }
            assert forall|k: u32, b2: int|
                self.spec_sigs().contains_key(k) && self.spec_registered() <= b2
                    < self.spec_max() implies !(#[trigger] self.spec_sigs()[k]@[b2]) by {
                if k == eidx {
                    if present {
                        assert(old(self).spec_sigs().contains_key(eidx));
                        assert(old(self).spec_sigs()[eidx].wf());
                        assert(!old(self).spec_sigs()[eidx]@[b2]);
                        assert(self.spec_sigs()[eidx]@ == s0@[eidx]@.update(b as int, true));
                    } else {
                        assert(self.spec_sigs()[eidx]@ == Seq::<bool>::new(
                            old(self).spec_max() as nat,
                            |i: int| false,
                        ).update(b as int, true));
                    }
                } else {
                    assert(self.spec_sigs()[k] == s0@[k]);
                    assert(old(self).spec_sigs().contains_key(k));
                    assert(!old(self).spec_sigs()[k]@[b2]);
                }
            }
            assert(self.wf());
        }
    }

    /// Clears bit `b` in `e`'s signature; the entity must be tracked.
    pub fn clear_bit(&mut self, e: Entity, b: usize)
        requires
            old(self).wf(),
            b < old(self).spec_registered(),
            old(self).spec_sigs().contains_key(spec_entity_index(e)),
        ensures
            final(self).wf(),
            final(self).spec_max() == old(self).spec_max(),
            final(self).spec_registered() == old(self).spec_registered(),
            final(self).spec_sigs().dom() == old(self).spec_sigs().dom(),
            forall|k: u32|
                k != spec_entity_index(e) && #[trigger] old(self).spec_sigs().contains_key(k)
                    ==> final(self).spec_sigs()[k] == old(self).spec_sigs()[k],
            final(self).spec_sigs()[spec_entity_index(e)]@ == old(self).spec_sigs()[
                spec_entity_index(e)]@.update(b as int, false),
            final(self).spec_entity_seq() == old(self).spec_entity_seq(),
    {
        let ghost s0 = self.signatures;
        let ghost eidx = spec_entity_index(e);
        let r = self.signatures.get_mut(e);
        proof {
            assert(s0@.contains_key(eidx));
            assert(old(self).spec_sigs().contains_key(eidx));
            assert(s0@[eidx].wf() && s0@[eidx].spec_len() == old(self).spec_max());
        }
        match r {
            Some(sig) => {
                sig.reset(b);
            },
            None => {},
        }
        proof {
            assert((s0.slot(eidx) as int) < s0.spec_dense().len());
            let x = self.signatures.spec_dense()[s0.slot(eidx) as int];
            assert(x@ == s0@[eidx]@.update(b as int, false));
            assert(x.wf());
            assert(x.spec_len() == self.spec_max());
            s0.lemma_view_after_value_update(self.signatures, e, x);
            assert(self.spec_sigs() == s0@.insert(eidx, x));
            assert(self.spec_sigs().dom() =~= s0@.dom());
            assert(self.spec_sigs()[eidx] == x);
            assert forall|k: u32| #[trigger] self.spec_sigs().contains_key(k) implies self.spec_sigs()[k].wf()
                && self.spec_sigs()[k].spec_len() == self.spec_max() by {
                if k != eidx {
                    assert(self.spec_sigs()[k] == s0@[k]);
                    assert(old(self).spec_sigs().contains_key(k));
                }
            }
            assert forall|k: u32, b2: int|
                self.spec_sigs().contains_key(k) && self.spec_registered() <= b2
                    < self.spec_max() implies !(#[trigger] self.spec_sigs()[k]@[b2]) by {
                if k == eidx {
                    assert(old(self).spec_sigs()[eidx].wf());
                    assert(!old(self).spec_sigs()[eidx]@[b2]);
                    assert(self.spec_sigs()[eidx]@ == s0@[eidx]@.update(b as int, false));
                } else {
                    assert(self.spec_sigs()[k] == s0@[k]);
                    assert(old(self).spec_sigs().contains_key(k));
                    assert(!old(self).spec_sigs()[k]@[b2]);
                }
            }
            assert(self.wf());
        }
    }

    /// Returns a copy of `e`'s signature, or the all-unset signature if
    /// the entity was never tracked.
    pub fn signature_of(&self, e: Entity) -> (r: Bitset)
        requires
            self.wf(),
        ensures
            r.wf(),
            r.spec_len() == self.spec_max(),
            r@.len() == self.spec_max(),
            self.spec_sigs().contains_key(spec_entity_index(e)) ==> r@ == self.spec_sigs()[
                spec_entity_index(e)]@,
            !self.spec_sigs().contains_key(spec_entity_index(e)) ==> forall|i: int|
                0 <= i < r@.len() ==> !r@[i],
    {
        match self.signatures.get(e) {
            Some(s) => {
                proof {
                    assert(self.spec_sigs().contains_key(spec_entity_index(e)));
                }
                let c = s.clone();
                proof {
                    c.lemma_view_len();
                }
                c
            },
            None => Bitset::new(self.max_components),
        }
    }

    /// Forgets `e`'s signature entirely; reports whether one existed.
    pub fn remove(&mut self, e: Entity) -> (b: bool)
        requires
            old(self).wf(),
        ensures
            final(self).wf(),
            final(self).spec_max() == old(self).spec_max(),
            final(self).spec_registered() == old(self).spec_registered(),
            b == old(self).spec_sigs().contains_key(spec_entity_index(e)),
            !b ==> final(self).spec_store() == old(self).spec_store(),
            b ==> final(self).spec_sigs() == old(self).spec_sigs().remove(spec_entity_index(e))
                && final(self).spec_entity_seq() == old(self).spec_entity_seq().update(
                old(self).spec_store().slot(spec_entity_index(e)) as int,
                old(self).spec_entity_seq().last(),
            ).drop_last(),
    {
        let was_present = match self.signatures.remove(e) {
            Ok(()) => true,
            Err(_) => false,
        };
        proof {
            assert forall|k: u32| #[trigger] self.spec_sigs().contains_key(k) implies self.spec_sigs()[k].wf()
                && self.spec_sigs()[k].spec_len() == self.spec_max() by {
                assert(old(self).spec_sigs().contains_key(k));
                assert(self.spec_sigs()[k] == old(self).spec_sigs()[k]);
            }
            assert forall|k: u32, b2: int|
                self.spec_sigs().contains_key(k) && self.spec_registered() <= b2
                    < self.spec_max() implies !(#[trigger] self.spec_sigs()[k]@[b2]) by {
                assert(old(self).spec_sigs().contains_key(k));
                assert(self.spec_sigs()[k] == old(self).spec_sigs()[k]);
                assert(!old(self).spec_sigs()[k]@[b2]);
            }
            assert(self.wf());
        }
        was_present
    }

    /// Tests whether `sig` contains every bit required by `req`.
    fn sig_contains_all(sig: &Bitset, req: &Bitset) -> (b: bool)
        requires
            sig.wf(),
            req.wf(),
            sig.spec_len() == req.spec_len(),
        ensures
            b == spec_sig_matches(sig@, req@),
    {
        let n = req.len();
        let mut k: usize = 0;
        while k < n
            invariant
                k <= n,
                n == req@.len(),
                sig.wf(),
                req.wf(),
                sig.spec_len() == req.spec_len(),
                n == req.spec_len(),
                forall|b: int| 0 <= b < k ==> ((#[trigger] req@[b]) ==> sig@[b]),
            decreases n - k,
        {
            if req.test(k) && !sig.test(k) {
                return false;
            }
            k = k + 1;
        }
        true
    }

    /// Collects, in dense order, every tracked entity whose signature
    /// contains all bits of `required`.
    pub fn query(&self, required: &Bitset) -> (r: Vec<Entity>)
        requires
            self.wf(),
            required.wf(),
            required.spec_len() == self.spec_max(),
        ensures
            r@ == self.spec_matching(required@, self.spec_entity_seq()),
    {
        let n = self.signatures.len();
        let mut out: Vec<Entity> = Vec::new();
        let mut i: usize = 0;
        while i < n
            invariant
                self.wf(),
                required.wf(),
                required.spec_len() == self.spec_max(),
                i <= n,
                n == self.spec_entity_seq().len(),
                out@ == self.spec_matching(required@, self.spec_entity_seq().take(i as int)),
            decreases n - i,
        {
            proof {
                assert(self.spec_entity_seq().len() <= INDEX_MASK + 1);
            }
            let e = self.signatures.entity_at(i as u32);
            let sigopt = self.signatures.get(e);
            proof {
                assert(self.spec_store().slot(spec_entity_index(e)) as int == i as int);
                assert(self.spec_sigs().contains_key(spec_entity_index(e)));
            }
            let sig = match sigopt {
                Some(s) => s,
                None => {
                    proof {
                        assert(false);
                    }
                    return out;
                },
            };
            if Self::sig_contains_all(sig, required) {
                out.push(e);
            }
            proof {
                let ents = self.spec_entity_seq();
                let t1 = ents.take(i + 1);
                assert(t1.drop_last() =~= ents.take(i as int));
                assert(t1.last() == ents[i as int]);
            }
            i = i + 1;
        }
        proof {
            assert(self.spec_entity_seq().take(n as int) =~= self.spec_entity_seq());
        }
        out
    }
}

} // verus!
