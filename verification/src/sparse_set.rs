//! A paged sparse set: entity indices to values, with dense storage.
//!
//! Two parallel dense vectors hold the values and the owning entities,
//! packed without gaps; a paged sparse array maps an entity's slot index
//! to its position in the dense vectors, or [`NPOS`] when absent. The set
//! is abstracted as a `Map<u32, T>` from entity index to value, plus the
//! dense order of the owning entities. Removal is by swap-and-pop: the
//! last dense element moves into the vacated position and its sparse
//! entry is fixed up.
//!
//! Keys are the index field of a handle: two handles with the same index
//! address the same entry regardless of version. The layer that rules out
//! stale versions is [`crate::registry::Registry`].

use crate::arith::lemma_chunk_recompose;
use crate::arith::lemma_index_chunk_bound;
use crate::arith::lemma_split_index;
use crate::registry_error::SparseSetError;
use crate::types::get_entity_index;
use crate::types::lemma_entity_index_bounded;
use crate::types::spec_entity_index;
use crate::types::Entity;
use crate::types::INDEX_MASK;
use crate::types::NPOS;
use crate::types::SPARSE_PAGE_LIMIT;
use crate::types::SPARSE_SET_SIZE;
use vstd::assert_sets_equal;
use vstd::map::*;
use vstd::prelude::*;

verus! {

/// Number of pages that `reserve` aims for to cover `amount` slots,
/// capped at the pages that any representable index can reach.
pub open spec fn spec_page_goal(amount: usize) -> int {
    let raw = (amount + SPARSE_SET_SIZE - 1) as int / (SPARSE_SET_SIZE as int);
    if raw > SPARSE_PAGE_LIMIT {
        SPARSE_PAGE_LIMIT as int
    } else {
        raw
    }
}

/// Maps entity indices to values of type `T` with dense, gap-free storage.
pub struct SparseSet<T> {
    dense: Vec<T>,
    dense_entities: Vec<Entity>,
    sparse: Vec<Vec<u32>>,
}

impl<T> SparseSet<T> {
    /// The sparse pages; every page holds one slot per coverable index.
    pub closed spec fn spec_pages(self) -> Seq<Seq<u32>> {
        self.sparse@.map_values(|p: Vec<u32>| p@)
    }

    /// The dense values, in storage order.
    pub closed spec fn spec_dense(self) -> Seq<T> {
        self.dense@
    }

    /// The owning entity of each dense position, index-aligned with the
    /// values.
    pub closed spec fn spec_entities(self) -> Seq<Entity> {
        self.dense_entities@
    }

    /// The dense position recorded for index `idx`, or [`NPOS`] if its
    /// page does not exist or the slot is empty.
    pub open spec fn slot(self, idx: u32) -> u32 {
        if idx as int / (SPARSE_SET_SIZE as int) < self.spec_pages().len() {
            self.spec_pages()[idx as int / (SPARSE_SET_SIZE as int)][idx as int % (
            SPARSE_SET_SIZE as int)]
        } else {
            NPOS
        }
    }

    /// Sparse and dense storage agree: every dense position is pointed at
    /// by exactly the slot of its owner's index, and every occupied slot
    /// points back at a dense entry owning that index.
    pub open spec fn wf(self) -> bool {
        &&& self.spec_dense().len() == self.spec_entities().len()
        &&& self.spec_entities().len() <= INDEX_MASK + 1
        &&& self.spec_pages().len() <= SPARSE_PAGE_LIMIT
        &&& forall|p: int|
            0 <= p < self.spec_pages().len() ==> (#[trigger] self.spec_pages()[p]).len()
                == SPARSE_SET_SIZE
        &&& forall|i: int|
            0 <= i < self.spec_entities().len() ==> self.slot(
                spec_entity_index(#[trigger] self.spec_entities()[i]),
            ) as int == i
        &&& forall|idx: u32|
            idx <= INDEX_MASK && #[trigger] self.slot(idx) != NPOS ==> (self.slot(idx) as int)
                < self.spec_entities().len() && spec_entity_index(
                self.spec_entities()[self.slot(idx) as int],
            ) == idx
    }
}

impl<T> View for SparseSet<T> {
    type V = Map<u32, T>;

    open spec fn view(&self) -> Map<u32, T> {
        Map::new(
            |idx: u32| idx <= INDEX_MASK && self.slot(idx) != NPOS,
            |idx: u32| self.spec_dense()[self.slot(idx) as int],
        )
    }
}

/// A fresh all-empty page.
fn make_page() -> (p: Vec<u32>)
    ensures
        p@.len() == SPARSE_SET_SIZE,
        forall|o: int| 0 <= o < p@.len() ==> p@[o] == NPOS,
{
    vec![NPOS; SPARSE_SET_SIZE]
}

impl<T> SparseSet<T> {
    /// Creates an empty set with no pages.
    pub fn new() -> (r: SparseSet<T>)
        ensures
            r.wf(),
            r@ == Map::<u32, T>::empty(),
            r.spec_entities() == Seq::<Entity>::empty(),
            r.spec_dense().len() == 0,
            r.spec_pages().len() == 0,
    {
        let r = SparseSet { dense: Vec::new(), dense_entities: Vec::new(), sparse: Vec::new() };
        proof {
            assert(r@ =~= Map::<u32, T>::empty());
        }
        r
    }

    /// Reads the slot recorded for `idx`.
    fn slot_lookup(&self, idx: u32) -> (s: u32)
        requires
            self.wf(),
        ensures
            s == self.slot(idx),
    {
        let p: usize = (idx as usize) / SPARSE_SET_SIZE;
        if p < self.sparse.len() {
            proof {
                lemma_split_index(idx as int, SPARSE_SET_SIZE as int);
                assert(self.spec_pages()[p as int].len() == SPARSE_SET_SIZE);
                assert(self.spec_pages()[p as int] == self.sparse@[p as int]@);
            }
            let o: usize = (idx as usize) % SPARSE_SET_SIZE;
            self.sparse[p][o]
        } else {
            NPOS
        }
    }

    /// Writes `s` into the slot for `idx`; the page must already exist.
    /// Leaves every other slot and both dense vectors alone.
    fn slot_write(&mut self, idx: u32, s: u32)
        requires
            idx as int / (SPARSE_SET_SIZE as int) < old(self).spec_pages().len(),
            forall|p: int|
                0 <= p < old(self).spec_pages().len() ==> (#[trigger] old(self).spec_pages()[
                p]).len() == SPARSE_SET_SIZE,
        ensures
            final(self).spec_dense() == old(self).spec_dense(),
            final(self).spec_entities() == old(self).spec_entities(),
            final(self).spec_pages().len() == old(self).spec_pages().len(),
            forall|p: int|
                0 <= p < final(self).spec_pages().len() ==> (#[trigger] final(self).spec_pages()[
                p]).len() == SPARSE_SET_SIZE,
            final(self).slot(idx) == s,
            forall|x: u32| x != idx ==> final(self).slot(x) == old(self).slot(x),
    {
        proof {
            lemma_split_index(idx as int, SPARSE_SET_SIZE as int);
        }
        let p: usize = (idx as usize) / SPARSE_SET_SIZE;
        let o: usize = (idx as usize) % SPARSE_SET_SIZE;
        let page: &mut Vec<u32> = &mut self.sparse[p];
        proof {
            assert(old(self).spec_pages()[p as int] == old(self).sparse@[p as int]@);
            assert(page@.len() == SPARSE_SET_SIZE);
        }
        page[o] = s;
        proof {
            assert forall|p2: int|
                0 <= p2 < self.spec_pages().len() implies (#[trigger] self.spec_pages()[p2]).len()
                == SPARSE_SET_SIZE by {
                assert(self.spec_pages()[p2] == self.sparse@[p2]@);
                assert(old(self).spec_pages()[p2] == old(self).sparse@[p2]@);
            }
            assert forall|x: u32| x != idx implies self.slot(x) == old(self).slot(x) by {
                lemma_split_index(x as int, SPARSE_SET_SIZE as int);
                let px = x as int / (SPARSE_SET_SIZE as int);
                if 0 <= px < self.spec_pages().len() {
                    assert(self.spec_pages()[px] == self.sparse@[px]@);
                    assert(old(self).spec_pages()[px] == old(self).sparse@[px]@);
                    if px == p as int {
                        assert(x as int % (SPARSE_SET_SIZE as int) != o as int);
                    }
                }
            }
            assert(self.spec_pages()[p as int] == self.sparse@[p as int]@);
            assert(self.slot(idx) == s);
        }
    }

    /// Appends all-empty pages until at least `target` pages exist.
    fn grow_pages(&mut self, target: usize)
        requires
            old(self).wf(),
            target <= SPARSE_PAGE_LIMIT,
        ensures
            final(self).wf(),
            final(self).spec_dense() == old(self).spec_dense(),
            final(self).spec_entities() == old(self).spec_entities(),
            forall|x: u32| final(self).slot(x) == old(self).slot(x),
            final(self)@ == old(self)@,
            final(self).spec_pages().len() == if old(self).spec_pages().len() >= target {
                old(self).spec_pages().len() as int
            } else {
                target as int
            },
    {
        while self.sparse.len() < target
            invariant
                target <= SPARSE_PAGE_LIMIT,
                self.wf(),
                self.spec_dense() == old(self).spec_dense(),
                self.spec_entities() == old(self).spec_entities(),
                self.spec_pages().len() >= old(self).spec_pages().len(),
                old(self).spec_pages().len() >= target ==> self.spec_pages().len() == old(self).spec_pages().len(),
                old(self).spec_pages().len() < target ==> self.spec_pages().len() <= target,
                forall|x: u32| self.slot(x) == old(self).slot(x),
            decreases target - self.sparse@.len(),
        {
            let page = make_page();
            let ghost prev = *self;
            self.sparse.push(page);
            proof {
                assert forall|p2: int|
                    0 <= p2 < self.spec_pages().len() implies (
                #[trigger] self.spec_pages()[p2]).len() == SPARSE_SET_SIZE by {
                    assert(self.spec_pages()[p2] == self.sparse@[p2]@);
                    if p2 < prev.spec_pages().len() {
                        assert(prev.spec_pages()[p2] == prev.sparse@[p2]@);
                    } else {
                        assert(self.sparse@[p2] == page);
                    }
                }
                assert forall|x: u32| self.slot(x) == prev.slot(x) by {
                    lemma_split_index(x as int, SPARSE_SET_SIZE as int);
                    let px = x as int / (SPARSE_SET_SIZE as int);
                    if px < prev.spec_pages().len() {
                        assert(self.spec_pages()[px] == self.sparse@[px]@);
                        assert(prev.spec_pages()[px] == prev.sparse@[px]@);
                    } else if px < self.spec_pages().len() {
                        assert(self.spec_pages()[px] == self.sparse@[px]@);
                        assert(self.sparse@[px] == page);
                    }
                }
                assert forall|i: int| 0 <= i < self.spec_entities().len() implies self.slot(
                    spec_entity_index(#[trigger] self.spec_entities()[i]),
                ) as int == i by {
                    assert(self.slot(spec_entity_index(self.spec_entities()[i])) == prev.slot(
                        spec_entity_index(prev.spec_entities()[i]),
                    ));
                }
                assert forall|idx: u32|
                    idx <= INDEX_MASK && #[trigger] self.slot(idx) != NPOS implies (self.slot(
                    idx,
                ) as int) < self.spec_entities().len() && spec_entity_index(
                    self.spec_entities()[self.slot(idx) as int],
                ) == idx by {
                    assert(self.slot(idx) == prev.slot(idx));
                }
                assert(self.wf());
            }
        }
        proof {
            assert(self@ =~= old(self)@);
        }
    }

    /// When some coverable index is absent, the dense storage cannot yet
    /// be full: its entries own distinct indices, all different from the
    /// absent one.
    proof fn lemma_absent_index_bounds_len(self, idx: u32)
        requires
            self.wf(),
            idx <= INDEX_MASK,
            self.slot(idx) == NPOS,
        ensures
            self.spec_entities().len() < INDEX_MASK + 1,
    {
        broadcast use vstd::set::group_set_axioms;
        broadcast use vstd::seq_lib::seq_to_set_is_finite;

        let e = self.spec_entities();
        let iseq: Seq<int> = Seq::new(e.len(), |i: int| spec_entity_index(e[i]) as int);
        assert forall|i: int, j: int|
            0 <= i < iseq.len() && 0 <= j < iseq.len() && i != j implies iseq[i] != iseq[j] by {
            assert(self.slot(spec_entity_index(e[i])) as int == i);
            assert(self.slot(spec_entity_index(e[j])) as int == j);
        }
        assert(iseq.no_duplicates());
        iseq.unique_seq_to_set();
        let range = vstd::set_lib::set_int_range(0, INDEX_MASK as int + 1);
        vstd::set_lib::lemma_int_range(0, INDEX_MASK as int + 1);
        let bounded = range.remove(idx as int);
        assert forall|x: int| iseq.to_set().contains(x) implies bounded.contains(x) by {
            assert(iseq.contains(x));
            let i = choose|i: int| 0 <= i < iseq.len() && iseq[i] == x;
            assert(self.slot(spec_entity_index(e[i])) as int == i);
            lemma_entity_index_bounded(e[i]);
            if spec_entity_index(e[i]) == idx {
                assert(self.slot(idx) as int == i);
                assert(false);
            }
        }
        vstd::set_lib::lemma_len_subset(iseq.to_set(), bounded);
    }

    /// Stores `value` for `e`'s index. An already present index has its
    /// value overwritten in place, keeping the dense order and the entry's
    /// original owner handle; an absent one is appended at the end of the
    /// dense storage. Grows the pages as needed; never fails.
    pub fn insert(&mut self, e: Entity, value: T) -> (r: Result<(), SparseSetError>)
        requires
            old(self).wf(),
        ensures
            final(self).wf(),
            r == Ok::<(), SparseSetError>(()),
            final(self)@ == old(self)@.insert(spec_entity_index(e), value),
            old(self)@.contains_key(spec_entity_index(e)) ==> final(self).spec_entities() == old(self).spec_entities(),
            !old(self)@.contains_key(spec_entity_index(e)) ==> final(self).spec_entities() == old(self).spec_entities().push(e),
    {
        let idx = get_entity_index(e);
        let p: usize = (idx as usize) / SPARSE_SET_SIZE;
        proof {
            lemma_index_chunk_bound(idx as int, INDEX_MASK as int + 1, SPARSE_SET_SIZE as int);
        }
        self.grow_pages(p + 1);
        let ghost m1 = *self;
        let s = self.slot_lookup(idx);
        if s != NPOS {
            proof {
                assert((m1.slot(idx) as int) < m1.spec_entities().len());
            }
            self.dense[s as usize] = value;
            proof {
                assert(self.spec_pages() == m1.spec_pages());
                assert(self.spec_entities() == m1.spec_entities());
                assert(self.wf()) by {
                    assert forall|i: int|
                        0 <= i < self.spec_entities().len() implies self.slot(
                        spec_entity_index(#[trigger] self.spec_entities()[i]),
                    ) as int == i by {
                        assert(self.slot(spec_entity_index(m1.spec_entities()[i])) == m1.slot(
                            spec_entity_index(m1.spec_entities()[i]),
                        ));
                    }
                    assert forall|k: u32|
                        k <= INDEX_MASK && #[trigger] self.slot(k) != NPOS implies (self.slot(
                        k,
                    ) as int) < self.spec_entities().len() && spec_entity_index(
                        self.spec_entities()[self.slot(k) as int],
                    ) == k by {
                        assert(self.slot(k) == m1.slot(k));
                    }
                }
                assert_maps_equal!(self@, old(self)@.insert(spec_entity_index(e), value), k => {
                    assert(self.slot(k) == m1.slot(k));
                    if k != spec_entity_index(e) && k <= INDEX_MASK && m1.slot(k) != NPOS {
                        if m1.slot(k) == m1.slot(idx) {
                            assert(spec_entity_index(m1.spec_entities()[m1.slot(k) as int]) == k);
                        }
                    }
                });
            }
        } else {
            let pos: usize = self.dense.len();
            proof {
                self.lemma_absent_index_bounds_len(idx);
            }
            self.slot_write(idx, pos as u32);
            self.dense_entities.push(e);
            self.dense.push(value);
            proof {
                let ghost ee = self.spec_entities();
                assert(ee == m1.spec_entities().push(e));
                assert forall|i: int|
                    0 <= i < ee.len() implies self.slot(
                    spec_entity_index(#[trigger] ee[i]),
                ) as int == i by {
                    if i < m1.spec_entities().len() {
                        assert(ee[i] == m1.spec_entities()[i]);
                        assert(m1.slot(spec_entity_index(ee[i])) as int == i);
                        if spec_entity_index(ee[i]) == idx {
                            assert(false);
                        }
                        assert(self.slot(spec_entity_index(ee[i])) == m1.slot(
                            spec_entity_index(ee[i]),
                        ));
                    } else {
                        assert(ee[i] == e);
                        assert(self.slot(idx) == pos as u32);
                    }
                }
                assert forall|k: u32|
                    k <= INDEX_MASK && #[trigger] self.slot(k) != NPOS implies (self.slot(
                    k,
                ) as int) < ee.len() && spec_entity_index(ee[self.slot(k) as int]) == k by {
                    if k == idx {
                        assert(self.slot(k) == pos as u32);
                        assert(ee[pos as int] == e);
                    } else {
                        assert(self.slot(k) == m1.slot(k));
                        assert((m1.slot(k) as int) < m1.spec_entities().len());
                        assert(ee[m1.slot(k) as int] == m1.spec_entities()[m1.slot(k) as int]);
                    }
                }
                assert(self.wf());
                assert_maps_equal!(self@, old(self)@.insert(spec_entity_index(e), value), k => {
                    if k != spec_entity_index(e) {
                        assert(self.slot(k) == m1.slot(k));
                        if k <= INDEX_MASK && m1.slot(k) != NPOS {
                            assert((m1.slot(k) as int) < m1.spec_dense().len());
                        }
                    } else {
                        assert(self.slot(k) == pos as u32);
                    }
                });
            }
        }
        Ok(())
    }

    /// Reads the value stored for `e`'s index, if any.
    pub fn get(&self, e: Entity) -> (r: Option<&T>)
        requires
            self.wf(),
        ensures
            self@.contains_key(spec_entity_index(e)) <==> r is Some,
            r is Some ==> *r.unwrap() == self@[spec_entity_index(e)],
    {
        let idx = get_entity_index(e);
        let s = self.slot_lookup(idx);
        if s == NPOS {
            None
        } else {
            proof {
                assert((self.slot(idx) as int) < self.spec_entities().len());
            }
            Some(&self.dense[s as usize])
        }
    }

    /// Whether a value is stored for `e`'s index.
    pub fn has(&self, e: Entity) -> (b: bool)
        requires
            self.wf(),
        ensures
            b == self@.contains_key(spec_entity_index(e)),
    {
        let s = self.slot_lookup(get_entity_index(e));
        s != NPOS
    }

    /// Number of stored entries.
    pub fn len(&self) -> (n: usize)
        requires
            self.wf(),
        ensures
            n == self.spec_entities().len(),
            n == self.spec_dense().len(),
    {
        self.dense.len()
    }

    /// Number of stored entries; same as [`SparseSet::len`].
    pub fn size(&self) -> (n: usize)
        requires
            self.wf(),
        ensures
            n == self.spec_entities().len(),
            n == self.spec_dense().len(),
    {
        self.len()
    }

    /// Well-formedness only looks at the pages, the owner order, and the
    /// number of dense entries: any state sharing those is well-formed
    /// too, and with equal values it is the same map.
    pub proof fn lemma_wf_from_same_views(self, other: SparseSet<T>)
        requires
            other.wf(),
            self.spec_pages() == other.spec_pages(),
            self.spec_entities() == other.spec_entities(),
            self.spec_dense().len() == other.spec_dense().len(),
        ensures
            self.wf(),
            self.spec_dense() == other.spec_dense() ==> self@ == other@,
    {
        assert forall|i: int|
            0 <= i < self.spec_entities().len() implies self.slot(
            spec_entity_index(#[trigger] self.spec_entities()[i]),
        ) as int == i by {
            assert(self.slot(spec_entity_index(other.spec_entities()[i])) == other.slot(
                spec_entity_index(other.spec_entities()[i]),
            ));
        }
        assert forall|k: u32|
            k <= INDEX_MASK && #[trigger] self.slot(k) != NPOS implies (self.slot(k) as int)
            < self.spec_entities().len() && spec_entity_index(
            self.spec_entities()[self.slot(k) as int],
        ) == k by {
            assert(self.slot(k) == other.slot(k));
        }
        assert(self.wf());
        if self.spec_dense() == other.spec_dense() {
            assert_maps_equal!(self@, other@, k => {
                assert(self.slot(k) == other.slot(k));
            });
        }
    }

    /// Every state with these pages, these owners, and as many dense
    /// entries is well-formed; stated over all such states so that it can
    /// be applied to a state that only becomes known later.
    proof fn lemma_wf_any_same_shape(self)
        requires
            self.wf(),
        ensures
            forall|s2: SparseSet<T>|
                (s2.spec_pages() == self.spec_pages() && s2.spec_entities()
                    == self.spec_entities() && s2.spec_dense().len()
                    == self.spec_dense().len()) ==> (#[trigger] s2.wf()),
    {
        assert forall|s2: SparseSet<T>|
            (s2.spec_pages() == self.spec_pages() && s2.spec_entities() == self.spec_entities()
                && s2.spec_dense().len() == self.spec_dense().len()) implies (
        #[trigger] s2.wf()) by {
            s2.lemma_wf_from_same_views(self);
        }
    }

    /// Removes the entry for `e`'s index by swap-and-pop: the last dense
    /// entry moves into the vacated position and its slot is fixed up.
    /// Fails with `InvalidPosition`, changing nothing, when absent.
    pub fn remove(&mut self, e: Entity) -> (r: Result<(), SparseSetError>)
        requires
            old(self).wf(),
        ensures
            final(self).wf(),
            !old(self)@.contains_key(spec_entity_index(e)) ==> r == Err::<(), SparseSetError>(
                SparseSetError::InvalidPosition,
            ) && *final(self) == *old(self),
            old(self)@.contains_key(spec_entity_index(e)) ==> r == Ok::<(), SparseSetError>(())
                && final(self)@ == old(self)@.remove(spec_entity_index(e)) && final(self).spec_entities() == old(self).spec_entities().update(
                old(self).slot(spec_entity_index(e)) as int,
                old(self).spec_entities().last(),
            ).drop_last(),
    {
        let idx = get_entity_index(e);
        let s = self.slot_lookup(idx);
        if s == NPOS {
            return Err(SparseSetError::InvalidPosition);
        }
        let ghost m0 = *old(self);
        let ghost eidx = spec_entity_index(e);
        let ghost s0 = m0.slot(eidx) as int;
        let ghost n0 = m0.spec_entities().len() as int;
        proof {
            assert(s0 < n0);
        }
        let su: usize = s as usize;
        let _removed_value = self.dense.swap_remove(su);
        let _removed_owner = self.dense_entities.swap_remove(su);
        self.slot_write(idx, NPOS);
        let ghost ma = *self;
        if su < self.dense_entities.len() {
            let moved: Entity = self.dense_entities[su];
            proof {
                assert(ma.spec_entities()[s0] == m0.spec_entities()[n0 - 1]);
                assert(m0.slot(spec_entity_index(m0.spec_entities()[n0 - 1])) as int == n0 - 1);
                assert(spec_entity_index(moved) != eidx) by {
                    if spec_entity_index(moved) == eidx {
                        assert(m0.slot(eidx) as int == n0 - 1);
                    }
                }
                assert(ma.slot(spec_entity_index(moved)) == m0.slot(spec_entity_index(moved)));
                assert(ma.slot(spec_entity_index(moved)) != NPOS);
            }
            self.slot_write(get_entity_index(moved), s);
        }
        proof {
            let e2 = self.spec_entities();
            let d2 = self.spec_dense();
            assert(e2 == m0.spec_entities().update(s0, m0.spec_entities().last()).drop_last());
            assert(e2.len() == n0 - 1);
            let moved_idx = spec_entity_index(m0.spec_entities()[n0 - 1]);
            assert(m0.slot(moved_idx) as int == n0 - 1);
            assert forall|x: u32| x != eidx && (s0 == n0 - 1 || x != moved_idx) implies self.slot(
                x,
            ) == m0.slot(x) by {
                if s0 < n0 - 1 {
                    assert(self.slot(x) == ma.slot(x));
                }
                assert(ma.slot(x) == m0.slot(x));
            }
            assert(self.slot(eidx) == NPOS) by {
                if s0 < n0 - 1 {
                    assert(moved_idx != eidx) by {
                        if moved_idx == eidx {
                            assert(m0.slot(eidx) as int == n0 - 1);
                        }
                    }
                    assert(self.slot(eidx) == ma.slot(eidx));
                }
            }
            if s0 < n0 - 1 {
                assert(self.slot(moved_idx) as int == s0);
            }
            assert forall|i: int|
                0 <= i < e2.len() implies self.slot(
                spec_entity_index(#[trigger] e2[i]),
            ) as int == i by {
                if s0 < n0 - 1 && i == s0 {
                    assert(e2[i] == m0.spec_entities()[n0 - 1]);
                    assert(self.slot(moved_idx) as int == s0);
                } else {
                    assert(e2[i] == m0.spec_entities()[i]);
                    let xi = spec_entity_index(e2[i]);
                    assert(m0.slot(xi) as int == i);
                    assert(xi != eidx) by {
                        if xi == eidx {
                            assert(m0.slot(eidx) as int == i);
                        }
                    }
                    if s0 < n0 - 1 {
                        assert(xi != moved_idx) by {
                            if xi == moved_idx {
                                assert(m0.slot(xi) as int == n0 - 1);
                            }
                        }
                    }
                    assert(self.slot(xi) == m0.slot(xi));
                }
            }
            assert forall|k: u32|
                k <= INDEX_MASK && #[trigger] self.slot(k) != NPOS implies (self.slot(k) as int)
                < e2.len() && spec_entity_index(e2[self.slot(k) as int]) == k by {
                if s0 < n0 - 1 && k == moved_idx {
                    assert(self.slot(k) as int == s0);
                    assert(e2[s0] == m0.spec_entities()[n0 - 1]);
                } else {
                    assert(k != eidx);
                    assert(self.slot(k) == m0.slot(k));
                    let t = m0.slot(k) as int;
                    assert(t < n0);
                    assert(spec_entity_index(m0.spec_entities()[t]) == k);
                    assert(t != s0) by {
                        if t == s0 {
                            assert(spec_entity_index(m0.spec_entities()[s0]) == eidx);
                        }
                    }
                    assert(t != n0 - 1) by {
                        if t == n0 - 1 {
                            assert(k == moved_idx);
                            if s0 == n0 - 1 {
                                assert(t == s0);
                            }
                        }
                    }
                    assert(e2[t] == m0.spec_entities()[t]);
                }
            }
            assert(self.wf());
            assert_maps_equal!(self@, old(self)@.remove(spec_entity_index(e)), k => {
                if k <= INDEX_MASK && self.slot(k) != NPOS {
                    if s0 < n0 - 1 && k == moved_idx {
                        assert(d2[s0] == m0.spec_dense()[n0 - 1]);
                        assert(m0.slot(k) as int == n0 - 1);
                    } else {
                        assert(self.slot(k) == m0.slot(k));
                        let t = m0.slot(k) as int;
                        assert(t != s0) by {
                            if t == s0 {
                                assert(spec_entity_index(m0.spec_entities()[s0]) == eidx);
                            }
                        }
                        assert(t != n0 - 1) by {
                            if t == n0 - 1 {
                                assert(k == moved_idx);
                                if s0 == n0 - 1 {
                                    assert(t == s0);
                                }
                            }
                        }
                        assert(d2[t] == m0.spec_dense()[t]);
                    }
                } else {
                    if k <= INDEX_MASK && m0.slot(k) != NPOS && k != eidx {
                        if s0 < n0 - 1 && k == moved_idx {
                        } else {
                            assert(self.slot(k) == m0.slot(k));
                        }
                    }
                }
            });
        }
        Ok(())
    }

    /// Hands out a mutable borrow of the value stored for `e`'s index, if
    /// any. While the borrow lives, the caller may overwrite the value;
    /// nothing else about the set changes.
    pub fn get_mut(&mut self, e: Entity) -> (r: Option<&mut T>)
        requires
            old(self).wf(),
        ensures
            final(self).wf(),
            old(self)@.contains_key(spec_entity_index(e)) <==> r is Some,
            r is None ==> *final(self) == *old(self),
            r is Some ==> *r.unwrap() == old(self)@[spec_entity_index(e)] && final(self).spec_entities() == old(self).spec_entities() && final(self).spec_pages() == old(self).spec_pages() && final(self).spec_dense() == old(self).spec_dense().update(
                old(self).slot(spec_entity_index(e)) as int,
                *final(r.unwrap()),
            ),
    {
        let idx = get_entity_index(e);
        let s = self.slot_lookup(idx);
        if s == NPOS {
            return None;
        }
        proof {
            assert((self.slot(idx) as int) < self.spec_entities().len());
            self.lemma_wf_any_same_shape();
        }
        Some(&mut self.dense[s as usize])
    }

    /// After overwriting the dense value at an occupied position, the set
    /// maps that position's index to the new value and nothing else moves.
    pub proof fn lemma_view_after_value_update(self, s2: SparseSet<T>, e: Entity, v: T)
        requires
            self.wf(),
            self@.contains_key(spec_entity_index(e)),
            s2.spec_pages() == self.spec_pages(),
            s2.spec_entities() == self.spec_entities(),
            s2.spec_dense() == self.spec_dense().update(self.slot(spec_entity_index(e)) as int, v),
        ensures
            s2.wf(),
            s2@ == self@.insert(spec_entity_index(e), v),
    {
        let eidx = spec_entity_index(e);
        assert forall|i: int|
            0 <= i < s2.spec_entities().len() implies s2.slot(
            spec_entity_index(#[trigger] s2.spec_entities()[i]),
        ) as int == i by {
            assert(s2.slot(spec_entity_index(self.spec_entities()[i])) == self.slot(
                spec_entity_index(self.spec_entities()[i]),
            ));
        }
        assert forall|k: u32|
            k <= INDEX_MASK && #[trigger] s2.slot(k) != NPOS implies (s2.slot(k) as int)
            < s2.spec_entities().len() && spec_entity_index(
            s2.spec_entities()[s2.slot(k) as int],
        ) == k by {
            assert(s2.slot(k) == self.slot(k));
        }
        assert(s2.wf());
        assert_maps_equal!(s2@, self@.insert(spec_entity_index(e), v), k => {
            assert(s2.slot(k) == self.slot(k));
            if k != eidx && k <= INDEX_MASK && self.slot(k) != NPOS {
                if self.slot(k) == self.slot(eidx) {
                    assert(spec_entity_index(self.spec_entities()[self.slot(k) as int]) == k);
                }
            }
        });
    }

    /// The dense storage has no gaps: the number of indices with a stored
    /// value equals the number of dense entries.
    pub proof fn lemma_len_is_membership_count(self)
        requires
            self.wf(),
        ensures
            self@.dom().finite(),
            self@.dom().len() == self.spec_entities().len(),
    {
        broadcast use vstd::set::group_set_axioms;
        broadcast use vstd::seq_lib::seq_to_set_is_finite;

        let e = self.spec_entities();
        let iseq: Seq<u32> = Seq::new(e.len(), |i: int| spec_entity_index(e[i]));
        assert forall|i: int, j: int|
            0 <= i < iseq.len() && 0 <= j < iseq.len() && i != j implies iseq[i] != iseq[j] by {
            assert(self.slot(spec_entity_index(e[i])) as int == i);
            assert(self.slot(spec_entity_index(e[j])) as int == j);
        }
        assert(iseq.no_duplicates());
        iseq.unique_seq_to_set();
        assert_sets_equal!(self@.dom(), iseq.to_set(), k => {
            if self@.dom().contains(k) {
                assert(self.slot(k) != NPOS);
                assert(iseq[self.slot(k) as int] == k);
                assert(iseq.contains(k));
            }
            if iseq.to_set().contains(k) {
                assert(iseq.contains(k));
                let i = choose|i: int| 0 <= i < iseq.len() && iseq[i] == k;
                assert(self.slot(spec_entity_index(e[i])) as int == i);
                lemma_entity_index_bounded(e[i]);
            }
        });
    }

    /// An index has an entry exactly when it is coverable and its slot is
    /// occupied.
    pub proof fn lemma_contains_is_slot(self, k: u32)
        ensures
            self@.contains_key(k) == (k <= INDEX_MASK && self.slot(k) != NPOS),
    {
    }

    /// The owning entities in dense order.
    pub fn entities(&self) -> (r: &Vec<Entity>)
        ensures
            r@ == self.spec_entities(),
    {
        &self.dense_entities
    }

    /// The entity owning dense position `index`.
    pub fn entity_at(&self, index: u32) -> (r: Entity)
        requires
            self.wf(),
            (index as int) < self.spec_entities().len(),
        ensures
            r == self.spec_entities()[index as int],
    {
        self.dense_entities[index as usize]
    }

    /// The sparse pages, exposed read-only.
    pub fn get_sparse(&self) -> (r: &Vec<Vec<u32>>)
        ensures
            r@.len() == self.spec_pages().len(),
            forall|p: int| 0 <= p < r@.len() ==> (#[trigger] r@[p])@ == self.spec_pages()[p],
    {
        proof {
            assert forall|p: int|
                0 <= p < self.sparse@.len() implies (#[trigger] self.sparse@[p])@
                == self.spec_pages()[p] by {
                assert(self.spec_pages()[p] == self.sparse@[p]@);
            }
        }
        &self.sparse
    }

    /// Pre-grows the dense storage for `amount` entries and the sparse
    /// pages to cover `amount` slot indices. Purely an optimization: the
    /// contents do not change.
    pub fn reserve(&mut self, amount: usize)
        requires
            old(self).wf(),
            amount <= usize::MAX - (SPARSE_SET_SIZE - 1),
        ensures
            final(self).wf(),
            final(self)@ == old(self)@,
            final(self).spec_entities() == old(self).spec_entities(),
            final(self).spec_dense() == old(self).spec_dense(),
            final(self).spec_pages().len() == if old(self).spec_pages().len() >= spec_page_goal(
                amount,
            ) {
                old(self).spec_pages().len() as int
            } else {
                spec_page_goal(amount)
            },
    {
        let mut target: usize = (amount + (SPARSE_SET_SIZE - 1)) / SPARSE_SET_SIZE;
        if target > SPARSE_PAGE_LIMIT {
            target = SPARSE_PAGE_LIMIT;
        }
        self.grow_pages(target);
        let ghost mg = *self;
        self.dense.reserve(amount);
        self.dense_entities.reserve(amount);
        proof {
            self.lemma_wf_from_same_views(mg);
        }
    }

    /// Empties the set: the dense storage is cleared and every slot of
    /// every existing page is reset to absent; the pages themselves stay.
    pub fn clear(&mut self)
        requires
            old(self).wf(),
        ensures
            final(self).wf(),
            final(self)@ == Map::<u32, T>::empty(),
            final(self).spec_entities() == Seq::<Entity>::empty(),
            final(self).spec_dense().len() == 0,
            final(self).spec_pages().len() == old(self).spec_pages().len(),
    {
        self.dense.clear();
        self.dense_entities.clear();
        let ghost m0 = *old(self);
        let n: usize = self.sparse.len();
        let mut p: usize = 0;
        while p < n
            invariant
                p <= n,
                n == self.spec_pages().len(),
                n == m0.spec_pages().len(),
                n <= SPARSE_PAGE_LIMIT,
                self.spec_dense().len() == 0,
                self.spec_entities().len() == 0,
                forall|p2: int|
                    0 <= p2 < n ==> (#[trigger] self.spec_pages()[p2]).len() == SPARSE_SET_SIZE,
                forall|x: u32| x as int / (SPARSE_SET_SIZE as int) < p ==> self.slot(x) == NPOS,
            decreases n - p,
        {
            let mut o: usize = 0;
            while o < SPARSE_SET_SIZE
                invariant
                    p < n,
                    o <= SPARSE_SET_SIZE,
                    n == self.spec_pages().len(),
                    n <= SPARSE_PAGE_LIMIT,
                    self.spec_dense().len() == 0,
                    self.spec_entities().len() == 0,
                    forall|p2: int|
                        0 <= p2 < n ==> (#[trigger] self.spec_pages()[p2]).len()
                            == SPARSE_SET_SIZE,
                    forall|x: u32| x as int / (SPARSE_SET_SIZE as int) < p ==> self.slot(x) == NPOS,
                    forall|x: u32|
                        x as int / (SPARSE_SET_SIZE as int) == p && x as int % (
                        SPARSE_SET_SIZE as int) < o ==> self.slot(x) == NPOS,
                decreases SPARSE_SET_SIZE - o,
            {
                let idx32: u32 = (p * SPARSE_SET_SIZE + o) as u32;
                proof {
                    lemma_chunk_recompose(p as int, o as int, SPARSE_SET_SIZE as int);
                }
                let ghost mp = *self;
                self.slot_write(idx32, NPOS);
                proof {
                    assert forall|x: u32|
                        x as int / (SPARSE_SET_SIZE as int) == p && x as int % (
                    SPARSE_SET_SIZE as int) < o + 1 implies self.slot(x) == NPOS by {
                        if x != idx32 {
                            assert(self.slot(x) == mp.slot(x));
                        }
                    }
                    assert forall|x: u32|
                        x as int / (SPARSE_SET_SIZE as int) < p implies self.slot(x) == NPOS by {
                        if x != idx32 {
                            assert(self.slot(x) == mp.slot(x));
                        } else {
                            assert(x as int / (SPARSE_SET_SIZE as int) == p);
                        }
                    }
                }
                o = o + 1;
            }
            proof {
                assert forall|x: u32|
                    x as int / (SPARSE_SET_SIZE as int) < p + 1 implies self.slot(x) == NPOS by {
                    lemma_split_index(x as int, SPARSE_SET_SIZE as int);
                }
            }
            p = p + 1;
        }
        proof {
            assert forall|x: u32| self.slot(x) == NPOS by {
                lemma_split_index(x as int, SPARSE_SET_SIZE as int);
            }
            assert(self.wf());
            assert(self@ =~= Map::<u32, T>::empty());
            assert(self.spec_entities() =~= Seq::<Entity>::empty());
        }
    }
}

} // verus!
