//! Entity handles and the constants of their bit layout.
//!
//! A handle packs a slot index (low [`INDEX_BITS`] bits) and a version
//! (high [`VERSION_BITS`] bits) into one `u32`. Two handles name the same
//! logical entity exactly when both fields are equal; a handle whose version
//! no longer matches the slot's stored version is dead.

use vstd::prelude::*;

verus! {

/// An entity handle: slot index and version packed into one word.
pub type Entity = u32;

/// Number of low bits of a handle that hold the slot index.
pub const INDEX_BITS: u32 = 20;
/// Number of high bits of a handle that hold the version.
pub const VERSION_BITS: u32 = 12;
/// Mask selecting the index field of a handle.
pub const INDEX_MASK: u32 = 0xF_FFFF;
/// Mask selecting the version field of a handle.
pub const VERSION_MASK: u32 = 0xFFF0_0000;
/// Largest version a handle can carry.
pub const MAX_VERSION: u32 = 0xFFF;
/// Sentinel stored in a sparse page to mark an absent entry.
pub const NPOS: u32 = 0xFFFF_FFFF;
/// Number of sparse-set slots covered by one page.
pub const SPARSE_SET_SIZE: usize = 2048;
/// Number of pages that cover every representable slot index.
pub const SPARSE_PAGE_LIMIT: usize = 512;

/// The slot index carried by a handle.
pub open spec fn spec_entity_index(e: Entity) -> u32 {
    e & INDEX_MASK
}

/// The version carried by a handle.
pub open spec fn spec_entity_version(e: Entity) -> u32 {
    (e & VERSION_MASK) >> INDEX_BITS
}

/// The index field of every handle fits below `INDEX_MASK`.
pub proof fn lemma_entity_index_bounded(e: Entity)
    ensures
        spec_entity_index(e) <= INDEX_MASK,
        spec_entity_version(e) <= MAX_VERSION,
{
    assert(e & INDEX_MASK <= INDEX_MASK) by (bit_vector);
    assert((e & VERSION_MASK) >> 20u32 <= 0xFFFu32) by (bit_vector);
}

/// Packing an in-range index and version is inverted exactly by the two
/// field accessors.
pub proof fn lemma_entity_round_trip(index: u32, version: u32)
    requires
        index <= INDEX_MASK,
        version <= MAX_VERSION,
    ensures
        spec_entity_index((version << INDEX_BITS) | (index & INDEX_MASK)) == index,
        spec_entity_version((version << INDEX_BITS) | (index & INDEX_MASK)) == version,
{
    assert(index <= 0xF_FFFFu32 ==> ((version << 20u32) | (index & 0xF_FFFFu32)) & 0xF_FFFFu32
        == index) by (bit_vector);
    assert(version <= 0xFFFu32 ==> (((version << 20u32) | (index & 0xF_FFFFu32)) & 0xFFF0_0000u32)
        >> 20u32 == version) by (bit_vector);
}

/// Builds a handle out of a slot index and a version.
pub fn build_entity_index(index: u32, version: u32) -> (e: Entity)
    requires
        index <= INDEX_MASK,
        version <= MAX_VERSION,
    ensures
        spec_entity_index(e) == index,
        spec_entity_version(e) == version,
{
    proof {
        lemma_entity_round_trip(index, version);
        assert(version <= 0xFFFu32 ==> version << 20u32 <= 0xFFF0_0000u32) by (bit_vector);
    }
    (version << INDEX_BITS) | (index & INDEX_MASK)
}

/// Extracts the slot index of a handle.
#[verifier::when_used_as_spec(spec_entity_index)]
pub fn get_entity_index(e: Entity) -> (i: u32)
    ensures
        i == spec_entity_index(e),
        i <= INDEX_MASK,
{
    proof {
        lemma_entity_index_bounded(e);
    }
    e & INDEX_MASK
}

/// Extracts the version of a handle.
#[verifier::when_used_as_spec(spec_entity_version)]
pub fn get_entity_version(e: Entity) -> (v: u32)
    ensures
        v == spec_entity_version(e),
        v <= MAX_VERSION,
{
    proof {
        lemma_entity_index_bounded(e);
    }
    (e & VERSION_MASK) >> INDEX_BITS
}

/// Handles with the same index and version are the same bit pattern, so a
/// handle determines its fields and the fields determine the handle.
pub proof fn lemma_entity_fields_determine_handle(a: Entity, b: Entity)
    requires
        spec_entity_index(a) == spec_entity_index(b),
        spec_entity_version(a) == spec_entity_version(b),
    ensures
        a == b,
{
    assert((a & 0xF_FFFFu32) == (b & 0xF_FFFFu32) && ((a & 0xFFF0_0000u32) >> 20u32) == ((b
        & 0xFFF0_0000u32) >> 20u32) ==> a == b) by (bit_vector);
}

} // verus!
