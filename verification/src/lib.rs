//! An in-memory entity-component store.
//!
//! Lightweight generational handles ([`types::Entity`]) identify records;
//! plain data values ("components") are attached to them through densely
//! packed sparse sets and retrieved either directly or in bulk through
//! bitset-based signature queries.
//!
//! The pieces, from leaf to root:
//! - [`bitset::Bitset`]: a fixed-length bit vector used for signatures;
//! - [`entity_allocator::EntityAllocator`]: a pool of recyclable slot indices;
//! - [`entity_manager::EntityManager`]: generational entity handles built on
//!   the allocator, with stale-handle detection;
//! - [`sparse_set::SparseSet`]: a paged sparse set mapping entity indices to
//!   values with dense, gap-free storage;
//! - [`component_manager::ComponentManager`]: one sparse set per registered
//!   component kind;
//! - [`signature_index::SignatureIndex`]: per-entity bitsets recording which
//!   component kinds an entity holds, and the subset matching behind queries;
//! - [`registry::Registry`]: the facade that composes all of the above.
//!
//! A component kind is identified by a small integer handed out by
//! [`registry::Registry::register`], stable for the registry's lifetime;
//! the values of every kind share the registry's type parameter (an
//! application picks a single value type, often an enum over its
//! component data). This keeps every lookup a checked, plain-value
//! operation instead of a downcast behind a type-erasing box.

pub mod arith;
pub mod bitset;
pub mod component;
pub mod component_manager;
pub mod entity_allocator;
pub mod entity_manager;
pub mod registry;
pub mod registry_error;
pub mod signature_index;
pub mod sparse_set;
pub mod types;
