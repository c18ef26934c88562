//! Marking types as storable components.

use vstd::prelude::*;

verus! {

/// Marks a plain data type as eligible to be stored as a component.
///
/// The store itself only needs a stable identity per component *kind*,
/// which it hands out as a small integer on registration; this trait is
/// the declaration side of that contract, implemented by hand for each
/// value type an application wants to store.
pub trait Component {

}

impl Component for u32 {

}

impl Component for u64 {

}

impl Component for i32 {

}

impl Component for i64 {

}

} // verus!
