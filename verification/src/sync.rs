//! `Arc` based implementation of `FingerTree`
use crate::reference::ArcRefs;
use vstd::prelude::*;

verus! {

/// FingerTree based on `Arc` references
///
/// This implementation is `Send` and `Sync` if the values and their measure
/// are.
pub type FingerTree<V> = crate::FingerTree<ArcRefs, V>;

} // verus!
