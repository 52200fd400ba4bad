//! `Rc` based implementation of `FingerTree`
use crate::reference::RcRefs;
use vstd::prelude::*;

verus! {

/// FingerTree based on `Rc` references
pub type FingerTree<V> = crate::FingerTree<RcRefs, V>;

} // verus!
