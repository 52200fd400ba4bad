//! Shared references to the nodes and the levels of a tree, and the two
//! families of them that the crate provides: one on `Rc`, one on `Arc`.
use crate::measure::Measured;
use crate::node::NodeInner;
use crate::tree::TreeInner;
use std::rc::Rc;
use std::sync::Arc;
use vstd::prelude::*;

verus! {

/// Interface that all reference types should implement: a handle to a
/// value that is shared, never changed, and cheap to hand out again.
pub trait Ref: Sized {
    /// The type of the value referred to.
    type Target;

    /// The value referred to.
    spec fn target(&self) -> Self::Target;

    /// Construct reference from target type
    fn new(value: Self::Target) -> (r: Self)
        ensures
            r.target() == value,
    ;

    /// Borrows the value referred to.
    fn get(&self) -> (r: &Self::Target)
        ensures
            *r == self.target(),
    ;

    /// Another reference to the same value.
    fn share(&self) -> (r: Self)
        ensures
            r == *self,
    ;
}

/// Interface which defines all reference types needed by finger tree
/// implementation.
///
/// By implementing this interface for your reference types you can use
/// finger tree with them.
pub trait Refs<V: Measured>: Sized {
    /// Reference on a `Node`
    type Node: Ref<Target = NodeInner<Self::Node, V>>;

    /// Reference on a `Tree`
    type Tree: Ref<Target = TreeInner<Self::Node, Self::Tree, V>>;
}

/// `Rc::clone`: the result is another pointer to the allocation of `r`, so it
/// points to the same value.
#[verifier::external_body]
fn rc_share<T>(r: &Rc<T>) -> (c: Rc<T>)
    ensures
        c == *r,
{
    r.clone()
}

/// `Arc::clone`: the result is another pointer to the allocation of `r`, so
/// it points to the same value.
#[verifier::external_body]
fn arc_share<T>(r: &Arc<T>) -> (c: Arc<T>)
    ensures
        c == *r,
{
    r.clone()
}

/// `Rc` reference on a node.
///
/// The `Option` is there to give the recursive type a value that holds no
/// node; no `RcNode` is ever `None`.
pub struct RcNode<V: Measured>(Option<Rc<NodeInner<RcNode<V>, V>>>);

/// `Rc` reference on a level of a tree; never `None`, as for [`RcNode`].
pub struct RcTree<V: Measured>(Option<Rc<TreeInner<RcNode<V>, RcTree<V>, V>>>);

/// `Arc` reference on a node; never `None`, as for [`RcNode`].
pub struct ArcNode<V: Measured>(Option<Arc<NodeInner<ArcNode<V>, V>>>);

/// `Arc` reference on a level of a tree; never `None`, as for [`RcNode`].
pub struct ArcTree<V: Measured>(Option<Arc<TreeInner<ArcNode<V>, ArcTree<V>, V>>>);

impl<V: Measured> RcNode<V> {
    #[verifier::type_invariant]
    spec fn holds_value(self) -> bool {
        self.0.is_some()
    }
}

impl<V: Measured> RcTree<V> {
    #[verifier::type_invariant]
    spec fn holds_value(self) -> bool {
        self.0.is_some()
    }
}

impl<V: Measured> ArcNode<V> {
    #[verifier::type_invariant]
    spec fn holds_value(self) -> bool {
        self.0.is_some()
    }
}

impl<V: Measured> ArcTree<V> {
    #[verifier::type_invariant]
    spec fn holds_value(self) -> bool {
        self.0.is_some()
    }
}

impl<V: Measured> Ref for RcNode<V> {
    type Target = NodeInner<RcNode<V>, V>;

    closed spec fn target(&self) -> Self::Target {
        *self.0.unwrap()
    }

    fn new(value: Self::Target) -> (r: Self) {
        RcNode(Some(Rc::new(value)))
    }

    fn get(&self) -> (r: &Self::Target) {
        proof {
            use_type_invariant(self);
        }
        match &self.0 {
            Some(shared) => &**shared,
            None => unreached(),
        }
    }

    fn share(&self) -> (r: Self) {
        proof {
            use_type_invariant(self);
        }
        match &self.0 {
            Some(shared) => RcNode(Some(rc_share(shared))),
            None => unreached(),
        }
    }
}

impl<V: Measured> Ref for RcTree<V> {
    type Target = TreeInner<RcNode<V>, RcTree<V>, V>;

    closed spec fn target(&self) -> Self::Target {
        *self.0.unwrap()
    }

    fn new(value: Self::Target) -> (r: Self) {
        RcTree(Some(Rc::new(value)))
    }

    fn get(&self) -> (r: &Self::Target) {
        proof {
            use_type_invariant(self);
        }
        match &self.0 {
            Some(shared) => &**shared,
            None => unreached(),
        }
    }

    fn share(&self) -> (r: Self) {
        proof {
            use_type_invariant(self);
        }
        match &self.0 {
            Some(shared) => RcTree(Some(rc_share(shared))),
            None => unreached(),
        }
    }
}

impl<V: Measured> Ref for ArcNode<V> {
    type Target = NodeInner<ArcNode<V>, V>;

    closed spec fn target(&self) -> Self::Target {
        *self.0.unwrap()
    }

    fn new(value: Self::Target) -> (r: Self) {
        ArcNode(Some(Arc::new(value)))
    }

    fn get(&self) -> (r: &Self::Target) {
        proof {
            use_type_invariant(self);
        }
        match &self.0 {
            Some(shared) => &**shared,
            None => unreached(),
        }
    }

    fn share(&self) -> (r: Self) {
        proof {
            use_type_invariant(self);
        }
        match &self.0 {
            Some(shared) => ArcNode(Some(arc_share(shared))),
            None => unreached(),
        }
    }
}

impl<V: Measured> Ref for ArcTree<V> {
    type Target = TreeInner<ArcNode<V>, ArcTree<V>, V>;

    closed spec fn target(&self) -> Self::Target {
        *self.0.unwrap()
    }

    fn new(value: Self::Target) -> (r: Self) {
        ArcTree(Some(Arc::new(value)))
    }

    fn get(&self) -> (r: &Self::Target) {
        proof {
            use_type_invariant(self);
        }
        match &self.0 {
            Some(shared) => &**shared,
            None => unreached(),
        }
    }

    fn share(&self) -> (r: Self) {
        proof {
            use_type_invariant(self);
        }
        match &self.0 {
            Some(shared) => ArcTree(Some(arc_share(shared))),
            None => unreached(),
        }
    }
}

/// The family of references on `Rc`: for trees that stay in one thread.
pub struct RcRefs;

/// The family of references on `Arc`: for trees that are shared between
/// threads.
pub struct ArcRefs;

impl<V: Measured> Refs<V> for RcRefs {
    type Node = RcNode<V>;

    type Tree = RcTree<V>;
}

impl<V: Measured> Refs<V> for ArcRefs {
    type Node = ArcNode<V>;

    type Tree = ArcTree<V>;
}

} // verus!
