//! Finger trees: a persistent sequence with access to both ends in amortized
//! constant time, and concatenation and splitting in logarithmic time.
//!
//! Every value of a tree has a measure in a monoid, and every part of the
//! tree caches the measure of the values below it. [`FingerTree::split`]
//! cuts a tree where a predicate on the accumulated measure turns true;
//! with the right measure this serves as a sequence with random access, a
//! priority queue, a search tree and more.
//!
//! A tree is never changed: an operation returns a new tree that shares
//! with the old one what it did not have to rebuild. What is shared is held
//! by reference-counted pointers, `Rc` or `Arc` as the first type parameter
//! of the tree says.
use vstd::prelude::*;
use vstd::std_specs::cmp::PartialEqSpec;

pub mod digit;
pub mod iter;
pub mod measure;
pub mod monoid;
pub mod node;
pub mod rc;
pub mod reference;
pub mod sync;
pub mod tree;

pub use measure::Measured;
pub use monoid::Monoid;
pub use node::NodeInner;
pub use reference::{ArcRefs, RcRefs, Ref, Refs};
pub use tree::TreeInner;

use digit::cloned_seq;
use iter::Iter;
use measure::{
    answers, ends_at, found_at, functional, lemma_ends_found, lemma_size_measure, measure_of, total,
    Size,
};
use monoid::Sum;
use node::{all_wf, flatten, Node};
use tree::{build, Tree};

verus! {

/// FingerTree implementation
///
/// FingerTree is parametrized by two type parameters
///   - `R` - the family of references used in the implementation:
///     [`RcRefs`], based on `Rc`, or [`ArcRefs`], based on `Arc`.
///   - `V` - value type which must be measurable and cheaply clonable.
pub struct FingerTree<R: Refs<V>, V: Measured> {
    pub(crate) rec: Tree<R::Node, R::Tree>,
}

impl<R: Refs<V>, V: Measured> Clone for FingerTree<R, V> {
    fn clone(&self) -> (r: Self)
        ensures
            r == *self,
    {
        proof {
            use_type_invariant(self);
        }
        FingerTree { rec: self.rec.clone() }
    }
}

/// What [`FingerTree::split`] returns for the values `whole` and the
/// predicate `pred`: the parts `left` and `right` make up `whole`, in this
/// order. Where `right` is not empty, `pred` holds of the measure of `whole`,
/// and the first value of `right` is a place at which `pred` turns true
/// along a scan of `whole`. Where `right` is empty, `pred` does not hold of
/// the measure of `whole`, or there are no values at all.
pub open spec fn split_of<V: Measured, F: Fn(&V::Measure) -> bool>(
    pred: F,
    whole: Seq<V>,
    left: Seq<V>,
    right: Seq<V>,
) -> bool {
    &&& left + right == whole
    &&& right.len() > 0 ==> {
        &&& answers(pred, measure_of(whole), true)
        &&& found_at(pred, V::Measure::spec_unit(), whole, left.len() as int)
    }
    &&& right.len() == 0 ==> whole.len() == 0 || answers(pred, measure_of(whole), false)
}

/// `pred` is monotonic along a scan of `s`: once it holds of the measure of
/// a prefix of `s`, it holds of the measure of every longer prefix.
pub open spec fn monotonic<V: Measured, F: Fn(&V::Measure) -> bool>(pred: F, s: Seq<V>) -> bool {
    forall|i: int, j: int|
        0 <= i <= j <= s.len() && answers(pred, #[trigger] measure_of(s.take(i)), true)
            ==> !answers(pred, #[trigger] measure_of(s.take(j)), false)
}

/// A monotonic predicate splits a sequence in one way only: what
/// [`FingerTree::split`] returns for it does not depend on the shape of the
/// tree.
pub proof fn lemma_split_unique<V: Measured, F: Fn(&V::Measure) -> bool>(
    pred: F,
    whole: Seq<V>,
    left1: Seq<V>,
    right1: Seq<V>,
    left2: Seq<V>,
    right2: Seq<V>,
)
    requires
        monotonic(pred, whole),
        split_of(pred, whole, left1, right1),
        split_of(pred, whole, left2, right2),
    ensures
        left1 == left2,
        right1 == right2,
{
    let n = whole.len() as int;
    let i1 = left1.len() as int;
    let i2 = left2.len() as int;
    assert(whole.take(n) =~= whole);
    if right1.len() > 0 && (right2.len() == 0 || i1 < i2) {
        assert(answers(pred, measure_of(whole.take(i1 + 1)), true));
        assert(!answers(pred, measure_of(whole.take(i2)), false));
    }
    if right2.len() > 0 && (right1.len() == 0 || i2 < i1) {
        assert(answers(pred, measure_of(whole.take(i2 + 1)), true));
        assert(!answers(pred, measure_of(whole.take(i1)), false));
    }
    assert(i1 == i2);
    assert(left1 =~= whole.take(i1));
    assert(left2 =~= whole.take(i1));
    assert(right1 =~= whole.skip(i1));
    assert(right2 =~= whole.skip(i1));
}

/// Splitting by size and joining again: where the values count one each and
/// `pred` asks whether the count has passed `k`, which is at most the length
/// of `whole`, the left part of a split holds the first `k` values and the
/// right part holds the others, so that the two parts, concatenated, are
/// `whole` again.
pub proof fn lemma_split_by_size<T: Clone, F: Fn(&Sum<usize>) -> bool>(
    pred: F,
    whole: Seq<Size<T>>,
    left: Seq<Size<T>>,
    right: Seq<Size<T>>,
    k: usize,
)
    requires
        whole.len() <= usize::MAX,
        k <= whole.len(),
        forall|m: Sum<usize>, b: bool| #[trigger] pred.ensures((&m,), b) ==> b == (m.0 > k),
        split_of(pred, whole, left, right),
    ensures
        left == whole.take(k as int),
        right == whole.skip(k as int),
        measure_of(left) == Sum(k),
        measure_of(right) == Sum((whole.len() - k) as usize),
        left + right == whole,
{
    let n = whole.len() as int;
    let i = left.len() as int;
    assert(left =~= whole.take(i));
    assert(right =~= whole.skip(i));
    lemma_size_measure(whole);
    lemma_size_measure(left);
    lemma_size_measure(right);
    if right.len() > 0 {
        lemma_size_measure(whole.take(i + 1));
        assert(answers(pred, measure_of(whole.take(i + 1)), true));
        if i > 0 {
            assert(answers(pred, measure_of(whole.take(i)), false));
        }
    } else if n > 0 {
        assert(answers(pred, measure_of(whole), false));
    }
    assert(i == k);
}

impl<R: Refs<V>, V: Measured> FingerTree<R, V> {
    /// The values of the tree, from left to right.
    pub closed spec fn view(&self) -> Seq<V> {
        self.rec.elems(0)
    }

    /// Every tree is well-formed: every node and every level caches the
    /// measure of the values below it, and the nodes of the `n`-th level
    /// below the top have depth `n`.
    #[verifier::type_invariant]
    spec fn wf(self) -> bool {
        self.rec.wf(0)
    }

    /// The top level of the tree, which is well-formed and holds the values
    /// of the tree in leaves.
    pub fn tree(&self) -> (r: &Tree<R::Node, R::Tree>)
        ensures
            r.wf(0),
            r.elems(0) == self@,
    {
        proof {
            use_type_invariant(self);
        }
        &self.rec
    }

    /// Constructs a new, empty `FingerTree`
    ///
    /// Complexity: `O(1)`
    pub fn new() -> (r: Self)
        ensures
            r@ == Seq::<V>::empty(),
    {
        FingerTree { rec: Tree::Empty }
    }

    /// Returns `true` if finger tree is empty
    ///
    /// Complexity: `O(1)`
    pub fn is_empty(&self) -> (r: bool)
        ensures
            r == (self@.len() == 0),
    {
        proof {
            use_type_invariant(self);
            self.rec.lemma_empty(0);
        }
        match self.rec {
            Tree::Empty => true,
            _ => false,
        }
    }

    /// Creates new tree with value prepended to the left side of the tree
    ///
    /// Amortized complexity: `O(1)`
    pub fn push_left(&self, value: V) -> (r: Self)
        ensures
            r@ == seq![value] + self@,
    {
        proof {
            use_type_invariant(self);
        }
        FingerTree { rec: self.rec.push_left(Node::leaf(value), Ghost(0)) }
    }

    /// Creates new tree with value appended to the right side of the tree
    ///
    /// Amortized complexity: `O(1)`
    pub fn push_right(&self, value: V) -> (r: Self)
        ensures
            r@ == self@ + seq![value],
    {
        proof {
            use_type_invariant(self);
        }
        FingerTree { rec: self.rec.push_right(Node::leaf(value), Ghost(0)) }
    }

    /// Destructures tree into a tuple with first element of it containing
    /// a clone of the first value from the left side of the tree, and second
    /// element containing the tree with the rest of the values
    ///
    /// Amortized complexity: `O(1)`
    pub fn view_left(&self) -> (r: Option<(V, Self)>)
        ensures
            r is None <==> self@.len() == 0,
            r matches Some((value, rest)) ==> {
                &&& cloned(self@[0], value)
                &&& rest@ == self@.skip(1)
            },
    {
        proof {
            use_type_invariant(self);
            self.rec.lemma_empty(0);
        }
        match self.rec.view_left(Ghost(0)) {
            None => None,
            Some((head, tail)) => match head.inner.get() {
                NodeInner::Leaf(value) => {
                    proof {
                        assert(self@.skip(1) =~= tail.elems(0));
                    }
                    Some((value.clone(), FingerTree { rec: tail }))
                },
                _ => unreached(),
            },
        }
    }

    /// Destructures tree into a tuple with first element of it containing
    /// a clone of the first value from the right side of the tree, and
    /// second element containing the tree with the rest of the values
    ///
    /// Amortized complexity: `O(1)`
    pub fn view_right(&self) -> (r: Option<(V, Self)>)
        ensures
            r is None <==> self@.len() == 0,
            r matches Some((value, rest)) ==> {
                &&& cloned(self@.last(), value)
                &&& rest@ == self@.drop_last()
            },
    {
        proof {
            use_type_invariant(self);
            self.rec.lemma_empty(0);
        }
        match self.rec.view_right(Ghost(0)) {
            None => None,
            Some((head, tail)) => match head.inner.get() {
                NodeInner::Leaf(value) => {
                    proof {
                        assert(self@.drop_last() =~= tail.elems(0));
                    }
                    Some((value.clone(), FingerTree { rec: tail }))
                },
                _ => unreached(),
            },
        }
    }

    /// Destructures tree into two trees, using provided predicate.
    ///
    /// Predicate must be a monotonic function accepting accumulated measure
    /// of values and changing its value from `false` to `true`. This
    /// function behaves as if we would iterate all values from left to
    /// right, accumulating the measure of all iterated values and calling the
    /// predicate on this accumulated value; once it flips from `false` to
    /// `true` we stop and form two trees: from the values iterated before
    /// the flip, and from the one at the flip with the rest of the values.
    ///
    /// Complexity: `O(ln(N))`
    pub fn split<F>(&self, pred: F) -> (r: (FingerTree<R, V>, FingerTree<R, V>)) where
        F: Fn(&V::Measure) -> bool,

        requires
            total(pred),
            functional(pred),
        ensures
            split_of(pred, self@, r.0@, r.1@),
    {
        proof {
            use_type_invariant(self);
        }
        if self.is_empty() {
            assert(Seq::<V>::empty() + Seq::<V>::empty() =~= self@);
            (Self::new(), Self::new())
        } else if pred(&self.measure()) {
            proof {
                self.rec.lemma_empty(0);
            }
            let (l, x, r) = self.rec.split(V::Measure::unit(), &pred, Ghost(0));
            let right = r.push_left(x, Ghost(0));
            proof {
                let i = l.elems(0).len() as int;
                assert(x.elems(0).len() == 1);
                assert(l.elems(0) + (x.elems(0) + r.elems(0)) =~= self@);
                assert(self@.take(i) =~= l.elems(0));
                assert(self@.take(i + 1) =~= l.elems(0) + x.elems(0));
            }
            (FingerTree { rec: l }, FingerTree { rec: right })
        } else {
            assert(self@ + Seq::<V>::empty() =~= self@);
            (self.clone(), Self::new())
        }
    }

    /// The left part of [`split`](Self::split).
    ///
    /// Complexity: `O(ln(N))`
    pub fn split_left<F>(&self, pred: F) -> (r: FingerTree<R, V>) where
        F: Fn(&V::Measure) -> bool,

        requires
            total(pred),
            functional(pred),
        ensures
            split_of(pred, self@, r@, self@.skip(r@.len() as int)),
    {
        proof {
            use_type_invariant(self);
        }
        if self.is_empty() {
            assert(Seq::<V>::empty() + self@.skip(0) =~= self@);
            Self::new()
        } else if pred(&self.measure()) {
            proof {
                self.rec.lemma_empty(0);
            }
            let (l, x) = self.rec.split_left(V::Measure::unit(), &pred, Ghost(0));
            proof {
                let i = l.elems(0).len() as int;
                let lx = l.elems(0) + x.elems(0);
                assert(x.elems(0).len() == 1);
                assert(self@.take(i + 1) =~= lx);
                assert(self@.take(i) =~= l.elems(0)) by {
                    assert forall|j: int| 0 <= j < i implies self@[j] == l.elems(0)[j] by {
                        assert(lx[j] == l.elems(0)[j]);
                    }
                }
                assert(l.elems(0) + self@.skip(i) =~= self@);
            }
            FingerTree { rec: l }
        } else {
            assert(self@ + self@.skip(self@.len() as int) =~= self@);
            self.clone()
        }
    }

    /// The right part of [`split`](Self::split).
    ///
    /// Complexity: `O(ln(N))`
    pub fn split_right<F>(&self, pred: F) -> (r: FingerTree<R, V>) where
        F: Fn(&V::Measure) -> bool,

        requires
            total(pred),
            functional(pred),
        ensures
            split_of(pred, self@, self@.take(self@.len() - r@.len()), r@),
    {
        proof {
            use_type_invariant(self);
        }
        if self.is_empty() {
            assert(self@.take(0) + Seq::<V>::empty() =~= self@);
            Self::new()
        } else if pred(&self.measure()) {
            proof {
                self.rec.lemma_empty(0);
            }
            let (_, x, r) = self.rec.split_right(V::Measure::unit(), &pred, Ghost(0));
            let right = r.push_left(x, Ghost(0));
            proof {
                let i = self@.len() - right.elems(0).len();
                let before = self@.take(i);
                assert(x.elems(0).len() == 1);
                assert(before + right.elems(0) =~= self@);
                assert(self@.take(i + 1) =~= before + x.elems(0));
            }
            FingerTree { rec: right }
        } else {
            assert(self@.take(self@.len() as int) + Seq::<V>::empty() =~= self@);
            Self::new()
        }
    }

    /// Finds the value at which the predicate flips from `false` to `true`
    /// along the accumulated measure: where [`split`](Self::split) would
    /// cut, the first value of its right part.
    ///
    /// Complexity: `O(ln(N))`
    pub fn find<F>(&self, pred: F) -> (r: Option<&V>) where F: Fn(&V::Measure) -> bool
        requires
            total(pred),
            functional(pred),
        ensures
            match r {
                Some(value) => {
                    &&& answers(pred, measure_of(self@), true)
                    &&& exists|i: int|
                        found_at(pred, V::Measure::spec_unit(), self@, i) && *value == self@[i]
                },
                None => self@.len() == 0 || answers(pred, measure_of(self@), false),
            },
    {
        proof {
            use_type_invariant(self);
        }
        if self.is_empty() {
            None
        } else if pred(&self.measure()) {
            proof {
                self.rec.lemma_empty(0);
            }
            let found = self.rec.find(V::Measure::unit(), &pred, Ghost(0));
            proof {
                let unit = V::Measure::spec_unit();
                let i = choose|i: int| ends_at(pred, unit, self@, i) && *found == self@[i];
                lemma_ends_found(pred, unit, self@, i);
            }
            Some(found)
        } else {
            None
        }
    }

    /// Construct new finger tree which is concatenation of `self` and `other`
    ///
    /// Complexity: `O(ln(N))`
    pub fn concat(&self, other: &Self) -> (r: Self)
        ensures
            r@ == self@ + other@,
    {
        proof {
            use_type_invariant(self);
            use_type_invariant(other);
        }
        let mid: Vec<Node<R::Node>> = Vec::new();
        proof {
            assert(self@ + flatten(mid@, 0) + other@ =~= self@ + other@);
        }
        FingerTree { rec: Tree::concat(&self.rec, mid.as_slice(), &other.rec, Ghost(0)) }
    }

    /// Double ended iterator visiting all elements of the tree from left to
    /// right
    pub fn iter(&self) -> (r: Iter<R, V>)
        ensures
            r.wf(),
            r@ == self@,
    {
        proof {
            use_type_invariant(self);
        }
        Iter::new(self)
    }

    /// Clones of the values of the tree, from left to right.
    ///
    /// Complexity: `O(N)`
    pub fn to_vec(&self) -> (r: Vec<V>)
        ensures
            cloned_seq(self@, r@),
    {
        proof {
            use_type_invariant(self);
        }
        self.iter().to_vec()
    }

    /// The tree of the values of `values`, in their order, built by pushing
    /// one after the other to the right.
    ///
    /// Complexity: `O(N)`
    pub fn from_vec(values: Vec<V>) -> (r: Self)
        ensures
            r@ == values@,
    {
        let mut tree = Self::new();
        for value in it: values
            invariant
                tree@ == it.seq().take(it.index() as int),
                it.seq() == values@,
        {
            proof {
                let s = it.seq();
                let i = it.index() as int;
                assert(s.take(i) + seq![s[i]] =~= s.take(i + 1));
            }
            tree = tree.push_right(value);
        }
        assert(values@.take(values@.len() as int) =~= values@);
        tree
    }

    /// The tree of clones of the values of `values`, in their order, built
    /// at once, level by level.
    ///
    /// Complexity: `O(N)`
    pub fn from_slice(values: &[V]) -> (r: Self)
        ensures
            cloned_seq(values@, r@),
    {
        let mut nodes: Vec<Node<R::Node>> = Vec::new();
        let mut i: usize = 0;
        let ghost none = Seq::<Node<R::Node>>::empty();
        while i < values.len()
            invariant
                i <= values.len(),
                all_wf(nodes@, 0),
                cloned_seq(values@.take(i as int), flatten(nodes@, 0)),
            decreases values.len() - i,
        {
            let node = Node::leaf(values[i].clone());
            proof {
                let before = flatten(nodes@, 0);
                assert(nodes@.push(node).drop_last() =~= nodes@);
                assert(values@.take(i + 1) =~= values@.take(i as int).push(values@[i as int]));
                assert(flatten(nodes@.push(node), 0) =~= before.push(node.elems(0)[0]));
            }
            nodes.push(node);
            i += 1;
        }
        assert(values@.take(i as int) =~= values@);
        FingerTree { rec: build(nodes.as_slice(), Ghost(0)) }
    }

    /// References to the values of the tree, from left to right.
    ///
    /// Complexity: `O(N)`
    pub fn values(&self) -> (r: Vec<&V>)
        ensures
            r@.len() == self@.len(),
            forall|i: int| 0 <= i < self@.len() ==> *r@[i] == self@[i],
    {
        proof {
            use_type_invariant(self);
        }
        let mut out: Vec<&V> = Vec::new();
        self.rec.values(&mut out, Ghost(0));
        out
    }
}

impl<R: Refs<V>, V: Measured> Measured for FingerTree<R, V> {
    type Measure = V::Measure;

    /// The measure of a tree is the join of the measures of its values.
    open spec fn spec_measure(&self) -> V::Measure {
        measure_of(self@)
    }

    proof fn lemma_measure_clone(a: V::Measure, b: V::Measure) {
        V::lemma_measure_clone(a, b);
    }

    /// The measure of the tree, which its top level has cached.
    ///
    /// Complexity: `O(1)`
    fn measure(&self) -> (r: V::Measure) {
        proof {
            use_type_invariant(self);
            self.rec.lemma_measure(0);
        }
        self.rec.measure()
    }
}

impl<R: Refs<V>, V: Measured> Default for FingerTree<R, V> {
    fn default() -> (r: Self)
        ensures
            r@ == Seq::<V>::empty(),
    {
        FingerTree::new()
    }
}

/// Two sequences hold as many values, and each value of the first is equal,
/// as `==` of the values has it, to the value at its place in the second.
pub open spec fn eq_values<V: PartialEq>(a: Seq<V>, b: Seq<V>) -> bool {
    &&& a.len() == b.len()
    &&& forall|i: int| 0 <= i < a.len() ==> (#[trigger] a[i]).eq_spec(&b[i])
}

impl<R: Refs<V>, V: Measured + PartialEq> PartialEq for FingerTree<R, V> {
    fn eq(&self, other: &Self) -> (r: bool) {
        let a = self.values();
        let b = other.values();
        if a.len() != b.len() {
            return false;
        }
        let mut i: usize = 0;
        while i < a.len()
            invariant
                i <= a.len(),
                a@.len() == b@.len(),
                a@.len() == self@.len(),
                b@.len() == other@.len(),
                forall|k: int| 0 <= k < self@.len() ==> *a@[k] == self@[k],
                forall|k: int| 0 <= k < other@.len() ==> *b@[k] == other@[k],
                V::obeys_eq_spec() ==> forall|k: int|
                    0 <= k < i ==> (#[trigger] self@[k]).eq_spec(&other@[k]),
            decreases a.len() - i,
        {
            if !a[i].eq(b[i]) {
                return false;
            }
            i += 1;
        }
        true
    }
}

impl<R: Refs<V>, V: Measured + PartialEq> vstd::std_specs::cmp::PartialEqSpecImpl for FingerTree<R, V> {
    open spec fn obeys_eq_spec() -> bool {
        V::obeys_eq_spec()
    }

    open spec fn eq_spec(&self, other: &Self) -> bool {
        eq_values(self@, other@)
    }
}

impl<R: Refs<V>, V: Measured + Eq> Eq for FingerTree<R, V> {

}

} // verus!
