//! [`Digit`]: the one to four items at either end of a level of the tree.
use crate::measure::{answers, measure_of, measure_slice, scan, total, Measured};
use crate::monoid::Monoid;
use crate::node::{Node, NodeInner};
use crate::reference::Ref;
use vstd::prelude::*;
use vstd::slice::slice_subrange;

verus! {

/// One to four items, in order.
pub enum Digit<T> {
    One([T; 1]),
    Two([T; 2]),
    Three([T; 3]),
    Four([T; 4]),
}

/// `b` holds, item by item, clones of the items of `a`.
pub open spec fn cloned_seq<T: Clone>(a: Seq<T>, b: Seq<T>) -> bool {
    &&& a.len() == b.len()
    &&& forall|i: int| 0 <= i < a.len() ==> cloned(#[trigger] a[i], b[i])
}

impl<T> Digit<T> {
    /// The items of the digit, from left to right.
    pub open spec fn view(&self) -> Seq<T> {
        match self {
            Digit::One(a) => a@,
            Digit::Two(a) => a@,
            Digit::Three(a) => a@,
            Digit::Four(a) => a@,
        }
    }

    /// A digit holds at least one item and at most four.
    pub proof fn lemma_len(&self)
        ensures
            1 <= self@.len() <= 4,
    {
    }

    /// The items of the digit as a slice.
    pub fn as_slice(&self) -> (r: &[T])
        ensures
            r@ == self@,
            1 <= r@.len() <= 4,
    {
        match self {
            Digit::One(a) => a.as_slice(),
            Digit::Two(a) => a.as_slice(),
            Digit::Three(a) => a.as_slice(),
            Digit::Four(a) => a.as_slice(),
        }
    }
}

impl<T: Clone> Clone for Digit<T> {
    fn clone(&self) -> (r: Self)
        ensures
            cloned_seq(self@, r@),
    {
        match self {
            Digit::One(a) => Digit::One([a[0].clone()]),
            Digit::Two(a) => Digit::Two([a[0].clone(), a[1].clone()]),
            Digit::Three(a) => Digit::Three([a[0].clone(), a[1].clone(), a[2].clone()]),
            Digit::Four(a) => Digit::Four(
                [a[0].clone(), a[1].clone(), a[2].clone(), a[3].clone()],
            ),
        }
    }
}

impl<T: Clone> Digit<T> {
    /// A digit of clones of the items of a slice of one to four items.
    pub fn from_slice(slice: &[T]) -> (r: Self)
        requires
            1 <= slice@.len() <= 4,
        ensures
            cloned_seq(slice@, r@),
    {
        if slice.len() == 1 {
            Digit::One([slice[0].clone()])
        } else if slice.len() == 2 {
            Digit::Two([slice[0].clone(), slice[1].clone()])
        } else if slice.len() == 3 {
            Digit::Three([slice[0].clone(), slice[1].clone(), slice[2].clone()])
        } else {
            Digit::Four([slice[0].clone(), slice[1].clone(), slice[2].clone(), slice[3].clone()])
        }
    }

    /// A digit of clones of the items of this digit followed by clones of
    /// the items of `other`, which together are at most four.
    pub fn append(&self, other: &[T]) -> (r: Self)
        requires
            self@.len() + other@.len() <= 4,
        ensures
            cloned_seq(self@ + other@, r@),
    {
        let own = self.as_slice();
        let n = own.len();
        let m = other.len();
        if m == 0 {
            self.clone()
        } else if n == 1 && m == 1 {
            Digit::Two([own[0].clone(), other[0].clone()])
        } else if n == 1 && m == 2 {
            Digit::Three([own[0].clone(), other[0].clone(), other[1].clone()])
        } else if n == 2 && m == 1 {
            Digit::Three([own[0].clone(), own[1].clone(), other[0].clone()])
        } else if n == 1 {
            Digit::Four([own[0].clone(), other[0].clone(), other[1].clone(), other[2].clone()])
        } else if n == 2 {
            Digit::Four([own[0].clone(), own[1].clone(), other[0].clone(), other[1].clone()])
        } else {
            Digit::Four([own[0].clone(), own[1].clone(), own[2].clone(), other[0].clone()])
        }
    }
}

/// `i` is where a scan of `s` from `base`, from left to right, stops: at the
/// first item at which `pred` holds of the measure accumulated so far, that
/// item included; at the last item if there is none. A sequence of one item
/// is not scanned at all.
pub open spec fn stops_at<T: Measured, F: Fn(&T::Measure) -> bool>(
    pred: F,
    base: T::Measure,
    s: Seq<T>,
    i: int,
) -> bool {
    &&& 0 <= i < s.len()
    &&& s.len() > 1 ==> forall|j: int|
        0 <= j < i ==> answers(pred, #[trigger] scan(base, s.take(j + 1)), false)
    &&& s.len() > 1 ==> answers(pred, scan(base, s.take(i + 1)), true) || (i + 1 == s.len()
        && answers(pred, scan(base, s), false))
}

impl<T: Measured> Measured for Digit<T> {
    type Measure = T::Measure;

    /// The measure of a digit is the join of the measures of its items.
    open spec fn spec_measure(&self) -> T::Measure {
        measure_of(self@)
    }

    proof fn lemma_measure_clone(a: T::Measure, b: T::Measure) {
        T::lemma_measure_clone(a, b);
    }

    fn measure(&self) -> (r: T::Measure) {
        measure_slice(self.as_slice())
    }
}

impl<T: Measured> Digit<T> {
    /// Splits the digit where a scan from `base` stops: returns the
    /// items before that place, the item there, and the items after it.
    pub fn split<F>(&self, base: &T::Measure, pred: &F) -> (r: (&[T], &T, &[T])) where
        F: Fn(&T::Measure) -> bool,

        requires
            total(*pred),
        ensures
            stops_at(*pred, *base, self@, r.0@.len() as int),
            r.0@ == self@.take(r.0@.len() as int),
            *r.1 == self@[r.0@.len() as int],
            r.2@ == self@.skip(r.0@.len() + 1 as int),
    {
        let slice = self.as_slice();
        let n = slice.len();
        if n == 1 {
            (slice_subrange(slice, 0, 0), &slice[0], slice_subrange(slice, 1, 1))
        } else {
            let mut acc = base.clone();
            proof {
                T::lemma_measure_clone(*base, acc);
                assert(slice@.take(0) =~= Seq::<T>::empty());
            }
            let mut index: usize = 0;
            while index < n
                invariant
                    n == slice@.len(),
                    slice@ == self@,
                    1 < n <= 4,
                    index <= n,
                    total(*pred),
                    acc == scan(*base, slice@.take(index as int)),
                    forall|j: int|
                        0 <= j < index ==> answers(
                            *pred,
                            #[trigger] scan(*base, slice@.take(j + 1)),
                            false,
                        ),
                decreases n - index,
            {
                proof {
                    assert(slice@.take(index + 1).drop_last() =~= slice@.take(index as int));
                }
                acc = acc.join(&slice[index].measure());
                if pred(&acc) {
                    proof {
                        assert(slice@.subrange(0, index as int) =~= slice@.take(index as int));
                        assert(slice@.subrange(index + 1, n as int) =~= slice@.skip(index + 1));
                    }
                    return (
                        slice_subrange(slice, 0, index),
                        &slice[index],
                        slice_subrange(slice, index + 1, n),
                    );
                }
                index += 1;
            }
            assert(slice@.take(n as int) =~= slice@);
            (slice_subrange(slice, 0, n - 1), &slice[n - 1], slice_subrange(slice, n, n))
        }
    }

    /// Finds the item at which a scan from `base` stops: returns the
    /// measure accumulated before that item, and the item.
    pub fn find<F>(&self, base: T::Measure, pred: &F) -> (r: (T::Measure, &T)) where
        F: Fn(&T::Measure) -> bool,

        requires
            total(*pred),
        ensures
            exists|i: int|
                stops_at(*pred, base, self@, i) && r.0 == scan(base, self@.take(i)) && *r.1
                    == self@[i],
    {
        let slice = self.as_slice();
        let n = slice.len();
        assert(slice@.take(0) =~= Seq::<T>::empty());
        if n == 1 {
            assert(stops_at(*pred, base, self@, 0));
            (base, &slice[0])
        } else {
            let mut acc = base.clone();
            proof {
                T::lemma_measure_clone(base, acc);
            }
            let mut index: usize = 0;
            while index < n - 1
                invariant
                    n == slice@.len(),
                    slice@ == self@,
                    1 < n <= 4,
                    index <= n - 1,
                    total(*pred),
                    acc == scan(base, slice@.take(index as int)),
                    forall|j: int|
                        0 <= j < index ==> answers(
                            *pred,
                            #[trigger] scan(base, slice@.take(j + 1)),
                            false,
                        ),
                decreases n - index,
            {
                proof {
                    assert(slice@.take(index + 1).drop_last() =~= slice@.take(index as int));
                }
                let next = acc.join(&slice[index].measure());
                if pred(&next) {
                    assert(stops_at(*pred, base, self@, index as int));
                    return (acc, &slice[index]);
                }
                acc = next;
                index += 1;
            }
            proof {
                assert(slice@.take(n as int) =~= slice@);
                assert(slice@.take(index + 1).drop_last() =~= slice@.take(index as int));
            }
            let last = acc.join(&slice[index].measure());
            let hit = pred(&last);
            assert(stops_at(*pred, base, self@, index as int));
            (acc, &slice[index])
        }
    }
}

impl<N, V> Digit<Node<N>> where N: Ref<Target = NodeInner<N, V>>, V: Measured {
    /// The digit of the nodes that `node` holds; of `node` itself where it
    /// is a leaf.
    pub fn from_node(node: &Node<N>) -> (r: Self)
        ensures
            r@ == node.children(),
    {
        let r = match node.inner.get() {
            NodeInner::Leaf(_) => Digit::One([node.clone()]),
            NodeInner::Node2 { left, right, .. } => Digit::Two([left.clone(), right.clone()]),
            NodeInner::Node3 { left, middle, right, .. } => Digit::Three(
                [left.clone(), middle.clone(), right.clone()],
            ),
        };
        assert(r@ =~= node.children());
        r
    }
}

} // verus!
