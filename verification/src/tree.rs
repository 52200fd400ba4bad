//! [`Tree`]: one level of a finger tree, and the operations on it.
use crate::digit::{stops_at, Digit};
use crate::measure::{
    answers, ends_at, functional, lemma_ends_within, lemma_measure_concat, lemma_scan_base,
    lemma_scan_concat, lemma_scan_join, measure_of, measure_slice, scan, total, Measured,
};
use crate::monoid::Monoid;
use crate::node::{
    all_wf, children_of, flatten, lemma_children_of_around, lemma_children_of_concat,
    lemma_children_of_flatten, lemma_children_of_one, lemma_cloned_nodes, lemma_find_case,
    lemma_flatten_around, lemma_flatten_concat, lemma_flatten_few, lemma_flatten_measure,
    lemma_flatten_three, lemma_lifted, lemma_lifted_children, lemma_parts_wf, lemma_same_front,
    lemma_scan_join_nodes, lemma_split_case, lifted, targets, triple, Node, NodeInner,
};
use crate::reference::Ref;
use vstd::prelude::*;
use vstd::slice::slice_subrange;

verus! {

/// What a deep [`Tree`] refers to. Only visible to define custom
/// [`Refs`](crate::reference::Refs).
pub struct TreeInner<N, T, V: Measured> {
    pub measure: V::Measure,
    pub left: Digit<Node<N>>,
    pub spine: Tree<N, T>,
    pub right: Digit<Node<N>>,
    /// The number of levels below this one, which bounds every walk down
    /// the spine.
    pub height: Ghost<nat>,
}

/// One level of a finger tree: nothing, one node, or a digit at either end
/// and between them a tree of nodes that are one level deeper.
pub enum Tree<N, T> {
    Empty,
    Single(Node<N>),
    Deep(T),
}

impl<N: Ref, T: Ref> Clone for Tree<N, T> {
    fn clone(&self) -> (r: Self)
        ensures
            r == *self,
    {
        match self {
            Tree::Empty => Tree::Empty,
            Tree::Single(node) => Tree::Single(node.clone()),
            Tree::Deep(deep) => Tree::Deep(deep.share()),
        }
    }
}

impl<N, T, V> Measured for Tree<N, T> where
    N: Ref<Target = NodeInner<N, V>>,
    T: Ref<Target = TreeInner<N, T, V>>,
    V: Measured,
 {
    type Measure = V::Measure;

    /// The measure that the tree holds: the unit for an empty tree, that of
    /// its node for a single one.
    open spec fn spec_measure(&self) -> V::Measure {
        match self {
            Tree::Empty => V::Measure::spec_unit(),
            Tree::Single(node) => node.spec_measure(),
            Tree::Deep(deep) => deep.target().measure,
        }
    }

    proof fn lemma_measure_clone(a: V::Measure, b: V::Measure) {
        V::lemma_measure_clone(a, b);
    }

    /// The measure of the tree, without a walk through it.
    fn measure(&self) -> (r: V::Measure) {
        match self {
            Tree::Empty => V::Measure::unit(),
            Tree::Single(node) => node.measure(),
            Tree::Deep(deep) => {
                let inner = deep.get();
                let r = inner.measure.clone();
                proof {
                    V::lemma_measure_clone(inner.measure, r);
                }
                r
            },
        }
    }
}

impl<N, T, V> Tree<N, T> where
    N: Ref<Target = NodeInner<N, V>>,
    T: Ref<Target = TreeInner<N, T, V>>,
    V: Measured,
 {
    /// The number of levels of the tree below this one.
    pub open spec fn height(&self) -> nat {
        match self {
            Tree::Empty => 0,
            Tree::Single(_) => 0,
            Tree::Deep(deep) => deep.target().height@,
        }
    }

    /// The leftmost node of a tree that is not empty.
    pub open spec fn first(&self) -> Node<N>
        recommends
            !(self is Empty),
    {
        match self {
            Tree::Empty => arbitrary(),
            Tree::Single(node) => *node,
            Tree::Deep(deep) => deep.target().left@[0],
        }
    }

    /// The rightmost node of a tree that is not empty.
    pub open spec fn last(&self) -> Node<N>
        recommends
            !(self is Empty),
    {
        match self {
            Tree::Empty => arbitrary(),
            Tree::Single(node) => *node,
            Tree::Deep(deep) => deep.target().right@.last(),
        }
    }

    /// The tree is a level that holds nodes of depth `d`: its nodes are
    /// well-formed at depth `d`, its spine is a level that holds nodes of
    /// depth `d + 1`, and a deep level holds the join of the measures of its
    /// left digit, its spine and its right digit.
    pub open spec fn wf(&self, d: nat) -> bool
        decreases self.height(),
    {
        match self {
            Tree::Empty => true,
            Tree::Single(node) => node.wf(d),
            Tree::Deep(deep) => {
                let inner = deep.target();
                &&& inner.spine.height() < inner.height@
                &&& all_wf(inner.left@, d)
                &&& all_wf(inner.right@, d)
                &&& inner.spine.wf(d + 1)
                &&& inner.measure == measure_of(inner.left@).spec_join(
                    &inner.spine.spec_measure(),
                ).spec_join(&measure_of(inner.right@))
            },
        }
    }

    /// The values of a level that holds nodes of depth `d`, from left to
    /// right.
    pub open spec fn elems(&self, d: nat) -> Seq<V>
        decreases self.height(),
    {
        match self {
            Tree::Empty => Seq::empty(),
            Tree::Single(node) => node.elems(d),
            Tree::Deep(deep) => {
                let inner = deep.target();
                if inner.spine.height() < inner.height@ {
                    flatten(inner.left@, d) + inner.spine.elems(d + 1) + flatten(inner.right@, d)
                } else {
                    Seq::empty()
                }
            },
        }
    }

    /// The nodes of the level, from left to right: none for an empty tree,
    /// the node of a single one, and for a deep one the left digit, then the
    /// children of the nodes of the spine, then the right digit.
    ///
    /// A proof does not see into the definition by itself;
    /// [`lemma_nodes_unfold`](Self::lemma_nodes_unfold) writes it out.
    #[verifier::opaque]
    pub open spec fn nodes(&self) -> Seq<Node<N>>
        decreases self.height(),
    {
        match self {
            Tree::Empty => Seq::empty(),
            Tree::Single(node) => seq![*node],
            Tree::Deep(deep) => {
                let inner = deep.target();
                if inner.spine.height() < inner.height@ {
                    inner.left@ + children_of(inner.spine.nodes()) + inner.right@
                } else {
                    Seq::empty()
                }
            },
        }
    }

    /// The nodes of a well-formed level, written out for each form of it.
    pub proof fn lemma_nodes_unfold(&self, d: nat)
        requires
            self.wf(d),
        ensures
            self is Empty ==> self.nodes() == Seq::<Node<N>>::empty(),
            self matches Tree::Single(node) ==> self.nodes() == seq![*node],
            self matches Tree::Deep(deep) ==> self.nodes() == deep.target().left@ + children_of(
                deep.target().spine.nodes(),
            ) + deep.target().right@,
    {
        reveal(Tree::nodes);
    }

    /// The nodes of a well-formed level are well-formed at its depth, and
    /// their values are the values of the level.
    pub proof fn lemma_nodes(&self, d: nat)
        requires
            self.wf(d),
        ensures
            all_wf(self.nodes(), d),
            flatten(self.nodes(), d) == self.elems(d),
        decreases self.height(),
    {
        self.lemma_nodes_unfold(d);
        match self {
            Tree::Empty => {},
            Tree::Single(node) => {
                lemma_flatten_few(seq![*node], d);
            },
            Tree::Deep(deep) => {
                let inner = deep.target();
                let mid = children_of(inner.spine.nodes());
                inner.spine.lemma_nodes(d + 1);
                lemma_children_of_flatten(inner.spine.nodes(), d);
                lemma_flatten_concat(inner.left@, mid, d);
                lemma_flatten_concat(inner.left@ + mid, inner.right@, d);
                let all = inner.left@ + mid + inner.right@;
                assert forall|i: int| 0 <= i < all.len() implies (#[trigger] all[i]).wf(d) by {
                    if i < inner.left@.len() {
                        assert(all[i] == inner.left@[i]);
                    } else if i < inner.left@.len() + mid.len() {
                        assert(all[i] == mid[i - inner.left@.len()]);
                    } else {
                        assert(all[i] == inner.right@[i - inner.left@.len() - mid.len()]);
                    }
                }
            },
        }
    }

    /// `new` is this tree with `value` pushed to its left end: a single
    /// tree for an empty one, a deep tree of two digits of one node for a
    /// single one. On a deep tree the node goes to the front of the left
    /// digit where that has room; where it is full, the left digit becomes
    /// `value` and its old first node, and its other three nodes, made into
    /// one node, are pushed to the left end of the spine, where that node
    /// is then the first.
    pub open spec fn pushed_left(&self, value: Node<N>, new: Tree<N, T>) -> bool
        decreases self.height(),
    {
        match *self {
            Tree::Empty => new == Tree::<N, T>::Single(value),
            Tree::Single(other) => new matches Tree::Deep(deep) && {
                &&& deep.target().left@ == seq![value]
                &&& deep.target().spine is Empty
                &&& deep.target().right@ == seq![other]
            },
            Tree::Deep(old) => new matches Tree::Deep(deep) && {
                let o = old.target();
                let n = deep.target();
                &&& n.right@ == o.right@
                &&& o.left@.len() < 4 ==> n.left@ == seq![value] + o.left@ && n.spine == o.spine
                &&& o.left@.len() >= 4 ==> {
                    &&& n.left@ == seq![value, o.left@[0]]
                    &&& o.spine.height() < o.height@
                    &&& n.spine.first().inner.target() == triple(
                        o.left@[1],
                        o.left@[2],
                        o.left@[3],
                    )
                    &&& o.spine.pushed_left(n.spine.first(), n.spine)
                }
            },
        }
    }

    /// `new` is this tree with `value` pushed to its right end, as
    /// [`pushed_left`](Self::pushed_left) is for the left end.
    pub open spec fn pushed_right(&self, value: Node<N>, new: Tree<N, T>) -> bool
        decreases self.height(),
    {
        match *self {
            Tree::Empty => new == Tree::<N, T>::Single(value),
            Tree::Single(other) => new matches Tree::Deep(deep) && {
                &&& deep.target().left@ == seq![other]
                &&& deep.target().spine is Empty
                &&& deep.target().right@ == seq![value]
            },
            Tree::Deep(old) => new matches Tree::Deep(deep) && {
                let o = old.target();
                let n = deep.target();
                &&& n.left@ == o.left@
                &&& o.right@.len() < 4 ==> n.right@ == o.right@ + seq![value] && n.spine == o.spine
                &&& o.right@.len() >= 4 ==> {
                    &&& n.right@ == seq![o.right@[3], value]
                    &&& o.spine.height() < o.height@
                    &&& n.spine.last().inner.target() == triple(
                        o.right@[0],
                        o.right@[1],
                        o.right@[2],
                    )
                    &&& o.spine.pushed_right(n.spine.last(), n.spine)
                }
            },
        }
    }

    /// The measure that a well-formed tree holds is the measure of its
    /// values.
    pub proof fn lemma_measure(&self, d: nat)
        requires
            self.wf(d),
        ensures
            self.spec_measure() == measure_of(self.elems(d)),
        decreases self.height(),
    {
        match self {
            Tree::Empty => {},
            Tree::Single(node) => {
                node.lemma_measure(d);
            },
            Tree::Deep(deep) => {
                let inner = deep.target();
                inner.spine.lemma_measure(d + 1);
                lemma_flatten_measure(inner.left@, d);
                lemma_flatten_measure(inner.right@, d);
                let l = flatten(inner.left@, d);
                let s = inner.spine.elems(d + 1);
                let r = flatten(inner.right@, d);
                lemma_measure_concat(l, s);
                lemma_measure_concat(l + s, r);
            },
        }
    }

    /// A well-formed tree holds no value exactly if it is empty.
    pub proof fn lemma_empty(&self, d: nat)
        requires
            self.wf(d),
        ensures
            self is Empty <==> self.elems(d).len() == 0,
    {
        match self {
            Tree::Empty => {},
            Tree::Single(node) => {
                node.lemma_nonempty(d);
            },
            Tree::Deep(deep) => {
                let inner = deep.target();
                inner.left.lemma_len();
                let first = inner.left@[0];
                first.lemma_nonempty(d);
                assert(inner.left@ =~= seq![first] + inner.left@.skip(1));
                lemma_flatten_concat(seq![first], inner.left@.skip(1), d);
                lemma_flatten_few(seq![first], d);
            },
        }
    }

    /// The empty tree.
    pub fn empty() -> (r: Self)
        ensures
            r is Empty,
    {
        Tree::Empty
    }

    /// The tree of one node.
    pub fn single(node: Node<N>) -> (r: Self)
        ensures
            r == Tree::<N, T>::Single(node),
    {
        Tree::Single(node)
    }

    /// The tree of a left digit, a spine and a right digit, with the join
    /// of their measures.
    pub fn deep(
        left: Digit<Node<N>>,
        spine: Tree<N, T>,
        right: Digit<Node<N>>,
        Ghost(d): Ghost<nat>,
    ) -> (r: Self)
        requires
            all_wf(left@, d),
            spine.wf(d + 1),
            all_wf(right@, d),
        ensures
            r is Deep,
            r.wf(d),
            r.elems(d) == flatten(left@, d) + spine.elems(d + 1) + flatten(right@, d),
            r.nodes() == left@ + children_of(spine.nodes()) + right@,
            r->Deep_0.target().left == left,
            r->Deep_0.target().spine == spine,
            r->Deep_0.target().right == right,
    {
        let measure = left.measure().join(&spine.measure()).join(&right.measure());
        let r = Tree::Deep(
            T::new(TreeInner { measure, left, spine, right, height: Ghost(spine.height() + 1) }),
        );
        proof {
            r.lemma_nodes_unfold(d);
        }
        r
    }

    /// The tree with `value` added at its left end.
    #[verifier::rlimit(50)]
    pub fn push_left(&self, value: Node<N>, Ghost(d): Ghost<nat>) -> (r: Self)
        requires
            self.wf(d),
            value.wf(d),
        ensures
            r.wf(d),
            r.elems(d) == value.elems(d) + self.elems(d),
            r.nodes() == seq![value] + self.nodes(),
            r.first() == value,
            self.pushed_left(value, r),
        decreases self.height(),
    {
        let ghost none = Seq::<Node<N>>::empty();
        proof {
            self.lemma_nodes_unfold(d);
            Tree::<N, T>::Empty.lemma_nodes_unfold(d + 1);
        }
        match self {
            Tree::Empty => {
                let r = Self::single(value);
                proof {
                    r.lemma_nodes_unfold(d);
                    assert(seq![value] + none =~= seq![value]);
                    assert(value.elems(d) + Seq::<V>::empty() =~= value.elems(d));
                }
                r
            },
            Tree::Single(other) => {
                let left = Digit::One([value]);
                let right = Digit::One([other.clone()]);
                proof {
                    lemma_flatten_few(left@, d);
                    lemma_flatten_few(right@, d);
                    assert(left@ =~= seq![value]);
                    assert(right@ =~= seq![*other]);
                    assert(left@ + children_of(none) + right@ =~= seq![value] + seq![*other]);
                    assert(value.elems(d) + Seq::<V>::empty() + other.elems(d) =~= value.elems(d)
                        + other.elems(d));
                }
                Self::deep(left, Self::empty(), right, Ghost(d))
            },
            Tree::Deep(deep) => {
                let inner = deep.get();
                let old_left = inner.left.as_slice();
                let right = inner.right.clone();
                let ghost below = children_of(inner.spine.nodes());
                proof {
                    lemma_cloned_nodes(inner.right@, right@);
                }
                if old_left.len() == 4 {
                    let node = Node::node3(
                        old_left[1].clone(),
                        old_left[2].clone(),
                        old_left[3].clone(),
                    );
                    let left = Digit::Two([value, old_left[0].clone()]);
                    proof {
                        assert(node.wf(d + 1));
                    }
                    let spine = inner.spine.push_left(node, Ghost(d + 1));
                    proof {
                        assert(left@ =~= seq![value, old_left@[0]]);
                        assert(flatten(left@, d) + spine.elems(d + 1) + flatten(right@, d)
                            == value.elems(d) + self.elems(d)) by {
                            lemma_flatten_few(left@, d);
                            lemma_flatten_few(old_left@, d);
                            assert(left@[0].elems(d) + left@[1].elems(d) + (node.elems(d + 1)
                                + inner.spine.elems(d + 1)) + flatten(right@, d) =~= value.elems(d)
                                + (flatten(old_left@, d) + inner.spine.elems(d + 1) + flatten(
                                right@,
                                d,
                            )));
                        }
                        assert(left@ + children_of(spine.nodes()) + right@ == seq![value]
                            + self.nodes()) by {
                            lemma_children_of_concat(seq![node], inner.spine.nodes());
                            lemma_children_of_one(node);
                            assert(node.children() =~= seq![
                                old_left@[1],
                                old_left@[2],
                                old_left@[3],
                            ]);
                            assert(left@ + (node.children() + below) + right@ =~= seq![value] + (
                            old_left@ + below + right@));
                        }
                    }
                    let r = Self::deep(left, spine, right, Ghost(d));
                    proof {
                        assert(node.inner.target() == triple(
                            old_left@[1],
                            old_left@[2],
                            old_left@[3],
                        ));
                        assert(inner.spine.pushed_left(node, spine));
                    }
                    r
                } else {
                    let one = Digit::One([value]);
                    let left = one.append(old_left);
                    proof {
                        lemma_cloned_nodes(one@ + old_left@, left@);
                        assert(one@ =~= seq![value]);
                        assert(flatten(left@, d) + inner.spine.elems(d + 1) + flatten(right@, d)
                            == value.elems(d) + self.elems(d)) by {
                            lemma_flatten_concat(one@, old_left@, d);
                            lemma_flatten_few(one@, d);
                            assert(flatten(left@, d) + inner.spine.elems(d + 1) + flatten(
                                right@,
                                d,
                            ) =~= value.elems(d) + (flatten(old_left@, d) + inner.spine.elems(
                                d + 1,
                            ) + flatten(right@, d)));
                        }
                        assert(left@ + below + right@ =~= seq![value] + (old_left@ + below
                            + right@));
                    }
                    Self::deep(left, inner.spine.clone(), right, Ghost(d))
                }
            },
        }
    }

    /// The tree with `value` added at its right end.
    #[verifier::rlimit(50)]
    pub fn push_right(&self, value: Node<N>, Ghost(d): Ghost<nat>) -> (r: Self)
        requires
            self.wf(d),
            value.wf(d),
        ensures
            r.wf(d),
            r.elems(d) == self.elems(d) + value.elems(d),
            r.nodes() == self.nodes() + seq![value],
            r.last() == value,
            self.pushed_right(value, r),
        decreases self.height(),
    {
        let ghost none = Seq::<Node<N>>::empty();
        proof {
            self.lemma_nodes_unfold(d);
            Tree::<N, T>::Empty.lemma_nodes_unfold(d + 1);
        }
        match self {
            Tree::Empty => {
                let r = Self::single(value);
                proof {
                    r.lemma_nodes_unfold(d);
                    assert(none + seq![value] =~= seq![value]);
                    assert(Seq::<V>::empty() + value.elems(d) =~= value.elems(d));
                }
                r
            },
            Tree::Single(other) => {
                let left = Digit::One([other.clone()]);
                let right = Digit::One([value]);
                proof {
                    lemma_flatten_few(left@, d);
                    lemma_flatten_few(right@, d);
                    assert(left@ =~= seq![*other]);
                    assert(right@ =~= seq![value]);
                    assert(left@ + children_of(none) + right@ =~= seq![*other] + seq![value]);
                    assert(other.elems(d) + Seq::<V>::empty() + value.elems(d) =~= other.elems(d)
                        + value.elems(d));
                }
                Self::deep(left, Self::empty(), right, Ghost(d))
            },
            Tree::Deep(deep) => {
                let inner = deep.get();
                let old_right = inner.right.as_slice();
                let left = inner.left.clone();
                let ghost below = children_of(inner.spine.nodes());
                proof {
                    lemma_cloned_nodes(inner.left@, left@);
                }
                if old_right.len() == 4 {
                    let node = Node::node3(
                        old_right[0].clone(),
                        old_right[1].clone(),
                        old_right[2].clone(),
                    );
                    let right = Digit::Two([old_right[3].clone(), value]);
                    proof {
                        assert(node.wf(d + 1));
                    }
                    let spine = inner.spine.push_right(node, Ghost(d + 1));
                    proof {
                        assert(right@ =~= seq![old_right@[3], value]);
                        assert(right@.last() == value);
                        assert(flatten(left@, d) + spine.elems(d + 1) + flatten(right@, d)
                            == self.elems(d) + value.elems(d)) by {
                            lemma_flatten_few(right@, d);
                            lemma_flatten_few(old_right@, d);
                            assert(flatten(left@, d) + (inner.spine.elems(d + 1) + node.elems(
                                d + 1,
                            )) + (right@[0].elems(d) + right@[1].elems(d)) =~= flatten(left@, d)
                                + inner.spine.elems(d + 1) + flatten(old_right@, d) + value.elems(
                                d,
                            ));
                        }
                        assert(left@ + children_of(spine.nodes()) + right@ == self.nodes() + seq![
                            value,
                        ]) by {
                            lemma_children_of_concat(inner.spine.nodes(), seq![node]);
                            lemma_children_of_one(node);
                            assert(node.children() =~= seq![
                                old_right@[0],
                                old_right@[1],
                                old_right@[2],
                            ]);
                            assert(left@ + (below + node.children()) + right@ =~= left@ + below
                                + old_right@ + seq![value]);
                        }
                    }
                    let r = Self::deep(left, spine, right, Ghost(d));
                    proof {
                        assert(node.inner.target() == triple(
                            old_right@[0],
                            old_right@[1],
                            old_right@[2],
                        ));
                        assert(inner.spine.pushed_right(node, spine));
                    }
                    r
                } else {
                    let one = Digit::One([value]);
                    let right = inner.right.append(one.as_slice());
                    proof {
                        lemma_cloned_nodes(old_right@ + one@, right@);
                        assert(one@ =~= seq![value]);
                        assert(flatten(left@, d) + inner.spine.elems(d + 1) + flatten(right@, d)
                            == self.elems(d) + value.elems(d)) by {
                            lemma_flatten_concat(old_right@, one@, d);
                            lemma_flatten_few(one@, d);
                            assert(flatten(left@, d) + inner.spine.elems(d + 1) + flatten(
                                right@,
                                d,
                            ) =~= flatten(left@, d) + inner.spine.elems(d + 1) + flatten(
                                old_right@,
                                d,
                            ) + value.elems(d));
                        }
                        assert(left@ + below + right@ =~= left@ + below + old_right@ + seq![
                            value,
                        ]);
                        assert(right@ =~= old_right@ + seq![value]);
                        assert(right@.last() == value);
                    }
                    Self::deep(left, inner.spine.clone(), right, Ghost(d))
                }
            },
        }
    }

    /// The tree of the nodes of a slice, in order.
    pub fn from_slice(nodes: &[Node<N>], Ghost(d): Ghost<nat>) -> (r: Self)
        requires
            all_wf(nodes@, d),
        ensures
            r.wf(d),
            r.elems(d) == flatten(nodes@, d),
            r.nodes() == nodes@,
            r is Empty <==> nodes@.len() == 0,
    {
        let mut tree = Tree::Empty;
        let mut i: usize = 0;
        proof {
            tree.lemma_nodes_unfold(d);
            assert(nodes@.take(0) =~= Seq::<Node<N>>::empty());
        }
        while i < nodes.len()
            invariant
                i <= nodes.len(),
                all_wf(nodes@, d),
                tree.wf(d),
                tree.elems(d) == flatten(nodes@.take(i as int), d),
                tree.nodes() == nodes@.take(i as int),
                tree is Empty <==> i == 0,
            decreases nodes.len() - i,
        {
            proof {
                assert(nodes@.take(i + 1).drop_last() =~= nodes@.take(i as int));
                assert(nodes@.take(i as int) + seq![nodes@[i as int]] =~= nodes@.take(i + 1));
            }
            tree = tree.push_right(nodes[i].clone(), Ghost(d));
            i += 1;
        }
        assert(nodes@.take(i as int) =~= nodes@);
        tree
    }

    /// The tree of the nodes of `left`, which may be none, then `spine`,
    /// then `right`. Where `left` is empty, a node of the spine is taken
    /// apart to serve as the left digit; where the spine is empty too, the
    /// nodes of `right` make up the tree.
    pub fn deep_left(
        left: &[Node<N>],
        spine: &Tree<N, T>,
        right: &Digit<Node<N>>,
        Ghost(d): Ghost<nat>,
    ) -> (r: Self)
        requires
            left@.len() <= 4,
            all_wf(left@, d),
            spine.wf(d + 1),
            all_wf(right@, d),
        ensures
            r.wf(d),
            r.elems(d) == flatten(left@, d) + spine.elems(d + 1) + flatten(right@, d),
            r.nodes() == left@ + children_of(spine.nodes()) + right@,
            !(r is Empty),
            left@.len() > 0 ==> (r matches Tree::Deep(deep) && {
                &&& deep.target().left@ == left@
                &&& deep.target().spine == *spine
                &&& deep.target().right@ == right@
            }),
            left@.len() == 0 && !(spine is Empty) ==> (r matches Tree::Deep(deep) && {
                &&& deep.target().left@ == spine.first().children()
                &&& deep.target().right@ == right@
            }),
        decreases spine.height(), 1nat,
    {
        if left.len() == 0 {
            proof {
                lemma_flatten_few(left@, d);
                spine.lemma_nodes_unfold(d + 1);
                assert(children_of(Seq::<Node<N>>::empty()) =~= Seq::<Node<N>>::empty());
            }
            match spine.view_left(Ghost(d + 1)) {
                Some((head, tail)) => {
                    let digit = Digit::from_node(&head);
                    let shared = right.clone();
                    proof {
                        head.lemma_children(d);
                        lemma_cloned_nodes(right@, shared@);
                        assert(flatten(digit@, d) + tail.elems(d + 1) + flatten(right@, d)
                            =~= flatten(left@, d) + spine.elems(d + 1) + flatten(right@, d));
                        lemma_children_of_concat(seq![head], tail.nodes());
                        lemma_children_of_one(head);
                        assert(digit@ + children_of(tail.nodes()) + right@ =~= left@
                            + children_of(spine.nodes()) + right@);
                    }
                    Self::deep(digit, tail, shared, Ghost(d))
                },
                None => {
                    proof {
                        assert(flatten(right@, d) =~= flatten(left@, d) + spine.elems(d + 1)
                            + flatten(right@, d));
                        assert(right@ =~= left@ + children_of(spine.nodes()) + right@);
                    }
                    Self::from_slice(right.as_slice(), Ghost(d))
                },
            }
        } else {
            let digit = Digit::from_slice(left);
            let shared = right.clone();
            proof {
                lemma_cloned_nodes(left@, digit@);
                lemma_cloned_nodes(right@, shared@);
            }
            Self::deep(digit, spine.clone(), shared, Ghost(d))
        }
    }

    /// The leftmost node of the tree and the tree of the others; `None` for
    /// the empty tree.
    pub fn view_left(&self, Ghost(d): Ghost<nat>) -> (r: Option<(Node<N>, Self)>)
        requires
            self.wf(d),
        ensures
            r is None <==> self is Empty,
            r matches Some((head, tail)) ==> {
                &&& head.wf(d)
                &&& tail.wf(d)
                &&& head.elems(d) + tail.elems(d) == self.elems(d)
                &&& seq![head] + tail.nodes() == self.nodes()
                &&& head == self.first()
                &&& self is Single ==> tail is Empty
            },
        decreases self.height(), 0nat,
    {
        proof {
            self.lemma_nodes_unfold(d);
            Tree::<N, T>::Empty.lemma_nodes_unfold(d);
        }
        match self {
            Tree::Empty => None,
            Tree::Single(value) => {
                assert(value.elems(d) + Seq::<V>::empty() =~= value.elems(d));
                assert(seq![*value] + Seq::<Node<N>>::empty() =~= seq![*value]);
                Some((value.clone(), Tree::Empty))
            },
            Tree::Deep(deep) => {
                let inner = deep.get();
                let left = inner.left.as_slice();
                let head = left[0].clone();
                let rest = slice_subrange(left, 1, left.len());
                proof {
                    assert(left@ =~= seq![head] + rest@);
                    lemma_flatten_concat(seq![head], rest@, d);
                    lemma_flatten_few(seq![head], d);
                }
                let tail = Self::deep_left(rest, &inner.spine, &inner.right, Ghost(d));
                proof {
                    assert(head.elems(d) + tail.elems(d) =~= self.elems(d));
                    assert(seq![head] + tail.nodes() =~= self.nodes());
                }
                Some((head, tail))
            },
        }
    }

    /// The tree of `left`, then `spine`, then the nodes of `right`, which
    /// may be none. Where `right` is empty, a node of the spine is taken
    /// apart to serve as the right digit; where the spine is empty too, the
    /// nodes of `left` make up the tree.
    pub fn deep_right(
        left: &Digit<Node<N>>,
        spine: &Tree<N, T>,
        right: &[Node<N>],
        Ghost(d): Ghost<nat>,
    ) -> (r: Self)
        requires
            right@.len() <= 4,
            all_wf(left@, d),
            spine.wf(d + 1),
            all_wf(right@, d),
        ensures
            r.wf(d),
            r.elems(d) == flatten(left@, d) + spine.elems(d + 1) + flatten(right@, d),
            r.nodes() == left@ + children_of(spine.nodes()) + right@,
            !(r is Empty),
            right@.len() > 0 ==> (r matches Tree::Deep(deep) && {
                &&& deep.target().left@ == left@
                &&& deep.target().spine == *spine
                &&& deep.target().right@ == right@
            }),
            right@.len() == 0 && !(spine is Empty) ==> (r matches Tree::Deep(deep) && {
                &&& deep.target().left@ == left@
                &&& deep.target().right@ == spine.last().children()
            }),
        decreases spine.height(), 1nat,
    {
        if right.len() == 0 {
            proof {
                lemma_flatten_few(right@, d);
                left.lemma_len();
                spine.lemma_nodes_unfold(d + 1);
                assert(children_of(Seq::<Node<N>>::empty()) =~= Seq::<Node<N>>::empty());
            }
            match spine.view_right(Ghost(d + 1)) {
                Some((head, tail)) => {
                    let digit = Digit::from_node(&head);
                    let shared = left.clone();
                    proof {
                        head.lemma_children(d);
                        lemma_cloned_nodes(left@, shared@);
                        assert(flatten(left@, d) + tail.elems(d + 1) + flatten(digit@, d)
                            =~= flatten(left@, d) + spine.elems(d + 1) + flatten(right@, d));
                        lemma_children_of_concat(tail.nodes(), seq![head]);
                        lemma_children_of_one(head);
                        assert(left@ + children_of(tail.nodes()) + digit@ =~= left@ + children_of(
                            spine.nodes(),
                        ) + right@);
                    }
                    Self::deep(shared, tail, digit, Ghost(d))
                },
                None => {
                    proof {
                        assert(flatten(left@, d) =~= flatten(left@, d) + spine.elems(d + 1)
                            + flatten(right@, d));
                        assert(left@ =~= left@ + children_of(spine.nodes()) + right@);
                    }
                    Self::from_slice(left.as_slice(), Ghost(d))
                },
            }
        } else {
            let digit = Digit::from_slice(right);
            let shared = left.clone();
            proof {
                lemma_cloned_nodes(right@, digit@);
                lemma_cloned_nodes(left@, shared@);
            }
            Self::deep(shared, spine.clone(), digit, Ghost(d))
        }
    }

    /// The rightmost node of the tree and the tree of the others; `None` for
    /// the empty tree.
    pub fn view_right(&self, Ghost(d): Ghost<nat>) -> (r: Option<(Node<N>, Self)>)
        requires
            self.wf(d),
        ensures
            r is None <==> self is Empty,
            r matches Some((head, tail)) ==> {
                &&& head.wf(d)
                &&& tail.wf(d)
                &&& tail.elems(d) + head.elems(d) == self.elems(d)
                &&& tail.nodes() + seq![head] == self.nodes()
                &&& head == self.last()
                &&& self is Single ==> tail is Empty
            },
        decreases self.height(), 0nat,
    {
        proof {
            self.lemma_nodes_unfold(d);
            Tree::<N, T>::Empty.lemma_nodes_unfold(d);
        }
        match self {
            Tree::Empty => None,
            Tree::Single(value) => {
                assert(Seq::<V>::empty() + value.elems(d) =~= value.elems(d));
                assert(Seq::<Node<N>>::empty() + seq![*value] =~= seq![*value]);
                Some((value.clone(), Tree::Empty))
            },
            Tree::Deep(deep) => {
                let inner = deep.get();
                let right = inner.right.as_slice();
                let last = right.len() - 1;
                let head = right[last].clone();
                let rest = slice_subrange(right, 0, last);
                proof {
                    assert(right@ =~= rest@ + seq![head]);
                    lemma_flatten_concat(rest@, seq![head], d);
                    lemma_flatten_few(seq![head], d);
                }
                let tail = Self::deep_right(&inner.left, &inner.spine, rest, Ghost(d));
                proof {
                    assert(tail.elems(d) + head.elems(d) =~= self.elems(d));
                    assert(tail.nodes() + seq![head] =~= self.nodes());
                }
                Some((head, tail))
            },
        }
    }

    /// What [`split`](Self::split) returns: well-formed parts that make up
    /// the tree, with the node `r.1` one of the nodes of the level, those
    /// before it in `r.0` and those after it in `r.2`. `pred` holds of the scan
    /// up to the end of `r.1`, if it holds of the whole scan or if anything
    /// comes after `r.1`, and does not hold of the scan up to the end of
    /// `r.0`, unless `r.0` is empty.
    pub open spec fn is_split<F: Fn(&V::Measure) -> bool>(
        &self,
        base: V::Measure,
        pred: F,
        d: nat,
        r: (Tree<N, T>, Node<N>, Tree<N, T>),
    ) -> bool {
        &&& r.0.wf(d)
        &&& r.1.wf(d)
        &&& r.2.wf(d)
        &&& r.0.elems(d) + r.1.elems(d) + r.2.elems(d) == self.elems(d)
        &&& cut_at(self.nodes(), r.0.nodes(), r.1, r.2.nodes())
        &&& answers(pred, scan(base, self.elems(d)), true) || r.2.elems(d).len() > 0 ==> answers(
            pred,
            scan(base, r.0.elems(d) + r.1.elems(d)),
            true,
        )
        &&& r.0.elems(d).len() > 0 ==> answers(pred, scan(base, r.0.elems(d)), false)
    }

    /// What [`split_left`](Self::split_left) returns: as for
    /// [`split`](Self::split), without what comes after the node `r.1`.
    pub open spec fn is_split_left<F: Fn(&V::Measure) -> bool>(
        &self,
        base: V::Measure,
        pred: F,
        d: nat,
        r: (Tree<N, T>, Node<N>),
    ) -> bool {
        &&& r.0.wf(d)
        &&& r.1.wf(d)
        &&& (r.0.elems(d) + r.1.elems(d)).is_prefix_of(self.elems(d))
        &&& (r.0.nodes() + seq![r.1]).is_prefix_of(self.nodes())
        &&& answers(pred, scan(base, self.elems(d)), true) || (r.0.elems(d) + r.1.elems(
            d,
        )).len() < self.elems(d).len() ==> answers(
            pred,
            scan(base, r.0.elems(d) + r.1.elems(d)),
            true,
        )
        &&& r.0.elems(d).len() > 0 ==> answers(pred, scan(base, r.0.elems(d)), false)
    }

    /// What [`split_right`](Self::split_right) returns: as for
    /// [`split`](Self::split), with the measure that the scan has accumulated
    /// before the node `r.1` in place of the tree of the nodes before it.
    pub open spec fn is_split_right<F: Fn(&V::Measure) -> bool>(
        &self,
        base: V::Measure,
        pred: F,
        d: nat,
        r: (V::Measure, Node<N>, Tree<N, T>),
    ) -> bool {
        let e = self.elems(d);
        let before = e.take(e.len() - r.1.elems(d).len() - r.2.elems(d).len());
        let n = self.nodes();
        let k = n.len() - 1 - r.2.nodes().len();
        &&& r.1.wf(d)
        &&& r.2.wf(d)
        &&& before + r.1.elems(d) + r.2.elems(d) == e
        &&& cut_at(n, n.take(k), r.1, r.2.nodes())
        &&& r.0 == scan(base, before)
        &&& r.0 == scan(base, flatten(n.take(k), d))
        &&& answers(pred, scan(base, e), true) || r.2.elems(d).len() > 0 ==> answers(
            pred,
            scan(base, before + r.1.elems(d)),
            true,
        )
        &&& before.len() > 0 ==> answers(pred, r.0, false)
    }

    /// The measures that a descent into a deep level computes: `base` joined
    /// with the measure of the left digit is the scan of the values of the
    /// left digit, and that joined with the measure of the spine is the scan
    /// of the values of the left digit and the spine.
    pub proof fn lemma_descent(&self, base: V::Measure, d: nat)
        requires
            self.wf(d),
            self is Deep,
        ensures
            ({
                let inner = self->Deep_0.target();
                let l = flatten(inner.left@, d);
                let s = inner.spine.elems(d + 1);
                let r = flatten(inner.right@, d);
                let left_measure = base.spec_join(&measure_of(inner.left@));
                &&& self.elems(d) == l + s + r
                &&& left_measure == scan(base, l)
                &&& left_measure.spec_join(&inner.spine.spec_measure()) == scan(base, l + s)
                &&& l.len() > 0
            }),
    {
        let inner = self->Deep_0.target();
        let l = flatten(inner.left@, d);
        let s = inner.spine.elems(d + 1);
        lemma_flatten_measure(inner.left@, d);
        lemma_scan_base(base, l);
        inner.spine.lemma_measure(d + 1);
        lemma_scan_join(base, l, s);
        let first = inner.left@[0];
        first.lemma_nonempty(d);
        assert(inner.left@ =~= seq![first] + inner.left@.skip(1));
        lemma_flatten_concat(seq![first], inner.left@.skip(1), d);
        lemma_flatten_few(seq![first], d);
    }

    /// Splits a tree that is not empty at the node at which `pred` turns
    /// true along a scan of the values from `base`: returns the tree of the
    /// nodes before that node, the node, and the tree of the nodes after it.
    /// Where `pred` holds nowhere, the node is the last one and everything
    /// else goes to the left.
    #[verifier::rlimit(50)]
    pub fn split<F>(&self, base: V::Measure, pred: &F, Ghost(d): Ghost<nat>) -> (r: (
        Tree<N, T>,
        Node<N>,
        Tree<N, T>,
    )) where F: Fn(&V::Measure) -> bool
        requires
            self.wf(d),
            !(self is Empty),
            total(*pred),
            functional(*pred),
        ensures
            self.is_split(base, *pred, d, r),
        decreases self.height(),
    {
        proof {
            self.lemma_nodes_unfold(d);
            Tree::<N, T>::Empty.lemma_nodes_unfold(d);
        }
        match self {
            Tree::Empty => unreached(),
            Tree::Single(value) => {
                proof {
                    let e = value.elems(d);
                    assert(Seq::<V>::empty() + e + Seq::<V>::empty() =~= e);
                    assert(Seq::<V>::empty() + e =~= e);
                    lemma_cut_at(
                        self.nodes(),
                        Seq::<Node<N>>::empty(),
                        *value,
                        Seq::<Node<N>>::empty(),
                    );
                }
                (Tree::Empty, value.clone(), Tree::Empty)
            },
            Tree::Deep(deep) => {
                let inner = deep.get();
                let ghost l = flatten(inner.left@, d);
                let ghost s = inner.spine.elems(d + 1);
                let ghost r = flatten(inner.right@, d);
                let ghost none = Seq::<V>::empty();
                proof {
                    self.lemma_descent(base, d);
                }
                // left
                let left_measure = base.join(&inner.left.measure());
                if pred(&left_measure) {
                    let (before, x, after) = inner.left.split(&base, pred);
                    let ghost i = before@.len() as int;
                    proof {
                        lemma_parts_wf(inner.left@, i, d);
                    }
                    let lt = Self::from_slice(before, Ghost(d));
                    let rt = Self::deep_left(after, &inner.spine, &inner.right, Ghost(d));
                    proof {
                        lemma_split_case(
                            *pred,
                            base,
                            none,
                            inner.left@,
                            s + r,
                            i,
                            d,
                            self.elems(d),
                            l,
                            lt.elems(d),
                            x.elems(d),
                            rt.elems(d),
                        );
                        lemma_cut_left(
                            self.nodes(),
                            inner.left@,
                            children_of(inner.spine.nodes()),
                            inner.right@,
                            i,
                            lt.nodes(),
                            *x,
                            rt.nodes(),
                        );
                    }
                    return (lt, x.clone(), rt);
                }
                // spine
                let spine_measure = left_measure.join(&inner.spine.measure());
                if pred(&spine_measure) {
                    proof {
                        if inner.spine is Empty {
                            V::Measure::lemma_unit_right(left_measure);
                        }
                    }
                    let shared = left_measure.clone();
                    proof {
                        V::lemma_measure_clone(left_measure, shared);
                    }
                    let (sl, sx, sr) = inner.spine.split(shared, pred, Ghost(d + 1));
                    let ghost sle = sl.elems(d + 1);
                    let ghost sxe = sx.elems(d + 1);
                    let digit = Digit::from_node(&sx);
                    proof {
                        Self::lemma_into_spine(*pred, base, l, s, sle, sxe, sr.elems(d + 1));
                        sl.lemma_measure(d + 1);
                        sx.lemma_children(d);
                    }
                    let start = left_measure.join(&sl.measure());
                    let (before, x, after) = digit.split(&start, pred);
                    let ghost i = before@.len() as int;
                    proof {
                        lemma_parts_wf(digit@, i, d);
                    }
                    let lt = Self::deep_right(&inner.left, &sl, before, Ghost(d));
                    let rt = Self::deep_left(after, &sr, &inner.right, Ghost(d));
                    proof {
                        lemma_split_case(
                            *pred,
                            base,
                            l + sle,
                            digit@,
                            sr.elems(d + 1) + r,
                            i,
                            d,
                            self.elems(d),
                            l + sle + sxe,
                            lt.elems(d),
                            x.elems(d),
                            rt.elems(d),
                        );
                        lemma_cut_spine(
                            self.nodes(),
                            inner.left@,
                            inner.spine.nodes(),
                            inner.right@,
                            sl.nodes(),
                            sx,
                            sr.nodes(),
                            i,
                            lt.nodes(),
                            *x,
                            rt.nodes(),
                        );
                    }
                    return (lt, x.clone(), rt);
                }
                // right
                let (before, x, after) = inner.right.split(&spine_measure, pred);
                let ghost i = before@.len() as int;
                proof {
                    lemma_parts_wf(inner.right@, i, d);
                }
                let lt = Self::deep_right(&inner.left, &inner.spine, before, Ghost(d));
                let rt = Self::from_slice(after, Ghost(d));
                proof {
                    lemma_split_case(
                        *pred,
                        base,
                        l + s,
                        inner.right@,
                        none,
                        i,
                        d,
                        self.elems(d),
                        l + s + r,
                        lt.elems(d),
                        x.elems(d),
                        rt.elems(d),
                    );
                    lemma_cut_right(
                        self.nodes(),
                        inner.left@,
                        children_of(inner.spine.nodes()),
                        inner.right@,
                        i,
                        lt.nodes(),
                        *x,
                        rt.nodes(),
                    );
                }
                (lt, x.clone(), rt)
            },
        }
    }

    /// Where a descent goes into the spine: `pred` does not hold at the end
    /// of the left digit, and the split of the spine, scanned from there, put
    /// the values `sle` before the node with the values `sxe`. Then `pred`
    /// does not hold at the end of `sle` either, which is where the scan of
    /// that node starts.
    pub proof fn lemma_into_spine<F: Fn(&V::Measure) -> bool>(
        pred: F,
        base: V::Measure,
        l: Seq<V>,
        s: Seq<V>,
        sle: Seq<V>,
        sxe: Seq<V>,
        sre: Seq<V>,
    )
        requires
            l.len() > 0,
            answers(pred, scan(base, l), false),
            answers(pred, scan(base, l + s), true),
            s =~= sle + sxe + sre,
            answers(pred, scan(scan(base, l), s), true) ==> answers(
                pred,
                scan(scan(base, l), sle + sxe),
                true,
            ),
            sle.len() > 0 ==> answers(pred, scan(scan(base, l), sle), false),
        ensures
            scan(base, l).spec_join(&measure_of(sle)) == scan(base, l + sle),
            answers(pred, scan(base, l + sle), false),
            answers(pred, scan(base, l + sle + sxe), true),
            (l + sle).len() > 0,
    {
        lemma_scan_join(base, l, sle);
        lemma_scan_concat(base, l, sle);
        lemma_scan_concat(base, l, s);
        lemma_scan_concat(base, l, sle + sxe);
        assert(l + (sle + sxe) =~= l + sle + sxe);
        if sle.len() == 0 {
            assert(l + sle =~= l);
        }
        assert(sle + sxe + sre == s);
    }

    /// The left part of [`split`](Self::split): the tree of the nodes before
    /// the node at which `pred` turns true, and that node.
    #[verifier::rlimit(50)]
    pub fn split_left<F>(&self, base: V::Measure, pred: &F, Ghost(d): Ghost<nat>) -> (r: (
        Tree<N, T>,
        Node<N>,
    )) where F: Fn(&V::Measure) -> bool
        requires
            self.wf(d),
            !(self is Empty),
            total(*pred),
            functional(*pred),
        ensures
            self.is_split_left(base, *pred, d, r),
        decreases self.height(),
    {
        proof {
            self.lemma_nodes_unfold(d);
            Tree::<N, T>::Empty.lemma_nodes_unfold(d);
        }
        match self {
            Tree::Empty => unreached(),
            Tree::Single(value) => {
                proof {
                    let e = value.elems(d);
                    assert(Seq::<V>::empty() + e =~= e);
                    assert(e =~= e.subrange(0, e.len() as int));
                    lemma_cut_at(
                        self.nodes(),
                        Seq::<Node<N>>::empty(),
                        *value,
                        Seq::<Node<N>>::empty(),
                    );
                }
                (Tree::Empty, value.clone())
            },
            Tree::Deep(deep) => {
                let inner = deep.get();
                let ghost l = flatten(inner.left@, d);
                let ghost s = inner.spine.elems(d + 1);
                let ghost r = flatten(inner.right@, d);
                let ghost none = Seq::<V>::empty();
                proof {
                    self.lemma_descent(base, d);
                }
                // left
                let left_measure = base.join(&inner.left.measure());
                if pred(&left_measure) {
                    let (before, x, after) = inner.left.split(&base, pred);
                    let ghost i = before@.len() as int;
                    proof {
                        lemma_parts_wf(inner.left@, i, d);
                    }
                    let lt = Self::from_slice(before, Ghost(d));
                    proof {
                        lemma_split_case(
                            *pred,
                            base,
                            none,
                            inner.left@,
                            s + r,
                            i,
                            d,
                            self.elems(d),
                            l,
                            lt.elems(d),
                            x.elems(d),
                            flatten(after@, d) + (s + r),
                        );
                        lemma_cut_left(
                            self.nodes(),
                            inner.left@,
                            children_of(inner.spine.nodes()),
                            inner.right@,
                            i,
                            lt.nodes(),
                            *x,
                            after@ + children_of(inner.spine.nodes()) + inner.right@,
                        );
                    }
                    return (lt, x.clone());
                }
                // spine
                let spine_measure = left_measure.join(&inner.spine.measure());
                if pred(&spine_measure) {
                    proof {
                        if inner.spine is Empty {
                            V::Measure::lemma_unit_right(left_measure);
                        }
                    }
                    let shared = left_measure.clone();
                    proof {
                        V::lemma_measure_clone(left_measure, shared);
                    }
                    let (sl, sx) = inner.spine.split_left(shared, pred, Ghost(d + 1));
                    let ghost sle = sl.elems(d + 1);
                    let ghost sxe = sx.elems(d + 1);
                    let ghost sre = s.skip((sle + sxe).len() as int);
                    let ghost srn = inner.spine.nodes().skip(sl.nodes().len() + 1 as int);
                    let digit = Digit::from_node(&sx);
                    proof {
                        assert(inner.spine.nodes() =~= sl.nodes() + seq![sx] + srn);
                        assert(s =~= sle + sxe + sre);
                        Self::lemma_into_spine(*pred, base, l, s, sle, sxe, sre);
                        sl.lemma_measure(d + 1);
                        sx.lemma_children(d);
                    }
                    let start = left_measure.join(&sl.measure());
                    let (before, x, after) = digit.split(&start, pred);
                    let ghost i = before@.len() as int;
                    proof {
                        lemma_parts_wf(digit@, i, d);
                    }
                    let lt = Self::deep_right(&inner.left, &sl, before, Ghost(d));
                    proof {
                        lemma_split_case(
                            *pred,
                            base,
                            l + sle,
                            digit@,
                            sre + r,
                            i,
                            d,
                            self.elems(d),
                            l + sle + sxe,
                            lt.elems(d),
                            x.elems(d),
                            flatten(after@, d) + (sre + r),
                        );
                        lemma_cut_spine(
                            self.nodes(),
                            inner.left@,
                            inner.spine.nodes(),
                            inner.right@,
                            sl.nodes(),
                            sx,
                            srn,
                            i,
                            lt.nodes(),
                            *x,
                            after@ + children_of(srn) + inner.right@,
                        );
                    }
                    return (lt, x.clone());
                }
                // right
                let (before, x, after) = inner.right.split(&spine_measure, pred);
                let ghost i = before@.len() as int;
                proof {
                    lemma_parts_wf(inner.right@, i, d);
                }
                let lt = Self::deep_right(&inner.left, &inner.spine, before, Ghost(d));
                proof {
                    lemma_split_case(
                        *pred,
                        base,
                        l + s,
                        inner.right@,
                        none,
                        i,
                        d,
                        self.elems(d),
                        l + s + r,
                        lt.elems(d),
                        x.elems(d),
                        flatten(after@, d) + none,
                    );
                    lemma_cut_right(
                        self.nodes(),
                        inner.left@,
                        children_of(inner.spine.nodes()),
                        inner.right@,
                        i,
                        lt.nodes(),
                        *x,
                        after@,
                    );
                }
                (lt, x.clone())
            },
        }
    }

    /// The right part of [`split`](Self::split): the measure that the scan
    /// has accumulated before the node at which `pred` turns true, that
    /// node, and the tree of the nodes after it.
    #[verifier::rlimit(50)]
    pub fn split_right<F>(&self, base: V::Measure, pred: &F, Ghost(d): Ghost<nat>) -> (r: (
        V::Measure,
        Node<N>,
        Tree<N, T>,
    )) where F: Fn(&V::Measure) -> bool
        requires
            self.wf(d),
            !(self is Empty),
            total(*pred),
            functional(*pred),
        ensures
            self.is_split_right(base, *pred, d, r),
        decreases self.height(),
    {
        proof {
            self.lemma_nodes_unfold(d);
            Tree::<N, T>::Empty.lemma_nodes_unfold(d);
        }
        match self {
            Tree::Empty => unreached(),
            Tree::Single(value) => {
                proof {
                    let e = value.elems(d);
                    let none = Seq::<Node<N>>::empty();
                    assert(e.take(0) =~= Seq::<V>::empty());
                    assert(e.take(0) + e + Seq::<V>::empty() =~= e);
                    assert(e.take(0) + e =~= e);
                    lemma_cut_at(self.nodes(), none, *value, none);
                    assert(flatten(none, d) =~= Seq::<V>::empty());
                }
                (base, value.clone(), Tree::Empty)
            },
            Tree::Deep(deep) => {
                let inner = deep.get();
                let ghost l = flatten(inner.left@, d);
                let ghost s = inner.spine.elems(d + 1);
                let ghost r = flatten(inner.right@, d);
                let ghost none = Seq::<V>::empty();
                proof {
                    self.lemma_descent(base, d);
                }
                // left
                let left_measure = base.join(&inner.left.measure());
                if pred(&left_measure) {
                    let (before, x, after) = inner.left.split(&base, pred);
                    let ghost i = before@.len() as int;
                    let ghost le = none + flatten(before@, d);
                    proof {
                        lemma_parts_wf(inner.left@, i, d);
                        lemma_scan_join_nodes(base, none, before@, d);
                    }
                    let m = base.join(&measure_slice(before));
                    let rt = Self::deep_left(after, &inner.spine, &inner.right, Ghost(d));
                    proof {
                        lemma_split_case(
                            *pred,
                            base,
                            none,
                            inner.left@,
                            s + r,
                            i,
                            d,
                            self.elems(d),
                            l,
                            le,
                            x.elems(d),
                            rt.elems(d),
                        );
                        lemma_cut_left(
                            self.nodes(),
                            inner.left@,
                            children_of(inner.spine.nodes()),
                            inner.right@,
                            i,
                            before@,
                            *x,
                            rt.nodes(),
                        );
                        assert(le =~= flatten(before@, d));
                    }
                    return (m, x.clone(), rt);
                }
                // spine
                let spine_measure = left_measure.join(&inner.spine.measure());
                if pred(&spine_measure) {
                    proof {
                        if inner.spine is Empty {
                            V::Measure::lemma_unit_right(left_measure);
                        }
                    }
                    let shared = left_measure.clone();
                    proof {
                        V::lemma_measure_clone(left_measure, shared);
                    }
                    let (start, sx, sr) = inner.spine.split_right(shared, pred, Ghost(d + 1));
                    let ghost sxe = sx.elems(d + 1);
                    let ghost sre = sr.elems(d + 1);
                    let ghost sle = s.take(s.len() - sxe.len() - sre.len());
                    let digit = Digit::from_node(&sx);
                    proof {
                        Self::lemma_into_spine(*pred, base, l, s, sle, sxe, sre);
                        lemma_scan_concat(base, l, sle);
                        sx.lemma_children(d);
                    }
                    let (before, x, after) = digit.split(&start, pred);
                    let ghost i = before@.len() as int;
                    let ghost le = l + sle + flatten(before@, d);
                    proof {
                        lemma_parts_wf(digit@, i, d);
                        lemma_scan_join_nodes(base, l + sle, before@, d);
                    }
                    let m = start.join(&measure_slice(before));
                    let rt = Self::deep_left(after, &sr, &inner.right, Ghost(d));
                    proof {
                        lemma_split_case(
                            *pred,
                            base,
                            l + sle,
                            digit@,
                            sre + r,
                            i,
                            d,
                            self.elems(d),
                            l + sle + sxe,
                            le,
                            x.elems(d),
                            rt.elems(d),
                        );
                        let sn = inner.spine.nodes();
                        let sln = sn.take(sn.len() - 1 - sr.nodes().len());
                        let ln = inner.left@ + children_of(sln) + before@;
                        inner.spine.lemma_nodes(d + 1);
                        sr.lemma_nodes(d + 1);
                        lemma_flatten_around(sln, sx, sr.nodes(), d + 1);
                        lemma_same_front(flatten(sln, d + 1), sle, sxe, sre, s);
                        lemma_children_of_flatten(sln, d);
                        lemma_flatten_three(inner.left@, children_of(sln), before@, d);
                        lemma_cut_spine(
                            self.nodes(),
                            inner.left@,
                            sn,
                            inner.right@,
                            sln,
                            sx,
                            sr.nodes(),
                            i,
                            ln,
                            *x,
                            rt.nodes(),
                        );
                    }
                    return (m, x.clone(), rt);
                }
                // right
                let (before, x, after) = inner.right.split(&spine_measure, pred);
                let ghost i = before@.len() as int;
                let ghost le = l + s + flatten(before@, d);
                proof {
                    lemma_parts_wf(inner.right@, i, d);
                    lemma_scan_join_nodes(base, l + s, before@, d);
                }
                let m = spine_measure.join(&measure_slice(before));
                let rt = Self::from_slice(after, Ghost(d));
                proof {
                    lemma_split_case(
                        *pred,
                        base,
                        l + s,
                        inner.right@,
                        none,
                        i,
                        d,
                        self.elems(d),
                        l + s + r,
                        le,
                        x.elems(d),
                        rt.elems(d),
                    );
                    let below = children_of(inner.spine.nodes());
                    inner.spine.lemma_nodes(d + 1);
                    lemma_children_of_flatten(inner.spine.nodes(), d);
                    lemma_flatten_three(inner.left@, below, before@, d);
                    lemma_cut_right(
                        self.nodes(),
                        inner.left@,
                        below,
                        inner.right@,
                        i,
                        inner.left@ + below + before@,
                        *x,
                        rt.nodes(),
                    );
                }
                (m, x.clone(), rt)
            },
        }
    }

    /// Finds the value at which `pred` turns true along a scan of the values
    /// of a tree that is not empty, from `base`; the last value, where it
    /// turns true at none.
    pub fn find<F>(&self, base: V::Measure, pred: &F, Ghost(d): Ghost<nat>) -> (r: &V) where
        F: Fn(&V::Measure) -> bool,

        requires
            self.wf(d),
            !(self is Empty),
            total(*pred),
            functional(*pred),
        ensures
            exists|i: int| ends_at(*pred, base, self.elems(d), i) && *r == self.elems(d)[i],
        decreases self.height(),
    {
        match self {
            Tree::Empty => unreached(),
            Tree::Single(value) => {
                let found = value.find(base, pred, Ghost(d));
                proof {
                    let e = value.elems(d);
                    let i = choose|i: int| ends_at(*pred, base, e, i) && *found == e[i];
                    assert(ends_at(*pred, base, self.elems(d), i) && *found == self.elems(d)[i]);
                }
                found
            },
            Tree::Deep(deep) => {
                let inner = deep.get();
                let ghost l = flatten(inner.left@, d);
                let ghost s = inner.spine.elems(d + 1);
                let ghost r = flatten(inner.right@, d);
                let ghost none = Seq::<V>::empty();
                let ghost start = base;
                proof {
                    self.lemma_descent(base, d);
                    inner.right.lemma_len();
                    inner.right@[0].lemma_nonempty(d);
                    assert(inner.right@ =~= seq![inner.right@[0]] + inner.right@.skip(1));
                    lemma_flatten_concat(seq![inner.right@[0]], inner.right@.skip(1), d);
                    lemma_flatten_few(seq![inner.right@[0]], d);
                }
                // left
                let left_measure = base.join(&inner.left.measure());
                if pred(&left_measure) {
                    let (measure, node) = inner.left.find(base, pred);
                    let ghost i = choose|i: int|
                        stops_at(*pred, start, inner.left@, i) && measure == scan(
                            start,
                            inner.left@.take(i),
                        ) && *node == inner.left@[i];
                    let ghost le = none + flatten(inner.left@.take(i), d);
                    proof {
                        lemma_find_case(*pred, start, none, inner.left@, i, d, l);
                    }
                    let found = node.find(measure, pred, Ghost(d));
                    proof {
                        let xe = node.elems(d);
                        let j = choose|j: int| ends_at(*pred, measure, xe, j) && *found == xe[j];
                        lemma_ends_within(
                            *pred,
                            start,
                            le,
                            xe,
                            flatten(inner.left@.skip(i + 1), d) + s + r,
                            self.elems(d),
                            j,
                        );
                    }
                    return found;
                }
                // spine
                let spine_measure = left_measure.join(&inner.spine.measure());
                if pred(&spine_measure) {
                    proof {
                        if inner.spine is Empty {
                            V::Measure::lemma_unit_right(left_measure);
                        }
                        lemma_scan_concat(start, l, s);
                    }
                    let found = inner.spine.find(left_measure, pred, Ghost(d + 1));
                    proof {
                        let j = choose|j: int|
                            ends_at(*pred, left_measure, s, j) && *found == s[j];
                        lemma_ends_within(*pred, start, l, s, r, self.elems(d), j);
                    }
                    return found;
                }
                // right
                let (measure, node) = inner.right.find(spine_measure, pred);
                let ghost i = choose|i: int|
                    stops_at(*pred, spine_measure, inner.right@, i) && measure == scan(
                        spine_measure,
                        inner.right@.take(i),
                    ) && *node == inner.right@[i];
                let ghost le = l + s + flatten(inner.right@.take(i), d);
                proof {
                    lemma_find_case(*pred, start, l + s, inner.right@, i, d, l + s + r);
                }
                let found = node.find(measure, pred, Ghost(d));
                proof {
                    let xe = node.elems(d);
                    let j = choose|j: int| ends_at(*pred, measure, xe, j) && *found == xe[j];
                    lemma_ends_within(
                        *pred,
                        start,
                        le,
                        xe,
                        flatten(inner.right@.skip(i + 1), d),
                        self.elems(d),
                        j,
                    );
                    assert(ends_at(*pred, base, self.elems(d), le.len() + j) && *found
                        == self.elems(d)[le.len() + j]);
                }
                found
            },
        }
    }

    /// The tree with the nodes of `nodes` added, in their order, at its
    /// left end.
    pub fn push_left_many(self, nodes: &[Node<N>], Ghost(d): Ghost<nat>) -> (r: Self)
        requires
            self.wf(d),
            all_wf(nodes@, d),
        ensures
            r.wf(d),
            r.elems(d) == flatten(nodes@, d) + self.elems(d),
            r.nodes() == nodes@ + self.nodes(),
            r is Empty <==> self is Empty && nodes@.len() == 0,
            nodes@.len() == 0 ==> r == self,
    {
        let n = nodes.len();
        let mut tree = self;
        let mut i: usize = n;
        proof {
            assert(nodes@.skip(n as int) =~= Seq::<Node<N>>::empty());
            assert(flatten(nodes@.skip(n as int), d) + self.elems(d) =~= self.elems(d));
            assert(nodes@.skip(n as int) + self.nodes() =~= self.nodes());
        }
        while i > 0
            invariant
                i <= n,
                n == nodes@.len(),
                all_wf(nodes@, d),
                tree.wf(d),
                tree.elems(d) == flatten(nodes@.skip(i as int), d) + self.elems(d),
                tree.nodes() == nodes@.skip(i as int) + self.nodes(),
                tree is Empty <==> self is Empty && i == n,
                i == n ==> tree == self,
            decreases i,
        {
            i -= 1;
            proof {
                let rest = nodes@.skip(i + 1);
                assert(nodes@.skip(i as int) =~= seq![nodes@[i as int]] + rest);
                lemma_flatten_concat(seq![nodes@[i as int]], rest, d);
                lemma_flatten_few(seq![nodes@[i as int]], d);
                assert(nodes@[i as int].elems(d) + (flatten(rest, d) + self.elems(d)) =~= flatten(
                    nodes@.skip(i as int),
                    d,
                ) + self.elems(d));
                assert(seq![nodes@[i as int]] + (rest + self.nodes()) =~= nodes@.skip(i as int)
                    + self.nodes());
                tree.lemma_pushed_not_empty();
            }
            tree = tree.push_left(nodes[i].clone(), Ghost(d));
        }
        assert(nodes@.skip(0) =~= nodes@);
        tree
    }

    /// The tree with the nodes of `nodes` added, in their order, at its
    /// right end.
    pub fn push_right_many(self, nodes: &[Node<N>], Ghost(d): Ghost<nat>) -> (r: Self)
        requires
            self.wf(d),
            all_wf(nodes@, d),
        ensures
            r.wf(d),
            r.elems(d) == self.elems(d) + flatten(nodes@, d),
            r.nodes() == self.nodes() + nodes@,
            r is Empty <==> self is Empty && nodes@.len() == 0,
            nodes@.len() == 0 ==> r == self,
    {
        let n = nodes.len();
        let mut tree = self;
        let mut i: usize = 0;
        proof {
            assert(nodes@.take(0) =~= Seq::<Node<N>>::empty());
            assert(self.elems(d) + flatten(nodes@.take(0), d) =~= self.elems(d));
            assert(self.nodes() + nodes@.take(0) =~= self.nodes());
        }
        while i < n
            invariant
                i <= n,
                n == nodes@.len(),
                all_wf(nodes@, d),
                tree.wf(d),
                tree.elems(d) == self.elems(d) + flatten(nodes@.take(i as int), d),
                tree.nodes() == self.nodes() + nodes@.take(i as int),
                tree is Empty <==> self is Empty && i == 0,
                i == 0 ==> tree == self,
            decreases n - i,
        {
            proof {
                assert(nodes@.take(i + 1).drop_last() =~= nodes@.take(i as int));
                assert(self.elems(d) + flatten(nodes@.take(i as int), d) + nodes@[i as int].elems(d)
                    =~= self.elems(d) + flatten(nodes@.take(i + 1), d));
                assert(self.nodes() + nodes@.take(i as int) + seq![nodes@[i as int]]
                    =~= self.nodes() + nodes@.take(i + 1));
                tree.lemma_pushed_not_empty();
            }
            tree = tree.push_right(nodes[i].clone(), Ghost(d));
            i += 1;
        }
        assert(nodes@.take(n as int) =~= nodes@);
        tree
    }

    /// A tree with a node pushed to it is not empty.
    pub proof fn lemma_pushed_not_empty(&self)
        ensures
            forall|value: Node<N>, new: Tree<N, T>| #[trigger]
                self.pushed_left(value, new) ==> !(new is Empty),
            forall|value: Node<N>, new: Tree<N, T>| #[trigger]
                self.pushed_right(value, new) ==> !(new is Empty),
    {
    }

    /// What [`concat`](Self::concat) makes of two deep trees: a deep tree
    /// with the left digit of `left` and the right digit of `right`, whose
    /// spine holds the nodes of the spine of `left`, then nodes that group the
    /// right digit of `left`, `mid` and the left digit of `right`, then the
    /// nodes of the spine of `right`.
    pub open spec fn joined(
        left: TreeInner<N, T, V>,
        mid: Seq<Node<N>>,
        right: TreeInner<N, T, V>,
        new: Tree<N, T>,
        d: nat,
    ) -> bool {
        new matches Tree::Deep(deep) && {
            let inner = deep.target();
            &&& inner.left@ == left.left@
            &&& inner.right@ == right.right@
            &&& exists|between: Seq<Node<N>>|
                {
                    &&& #[trigger] targets(between) == lifted(left.right@ + mid + right.left@)
                    &&& inner.spine.nodes() == left.spine.nodes() + between + right.spine.nodes()
                    &&& inner.spine.elems(d + 1) == left.spine.elems(d + 1) + flatten(
                        between,
                        d + 1,
                    ) + right.spine.elems(d + 1)
                }
        }
    }

    /// The tree of the values of `left`, then those of the nodes `mid`, then
    /// those of `right`.
    ///
    /// Onto an empty tree or a single one, the nodes of the other tree and of
    /// `mid` are pushed. Between two deep trees, the right digit of `left`,
    /// `mid` and the left digit of `right` are grouped into nodes one level
    /// deeper, which go between the two spines.
    #[verifier::rlimit(50)]
    pub fn concat(left: &Self, mid: &[Node<N>], right: &Self, Ghost(d): Ghost<nat>) -> (r: Self)
        requires
            left.wf(d),
            right.wf(d),
            all_wf(mid@, d),
        ensures
            r.wf(d),
            r.elems(d) == left.elems(d) + flatten(mid@, d) + right.elems(d),
            r.nodes() == left.nodes() + mid@ + right.nodes(),
            left matches Tree::Deep(a) ==> (right matches Tree::Deep(b) ==> Self::joined(
                a.target(),
                mid@,
                b.target(),
                r,
                d,
            )),
        decreases left.height(),
    {
        let ghost m = flatten(mid@, d);
        let ghost none = Seq::<Node<N>>::empty();
        proof {
            left.lemma_nodes_unfold(d);
            right.lemma_nodes_unfold(d);
        }
        match left {
            Tree::Empty => {
                assert(left.elems(d) + m + right.elems(d) =~= m + right.elems(d));
                assert(left.nodes() + mid@ + right.nodes() =~= mid@ + right.nodes());
                return right.clone().push_left_many(mid, Ghost(d));
            },
            Tree::Single(node) => {
                if let Tree::Empty = right {
                    assert(left.elems(d) + m + right.elems(d) =~= left.elems(d) + m);
                    assert(left.nodes() + mid@ + right.nodes() =~= left.nodes() + mid@);
                    return left.clone().push_right_many(mid, Ghost(d));
                }
                assert(node.elems(d) + (m + right.elems(d)) =~= left.elems(d) + m + right.elems(d));
                assert(seq![*node] + (mid@ + right.nodes()) =~= left.nodes() + mid@
                    + right.nodes());
                return right.clone().push_left_many(mid, Ghost(d)).push_left(
                    node.clone(),
                    Ghost(d),
                );
            },
            Tree::Deep(deep0) => {
                match right {
                    Tree::Empty => {
                        assert(left.elems(d) + m + right.elems(d) =~= left.elems(d) + m);
                        assert(left.nodes() + mid@ + right.nodes() =~= left.nodes() + mid@);
                        left.clone().push_right_many(mid, Ghost(d))
                    },
                    Tree::Single(node) => {
                        assert(left.nodes() + mid@ + seq![*node] =~= left.nodes() + mid@
                            + right.nodes());
                        left.clone().push_right_many(mid, Ghost(d)).push_right(
                            node.clone(),
                            Ghost(d),
                        )
                    },
                    Tree::Deep(deep1) => {
                        let inner0 = deep0.get();
                        let inner1 = deep1.get();
                        let mut all: Vec<Node<N>> = Vec::new();
                        Self::collect(&mut all, inner0.right.as_slice());
                        Self::collect(&mut all, mid);
                        Self::collect(&mut all, inner1.left.as_slice());
                        let grouped = Node::lift(all.as_slice());
                        proof {
                            assert(all@ =~= inner0.right@ + mid@ + inner1.left@);
                            lemma_flatten_concat(inner0.right@, mid@, d);
                            lemma_flatten_concat(inner0.right@ + mid@, inner1.left@, d);
                            lemma_lifted(grouped@, all@, d);
                            lemma_lifted_children(grouped@, all@);
                        }
                        let spine = Self::concat(
                            &inner0.spine,
                            grouped.as_slice(),
                            &inner1.spine,
                            Ghost(d + 1),
                        );
                        let first = inner0.left.clone();
                        let last = inner1.right.clone();
                        proof {
                            lemma_cloned_nodes(inner0.left@, first@);
                            lemma_cloned_nodes(inner1.right@, last@);
                            let l0 = flatten(inner0.left@, d);
                            let s0 = inner0.spine.elems(d + 1);
                            let r0 = flatten(inner0.right@, d);
                            let l1 = flatten(inner1.left@, d);
                            let s1 = inner1.spine.elems(d + 1);
                            let r1 = flatten(inner1.right@, d);
                            assert(l0 + (s0 + (r0 + m + l1) + s1) + r1 =~= (l0 + s0 + r0) + m + (l1
                                + s1 + r1));
                            let n0 = inner0.spine.nodes();
                            let n1 = inner1.spine.nodes();
                            lemma_children_of_concat(n0, grouped@);
                            lemma_children_of_concat(n0 + grouped@, n1);
                            assert(first@ + (children_of(n0) + all@ + children_of(n1)) + last@
                                =~= left.nodes() + mid@ + right.nodes());
                        }
                        let r = Self::deep(first, spine, last, Ghost(d));
                        proof {
                            assert(targets(grouped@) == lifted(
                                inner0.right@ + mid@ + inner1.left@,
                            ));
                            assert(Self::joined(*inner0, mid@, *inner1, r, d));
                        }
                        r
                    },
                }
            },
        }
    }

    /// Appends clones of the nodes of `nodes` to `all`.
    fn collect(all: &mut Vec<Node<N>>, nodes: &[Node<N>])
        ensures
            final(all)@ == old(all)@ + nodes@,
    {
        let mut i: usize = 0;
        assert(nodes@.take(0) =~= Seq::<Node<N>>::empty());
        assert(all@ + nodes@.take(0) =~= all@);
        while i < nodes.len()
            invariant
                i <= nodes.len(),
                all@ == old(all)@ + nodes@.take(i as int),
            decreases nodes.len() - i,
        {
            proof {
                assert(old(all)@ + nodes@.take(i as int) + seq![nodes@[i as int]] =~= old(all)@
                    + nodes@.take(i + 1));
            }
            all.push(nodes[i].clone());
            i += 1;
        }
        assert(nodes@.take(i as int) =~= nodes@);
    }

    /// Appends to `out` references to the values of the nodes of `nodes`,
    /// from left to right.
    fn values_of<'a>(nodes: &'a [Node<N>], out: &mut Vec<&'a V>, Ghost(d): Ghost<nat>)
        requires
            all_wf(nodes@, d),
        ensures
            final(out)@.len() == old(out)@.len() + flatten(nodes@, d).len(),
            forall|i: int| 0 <= i < old(out)@.len() ==> final(out)@[i] == old(out)@[i],
            forall|i: int|
                0 <= i < flatten(nodes@, d).len() ==> *final(out)@[old(out)@.len() + i]
                    == flatten(nodes@, d)[i],
    {
        let mut k: usize = 0;
        assert(nodes@.take(0) =~= Seq::<Node<N>>::empty());
        while k < nodes.len()
            invariant
                k <= nodes.len(),
                all_wf(nodes@, d),
                out@.len() == old(out)@.len() + flatten(nodes@.take(k as int), d).len(),
                forall|i: int| 0 <= i < old(out)@.len() ==> out@[i] == old(out)@[i],
                forall|i: int|
                    0 <= i < flatten(nodes@.take(k as int), d).len() ==> *out@[old(out)@.len() + i]
                        == flatten(nodes@.take(k as int), d)[i],
            decreases nodes.len() - k,
        {
            proof {
                assert(nodes@.take(k + 1).drop_last() =~= nodes@.take(k as int));
            }
            nodes[k].values(out, Ghost(d));
            k += 1;
        }
        assert(nodes@.take(k as int) =~= nodes@);
    }

    /// Appends to `out` references to the values of the tree, from left to
    /// right.
    pub fn values<'a>(&'a self, out: &mut Vec<&'a V>, Ghost(d): Ghost<nat>)
        requires
            self.wf(d),
        ensures
            final(out)@.len() == old(out)@.len() + self.elems(d).len(),
            forall|i: int| 0 <= i < old(out)@.len() ==> final(out)@[i] == old(out)@[i],
            forall|i: int|
                0 <= i < self.elems(d).len() ==> *final(out)@[old(out)@.len() + i]
                    == self.elems(d)[i],
        decreases self.height(),
    {
        match self {
            Tree::Empty => {},
            Tree::Single(node) => {
                node.values(out, Ghost(d));
            },
            Tree::Deep(deep) => {
                let inner = deep.get();
                Self::values_of(inner.left.as_slice(), out, Ghost(d));
                inner.spine.values(out, Ghost(d + 1));
                Self::values_of(inner.right.as_slice(), out, Ghost(d));
            },
        }
    }
}

/// What cutting a level at a node says of its nodes: `left` before the node
/// `x` and `right` after it make up `whole`, and `x` stands in `whole` where
/// `left` ends.
pub open spec fn cut_at<A>(whole: Seq<A>, left: Seq<A>, x: A, right: Seq<A>) -> bool {
    &&& left + seq![x] + right == whole
    &&& (left + seq![x]).is_prefix_of(whole)
    &&& whole.len() - 1 - right.len() == left.len()
    &&& whole[left.len() as int] == x
    &&& whole.take(left.len() as int) == left
    &&& whole.skip(left.len() + 1 as int) == right
}

/// The parts of a sequence around one of its places make it up.
pub proof fn lemma_cut_at<A>(whole: Seq<A>, left: Seq<A>, x: A, right: Seq<A>)
    requires
        whole =~= left + seq![x] + right,
    ensures
        cut_at(whole, left, x, right),
{
    assert(left + seq![x] =~= whole.subrange(0, left.len() + 1 as int));
    assert(whole.take(left.len() as int) =~= left);
    assert(whole.skip(left.len() + 1 as int) =~= right);
}

/// A level cut at the place `i` of its left digit.
pub proof fn lemma_cut_left<N, V>(
    whole: Seq<Node<N>>,
    digit: Seq<Node<N>>,
    below: Seq<Node<N>>,
    last: Seq<Node<N>>,
    i: int,
    left: Seq<Node<N>>,
    x: Node<N>,
    right: Seq<Node<N>>,
) where N: Ref<Target = NodeInner<N, V>>, V: Measured
    requires
        whole == digit + below + last,
        0 <= i < digit.len(),
        left == digit.take(i),
        x == digit[i],
        right == digit.skip(i + 1) + below + last,
    ensures
        cut_at(whole, left, x, right),
{
    lemma_cut_at(whole, left, x, right);
}

/// A level cut at the place `i` of its right digit.
pub proof fn lemma_cut_right<N, V>(
    whole: Seq<Node<N>>,
    first: Seq<Node<N>>,
    below: Seq<Node<N>>,
    digit: Seq<Node<N>>,
    i: int,
    left: Seq<Node<N>>,
    x: Node<N>,
    right: Seq<Node<N>>,
) where N: Ref<Target = NodeInner<N, V>>, V: Measured
    requires
        whole == first + below + digit,
        0 <= i < digit.len(),
        left == first + below + digit.take(i),
        x == digit[i],
        right == digit.skip(i + 1),
    ensures
        cut_at(whole, left, x, right),
{
    lemma_cut_at(whole, left, x, right);
}

/// A level cut at the place `i` among the children of the node `sx` of its
/// spine, which is itself cut at `sx`.
pub proof fn lemma_cut_spine<N, V>(
    whole: Seq<Node<N>>,
    first: Seq<Node<N>>,
    spine: Seq<Node<N>>,
    last: Seq<Node<N>>,
    sl: Seq<Node<N>>,
    sx: Node<N>,
    sr: Seq<Node<N>>,
    i: int,
    left: Seq<Node<N>>,
    x: Node<N>,
    right: Seq<Node<N>>,
) where N: Ref<Target = NodeInner<N, V>>, V: Measured
    requires
        whole == first + children_of(spine) + last,
        spine == sl + seq![sx] + sr,
        0 <= i < sx.children().len(),
        left == first + children_of(sl) + sx.children().take(i),
        x == sx.children()[i],
        right == sx.children().skip(i + 1) + children_of(sr) + last,
    ensures
        cut_at(whole, left, x, right),
{
    lemma_children_of_around(sl, sx, sr);
    lemma_cut_at(whole, left, x, right);
}

/// `pred` is monotonic along a scan of the values of the nodes `n` from
/// `base`, as far as the ends of the nodes go: once it holds where one node
/// ends, it holds where every later node ends.
pub open spec fn monotonic_over<N, V, F>(
    pred: F,
    base: V::Measure,
    n: Seq<Node<N>>,
    d: nat,
) -> bool where N: Ref<Target = NodeInner<N, V>>, V: Measured, F: Fn(&V::Measure) -> bool {
    forall|i: int, j: int|
        0 <= i <= j <= n.len() && answers(pred, #[trigger] scan(base, flatten(n.take(i), d)), true)
            ==> !answers(pred, #[trigger] scan(base, flatten(n.take(j), d)), false)
}

/// The three splits agree: for a predicate that is monotonic over the nodes
/// of a tree and holds of the whole scan, what
/// [`split_left`](Tree::split_left) and [`split_right`](Tree::split_right)
/// return is what [`split`](Tree::split) returns, part by part.
pub proof fn lemma_splits_agree<N, T, V, F>(
    tree: Tree<N, T>,
    base: V::Measure,
    pred: F,
    d: nat,
    whole: (Tree<N, T>, Node<N>, Tree<N, T>),
    left: (Tree<N, T>, Node<N>),
    right: (V::Measure, Node<N>, Tree<N, T>),
) where
    N: Ref<Target = NodeInner<N, V>>,
    T: Ref<Target = TreeInner<N, T, V>>,
    V: Measured,
    F: Fn(&V::Measure) -> bool,

    requires
        tree.wf(d),
        monotonic_over(pred, base, tree.nodes(), d),
        answers(pred, scan(base, tree.elems(d)), true),
        tree.is_split(base, pred, d, whole),
        tree.is_split_left(base, pred, d, left),
        tree.is_split_right(base, pred, d, right),
    ensures
        left.0.nodes() == whole.0.nodes(),
        left.1 == whole.1,
        right.0 == scan(base, whole.0.elems(d)),
        right.1 == whole.1,
        right.2.nodes() == whole.2.nodes(),
{
    let n = tree.nodes();
    let a = whole.0.nodes().len() as int;
    let b = left.0.nodes().len() as int;
    let c = n.len() - 1 - right.2.nodes().len();
    tree.lemma_nodes(d);
    whole.0.lemma_nodes(d);
    left.0.lemma_nodes(d);
    right.2.lemma_nodes(d);
    assert(left.0.nodes() + seq![left.1] =~= n.take(b + 1));
    assert(left.0.nodes() =~= n.take(b)) by {
        assert forall|i: int| 0 <= i < b implies n[i] == left.0.nodes()[i] by {
            assert((left.0.nodes() + seq![left.1])[i] == left.0.nodes()[i]);
        }
    }
    assert(n[b] == left.1) by {
        assert((left.0.nodes() + seq![left.1])[b] == left.1);
    }
    // the values before the node that `split_right` returns
    let e = tree.elems(d);
    let before = e.take(e.len() - right.1.elems(d).len() - right.2.elems(d).len());
    assert(before == flatten(n.take(c), d)) by {
        lemma_flatten_around(n.take(c), right.1, right.2.nodes(), d);
        lemma_same_front(
            flatten(n.take(c), d),
            before,
            right.1.elems(d),
            right.2.elems(d),
            e,
        );
    }
    // where each split says that `pred` holds and does not hold
    assert(flatten(n.take(a + 1), d) == whole.0.elems(d) + whole.1.elems(d)) by {
        assert(n.take(a + 1) =~= n.take(a) + seq![n[a]]);
        lemma_flatten_concat(n.take(a), seq![n[a]], d);
        lemma_flatten_few(seq![n[a]], d);
    }
    assert(flatten(n.take(b + 1), d) == left.0.elems(d) + left.1.elems(d)) by {
        assert(n.take(b + 1) =~= n.take(b) + seq![n[b]]);
        lemma_flatten_concat(n.take(b), seq![n[b]], d);
        lemma_flatten_few(seq![n[b]], d);
    }
    assert(flatten(n.take(c + 1), d) == before + right.1.elems(d)) by {
        assert(n.take(c + 1) =~= n.take(c) + seq![n[c]]);
        lemma_flatten_concat(n.take(c), seq![n[c]], d);
        lemma_flatten_few(seq![n[c]], d);
    }
    lemma_front_values(n, a, d);
    lemma_front_values(n, b, d);
    lemma_front_values(n, c, d);
    assert(b == a) by {
        if b < a {
            assert(!answers(pred, scan(base, flatten(n.take(a), d)), false));
        }
        if a < b {
            assert(!answers(pred, scan(base, flatten(n.take(b), d)), false));
        }
    }
    assert(c == a) by {
        if c < a {
            assert(!answers(pred, scan(base, flatten(n.take(a), d)), false));
        }
        if a < c {
            assert(!answers(pred, scan(base, flatten(n.take(c), d)), false));
        }
    }
}

/// Some well-formed nodes hold some value.
pub proof fn lemma_front_values<N, V>(n: Seq<Node<N>>, k: int, d: nat) where
    N: Ref<Target = NodeInner<N, V>>,
    V: Measured,

    requires
        all_wf(n, d),
        0 <= k <= n.len(),
    ensures
        k > 0 ==> flatten(n.take(k), d).len() > 0,
{
    if k > 0 {
        let front = n.take(k);
        assert(front =~= seq![front[0]] + front.skip(1));
        lemma_flatten_concat(seq![front[0]], front.skip(1), d);
        lemma_flatten_few(seq![front[0]], d);
        assert(front[0] == n[0]);
        n[0].lemma_nonempty(d);
    }
}

/// How many of `n` nodes, at least two, go into the left digit of a tree that
/// is built from them at once.
pub open spec fn left_share(n: nat) -> nat {
    if n == 2 {
        1
    } else if n <= 4 {
        2
    } else if n <= 6 {
        3
    } else {
        4
    }
}

/// How many of `n` nodes, at least two, go into the right digit of a tree
/// that is built from them at once.
pub open spec fn right_share(n: nat) -> nat {
    if n <= 3 {
        1
    } else if n <= 5 {
        2
    } else if n <= 7 || n == 9 {
        3
    } else {
        4
    }
}

/// The values of nodes that are cut into three runs are those of the first
/// run, then those of the second, then those of the third.
pub proof fn lemma_flatten_cut<N, V>(s: Seq<Node<N>>, a: int, b: int, d: nat) where
    N: Ref<Target = NodeInner<N, V>>,
    V: Measured,

    requires
        0 <= a <= b <= s.len(),
        all_wf(s, d),
    ensures
        flatten(s, d) == flatten(s.subrange(0, a), d) + flatten(s.subrange(a, b), d) + flatten(
            s.subrange(b, s.len() as int),
            d,
        ),
        all_wf(s.subrange(0, a), d),
        all_wf(s.subrange(a, b), d),
        all_wf(s.subrange(b, s.len() as int), d),
{
    let x = s.subrange(0, a);
    let y = s.subrange(a, b);
    let z = s.subrange(b, s.len() as int);
    assert(s =~= x + y + z);
    lemma_flatten_concat(x, y, d);
    lemma_flatten_concat(x + y, z, d);
}

/// Builds at once the tree of the nodes of a slice, in order: the nodes at
/// either end go into the digits, as [`left_share`] and [`right_share`]
/// say, and those between them are grouped into nodes one level deeper, of
/// which the spine is built in the same way.
pub fn build<N, T, V>(nodes: &[Node<N>], Ghost(d): Ghost<nat>) -> (r: Tree<N, T>) where
    N: Ref<Target = NodeInner<N, V>>,
    T: Ref<Target = TreeInner<N, T, V>>,
    V: Measured,

    requires
        all_wf(nodes@, d),
    ensures
        r.wf(d),
        r.elems(d) == flatten(nodes@, d),
        r.nodes() == nodes@,
        nodes@.len() == 0 <==> r is Empty,
        nodes@.len() == 1 <==> r is Single,
        nodes@.len() == 1 ==> r == Tree::<N, T>::Single(nodes@[0]),
        r matches Tree::Deep(deep) ==> {
            &&& deep.target().left@ == nodes@.take(left_share(nodes@.len()) as int)
            &&& deep.target().right@ == nodes@.skip(
                nodes@.len() - right_share(nodes@.len()),
            )
        },
    decreases nodes@.len(),
{
    let n = nodes.len();
    if n == 0 {
        proof {
            Tree::<N, T>::Empty.lemma_nodes_unfold(d);
            assert(nodes@ =~= Seq::<Node<N>>::empty());
        }
        return Tree::Empty;
    }
    if n == 1 {
        let r = Tree::Single(nodes[0].clone());
        proof {
            lemma_flatten_few(nodes@, d);
            r.lemma_nodes_unfold(d);
            assert(nodes@ =~= seq![nodes@[0]]);
        }
        return r;
    }
    let start: usize = if n == 2 {
        1
    } else if n <= 4 {
        2
    } else if n <= 6 {
        3
    } else {
        4
    };
    let end: usize = if n <= 3 {
        n - 1
    } else if n <= 5 {
        n - 2
    } else if n <= 7 || n == 9 {
        n - 3
    } else {
        n - 4
    };
    proof {
        lemma_flatten_cut(nodes@, start as int, end as int, d);
    }
    let left = Digit::from_slice(slice_subrange(nodes, 0, start));
    let right = Digit::from_slice(slice_subrange(nodes, end, n));
    let lifted = Node::lift(slice_subrange(nodes, start, end));
    proof {
        lemma_cloned_nodes(nodes@.subrange(0, start as int), left@);
        lemma_cloned_nodes(nodes@.subrange(end as int, n as int), right@);
        lemma_lifted(lifted@, nodes@.subrange(start as int, end as int), d);
        assert(nodes@.subrange(0, start as int) =~= nodes@.take(start as int));
        assert(nodes@.subrange(end as int, n as int) =~= nodes@.skip(end as int));
        if start == end {
            assert(lifted@.len() == targets(lifted@).len());
        }
        lemma_lifted_children(lifted@, nodes@.subrange(start as int, end as int));
        assert(nodes@ =~= nodes@.subrange(0, start as int) + nodes@.subrange(
            start as int,
            end as int,
        ) + nodes@.subrange(end as int, n as int));
    }
    let spine = build(lifted.as_slice(), Ghost(d + 1));
    Tree::deep(left, spine, right, Ghost(d))
}

} // verus!
