//! [`Iter`]: a walk through the values of a tree from both ends.
use crate::digit::cloned_seq;
use crate::measure::Measured;
use crate::node::{all_wf, flatten, lemma_flatten_concat, lemma_flatten_few, Node, NodeInner};
use crate::reference::{Ref, Refs};
use crate::tree::{Tree, TreeInner};
use crate::FingerTree;
use std::collections::VecDeque;
use vstd::prelude::*;

verus! {

/// A part of a tree that an [`Iter`] has still to walk through: a node, or a
/// level of the tree, with the depth of the nodes at that level.
pub enum IterFrame<N, T> {
    Node(Node<N>, Ghost<nat>),
    Tree(Tree<N, T>, Ghost<nat>),
}

/// The number of nodes in a node of depth `d`, itself included.
pub open spec fn node_weight<N, V>(node: Node<N>, d: nat) -> nat where
    N: Ref<Target = NodeInner<N, V>>,
    V: Measured,

    decreases d,
{
    match node.inner.target() {
        NodeInner::Leaf(_) => 1,
        NodeInner::Node2 { left, right, .. } => {
            if d == 0 {
                1
            } else {
                1 + node_weight(left, (d - 1) as nat) + node_weight(right, (d - 1) as nat)
            }
        },
        NodeInner::Node3 { left, middle, right, .. } => {
            if d == 0 {
                1
            } else {
                1 + node_weight(left, (d - 1) as nat) + node_weight(middle, (d - 1) as nat)
                    + node_weight(right, (d - 1) as nat)
            }
        },
    }
}

/// The number of nodes in the nodes of `s`, all of depth `d`.
pub open spec fn nodes_weight<N, V>(s: Seq<Node<N>>, d: nat) -> nat where
    N: Ref<Target = NodeInner<N, V>>,
    V: Measured,

    decreases s.len(),
{
    if s.len() == 0 {
        0
    } else {
        nodes_weight(s.drop_last(), d) + node_weight(s.last(), d)
    }
}

/// The number of nodes and levels in a level that holds nodes of depth `d`,
/// itself included.
pub open spec fn tree_weight<N, T, V>(tree: Tree<N, T>, d: nat) -> nat where
    N: Ref<Target = NodeInner<N, V>>,
    T: Ref<Target = TreeInner<N, T, V>>,
    V: Measured,

    decreases tree.height(),
{
    match tree {
        Tree::Empty => 1,
        Tree::Single(node) => 1 + node_weight(node, d),
        Tree::Deep(deep) => {
            let inner = deep.target();
            if inner.spine.height() < inner.height@ {
                1 + nodes_weight(inner.left@, d) + tree_weight(inner.spine, d + 1) + nodes_weight(
                    inner.right@,
                    d,
                )
            } else {
                1
            }
        },
    }
}

impl<N, T, V> IterFrame<N, T> where
    N: Ref<Target = NodeInner<N, V>>,
    T: Ref<Target = TreeInner<N, T, V>>,
    V: Measured,
 {
    /// The part of the tree is well-formed at its depth.
    pub open spec fn wf(&self) -> bool {
        match self {
            IterFrame::Node(node, d) => node.wf(d@),
            IterFrame::Tree(tree, d) => tree.wf(d@),
        }
    }

    /// The values of the part, from left to right.
    pub open spec fn elems(&self) -> Seq<V> {
        match self {
            IterFrame::Node(node, d) => node.elems(d@),
            IterFrame::Tree(tree, d) => tree.elems(d@),
        }
    }

    /// The number of steps that the walk through the part takes at most.
    pub open spec fn weight(&self) -> nat {
        match self {
            IterFrame::Node(node, d) => node_weight(*node, d@),
            IterFrame::Tree(tree, d) => tree_weight(*tree, d@),
        }
    }
}

/// The values of the frames `s`, those of the last frame first.
pub open spec fn remaining<N, T, V>(s: Seq<IterFrame<N, T>>) -> Seq<V> where
    N: Ref<Target = NodeInner<N, V>>,
    T: Ref<Target = TreeInner<N, T, V>>,
    V: Measured,

    decreases s.len(),
{
    if s.len() == 0 {
        Seq::empty()
    } else {
        s.last().elems() + remaining(s.drop_last())
    }
}

/// The number of steps that the walk through the frames `s` takes at most.
pub open spec fn frames_weight<N, T, V>(s: Seq<IterFrame<N, T>>) -> nat where
    N: Ref<Target = NodeInner<N, V>>,
    T: Ref<Target = TreeInner<N, T, V>>,
    V: Measured,

    decreases s.len(),
{
    if s.len() == 0 {
        0
    } else {
        s.last().weight() + frames_weight(s.drop_last())
    }
}

/// Every frame of `s` is well-formed.
pub open spec fn frames_wf<N, T, V>(s: Seq<IterFrame<N, T>>) -> bool where
    N: Ref<Target = NodeInner<N, V>>,
    T: Ref<Target = TreeInner<N, T, V>>,
    V: Measured,
 {
    forall|i: int| 0 <= i < s.len() ==> (#[trigger] s[i]).wf()
}

/// A frame put behind the others is walked through first.
pub proof fn lemma_frame_back<N, T, V>(s: Seq<IterFrame<N, T>>, frame: IterFrame<N, T>) where
    N: Ref<Target = NodeInner<N, V>>,
    T: Ref<Target = TreeInner<N, T, V>>,
    V: Measured,

    ensures
        remaining(s.push(frame)) == frame.elems() + remaining(s),
        frames_weight(s.push(frame)) == frame.weight() + frames_weight(s),
        frames_wf(s) && frame.wf() ==> frames_wf(s.push(frame)),
{
    assert(s.push(frame).drop_last() =~= s);
}

/// A frame put before the others is walked through last.
pub proof fn lemma_frame_front<N, T, V>(s: Seq<IterFrame<N, T>>, frame: IterFrame<N, T>) where
    N: Ref<Target = NodeInner<N, V>>,
    T: Ref<Target = TreeInner<N, T, V>>,
    V: Measured,

    ensures
        remaining(seq![frame] + s) == remaining(s) + frame.elems(),
        frames_weight(seq![frame] + s) == frame.weight() + frames_weight(s),
        frames_wf(s) && frame.wf() ==> frames_wf(seq![frame] + s),
    decreases s.len(),
{
    let all = seq![frame] + s;
    if s.len() == 0 {
        let none = Seq::<IterFrame<N, T>>::empty();
        assert(all.drop_last() =~= none);
        assert(s =~= none);
        assert(remaining(none) =~= Seq::<V>::empty());
        assert(frames_weight(none) == 0);
        assert(all.last() == frame);
        assert(remaining(all) =~= remaining(s) + frame.elems());
    } else {
        assert(all.drop_last() =~= seq![frame] + s.drop_last());
        lemma_frame_front(s.drop_last(), frame);
        assert(remaining(all) =~= remaining(s) + frame.elems());
    }
    if frames_wf(s) && frame.wf() {
        assert forall|i: int| 0 <= i < all.len() implies (#[trigger] all[i]).wf() by {
            if i > 0 {
                assert(all[i] == s[i - 1]);
            }
        }
    }
}

/// Taking the first frame away takes its values from the end of the walk.
pub proof fn lemma_frame_first<N, T, V>(s: Seq<IterFrame<N, T>>) where
    N: Ref<Target = NodeInner<N, V>>,
    T: Ref<Target = TreeInner<N, T, V>>,
    V: Measured,

    requires
        s.len() > 0,
    ensures
        remaining(s) == remaining(s.skip(1)) + s[0].elems(),
        frames_weight(s) == s[0].weight() + frames_weight(s.skip(1)),
        frames_wf(s) ==> frames_wf(s.skip(1)) && s[0].wf(),
{
    assert(s =~= seq![s[0]] + s.skip(1));
    lemma_frame_front(s.skip(1), s[0]);
    if frames_wf(s) {
        assert forall|i: int| 0 <= i < s.skip(1).len() implies (#[trigger] s.skip(1)[i]).wf() by {
            assert(s.skip(1)[i] == s[i + 1]);
        }
    }
}

/// The number of nodes in the nodes of `s` with one more node before them.
pub proof fn lemma_nodes_weight_front<N, V>(node: Node<N>, s: Seq<Node<N>>, d: nat) where
    N: Ref<Target = NodeInner<N, V>>,
    V: Measured,

    ensures
        nodes_weight(seq![node] + s, d) == node_weight(node, d) + nodes_weight(s, d),
    decreases s.len(),
{
    let all = seq![node] + s;
    if s.len() == 0 {
        assert(all.drop_last() =~= Seq::<Node<N>>::empty());
        assert(all.last() == node);
        assert(nodes_weight(Seq::<Node<N>>::empty(), d) == 0);
    } else {
        assert(all.drop_last() =~= seq![node] + s.drop_last());
        lemma_nodes_weight_front(node, s.drop_last(), d);
    }
}

/// Double ended iterator visiting all values of a tree from left to right,
/// and from right to left.
pub struct Iter<R: Refs<V>, V: Measured> {
    frames: VecDeque<IterFrame<R::Node, R::Tree>>,
}

impl<R: Refs<V>, V: Measured> Iter<R, V> {
    /// The values that the iterator has still to yield, from left to right.
    pub closed spec fn view(&self) -> Seq<V> {
        remaining(self.frames@)
    }

    /// What the iterator holds of the tree is well-formed: true of every
    /// iterator that [`FingerTree::iter`] returns, and kept by every
    /// method.
    pub closed spec fn wf(&self) -> bool {
        frames_wf(self.frames@)
    }

    /// The iterator over the values of `ft`.
    pub fn new(ft: &FingerTree<R, V>) -> (r: Self)
        ensures
            r.wf(),
            r@ == ft@,
    {
        let tree = ft.tree();
        let mut frames = VecDeque::new();
        let frame = IterFrame::Tree(tree.clone(), Ghost(0));
        proof {
            lemma_frame_back(frames@, frame);
            assert(frame.elems() + Seq::<V>::empty() =~= frame.elems());
        }
        frames.push_back(frame);
        Iter { frames }
    }

    /// Puts `frame` where `next` takes it first.
    fn push_back(&mut self, frame: IterFrame<R::Node, R::Tree>)
        requires
            old(self).wf(),
            frame.wf(),
        ensures
            final(self).wf(),
            final(self).frames@ == old(self).frames@.push(frame),
            final(self)@ == frame.elems() + old(self)@,
            frames_weight(final(self).frames@) == frame.weight() + frames_weight(
                old(self).frames@,
            ),
    {
        proof {
            lemma_frame_back(self.frames@, frame);
        }
        self.frames.push_back(frame)
    }

    /// Puts `frame` where `next_back` takes it first.
    fn push_front(&mut self, frame: IterFrame<R::Node, R::Tree>)
        requires
            old(self).wf(),
            frame.wf(),
        ensures
            final(self).wf(),
            final(self).frames@ == seq![frame] + old(self).frames@,
            final(self)@ == old(self)@ + frame.elems(),
            frames_weight(final(self).frames@) == frame.weight() + frames_weight(
                old(self).frames@,
            ),
    {
        proof {
            lemma_frame_front(self.frames@, frame);
        }
        self.frames.push_front(frame)
    }

    /// Puts the nodes of `nodes` where `next` takes them first, in their
    /// order.
    fn push_nodes_back(&mut self, nodes: &[Node<R::Node>], Ghost(d): Ghost<nat>)
        requires
            old(self).wf(),
            all_wf(nodes@, d),
        ensures
            final(self).wf(),
            final(self)@ == flatten(nodes@, d) + old(self)@,
            frames_weight(final(self).frames@) == nodes_weight(nodes@, d) + frames_weight(
                old(self).frames@,
            ),
    {
        let n = nodes.len();
        let mut i: usize = n;
        proof {
            assert(nodes@.skip(n as int) =~= Seq::<Node<R::Node>>::empty());
            assert(flatten(nodes@.skip(n as int), d) + self@ =~= self@);
        }
        while i > 0
            invariant
                i <= n,
                n == nodes@.len(),
                all_wf(nodes@, d),
                self.wf(),
                self@ == flatten(nodes@.skip(i as int), d) + old(self)@,
                frames_weight(self.frames@) == nodes_weight(nodes@.skip(i as int), d)
                    + frames_weight(old(self).frames@),
            decreases i,
        {
            i -= 1;
            proof {
                let node = nodes@[i as int];
                let rest = nodes@.skip(i + 1);
                assert(nodes@.skip(i as int) =~= seq![node] + rest);
                lemma_flatten_concat(seq![node], rest, d);
                lemma_flatten_few(seq![node], d);
                lemma_nodes_weight_front(node, rest, d);
                assert(node.elems(d) + (flatten(rest, d) + old(self)@) =~= flatten(
                    nodes@.skip(i as int),
                    d,
                ) + old(self)@);
            }
            self.push_back(IterFrame::Node(nodes[i].clone(), Ghost(d)));
        }
        assert(nodes@.skip(0) =~= nodes@);
    }

    /// Puts the nodes of `nodes` where `next_back` takes them first, in
    /// reverse order.
    fn push_nodes_front(&mut self, nodes: &[Node<R::Node>], Ghost(d): Ghost<nat>)
        requires
            old(self).wf(),
            all_wf(nodes@, d),
        ensures
            final(self).wf(),
            final(self)@ == old(self)@ + flatten(nodes@, d),
            frames_weight(final(self).frames@) == nodes_weight(nodes@, d) + frames_weight(
                old(self).frames@,
            ),
    {
        let n = nodes.len();
        let mut i: usize = 0;
        proof {
            assert(nodes@.take(0) =~= Seq::<Node<R::Node>>::empty());
            assert(self@ + flatten(nodes@.take(0), d) =~= self@);
        }
        while i < n
            invariant
                i <= n,
                n == nodes@.len(),
                all_wf(nodes@, d),
                self.wf(),
                self@ == old(self)@ + flatten(nodes@.take(i as int), d),
                frames_weight(self.frames@) == nodes_weight(nodes@.take(i as int), d)
                    + frames_weight(old(self).frames@),
            decreases n - i,
        {
            proof {
                assert(nodes@.take(i + 1).drop_last() =~= nodes@.take(i as int));
                assert(old(self)@ + flatten(nodes@.take(i as int), d) + nodes@[i as int].elems(d)
                    =~= old(self)@ + flatten(nodes@.take(i + 1), d));
            }
            self.push_front(IterFrame::Node(nodes[i].clone(), Ghost(d)));
            i += 1;
        }
        assert(nodes@.take(n as int) =~= nodes@);
    }

    /// Yields a clone of the leftmost value that is left, if there is one.
    pub fn next(&mut self) -> (r: Option<V>)
        requires
            old(self).wf(),
        ensures
            final(self).wf(),
            match r {
                None => old(self)@.len() == 0 && final(self)@.len() == 0,
                Some(value) => {
                    &&& old(self)@.len() > 0
                    &&& cloned(old(self)@[0], value)
                    &&& final(self)@ == old(self)@.skip(1)
                },
            },
    {
        loop
            invariant
                self.wf(),
                self@ == old(self)@,
            decreases frames_weight(self.frames@),
        {
            let ghost before = self.frames@;
            let frame = match self.frames.pop_back() {
                None => {
                    return None;
                },
                Some(frame) => frame,
            };
            let ghost rest = remaining(self.frames@);
            proof {
                assert(before.last() == frame);
                assert(self.frames@ =~= before.drop_last());
                assert(frames_wf(self.frames@));
                assert(frame.wf());
            }
            match frame {
                IterFrame::Node(node, d) => match node.inner.get() {
                    NodeInner::Leaf(value) => {
                        proof {
                            assert((seq![*value] + rest).skip(1) =~= rest);
                        }
                        return Some(value.clone());
                    },
                    NodeInner::Node2 { left, right, .. } => {
                        let ghost e = (d@ - 1) as nat;
                        self.push_back(IterFrame::Node(right.clone(), Ghost(e)));
                        self.push_back(IterFrame::Node(left.clone(), Ghost(e)));
                        proof {
                            assert(left.elems(e) + (right.elems(e) + rest) =~= node.elems(d@)
                                + rest);
                        }
                    },
                    NodeInner::Node3 { left, middle, right, .. } => {
                        let ghost e = (d@ - 1) as nat;
                        self.push_back(IterFrame::Node(right.clone(), Ghost(e)));
                        self.push_back(IterFrame::Node(middle.clone(), Ghost(e)));
                        self.push_back(IterFrame::Node(left.clone(), Ghost(e)));
                        proof {
                            assert(left.elems(e) + (middle.elems(e) + (right.elems(e) + rest))
                                =~= node.elems(d@) + rest);
                        }
                    },
                },
                IterFrame::Tree(tree, d) => match tree {
                    Tree::Empty => {
                        proof {
                            assert(tree.elems(d@) + rest =~= rest);
                        }
                    },
                    Tree::Single(node) => {
                        self.push_back(IterFrame::Node(node, Ghost(d@)));
                    },
                    Tree::Deep(deep) => {
                        let inner = deep.get();
                        self.push_nodes_back(inner.right.as_slice(), Ghost(d@));
                        self.push_back(IterFrame::Tree(inner.spine.clone(), Ghost(d@ + 1)));
                        self.push_nodes_back(inner.left.as_slice(), Ghost(d@));
                        proof {
                            assert(flatten(inner.left@, d@) + (inner.spine.elems(d@ + 1) + (flatten(
                                inner.right@,
                                d@,
                            ) + rest)) =~= tree.elems(d@) + rest);
                        }
                    },
                },
            }
        }
    }

    /// Yields a clone of the rightmost value that is left, if there is one.
    pub fn next_back(&mut self) -> (r: Option<V>)
        requires
            old(self).wf(),
        ensures
            final(self).wf(),
            match r {
                None => old(self)@.len() == 0 && final(self)@.len() == 0,
                Some(value) => {
                    &&& old(self)@.len() > 0
                    &&& cloned(old(self)@.last(), value)
                    &&& final(self)@ == old(self)@.drop_last()
                },
            },
    {
        loop
            invariant
                self.wf(),
                self@ == old(self)@,
            decreases frames_weight(self.frames@),
        {
            let ghost before = self.frames@;
            let frame = match self.frames.pop_front() {
                None => {
                    return None;
                },
                Some(frame) => frame,
            };
            let ghost rest = remaining(self.frames@);
            proof {
                lemma_frame_first(before);
                assert(before[0] == frame);
                assert(self.frames@ =~= before.skip(1));
            }
            match frame {
                IterFrame::Node(node, d) => match node.inner.get() {
                    NodeInner::Leaf(value) => {
                        proof {
                            assert((rest + seq![*value]).drop_last() =~= rest);
                        }
                        return Some(value.clone());
                    },
                    NodeInner::Node2 { left, right, .. } => {
                        let ghost e = (d@ - 1) as nat;
                        self.push_front(IterFrame::Node(left.clone(), Ghost(e)));
                        self.push_front(IterFrame::Node(right.clone(), Ghost(e)));
                        proof {
                            assert(rest + left.elems(e) + right.elems(e) =~= rest + node.elems(
                                d@,
                            ));
                        }
                    },
                    NodeInner::Node3 { left, middle, right, .. } => {
                        let ghost e = (d@ - 1) as nat;
                        self.push_front(IterFrame::Node(left.clone(), Ghost(e)));
                        self.push_front(IterFrame::Node(middle.clone(), Ghost(e)));
                        self.push_front(IterFrame::Node(right.clone(), Ghost(e)));
                        proof {
                            assert(rest + left.elems(e) + middle.elems(e) + right.elems(e) =~= rest
                                + node.elems(d@));
                        }
                    },
                },
                IterFrame::Tree(tree, d) => match tree {
                    Tree::Empty => {
                        proof {
                            assert(rest + tree.elems(d@) =~= rest);
                        }
                    },
                    Tree::Single(node) => {
                        self.push_front(IterFrame::Node(node, Ghost(d@)));
                    },
                    Tree::Deep(deep) => {
                        let inner = deep.get();
                        self.push_nodes_front(inner.left.as_slice(), Ghost(d@));
                        self.push_front(IterFrame::Tree(inner.spine.clone(), Ghost(d@ + 1)));
                        self.push_nodes_front(inner.right.as_slice(), Ghost(d@));
                        proof {
                            assert(rest + flatten(inner.left@, d@) + inner.spine.elems(d@ + 1)
                                + flatten(inner.right@, d@) =~= rest + tree.elems(d@));
                        }
                    },
                },
            }
        }
    }

    /// Clones of the values that are left, from left to right.
    pub fn to_vec(self) -> (r: Vec<V>)
        requires
            self.wf(),
        ensures
            cloned_seq(self@, r@),
    {
        let mut iter = self;
        let mut out: Vec<V> = Vec::new();
        loop
            invariant_except_break
                iter.wf(),
                out@.len() + iter@.len() == self@.len(),
                iter@ == self@.skip(out@.len() as int),
                cloned_seq(self@.take(out@.len() as int), out@),
            ensures
                cloned_seq(self@, out@),
            decreases iter@.len(),
        {
            let ghost before = iter@;
            match iter.next() {
                None => {
                    assert(self@.take(out@.len() as int) =~= self@);
                    break ;
                },
                Some(value) => {
                    proof {
                        let k = out@.len() as int;
                        assert(before[0] == self@[k]);
                        assert(self@.take(k + 1) =~= self@.take(k).push(self@[k]));
                        assert(before.skip(1) =~= self@.skip(k + 1));
                    }
                    out.push(value);
                },
            }
        }
        out
    }

    /// Clones of the values that are left, from right to left.
    pub fn to_vec_rev(self) -> (r: Vec<V>)
        requires
            self.wf(),
        ensures
            cloned_seq(self@.reverse(), r@),
    {
        let mut iter = self;
        let mut out: Vec<V> = Vec::new();
        loop
            invariant_except_break
                iter.wf(),
                out@.len() + iter@.len() == self@.len(),
                iter@ == self@.take(iter@.len() as int),
                cloned_seq(self@.reverse().take(out@.len() as int), out@),
            ensures
                cloned_seq(self@.reverse(), out@),
            decreases iter@.len(),
        {
            let ghost before = iter@;
            match iter.next_back() {
                None => {
                    assert(self@.reverse().take(out@.len() as int) =~= self@.reverse());
                    break ;
                },
                Some(value) => {
                    proof {
                        let k = out@.len() as int;
                        let rev = self@.reverse();
                        assert(before.last() == rev[k]);
                        assert(rev.take(k + 1) =~= rev.take(k).push(rev[k]));
                        assert(before.drop_last() =~= self@.take(before.len() - 1));
                    }
                    out.push(value);
                },
            }
        }
        out
    }
}

} // verus!
