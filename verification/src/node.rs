//! [`Node`]: a leaf, or two or three nodes of the level below with their
//! measure.
use crate::digit::{cloned_seq, stops_at};
use crate::measure::{
    answers, ends_at, lemma_ends_within, lemma_measure_concat,
    lemma_measure_few, lemma_measure_one, lemma_scan_base, lemma_scan_concat, lemma_scan_join,
    measure_of, scan, total, Measured,
};
use crate::monoid::Monoid;
use crate::reference::Ref;
use vstd::prelude::*;

verus! {

/// What a [`Node`] refers to. Only visible to define custom
/// [`Refs`](crate::reference::Refs).
pub enum NodeInner<N, V: Measured> {
    Leaf(V),
    Node2 { measure: V::Measure, left: Node<N>, right: Node<N> },
    Node3 { measure: V::Measure, left: Node<N>, middle: Node<N>, right: Node<N> },
}

/// A shared node of a tree.
///
/// A node of depth 0 is a leaf and holds one value. A node of depth `d + 1`
/// holds two or three nodes of depth `d` and the join of their measures.
pub struct Node<N> {
    pub inner: N,
}

impl<N: Ref> Clone for Node<N> {
    fn clone(&self) -> (r: Self)
        ensures
            r == *self,
    {
        Node { inner: self.inner.share() }
    }
}

/// Clones of nodes are the nodes themselves.
pub proof fn lemma_cloned_nodes<N: Ref>(a: Seq<Node<N>>, b: Seq<Node<N>>)
    requires
        cloned_seq(a, b),
    ensures
        a == b,
{
    assert(a =~= b);
}

impl<N, V> Node<N> where N: Ref<Target = NodeInner<N, V>>, V: Measured {
    /// The node is a tree of depth `d` all of whose leaves are at depth
    /// `d`, and every node in it holds the join of the measures of its
    /// children.
    pub open spec fn wf(&self, d: nat) -> bool
        decreases d,
    {
        match self.inner.target() {
            NodeInner::Leaf(_) => d == 0,
            NodeInner::Node2 { measure, left, right } => {
                &&& d > 0
                &&& left.wf((d - 1) as nat)
                &&& right.wf((d - 1) as nat)
                &&& measure == left.spec_measure().spec_join(&right.spec_measure())
            },
            NodeInner::Node3 { measure, left, middle, right } => {
                &&& d > 0
                &&& left.wf((d - 1) as nat)
                &&& middle.wf((d - 1) as nat)
                &&& right.wf((d - 1) as nat)
                &&& measure == left.spec_measure().spec_join(&middle.spec_measure()).spec_join(
                    &right.spec_measure(),
                )
            },
        }
    }

    /// The values at the leaves of a node of depth `d`, from left to right.
    pub open spec fn elems(&self, d: nat) -> Seq<V>
        decreases d,
    {
        match self.inner.target() {
            NodeInner::Leaf(value) => seq![value],
            NodeInner::Node2 { measure, left, right } => {
                if d == 0 {
                    Seq::empty()
                } else {
                    left.elems((d - 1) as nat) + right.elems((d - 1) as nat)
                }
            },
            NodeInner::Node3 { measure, left, middle, right } => {
                if d == 0 {
                    Seq::empty()
                } else {
                    left.elems((d - 1) as nat) + middle.elems((d - 1) as nat) + right.elems(
                        (d - 1) as nat,
                    )
                }
            },
        }
    }

    /// The measure that a well-formed node holds is the measure of its
    /// values.
    pub proof fn lemma_measure(&self, d: nat)
        requires
            self.wf(d),
        ensures
            self.spec_measure() == measure_of(self.elems(d)),
        decreases d,
    {
        match self.inner.target() {
            NodeInner::Leaf(value) => {
                lemma_measure_one(value);
            },
            NodeInner::Node2 { measure, left, right } => {
                let e = (d - 1) as nat;
                left.lemma_measure(e);
                right.lemma_measure(e);
                lemma_measure_concat(left.elems(e), right.elems(e));
            },
            NodeInner::Node3 { measure, left, middle, right } => {
                let e = (d - 1) as nat;
                left.lemma_measure(e);
                middle.lemma_measure(e);
                right.lemma_measure(e);
                lemma_measure_concat(left.elems(e), middle.elems(e));
                lemma_measure_concat(left.elems(e) + middle.elems(e), right.elems(e));
            },
        }
    }

    /// A well-formed node holds at least one value.
    pub proof fn lemma_nonempty(&self, d: nat)
        requires
            self.wf(d),
        ensures
            self.elems(d).len() > 0,
        decreases d,
    {
        match self.inner.target() {
            NodeInner::Leaf(value) => {},
            NodeInner::Node2 { measure, left, right } => {
                left.lemma_nonempty((d - 1) as nat);
            },
            NodeInner::Node3 { measure, left, middle, right } => {
                left.lemma_nonempty((d - 1) as nat);
            },
        }
    }

    /// A leaf that holds `value`.
    pub fn leaf(value: V) -> (r: Self)
        ensures
            r.inner.target() == NodeInner::<N, V>::Leaf(value),
            r.wf(0),
            r.elems(0) == seq![value],
    {
        Node { inner: N::new(NodeInner::Leaf(value)) }
    }

    /// A node of `left` and `right`, which holds the join of their measures.
    pub fn node2(left: Self, right: Self) -> (r: Self)
        ensures
            r.inner.target() == (NodeInner::<N, V>::Node2 {
                measure: left.spec_measure().spec_join(&right.spec_measure()),
                left,
                right,
            }),
    {
        let measure = left.measure().join(&right.measure());
        Node { inner: N::new(NodeInner::Node2 { measure, left, right }) }
    }

    /// A node of `left`, `middle` and `right`, which holds the join of their
    /// measures.
    pub fn node3(left: Self, middle: Self, right: Self) -> (r: Self)
        ensures
            r.inner.target() == (NodeInner::<N, V>::Node3 {
                measure: left.spec_measure().spec_join(&middle.spec_measure()).spec_join(
                    &right.spec_measure(),
                ),
                left,
                middle,
                right,
            }),
    {
        let measure = left.measure().join(&middle.measure()).join(&right.measure());
        Node { inner: N::new(NodeInner::Node3 { measure, left, middle, right }) }
    }

    /// The nodes that this node holds, from left to right; a leaf holds
    /// itself.
    pub open spec fn children(&self) -> Seq<Node<N>> {
        match self.inner.target() {
            NodeInner::Leaf(_) => seq![*self],
            NodeInner::Node2 { left, right, .. } => seq![left, right],
            NodeInner::Node3 { left, middle, right, .. } => seq![left, middle, right],
        }
    }

    /// The children of a node of depth `d + 1` are well-formed at depth `d`,
    /// and their values and their measure are those of the node.
    pub proof fn lemma_children(&self, d: nat)
        requires
            self.wf(d + 1),
        ensures
            all_wf(self.children(), d),
            flatten(self.children(), d) == self.elems(d + 1),
            measure_of::<Node<N>>(self.children()) == self.spec_measure(),
            2 <= self.children().len() <= 3,
    {
        lemma_flatten_few(self.children(), d);
        lemma_measure_few(self.children());
    }

    /// Finds the value at which `pred` turns true along a scan of the values
    /// of the node from `base`; the last value, where it turns true at
    /// none.
    pub fn find<F>(&self, base: V::Measure, pred: &F, Ghost(d): Ghost<nat>) -> (r: &V) where
        F: Fn(&V::Measure) -> bool,

        requires
            self.wf(d),
            total(*pred),
        ensures
            exists|i: int| ends_at(*pred, base, self.elems(d), i) && *r == self.elems(d)[i],
        decreases d,
    {
        let ghost none = Seq::<V>::empty();
        match self.inner.get() {
            NodeInner::Leaf(leaf) => {
                proof {
                    assert(ends_at(*pred, base, self.elems(d), 0));
                    assert(*leaf == self.elems(d)[0]);
                }
                leaf
            },
            NodeInner::Node2 { left, right, .. } => {
                let ghost e = (d - 1) as nat;
                let ghost l = left.elems(e);
                let ghost r = right.elems(e);
                proof {
                    left.lemma_measure(e);
                    left.lemma_nonempty(e);
                    lemma_scan_base(base, l);
                }
                let left_measure = base.join(&left.measure());
                if pred(&left_measure) {
                    let found = left.find(base, pred, Ghost(e));
                    proof {
                        let i = choose|i: int| ends_at(*pred, base, l, i) && *found == l[i];
                        lemma_ends_within(*pred, base, none, l, r, self.elems(d), i);
                        assert(ends_at(*pred, base, self.elems(d), i) && *found
                            == self.elems(d)[i]);
                    }
                    found
                } else {
                    let found = right.find(left_measure, pred, Ghost(e));
                    proof {
                        let j = choose|j: int|
                            ends_at(*pred, left_measure, r, j) && *found == r[j];
                        lemma_ends_within(*pred, base, l, r, none, self.elems(d), j);
                        assert(ends_at(*pred, base, self.elems(d), l.len() + j) && *found
                            == self.elems(d)[l.len() + j]);
                    }
                    found
                }
            },
            NodeInner::Node3 { left, middle, right, .. } => {
                let ghost e = (d - 1) as nat;
                let ghost l = left.elems(e);
                let ghost m = middle.elems(e);
                let ghost r = right.elems(e);
                proof {
                    left.lemma_measure(e);
                    left.lemma_nonempty(e);
                    middle.lemma_measure(e);
                    lemma_scan_base(base, l);
                    lemma_scan_base(scan(base, l), m);
                    lemma_scan_concat(base, l, m);
                }
                let left_measure = base.join(&left.measure());
                if pred(&left_measure) {
                    let found = left.find(base, pred, Ghost(e));
                    proof {
                        let i = choose|i: int| ends_at(*pred, base, l, i) && *found == l[i];
                        lemma_ends_within(*pred, base, none, l, m + r, self.elems(d), i);
                    }
                    return found;
                }
                let middle_measure = left_measure.join(&middle.measure());
                if pred(&middle_measure) {
                    let found = middle.find(left_measure, pred, Ghost(e));
                    proof {
                        let j = choose|j: int|
                            ends_at(*pred, left_measure, m, j) && *found == m[j];
                        lemma_ends_within(*pred, base, l, m, r, self.elems(d), j);
                    }
                    return found;
                }
                let found = right.find(middle_measure, pred, Ghost(e));
                proof {
                    let j = choose|j: int|
                        ends_at(*pred, middle_measure, r, j) && *found == r[j];
                    lemma_ends_within(*pred, base, l + m, r, none, self.elems(d), j);
                    assert(ends_at(*pred, base, self.elems(d), (l + m).len() + j) && *found
                        == self.elems(d)[(l + m).len() + j]);
                }
                found
            },
        }
    }

    /// Appends to `out` references to the values of the node, from left to
    /// right.
    pub fn values<'a>(&'a self, out: &mut Vec<&'a V>, Ghost(d): Ghost<nat>)
        requires
            self.wf(d),
        ensures
            final(out)@.len() == old(out)@.len() + self.elems(d).len(),
            forall|i: int| 0 <= i < old(out)@.len() ==> final(out)@[i] == old(out)@[i],
            forall|i: int|
                0 <= i < self.elems(d).len() ==> *final(out)@[old(out)@.len() + i]
                    == self.elems(d)[i],
        decreases d,
    {
        match self.inner.get() {
            NodeInner::Leaf(value) => {
                out.push(value);
            },
            NodeInner::Node2 { left, right, .. } => {
                left.values(out, Ghost((d - 1) as nat));
                right.values(out, Ghost((d - 1) as nat));
            },
            NodeInner::Node3 { left, middle, right, .. } => {
                left.values(out, Ghost((d - 1) as nat));
                middle.values(out, Ghost((d - 1) as nat));
                right.values(out, Ghost((d - 1) as nat));
            },
        }
    }
}

impl<N, V> Measured for Node<N> where N: Ref<Target = NodeInner<N, V>>, V: Measured {
    type Measure = V::Measure;

    /// The measure that the node holds; for a leaf, the measure of its value.
    open spec fn spec_measure(&self) -> V::Measure {
        match self.inner.target() {
            NodeInner::Leaf(value) => value.spec_measure(),
            NodeInner::Node2 { measure, .. } => measure,
            NodeInner::Node3 { measure, .. } => measure,
        }
    }

    proof fn lemma_measure_clone(a: V::Measure, b: V::Measure) {
        V::lemma_measure_clone(a, b);
    }

    /// The measure of the node, without a walk through it.
    fn measure(&self) -> (r: V::Measure) {
        match self.inner.get() {
            NodeInner::Leaf(value) => value.measure(),
            NodeInner::Node2 { measure, .. } => {
                let r = measure.clone();
                proof {
                    V::lemma_measure_clone(*measure, r);
                }
                r
            },
            NodeInner::Node3 { measure, .. } => {
                let r = measure.clone();
                proof {
                    V::lemma_measure_clone(*measure, r);
                }
                r
            },
        }
    }
}

/// Every node of `s` is well-formed at depth `d`.
pub open spec fn all_wf<N, V>(s: Seq<Node<N>>, d: nat) -> bool where
    N: Ref<Target = NodeInner<N, V>>,
    V: Measured,
 {
    forall|i: int| 0 <= i < s.len() ==> (#[trigger] s[i]).wf(d)
}

/// The values at the leaves of the nodes of `s`, all of depth `d`, from left
/// to right.
pub open spec fn flatten<N, V>(s: Seq<Node<N>>, d: nat) -> Seq<V> where
    N: Ref<Target = NodeInner<N, V>>,
    V: Measured,

    decreases s.len(),
{
    if s.len() == 0 {
        Seq::empty()
    } else {
        flatten(s.drop_last(), d) + s.last().elems(d)
    }
}

/// The values of a concatenation of nodes are those of its first part
/// followed by those of its second part.
pub proof fn lemma_flatten_concat<N, V>(a: Seq<Node<N>>, b: Seq<Node<N>>, d: nat) where
    N: Ref<Target = NodeInner<N, V>>,
    V: Measured,

    ensures
        flatten(a + b, d) == flatten(a, d) + flatten(b, d),
    decreases b.len(),
{
    if b.len() == 0 {
        assert(a + b =~= a);
        assert(flatten(a, d) + flatten(b, d) =~= flatten(a, d));
    } else {
        assert((a + b).drop_last() =~= a + b.drop_last());
        lemma_flatten_concat(a, b.drop_last(), d);
        assert(flatten(a + b, d) =~= flatten(a, d) + flatten(b, d));
    }
}

/// The values of up to four nodes, written out node by node.
pub proof fn lemma_flatten_few<N, V>(s: Seq<Node<N>>, d: nat) where
    N: Ref<Target = NodeInner<N, V>>,
    V: Measured,

    ensures
        s.len() == 0 ==> flatten(s, d) == Seq::<V>::empty(),
        s.len() == 1 ==> flatten(s, d) == s[0].elems(d),
        s.len() == 2 ==> flatten(s, d) == s[0].elems(d) + s[1].elems(d),
        s.len() == 3 ==> flatten(s, d) == s[0].elems(d) + s[1].elems(d) + s[2].elems(d),
        s.len() == 4 ==> flatten(s, d) == s[0].elems(d) + s[1].elems(d) + s[2].elems(d)
            + s[3].elems(d),
    decreases s.len(),
{
    if s.len() > 0 && s.len() <= 4 {
        lemma_flatten_few(s.drop_last(), d);
        if s.len() == 1 {
            assert(flatten(s, d) =~= s[0].elems(d));
        }
    }
}

/// The nodes that the nodes of `s` hold, from left to right: the nodes of
/// the level below.
pub open spec fn children_of<N, V>(s: Seq<Node<N>>) -> Seq<Node<N>> where
    N: Ref<Target = NodeInner<N, V>>,
    V: Measured,

    decreases s.len(),
{
    if s.len() == 0 {
        Seq::empty()
    } else {
        children_of(s.drop_last()) + s.last().children()
    }
}

/// The children of a concatenation of nodes are those of its first part
/// followed by those of its second part.
pub proof fn lemma_children_of_concat<N, V>(a: Seq<Node<N>>, b: Seq<Node<N>>) where
    N: Ref<Target = NodeInner<N, V>>,
    V: Measured,

    ensures
        children_of(a + b) == children_of(a) + children_of(b),
    decreases b.len(),
{
    if b.len() == 0 {
        assert(a + b =~= a);
        assert(children_of(a) + children_of(b) =~= children_of(a));
    } else {
        assert((a + b).drop_last() =~= a + b.drop_last());
        lemma_children_of_concat(a, b.drop_last());
        assert(children_of(a + b) =~= children_of(a) + children_of(b));
    }
}

/// The children of one node alone.
pub proof fn lemma_children_of_one<N, V>(node: Node<N>) where
    N: Ref<Target = NodeInner<N, V>>,
    V: Measured,

    ensures
        children_of(seq![node]) == node.children(),
{
    let none = Seq::<Node<N>>::empty();
    assert(seq![node].drop_last() =~= none);
    assert(children_of(none) =~= none);
    assert(children_of(seq![node]) =~= node.children());
}

/// The children of the nodes around one node.
pub proof fn lemma_children_of_around<N, V>(a: Seq<Node<N>>, x: Node<N>, b: Seq<Node<N>>) where
    N: Ref<Target = NodeInner<N, V>>,
    V: Measured,

    ensures
        children_of(a + seq![x] + b) == children_of(a) + x.children() + children_of(b),
{
    lemma_children_of_concat(a, seq![x]);
    lemma_children_of_concat(a + seq![x], b);
    lemma_children_of_one(x);
}

/// The values of the nodes around one node.
pub proof fn lemma_flatten_around<N, V>(a: Seq<Node<N>>, x: Node<N>, b: Seq<Node<N>>, d: nat) where
    N: Ref<Target = NodeInner<N, V>>,
    V: Measured,

    ensures
        flatten(a + seq![x] + b, d) == flatten(a, d) + x.elems(d) + flatten(b, d),
{
    lemma_flatten_concat(a, seq![x], d);
    lemma_flatten_concat(a + seq![x], b, d);
    lemma_flatten_few(seq![x], d);
}

/// The values of three runs of nodes.
pub proof fn lemma_flatten_three<N, V>(
    a: Seq<Node<N>>,
    b: Seq<Node<N>>,
    c: Seq<Node<N>>,
    d: nat,
) where N: Ref<Target = NodeInner<N, V>>, V: Measured
    ensures
        flatten(a + b + c, d) == flatten(a, d) + flatten(b, d) + flatten(c, d),
{
    lemma_flatten_concat(a, b, d);
    lemma_flatten_concat(a + b, c, d);
}

/// What comes before the same end of a sequence is the same.
pub proof fn lemma_same_front<A>(p: Seq<A>, q: Seq<A>, x: Seq<A>, r: Seq<A>, whole: Seq<A>)
    requires
        p + x + r == whole,
        q + x + r == whole,
    ensures
        p == q,
{
    assert((p + x + r).len() == p.len() + x.len() + r.len());
    assert((q + x + r).len() == q.len() + x.len() + r.len());
    assert forall|i: int| 0 <= i < p.len() implies p[i] == q[i] by {
        assert((p + x + r)[i] == p[i]);
        assert((q + x + r)[i] == q[i]);
    }
    assert(p =~= q);
}

/// The children of well-formed nodes are well-formed one level below, and
/// hold the same values in the same order.
pub proof fn lemma_children_of_flatten<N, V>(s: Seq<Node<N>>, d: nat) where
    N: Ref<Target = NodeInner<N, V>>,
    V: Measured,

    requires
        all_wf(s, d + 1),
    ensures
        all_wf(children_of(s), d),
        flatten(children_of(s), d) == flatten(s, d + 1),
    decreases s.len(),
{
    if s.len() > 0 {
        let front = s.drop_last();
        let last = s.last();
        assert(all_wf(front, d + 1)) by {
            assert forall|i: int| 0 <= i < front.len() implies (#[trigger] front[i]).wf(d + 1) by {
                assert(front[i] == s[i]);
            }
        }
        lemma_children_of_flatten(front, d);
        last.lemma_children(d);
        lemma_flatten_concat(children_of(front), last.children(), d);
        let all = children_of(front) + last.children();
        assert forall|i: int| 0 <= i < all.len() implies (#[trigger] all[i]).wf(d) by {
            if i < children_of(front).len() {
                assert(all[i] == children_of(front)[i]);
            } else {
                assert(all[i] == last.children()[i - children_of(front).len()]);
            }
        }
    }
}

/// Over well-formed nodes, a scan of the nodes is a scan of their values.
pub proof fn lemma_flatten_scan<N, V>(base: V::Measure, s: Seq<Node<N>>, d: nat) where
    N: Ref<Target = NodeInner<N, V>>,
    V: Measured,

    requires
        all_wf(s, d),
    ensures
        scan::<Node<N>>(base, s) == scan::<V>(base, flatten(s, d)),
    decreases s.len(),
{
    if s.len() > 0 {
        let front = s.drop_last();
        let last = s.last();
        assert(all_wf(front, d)) by {
            assert forall|i: int| 0 <= i < front.len() implies (#[trigger] front[i]).wf(d) by {
                assert(front[i] == s[i]);
            }
        }
        lemma_flatten_scan::<N, V>(base, front, d);
        last.lemma_measure(d);
        let mid = scan::<V>(base, flatten(front, d));
        lemma_scan_concat::<V>(base, flatten(front, d), last.elems(d));
        lemma_scan_base::<V>(mid, last.elems(d));
    }
}

/// Over well-formed nodes, the measure of the nodes is the measure of their
/// values.
pub proof fn lemma_flatten_measure<N, V>(s: Seq<Node<N>>, d: nat) where
    N: Ref<Target = NodeInner<N, V>>,
    V: Measured,

    requires
        all_wf(s, d),
    ensures
        measure_of::<Node<N>>(s) == measure_of::<V>(flatten(s, d)),
{
    lemma_flatten_scan::<N, V>(V::Measure::spec_unit(), s, d);
}

/// Where a scan of the nodes `s` stops is a place at which `pred` turns
/// true along the scan of the values: of those of `before`, then those of
/// `s`. The scan of the nodes starts where the scan of `before` ended, and
/// `pred` does not hold at the end of `before`, unless `before` is empty.
pub proof fn lemma_stop_among_values<N, V, F>(
    pred: F,
    base: V::Measure,
    before: Seq<V>,
    s: Seq<Node<N>>,
    i: int,
    d: nat,
) where N: Ref<Target = NodeInner<N, V>>, V: Measured, F: Fn(&V::Measure) -> bool
    requires
        all_wf(s, d),
        stops_at(pred, scan(base, before), s, i),
        before.len() > 0 ==> answers(pred, scan(base, before), false),
    ensures
        flatten(s.take(i), d) + s[i].elems(d) + flatten(s.skip(i + 1), d) == flatten(s, d),
        all_wf(s.take(i), d),
        all_wf(s.skip(i + 1), d),
        s[i].wf(d),
        answers(pred, scan(base, before + flatten(s, d)), true) ==> answers(
            pred,
            scan(base, before + flatten(s.take(i), d) + s[i].elems(d)),
            true,
        ),
        (before + flatten(s.take(i), d)).len() > 0 ==> answers(
            pred,
            scan(base, before + flatten(s.take(i), d)),
            false,
        ),
{
    let start = scan(base, before);
    let front = s.take(i);
    let upto = s.take(i + 1);
    let back = s.skip(i + 1);
    assert(upto =~= front + seq![s[i]]);
    assert(s =~= upto + back);
    assert(all_wf(front, d));
    assert(all_wf(upto, d));
    assert(all_wf(back, d));
    lemma_flatten_concat(front, seq![s[i]], d);
    lemma_flatten_few(seq![s[i]], d);
    lemma_flatten_concat(upto, back, d);
    // the scans of the nodes are scans of their values
    lemma_flatten_scan(start, s, d);
    lemma_flatten_scan(start, upto, d);
    lemma_flatten_scan(start, front, d);
    lemma_scan_concat(base, before, flatten(s, d));
    lemma_scan_concat(base, before, flatten(upto, d));
    lemma_scan_concat(base, before, flatten(front, d));
    assert(before + flatten(front, d) + s[i].elems(d) =~= before + flatten(upto, d));
    if i + 1 == s.len() {
        assert(upto =~= s);
    }
    if i > 0 {
        assert(s.take((i - 1) + 1) =~= front);
    } else {
        assert(front =~= Seq::<Node<N>>::empty());
        assert(before + flatten(front, d) =~= before);
    }
}

/// The nodes before a place in well-formed nodes, the node at it and the
/// nodes after it are well-formed.
pub proof fn lemma_parts_wf<N, V>(s: Seq<Node<N>>, i: int, d: nat) where
    N: Ref<Target = NodeInner<N, V>>,
    V: Measured,

    requires
        all_wf(s, d),
        0 <= i < s.len(),
    ensures
        all_wf(s.take(i), d),
        all_wf(s.skip(i + 1), d),
        s[i].wf(d),
{
}

/// What a split states, from where a scan of one digit stopped.
///
/// The values `whole` are those of `before`, then those of the nodes `s`,
/// then those of `after`. The scan of `s` started where the scan of `before`
/// ended, and stopped at `i`. Then the values before `s[i]`, those of `s[i]`
/// and those after it make up `whole`, and `pred` turns true at `s[i]`.
#[verifier::rlimit(50)]
pub proof fn lemma_split_case<N, V, F>(
    pred: F,
    base: V::Measure,
    before: Seq<V>,
    s: Seq<Node<N>>,
    after: Seq<V>,
    i: int,
    d: nat,
    whole: Seq<V>,
    upto: Seq<V>,
    le: Seq<V>,
    xe: Seq<V>,
    re: Seq<V>,
) where N: Ref<Target = NodeInner<N, V>>, V: Measured, F: Fn(&V::Measure) -> bool
    requires
        all_wf(s, d),
        stops_at(pred, scan(base, before), s, i),
        before.len() > 0 ==> answers(pred, scan(base, before), false),
        upto =~= before + flatten(s, d),
        whole =~= upto + after,
        answers(pred, scan(base, whole), true) ==> answers(pred, scan(base, upto), true),
        after.len() > 0 ==> answers(pred, scan(base, upto), true),
        le =~= before + flatten(s.take(i), d),
        xe == s[i].elems(d),
        re =~= flatten(s.skip(i + 1), d) + after,
    ensures
        le + xe + re == whole,
        (le + xe).is_prefix_of(whole),
        whole.take(whole.len() - xe.len() - re.len()) == le,
        answers(pred, scan(base, whole), true) ==> answers(pred, scan(base, le + xe), true),
        re.len() > 0 ==> answers(pred, scan(base, le + xe), true),
        le.len() > 0 ==> answers(pred, scan(base, le), false),
{
    let p = flatten(s.take(i), d);
    let q = flatten(s.skip(i + 1), d);
    lemma_stop_among_values(pred, base, before, s, i, d);
    lemma_cut(before, p, xe, q, after, whole, upto, le, re);
    if i + 1 == s.len() {
        assert(s.skip(i + 1) =~= Seq::<Node<N>>::empty());
    } else {
        lemma_flatten_scan(scan(base, before), s.take(i + 1), d);
        lemma_scan_concat(base, before, flatten(s.take(i + 1), d));
        assert(s.take(i + 1) =~= s.take(i) + seq![s[i]]);
        lemma_flatten_concat(s.take(i), seq![s[i]], d);
        lemma_flatten_few(seq![s[i]], d);
        assert(before + flatten(s.take(i + 1), d) =~= before + p + xe);
    }
}

/// A sequence cut at one part: `whole` holds `before`, then `p`, `x` and `q`,
/// then `after`; `left` is what comes before `x`, and `right` what comes
/// after it.
pub proof fn lemma_cut<A>(
    before: Seq<A>,
    p: Seq<A>,
    x: Seq<A>,
    q: Seq<A>,
    after: Seq<A>,
    whole: Seq<A>,
    upto: Seq<A>,
    left: Seq<A>,
    right: Seq<A>,
)
    requires
        upto =~= before + (p + x + q),
        whole =~= upto + after,
        left =~= before + p,
        right =~= q + after,
    ensures
        left + x + right == whole,
        (left + x).is_prefix_of(whole),
        whole.take(whole.len() - x.len() - right.len()) == left,
        whole.skip((left.len() + x.len()) as int) == right,
        left + x == before + p + x,
        q.len() == 0 ==> left + x == upto,
{
    assert(left + x + right =~= whole);
    assert(left + x =~= whole.subrange(0, (left + x).len() as int));
    assert(whole.take(whole.len() - x.len() - right.len()) =~= left);
    assert(whole.skip((left.len() + x.len()) as int) =~= right);
    assert(left + x =~= before + p + x);
    if q.len() == 0 {
        assert(left + x =~= upto);
    }
}

/// Joining the measure of well-formed nodes to a scan of `before` continues
/// the scan over the values of the nodes.
pub proof fn lemma_scan_join_nodes<N, V>(
    base: V::Measure,
    before: Seq<V>,
    nodes: Seq<Node<N>>,
    d: nat,
) where N: Ref<Target = NodeInner<N, V>>, V: Measured
    requires
        all_wf(nodes, d),
    ensures
        scan(base, before).spec_join(&measure_of::<Node<N>>(nodes)) == scan(
            base,
            before + flatten(nodes, d),
        ),
        scan::<Node<N>>(scan(base, before), nodes) == scan(base, before + flatten(nodes, d)),
{
    lemma_flatten_measure(nodes, d);
    lemma_scan_join(base, before, flatten(nodes, d));
    lemma_flatten_scan(scan(base, before), nodes, d);
    lemma_scan_concat(base, before, flatten(nodes, d));
}

/// What a search knows when it enters the node at which the scan of a
/// digit stopped: the measure accumulated before that node is the scan of
/// the values before it, `pred` does not hold there unless nothing
/// comes before, and `pred` holds at the end of the node, unless it is the
/// last node of the digit and `pred` does not hold at the end of the digit.
pub proof fn lemma_find_case<N, V, F>(
    pred: F,
    base: V::Measure,
    before: Seq<V>,
    s: Seq<Node<N>>,
    i: int,
    d: nat,
    upto: Seq<V>,
) where N: Ref<Target = NodeInner<N, V>>, V: Measured, F: Fn(&V::Measure) -> bool
    requires
        all_wf(s, d),
        stops_at(pred, scan(base, before), s, i),
        before.len() > 0 ==> answers(pred, scan(base, before), false),
        upto =~= before + flatten(s, d),
    ensures
        s[i].wf(d),
        ({
            let le = before + flatten(s.take(i), d);
            &&& scan::<Node<N>>(scan(base, before), s.take(i)) == scan(base, le)
            &&& answers(pred, scan(base, upto), true) || i + 1 < s.len() ==> answers(
                pred,
                scan(scan(base, le), s[i].elems(d)),
                true,
            )
            &&& le.len() > 0 ==> answers(pred, scan(base, le), false)
            &&& upto == le + s[i].elems(d) + flatten(s.skip(i + 1), d)
            &&& i + 1 == s.len() ==> flatten(s.skip(i + 1), d).len() == 0
        }),
{
    let le = before + flatten(s.take(i), d);
    lemma_stop_among_values(pred, base, before, s, i, d);
    lemma_scan_join_nodes(base, before, s.take(i), d);
    lemma_scan_concat(base, le, s[i].elems(d));
    assert(upto =~= le + s[i].elems(d) + flatten(s.skip(i + 1), d));
    if i + 1 < s.len() {
        lemma_scan_join_nodes(base, before, s.take(i + 1), d);
        assert(s.take(i + 1) =~= s.take(i) + seq![s[i]]);
        lemma_flatten_concat(s.take(i), seq![s[i]], d);
        lemma_flatten_few(seq![s[i]], d);
        assert(before + flatten(s.take(i + 1), d) =~= le + s[i].elems(d));
    } else {
        assert(s.skip(i + 1) =~= Seq::<Node<N>>::empty());
    }
}

/// What a node of `left` and `right` refers to.
pub open spec fn pair<N, V>(left: Node<N>, right: Node<N>) -> NodeInner<N, V> where
    N: Ref<Target = NodeInner<N, V>>,
    V: Measured,
 {
    NodeInner::Node2 { measure: left.spec_measure().spec_join(&right.spec_measure()), left, right }
}

/// What a node of `left`, `middle` and `right` refers to.
pub open spec fn triple<N, V>(left: Node<N>, middle: Node<N>, right: Node<N>) -> NodeInner<
    N,
    V,
> where N: Ref<Target = NodeInner<N, V>>, V: Measured {
    NodeInner::Node3 {
        measure: left.spec_measure().spec_join(&middle.spec_measure()).spec_join(
            &right.spec_measure(),
        ),
        left,
        middle,
        right,
    }
}

/// The nodes of `s` grouped, from left to right, into nodes that are one
/// level deeper: two nodes make a pair, three a triple, four two pairs, and
/// of more than four the first three make a triple and the rest is grouped
/// in the same way.
pub open spec fn lifted<N, V>(s: Seq<Node<N>>) -> Seq<NodeInner<N, V>> where
    N: Ref<Target = NodeInner<N, V>>,
    V: Measured,

    decreases s.len(),
{
    if s.len() < 2 {
        Seq::empty()
    } else if s.len() == 2 {
        seq![pair(s[0], s[1])]
    } else if s.len() == 3 {
        seq![triple(s[0], s[1], s[2])]
    } else if s.len() == 4 {
        seq![pair(s[0], s[1]), pair(s[2], s[3])]
    } else {
        seq![triple(s[0], s[1], s[2])] + lifted(s.skip(3))
    }
}

/// What the nodes of `s` refer to.
pub open spec fn targets<N, V>(s: Seq<Node<N>>) -> Seq<NodeInner<N, V>> where
    N: Ref<Target = NodeInner<N, V>>,
    V: Measured,
 {
    s.map_values(|node: Node<N>| node.inner.target())
}

/// Nodes that group well-formed nodes are well-formed one level deeper, and
/// hold the same values in the same order.
pub proof fn lemma_lifted<N, V>(r: Seq<Node<N>>, s: Seq<Node<N>>, d: nat) where
    N: Ref<Target = NodeInner<N, V>>,
    V: Measured,

    requires
        all_wf(s, d),
        s.len() != 1,
        targets(r) == lifted(s),
    ensures
        all_wf(r, d + 1),
        flatten(r, d + 1) == flatten(s, d),
        s.len() >= 2 ==> 1 <= r.len() < s.len(),
    decreases s.len(),
{
    assert(r.len() == targets(r).len());
    if s.len() < 2 {
        assert(s =~= Seq::<Node<N>>::empty());
        assert(r =~= Seq::<Node<N>>::empty());
    } else if s.len() == 2 {
        assert(targets(r)[0] == r[0].inner.target());
        lemma_flatten_few(s, d);
        lemma_flatten_few(r, d + 1);
    } else if s.len() == 3 {
        assert(targets(r)[0] == r[0].inner.target());
        lemma_flatten_few(s, d);
        lemma_flatten_few(r, d + 1);
    } else if s.len() == 4 {
        assert(targets(r)[0] == r[0].inner.target());
        assert(targets(r)[1] == r[1].inner.target());
        lemma_flatten_few(s, d);
        lemma_flatten_few(r, d + 1);
        assert(flatten(r, d + 1) =~= flatten(s, d));
    } else {
        let head = r.take(1);
        let tail = r.skip(1);
        let rest = s.skip(3);
        assert(targets(r)[0] == r[0].inner.target());
        assert(targets(tail) =~= lifted(rest)) by {
            assert(targets(tail).len() == lifted(rest).len());
            assert forall|i: int| 0 <= i < tail.len() implies targets(tail)[i] == lifted(
                rest,
            )[i] by {
                assert(targets(r)[i + 1] == r[i + 1].inner.target());
            }
        }
        assert(all_wf(rest, d)) by {
            assert forall|i: int| 0 <= i < rest.len() implies (#[trigger] rest[i]).wf(d) by {
                assert(rest[i] == s[i + 3]);
            }
        }
        lemma_lifted(tail, rest, d);
        assert(all_wf(r, d + 1)) by {
            assert forall|i: int| 0 <= i < r.len() implies (#[trigger] r[i]).wf(d + 1) by {
                if i > 0 {
                    assert(r[i] == tail[i - 1]);
                }
            }
        }
        assert(r =~= head + tail);
        assert(s =~= s.take(3) + rest);
        lemma_flatten_concat(head, tail, d + 1);
        lemma_flatten_concat(s.take(3), rest, d);
        lemma_flatten_few(head, d + 1);
        lemma_flatten_few(s.take(3), d);
    }
}

/// The children of nodes that group the nodes of `s` are the nodes of `s`.
pub proof fn lemma_lifted_children<N, V>(r: Seq<Node<N>>, s: Seq<Node<N>>) where
    N: Ref<Target = NodeInner<N, V>>,
    V: Measured,

    requires
        s.len() != 1,
        targets(r) == lifted(s),
    ensures
        children_of(r) == s,
    decreases s.len(),
{
    let none = Seq::<Node<N>>::empty();
    assert(r.len() == targets(r).len());
    assert(children_of(none) =~= none);
    if s.len() < 2 {
        assert(s =~= none);
        assert(r =~= none);
    } else if s.len() <= 3 {
        assert(targets(r)[0] == r[0].inner.target());
        assert(r =~= seq![r[0]]);
        lemma_children_of_one(r[0]);
        assert(r[0].children() =~= s);
    } else if s.len() == 4 {
        assert(targets(r)[0] == r[0].inner.target());
        assert(targets(r)[1] == r[1].inner.target());
        assert(r =~= seq![r[0]] + seq![r[1]]);
        lemma_children_of_concat(seq![r[0]], seq![r[1]]);
        lemma_children_of_one(r[0]);
        lemma_children_of_one(r[1]);
        assert(r[0].children() + r[1].children() =~= s);
    } else {
        let head = r.take(1);
        let tail = r.skip(1);
        let rest = s.skip(3);
        assert(targets(r)[0] == r[0].inner.target());
        assert(targets(tail) =~= lifted(rest)) by {
            assert(targets(tail).len() == lifted(rest).len());
            assert forall|i: int| 0 <= i < tail.len() implies targets(tail)[i] == lifted(
                rest,
            )[i] by {
                assert(targets(r)[i + 1] == r[i + 1].inner.target());
            }
        }
        lemma_lifted_children(tail, rest);
        assert(r =~= seq![r[0]] + tail);
        lemma_children_of_concat(seq![r[0]], tail);
        lemma_children_of_one(r[0]);
        assert(r[0].children() + rest =~= s);
    }
}

impl<N, V> Node<N> where N: Ref<Target = NodeInner<N, V>>, V: Measured {
    /// Lifts nodes into nodes which are one level deeper, by grouping them
    /// as [`lifted`] says. A single node can not be grouped.
    pub fn lift(nodes: &[Node<N>]) -> (r: Vec<Node<N>>)
        requires
            nodes@.len() != 1,
        ensures
            targets(r@) == lifted(nodes@),
    {
        let n = nodes.len();
        let mut out: Vec<Node<N>> = Vec::new();
        let mut start: usize = 0;
        assert(nodes@.skip(0) =~= nodes@);
        assert(targets(out@) =~= Seq::<NodeInner<N, V>>::empty());
        while n - start > 4
            invariant
                n == nodes@.len(),
                start <= n,
                n - start != 1,
                targets(out@) + lifted(nodes@.skip(start as int)) == lifted(nodes@),
            decreases n - start,
        {
            let node = Node::node3(
                nodes[start].clone(),
                nodes[start + 1].clone(),
                nodes[start + 2].clone(),
            );
            proof {
                let rest = nodes@.skip(start as int);
                assert(rest.skip(3) =~= nodes@.skip(start + 3));
                assert(targets(out@.push(node)) =~= targets(out@) + seq![node.inner.target()]);
                assert(targets(out@.push(node)) + lifted(rest.skip(3)) =~= targets(out@) + lifted(
                    rest,
                ));
            }
            out.push(node);
            start += 3;
        }
        let ghost rest = nodes@.skip(start as int);
        let ghost before = out@;
        if n - start == 2 {
            out.push(Node::node2(nodes[start].clone(), nodes[start + 1].clone()));
        } else if n - start == 3 {
            out.push(
                Node::node3(
                    nodes[start].clone(),
                    nodes[start + 1].clone(),
                    nodes[start + 2].clone(),
                ),
            );
        } else if n - start == 4 {
            out.push(Node::node2(nodes[start].clone(), nodes[start + 1].clone()));
            out.push(Node::node2(nodes[start + 2].clone(), nodes[start + 3].clone()));
        }
        assert(targets(out@) =~= targets(before) + lifted(rest));
        out
    }
}

} // verus!
