use fingertrees::digit::Digit;
use fingertrees::measure::{measure_slice, Size};
use fingertrees::monoid::Sum;
use fingertrees::node::Node;
use fingertrees::rc::FingerTree as RcFingerTree;
use fingertrees::reference::{RcNode, RcTree};
use fingertrees::sync::FingerTree as ArcFingerTree;
use fingertrees::tree::Tree;
use fingertrees::{FingerTree, Measured, Monoid, NodeInner, RcRefs, Ref, Refs, TreeInner};
use std::fmt::Debug;

const TEST_SIZE: usize = 512;

// Each level of the spine adds one level of depth to all nodes of that level,
// and every cached measure is the join of the measures below it.
fn validate_node<N, V>(depth: usize, node: &Node<N>)
where
    N: Ref<Target = NodeInner<N, V>>,
    V: Measured,
    V::Measure: PartialEq + Debug,
{
    if depth == 0 {
        match node.inner.get() {
            NodeInner::Leaf(..) => (),
            _ => panic!("all zero depth nodes must be leafs"),
        }
    } else {
        match node.inner.get() {
            NodeInner::Leaf(..) => panic!("leaf node with depth: {}", depth),
            NodeInner::Node2 {
                left,
                right,
                measure,
            } => {
                validate_node(depth - 1, left);
                validate_node(depth - 1, right);
                assert_eq!(measure.clone(), left.measure().join(&right.measure()));
            }
            NodeInner::Node3 {
                left,
                middle,
                right,
                measure,
            } => {
                validate_node(depth - 1, left);
                validate_node(depth - 1, middle);
                validate_node(depth - 1, right);
                assert_eq!(
                    measure.clone(),
                    left.measure()
                        .join(&middle.measure())
                        .join(&right.measure())
                );
            }
        }
    }
}

fn validate_tree<N, T, V>(depth: usize, tree: &Tree<N, T>)
where
    N: Ref<Target = NodeInner<N, V>>,
    T: Ref<Target = TreeInner<N, T, V>>,
    V: Measured,
    V::Measure: PartialEq + Debug,
{
    match tree {
        Tree::Empty => (),
        Tree::Single(node) => validate_node(depth, node),
        Tree::Deep(deep) => {
            let deep = deep.get();
            let mut m = V::Measure::unit();

            let left = deep.left.as_slice();
            assert!(1 <= left.len() && left.len() <= 4);
            for node in left {
                validate_node(depth, node);
                m = m.join(&node.measure());
            }

            validate_tree(depth + 1, &deep.spine);
            m = m.join(&deep.spine.measure());

            let right = deep.right.as_slice();
            assert!(1 <= right.len() && right.len() <= 4);
            for node in right {
                validate_node(depth, node);
                m = m.join(&node.measure());
            }

            assert_eq!(deep.measure.clone(), m);
        }
    }
}

fn validate<R, V>(ft: &FingerTree<R, V>)
where
    R: Refs<V>,
    V: Measured,
    V::Measure: PartialEq + Debug,
{
    validate_tree(0, ft.tree())
}

fn sizes(range: std::ops::Range<usize>) -> Vec<Size<usize>> {
    range.map(Size).collect()
}

fn rc_tree(range: std::ops::Range<usize>) -> RcFingerTree<Size<usize>> {
    FingerTree::from_vec(sizes(range))
}

#[test]
fn test_queue() {
    let ft: FingerTree<RcRefs, _> = FingerTree::from_vec(sizes(0..TEST_SIZE));
    validate(&ft);
    assert_eq!(ft.measure().0, TEST_SIZE);

    let mut count = 0;
    let mut iter = ft.iter();
    let mut expected = 0..;
    while let Some(value) = iter.next() {
        assert_eq!(value.0, expected.next().unwrap());
        count += 1;
    }
    assert_eq!(ft.measure().0, count);
}

#[test]
fn test_concat() {
    for split in 0..TEST_SIZE {
        let left: FingerTree<RcRefs, _> = FingerTree::from_vec(sizes(0..split));
        let right: FingerTree<RcRefs, _> = FingerTree::from_vec(sizes(split..TEST_SIZE));

        let ft = left.concat(&right);
        assert_eq!(ft.measure(), left.measure().join(&right.measure()));
        validate(&left);
        validate(&right);
        validate(&ft);

        let mut count = 0;
        for (value, expected) in ft.to_vec().into_iter().zip(0..) {
            assert_eq!(
                value.0,
                expected,
                "failed to concat: {:?} {:?}",
                left.to_vec(),
                right.to_vec()
            );
            count += 1;
        }
        assert_eq!(count, TEST_SIZE);
    }
}

#[test]
fn test_split() {
    let ft: FingerTree<RcRefs, _> = FingerTree::from_vec(sizes(0..TEST_SIZE));
    for split in 0..TEST_SIZE {
        let (left, right) = ft.split(|m| m.0 > split);
        validate(&left);
        validate(&right);
        assert_eq!(left.measure().0, split);
        assert_eq!(right.measure().0, TEST_SIZE - split);
        assert!(ft == left.concat(&right));
        assert_eq!(ft.to_vec(), left.concat(&right).to_vec());
    }
}

#[test]
fn test_reversed() {
    let ft: FingerTree<RcRefs, _> = FingerTree::from_vec(sizes(0..TEST_SIZE));
    assert_eq!(
        ft.iter().to_vec_rev(),
        (0..TEST_SIZE).map(Size).rev().collect::<Vec<_>>()
    );
}

#[test]
fn test_sync_send() {
    fn is_sync<T: Sync>() {}
    fn is_send<T: Send>() {}

    is_sync::<ArcFingerTree<Size<i32>>>();
    is_send::<ArcFingerTree<Size<i32>>>();
}

#[test]
fn simple_queue() {
    let ft: RcFingerTree<_> = rc_tree(0..TEST_SIZE);
    validate(&ft);
    assert_eq!(*ft.measure(), TEST_SIZE);

    let mut count = 0;
    for (value, expected) in ft.to_vec().into_iter().zip(0..) {
        assert_eq!(*value, expected);
        count += 1;
    }
    assert_eq!(*ft.measure(), count);
}

#[test]
fn simple_concat() {
    for split in 0..TEST_SIZE {
        let left: RcFingerTree<_> = rc_tree(0..split);
        let right: RcFingerTree<_> = rc_tree(split..TEST_SIZE);

        let ft = left.concat(&right);
        assert_eq!(ft.measure(), left.measure().join(&right.measure()));
        validate(&left);
        validate(&right);
        validate(&ft);

        let mut count = 0;
        for (value, expected) in ft.to_vec().into_iter().zip(0..) {
            assert_eq!(
                *value,
                expected,
                "failed to concat: {:?} {:?}",
                left.to_vec(),
                right.to_vec()
            );
            count += 1;
        }
        assert_eq!(count, TEST_SIZE);
    }
}

#[test]
fn simple_split() {
    let ft: RcFingerTree<_> = rc_tree(0..TEST_SIZE);
    for split in 0..TEST_SIZE {
        let (left, right) = ft.split(|m| **m > split);
        validate(&left);
        validate(&right);
        assert_eq!(*left.measure(), split);
        assert_eq!(*right.measure(), TEST_SIZE - split);
        assert!(ft == left.concat(&right));
        assert_eq!(ft.to_vec(), left.concat(&right).to_vec());
    }
}

#[test]
fn split_left() {
    let ft: RcFingerTree<_> = rc_tree(0..TEST_SIZE);
    for split in 0..TEST_SIZE {
        let left = ft.split_left(|m| **m > split);
        validate(&left);
        assert_eq!(*left.measure(), split);
        assert_eq!(left.to_vec(), sizes(0..split));
    }
}

#[test]
fn split_right() {
    let ft: RcFingerTree<_> = rc_tree(0..TEST_SIZE);
    for split in 0..TEST_SIZE {
        let right = ft.split_right(|m| **m > split);
        validate(&right);
        assert_eq!(*right.measure(), TEST_SIZE - split);
        assert_eq!(right.to_vec(), sizes(split..TEST_SIZE));
    }
}

#[test]
fn simple_reversed() {
    let ft: RcFingerTree<_> = rc_tree(0..TEST_SIZE);
    assert_eq!(
        ft.iter().to_vec_rev(),
        (0..TEST_SIZE).map(Size).rev().collect::<Vec<_>>()
    );

    let mut iter = ft.iter();
    let mut front = Vec::new();
    for _ in 0..TEST_SIZE / 2 {
        front.push(iter.next().unwrap());
    }
    assert_eq!(front, (0..TEST_SIZE / 2).map(Size).collect::<Vec<_>>());
    assert_eq!(
        iter.to_vec_rev(),
        (TEST_SIZE / 2..TEST_SIZE)
            .rev()
            .map(Size)
            .collect::<Vec<_>>(),
    );
}

#[test]
fn find() {
    let ft: RcFingerTree<_> = rc_tree(0..TEST_SIZE);
    for index in 0..TEST_SIZE {
        assert_eq!(ft.find(|m| **m > index), Some(&Size(index)))
    }
    assert!(ft.find(|m| **m > TEST_SIZE).is_none())
}

#[test]
fn simple_sync_send() {
    trait TestSend: Send {}
    impl<V> TestSend for ArcFingerTree<V>
    where
        V: Measured + Send + Sync,
        V::Measure: Send + Sync,
    {
    }

    trait TestSync: Sync {}
    impl<V> TestSync for ArcFingerTree<V>
    where
        V: Measured + Send + Sync,
        V::Measure: Send + Sync,
    {
    }

    fn is_sync<T: Sync>() {}
    fn is_send<T: Send>() {}
    is_sync::<ArcFingerTree<Size<i32>>>();
    is_send::<ArcFingerTree<Size<i32>>>();
}

#[test]
fn from_slice() {
    for size in 0..TEST_SIZE {
        let vals: Vec<_> = (0..size).map(Size).collect();
        let one: RcFingerTree<_> = FingerTree::from_vec(vals.clone());
        let two = RcFingerTree::from_slice(vals.as_slice());
        validate(&one);
        validate(&two);
        assert_eq!(one.measure(), two.measure());
        assert!(one == two);
        assert_eq!(one.to_vec(), two.to_vec());
        assert_eq!(vals.as_slice().measure(), two.measure());
    }
}

#[test]
fn split_and_concat_every_length() {
    for len in 0..40usize {
        let ft: ArcFingerTree<_> = FingerTree::from_slice(sizes(0..len).as_slice());
        for index in 0..=len {
            let (left, right) = ft.split(|m| **m > index);
            validate(&left);
            validate(&right);
            assert_eq!(*left.measure(), index);
            assert_eq!(*right.measure(), len - index);
            assert_eq!(left.to_vec(), sizes(0..index));
            assert_eq!(right.to_vec(), sizes(index..len));
            assert!(left.concat(&right) == ft);
        }
    }
}

#[test]
fn empty_tree_boundary() {
    let ft: RcFingerTree<Size<usize>> = FingerTree::new();
    assert!(ft.is_empty());
    assert!(ft.view_left().is_none());
    assert!(ft.view_right().is_none());
    assert_eq!(ft.measure(), Sum(0));
    let (left, right) = ft.split(|m| **m > 0);
    assert!(left.is_empty());
    assert!(right.is_empty());
    assert!(ft.split_left(|m| **m > 0).is_empty());
    assert!(ft.split_right(|m| **m > 0).is_empty());
    assert!(ft.find(|m| **m > 0).is_none());
    assert!(ft.iter().next().is_none());
    assert!(ft.iter().next_back().is_none());
    assert!(ft.to_vec().is_empty());
    assert!(ft.concat(&ft).is_empty());
    let other: RcFingerTree<Size<usize>> = FingerTree::default();
    assert!(other.is_empty());
    assert!(ft == other);
}

#[test]
fn five_words() {
    let words = vec!["one", "two", "three", "four", "five"];
    let ft: RcFingerTree<_> = FingerTree::from_vec(words.iter().cloned().map(Size).collect());
    assert_eq!(ft.measure(), Sum(5));

    let (left, right) = ft.split(|measure| *measure > Sum(2));
    assert_eq!(left.measure(), Sum(2));
    assert_eq!(left.to_vec(), vec![Size("one"), Size("two")]);
    assert_eq!(right.measure(), Sum(3));
    assert_eq!(
        right.to_vec(),
        vec![Size("three"), Size("four"), Size("five")]
    );

    assert!(ft == left.concat(&right));

    let pushed = ft.push_left(Size("left")).push_right(Size("right"));
    assert_eq!(pushed.measure(), Sum(7));
    assert_eq!(
        pushed.to_vec(),
        vec!["left", "one", "two", "three", "four", "five", "right"]
            .into_iter()
            .map(Size)
            .collect::<Vec<_>>()
    );
    // the tree that was pushed to is the same as before
    assert_eq!(ft.measure(), Sum(5));
    assert_eq!(
        ft.to_vec(),
        words.iter().cloned().map(Size).collect::<Vec<_>>()
    );
}

#[test]
fn push_and_view_at_both_ends() {
    let mut ft: ArcFingerTree<Size<usize>> = FingerTree::new();
    for i in 0..100 {
        ft = ft.push_left(Size(99 - i));
        validate(&ft);
        assert_eq!(*ft.measure(), i + 1);
    }
    assert_eq!(ft.to_vec(), sizes(0..100));

    let mut rest = ft.clone();
    for i in 0..100 {
        let (value, tail) = rest.view_left().unwrap();
        assert_eq!(value, Size(i));
        validate(&tail);
        assert_eq!(tail.to_vec(), sizes(i + 1..100));
        rest = tail;
    }
    assert!(rest.is_empty());

    let mut rest = ft.clone();
    for i in (0..100).rev() {
        let (value, tail) = rest.view_right().unwrap();
        assert_eq!(value, Size(i));
        validate(&tail);
        assert_eq!(tail.to_vec(), sizes(0..i));
        rest = tail;
    }
    assert!(rest.is_empty());
    // the views have left the tree as it was
    assert_eq!(ft.to_vec(), sizes(0..100));
}

#[test]
fn interleaved_iteration() {
    for len in [0usize, 1, 2, 3, 9, 64, 100] {
        let ft: RcFingerTree<_> = rc_tree(0..len);
        let mut iter = ft.iter();
        let mut front = Vec::new();
        let mut back = Vec::new();
        let mut turn = 0;
        loop {
            let next = if turn % 3 == 0 {
                iter.next_back().map(|v| back.push(v))
            } else {
                iter.next().map(|v| front.push(v))
            };
            if next.is_none() {
                break;
            }
            turn += 1;
        }
        assert!(iter.next().is_none());
        assert!(iter.next_back().is_none());
        assert_eq!(front.len() + back.len(), len);
        back.reverse();
        front.extend(back);
        assert_eq!(front, sizes(0..len));
    }
}

#[test]
fn equality_is_by_values() {
    let one = rc_tree(0..20);
    let two = rc_tree(0..10).concat(&rc_tree(10..20));
    assert!(one == two);
    assert!(one != rc_tree(0..19));
    assert!(rc_tree(0..19) != one);
    assert!(one != rc_tree(1..21));
    let empty: RcFingerTree<Size<usize>> = FingerTree::new();
    assert!(empty != one);
    assert!(one != empty);
}

#[test]
fn values_by_reference() {
    let ft = rc_tree(0..33);
    let values = ft.values();
    assert_eq!(values.len(), 33);
    for (i, value) in values.into_iter().enumerate() {
        assert_eq!(*value, Size(i));
    }
}

#[test]
fn split_when_predicate_never_holds() {
    let ft = rc_tree(0..10);
    let (left, right) = ft.split(|m| **m > 10);
    assert_eq!(left.to_vec(), sizes(0..10));
    assert!(right.is_empty());
    assert_eq!(ft.split_left(|m| **m > 10).to_vec(), sizes(0..10));
    assert!(ft.split_right(|m| **m > 10).is_empty());
}

#[test]
fn split_when_predicate_always_holds() {
    let ft = rc_tree(0..10);
    let (left, right) = ft.split(|_| true);
    assert!(left.is_empty());
    assert_eq!(right.to_vec(), sizes(0..10));
    assert_eq!(ft.find(|_| true), Some(&Size(0)));
}

#[test]
fn sum_is_a_monoid() {
    assert_eq!(Sum::<usize>::unit(), Sum(0));
    assert_eq!(Sum(2usize).join(&Sum(3)), Sum(5));
    assert_eq!(Sum(7usize).join(&Sum::unit()), Sum(7));
    assert_eq!(Sum::<usize>::unit().join(&Sum(7)), Sum(7));
    assert_eq!(Sum(usize::MAX).join(&Sum(1)), Sum(0));
    assert_eq!(Sum(usize::MAX).join(&Sum(usize::MAX)), Sum(usize::MAX - 1));
    let (a, b, c) = (Sum(usize::MAX - 1), Sum(5usize), Sum(usize::MAX));
    assert_eq!(a.join(&b).join(&c), a.join(&b.join(&c)));
    assert_eq!(*Sum(4usize), 4);
    assert_eq!(Sum(4usize).clone(), Sum(4));
}

#[test]
fn size_counts_one() {
    assert_eq!(Size("a").measure(), Sum(1));
    assert_eq!(*Size(17), 17);
    assert_eq!(Size(17).clone(), Size(17));
    assert_eq!(measure_slice::<Size<u8>>(&[]), Sum(0));
    assert_eq!(measure_slice(&[Size(1), Size(1), Size(1)]), Sum(3));
}

fn digit(range: std::ops::Range<usize>) -> Digit<Size<usize>> {
    Digit::from_slice(sizes(range).as_slice())
}

#[test]
fn digit_split_scans_from_the_left() {
    let four = digit(0..4);
    assert_eq!(four.measure(), Sum(4));
    assert_eq!(four.as_slice(), sizes(0..4).as_slice());
    for k in 0..4usize {
        let (before, at, after) = four.split(&Sum(10), &|m: &Sum<usize>| **m > 10 + k);
        assert_eq!(before, sizes(0..k).as_slice());
        assert_eq!(*at, Size(k));
        assert_eq!(after, sizes(k + 1..4).as_slice());
        let (measure, found) = four.find(Sum(10), &|m: &Sum<usize>| **m > 10 + k);
        assert_eq!(measure, Sum(10 + k));
        assert_eq!(*found, Size(k));
    }
    // the scan stops at the last item when the predicate never holds
    let (before, at, after) = four.split(&Sum(0), &|_: &Sum<usize>| false);
    assert_eq!(before, sizes(0..3).as_slice());
    assert_eq!(*at, Size(3));
    assert!(after.is_empty());
    let (measure, found) = four.find(Sum(0), &|_: &Sum<usize>| false);
    assert_eq!(measure, Sum(3));
    assert_eq!(*found, Size(3));
    // a digit of one item is not scanned
    let one = digit(7..8);
    let (before, at, after) = one.split(&Sum(0), &|_: &Sum<usize>| false);
    assert!(before.is_empty());
    assert_eq!(*at, Size(7));
    assert!(after.is_empty());
    let (measure, found) = one.find(Sum(5), &|_: &Sum<usize>| false);
    assert_eq!(measure, Sum(5));
    assert_eq!(*found, Size(7));
}

#[test]
fn digit_append_and_clone() {
    for n in 1..=4usize {
        for m in 0..=(4 - n) {
            let joined = digit(0..n).append(sizes(n..n + m).as_slice());
            assert_eq!(joined.as_slice(), sizes(0..n + m).as_slice());
            assert_eq!(joined.clone().as_slice(), sizes(0..n + m).as_slice());
            let expected = match n + m {
                1 => matches!(joined, Digit::One(_)),
                2 => matches!(joined, Digit::Two(_)),
                3 => matches!(joined, Digit::Three(_)),
                _ => matches!(joined, Digit::Four(_)),
            };
            assert!(expected);
        }
    }
}

type Leafs = Vec<Node<RcNode<Size<usize>>>>;

fn leafs(range: std::ops::Range<usize>) -> Leafs {
    range.map(|i| Node::leaf(Size(i))).collect()
}

fn leaf_value(node: &Node<RcNode<Size<usize>>>) -> usize {
    match node.inner.get() {
        NodeInner::Leaf(value) => **value,
        _ => panic!("not a leaf"),
    }
}

// the sizes of the groups, and the values in them
fn groups(nodes: &Leafs) -> Vec<Vec<usize>> {
    nodes
        .iter()
        .map(|node| match node.inner.get() {
            NodeInner::Leaf(value) => vec![**value],
            NodeInner::Node2 {
                left,
                right,
                measure,
            } => {
                assert_eq!(*measure, Sum(2));
                vec![leaf_value(left), leaf_value(right)]
            }
            NodeInner::Node3 {
                left,
                middle,
                right,
                measure,
            } => {
                assert_eq!(*measure, Sum(3));
                vec![leaf_value(left), leaf_value(middle), leaf_value(right)]
            }
        })
        .collect()
}

#[test]
fn lift_groups_by_three_then_two() {
    assert!(Node::lift(leafs(0..0).as_slice()).is_empty());
    assert_eq!(groups(&Node::lift(leafs(0..2).as_slice())), vec![vec![0, 1]]);
    assert_eq!(
        groups(&Node::lift(leafs(0..3).as_slice())),
        vec![vec![0, 1, 2]]
    );
    assert_eq!(
        groups(&Node::lift(leafs(0..4).as_slice())),
        vec![vec![0, 1], vec![2, 3]]
    );
    assert_eq!(
        groups(&Node::lift(leafs(0..5).as_slice())),
        vec![vec![0, 1, 2], vec![3, 4]]
    );
    assert_eq!(
        groups(&Node::lift(leafs(0..6).as_slice())),
        vec![vec![0, 1, 2], vec![3, 4, 5]]
    );
    assert_eq!(
        groups(&Node::lift(leafs(0..7).as_slice())),
        vec![vec![0, 1, 2], vec![3, 4], vec![5, 6]]
    );
    assert_eq!(
        groups(&Node::lift(leafs(0..11).as_slice())),
        vec![vec![0, 1, 2], vec![3, 4, 5], vec![6, 7, 8], vec![9, 10]]
    );
}

#[test]
fn nodes_cache_the_join_of_their_children() {
    let pair: Node<RcNode<Size<usize>>> = Node::node2(Node::leaf(Size(1)), Node::leaf(Size(2)));
    assert_eq!(pair.measure(), Sum(2));
    let triple = Node::node3(pair.clone(), pair.clone(), pair.clone());
    assert_eq!(triple.measure(), Sum(6));
    let children = Digit::from_node(&triple);
    assert_eq!(children.as_slice().len(), 3);
    assert_eq!(children.measure(), Sum(6));
    let itself = Digit::from_node(&Node::<RcNode<Size<usize>>>::leaf(Size(3)));
    assert_eq!(itself.as_slice().len(), 1);
    assert_eq!(leaf_value(&itself.as_slice()[0]), 3);
}

// what the digits of a tree that is built at once hold
fn shape(ft: &RcFingerTree<Size<usize>>) -> Option<(usize, usize)> {
    let tree: &Tree<RcNode<Size<usize>>, RcTree<Size<usize>>> = ft.tree();
    match tree {
        Tree::Deep(deep) => {
            let deep = deep.get();
            Some((deep.left.as_slice().len(), deep.right.as_slice().len()))
        }
        _ => None,
    }
}

#[test]
fn from_slice_fills_the_digits_first() {
    let expected = [
        (2, (1, 1)),
        (3, (2, 1)),
        (4, (2, 2)),
        (5, (3, 2)),
        (6, (3, 3)),
        (7, (4, 3)),
        (8, (4, 4)),
        (9, (4, 3)),
        (10, (4, 4)),
        (100, (4, 4)),
    ];
    for (len, digits) in expected {
        let ft = RcFingerTree::from_slice(sizes(0..len).as_slice());
        assert_eq!(shape(&ft), Some(digits));
        assert_eq!(ft.to_vec(), sizes(0..len));
    }
    assert!(matches!(
        RcFingerTree::from_slice(sizes(0..0).as_slice()).tree(),
        Tree::Empty
    ));
    assert!(matches!(
        RcFingerTree::from_slice(sizes(0..1).as_slice()).tree(),
        Tree::Single(_)
    ));
}

#[test]
fn a_clone_shares_and_stays() {
    let ft = rc_tree(0..50);
    let copy = ft.clone();
    let longer = copy.push_right(Size(50));
    assert_eq!(ft.to_vec(), sizes(0..50));
    assert_eq!(copy.to_vec(), sizes(0..50));
    assert_eq!(longer.to_vec(), sizes(0..51));

    let shared: ArcFingerTree<_> = FingerTree::from_vec(sizes(0..50));
    let copy = shared.clone();
    let longer = copy.push_left(Size(99));
    assert_eq!(shared.to_vec(), sizes(0..50));
    assert_eq!(*longer.measure(), 51);
    assert_eq!(longer.view_left().unwrap().0, Size(99));
}
