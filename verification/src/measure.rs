//! The [`Measured`] trait, the [`Size`] measure, and the measure of a
//! sequence of values.
use crate::monoid::{lemma_sum_clone, Monoid, Sum};
use std::ops::Deref;
use vstd::prelude::*;

verus! {

/// A value with a monoidal measure.
///
/// The value and its measure must both be cheap to clone; a value that is
/// not can be put behind an `Rc` or an `Arc` first. A clone of a measure is
/// the same measure: a tree hands out clones of the measures it has cached.
pub trait Measured: Clone {
    /// Measure type
    type Measure: Monoid + Clone;

    /// The measure of this value.
    spec fn spec_measure(&self) -> Self::Measure;

    /// Cloning a measure yields an equal measure.
    proof fn lemma_measure_clone(a: Self::Measure, b: Self::Measure)
        requires
            cloned(a, b),
        ensures
            a == b,
    ;

    /// Associated measure with given value
    fn measure(&self) -> (r: Self::Measure)
        ensures
            r == self.spec_measure(),
    ;
}

/// The measure reached from `base` by joining to it, from left to right, the
/// measures of the values in `s`.
pub open spec fn scan<V: Measured>(base: V::Measure, s: Seq<V>) -> V::Measure
    decreases s.len(),
{
    if s.len() == 0 {
        base
    } else {
        scan(base, s.drop_last()).spec_join(&s.last().spec_measure())
    }
}

/// The measure of a sequence: the join of the measures of its values, in
/// order; the unit for the empty sequence.
pub open spec fn measure_of<V: Measured>(s: Seq<V>) -> V::Measure {
    scan(V::Measure::spec_unit(), s)
}

/// Scanning one value joins its measure to the base.
pub proof fn lemma_scan_one<V: Measured>(base: V::Measure, v: V)
    ensures
        scan(base, seq![v]) == base.spec_join(&v.spec_measure()),
{
    assert(seq![v].drop_last() =~= Seq::<V>::empty());
    assert(scan(base, seq![v].drop_last()) == base);
}

/// Scanning a concatenation is scanning its second part from where the
/// scan of the first part ended.
pub proof fn lemma_scan_concat<V: Measured>(base: V::Measure, a: Seq<V>, b: Seq<V>)
    ensures
        scan(base, a + b) == scan(scan(base, a), b),
    decreases b.len(),
{
    if b.len() == 0 {
        assert(a + b =~= a);
    } else {
        assert((a + b).drop_last() =~= a + b.drop_last());
        assert((a + b).last() == b.last());
        lemma_scan_concat(base, a, b.drop_last());
    }
}

/// Scanning from a base is joining the base with the measure of the
/// sequence.
pub proof fn lemma_scan_base<V: Measured>(base: V::Measure, s: Seq<V>)
    ensures
        scan(base, s) == base.spec_join(&measure_of(s)),
    decreases s.len(),
{
    if s.len() == 0 {
        V::Measure::lemma_unit_right(base);
    } else {
        lemma_scan_base(base, s.drop_last());
        V::Measure::lemma_assoc(base, measure_of(s.drop_last()), s.last().spec_measure());
    }
}

/// Joining the measure of `more` to a scan of `before` continues the scan
/// over `more`.
pub proof fn lemma_scan_join<V: Measured>(base: V::Measure, before: Seq<V>, more: Seq<V>)
    ensures
        scan(base, before).spec_join(&measure_of(more)) == scan(base, before + more),
{
    lemma_scan_concat(base, before, more);
    lemma_scan_base(scan(base, before), more);
}

/// The measure of a concatenation is the join of the measures of its parts.
pub proof fn lemma_measure_concat<V: Measured>(a: Seq<V>, b: Seq<V>)
    ensures
        measure_of(a + b) == measure_of(a).spec_join(&measure_of(b)),
{
    lemma_scan_concat(V::Measure::spec_unit(), a, b);
    lemma_scan_base(measure_of(a), b);
}

/// The measure of a single value is the measure of the sequence that holds
/// only that value.
pub proof fn lemma_measure_one<V: Measured>(v: V)
    ensures
        measure_of(seq![v]) == v.spec_measure(),
{
    lemma_scan_one(V::Measure::spec_unit(), v);
    V::Measure::lemma_unit_left(v.spec_measure());
}

/// The measure of up to four values, written out value by value.
pub proof fn lemma_measure_few<V: Measured>(s: Seq<V>)
    ensures
        s.len() == 0 ==> measure_of(s) == V::Measure::spec_unit(),
        s.len() == 1 ==> measure_of(s) == s[0].spec_measure(),
        s.len() == 2 ==> measure_of(s) == s[0].spec_measure().spec_join(&s[1].spec_measure()),
        s.len() == 3 ==> measure_of(s) == s[0].spec_measure().spec_join(
            &s[1].spec_measure(),
        ).spec_join(&s[2].spec_measure()),
        s.len() == 4 ==> measure_of(s) == s[0].spec_measure().spec_join(
            &s[1].spec_measure(),
        ).spec_join(&s[2].spec_measure()).spec_join(&s[3].spec_measure()),
    decreases s.len(),
{
    if s.len() > 0 && s.len() <= 4 {
        lemma_measure_few(s.drop_last());
        if s.len() == 1 {
            V::Measure::lemma_unit_left(s[0].spec_measure());
        }
    }
}

/// `pred` may be called on every measure.
pub open spec fn total<M, F: Fn(&M) -> bool>(pred: F) -> bool {
    forall|m: M| #[trigger] pred.requires((&m,))
}

/// `pred` is a function of the measure: it never gives two answers about one
/// measure.
pub open spec fn functional<M, F: Fn(&M) -> bool>(pred: F) -> bool {
    forall|m: M| !(#[trigger] pred.ensures((&m,), true) && pred.ensures((&m,), false))
}

/// `pred` can answer `answer` when it is asked about `m`.
pub open spec fn answers<M, F: Fn(&M) -> bool>(pred: F, m: M, answer: bool) -> bool {
    pred.ensures((&m,), answer)
}

/// `i` is a place in `s` at which `pred` turns true along a scan from
/// `base`: it holds of the measure accumulated up to and including `s[i]`,
/// and, unless `i` is the first place, not of the measure accumulated
/// before `s[i]`.
pub open spec fn found_at<V: Measured, F: Fn(&V::Measure) -> bool>(
    pred: F,
    base: V::Measure,
    s: Seq<V>,
    i: int,
) -> bool {
    &&& 0 <= i < s.len()
    &&& i > 0 ==> answers(pred, scan(base, s.take(i)), false)
    &&& answers(pred, scan(base, s.take(i + 1)), true)
}

/// `i` is where a search for the place at which `pred` turns true along a
/// scan of `s` from `base` ends: `pred` does not hold of the measure
/// accumulated before `s[i]`, unless `i` is the first place, and it holds
/// of the measure accumulated up to and including `s[i]`, unless `i` is the
/// last place, where the search ends whatever `pred` says.
pub open spec fn ends_at<V: Measured, F: Fn(&V::Measure) -> bool>(
    pred: F,
    base: V::Measure,
    s: Seq<V>,
    i: int,
) -> bool {
    &&& 0 <= i < s.len()
    &&& i > 0 ==> answers(pred, scan(base, s.take(i)), false)
    &&& answers(pred, scan(base, s.take(i + 1)), true) || i + 1 == s.len()
}

/// Where `pred` holds of the whole scan, a search ends at a place at which
/// `pred` turns true.
pub proof fn lemma_ends_found<V: Measured, F: Fn(&V::Measure) -> bool>(
    pred: F,
    base: V::Measure,
    s: Seq<V>,
    i: int,
)
    requires
        ends_at(pred, base, s, i),
        answers(pred, scan(base, s), true),
    ensures
        found_at(pred, base, s, i),
{
    if i + 1 == s.len() {
        assert(s.take(i + 1) =~= s);
    }
}

/// Where a search ends in `part`, scanned from where the scan of `before`
/// ended, is where it ends in a sequence that holds `part` between `before`
/// and `after`: if `pred` does not hold at the end of `before`, and holds
/// at the end of `part` where something comes after it.
pub proof fn lemma_ends_within<V: Measured, F: Fn(&V::Measure) -> bool>(
    pred: F,
    base: V::Measure,
    before: Seq<V>,
    part: Seq<V>,
    after: Seq<V>,
    whole: Seq<V>,
    j: int,
)
    requires
        ends_at(pred, scan(base, before), part, j),
        before.len() > 0 ==> answers(pred, scan(base, before), false),
        after.len() > 0 ==> answers(pred, scan(scan(base, before), part), true),
        whole =~= before + part + after,
    ensures
        ends_at(pred, base, whole, before.len() + j),
        whole[before.len() + j] == part[j],
{
    assert(whole.take(before.len() + j) =~= before + part.take(j));
    assert(whole.take(before.len() + j + 1) =~= before + part.take(j + 1));
    lemma_scan_concat(base, before, part.take(j));
    lemma_scan_concat(base, before, part.take(j + 1));
    if j == 0 {
        assert(part.take(0) =~= Seq::<V>::empty());
    }
    if j + 1 == part.len() {
        assert(part.take(j + 1) =~= part);
    }
}

/// The measure of a slice of values.
pub fn measure_slice<V: Measured>(values: &[V]) -> (r: V::Measure)
    ensures
        r == measure_of(values@),
{
    let mut acc = V::Measure::unit();
    let mut i: usize = 0;
    while i < values.len()
        invariant
            i <= values.len(),
            acc == measure_of(values@.take(i as int)),
        decreases values.len() - i,
    {
        proof {
            let a = values@.take(i as int);
            assert(values@.take(i + 1).drop_last() =~= a);
        }
        acc = acc.join(&values[i].measure());
        i += 1;
    }
    assert(values@.take(i as int) =~= values@);
    acc
}

impl<'a, T: Measured> Measured for &'a [T] {
    type Measure = T::Measure;

    /// The measure of a slice is the join of the measures of its values.
    open spec fn spec_measure(&self) -> T::Measure {
        measure_of(self@)
    }

    proof fn lemma_measure_clone(a: T::Measure, b: T::Measure) {
        T::lemma_measure_clone(a, b);
    }

    fn measure(&self) -> (r: T::Measure) {
        measure_slice(*self)
    }
}

/// A value that counts as one: the measure of a sequence of `Size` values
/// is its length.
#[derive(Debug, PartialEq, Eq)]
pub struct Size<T>(pub T);

impl<T: Clone> Clone for Size<T> {
    fn clone(&self) -> (r: Self)
        ensures
            cloned(self.0, r.0),
    {
        Size(self.0.clone())
    }
}

impl<T> Deref for Size<T> {
    type Target = T;

    fn deref(&self) -> (r: &T)
        ensures
            *r == self.0,
    {
        &self.0
    }
}

impl<T: Clone> Measured for Size<T> {
    type Measure = Sum<usize>;

    open spec fn spec_measure(&self) -> Sum<usize> {
        Sum(1)
    }

    proof fn lemma_measure_clone(a: Sum<usize>, b: Sum<usize>) {
        lemma_sum_clone(a, b);
    }

    fn measure(&self) -> (r: Sum<usize>) {
        Sum(1)
    }
}

/// The measure of a sequence of `Size` values is its length, as long as
/// the length fits a `usize`.
pub proof fn lemma_size_measure<T: Clone>(s: Seq<Size<T>>)
    requires
        s.len() <= usize::MAX,
    ensures
        measure_of(s) == Sum(s.len() as usize),
    decreases s.len(),
{
    if s.len() > 0 {
        lemma_size_measure(s.drop_last());
    }
}

} // verus!
