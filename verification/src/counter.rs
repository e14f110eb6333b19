//! Like a set, but keeps counts of repeated keys.

use crate::cursor::{lex_le, BegCursor};
use vstd::multiset::Multiset;
use vstd::prelude::*;

verus! {

/// A key type with a total order that can be decided at run time.
pub trait TotalOrder: Copy {
    /// The order: `self` comes no later than `other`.
    spec fn ord_le(self, other: Self) -> bool;

    /// `ord_le` is reflexive, total, antisymmetric and transitive.
    proof fn lemma_total_order(a: Self, b: Self, c: Self)
        ensures
            a.ord_le(a),
            a.ord_le(b) || b.ord_le(a),
            a.ord_le(b) && b.ord_le(a) ==> a == b,
            a.ord_le(b) && b.ord_le(c) ==> a.ord_le(c),
    ;

    /// Decides `ord_le`.
    fn at_most(&self, other: &Self) -> (r: bool)
        ensures
            r == self.ord_le(*other),
    ;

    /// Decides equality.
    fn same_as(&self, other: &Self) -> (r: bool)
        ensures
            r == (*self == *other),
    ;
}

impl TotalOrder for i32 {
    open spec fn ord_le(self, other: Self) -> bool {
        self <= other
    }

    proof fn lemma_total_order(a: Self, b: Self, c: Self) {
    }

    fn at_most(&self, other: &Self) -> (r: bool) {
        *self <= *other
    }

    fn same_as(&self, other: &Self) -> (r: bool) {
        *self == *other
    }
}

impl TotalOrder for BegCursor {
    open spec fn ord_le(self, other: Self) -> bool {
        lex_le(self.pos(), other.pos())
    }

    proof fn lemma_total_order(a: Self, b: Self, c: Self) {
    }

    fn at_most(&self, other: &Self) -> (r: bool) {
        self.cycle < other.cycle || (self.cycle == other.cycle && self.offset <= other.offset)
    }

    fn same_as(&self, other: &Self) -> (r: bool) {
        self.cycle == other.cycle && self.offset == other.offset
    }
}

/// `x` occurs in `m` and nothing in `m` comes before it.
pub open spec fn is_least<T: TotalOrder>(m: Multiset<T>, x: T) -> bool {
    &&& m.count(x) > 0
    &&& forall|y: T| #[trigger] m.count(y) > 0 ==> x.ord_le(y)
}

/// `x` occurs in `m` and nothing in `m` comes after it.
pub open spec fn is_greatest<T: TotalOrder>(m: Multiset<T>, x: T) -> bool {
    &&& m.count(x) > 0
    &&& forall|y: T| #[trigger] m.count(y) > 0 ==> y.ord_le(x)
}

/// The smallest value that occurs in `m`, if any does.
pub open spec fn least<T: TotalOrder>(m: Multiset<T>) -> Option<T> {
    if exists|x: T| is_least(m, x) {
        Some(choose|x: T| is_least(m, x))
    } else {
        None
    }
}

/// The largest value that occurs in `m`, if any does.
pub open spec fn greatest<T: TotalOrder>(m: Multiset<T>) -> Option<T> {
    if exists|x: T| is_greatest(m, x) {
        Some(choose|x: T| is_greatest(m, x))
    } else {
        None
    }
}

/// A multiset has at most one least value, so finding one finds `least`.
pub proof fn lemma_least_unique<T: TotalOrder>(m: Multiset<T>, x: T)
    requires
        is_least(m, x),
    ensures
        least(m) == Some(x),
{
    let y = choose|y: T| is_least(m, y);
    T::lemma_total_order(x, y, x);
}

/// A multiset has at most one greatest value, so finding one finds
/// `greatest`.
pub proof fn lemma_greatest_unique<T: TotalOrder>(m: Multiset<T>, x: T)
    requires
        is_greatest(m, x),
    ensures
        greatest(m) == Some(x),
{
    let y = choose|y: T| is_greatest(m, y);
    T::lemma_total_order(x, y, x);
}

/// An empty multiset has neither a least nor a greatest value.
pub proof fn lemma_empty_has_no_extremes<T: TotalOrder>(m: Multiset<T>)
    requires
        m.len() == 0,
    ensures
        least(m).is_none(),
        greatest(m).is_none(),
{
    broadcast use vstd::multiset::group_multiset_axioms;

    assert forall|x: T| !is_least(m, x) && !is_greatest(m, x) by {
        assert(m.count(x) <= m.len());
    }
}

/// The multiset that holds `keys[i]` exactly `counts[i]` times.
spec fn tally<T>(keys: Seq<T>, counts: Seq<usize>) -> Multiset<T> {
    Multiset::from_map(
        Map::new(|k: T| keys.contains(k), |k: T| counts[keys.index_of(k)] as nat),
    )
}

proof fn lemma_tally_count<T>(keys: Seq<T>, counts: Seq<usize>, k: T)
    requires
        keys.len() == counts.len(),
        keys.no_duplicates(),
    ensures
        keys.contains(k) ==> tally(keys, counts).count(k) == counts[keys.index_of(k)],
        !keys.contains(k) ==> tally(keys, counts).count(k) == 0,
        forall|i: int| 0 <= i < keys.len() && keys[i] == k ==> keys.index_of(k) == i,
{
    broadcast use vstd::multiset::group_multiset_axioms;

    let m = Map::new(|k: T| keys.contains(k), |k: T| counts[keys.index_of(k)] as nat);
    assert(m.dom() =~= keys.to_set());
    vstd::seq_lib::seq_to_set_is_finite(keys);
}

/// Keeps, for each key, how many times it was inserted and not yet removed.
#[derive(Debug)]
pub struct Counter<T: TotalOrder> {
    keys: Vec<T>,
    counts: Vec<usize>,
}

impl<T: TotalOrder> View for Counter<T> {
    type V = Multiset<T>;

    closed spec fn view(&self) -> Multiset<T> {
        tally(self.keys@, self.counts@)
    }
}

impl<T: TotalOrder> Counter<T> {
    /// Every key is stored once, with a positive count.
    pub closed spec fn wf(&self) -> bool {
        &&& self.keys@.len() == self.counts@.len()
        &&& self.keys@.no_duplicates()
        &&& forall|i: int| 0 <= i < self.counts@.len() ==> self.counts@[i] > 0
    }

    proof fn lemma_view(&self)
        requires
            self.wf(),
        ensures
            forall|i: int|
                0 <= i < self.keys@.len() ==> #[trigger] self@.count(self.keys@[i])
                    == self.counts@[i],
            forall|k: T| !self.keys@.contains(k) ==> #[trigger] self@.count(k) == 0,
            forall|k: T| #[trigger] self@.count(k) > 0 ==> self.keys@.contains(k),
    {
        assert forall|i: int| 0 <= i < self.keys@.len() implies #[trigger] self@.count(
            self.keys@[i],
        ) == self.counts@[i] by {
            lemma_tally_count(self.keys@, self.counts@, self.keys@[i]);
        }
        assert forall|k: T| !self.keys@.contains(k) implies #[trigger] self@.count(k) == 0 by {
            lemma_tally_count(self.keys@, self.counts@, k);
        }
    }

    /// A counter that holds nothing.
    pub fn new() -> (r: Self)
        ensures
            r.wf(),
            r@ == Multiset::<T>::empty(),
    {
        let r = Counter { keys: Vec::new(), counts: Vec::new() };
        proof {
            broadcast use vstd::multiset::group_multiset_axioms;

            r.lemma_view();
            assert(r@ =~= Multiset::<T>::empty());
        }
        r
    }

    /// Whether the counter holds nothing.
    pub fn is_empty(&self) -> (r: bool)
        requires
            self.wf(),
        ensures
            r == (self@.len() == 0),
    {
        proof {
            broadcast use vstd::multiset::group_multiset_axioms;

            self.lemma_view();
            if self.keys@.len() > 0 {
                assert(self@.count(self.keys@[0]) > 0);
                assert(self@.count(self.keys@[0]) <= self@.len());
            } else {
                assert(self@ =~= Multiset::<T>::empty());
            }
        }
        self.keys.len() == 0
    }

    /// How many times `v` is held.
    pub fn count(&self, v: &T) -> (r: usize)
        requires
            self.wf(),
        ensures
            r == self@.count(*v),
    {
        proof {
            self.lemma_view();
        }
        match self.position(v) {
            Some(i) => self.counts[i],
            None => 0,
        }
    }

    /// Whether some key is held so often that one more occurrence of it
    /// could not be counted.
    pub fn saturated(&self) -> (r: bool)
        requires
            self.wf(),
        ensures
            r == (exists|k: T| #[trigger] self@.count(k) >= usize::MAX),
    {
        proof {
            self.lemma_view();
        }
        let mut i: usize = 0;
        while i < self.counts.len()
            invariant
                self.wf(),
                i <= self.counts@.len(),
                forall|j: int| 0 <= j < i ==> self.counts@[j] < usize::MAX,
            decreases self.counts@.len() - i,
        {
            if self.counts[i] == usize::MAX {
                proof {
                    self.lemma_view();
                    assert(self@.count(self.keys@[i as int]) >= usize::MAX);
                }
                return true;
            }
            i += 1;
        }
        proof {
            assert forall|k: T| !(#[trigger] self@.count(k) >= usize::MAX) by {
                if self.keys@.contains(k) {
                    let j = self.keys@.index_of(k);
                    assert(self@.count(self.keys@[j]) == self.counts@[j]);
                }
            }
        }
        false
    }

    /// Where `v` is stored, if it is held at all.
    fn position(&self, v: &T) -> (r: Option<usize>)
        requires
            self.wf(),
        ensures
            match r {
                Some(i) => i < self.keys@.len() && self.keys@[i as int] == *v,
                None => !self.keys@.contains(*v),
            },
    {
        let mut i: usize = 0;
        while i < self.keys.len()
            invariant
                i <= self.keys@.len(),
                forall|j: int| 0 <= j < i ==> self.keys@[j] != *v,
            decreases self.keys@.len() - i,
        {
            if self.keys[i].same_as(v) {
                return Some(i);
            }
            i += 1;
        }
        None
    }

    /// Adds one occurrence of `v`.
    pub fn insert(&mut self, v: T)
        requires
            old(self).wf(),
            old(self)@.count(v) < usize::MAX,
        ensures
            final(self).wf(),
            final(self)@ == old(self)@.insert(v),
    {
        proof {
            self.lemma_view();
        }
        match self.position(&v) {
            Some(i) => {
                let c: usize = self.counts[i];
                self.counts[i] = c + 1;
                assert(self.keys@[i as int] == v);
            },
            None => {
                self.keys.push(v);
                self.counts.push(1);
                assert(self.keys@[self.keys@.len() - 1] == v);
            },
        }
        proof {
            broadcast use vstd::multiset::group_multiset_axioms;

            assert(self.keys@.contains(v));
            assert(self.wf());
            self.lemma_view();
            old(self).lemma_view();
            assert forall|k: T| self@.count(k) == old(self)@.insert(v).count(k) by {
                if self.keys@.contains(k) {
                    let j = self.keys@.index_of(k);
                    assert(self@.count(self.keys@[j]) == self.counts@[j]);
                    if j < old(self).keys@.len() {
                        assert(old(self).keys@[j] == k);
                        assert(old(self)@.count(old(self).keys@[j]) == old(self).counts@[j]);
                        if k == v {
                            assert(self.counts@[j] == old(self).counts@[j] + 1);
                        } else {
                            assert(self.counts@[j] == old(self).counts@[j]);
                        }
                    } else {
                        assert(k == v);
                        assert(!old(self).keys@.contains(k));
                        assert(self.counts@[j] == 1);
                    }
                } else {
                    assert(k != v);
                    assert(!old(self).keys@.contains(k)) by {
                        if old(self).keys@.contains(k) {
                            let j = old(self).keys@.index_of(k);
                            assert(self.keys@[j] == k);
                        }
                    }
                }
            }
            assert(self@ =~= old(self)@.insert(v));
        }
    }

    /// Takes away one occurrence of `v`. Silently ignores missing values.
    pub fn remove(&mut self, v: &T)
        requires
            old(self).wf(),
        ensures
            final(self).wf(),
            final(self)@ == old(self)@.remove(*v),
    {
        proof {
            self.lemma_view();
        }
        match self.position(v) {
            Some(i) => {
                let c: usize = self.counts[i];
                if c <= 1 {
                    self.keys.swap_remove(i);
                    self.counts.swap_remove(i);
                } else {
                    self.counts[i] = c - 1;
                }
            },
            None => {},
        }
        proof {
            broadcast use vstd::multiset::group_multiset_axioms;

            assert(self.wf());
            self.lemma_view();
            old(self).lemma_view();
            assert forall|k: T| self@.count(k) == old(self)@.remove(*v).count(k) by {
                if old(self).keys@.contains(k) {
                    let j = old(self).keys@.index_of(k);
                    assert(old(self)@.count(old(self).keys@[j]) == old(self).counts@[j]);
                    if self.keys@.contains(k) {
                        let j2 = self.keys@.index_of(k);
                        assert(self@.count(self.keys@[j2]) == self.counts@[j2]);
                    } else {
                        assert(k == *v) by {
                            if k != *v {
                                if j < self.keys@.len() {
                                    assert(self.keys@[j] == k);
                                } else {
                                    let i = choose|i: int|
                                        0 <= i < old(self).keys@.len() && old(self).keys@[i] == *v;
                                    assert(self.keys@[i] == k);
                                }
                            }
                        }
                    }
                } else {
                    assert(!self.keys@.contains(k)) by {
                        if self.keys@.contains(k) {
                            let j = self.keys@.index_of(k);
                            assert(old(self).keys@[j] == k || old(self).keys@.last() == k);
                        }
                    }
                }
            }
            assert(self@ =~= old(self)@.remove(*v));
        }
    }

    /// The smallest key held, if any.
    pub fn min(&self) -> (r: Option<&T>)
        requires
            self.wf(),
        ensures
            match r {
                Some(x) => is_least(self@, *x) && least(self@) == Some(*x),
                None => self@.len() == 0 && least(self@).is_none(),
            },
    {
        proof {
            self.lemma_view();
        }
        if self.keys.len() == 0 {
            proof {
                assert(self@ =~= Multiset::<T>::empty());
                lemma_empty_has_no_extremes(self@);
            }
            return None;
        }
        let mut best: usize = 0;
        let mut i: usize = 1;
        proof {
            T::lemma_total_order(self.keys@[0], self.keys@[0], self.keys@[0]);
        }
        while i < self.keys.len()
            invariant
                best < i <= self.keys@.len(),
                forall|j: int| 0 <= j < i ==> self.keys@[best as int].ord_le(#[trigger] self.keys@[j]),
            decreases self.keys@.len() - i,
        {
            if !self.keys[best].at_most(&self.keys[i]) {
                proof {
                    let old_best = self.keys@[best as int];
                    let cand = self.keys@[i as int];
                    T::lemma_total_order(cand, old_best, cand);
                    assert forall|j: int| 0 <= j < i + 1 implies cand.ord_le(
                        #[trigger] self.keys@[j],
                    ) by {
                        T::lemma_total_order(cand, old_best, self.keys@[j]);
                    }
                }
                best = i;
            }
            i += 1;
        }
        proof {
            let x = self.keys@[best as int];
            assert(self@.count(self.keys@[best as int]) > 0);
            lemma_least_unique(self@, x);
        }
        Some(&self.keys[best])
    }

    /// The largest key held, if any.
    pub fn max(&self) -> (r: Option<&T>)
        requires
            self.wf(),
        ensures
            match r {
                Some(x) => is_greatest(self@, *x) && greatest(self@) == Some(*x),
                None => self@.len() == 0 && greatest(self@).is_none(),
            },
    {
        proof {
            self.lemma_view();
        }
        if self.keys.len() == 0 {
            proof {
                assert(self@ =~= Multiset::<T>::empty());
                lemma_empty_has_no_extremes(self@);
            }
            return None;
        }
        let mut best: usize = 0;
        let mut i: usize = 1;
        proof {
            T::lemma_total_order(self.keys@[0], self.keys@[0], self.keys@[0]);
        }
        while i < self.keys.len()
            invariant
                best < i <= self.keys@.len(),
                forall|j: int| 0 <= j < i ==> (#[trigger] self.keys@[j]).ord_le(self.keys@[best as int]),
            decreases self.keys@.len() - i,
        {
            if !self.keys[i].at_most(&self.keys[best]) {
                proof {
                    let old_best = self.keys@[best as int];
                    let cand = self.keys@[i as int];
                    T::lemma_total_order(cand, old_best, cand);
                    assert forall|j: int| 0 <= j < i + 1 implies (#[trigger] self.keys@[j]).ord_le(
                        cand,
                    ) by {
                        T::lemma_total_order(self.keys@[j], old_best, cand);
                    }
                }
                best = i;
            }
            i += 1;
        }
        proof {
            let x = self.keys@[best as int];
            assert(self@.count(self.keys@[best as int]) > 0);
            lemma_greatest_unique(self@, x);
        }
        Some(&self.keys[best])
    }
}

} // verus!
