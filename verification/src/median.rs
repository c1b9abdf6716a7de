//! The running median: the lower half of the numbers seen so far in a heap
//! that shows its greatest, the upper half in one that shows its smallest.
use crate::float_utils::{FloatOrd, FloatType, InvalidValue};
use crate::heap::{is_top_of, Heap};
use crate::sorted::{ascending, lemma_top_of_lower, lemma_top_of_upper};
use vstd::multiset::Multiset;
use vstd::prelude::*;

verus! {

/// Computes the median of the numbers pushed so far, after each of them.
pub struct Median<T: FloatType> {
    heap_lo: Heap<T>,
    heap_hi: Heap<T>,
}

impl<T: FloatType> View for Median<T> {
    type V = Multiset<T>;

    /// The numbers pushed so far, each as often as it was pushed.
    closed spec fn view(&self) -> Multiset<T> {
        self.heap_lo@.add(self.heap_hi@)
    }
}

/// Whether every element of `lower` compares below or equal to every element
/// of `upper`.
pub open spec fn partitioned<T: FloatType>(lower: Multiset<T>, upper: Multiset<T>) -> bool {
    forall|a: T, b: T| lower.contains(a) && upper.contains(b) ==> a.rank() <= b.rank()
}

/// Whether `lower` holds as many elements as `upper`, or one more.
pub open spec fn balanced<T>(lower: Multiset<T>, upper: Multiset<T>) -> bool {
    lower.len() == upper.len() || lower.len() == upper.len() + 1
}

/// How the halves `l1` and `u1` are rebalanced into `l2` and `u2`: if the lower
/// half has two more elements than the upper, one of its greatest moves up; if
/// the upper half has more than the lower, one of its smallest moves down;
/// else nothing moves.
pub open spec fn rebalanced<T: FloatType>(
    l1: Multiset<T>,
    u1: Multiset<T>,
    l2: Multiset<T>,
    u2: Multiset<T>,
) -> bool {
    if l1.len() > u1.len() + 1 {
        exists|t: T| #[trigger] is_top_of(true, t, l1) && l2 == l1.remove(t) && u2 == u1.insert(t)
    } else if u1.len() > l1.len() {
        exists|t: T| #[trigger] is_top_of(false, t, u1) && l2 == l1.insert(t) && u2 == u1.remove(t)
    } else {
        l2 == l1 && u2 == u1
    }
}

impl<T: FloatType> Median<T> {
    /// The lower half of the numbers.
    pub closed spec fn lower(self) -> Multiset<T> {
        self.heap_lo@
    }

    /// The upper half of the numbers.
    pub closed spec fn upper(self) -> Multiset<T> {
        self.heap_hi@
    }

    /// The element of the lower half that the median is read from; meaningful
    /// where that half holds anything.
    pub closed spec fn lower_top(self) -> T {
        self.heap_lo.top()
    }

    /// The element of the upper half that the median is read from; meaningful
    /// where that half holds anything.
    pub closed spec fn upper_top(self) -> T {
        self.heap_hi.top()
    }

    /// The invariant of the two halves: each is a heap, none holds a NaN, the
    /// lower half has as many elements as the upper or one more, and no element
    /// of the lower half is above one of the upper half.
    #[verifier::type_invariant]
    pub closed spec fn wf(self) -> bool {
        &&& self.heap_lo.wf()
        &&& self.heap_hi.wf()
        &&& self.heap_lo.max_first()
        &&& !self.heap_hi.max_first()
        &&& balanced(self.heap_lo@, self.heap_hi@)
        &&& partitioned(self.heap_lo@, self.heap_hi@)
        &&& forall|x: T| self@.contains(x) ==> !x.nan()
        &&& self@.len() <= usize::MAX
    }

    /// The median of the numbers held: none where there are none, the top of
    /// the lower half where their count is odd, else the midpoint of the two
    /// tops.
    pub open spec fn median(self) -> Option<T> {
        if self@.len() == 0 {
            None
        } else if self.lower().len() == self.upper().len() {
            Some(self.lower_top().mean(self.upper_top()))
        } else {
            Some(self.lower_top())
        }
    }

    /// Whether `value` goes to the lower half first: that half is empty, or
    /// `value` is not above its top.
    pub open spec fn goes_low(self, value: T) -> bool {
        self.lower().len() == 0 || value.rank() <= self.lower_top().rank()
    }

    /// How one insertion changes the halves: `value` joins the half that
    /// `goes_low` names, and the halves are then rebalanced.
    pub open spec fn step(self, value: T, next: Self) -> bool {
        if self.goes_low(value) {
            rebalanced(self.lower().insert(value), self.upper(), next.lower(), next.upper())
        } else {
            rebalanced(self.lower(), self.upper().insert(value), next.lower(), next.upper())
        }
    }

    /// What the invariant says of the two halves.
    pub proof fn lemma_halves(self)
        requires
            self.wf(),
        ensures
            self@ == self.lower().add(self.upper()),
            balanced(self.lower(), self.upper()),
            partitioned(self.lower(), self.upper()),
            forall|x: T| self@.contains(x) ==> !x.nan(),
            self.lower().len() > 0 ==> is_top_of(true, self.lower_top(), self.lower()),
            self.upper().len() > 0 ==> is_top_of(false, self.upper_top(), self.upper()),
    {
        if self.heap_lo@.len() > 0 {
            self.heap_lo.lemma_top();
        }
        if self.heap_hi@.len() > 0 {
            self.heap_hi.lemma_top();
        }
    }

    /// The median is what a full sort of the numbers gives. Let `s` hold the
    /// numbers pushed so far in ascending order. Where their count is odd, the
    /// median is one of the numbers and compares equal to the middle element
    /// of `s`. Where it is even, the median compares equal to the midpoint of
    /// the two middle elements of `s`, and lies between the two. Where there
    /// are no numbers, there is no median.
    pub proof fn lemma_median_of_sorted(self, s: Seq<T>)
        requires
            self.wf(),
            ascending(s),
            s.to_multiset() == self@,
        ensures
            s.len() == 0 <==> self.median() is None,
            s.len() % 2 == 1 ==> (self.median() matches Some(m) && self@.contains(m) && m.rank()
                == s[s.len() as int / 2].rank()),
            s.len() > 0 && s.len() % 2 == 0 ==> (self.median() matches Some(m) && m.rank()
                == s[s.len() as int / 2 - 1].mean(s[s.len() as int / 2]).rank() && s[s.len() as int
                / 2 - 1].rank() <= m.rank() <= s[s.len() as int / 2].rank()),
    {
        broadcast use {vstd::seq_lib::to_multiset_len, vstd::seq_lib::to_multiset_contains};

        self.lemma_halves();
        assert(s.to_multiset().len() == s.len());
        assert(self.lower().add(self.upper()).len() == self.lower().len() + self.upper().len());
        if s.len() > 0 {
            lemma_top_of_lower(self.lower(), self.upper(), self.lower_top(), s);
            if s.len() % 2 == 0 {
                let lo = s[s.len() as int / 2 - 1];
                let hi = s[s.len() as int / 2];
                lemma_top_of_upper(self.lower(), self.upper(), self.upper_top(), s);
                assert(s.contains(lo) && s.contains(hi));
                assert(self@.contains(lo) && self@.contains(hi));
                T::lemma_mean_respects_rank(self.lower_top(), self.upper_top(), lo, hi);
                T::lemma_mean_between(lo, hi);
            }
        }
    }

    /// There is a median exactly where there is a number.
    pub proof fn lemma_median_of_none(self)
        requires
            self.wf(),
        ensures
            self@.len() == 0 <==> self.median() is None,
            self@.len() == 0 <==> self.lower().len() == 0,
    {
        self.lemma_halves();
    }

    /// Two engines with no numbers in them cannot be told apart: neither has a
    /// median, and an insertion changes both in the same way.
    pub proof fn lemma_empty_alike(self, other: Self, value: T, next: Self)
        requires
            self.wf(),
            other.wf(),
            self@.len() == 0,
            other@.len() == 0,
        ensures
            self.median() == other.median(),
            self.lower() == other.lower(),
            self.upper() == other.upper(),
            self.step(value, next) == other.step(value, next),
    {
        broadcast use vstd::multiset::lemma_multiset_empty_len;

        self.lemma_halves();
        other.lemma_halves();
        assert(self.lower().len() == 0 && self.upper().len() == 0);
        assert(other.lower().len() == 0 && other.upper().len() == 0);
    }

    /// Initializes a new rolling median computation, with no numbers in it.
    pub fn new() -> (m: Self)
        ensures
            m@ == Multiset::<T>::empty(),
            m.lower() == Multiset::<T>::empty(),
            m.upper() == Multiset::<T>::empty(),
            m.wf(),
    {
        let m = Median { heap_lo: Heap::new(true), heap_hi: Heap::new(false) };
        proof {
            assert(m@ =~= Multiset::<T>::empty());
        }
        m
    }

    /// The count of the numbers pushed so far.
    pub fn len(&self) -> (n: usize)
        ensures
            n == self@.len(),
    {
        proof {
            use_type_invariant(self);
        }
        self.heap_lo.len() + self.heap_hi.len()
    }

    /// Whether no number was pushed so far.
    pub fn is_empty(&self) -> (b: bool)
        ensures
            b == (self@.len() == 0),
    {
        self.heap_lo.is_empty() && self.heap_hi.is_empty()
    }

    /// Forgets every number pushed so far.
    pub fn clear(&mut self)
        ensures
            final(self)@ == Multiset::<T>::empty(),
            final(self).lower() == Multiset::<T>::empty(),
            final(self).upper() == Multiset::<T>::empty(),
            final(self).wf(),
    {
        *self = Median::new();
    }

    /// Get the current median.
    pub fn get(&self) -> (r: Option<T>)
        ensures
            r == self.median(),
            r is None <==> self@.len() == 0,
            r matches Some(m) ==> !m.nan(),
    {
        proof {
            use_type_invariant(self);
        }
        match self.heap_lo.peek() {
            None => None,
            Some(lo) => {
                if self.heap_lo.len() == self.heap_hi.len() {
                    match self.heap_hi.peek() {
                        None => None,
                        Some(hi) => Some(lo.into_inner().midpoint(hi.into_inner())),
                    }
                } else {
                    Some(lo.into_inner())
                }
            },
        }
    }

    /// Insert the next value, unless it is a NaN.
    pub fn push(&mut self, value: T) -> (r: Result<(), InvalidValue>)
        requires
            old(self)@.len() < usize::MAX,
        ensures
            r is Err <==> value.nan(),
            r is Err ==> *final(self) == *old(self),
            r is Ok ==> final(self)@ == old(self)@.insert(value),
            r is Ok ==> old(self).step(value, *final(self)),
            final(self).wf(),
            balanced(final(self).lower(), final(self).upper()),
            partitioned(final(self).lower(), final(self).upper()),
    {
        proof {
            use_type_invariant(&*self);
            old(self).lemma_halves();
        }
        let v = match FloatOrd::new(value) {
            Ok(v) => v,
            Err(e) => {
                return Err(e);
            },
        };
        // the halves are taken out while they are rebuilt: in between they need
        // not be balanced
        let mut taken = Median::new();
        std::mem::swap(self, &mut taken);
        let Median { heap_lo, heap_hi } = taken;
        let mut heap_lo = heap_lo;
        let mut heap_hi = heap_hi;
        let low = match heap_lo.peek() {
            None => true,
            Some(top) => v <= top,
        };
        if low {
            heap_lo.push(v);
        } else {
            heap_hi.push(v);
        }
        let ghost l1 = heap_lo@;
        let ghost u1 = heap_hi@;
        proof {
            lemma_placed(old(self).lower(), old(self).upper(), old(self).lower_top(), value);
            assert(l1.add(u1) =~= old(self)@.insert(value));
        }
        let lo = heap_lo.len();
        let hi = heap_hi.len();
        if lo > hi && lo - hi > 1 {
            match heap_lo.pop() {
                Some(t) => {
                    heap_hi.push(t);
                    proof {
                        lemma_moved_up(l1, u1, t.value());
                        assert(is_top_of(true, t.value(), l1));
                    }
                },
                None => {},
            }
        } else if hi > lo {
            match heap_hi.pop() {
                Some(t) => {
                    heap_lo.push(t);
                    proof {
                        lemma_moved_down(l1, u1, t.value());
                        assert(is_top_of(false, t.value(), u1));
                    }
                },
                None => {},
            }
        }
        proof {
            assert(rebalanced(l1, u1, heap_lo@, heap_hi@));
            assert(heap_lo@.add(heap_hi@) =~= old(self)@.insert(value));
            assert forall|x: T| heap_lo@.add(heap_hi@).contains(x) implies !x.nan() by {
                if x != value {
                    assert(old(self)@.contains(x));
                }
            }
        }
        *self = Median { heap_lo, heap_hi };
        Ok(())
    }
}

impl<T: FloatType> Default for Median<T> {
    /// Initializes a new rolling median computation, with no numbers in it.
    fn default() -> (m: Self)
        ensures
            m@ == Multiset::<T>::empty(),
            m.lower() == Multiset::<T>::empty(),
            m.upper() == Multiset::<T>::empty(),
            m.wf(),
    {
        Self::new()
    }
}

/// Adding `value` to the half that the placement rule names keeps the halves
/// partitioned.
proof fn lemma_placed<T: FloatType>(lower: Multiset<T>, upper: Multiset<T>, top: T, value: T)
    requires
        partitioned(lower, upper),
        balanced(lower, upper),
        lower.len() > 0 ==> is_top_of(true, top, lower),
    ensures
        lower.len() == 0 || value.rank() <= top.rank() ==> partitioned(lower.insert(value), upper),
        !(lower.len() == 0 || value.rank() <= top.rank()) ==> partitioned(
            lower,
            upper.insert(value),
        ),
{
    if lower.len() == 0 || value.rank() <= top.rank() {
        assert forall|a: T, b: T| lower.insert(value).contains(a) && upper.contains(
            b,
        ) implies a.rank() <= b.rank() by {
            assert(upper.len() > 0);
            if a != value {
                assert(lower.contains(a));
            }
        }
    } else {
        assert forall|a: T, b: T| lower.contains(a) && upper.insert(value).contains(
            b,
        ) implies a.rank() <= b.rank() by {
            if b != value {
                assert(upper.contains(b));
            }
        }
    }
}

/// Moving a greatest element of the lower half to the upper half keeps the
/// halves partitioned, and takes one element from the one to the other.
proof fn lemma_moved_up<T: FloatType>(lower: Multiset<T>, upper: Multiset<T>, t: T)
    requires
        partitioned(lower, upper),
        is_top_of(true, t, lower),
    ensures
        partitioned(lower.remove(t), upper.insert(t)),
        lower.remove(t).len() == lower.len() - 1,
        upper.insert(t).len() == upper.len() + 1,
        lower.remove(t).add(upper.insert(t)) == lower.add(upper),
{
    assert forall|a: T, b: T| lower.remove(t).contains(a) && upper.insert(t).contains(
        b,
    ) implies a.rank() <= b.rank() by {
        assert(lower.contains(a));
        if b != t {
            assert(upper.contains(b));
        }
    }
    assert(lower.remove(t).add(upper.insert(t)) =~= lower.add(upper));
}

/// Moving a smallest element of the upper half to the lower half keeps the
/// halves partitioned, and takes one element from the one to the other.
proof fn lemma_moved_down<T: FloatType>(lower: Multiset<T>, upper: Multiset<T>, t: T)
    requires
        partitioned(lower, upper),
        is_top_of(false, t, upper),
    ensures
        partitioned(lower.insert(t), upper.remove(t)),
        lower.insert(t).len() == lower.len() + 1,
        upper.remove(t).len() == upper.len() - 1,
        lower.insert(t).add(upper.remove(t)) == lower.add(upper),
{
    assert forall|a: T, b: T| lower.insert(t).contains(a) && upper.remove(t).contains(
        b,
    ) implies a.rank() <= b.rank() by {
        assert(upper.contains(b));
        if a != t {
            assert(lower.contains(a));
        }
    }
    assert(lower.insert(t).add(upper.remove(t)) =~= lower.add(upper));
}

} // verus!
