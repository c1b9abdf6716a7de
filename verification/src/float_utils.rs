//! Numbers with a total order: the capability set that the median needs of a
//! scalar type, and a wrapper that holds a value known not to be a NaN.
use std::cmp::Ordering;
use vstd::prelude::*;

verus! {

/// The only error of this library: a NaN was offered where a number is needed.
#[derive(Debug, Clone, Copy, PartialEq, Eq)]
pub struct InvalidValue;

/// A floating-point scalar type: NaN detection, a total order on the values
/// that are not NaN, and a midpoint.
pub trait FloatType: Copy + Sized {
    /// Whether the value is a NaN.
    spec fn nan(self) -> bool;

    /// The place of a number in the total order: `a` is below `b` exactly when
    /// `a.rank() < b.rank()`, and the two compare equal when the ranks agree.
    spec fn rank(self) -> int;

    /// The midpoint of two numbers.
    spec fn mean(self, other: Self) -> Self;

    /// The midpoint of two numbers is a number and lies between the two.
    proof fn lemma_mean_between(a: Self, b: Self)
        requires
            !a.nan(),
            !b.nan(),
        ensures
            !a.mean(b).nan(),
            a.rank() <= b.rank() ==> a.rank() <= a.mean(b).rank() <= b.rank(),
            b.rank() <= a.rank() ==> b.rank() <= a.mean(b).rank() <= a.rank(),
    ;

    /// Numbers that compare equal have midpoints that compare equal.
    proof fn lemma_mean_respects_rank(a: Self, b: Self, c: Self, d: Self)
        requires
            !a.nan(),
            !b.nan(),
            !c.nan(),
            !d.nan(),
            a.rank() == c.rank(),
            b.rank() == d.rank(),
        ensures
            a.mean(b).rank() == c.mean(d).rank(),
    ;

    /// Three-way comparison of two numbers.
    fn cmp(&self, other: &Self) -> (o: Ordering)
        requires
            !self.nan(),
            !other.nan(),
        ensures
            o == Ordering::Less <==> self.rank() < other.rank(),
            o == Ordering::Equal <==> self.rank() == other.rank(),
            o == Ordering::Greater <==> self.rank() > other.rank(),
    ;

    /// Whether the value is a NaN.
    fn is_nan(self) -> (b: bool)
        ensures
            b == self.nan(),
    ;

    /// The midpoint of two numbers, itself a number.
    fn midpoint(self, other: Self) -> (m: Self)
        requires
            !self.nan(),
            !other.nan(),
        ensures
            m == self.mean(other),
            !m.nan(),
    ;

    /// Whether two numbers compare equal, as the two zeros do.
    fn eq(self, other: &Self) -> (b: bool)
        requires
            !self.nan(),
            !other.nan(),
        ensures
            b == (self.rank() == other.rank()),
    {
        match self.cmp(other) {
            Ordering::Equal => true,
            _ => false,
        }
    }

    /// Whether the first of two numbers is not above the second.
    fn leq(&self, other: &Self) -> (b: bool)
        requires
            !self.nan(),
            !other.nan(),
        ensures
            b == (self.rank() <= other.rank()),
    {
        match self.cmp(other) {
            Ordering::Less | Ordering::Equal => true,
            Ordering::Greater => false,
        }
    }
}

/// A value of `T` that is not a NaN, ordered by `FloatType::cmp`.
#[derive(Debug)]
pub struct FloatOrd<T: FloatType>(T);

impl<T: FloatType> Clone for FloatOrd<T> {
    fn clone(&self) -> (r: Self)
        ensures
            r == *self,
    {
        *self
    }
}

impl<T: FloatType> Copy for FloatOrd<T> {

}

impl<T: FloatType> FloatOrd<T> {
    #[verifier::type_invariant]
    spec fn is_number(self) -> bool {
        !self.0.nan()
    }

    /// The value held.
    pub closed spec fn value(self) -> T {
        self.0
    }

    /// The place of the value held in the total order.
    pub open spec fn rank(self) -> int {
        self.value().rank()
    }

    /// Wraps `value`, which must not be a NaN.
    pub fn new(value: T) -> (r: Result<Self, InvalidValue>)
        ensures
            r is Err <==> value.nan(),
            r matches Ok(v) ==> v.value() == value,
    {
        if value.is_nan() {
            Err(InvalidValue)
        } else {
            Ok(FloatOrd(value))
        }
    }

    /// Gives the value back; it is never a NaN.
    pub fn into_inner(self) -> (v: T)
        ensures
            v == self.value(),
            !v.nan(),
    {
        proof {
            use_type_invariant(&self);
        }
        self.0
    }

    /// Three-way comparison of the values held.
    pub fn cmp(&self, other: &Self) -> (o: Ordering)
        ensures
            o == Ordering::Less <==> self.rank() < other.rank(),
            o == Ordering::Equal <==> self.rank() == other.rank(),
            o == Ordering::Greater <==> self.rank() > other.rank(),
    {
        proof {
            use_type_invariant(self);
            use_type_invariant(other);
        }
        self.0.cmp(&other.0)
    }
}

impl<T: FloatType> PartialEq for FloatOrd<T> {
    fn eq(&self, other: &Self) -> (r: bool) {
        proof {
            use_type_invariant(self);
            use_type_invariant(other);
        }
        self.0.eq(&other.0)
    }
}

impl<T: FloatType> vstd::std_specs::cmp::PartialEqSpecImpl for FloatOrd<T> {
    open spec fn obeys_eq_spec() -> bool {
        true
    }

    open spec fn eq_spec(&self, other: &Self) -> bool {
        self.rank() == other.rank()
    }
}

impl<T: FloatType> Eq for FloatOrd<T> {

}

impl<T: FloatType> PartialOrd for FloatOrd<T> {
    fn partial_cmp(&self, other: &Self) -> (r: Option<Ordering>) {
        Some(self.cmp(other))
    }
}

impl<T: FloatType> vstd::std_specs::cmp::PartialOrdSpecImpl for FloatOrd<T> {
    open spec fn obeys_partial_cmp_spec() -> bool {
        true
    }

    open spec fn partial_cmp_spec(&self, other: &Self) -> Option<Ordering> {
        if self.rank() < other.rank() {
            Some(Ordering::Less)
        } else if self.rank() == other.rank() {
            Some(Ordering::Equal)
        } else {
            Some(Ordering::Greater)
        }
    }
}

} // verus!
