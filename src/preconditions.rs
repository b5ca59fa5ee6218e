//! Values that carry the proof of a check they passed on construction.
use vstd::prelude::*;

verus! {

/// A property of `T` values that a checker instance can test.
pub trait Checkable<T>: Default {
    /// The property itself.
    spec fn accepts(t: &T) -> bool;

    fn check(&self, t: &T) -> (r: bool)
        ensures
            r == Self::accepts(t),
    ;
}

/// A `T` that passed the check `Check`.
#[derive(Debug)]
pub struct Checked<T, Check: Checkable<T>> {
    inner: T,
    check: Check,
}

impl<T, Check: Checkable<T>> Checked<T, Check> {
    #[verifier::type_invariant]
    spec fn passed(&self) -> bool {
        Check::accepts(&self.inner)
    }

    /// The value held.
    pub closed spec fn value(&self) -> T {
        self.inner
    }

    /// Wraps a value known to pass the check.
    pub fn new(inner: T) -> (r: Self)
        requires
            Check::accepts(&inner),
        ensures
            r.value() == inner,
    {
        Self::try_new(inner).unwrap()
    }

    /// Wraps the value where it passes the check.
    pub fn try_new(inner: T) -> (r: Option<Self>)
        ensures
            r is Some <==> Check::accepts(&inner),
            r matches Some(c) ==> c.value() == inner,
    {
        let check = Check::default();
        if check.check(&inner) {
            Some(Checked { inner, check })
        } else {
            None
        }
    }

    /// The value, which passed the check.
    pub fn inner(self) -> (r: T)
        ensures
            r == self.value(),
            Check::accepts(&r),
    {
        proof {
            use_type_invariant(&self);
        }
        self.inner
    }
}

/// Odd integers.
#[derive(Debug, Default, Clone, Copy)]
pub struct OddCheck;

impl Checkable<u64> for OddCheck {
    open spec fn accepts(t: &u64) -> bool {
        *t % 2 == 1
    }

    fn check(&self, t: &u64) -> (r: bool) {
        *t % 2 == 1
    }
}

impl Checkable<i64> for OddCheck {
    open spec fn accepts(t: &i64) -> bool {
        *t % 2 != 0
    }

    fn check(&self, t: &i64) -> (r: bool) {
        *t % 2 != 0
    }
}

} // verus!
