use vstd::prelude::*;

verus! {

/// Relies on rand::random: a value drawn from the thread-local generator.
/// Nothing is known of the value it returns.
pub assume_specification<T>[ rand::random::<T> ]() -> (r: T)
    where
        rand::distributions::Standard: rand::distributions::Distribution<T>,
;

/// The identifier of one instance. The value zero is reserved for "no instance".
#[derive(Clone, Copy, Debug, PartialEq, Eq, Hash, Structural)]
pub struct Ref {
    pub id: u128,
}

impl Ref {
    pub open spec fn spec_is_none(self) -> bool {
        self.id == 0
    }

    /// A fresh, randomly chosen referent, never the null one.
    pub fn new() -> (r: Ref)
        ensures
            !r.spec_is_none(),
    {
        let raw: u128 = rand::random();
        if raw == 0 {
            Ref { id: 1 }
        } else {
            Ref { id: raw }
        }
    }

    /// The null referent.
    pub fn none() -> (r: Ref)
        ensures
            r.spec_is_none(),
    {
        Ref { id: 0 }
    }

    pub fn is_none(&self) -> (r: bool)
        ensures
            r == self.spec_is_none(),
    {
        self.id == 0
    }

    pub fn is_some(&self) -> (r: bool)
        ensures
            r == !self.spec_is_none(),
    {
        self.id != 0
    }
}

} // verus!
