//! A fruit: an identity-only value carrying its name.

use vstd::prelude::*;

verus! {

/// A fruit, identified by its name.
pub struct Fruit(pub String);

impl Fruit {
    /// Creates a fruit with the given name.
    pub fn new(name: &str) -> (r: Self)
        ensures
            r.0@ == name@,
    {
        Fruit(name.to_owned())
    }

    /// The fruit's name.
    pub fn as_str(&self) -> (r: &str)
        ensures
            r@ == self.0@,
    {
        self.0.as_str()
    }
}

} // verus!
