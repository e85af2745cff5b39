//! A named capacity pool: so many units consumable per day. Immutable after
//! construction.

use vstd::prelude::*;

verus! {

#[derive(Clone, Debug)]
pub struct Resource {
    pub name: String,
    pub capacity: i32,
}

impl Resource {
    pub fn new(name: String, capacity: i32) -> (r: Resource)
        ensures
            r.name@ == name@,
            r.capacity == capacity,
    {
        Resource { name, capacity }
    }

    pub fn name(&self) -> (r: String)
        ensures
            r@ == self.name@,
    {
        self.name.clone()
    }

    pub fn capacity(&self) -> (r: i32)
        ensures
            r == self.capacity,
    {
        self.capacity
    }

    /// An owned copy equal to `self` in every observable part.
    pub fn duplicate(&self) -> (r: Resource)
        ensures
            r.name@ == self.name@,
            r.capacity == self.capacity,
    {
        Resource { name: self.name.clone(), capacity: self.capacity }
    }
}

} // verus!
