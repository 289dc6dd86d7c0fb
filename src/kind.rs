use vstd::prelude::*;

verus! {

/// How a body takes part in the simulation. A static body has infinite mass
/// and inertia: no impulse and no integration step ever moves it.
#[derive(Debug, Clone, Copy, PartialEq, Eq, Structural)]
pub enum Type {
    Dynamic,
    Static,
}

impl Type {
    /// True exactly for a static body.
    pub fn is_static(&self) -> (r: bool)
        ensures
            r == (*self == Type::Static),
    {
        match self {
            Type::Static => true,
            Type::Dynamic => false,
        }
    }

    /// Makes the body static. There is no way back, and doing it twice is the
    /// same as doing it once.
    pub fn set_static(&mut self)
        ensures
            *final(self) == Type::Static,
    {
        *self = Type::Static;
    }
}

} // verus!
