use vstd::prelude::*;

verus! {

/// Identifies the contact between two bodies across consecutive steps.
///
/// A body is named by its index in the world's body arena. The key is an
/// unordered pair: `ContactKey::new` stores the larger index first, so both
/// orders of the same two bodies give the same key.
#[derive(Debug, Clone, Copy, PartialEq, Eq, Hash, Structural)]
pub struct ContactKey(pub usize, pub usize);

impl ContactKey {
    /// The key is in its normal form: two distinct bodies, larger index first.
    pub open spec fn wf(&self) -> bool {
        self.0 > self.1
    }

    /// The key names body `b`.
    pub open spec fn touches(&self, b: int) -> bool {
        self.0 == b || self.1 == b
    }

    /// The key of the contact between bodies `a` and `b`, in either order.
    pub fn new(a: usize, b: usize) -> (k: ContactKey)
        requires
            a != b,
        ensures
            k == key_of(a, b),
            k.wf(),
            k.touches(a as int),
            k.touches(b as int),
    {
        if a > b {
            ContactKey(a, b)
        } else {
            ContactKey(b, a)
        }
    }
}

/// The normal form of the pair of bodies `a` and `b`.
pub open spec fn key_of(a: usize, b: usize) -> ContactKey {
    if a > b {
        ContactKey(a, b)
    } else {
        ContactKey(b, a)
    }
}

/// The key does not depend on the order in which the two bodies are named,
/// and it is the only key in normal form that names both of them.
pub proof fn lemma_key_unordered(a: usize, b: usize)
    requires
        a != b,
    ensures
        key_of(a, b) == key_of(b, a),
        forall|k: ContactKey|
            k.wf() && k.touches(a as int) && k.touches(b as int) ==> k == key_of(a, b),
{
}

} // verus!
