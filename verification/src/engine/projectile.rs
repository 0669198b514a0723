use vstd::prelude::*;

verus! {

/// The side that fired a projectile.
#[derive(Clone, Copy, Debug, PartialEq, Eq, Structural)]
pub enum ProjOwner {
    Player,
    Enemy,
}

} // verus!
