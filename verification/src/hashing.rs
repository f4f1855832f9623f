//! The hashing capability that a Merkle tree is parametrized over.

use vstd::prelude::*;
use crate::position::Altitude;

verus! {

/// A hash value usable as a Merkle tree node.
///
/// `combined`, `blank_leaf` and `blank_root` describe, at the level of views,
/// what the executable operations return; implementors prove each operation
/// against its description, so a tree built over any implementor inherits
/// exact contracts. `duplicate` and `eq_value` replace `Clone` and
/// `PartialEq` bounds: copies and comparisons are tied to the view.
pub trait Hashable: View + Sized {
    /// What `combine` returns at a given altitude.
    spec fn combined(lvl: nat, a: Self::V, b: Self::V) -> Self::V;

    /// The value standing for an absent leaf.
    spec fn blank_leaf() -> Self::V;

    /// The root of a perfect empty subtree at the given altitude.
    spec fn blank_root(lvl: nat) -> Self::V;

    /// The empty roots are coherent: the empty root at the leaf layer is the
    /// empty leaf, and each higher one combines the two empty halves below.
    proof fn blank_root_law(lvl: nat)
        ensures
            Self::blank_root(0) == Self::blank_leaf(),
            lvl > 0 ==> Self::blank_root(lvl) == Self::combined(
                (lvl - 1) as nat,
                Self::blank_root((lvl - 1) as nat),
                Self::blank_root((lvl - 1) as nat),
            ),
    ;

    /// The canonical value for an absent leaf.
    fn empty_leaf() -> (r: Self)
        ensures
            r@ == Self::blank_leaf(),
    ;

    /// The root of a perfect empty subtree at `lvl`.
    fn empty_root(lvl: Altitude) -> (r: Self)
        requires
            lvl.0 <= 64,
        ensures
            r@ == Self::blank_root(lvl.0 as nat),
    ;

    /// The altitude-parametrized binary hash; deterministic.
    fn combine(lvl: Altitude, a: &Self, b: &Self) -> (r: Self)
        requires
            lvl.0 <= 64,
        ensures
            r@ == Self::combined(lvl.0 as nat, a@, b@),
    ;

    /// A copy holding the same value.
    fn duplicate(&self) -> (r: Self)
        ensures
            r@ == self@,
    ;

    /// Whether two hash values hold the same value.
    fn eq_value(&self, other: &Self) -> (r: bool)
        ensures
            r == (self@ == other@),
    ;
}

} // verus!
