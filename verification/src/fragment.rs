//! Per-witnessed-leaf fragments of an authentication path: the sibling
//! digests observed since the leaf was marked, in ascending altitude order.

use vstd::prelude::*;
use crate::position::{
    Position, Altitude, alts_seq, altitudes_required_of, all_altitudes_required_of,
    lemma_alt_range_membership, lemma_alt_range_len,
};
use crate::hashing::Hashable;
use crate::frontier::{
    NonEmptyFrontier, FrontierModel, frontier_witness, hash_views,
};
use vstd::arithmetic::power2::pow2;

verus! {

/// What a fragment denotes: its anchor position, how many sibling altitudes
/// have been captured across all predecessor fragments for that anchor, and
/// the digests this fragment itself holds.
#[verifier::ext_equal]
pub struct FragmentModel<V> {
    pub anchor: nat,
    pub observed: nat,
    pub values: Seq<V>,
}

/// The next sibling altitude the fragment waits for, if any remain below
/// altitude 64.
pub open spec fn fragment_next_required<V>(f: FragmentModel<V>) -> Option<nat> {
    let alts = all_altitudes_required_of(f.anchor);
    if f.observed < alts.len() {
        Some(alts[f.observed as int])
    } else {
        None
    }
}

/// Whether all siblings up to one altitude above the anchor's highest
/// populated ommer have been captured.
pub open spec fn fragment_is_complete<V>(f: FragmentModel<V>) -> bool {
    f.observed >= altitudes_required_of(f.anchor).len()
}

/// A fused pair of fragments: valid only for the same anchor when `other`
/// directly continues `self`; the result keeps the anchor, takes the
/// continuation's count and concatenates the values in order.
pub open spec fn fragment_fuse<V>(
    a: FragmentModel<V>,
    b: FragmentModel<V>,
) -> Option<FragmentModel<V>> {
    if a.anchor == b.anchor && a.observed + b.values.len() == b.observed {
        Some(FragmentModel { anchor: a.anchor, observed: b.observed, values: a.values + b.values })
    } else {
        None
    }
}

/// One augmentation step: if the next required altitude can be witnessed
/// from the frontier, capture it; otherwise leave the fragment unchanged.
pub open spec fn fragment_augment<H: Hashable>(
    f: FragmentModel<H::V>,
    fr: FrontierModel<H::V>,
) -> FragmentModel<H::V> {
    match fragment_next_required(f) {
        Some(h) => match frontier_witness::<H>(fr, h) {
            Some(d) => FragmentModel {
                anchor: f.anchor,
                observed: f.observed + 1,
                values: f.values.push(d),
            },
            None => f,
        },
        None => f,
    }
}

/// The fresh successor of a fragment: same anchor and count, no values yet.
pub open spec fn fragment_successor<V>(f: FragmentModel<V>) -> FragmentModel<V> {
    FragmentModel { anchor: f.anchor, observed: f.observed, values: Seq::empty() }
}

/// Part of the authentication path for the leaf at a particular position.
/// Successive fragments for one anchor concatenate to the path up to one
/// altitude short of the enclosing tree's top; empty roots finish it.
pub struct AuthFragment<H> {
    pub position: Position,
    pub altitudes_observed: usize,
    pub values: Vec<H>,
}

impl<H: View> View for AuthFragment<H> {
    type V = FragmentModel<H::V>;

    open spec fn view(&self) -> FragmentModel<H::V> {
        FragmentModel {
            anchor: self.position.0 as nat,
            observed: self.altitudes_observed as nat,
            values: hash_views(self.values@),
        }
    }
}

/// The view of an optional fragment.
pub open spec fn opt_fragment_view<H: View>(
    o: Option<AuthFragment<H>>,
) -> Option<FragmentModel<H::V>> {
    match o {
        Some(f) => Some(f@),
        None => None,
    }
}

impl<H: Hashable> AuthFragment<H> {
    /// The new empty fragment anchored at `position`.
    pub fn new(position: Position) -> (r: Self)
        ensures
            r@ == (FragmentModel {
                anchor: position.0 as nat,
                observed: 0nat,
                values: Seq::<H::V>::empty(),
            }),
    {
        let r = AuthFragment { position, altitudes_observed: 0, values: Vec::new() };
        proof {
            assert(r@ =~= FragmentModel {
                anchor: position.0 as nat,
                observed: 0nat,
                values: Seq::<H::V>::empty(),
            });
        }
        r
    }

    /// The empty continuation of this fragment.
    pub fn successor(&self) -> (r: Self)
        ensures
            r@ == fragment_successor(self@),
    {
        let r = AuthFragment {
            position: self.position,
            altitudes_observed: self.altitudes_observed,
            values: Vec::new(),
        };
        proof {
            assert(r@ =~= fragment_successor(self@));
        }
        r
    }

    /// A deep copy holding the same values.
    pub fn duplicate(&self) -> (r: Self)
        ensures
            r@ == self@,
    {
        let r = AuthFragment {
            position: self.position,
            altitudes_observed: self.altitudes_observed,
            values: duplicate_values(&self.values),
        };
        proof {
            assert(r@ =~= self@);
        }
        r
    }

    /// Whether every sibling up to one altitude above the anchor's highest
    /// populated ommer has been captured.
    pub fn is_complete(&self) -> (r: bool)
        requires
            self.position.0 < pow2(63),
        ensures
            r == fragment_is_complete(self@),
    {
        self.altitudes_observed >= self.position.altitudes_required_count()
    }

    /// The next sibling altitude this fragment waits for.
    pub fn next_required_altitude(&self) -> (r: Option<Altitude>)
        ensures
            crate::frontier::alt_opt(r) == fragment_next_required(self@),
    {
        let alts = self.position.all_altitudes_required();
        if self.altitudes_observed < alts.len() {
            proof {
                assert(alts_seq(alts@)[self.altitudes_observed as int] == alts@[self.altitudes_observed as int].0 as nat);
            }
            Some(alts[self.altitudes_observed])
        } else {
            None
        }
    }

    /// Fuse with a fragment that directly continues this one for the same
    /// anchor; `None` when the anchors differ or the counts do not chain.
    pub fn fuse(&self, other: &Self) -> (r: Option<Self>)
        ensures
            opt_fragment_view(r) == fragment_fuse(self@, other@),
    {
        let chained = match self.altitudes_observed.checked_add(other.values.len()) {
            Some(s) => s == other.altitudes_observed,
            None => false,
        };
        if self.position.0 == other.position.0 && chained {
            let mut values = duplicate_values(&self.values);
            let mut rest = duplicate_values(&other.values);
            values.append(&mut rest);
            let r = AuthFragment {
                position: self.position,
                altitudes_observed: other.altitudes_observed,
                values,
            };
            proof {
                assert(hash_views(r.values@) =~= hash_views(self.values@) + hash_views(
                    other.values@,
                ));
                assert(r@ =~= (FragmentModel {
                    anchor: self@.anchor,
                    observed: other@.observed,
                    values: self@.values + other@.values,
                }));
            }
            Some(r)
        } else {
            None
        }
    }

    /// Capture the next required sibling from the frontier, if it can
    /// already be witnessed there; at most one digest per append.
    pub fn augment(&mut self, frontier: &NonEmptyFrontier<H>)
        ensures
            final(self)@ == fragment_augment::<H>(old(self)@, frontier@),
    {
        proof {
            lemma_alt_range_len(old(self).position.0 as nat, 0, 64, crate::position::required_keep());
            lemma_alt_range_membership(
                old(self).position.0 as nat,
                0,
                64,
                crate::position::required_keep(),
            );
        }
        match self.next_required_altitude() {
            Some(altitude) => {
                match frontier.witness(altitude) {
                    Some(digest) => {
                        self.values.push(digest);
                        self.altitudes_observed = self.altitudes_observed + 1;
                        proof {
                            assert(final(self)@ =~= fragment_augment::<H>(old(self)@, frontier@));
                        }
                    }
                    None => {}
                }
            }
            None => {}
        }
    }
}

/// A fresh vector holding the same hash values.
pub(crate) fn duplicate_values<H: Hashable>(values: &Vec<H>) -> (r: Vec<H>)
    ensures
        hash_views(r@) == hash_views(values@),
{
    let mut r: Vec<H> = Vec::new();
    let mut i: usize = 0;
    while i < values.len()
        invariant
            i <= values.len(),
            r@.len() == i,
            forall|k: int| 0 <= k < i ==> (#[trigger] r@[k])@ == values@[k]@,
        decreases values.len() - i,
    {
        r.push(values[i].duplicate());
        i = i + 1;
    }
    proof {
        assert(hash_views(r@) =~= hash_views(values@));
    }
    r
}

} // verus!
