//! The Merkle frontier: the rightmost leaf pair plus the minimal stack of
//! ommers, supporting append, root computation and sibling witnessing.

use vstd::prelude::*;
use vstd::math::min;
use vstd::slice::slice_subrange;
use vstd::arithmetic::power2::pow2;
use crate::position::{
    Position, Altitude, ommer_altitudes_of, alts_seq, complete_to, max_altitude_of, bit_set,
    lemma_alt_range_membership, lemma_max_altitude_bounds,
};
use crate::hashing::Hashable;

verus! {

/// The uncombined leaves of the rightmost altitude-1 subtree: one leaf at an
/// even position, or that leaf together with its odd sibling.
pub enum Leaf<H> {
    Left(H),
    Right(H, H),
}

impl<H: View> View for Leaf<H> {
    type V = Leaf<H::V>;

    open spec fn view(&self) -> Leaf<H::V> {
        match self {
            Leaf::Left(a) => Leaf::Left(a@),
            Leaf::Right(a, b) => Leaf::Right(a@, b@),
        }
    }
}

impl<H: Hashable> Leaf<H> {
    /// A copy holding the same values.
    pub fn duplicate(&self) -> (r: Self)
        ensures
            r@ == self@,
    {
        match self {
            Leaf::Left(a) => Leaf::Left(a.duplicate()),
            Leaf::Right(a, b) => Leaf::Right(a.duplicate(), b.duplicate()),
        }
    }
}

/// The value of the most recently appended leaf.
pub open spec fn leaf_value_of<V>(l: Leaf<V>) -> V {
    match l {
        Leaf::Left(v) => v,
        Leaf::Right(_, v) => v,
    }
}

/// The views of a sequence of hash values.
pub open spec fn hash_views<H: View>(s: Seq<H>) -> Seq<H::V> {
    s.map_values(|h: H| h@)
}

/// What a non-empty frontier denotes: the rightmost position, the uncombined
/// leaf pair there, and the ommer values by ascending altitude.
#[verifier::ext_equal]
pub struct FrontierModel<V> {
    pub position: nat,
    pub leaf: Leaf<V>,
    pub ommers: Seq<V>,
}

/// Well-formedness: the leaf variant matches the position's parity and there
/// is exactly one ommer per populated ommer altitude.
pub open spec fn frontier_model_wf<V>(f: FrontierModel<V>) -> bool {
    &&& (f.leaf is Left <==> f.position % 2 == 0)
    &&& f.ommers.len() == ommer_altitudes_of(f.position).len()
}

/// The frontier denoting a single leaf at position 0.
pub open spec fn frontier_model_new<V>(v: V) -> FrontierModel<V> {
    FrontierModel { position: 0, leaf: Leaf::Left(v), ommers: Seq::empty() }
}

/// The ommer stack after merging a carried subtree root upward: while the
/// carry sits at the same altitude as the next ommer, the two combine (ommer
/// on the left) and the carry rises one altitude; at the first free altitude
/// the carry lands in front of the remaining ommers.
pub open spec fn merged_ommers<H: Hashable>(
    om: Seq<H::V>,
    alts: Seq<nat>,
    carry: H::V,
    lvl: nat,
) -> Seq<H::V>
    decreases om.len(),
{
    if om.len() == 0 || alts.len() == 0 {
        seq![carry]
    } else if alts[0] == lvl {
        merged_ommers::<H>(
            om.drop_first(),
            alts.drop_first(),
            H::combined(lvl, om[0], carry),
            lvl + 1,
        )
    } else {
        seq![carry] + om.take(min(om.len() as int, alts.len() as int))
    }
}

/// The pending part of an ommer merge: a live carry still walks the stack; a
/// spent one leaves the remaining ommers as they are.
pub open spec fn merge_rest<H: Hashable>(
    om: Seq<H::V>,
    alts: Seq<nat>,
    carry: Option<(H::V, nat)>,
) -> Seq<H::V> {
    match carry {
        Some(cl) => merged_ommers::<H>(om, alts, cl.0, cl.1),
        None => om.take(min(om.len() as int, alts.len() as int)),
    }
}

/// One append: an even frontier gains its odd sibling; an odd frontier
/// combines its pair into a carry at altitude 1 and merges it into the
/// ommers.
pub open spec fn frontier_model_append<H: Hashable>(
    f: FrontierModel<H::V>,
    v: H::V,
) -> FrontierModel<H::V> {
    match f.leaf {
        Leaf::Left(a) => FrontierModel {
            position: f.position + 1,
            leaf: Leaf::Right(a, v),
            ommers: f.ommers,
        },
        Leaf::Right(a, b) => FrontierModel {
            position: f.position + 1,
            leaf: Leaf::Left(v),
            ommers: merged_ommers::<H>(
                f.ommers,
                ommer_altitudes_of(f.position),
                H::combined(0, a, b),
                1,
            ),
        },
    }
}

/// The altitude-1 digest of the leaf pair, padding a lone left leaf with the
/// empty leaf on the right.
pub open spec fn seed_digest<H: Hashable>(leaf: Leaf<H::V>) -> H::V {
    match leaf {
        Leaf::Left(a) => H::combined(0, a, H::blank_leaf()),
        Leaf::Right(a, b) => H::combined(0, a, b),
    }
}

/// Lift a digest from altitude `from` to altitude `to`, padding with the
/// empty root on the right at each level.
pub open spec fn fold_blank_roots<H: Hashable>(d: H::V, from: nat, to: nat) -> H::V
    decreases to - from,
{
    if from >= to {
        d
    } else {
        fold_blank_roots::<H>(H::combined(from, d, H::blank_root(from)), from + 1, to)
    }
}

/// The canonical root fold: raise the seed digest through the ommer stack,
/// padding between populated altitudes with empty roots; each ommer supplies
/// the left sibling. `stop` bounds the fold at a requested altitude; `None`
/// folds to the natural top of the frontier.
pub open spec fn root_fold<H: Hashable>(
    om: Seq<H::V>,
    alts: Seq<nat>,
    d: H::V,
    lvl: nat,
    stop: Option<nat>,
) -> H::V
    decreases om.len(),
{
    if om.len() == 0 || alts.len() == 0 {
        fold_blank_roots::<H>(
            d,
            lvl,
            match stop {
                Some(r) => r,
                None => lvl,
            },
        )
    } else {
        match stop {
            Some(r) => if lvl == r || alts[0] >= r {
                fold_blank_roots::<H>(d, lvl, r)
            } else {
                root_fold::<H>(
                    om.drop_first(),
                    alts.drop_first(),
                    H::combined(alts[0], om[0], fold_blank_roots::<H>(d, lvl, alts[0])),
                    alts[0] + 1,
                    stop,
                )
            },
            None => root_fold::<H>(
                om.drop_first(),
                alts.drop_first(),
                H::combined(alts[0], om[0], fold_blank_roots::<H>(d, lvl, alts[0])),
                alts[0] + 1,
                stop,
            ),
        }
    }
}

/// A sequence without its last element; the empty sequence stays empty.
pub open spec fn drop_last_or_empty<V>(s: Seq<V>) -> Seq<V> {
    if s.len() == 0 {
        s
    } else {
        s.drop_last()
    }
}

/// The root fold of a whole frontier, up to `stop` (or its natural top).
pub open spec fn frontier_root_at<H: Hashable>(
    f: FrontierModel<H::V>,
    stop: Option<nat>,
) -> H::V {
    root_fold::<H>(
        f.ommers,
        ommer_altitudes_of(f.position),
        seed_digest::<H>(f.leaf),
        1,
        stop,
    )
}

/// What `witness` returns: the sibling of the rightmost leaf at altitude 0
/// when the position is odd, or the completed subtree root at a higher
/// altitude the frontier is full to; `None` when that sibling does not exist
/// yet.
pub open spec fn frontier_witness<H: Hashable>(f: FrontierModel<H::V>, h: nat) -> Option<H::V> {
    if h == 0 {
        match f.leaf {
            Leaf::Left(_) => None,
            Leaf::Right(_, b) => Some(b),
        }
    } else if complete_to(f.position, h) {
        Some(
            root_fold::<H>(
                drop_last_or_empty(f.ommers),
                ommer_altitudes_of(f.position),
                seed_digest::<H>(f.leaf),
                1,
                Some(h),
            ),
        )
    } else {
        None
    }
}

/// What `witness_incomplete` returns: the empty-padded root of the still
/// incomplete subtree at altitude `h`, or `None` when that subtree is
/// complete (its digest then already sits in an earlier fragment).
pub open spec fn frontier_witness_incomplete<H: Hashable>(
    f: FrontierModel<H::V>,
    h: nat,
) -> Option<H::V> {
    if complete_to(f.position, h) {
        None
    } else if h == 0 {
        Some(H::blank_leaf())
    } else {
        Some(
            root_fold::<H>(
                drop_last_or_empty(f.ommers),
                ommer_altitudes_of(f.position),
                seed_digest::<H>(f.leaf),
                1,
                Some(h),
            ),
        )
    }
}

/// The view of an optional hash value.
pub open spec fn opt_view<H: View>(o: Option<H>) -> Option<H::V> {
    match o {
        Some(h) => Some(h@),
        None => None,
    }
}

/// A reduced representation of a Merkle tree: one or two rightmost leaf
/// values plus the roots of the completed subtrees to their left.
pub struct NonEmptyFrontier<H> {
    pub position: Position,
    pub leaf: Leaf<H>,
    pub ommers: Vec<H>,
}

impl<H: View> View for NonEmptyFrontier<H> {
    type V = FrontierModel<H::V>;

    open spec fn view(&self) -> FrontierModel<H::V> {
        FrontierModel {
            position: self.position.0 as nat,
            leaf: self.leaf@,
            ommers: hash_views(self.ommers@),
        }
    }
}

impl<H: Hashable> NonEmptyFrontier<H> {
    /// A new frontier holding `value` at position 0.
    pub fn new(value: H) -> (r: Self)
        ensures
            r@ == frontier_model_new::<H::V>(value@),
            frontier_model_wf(r@),
    {
        let r = NonEmptyFrontier { position: Position::zero(), leaf: Leaf::Left(value), ommers: Vec::new() };
        proof {
            assert(r@ =~= frontier_model_new::<H::V>(value@));
            assert(ommer_altitudes_of(0) =~= Seq::<nat>::empty()) by {
                crate::position::lemma_alt_range_len(0, 0, 1, crate::position::ommer_keep());
                crate::position::lemma_alt_range_membership(0, 0, 1, crate::position::ommer_keep());
                if ommer_altitudes_of(0).len() > 0 {
                    assert(crate::position::ommer_keep()(0, ommer_altitudes_of(0)[0]));
                }
            }
        }
        r
    }

    /// A deep copy holding the same values.
    pub fn duplicate(&self) -> (r: Self)
        ensures
            r@ == self@,
    {
        let mut ommers: Vec<H> = Vec::new();
        let mut i: usize = 0;
        while i < self.ommers.len()
            invariant
                i <= self.ommers.len(),
                ommers@.len() == i,
                forall|k: int| 0 <= k < i ==> (#[trigger] ommers@[k])@ == self.ommers@[k]@,
            decreases self.ommers.len() - i,
        {
            ommers.push(self.ommers[i].duplicate());
            i = i + 1;
        }
        let r = NonEmptyFrontier { position: self.position, leaf: self.leaf.duplicate(), ommers };
        proof {
            assert(hash_views(r.ommers@) =~= hash_views(self.ommers@));
            assert(r@ =~= self@);
        }
        r
    }

    /// The altitude of the highest populated ommer.
    pub fn max_altitude(&self) -> (r: Altitude)
        ensures
            r.0 as nat == max_altitude_of(self@.position),
            r.0 <= 63,
    {
        self.position.max_altitude()
    }

    /// The position of the most recently appended leaf.
    pub fn position(&self) -> (r: Position)
        ensures
            r == self.position,
    {
        self.position
    }

    /// The number of leaves appended so far.
    pub fn size(&self) -> (r: u64)
        requires
            self.position.0 < u64::MAX,
        ensures
            r as nat == self@.position + 1,
    {
        self.position.0 + 1
    }

    /// The value of the most recently appended leaf.
    pub fn leaf_value(&self) -> (r: H)
        ensures
            r@ == leaf_value_of(self@.leaf),
    {
        match &self.leaf {
            Leaf::Left(v) => v.duplicate(),
            Leaf::Right(_, v) => v.duplicate(),
        }
    }

    /// Append a leaf. An even frontier just gains its sibling; an odd one
    /// combines the pair and merges the carry up the ommer stack.
    pub fn append(&mut self, value: H)
        requires
            old(self).position.0 < u64::MAX,
        ensures
            final(self)@ == frontier_model_append::<H>(old(self)@, value@),
    {
        let ghost pre = self@;
        let mut carry: Option<(H, Altitude)> = None;
        let new_leaf: Leaf<H>;
        match &self.leaf {
            Leaf::Left(a) => {
                new_leaf = Leaf::Right(a.duplicate(), value);
            }
            Leaf::Right(a, b) => {
                carry = Some((H::combine(Altitude::zero(), a, b), Altitude::one()));
                new_leaf = Leaf::Left(value);
            }
        }
        let ghost carry0 = carry;
        self.leaf = new_leaf;
        if carry.is_some() {
            let ghost target = merge_rest::<H>(
                pre.ommers,
                ommer_altitudes_of(pre.position),
                carry_view(carry0),
            );
            let alts = self.position.ommer_altitudes();
            proof {
                vstd::arithmetic::power2::lemma2_to64();
                lemma_max_altitude_bounds(pre.position);
                lemma_alt_range_membership(
                    pre.position,
                    0,
                    max_altitude_of(pre.position) + 1,
                    crate::position::ommer_keep(),
                );
                assert forall|k: int| 0 <= k < alts@.len() implies alts@[k].0 <= 63 by {
                    assert(alts_seq(alts@)[k] == alts@[k].0 as nat);
                    assert(ommer_altitudes_of(pre.position)[k] < max_altitude_of(pre.position) + 1);
                }
            }
            let n: usize = if self.ommers.len() <= alts.len() {
                self.ommers.len()
            } else {
                alts.len()
            };
            let mut new_ommers: Vec<H> = Vec::new();
            let mut i: usize = 0;
            proof {
                assert(hash_views(self.ommers@).skip(0) =~= hash_views(self.ommers@));
                assert(ommer_altitudes_of(pre.position).skip(0) =~= ommer_altitudes_of(pre.position));
                assert(hash_views(new_ommers@) =~= Seq::<H::V>::empty());
                assert(hash_views(self.ommers@) =~= pre.ommers);
            }
            while i < n
                invariant
                    i <= n,
                    n as int == min(self.ommers@.len() as int, alts@.len() as int),
                    alts_seq(alts@) == ommer_altitudes_of(pre.position),
                    hash_views(self.ommers@) == pre.ommers,
                    forall|k: int| 0 <= k < alts@.len() ==> (#[trigger] alts@[k]).0 <= 63,
                    target == hash_views(new_ommers@) + merge_rest::<H>(
                        hash_views(self.ommers@).skip(i as int),
                        ommer_altitudes_of(pre.position).skip(i as int),
                        carry_view(carry),
                    ),
                decreases n - i,
            {
                let ghost om_v = hash_views(self.ommers@);
                let ghost alts_v = ommer_altitudes_of(pre.position);
                proof {
                    assert(om_v.skip(i as int).len() > 0);
                    assert(alts_v.skip(i as int).len() > 0);
                    assert(om_v.skip(i as int)[0] == om_v[i as int]);
                    assert(alts_v.skip(i as int)[0] == alts_v[i as int]);
                    assert(om_v.skip(i as int).drop_first() =~= om_v.skip(i as int + 1));
                    assert(alts_v.skip(i as int).drop_first() =~= alts_v.skip(i as int + 1));
                    assert(alts_v[i as int] == alts@[i as int].0 as nat);
                    assert(om_v[i as int] == self.ommers@[i as int]@);
                }
                let ghost new_pre = hash_views(new_ommers@);
                let ghost carry_pre = carry;
                match carry {
                    Some((c, l)) => {
                        if alts[i].0 == l.0 {
                            let folded = H::combine(l, &self.ommers[i], &c);
                            carry = Some((folded, Altitude(l.0 + 1)));
                            proof {
                                assert(carry_view(carry_pre) == Some((c@, l.0 as nat)));
                                assert(merged_ommers::<H>(
                                    om_v.skip(i as int),
                                    alts_v.skip(i as int),
                                    c@,
                                    l.0 as nat,
                                ) == merged_ommers::<H>(
                                    om_v.skip(i as int + 1),
                                    alts_v.skip(i as int + 1),
                                    H::combined(l.0 as nat, om_v[i as int], c@),
                                    l.0 as nat + 1,
                                ));
                                assert(carry_view(carry) == Some((
                                    H::combined(l.0 as nat, om_v[i as int], c@),
                                    l.0 as nat + 1,
                                )));
                            }
                        } else {
                            let ghost cv = c@;
                            new_ommers.push(c);
                            new_ommers.push(self.ommers[i].duplicate());
                            carry = None;
                            proof {
                                let s1 = om_v.skip(i as int + 1);
                                let a1 = alts_v.skip(i as int + 1);
                                let m = min(
                                    om_v.skip(i as int).len() as int,
                                    alts_v.skip(i as int).len() as int,
                                );
                                assert(carry_view(carry_pre) == Some((cv, l.0 as nat)));
                                assert(alts_v.skip(i as int)[0] != l.0 as nat);
                                assert(merged_ommers::<H>(
                                    om_v.skip(i as int),
                                    alts_v.skip(i as int),
                                    cv,
                                    l.0 as nat,
                                ) == seq![cv] + om_v.skip(i as int).take(m));
                                assert(om_v.skip(i as int).take(m) =~= seq![om_v[i as int]]
                                    + s1.take(m - 1));
                                assert(m - 1 == min(s1.len() as int, a1.len() as int));
                                assert(hash_views(new_ommers@) =~= new_pre + seq![cv, om_v[i as int]]);
                                assert(target =~= hash_views(new_ommers@) + merge_rest::<H>(
                                    s1,
                                    a1,
                                    carry_view(carry),
                                ));
                            }
                        }
                    }
                    None => {
                        new_ommers.push(self.ommers[i].duplicate());
                        carry = None;
                        proof {
                            let s1 = om_v.skip(i as int + 1);
                            let a1 = alts_v.skip(i as int + 1);
                            let m = min(
                                om_v.skip(i as int).len() as int,
                                alts_v.skip(i as int).len() as int,
                            );
                            assert(om_v.skip(i as int).take(m) =~= seq![om_v[i as int]] + s1.take(
                                m - 1,
                            ));
                            assert(m - 1 == min(s1.len() as int, a1.len() as int));
                            assert(hash_views(new_ommers@) =~= new_pre + seq![om_v[i as int]]);
                            assert(target =~= hash_views(new_ommers@) + merge_rest::<H>(
                                s1,
                                a1,
                                carry_view(carry),
                            ));
                        }
                    }
                }
                i = i + 1;
            }
            proof {
                assert(hash_views(self.ommers@).skip(i as int).len() == 0 || ommer_altitudes_of(
                    pre.position,
                ).skip(i as int).len() == 0);
            }
            match carry {
                Some((c, _)) => {
                    new_ommers.push(c);
                    proof {
                        assert(target =~= hash_views(new_ommers@));
                    }
                }
                None => {
                    proof {
                        let s = hash_views(self.ommers@).skip(i as int);
                        let a = ommer_altitudes_of(pre.position).skip(i as int);
                        assert(s.take(min(s.len() as int, a.len() as int)) =~= Seq::<H::V>::empty());
                        assert(target =~= hash_views(new_ommers@));
                    }
                }
            }
            self.ommers = new_ommers;
        }
        self.position.increment();
        proof {
            assert(final(self)@ =~= frontier_model_append::<H>(pre, value@));
        }
    }

    /// The canonical root fold over an explicit ommer slice: seed the digest
    /// from the leaf pair, then raise it through the ommers, padding with
    /// empty roots between populated altitudes, up to `result_lvl` (or the
    /// natural top when absent).
    pub fn inner_root(
        position: Position,
        leaf: &Leaf<H>,
        ommers: &[H],
        result_lvl: Option<Altitude>,
    ) -> (r: H)
        requires
            match result_lvl {
                Some(rl) => rl.0 <= 64,
                None => true,
            },
        ensures
            r@ == root_fold::<H>(
                hash_views(ommers@),
                ommer_altitudes_of(position.0 as nat),
                seed_digest::<H>(leaf@),
                1,
                alt_opt(result_lvl),
            ),
    {
        let mut digest = match leaf {
            Leaf::Left(a) => H::combine(Altitude::zero(), a, &H::empty_leaf()),
            Leaf::Right(a, b) => H::combine(Altitude::zero(), a, b),
        };
        let alts = position.ommer_altitudes();
        let ghost om_v = hash_views(ommers@);
        let ghost alts_v = ommer_altitudes_of(position.0 as nat);
        let ghost stop = alt_opt(result_lvl);
        let ghost target = root_fold::<H>(om_v, alts_v, seed_digest::<H>(leaf@), 1, stop);
        proof {
            vstd::arithmetic::power2::lemma2_to64();
            lemma_max_altitude_bounds(position.0 as nat);
            lemma_alt_range_membership(
                position.0 as nat,
                0,
                max_altitude_of(position.0 as nat) + 1,
                crate::position::ommer_keep(),
            );
            assert forall|k: int| 0 <= k < alts@.len() implies (#[trigger] alts@[k]).0 <= 63 by {
                assert(alts_seq(alts@)[k] == alts@[k].0 as nat);
                assert(alts_v[k] < max_altitude_of(position.0 as nat) + 1);
            }
            assert(om_v.skip(0) =~= om_v);
            assert(alts_v.skip(0) =~= alts_v);
        }
        let n: usize = if ommers.len() <= alts.len() {
            ommers.len()
        } else {
            alts.len()
        };
        let mut complete_lvl: u8 = 1;
        let mut i: usize = 0;
        let mut stopped = false;
        while i < n && !stopped
            invariant
                i <= n,
                n as int == min(om_v.len() as int, alts@.len() as int),
                om_v == hash_views(ommers@),
                alts_seq(alts@) == alts_v,
                forall|k: int| 0 <= k < alts@.len() ==> (#[trigger] alts@[k]).0 <= 63,
                1 <= complete_lvl <= 64,
                stop == alt_opt(result_lvl),
                match result_lvl {
                    Some(rl) => rl.0 <= 64,
                    None => true,
                },
                !stopped ==> target == root_fold::<H>(
                    om_v.skip(i as int),
                    alts_v.skip(i as int),
                    digest@,
                    complete_lvl as nat,
                    stop,
                ),
                stopped ==> result_lvl is Some && target == fold_blank_roots::<H>(
                    digest@,
                    complete_lvl as nat,
                    alt_opt(result_lvl).unwrap(),
                ),
            decreases n - i, (if stopped { 0int } else { 1int }),
        {
            proof {
                assert(om_v.skip(i as int).len() > 0);
                assert(alts_v.skip(i as int).len() > 0);
                assert(om_v.skip(i as int)[0] == om_v[i as int]);
                assert(alts_v.skip(i as int)[0] == alts_v[i as int]);
                assert(alts_v[i as int] == alts@[i as int].0 as nat);
                assert(om_v.skip(i as int).drop_first() =~= om_v.skip(i as int + 1));
                assert(alts_v.skip(i as int).drop_first() =~= alts_v.skip(i as int + 1));
            }
            let stop_here = match result_lvl {
                Some(rl) => complete_lvl == rl.0 || alts[i].0 >= rl.0,
                None => false,
            };
            if stop_here {
                stopped = true;
            } else {
                let ommer_lvl = alts[i];
                let ghost d0 = digest@;
                let ghost l0 = complete_lvl as nat;
                while complete_lvl < ommer_lvl.0
                    invariant
                        complete_lvl <= 64,
                        ommer_lvl.0 <= 63,
                        fold_blank_roots::<H>(d0, l0, ommer_lvl.0 as nat) == fold_blank_roots::<H>(
                            digest@,
                            complete_lvl as nat,
                            ommer_lvl.0 as nat,
                        ),
                    decreases ommer_lvl.0 - complete_lvl,
                {
                    digest = H::combine(Altitude(complete_lvl), &digest, &H::empty_root(Altitude(complete_lvl)));
                    complete_lvl = complete_lvl + 1;
                }
                digest = H::combine(ommer_lvl, &ommers[i], &digest);
                complete_lvl = ommer_lvl.0 + 1;
                i = i + 1;
            }
        }
        let target_lvl: u8 = match result_lvl {
            Some(rl) => rl.0,
            None => complete_lvl,
        };
        proof {
            if !stopped {
                assert(om_v.skip(i as int).len() == 0 || alts_v.skip(i as int).len() == 0);
            }
            assert(target == fold_blank_roots::<H>(digest@, complete_lvl as nat, target_lvl as nat));
        }
        while complete_lvl < target_lvl
            invariant
                target_lvl <= 64,
                target == fold_blank_roots::<H>(digest@, complete_lvl as nat, target_lvl as nat),
            decreases target_lvl - complete_lvl,
        {
            digest = H::combine(Altitude(complete_lvl), &digest, &H::empty_root(Altitude(complete_lvl)));
            complete_lvl = complete_lvl + 1;
        }
        digest
    }

    /// The root of the Merkle tree, hashing the frontier against empty
    /// branches up to its natural top.
    pub fn root(&self) -> (r: H)
        ensures
            r@ == frontier_root_at::<H>(self@, None),
    {
        Self::inner_root(self.position, &self.leaf, self.ommers.as_slice(), None)
    }

    /// The data needed to witness a sibling at the given altitude, if the
    /// tree is full to that altitude.
    pub fn witness(&self, sibling_altitude: Altitude) -> (r: Option<H>)
        requires
            sibling_altitude.0 <= 64,
        ensures
            opt_view(r) == frontier_witness::<H>(self@, sibling_altitude.0 as nat),
    {
        if sibling_altitude.0 == 0 {
            match &self.leaf {
                Leaf::Left(_) => None,
                Leaf::Right(_, a) => Some(a.duplicate()),
            }
        } else if self.position.is_complete(sibling_altitude) {
            let om = self.without_last_ommer();
            Some(Self::inner_root(self.position, &self.leaf, om, Some(sibling_altitude)))
        } else {
            None
        }
    }

    /// The empty-padded root of the still incomplete subtree at the given
    /// altitude, or `None` when that subtree is already complete.
    pub fn witness_incomplete(&self, altitude: Altitude) -> (r: Option<H>)
        requires
            altitude.0 <= 64,
        ensures
            opt_view(r) == frontier_witness_incomplete::<H>(self@, altitude.0 as nat),
    {
        if self.position.is_complete(altitude) {
            None
        } else {
            Some(
                if altitude.0 == 0 {
                    H::empty_leaf()
                } else {
                    let om = self.without_last_ommer();
                    Self::inner_root(self.position, &self.leaf, om, Some(altitude))
                },
            )
        }
    }

    /// Whether two frontiers hold the same position, leaves and ommers.
    pub fn eq_frontier(&self, other: &Self) -> (r: bool)
        ensures
            r == (self@ == other@),
    {
        if self.position.0 != other.position.0 {
            proof {
                assert(self@ != other@);
            }
            return false;
        }
        let leaves_eq = match (&self.leaf, &other.leaf) {
            (Leaf::Left(a), Leaf::Left(b)) => a.eq_value(b),
            (Leaf::Right(a, b), Leaf::Right(c, d)) => a.eq_value(c) && b.eq_value(d),
            _ => false,
        };
        if !leaves_eq {
            proof {
                assert(self@.leaf != other@.leaf);
            }
            return false;
        }
        if self.ommers.len() != other.ommers.len() {
            proof {
                assert(self@.ommers.len() != other@.ommers.len());
            }
            return false;
        }
        let mut i: usize = 0;
        while i < self.ommers.len()
            invariant
                i <= self.ommers.len(),
                self.ommers@.len() == other.ommers@.len(),
                forall|k: int| 0 <= k < i ==> (#[trigger] self.ommers@[k])@ == other.ommers@[k]@,
            decreases self.ommers.len() - i,
        {
            if !self.ommers[i].eq_value(&other.ommers[i]) {
                proof {
                    assert(self@.ommers[i as int] != other@.ommers[i as int]);
                }
                return false;
            }
            i = i + 1;
        }
        proof {
            assert(self@.ommers =~= other@.ommers);
            assert(self@.position == other@.position);
            assert(self@.leaf == other@.leaf);
            assert(self@ =~= other@);
        }
        true
    }

    /// The ommers with the last (the seed of the incomplete top subtree)
    /// removed; empty stays empty.
    fn without_last_ommer(&self) -> (r: &[H])
        ensures
            hash_views(r@) == drop_last_or_empty(self@.ommers),
    {
        let len = self.ommers.len();
        let r: &[H] = if len == 0 {
            self.ommers.as_slice()
        } else {
            slice_subrange(self.ommers.as_slice(), 0, len - 1)
        };
        proof {
            assert(hash_views(r@) =~= drop_last_or_empty(self@.ommers));
        }
        r
    }
}

/// The view of an optional altitude.
pub open spec fn alt_opt(o: Option<Altitude>) -> Option<nat> {
    match o {
        Some(a) => Some(a.0 as nat),
        None => None,
    }
}

/// The root of a possibly-empty frontier padded with empty branches up to a
/// fixed depth.
pub open spec fn bounded_root<H: Hashable>(f: Option<FrontierModel<H::V>>, depth: nat) -> H::V {
    match f {
        None => H::blank_root(depth),
        Some(m) => fold_blank_roots::<H>(
            frontier_root_at::<H>(m, None),
            max_altitude_of(m.position) + 1,
            depth,
        ),
    }
}

/// Relies on std's `Vec::capacity`: the capacity is at least the length, and
/// a `Vec`'s allocation never exceeds `isize::MAX` bytes, so the capacity
/// times a nonzero element size fits in that bound.
#[verifier::external_body]
fn vec_capacity<T>(v: &Vec<T>) -> (r: usize)
    ensures
        r >= v@.len(),
        vstd::layout::size_of::<T>() > 0 ==> r as nat * vstd::layout::size_of::<T>()
            <= isize::MAX as nat,
{
    v.capacity()
}

/// A possibly-empty Merkle frontier bounded by a compile-time depth.
pub struct Frontier<H, const DEPTH: u8> {
    pub frontier: Option<NonEmptyFrontier<H>>,
}

impl<H: View, const DEPTH: u8> View for Frontier<H, DEPTH> {
    type V = Option<FrontierModel<H::V>>;

    open spec fn view(&self) -> Option<FrontierModel<H::V>> {
        match self.frontier {
            Some(f) => Some(f@),
            None => None,
        }
    }
}

impl<H: Hashable, const DEPTH: u8> Frontier<H, DEPTH> {
    /// A new empty frontier.
    pub fn empty() -> (r: Self)
        ensures
            r@ is None,
    {
        Frontier { frontier: None }
    }

    /// Wrap a non-empty frontier, refusing one that exceeds the depth cap of
    /// 2^DEPTH leaves.
    pub fn new(frontier: NonEmptyFrontier<H>) -> (r: Option<Self>)
        requires
            DEPTH < 64,
        ensures
            frontier@.position + 1 <= pow2(DEPTH as nat) ==> (r matches Some(b) && b@ == Some(
                frontier@,
            )),
            frontier@.position + 1 > pow2(DEPTH as nat) ==> r is None,
    {
        proof {
            vstd::bits::lemma_u64_pow2_no_overflow(DEPTH as nat);
            vstd::bits::lemma_u64_shl_is_mul(1u64, DEPTH as u64);
        }
        if frontier.position.0 >= 1u64 << (DEPTH as u64) {
            None
        } else {
            Some(Frontier { frontier: Some(frontier) })
        }
    }

    /// The position of the latest leaf, if the frontier is non-empty.
    pub fn position(&self) -> (r: Option<Position>)
        ensures
            match self@ {
                Some(m) => r matches Some(p) && p.0 as nat == m.position,
                None => r is None,
            },
    {
        match &self.frontier {
            Some(f) => Some(f.position),
            None => None,
        }
    }

    /// The memory dynamically allocated for ommer values, as two header
    /// words plus the ommer capacity; saturates at the address-space limit.
    pub fn dynamic_memory_usage(&self) -> (r: usize)
        ensures
            self@ is None ==> r == 0,
            self@ is Some ==> r == usize::MAX || r as nat >= 2 * vstd::layout::size_of::<usize>()
                + self@->Some_0.ommers.len() * vstd::layout::size_of::<H>(),
    {
        match &self.frontier {
            None => 0,
            Some(f) => {
                let word = core::mem::size_of::<usize>();
                let elem = core::mem::size_of::<H>();
                let cap = vec_capacity(&f.ommers);
                let header = match word.checked_add(word) {
                    Some(w) => w,
                    None => usize::MAX,
                };
                let payload = match cap.checked_mul(elem) {
                    Some(p) => p,
                    None => usize::MAX,
                };
                proof {
                    vstd::arithmetic::mul::lemma_mul_inequality(
                        f.ommers@.len() as int,
                        cap as int,
                        vstd::layout::size_of::<H>() as int,
                    );
                    assert(self@->Some_0.ommers.len() == f.ommers@.len());
                }
                header.saturating_add(payload)
            }
        }
    }

    /// Append a leaf at the next free slot; refuse once 2^DEPTH leaves are
    /// present.
    pub fn append(&mut self, value: &H) -> (r: bool)
        requires
            DEPTH <= 64,
        ensures
            match old(self)@ {
                None => r == true && final(self)@ == Some(frontier_model_new::<H::V>(value@)),
                Some(m) => if complete_to(m.position, DEPTH as nat) {
                    r == false && final(self)@ == old(self)@
                } else {
                    r == true && final(self)@ == Some(frontier_model_append::<H>(m, value@))
                },
            },
    {
        match &mut self.frontier {
            Some(f) => {
                if f.position.is_complete(Altitude(DEPTH)) {
                    false
                } else {
                    proof {
                        if f.position.0 == u64::MAX {
                            assert(exists|i: nat|
                                i < DEPTH as nat && !bit_set(u64::MAX as nat, i));
                            let i0 = choose|i: nat|
                                i < DEPTH as nat && !bit_set(u64::MAX as nat, i);
                            crate::position::lemma_max_position_bits(i0 as u64);
                        }
                    }
                    f.append(value.duplicate());
                    true
                }
            }
            None => {
                self.frontier = Some(NonEmptyFrontier::new(value.duplicate()));
                true
            }
        }
    }

    /// The current root, folding the frontier's own root against empty
    /// branches up to DEPTH; the root of a perfect empty tree when empty.
    pub fn root(&self) -> (r: H)
        requires
            DEPTH <= 64,
        ensures
            r@ == bounded_root::<H>(self@, DEPTH as nat),
    {
        match &self.frontier {
            None => H::empty_root(Altitude(DEPTH)),
            Some(f) => {
                let mut digest = f.root();
                let top = f.max_altitude();
                let mut lvl: u8 = top.0 + 1;
                let ghost d0 = digest@;
                let ghost l0 = lvl as nat;
                while lvl < DEPTH
                    invariant
                        lvl <= 64,
                        DEPTH <= 64,
                        fold_blank_roots::<H>(d0, l0, DEPTH as nat) == fold_blank_roots::<H>(
                            digest@,
                            lvl as nat,
                            DEPTH as nat,
                        ),
                    decreases DEPTH - lvl,
                {
                    digest = H::combine(Altitude(lvl), &digest, &H::empty_root(Altitude(lvl)));
                    lvl = lvl + 1;
                }
                digest
            }
        }
    }
}

/// The view of an in-flight carry.
pub open spec fn carry_view<H: Hashable>(c: Option<(H, Altitude)>) -> Option<(H::V, nat)> {
    match c {
        Some(cl) => Some((cl.0@, cl.1.0 as nat)),
        None => None,
    }
}

} // verus!
