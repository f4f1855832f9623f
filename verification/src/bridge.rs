//! A Merkle bridge: a frontier together with the in-flight authentication
//! fragments of every witnessed leaf whose path is still being collected.

use vstd::prelude::*;
use crate::position::{Position, Altitude, max_altitude_of};
use crate::hashing::Hashable;
use crate::frontier::{
    NonEmptyFrontier, FrontierModel, frontier_model_new, frontier_model_append, frontier_root_at,
    leaf_value_of, hash_views,
};
use crate::fragment::{AuthFragment, FragmentModel, fragment_successor, fragment_augment, fragment_fuse};

verus! {

/// What a bridge denotes: the predecessor's final position (absent for the
/// genesis bridge), the fragments keyed by bridge index, and the frontier.
#[verifier::ext_equal]
pub struct BridgeModel<V> {
    pub prior: Option<nat>,
    pub frags: Seq<(nat, FragmentModel<V>)>,
    pub frontier: FrontierModel<V>,
}

/// The views of a fragment list.
pub open spec fn frags_view<H: View>(s: Seq<(usize, AuthFragment<H>)>) -> Seq<
    (nat, FragmentModel<H::V>),
> {
    s.map_values(|kv: (usize, AuthFragment<H>)| (kv.0 as nat, kv.1@))
}

/// The first fragment stored under a key, if any; keys are unique in a
/// well-formed bridge, so this is the fragment for that key.
pub open spec fn find_frag<V>(
    frags: Seq<(nat, FragmentModel<V>)>,
    k: nat,
) -> Option<FragmentModel<V>>
    decreases frags.len(),
{
    if frags.len() == 0 {
        None
    } else if frags[0].0 == k {
        Some(frags[0].1)
    } else {
        find_frag(frags.drop_first(), k)
    }
}

/// A fragment list with `f` stored under `k`: the first entry with that key
/// is replaced, or the pair is appended when the key is new.
pub open spec fn upsert_frag<V>(
    s: Seq<(nat, FragmentModel<V>)>,
    k: nat,
    f: FragmentModel<V>,
) -> Seq<(nat, FragmentModel<V>)>
    decreases s.len(),
{
    if s.len() == 0 {
        seq![(k, f)]
    } else if s[0].0 == k {
        seq![(k, f)] + s.drop_first()
    } else {
        seq![s[0]] + upsert_frag(s.drop_first(), k, f)
    }
}

/// The genesis bridge holding one leaf.
pub open spec fn bridge_model_new<V>(v: V) -> BridgeModel<V> {
    BridgeModel { prior: None, frags: Seq::empty(), frontier: frontier_model_new(v) }
}

/// The successor of a bridge at index `cur_idx`: the frontier is kept, every
/// fragment is continued empty, and a fresh fragment anchored at the current
/// position is stored under `cur_idx`.
pub open spec fn bridge_successor<V>(b: BridgeModel<V>, cur_idx: nat) -> BridgeModel<V> {
    let mapped = b.frags.map_values(
        |kv: (nat, FragmentModel<V>)| (kv.0, fragment_successor(kv.1)),
    );
    let fresh = FragmentModel {
        anchor: b.frontier.position,
        observed: 0nat,
        values: Seq::<V>::empty(),
    };
    BridgeModel {
        prior: Some(b.frontier.position),
        frags: upsert_frag(mapped, cur_idx, fresh),
        frontier: b.frontier,
    }
}

/// One append to a bridge: the frontier grows, then every fragment observes
/// the new frontier once.
pub open spec fn bridge_append<H: Hashable>(b: BridgeModel<H::V>, v: H::V) -> BridgeModel<H::V> {
    let fr = frontier_model_append::<H>(b.frontier, v);
    BridgeModel {
        prior: b.prior,
        frags: b.frags.map_values(
            |kv: (nat, FragmentModel<H::V>)| (kv.0, fragment_augment::<H>(kv.1, fr)),
        ),
        frontier: fr,
    }
}

/// Whether this bridge may directly follow `prev` in a chain.
pub open spec fn bridge_can_follow<V>(b: BridgeModel<V>, prev: BridgeModel<V>) -> bool {
    match b.prior {
        None => true,
        Some(p) => p == prev.frontier.position,
    }
}

/// Whether the fragment an entry shares with the next bridge's list can be
/// fused with it.
pub open spec fn entry_compatible<V>(
    f: (nat, FragmentModel<V>),
    next_frags: Seq<(nat, FragmentModel<V>)>,
) -> bool {
    match find_frag(next_frags, f.0) {
        Some(g) => fragment_fuse(f.1, g) is Some,
        None => true,
    }
}

/// An entry fused with its continuation in the next bridge, when one exists
/// there; kept unchanged otherwise.
pub open spec fn fused_entry<V>(
    f: (nat, FragmentModel<V>),
    next_frags: Seq<(nat, FragmentModel<V>)>,
) -> (nat, FragmentModel<V>) {
    match find_frag(next_frags, f.0) {
        Some(g) => match fragment_fuse(f.1, g) {
            Some(h) => (f.0, h),
            None => f,
        },
        None => f,
    }
}

/// Two adjacent bridges fused into one spanning both epochs: the earlier
/// prior, the later frontier, and the earlier bridge's fragments extended by
/// their continuations. `None` when the chain or a shared fragment does not
/// fit.
pub open spec fn bridge_fuse<V>(a: BridgeModel<V>, b: BridgeModel<V>) -> Option<BridgeModel<V>> {
    if bridge_can_follow(b, a) && (forall|i: int|
        0 <= i < a.frags.len() ==> entry_compatible(#[trigger] a.frags[i], b.frags)) {
        Some(
            BridgeModel {
                prior: a.prior,
                frags: Seq::new(a.frags.len(), |i: int| fused_entry(a.frags[i], b.frags)),
                frontier: b.frontier,
            },
        )
    } else {
        None
    }
}

/// A whole chain fused left to right; `None` for an empty chain or whenever
/// one fuse fails.
pub open spec fn bridge_fuse_all<V>(s: Seq<BridgeModel<V>>) -> Option<BridgeModel<V>>
    decreases s.len(),
{
    if s.len() == 0 {
        None
    } else if s.len() == 1 {
        Some(s[0])
    } else {
        match bridge_fuse_all(s.drop_last()) {
            Some(acc) => bridge_fuse(acc, s.last()),
            None => None,
        }
    }
}

/// The views of a bridge slice.
pub open spec fn bridges_view<H: View>(s: Seq<MerkleBridge<H>>) -> Seq<BridgeModel<H::V>> {
    s.map_values(|b: MerkleBridge<H>| b@)
}

/// The view of an optional bridge.
pub open spec fn opt_bridge_view<H: View>(o: Option<MerkleBridge<H>>) -> Option<BridgeModel<H::V>> {
    match o {
        Some(b) => Some(b@),
        None => None,
    }
}

/// A failed prefix of a left fold stays failed however far it extends.
pub proof fn lemma_fuse_all_none<V>(s: Seq<BridgeModel<V>>, j: int, k: int)
    requires
        1 <= j <= k <= s.len(),
        bridge_fuse_all(s.take(j)) is None,
    ensures
        bridge_fuse_all(s.take(k)) is None,
    decreases k - j,
{
    if j < k {
        assert(s.take(j + 1).drop_last() =~= s.take(j));
        assert(s.take(j + 1).len() == j + 1);
        lemma_fuse_all_none(s, j + 1, k);
    }
}

/// A frontier plus the fragments of every witness whose authentication path
/// is still pending in this bridge's epoch.
pub struct MerkleBridge<H> {
    pub prior_position: Option<Position>,
    pub auth_fragments: Vec<(usize, AuthFragment<H>)>,
    pub frontier: NonEmptyFrontier<H>,
}

impl<H: View> View for MerkleBridge<H> {
    type V = BridgeModel<H::V>;

    open spec fn view(&self) -> BridgeModel<H::V> {
        BridgeModel {
            prior: match self.prior_position {
                Some(p) => Some(p.0 as nat),
                None => None,
            },
            frags: frags_view(self.auth_fragments@),
            frontier: self.frontier@,
        }
    }
}

impl<H: Hashable> MerkleBridge<H> {
    /// The genesis bridge holding one leaf.
    pub fn new(value: H) -> (r: Self)
        ensures
            r@ == bridge_model_new::<H::V>(value@),
    {
        let r = MerkleBridge {
            prior_position: None,
            auth_fragments: Vec::new(),
            frontier: NonEmptyFrontier::new(value),
        };
        proof {
            assert(r@ =~= bridge_model_new::<H::V>(value@));
        }
        r
    }

    /// A deep copy holding the same values.
    pub fn duplicate(&self) -> (r: Self)
        ensures
            r@ == self@,
    {
        let mut frags: Vec<(usize, AuthFragment<H>)> = Vec::new();
        let mut i: usize = 0;
        while i < self.auth_fragments.len()
            invariant
                i <= self.auth_fragments.len(),
                frags@.len() == i,
                forall|k: int| 0 <= k < i ==> (#[trigger] frags@[k]).0
                    == self.auth_fragments@[k].0 && frags@[k].1@ == self.auth_fragments@[k].1@,
            decreases self.auth_fragments.len() - i,
        {
            let entry = (self.auth_fragments[i].0, self.auth_fragments[i].1.duplicate());
            frags.push(entry);
            i = i + 1;
        }
        let r = MerkleBridge {
            prior_position: self.prior_position,
            auth_fragments: frags,
            frontier: self.frontier.duplicate(),
        };
        proof {
            assert(frags_view(r.auth_fragments@) =~= frags_view(self.auth_fragments@));
            assert(r@ =~= self@);
        }
        r
    }

    /// The successor bridge: same frontier, every fragment continued empty,
    /// plus a fresh fragment for the current leaf stored under `cur_idx`,
    /// the index of this bridge in the tree.
    pub fn successor(&self, cur_idx: usize) -> (r: Self)
        ensures
            r@ == bridge_successor(self@, cur_idx as nat),
    {
        let ghost mapped = self@.frags.map_values(
            |kv: (nat, FragmentModel<H::V>)| (kv.0, fragment_successor(kv.1)),
        );
        let ghost fresh = FragmentModel {
            anchor: self@.frontier.position,
            observed: 0nat,
            values: Seq::<H::V>::empty(),
        };
        let mut frags: Vec<(usize, AuthFragment<H>)> = Vec::new();
        let mut replaced = false;
        let mut i: usize = 0;
        proof {
            assert(mapped.skip(0) =~= mapped);
        }
        while i < self.auth_fragments.len()
            invariant
                i <= self.auth_fragments.len(),
                mapped == self@.frags.map_values(
                    |kv: (nat, FragmentModel<H::V>)| (kv.0, fragment_successor(kv.1)),
                ),
                fresh == (FragmentModel {
                    anchor: self@.frontier.position,
                    observed: 0nat,
                    values: Seq::<H::V>::empty(),
                }),
                upsert_frag(mapped, cur_idx as nat, fresh) == frags_view(frags@) + (if replaced {
                    mapped.skip(i as int)
                } else {
                    upsert_frag(mapped.skip(i as int), cur_idx as nat, fresh)
                }),
            decreases self.auth_fragments.len() - i,
        {
            proof {
                assert(mapped.skip(i as int).len() > 0);
                assert(mapped.skip(i as int)[0] == mapped[i as int]);
                assert(mapped.skip(i as int).drop_first() =~= mapped.skip(i as int + 1));
                assert(mapped[i as int] == (self.auth_fragments@[i as int].0 as nat,
                    fragment_successor(self.auth_fragments@[i as int].1@)));
            }
            let key = self.auth_fragments[i].0;
            if key == cur_idx && !replaced {
                frags.push((cur_idx, AuthFragment::new(self.frontier.position())));
                replaced = true;
                proof {
                    assert(frags_view(frags@) =~= frags_view(frags@.drop_last()) + seq![
                        (cur_idx as nat, fresh),
                    ]);
                    assert(upsert_frag(mapped, cur_idx as nat, fresh) =~= frags_view(frags@)
                        + mapped.skip(i as int + 1));
                }
            } else {
                frags.push((key, self.auth_fragments[i].1.successor()));
                proof {
                    assert(frags_view(frags@) =~= frags_view(frags@.drop_last()) + seq![
                        mapped[i as int],
                    ]);
                    if replaced {
                        assert(upsert_frag(mapped, cur_idx as nat, fresh) =~= frags_view(frags@)
                            + mapped.skip(i as int + 1));
                    } else {
                        assert(upsert_frag(mapped, cur_idx as nat, fresh) =~= frags_view(frags@)
                            + upsert_frag(mapped.skip(i as int + 1), cur_idx as nat, fresh));
                    }
                }
            }
            i = i + 1;
        }
        if !replaced {
            frags.push((cur_idx, AuthFragment::new(self.frontier.position())));
            proof {
                assert(mapped.skip(i as int).len() == 0);
                assert(upsert_frag(mapped.skip(i as int), cur_idx as nat, fresh) =~= seq![
                    (cur_idx as nat, fresh),
                ]);
                assert(frags_view(frags@) =~= frags_view(frags@.drop_last()) + seq![
                    (cur_idx as nat, fresh),
                ]);
                assert(upsert_frag(mapped, cur_idx as nat, fresh) =~= frags_view(frags@));
            }
        } else {
            proof {
                assert(mapped.skip(i as int) =~= Seq::<(nat, FragmentModel<H::V>)>::empty());
                assert(upsert_frag(mapped, cur_idx as nat, fresh) =~= frags_view(frags@));
            }
        }
        let r = MerkleBridge {
            prior_position: Some(self.frontier.position()),
            auth_fragments: frags,
            frontier: self.frontier.duplicate(),
        };
        proof {
            assert(r@ =~= bridge_successor(self@, cur_idx as nat));
        }
        r
    }

    /// Append a leaf to the frontier, then let every fragment observe the
    /// new frontier once.
    pub fn append(&mut self, value: H)
        requires
            old(self).frontier.position.0 < u64::MAX,
        ensures
            final(self)@ == bridge_append::<H>(old(self)@, value@),
    {
        self.frontier.append(value);
        let ghost fr = self.frontier@;
        let ghost pre = old(self).auth_fragments@;
        let mut i: usize = 0;
        while i < self.auth_fragments.len()
            invariant
                i <= self.auth_fragments.len(),
                self.frontier@ == fr,
                self.auth_fragments@.len() == pre.len(),
                pre == old(self).auth_fragments@,
                forall|k: int| i <= k < pre.len() ==> (#[trigger] self.auth_fragments@[k]).0
                    == pre[k].0 && self.auth_fragments@[k].1@ == pre[k].1@,
                forall|k: int| 0 <= k < i ==> (#[trigger] self.auth_fragments@[k]).0 == pre[k].0
                    && self.auth_fragments@[k].1@ == fragment_augment::<H>(pre[k].1@, fr),
                self.prior_position == old(self).prior_position,
            decreases self.auth_fragments.len() - i,
        {
            let ghost body_pre = self.auth_fragments@;
            let mut entry = self.auth_fragments.remove(i);
            entry.1.augment(&self.frontier);
            let ghost esnap = entry;
            self.auth_fragments.insert(i, entry);
            proof {
                assert(self.auth_fragments@ =~= body_pre.update(i as int, esnap));
            }
            i = i + 1;
        }
        proof {
            let mapped = old(self)@.frags.map_values(
                |kv: (nat, FragmentModel<H::V>)| (kv.0, fragment_augment::<H>(kv.1, fr)),
            );
            assert forall|k: int| 0 <= k < pre.len() implies frags_view(self.auth_fragments@)[k]
                == mapped[k] by {
                assert(old(self)@.frags[k] == (pre[k].0 as nat, pre[k].1@));
                assert(frags_view(self.auth_fragments@)[k] == (self.auth_fragments@[k].0 as nat,
                    self.auth_fragments@[k].1@));
            }
            assert(frags_view(self.auth_fragments@) =~= mapped);
            assert(final(self)@ =~= bridge_append::<H>(old(self)@, value@));
        }
    }

    /// The altitude of the highest populated ommer in the frontier.
    pub fn max_altitude(&self) -> (r: Altitude)
        ensures
            r.0 as nat == max_altitude_of(self@.frontier.position),
            r.0 <= 63,
    {
        self.frontier.max_altitude()
    }

    /// The root of this bridge's frontier, folded to its natural top.
    pub fn root(&self) -> (r: H)
        ensures
            r@ == frontier_root_at::<H>(self@.frontier, None),
    {
        self.frontier.root()
    }

    /// The value of the most recently appended leaf.
    pub fn leaf_value(&self) -> (r: H)
        ensures
            r@ == leaf_value_of(self@.frontier.leaf),
    {
        self.frontier.leaf_value()
    }

    /// Whether this bridge may directly follow `prev`.
    pub fn can_follow(&self, prev: &Self) -> (r: bool)
        ensures
            r == bridge_can_follow(self@, prev@),
    {
        match &self.prior_position {
            None => true,
            Some(p) => p.0 == prev.frontier.position().0,
        }
    }

    /// Fuse with the directly following bridge; `None` when the chain or a
    /// shared fragment does not fit.
    pub fn fuse(&self, next: &Self) -> (r: Option<Self>)
        ensures
            opt_bridge_view(r) == bridge_fuse(self@, next@),
    {
        if !next.can_follow(self) {
            return None;
        }
        let mut frags: Vec<(usize, AuthFragment<H>)> = Vec::new();
        let mut i: usize = 0;
        while i < self.auth_fragments.len()
            invariant
                i <= self.auth_fragments.len(),
                frags@.len() == i,
                bridge_can_follow(next@, self@),
                forall|k: int| 0 <= k < i ==> entry_compatible(
                    #[trigger] self@.frags[k],
                    next@.frags,
                ),
                forall|k: int| 0 <= k < i ==> ((#[trigger] frags@[k]).0 as nat, frags@[k].1@)
                    == fused_entry(self@.frags[k], next@.frags),
            decreases self.auth_fragments.len() - i,
        {
            let key = self.auth_fragments[i].0;
            proof {
                assert(self@.frags[i as int] == (key as nat, self.auth_fragments@[i as int].1@));
            }
            match Self::find_fragment(&next.auth_fragments, key) {
                Some(g) => {
                    match self.auth_fragments[i].1.fuse(g) {
                        Some(h) => {
                            frags.push((key, h));
                        }
                        None => {
                            proof {
                                assert(!entry_compatible(self@.frags[i as int], next@.frags));
                            }
                            return None;
                        }
                    }
                }
                None => {
                    frags.push((key, self.auth_fragments[i].1.duplicate()));
                }
            }
            i = i + 1;
        }
        let r = MerkleBridge {
            prior_position: self.prior_position,
            auth_fragments: frags,
            frontier: next.frontier.duplicate(),
        };
        proof {
            let fused_model = BridgeModel {
                prior: self@.prior,
                frags: Seq::new(self@.frags.len(), |k: int| fused_entry(self@.frags[k], next@.frags)),
                frontier: next@.frontier,
            };
            assert(frags_view(r.auth_fragments@) =~= fused_model.frags);
            assert(r@ =~= fused_model);
            assert(bridge_fuse(self@, next@) == Some(fused_model));
        }
        Some(r)
    }

    /// Fuse a whole chain of bridges left to right; `None` for an empty
    /// chain or whenever adjacent bridges do not fit.
    pub fn fuse_all(bridges: &[MerkleBridge<H>]) -> (r: Option<Self>)
        ensures
            opt_bridge_view(r) == bridge_fuse_all(bridges_view(bridges@)),
    {
        let ghost views = bridges_view(bridges@);
        let n = bridges.len();
        if n == 0 {
            return None;
        }
        let mut acc = bridges[0].duplicate();
        let mut i: usize = 1;
        proof {
            assert(views.take(1) =~= seq![views[0]]);
        }
        while i < n
            invariant
                1 <= i <= n,
                n == bridges@.len(),
                views == bridges_view(bridges@),
                bridge_fuse_all(views.take(i as int)) == Some(acc@),
            decreases n - i,
        {
            proof {
                assert(views.take(i as int + 1).drop_last() =~= views.take(i as int));
                assert(views.take(i as int + 1).last() == views[i as int]);
                assert(views[i as int] == bridges@[i as int]@);
            }
            match acc.fuse(&bridges[i]) {
                Some(f) => {
                    acc = f;
                }
                None => {
                    proof {
                        lemma_fuse_all_none(views, i as int + 1, views.len() as int);
                        assert(views.take(views.len() as int) =~= views);
                    }
                    return None;
                }
            }
            i = i + 1;
        }
        proof {
            assert(views.take(n as int) =~= views);
        }
        Some(acc)
    }

    /// The fragment stored under `key` in a fragment list, if any.
    pub(crate) fn find_fragment(frags: &Vec<(usize, AuthFragment<H>)>, key: usize) -> (r: Option<
        &AuthFragment<H>,
    >)
        ensures
            match r {
                Some(g) => find_frag(frags_view(frags@), key as nat) == Some(g@),
                None => find_frag(frags_view(frags@), key as nat) is None,
            },
    {
        let ghost full = frags_view(frags@);
        let mut i: usize = 0;
        proof {
            assert(full.skip(0) =~= full);
        }
        while i < frags.len()
            invariant
                i <= frags.len(),
                full == frags_view(frags@),
                find_frag(full, key as nat) == find_frag(full.skip(i as int), key as nat),
            decreases frags.len() - i,
        {
            proof {
                assert(full.skip(i as int)[0] == full[i as int]);
                assert(full.skip(i as int).drop_first() =~= full.skip(i as int + 1));
                assert(full[i as int] == (frags@[i as int].0 as nat, frags@[i as int].1@));
            }
            if frags[i].0 == key {
                return Some(&frags[i].1);
            }
            i = i + 1;
        }
        proof {
            assert(full.skip(i as int) =~= Seq::<(nat, FragmentModel<H::V>)>::empty());
        }
        None
    }
}

} // verus!
