//! The bridge tree: an ordered history of Merkle bridges, the witnessed-leaf
//! index, a bounded checkpoint stack with rewind, and detached recordings of
//! appends that can be replayed atomically.

use vstd::prelude::*;
use vstd::math::min;
use vstd::slice::slice_subrange;
use crate::position::{
    Position, Altitude, complete_to, ommer_altitudes_of, alts_seq, bit_set, max_altitude_of,
};
use crate::hashing::Hashable;
use crate::frontier::{
    NonEmptyFrontier, FrontierModel, Leaf, leaf_value_of, frontier_root_at, fold_blank_roots,
    frontier_witness_incomplete, hash_views,
};
use crate::fragment::{AuthFragment, FragmentModel, fragment_next_required, duplicate_values};
use crate::bridge::{
    MerkleBridge, BridgeModel, bridge_model_new, bridge_successor, bridge_append,
    bridge_can_follow, bridge_fuse, bridge_fuse_all, bridges_view, find_frag,
};

verus! {

/// A restorable snapshot: either the tree had no bridges, or the index of
/// its latest bridge together with a full copy of that bridge.
pub enum Checkpoint<H> {
    Empty,
    AtIndex(usize, MerkleBridge<H>),
}

/// What a checkpoint denotes.
#[verifier::ext_equal]
pub enum CheckpointModel<V> {
    Empty,
    AtIndex(nat, BridgeModel<V>),
}

impl<H: View> View for Checkpoint<H> {
    type V = CheckpointModel<H::V>;

    open spec fn view(&self) -> CheckpointModel<H::V> {
        match self {
            Checkpoint::Empty => CheckpointModel::Empty,
            Checkpoint::AtIndex(i, b) => CheckpointModel::AtIndex(*i as nat, b@),
        }
    }
}

/// What a bridge tree denotes: the bridge history, the witnessed leaves with
/// the index of their anchor bridge, the checkpoint stack (oldest first) and
/// its bound.
#[verifier::ext_equal]
pub struct TreeModel<V> {
    pub bridges: Seq<BridgeModel<V>>,
    pub saved: Seq<(V, nat)>,
    pub checkpoints: Seq<CheckpointModel<V>>,
    pub max_checkpoints: nat,
}

/// The views of the witnessed-leaf list.
pub open spec fn saved_view<H: View>(s: Seq<(H, usize)>) -> Seq<(H::V, nat)> {
    s.map_values(|kv: (H, usize)| (kv.0@, kv.1 as nat))
}

/// The views of the checkpoint stack.
pub open spec fn ckpts_view<H: View>(s: Seq<Checkpoint<H>>) -> Seq<CheckpointModel<H::V>> {
    s.map_values(|c: Checkpoint<H>| c@)
}

/// The anchor index stored for a witnessed leaf value, if any: the first
/// entry with that key (the only one, keys being unique in a well-formed
/// tree).
pub open spec fn find_saved<V>(s: Seq<(V, nat)>, h: V) -> Option<nat>
    decreases s.len(),
{
    if s.len() == 0 {
        None
    } else if s[0].0 == h {
        Some(s[0].1)
    } else {
        find_saved(s.drop_first(), h)
    }
}

/// The witnessed-leaf list without the first entry for a key.
pub open spec fn remove_saved<V>(s: Seq<(V, nat)>, h: V) -> Seq<(V, nat)>
    decreases s.len(),
{
    if s.len() == 0 {
        s
    } else if s[0].0 == h {
        s.drop_first()
    } else {
        seq![s[0]] + remove_saved(s.drop_first(), h)
    }
}

/// The witnessed-leaf list restricted to anchors at or below index `i`.
pub open spec fn retain_saved_le<V>(s: Seq<(V, nat)>, i: nat) -> Seq<(V, nat)>
    decreases s.len(),
{
    if s.len() == 0 {
        s
    } else if s[0].1 <= i {
        seq![s[0]] + retain_saved_le(s.drop_first(), i)
    } else {
        retain_saved_le(s.drop_first(), i)
    }
}

/// Well-formedness of a tree: every saved anchor points at an existing
/// bridge, witnessed keys are unique, and the checkpoint stack is coherent
/// (indices in range and non-decreasing from oldest to newest, with empty
/// snapshots only below indexed ones).
pub open spec fn tree_wf<V>(t: TreeModel<V>) -> bool {
    &&& forall|k: int| 0 <= k < t.saved.len() ==> (#[trigger] t.saved[k]).1 < t.bridges.len()
    &&& forall|k1: int, k2: int|
        #![trigger t.saved[k1], t.saved[k2]]
        0 <= k1 < k2 < t.saved.len() ==> t.saved[k1].0 != t.saved[k2].0
    &&& forall|k: int| 0 <= k < t.checkpoints.len() ==> match #[trigger] t.checkpoints[k] {
        CheckpointModel::AtIndex(i, _) => i < t.bridges.len(),
        CheckpointModel::Empty => true,
    }
    &&& forall|k1: int, k2: int|
        #![trigger t.checkpoints[k1], t.checkpoints[k2]]
        0 <= k1 < k2 < t.checkpoints.len() ==> match (t.checkpoints[k1], t.checkpoints[k2]) {
            (CheckpointModel::AtIndex(i1, _), CheckpointModel::AtIndex(i2, _)) => i1 <= i2,
            (_, CheckpointModel::Empty) => t.checkpoints[k1] is Empty,
            _ => true,
        }
}

/// A nonexistent key matches no entry.
pub proof fn lemma_find_saved_none<V>(s: Seq<(V, nat)>, h: V)
    requires
        find_saved(s, h) is None,
    ensures
        forall|k: int| 0 <= k < s.len() ==> (#[trigger] s[k]).0 != h,
    decreases s.len(),
{
    if s.len() > 0 {
        lemma_find_saved_none(s.drop_first(), h);
        assert forall|k: int| 0 <= k < s.len() implies (#[trigger] s[k]).0 != h by {
            if k > 0 {
                assert(s.drop_first()[k - 1] == s[k]);
            }
        }
    }
}

/// Removing the first entry for a key at its index is removing that index.
pub proof fn lemma_remove_saved_at<V>(s: Seq<(V, nat)>, h: V, j: int)
    requires
        0 <= j < s.len(),
        s[j].0 == h,
        forall|k: int| 0 <= k < j ==> (#[trigger] s[k]).0 != h,
    ensures
        remove_saved(s, h) == s.remove(j),
    decreases s.len(),
{
    if j == 0 {
        assert(remove_saved(s, h) == s.drop_first());
        assert(s.drop_first() =~= s.remove(0));
    } else {
        lemma_remove_saved_at(s.drop_first(), h, j - 1);
        assert(remove_saved(s, h) == seq![s[0]] + s.drop_first().remove(j - 1));
        assert(seq![s[0]] + s.drop_first().remove(j - 1) =~= s.remove(j));
    }
}

/// The new empty tree.
pub open spec fn tree_model_new<V>(max_checkpoints: nat) -> TreeModel<V> {
    TreeModel {
        bridges: Seq::empty(),
        saved: Seq::empty(),
        checkpoints: Seq::empty(),
        max_checkpoints,
    }
}

/// One append: route the leaf to the latest bridge, or start the genesis
/// bridge; refuse once the depth cap is reached.
pub open spec fn tree_append<H: Hashable>(t: TreeModel<H::V>, v: H::V, depth: nat) -> (
    bool,
    TreeModel<H::V>,
) {
    if t.bridges.len() == 0 {
        (true, TreeModel { bridges: seq![bridge_model_new(v)], ..t })
    } else {
        let last = t.bridges[t.bridges.len() - 1];
        if complete_to(last.frontier.position, depth) {
            (false, t)
        } else {
            (
                true,
                TreeModel {
                    bridges: t.bridges.update(t.bridges.len() - 1, bridge_append::<H>(last, v)),
                    ..t
                },
            )
        }
    }
}

/// The current root: the latest bridge's root padded with empty branches up
/// to the tree depth, or the root of a perfect empty tree.
pub open spec fn tree_root<H: Hashable>(t: TreeModel<H::V>, depth: nat) -> H::V {
    if t.bridges.len() == 0 {
        H::blank_root(depth)
    } else {
        let last = t.bridges[t.bridges.len() - 1];
        fold_blank_roots::<H>(
            frontier_root_at::<H>(last.frontier, None),
            max_altitude_of(last.frontier.position) + 1,
            depth,
        )
    }
}

/// One witness: mark the current leaf, collapsing onto the previous bridge
/// when the two frontiers are equal (a witness that was removed and
/// re-taken), and otherwise fork a successor bridge.
pub open spec fn tree_witness<V>(t: TreeModel<V>) -> (bool, TreeModel<V>) {
    if t.bridges.len() == 0 {
        (false, t)
    } else {
        let blen = t.bridges.len();
        let cur = t.bridges[blen - 1];
        let leaf = leaf_value_of(cur.frontier.leaf);
        let is_dup = blen > 1 && cur.frontier == t.bridges[blen - 2].frontier;
        let save_idx: nat = if is_dup {
            (blen - 2) as nat
        } else {
            (blen - 1) as nat
        };
        let saved2 = if find_saved(t.saved, leaf) is Some {
            t.saved
        } else {
            t.saved.push((leaf, save_idx))
        };
        let bridges2 = if !is_dup {
            t.bridges.push(bridge_successor(cur, (blen - 1) as nat))
        } else {
            t.bridges
        };
        (true, TreeModel { bridges: bridges2, saved: saved2, ..t })
    }
}

/// Removing a witness: drop the entry, report whether it existed.
pub open spec fn tree_remove_witness<V>(t: TreeModel<V>, v: V) -> (bool, TreeModel<V>) {
    (find_saved(t.saved, v) is Some, TreeModel { saved: remove_saved(t.saved, v), ..t })
}

/// One checkpoint: snapshot the latest bridge (or the empty state) and drop
/// the oldest checkpoint when the bound is exceeded.
pub open spec fn tree_checkpoint<V>(t: TreeModel<V>) -> TreeModel<V> {
    let c = if t.bridges.len() == 0 {
        CheckpointModel::Empty
    } else {
        CheckpointModel::AtIndex((t.bridges.len() - 1) as nat, t.bridges[t.bridges.len() - 1])
    };
    let pushed = t.checkpoints.push(c);
    TreeModel {
        checkpoints: if pushed.len() > t.max_checkpoints {
            pushed.drop_first()
        } else {
            pushed
        },
        ..t
    }
}

/// One rewind: pop the latest checkpoint and restore it, unless doing so
/// would destroy witness data added after it; a refused rewind leaves the
/// tree unchanged (the checkpoint back on the stack).
pub open spec fn tree_rewind<V>(t: TreeModel<V>) -> (bool, TreeModel<V>) {
    if t.checkpoints.len() == 0 {
        (false, t)
    } else {
        let c = t.checkpoints.last();
        let popped = t.checkpoints.drop_last();
        match c {
            CheckpointModel::Empty => if t.saved.len() == 0 {
                (true, TreeModel { bridges: Seq::empty(), checkpoints: popped, ..t })
            } else {
                (false, t)
            },
            CheckpointModel::AtIndex(i, bridge) => {
                if (exists|k: int| 0 <= k < t.saved.len() && (#[trigger] t.saved[k]).1 > i) || ((
                exists|k: int| 0 <= k < t.saved.len() && (#[trigger] t.saved[k]).1 == i)
                    && bridge.frontier != t.bridges[i as int].frontier) {
                    (false, t)
                } else {
                    let bridges1 = t.bridges.take(i as int + 1).update(i as int, bridge);
                    let saved1 = retain_saved_le(t.saved, i);
                    if find_saved(saved1, leaf_value_of(bridge.frontier.leaf)) is Some {
                        let is_dup = i > 0 && bridge.frontier == t.bridges[i - 1].frontier;
                        let bridges2 = if !is_dup {
                            bridges1.push(bridge_successor(bridge, i))
                        } else {
                            bridges1
                        };
                        (
                            true,
                            TreeModel { bridges: bridges2, saved: saved1, checkpoints: popped, ..t },
                        )
                    } else {
                        (
                            true,
                            TreeModel { bridges: bridges1, saved: saved1, checkpoints: popped, ..t },
                        )
                    }
                }
            },
        }
    }
}

/// Fill a path with staged authentication values up to a target altitude,
/// falling back to the empty root of each level once they run out; returns
/// the filled path and the new cursor into the staged values.
pub open spec fn padded_fill<H: Hashable>(
    result: Seq<H::V>,
    avals: Seq<H::V>,
    used: nat,
    target: nat,
) -> (Seq<H::V>, nat)
    decreases target - result.len(),
{
    if result.len() >= target {
        (result, used)
    } else if used < avals.len() {
        padded_fill::<H>(result.push(avals[used as int]), avals, used + 1, target)
    } else {
        padded_fill::<H>(result.push(H::blank_root(result.len())), avals, used, target)
    }
}

/// Walk the anchor frontier's ommers: fill the path up to each populated
/// altitude, then place that ommer (the left sibling there).
pub open spec fn ommer_fill<H: Hashable>(
    result: Seq<H::V>,
    used: nat,
    avals: Seq<H::V>,
    om: Seq<H::V>,
    alts: Seq<nat>,
) -> (Seq<H::V>, nat)
    decreases om.len(),
{
    if om.len() == 0 || alts.len() == 0 {
        (result, used)
    } else {
        let step = padded_fill::<H>(result, avals, used, alts[0]);
        ommer_fill::<H>(step.0.push(om[0]), step.1, avals, om.drop_first(), alts.drop_first())
    }
}

/// The staged authentication values drawn from the fused trailing bridge:
/// the anchor's fragment values, then the digest of the currently incomplete
/// subtree witnessed from the fused frontier, when both exist.
pub open spec fn auth_values_of<H: Hashable>(fused: BridgeModel<H::V>, idx: nat) -> Seq<H::V> {
    match find_frag(fused.frags, idx) {
        Some(f) => f.values + (match fragment_next_required(f) {
            Some(lvl) => match frontier_witness_incomplete::<H>(fused.frontier, lvl) {
                Some(d) => seq![d],
                None => Seq::empty(),
            },
            None => Seq::empty(),
        }),
        None => Seq::empty(),
    }
}

/// The authentication path for an anchor frontier: its altitude-0 sibling,
/// then its ommers interleaved with staged values, padded with empty roots
/// up to the tree depth.
pub open spec fn auth_path_from<H: Hashable>(
    anchor: FrontierModel<H::V>,
    avals: Seq<H::V>,
    depth: nat,
) -> Seq<H::V> {
    let first: (Seq<H::V>, nat) = match anchor.leaf {
        Leaf::Left(_) => if avals.len() > 0 {
            (seq![avals[0]], 1nat)
        } else {
            (seq![H::blank_leaf()], 0nat)
        },
        Leaf::Right(a, _) => (seq![a], 0nat),
    };
    let mid = ommer_fill::<H>(
        first.0,
        first.1,
        avals,
        anchor.ommers,
        ommer_altitudes_of(anchor.position),
    );
    padded_fill::<H>(mid.0, avals, mid.1, depth).0
}

/// The path drawn from the fused trailing bridge.
pub open spec fn auth_path_of<H: Hashable>(
    anchor: FrontierModel<H::V>,
    fused: BridgeModel<H::V>,
    idx: nat,
    depth: nat,
) -> Seq<H::V> {
    auth_path_from::<H>(anchor, auth_values_of::<H>(fused, idx), depth)
}

/// What `authentication_path` returns: for a witnessed value, the anchor
/// position and the DEPTH sibling digests obtained by fusing the bridges
/// after the anchor. An anchor with no following bridge has nothing to draw
/// from but its own frontier: the path is built with no staged values, every
/// missing altitude padded by the empty root. `None` for an unknown value or
/// an unfusable chain.
pub open spec fn tree_authentication_path<H: Hashable>(
    t: TreeModel<H::V>,
    v: H::V,
    depth: nat,
) -> Option<(nat, Seq<H::V>)> {
    match find_saved(t.saved, v) {
        None => None,
        Some(idx) => if idx >= t.bridges.len() {
            None
        } else if idx + 1 == t.bridges.len() {
            let anchor = t.bridges[idx as int].frontier;
            Some((anchor.position, auth_path_from::<H>(anchor, Seq::empty(), depth)))
        } else {
            match bridge_fuse_all(t.bridges.subrange(idx as int + 1, t.bridges.len() as int)) {
                None => None,
                Some(fused) => {
                    let anchor = t.bridges[idx as int].frontier;
                    Some((anchor.position, auth_path_of::<H>(anchor, fused, idx, depth)))
                },
            }
        },
    }
}

/// What a detached recording denotes.
pub open spec fn recording_model<V>(t: TreeModel<V>) -> Option<BridgeModel<V>> {
    if t.bridges.len() == 0 {
        None
    } else {
        Some(t.bridges[t.bridges.len() - 1])
    }
}

/// Replaying a recording: start the tree from it when empty, or overwrite
/// the latest bridge when the recording can follow its predecessor.
pub open spec fn tree_play<V>(t: TreeModel<V>, rec: Option<BridgeModel<V>>) -> (
    bool,
    TreeModel<V>,
) {
    let n = t.bridges.len();
    if n == 0 {
        match rec {
            Some(b) => (true, TreeModel { bridges: seq![b], ..t }),
            None => (true, t),
        }
    } else {
        match rec {
            Some(b) => if n == 1 {
                (true, TreeModel { bridges: t.bridges.update(0, b), ..t })
            } else if bridge_can_follow(b, t.bridges[n - 2]) {
                (true, TreeModel { bridges: t.bridges.update(n - 1, b), ..t })
            } else {
                (false, t)
            },
            None => (false, t),
        }
    }
}

/// A space-efficient Merkle tree: one bridge per tracked witness plus the
/// current one, the witnessed-leaf index, and a bounded checkpoint stack.
pub struct BridgeTree<H, const DEPTH: u8> {
    pub bridges: Vec<MerkleBridge<H>>,
    pub saved: Vec<(H, usize)>,
    pub checkpoints: Vec<Checkpoint<H>>,
    pub max_checkpoints: usize,
}

impl<H: View, const DEPTH: u8> View for BridgeTree<H, DEPTH> {
    type V = TreeModel<H::V>;

    open spec fn view(&self) -> TreeModel<H::V> {
        TreeModel {
            bridges: bridges_view(self.bridges@),
            saved: saved_view(self.saved@),
            checkpoints: ckpts_view(self.checkpoints@),
            max_checkpoints: self.max_checkpoints as nat,
        }
    }
}

/// A detached single-bridge buffer: appends staged here replay atomically
/// into a tree or another recording.
pub struct BridgeRecording<H, const DEPTH: u8> {
    pub bridge: Option<MerkleBridge<H>>,
}

impl<H: View, const DEPTH: u8> View for BridgeRecording<H, DEPTH> {
    type V = Option<BridgeModel<H::V>>;

    open spec fn view(&self) -> Option<BridgeModel<H::V>> {
        match self.bridge {
            Some(b) => Some(b@),
            None => None,
        }
    }
}

impl<H: Hashable, const DEPTH: u8> BridgeTree<H, DEPTH> {
    /// The new empty tree retaining at most `max_checkpoints` checkpoints.
    pub fn new(max_checkpoints: usize) -> (r: Self)
        ensures
            r@ == tree_model_new::<H::V>(max_checkpoints as nat),
            tree_wf(r@),
    {
        let r = BridgeTree {
            bridges: Vec::new(),
            saved: Vec::new(),
            checkpoints: Vec::new(),
            max_checkpoints,
        };
        proof {
            assert(r@ =~= tree_model_new::<H::V>(max_checkpoints as nat));
        }
        r
    }

    /// Remove the oldest checkpoint; `false` when there is none.
    pub fn drop_oldest_checkpoint(&mut self) -> (r: bool)
        requires
            tree_wf(old(self)@),
        ensures
            tree_wf(final(self)@),
            r == (old(self)@.checkpoints.len() > 0),
            final(self)@ == if old(self)@.checkpoints.len() > 0 {
                TreeModel { checkpoints: old(self)@.checkpoints.drop_first(), ..old(self)@ }
            } else {
                old(self)@
            },
    {
        if self.checkpoints.len() == 0 {
            false
        } else {
            self.checkpoints.remove(0);
            proof {
                assert(ckpts_view(self.checkpoints@) =~= ckpts_view(
                    old(self).checkpoints@,
                ).drop_first());
                assert(final(self)@ =~= (TreeModel {
                    checkpoints: old(self)@.checkpoints.drop_first(),
                    ..old(self)@
                }));
            }
            true
        }
    }

    /// Append a leaf at the next free slot; refuse once 2^DEPTH leaves are
    /// present. A refused append leaves the tree unchanged.
    pub fn append(&mut self, value: &H) -> (r: bool)
        requires
            DEPTH <= 64,
            tree_wf(old(self)@),
        ensures
            tree_wf(final(self)@),
            ({
                let (rr, m) = tree_append::<H>(old(self)@, value@, DEPTH as nat);
                r == rr && final(self)@ == m
            }),
    {
        let blen = self.bridges.len();
        if blen == 0 {
            self.bridges.push(MerkleBridge::new(value.duplicate()));
            proof {
                assert(final(self)@ =~= tree_append::<H>(old(self)@, value@, DEPTH as nat).1);
            }
            true
        } else {
            if self.bridges[blen - 1].frontier.position.is_complete(Altitude(DEPTH)) {
                proof {
                    assert(final(self)@ =~= old(self)@);
                }
                false
            } else {
                let ghost pre = self.bridges@;
                let mut last = match self.bridges.pop() {
                    Some(b) => b,
                    None => {
                        proof {
                            assert(false);
                        }
                        MerkleBridge::new(value.duplicate())
                    }
                };
                proof {
                    if last.frontier.position.0 == u64::MAX {
                        assert(exists|i: nat|
                            i < DEPTH as nat && !bit_set(u64::MAX as nat, i));
                        let i0 = choose|i: nat|
                            i < DEPTH as nat && !bit_set(u64::MAX as nat, i);
                        crate::position::lemma_max_position_bits(i0 as u64);
                    }
                }
                last.append(value.duplicate());
                self.bridges.push(last);
                proof {
                    assert(self.bridges@ =~= pre.update(
                        pre.len() - 1,
                        self.bridges@[pre.len() - 1],
                    ));
                    assert(bridges_view(self.bridges@) =~= old(self)@.bridges.update(
                        old(self)@.bridges.len() - 1,
                        bridge_append::<H>(
                            old(self)@.bridges[old(self)@.bridges.len() - 1],
                            value@,
                        ),
                    ));
                    assert(final(self)@ =~= tree_append::<H>(old(self)@, value@, DEPTH as nat).1);
                }
                true
            }
        }
    }

    /// The current root of the Merkle tree, padded with empty branches up to
    /// DEPTH.
    pub fn root(&self) -> (r: H)
        requires
            DEPTH <= 64,
        ensures
            r@ == tree_root::<H>(self@, DEPTH as nat),
    {
        let blen = self.bridges.len();
        if blen == 0 {
            H::empty_root(Altitude(DEPTH))
        } else {
            let bridge = &self.bridges[blen - 1];
            let mut digest = bridge.root();
            let top = bridge.max_altitude();
            let mut lvl: u8 = top.0 + 1;
            let ghost d0 = digest@;
            let ghost l0 = lvl as nat;
            while lvl < DEPTH
                invariant
                    lvl <= 64,
                    DEPTH <= 64,
                    fold_blank_roots::<H>(d0, l0, DEPTH as nat) == fold_blank_roots::<H>(
                        digest@,
                        lvl as nat,
                        DEPTH as nat,
                    ),
                decreases DEPTH - lvl,
            {
                digest = H::combine(Altitude(lvl), &digest, &H::empty_root(Altitude(lvl)));
                lvl = lvl + 1;
            }
            digest
        }
    }

    /// Stop maintaining a witness for a leaf value; `false` when it was not
    /// witnessed.
    pub fn remove_witness(&mut self, value: &H) -> (r: bool)
        requires
            tree_wf(old(self)@),
        ensures
            tree_wf(final(self)@),
            ({
                let (rr, m) = tree_remove_witness(old(self)@, value@);
                r == rr && final(self)@ == m
            }),
    {
        match self.find_saved_index(value) {
            Some(j) => {
                proof {
                    lemma_remove_saved_at(saved_view(self.saved@), value@, j as int);
                }
                self.saved.remove(j);
                proof {
                    assert(saved_view(self.saved@) =~= saved_view(old(self).saved@).remove(
                        j as int,
                    ));
                    assert(final(self)@ =~= tree_remove_witness(old(self)@, value@).1);
                }
                true
            }
            None => {
                proof {
                    assert(remove_saved(saved_view(self.saved@), value@) =~= saved_view(
                        self.saved@,
                    )) by {
                        lemma_remove_saved_none(saved_view(self.saved@), value@);
                    }
                    assert(final(self)@ =~= tree_remove_witness(old(self)@, value@).1);
                }
                false
            }
        }
    }

    /// Mark the current tree state as a checkpoint, dropping the oldest one
    /// when the bound is exceeded.
    pub fn checkpoint(&mut self)
        requires
            tree_wf(old(self)@),
        ensures
            tree_wf(final(self)@),
            final(self)@ == tree_checkpoint(old(self)@),
    {
        let blen = self.bridges.len();
        if blen == 0 {
            self.checkpoints.push(Checkpoint::Empty);
        } else {
            let snapshot = self.bridges[blen - 1].duplicate();
            self.checkpoints.push(Checkpoint::AtIndex(blen - 1, snapshot));
        }
        let ghost mid = ckpts_view(self.checkpoints@);
        proof {
            assert(mid =~= old(self)@.checkpoints.push(
                if old(self)@.bridges.len() == 0 {
                    CheckpointModel::Empty
                } else {
                    CheckpointModel::AtIndex(
                        (old(self)@.bridges.len() - 1) as nat,
                        old(self)@.bridges[old(self)@.bridges.len() - 1],
                    )
                },
            ));
        }
        if self.checkpoints.len() > self.max_checkpoints {
            self.checkpoints.remove(0);
            proof {
                assert(ckpts_view(self.checkpoints@) =~= mid.drop_first());
            }
        }
        proof {
            assert(final(self)@ =~= tree_checkpoint(old(self)@));
        }
    }

    /// Snapshot the latest bridge into a detached recording.
    pub fn recording(&self) -> (r: BridgeRecording<H, DEPTH>)
        ensures
            r@ == recording_model(self@),
    {
        let blen = self.bridges.len();
        if blen == 0 {
            BridgeRecording { bridge: None }
        } else {
            BridgeRecording { bridge: Some(self.bridges[blen - 1].duplicate()) }
        }
    }

    /// Replay a detached recording into this tree; `false` (tree unchanged)
    /// when the recording does not fit the current state.
    pub fn play(&mut self, recording: &BridgeRecording<H, DEPTH>) -> (r: bool)
        requires
            tree_wf(old(self)@),
        ensures
            tree_wf(final(self)@),
            ({
                let (rr, m) = tree_play(old(self)@, recording@);
                r == rr && final(self)@ == m
            }),
    {
        let n = self.bridges.len();
        if n == 0 {
            match &recording.bridge {
                Some(b) => {
                    self.bridges.push(b.duplicate());
                    proof {
                        assert(final(self)@ =~= tree_play(old(self)@, recording@).1);
                    }
                    true
                }
                None => {
                    proof {
                        assert(final(self)@ =~= tree_play(old(self)@, recording@).1);
                    }
                    true
                }
            }
        } else {
            match &recording.bridge {
                Some(b) => {
                    if n == 1 {
                        self.replace_bridge_at(0, b.duplicate());
                        proof {
                            assert(final(self)@ =~= tree_play(old(self)@, recording@).1);
                        }
                        true
                    } else if b.can_follow(&self.bridges[n - 2]) {
                        self.replace_bridge_at(n - 1, b.duplicate());
                        proof {
                            assert(final(self)@ =~= tree_play(old(self)@, recording@).1);
                        }
                        true
                    } else {
                        false
                    }
                }
                None => false,
            }
        }
    }

    /// Overwrite the bridge at an index.
    fn replace_bridge_at(&mut self, i: usize, b: MerkleBridge<H>)
        requires
            i < old(self).bridges@.len(),
        ensures
            final(self).bridges@ == old(self).bridges@.update(i as int, b),
            final(self).saved == old(self).saved,
            final(self).checkpoints == old(self).checkpoints,
            final(self).max_checkpoints == old(self).max_checkpoints,
            bridges_view(final(self).bridges@) == bridges_view(old(self).bridges@).update(
                i as int,
                b@,
            ),
    {
        let ghost pre = self.bridges@;
        self.bridges.remove(i);
        self.bridges.insert(i, b);
        proof {
            assert(self.bridges@ =~= pre.update(i as int, self.bridges@[i as int]));
            assert(bridges_view(self.bridges@) =~= bridges_view(pre).update(
                i as int,
                self.bridges@[i as int]@,
            ));
        }
    }

    /// Mark the current leaf as one to witness: record its anchor bridge and
    /// fork a successor bridge, collapsing onto the previous bridge when the
    /// two frontiers are equal. `false` on an empty tree.
    pub fn witness(&mut self) -> (r: bool)
        requires
            tree_wf(old(self)@),
        ensures
            tree_wf(final(self)@),
            ({
                let (rr, m) = tree_witness(old(self)@);
                r == rr && final(self)@ == m
            }),
    {
        let blen = self.bridges.len();
        if blen == 0 {
            return false;
        }
        let is_dup = blen > 1 && self.bridges[blen - 1].frontier.eq_frontier(
            &self.bridges[blen - 2].frontier,
        );
        let leaf = self.bridges[blen - 1].leaf_value();
        let save_idx = blen - 1;
        let inserted: bool;
        match self.find_saved_index(&leaf) {
            Some(_) => {
                inserted = false;
            }
            None => {
                proof {
                    lemma_find_saved_none(saved_view(self.saved@), leaf@);
                }
                self.saved.push((leaf, if is_dup {
                    save_idx - 1
                } else {
                    save_idx
                }));
                inserted = true;
            }
        }
        if !is_dup {
            let succ = self.bridges[save_idx].successor(save_idx);
            self.bridges.push(succ);
        }
        proof {
            let (rr, m) = tree_witness(old(self)@);
            if inserted {
                assert(saved_view(self.saved@) =~= m.saved);
            }
            assert(bridges_view(self.bridges@) =~= m.bridges);
            assert(final(self)@ =~= m);
        }
        true
    }

    /// Rewind to the previous checkpoint; `false` (checkpoint retained, tree
    /// unchanged) when there is none or when witness data added after the
    /// checkpoint would be destroyed.
    pub fn rewind(&mut self) -> (r: bool)
        requires
            tree_wf(old(self)@),
        ensures
            tree_wf(final(self)@),
            ({
                let (rr, m) = tree_rewind(old(self)@);
                r == rr && final(self)@ == m
            }),
    {
        let c = match self.checkpoints.pop() {
            Some(c) => c,
            None => {
                return false;
            }
        };
        proof {
            assert(ckpts_view(self.checkpoints@) =~= old(self)@.checkpoints.drop_last());
            assert(c@ == old(self)@.checkpoints.last());
        }
        match c {
            Checkpoint::Empty => {
                if self.saved.len() == 0 {
                    self.bridges.clear();
                    proof {
                        assert(final(self)@ =~= tree_rewind(old(self)@).1);
                    }
                    true
                } else {
                    self.checkpoints.push(Checkpoint::Empty);
                    proof {
                        assert(ckpts_view(self.checkpoints@) =~= old(self)@.checkpoints);
                        assert(final(self)@ =~= old(self)@);
                    }
                    false
                }
            }
            Checkpoint::AtIndex(i, bridge) => {
                let above = self.any_saved_above(i);
                let at = self.any_saved_at(i);
                proof {
                    assert(i < self.bridges@.len());
                }
                let drifted = at && !bridge.frontier.eq_frontier(&self.bridges[i].frontier);
                if above || drifted {
                    self.checkpoints.push(Checkpoint::AtIndex(i, bridge));
                    proof {
                        assert(ckpts_view(self.checkpoints@) =~= old(self)@.checkpoints);
                        assert(final(self)@ =~= old(self)@);
                    }
                    false
                } else {
                    let ghost bmodel = bridge@;
                    let ghost iv = i as nat;
                    let cur_len = self.bridges.len();
                    proof {
                        assert(i < cur_len);
                    }
                    self.bridges.truncate(i + 1);
                    proof {
                        assert(bridges_view(self.bridges@) =~= old(self)@.bridges.take(
                            iv as int + 1,
                        ));
                    }
                    self.retain_saved_up_to(i);
                    let leaf = bridge.leaf_value();
                    let rewitness = match self.find_saved_index(&leaf) {
                        Some(_) => true,
                        None => false,
                    };
                    if rewitness {
                        let is_dup = i > 0 && bridge.frontier.eq_frontier(
                            &self.bridges[i - 1].frontier,
                        );
                        if !is_dup {
                            let succ = bridge.successor(i);
                            self.replace_bridge_at(i, bridge);
                            self.bridges.push(succ);
                        } else {
                            self.replace_bridge_at(i, bridge);
                        }
                    } else {
                        self.replace_bridge_at(i, bridge);
                    }
                    proof {
                        let (rr, m) = tree_rewind(old(self)@);
                        assert(bridges_view(self.bridges@) =~= m.bridges);
                        assert(final(self)@ =~= m);
                        assert(tree_wf(final(self)@)) by {
                            lemma_retain_saved_le(saved_view(old(self).saved@), iv);
                        }
                    }
                    true
                }
            }
        }
    }

    /// The authentication path to a witnessed value: its anchor position and
    /// the DEPTH sibling digests from the leaf up to the root. An anchor
    /// that no bridge follows draws on its own frontier alone, with empty
    /// roots filling every missing altitude. `None` when the value is not
    /// witnessed.
    pub fn authentication_path(&self, value: &H) -> (r: Option<(u64, Vec<H>)>)
        requires
            DEPTH <= 64,
            tree_wf(self@),
        ensures
            ({
                let sp = tree_authentication_path::<H>(self@, value@, DEPTH as nat);
                match r {
                    Some(p) => sp == Some((p.0 as nat, hash_views(p.1@))),
                    None => sp is None,
                }
            }),
    {
        let blen = self.bridges.len();
        let idx = match self.find_saved_index(value) {
            Some(j) => {
                proof {
                    assert(saved_view(self.saved@)[j as int] == (self.saved@[j as int].0@,
                        self.saved@[j as int].1 as nat));
                }
                self.saved[j].1
            }
            None => {
                return None;
            }
        };
        proof {
            assert(idx < blen);
        }
        let anchor = &self.bridges[idx];
        if idx + 1 == blen {
            let no_values: Vec<H> = Vec::new();
            let path = Self::build_path(&anchor.frontier, &no_values);
            proof {
                assert(hash_views(no_values@) =~= Seq::<H::V>::empty());
            }
            return Some((anchor.frontier.position.0, path));
        }
        let tail = slice_subrange(self.bridges.as_slice(), idx + 1, blen);
        proof {
            assert(bridges_view(tail@) =~= self@.bridges.subrange(idx as int + 1, blen as int));
        }
        let fused = match MerkleBridge::fuse_all(tail) {
            Some(f) => f,
            None => {
                return None;
            }
        };
        let mut avals: Vec<H> = Vec::new();
        match MerkleBridge::find_fragment(&fused.auth_fragments, idx) {
            Some(f) => {
                avals = duplicate_values(&f.values);
                match f.next_required_altitude() {
                    Some(lvl) => {
                        proof {
                            crate::position::lemma_alt_range_membership(
                                f@.anchor,
                                0,
                                64,
                                crate::position::required_keep(),
                            );
                            assert(lvl.0 <= 64);
                        }
                        match fused.frontier.witness_incomplete(lvl) {
                            Some(d) => {
                                avals.push(d);
                            }
                            None => {}
                        }
                    }
                    None => {}
                }
            }
            None => {}
        }
        proof {
            assert(hash_views(avals@) =~= auth_values_of::<H>(fused@, idx as nat));
        }
        let path = Self::build_path(&anchor.frontier, &avals);
        Some((anchor.frontier.position.0, path))
    }

    /// Build the path for an anchor frontier from staged values: its
    /// altitude-0 sibling, its ommers interleaved with staged values, then
    /// empty-root padding up to DEPTH.
    fn build_path(anchor: &NonEmptyFrontier<H>, avals: &Vec<H>) -> (r: Vec<H>)
        requires
            DEPTH <= 64,
        ensures
            hash_views(r@) == auth_path_from::<H>(anchor@, hash_views(avals@), DEPTH as nat),
    {
        let ghost anchor_m = anchor@;
        let ghost avals_v = hash_views(avals@);
        let mut result: Vec<H> = Vec::new();
        let mut used: usize = 0;
        match &anchor.leaf {
            Leaf::Left(_) => {
                if avals.len() > 0 {
                    let v0 = avals[0].duplicate();
                    result.push(v0);
                    used = 1;
                } else {
                    result.push(H::empty_leaf());
                }
            }
            Leaf::Right(a, _) => {
                result.push(a.duplicate());
            }
        }
        let ghost first = (hash_views(result@), used as nat);
        proof {
            match anchor_m.leaf {
                Leaf::Left(_) => {
                    if avals_v.len() > 0 {
                        assert(first.0 =~= seq![avals_v[0]]);
                    } else {
                        assert(first.0 =~= seq![H::blank_leaf()]);
                    }
                }
                Leaf::Right(a, _) => {
                    assert(first.0 =~= seq![a]);
                }
            }
        }
        let alts = anchor.position.ommer_altitudes();
        let ghost alts_v = ommer_altitudes_of(anchor_m.position);
        let ghost om_v = anchor_m.ommers;
        proof {
            vstd::arithmetic::power2::lemma2_to64();
            crate::position::lemma_max_altitude_bounds(anchor_m.position);
            crate::position::lemma_alt_range_membership(
                anchor_m.position,
                0,
                crate::position::max_altitude_of(anchor_m.position) + 1,
                crate::position::ommer_keep(),
            );
            assert forall|k: int| 0 <= k < alts@.len() implies (#[trigger] alts@[k]).0 <= 63 by {
                assert(alts_seq(alts@)[k] == alts@[k].0 as nat);
                assert(alts_v[k] < crate::position::max_altitude_of(anchor_m.position) + 1);
            }
            assert(om_v.skip(0) =~= om_v);
            assert(alts_v.skip(0) =~= alts_v);
        }
        let n: usize = if anchor.ommers.len() <= alts.len() {
            anchor.ommers.len()
        } else {
            alts.len()
        };
        let mut i: usize = 0;
        while i < n
            invariant
                i <= n,
                n as int == min(om_v.len() as int, alts@.len() as int),
                om_v == hash_views(anchor.ommers@),
                anchor_m == anchor@,
                alts_seq(alts@) == alts_v,
                avals_v == hash_views(avals@),
                used <= avals@.len(),
                forall|k: int| 0 <= k < alts@.len() ==> (#[trigger] alts@[k]).0 <= 63,
                ommer_fill::<H>(first.0, first.1, avals_v, om_v, alts_v) == ommer_fill::<H>(
                    hash_views(result@),
                    used as nat,
                    avals_v,
                    om_v.skip(i as int),
                    alts_v.skip(i as int),
                ),
            decreases n - i,
        {
            proof {
                assert(om_v.skip(i as int).len() > 0);
                assert(alts_v.skip(i as int).len() > 0);
                assert(om_v.skip(i as int)[0] == om_v[i as int]);
                assert(alts_v.skip(i as int)[0] == alts_v[i as int]);
                assert(alts_v[i as int] == alts@[i as int].0 as nat);
                assert(om_v.skip(i as int).drop_first() =~= om_v.skip(i as int + 1));
                assert(alts_v.skip(i as int).drop_first() =~= alts_v.skip(i as int + 1));
                assert(om_v[i as int] == anchor.ommers@[i as int]@);
            }
            let ghost pre_r = hash_views(result@);
            let ghost pre_u = used as nat;
            Self::pad_path(&mut result, &avals, &mut used, alts[i].0);
            let ghost pad_r = hash_views(result@);
            let ghost pad_u = used as nat;
            result.push(anchor.ommers[i].duplicate());
            proof {
                let step = padded_fill::<H>(pre_r, avals_v, pre_u, alts_v[i as int]);
                assert(pad_r == step.0 && pad_u == step.1);
                assert(hash_views(result@) =~= pad_r.push(om_v[i as int]));
                assert(ommer_fill::<H>(pre_r, pre_u, avals_v, om_v.skip(i as int), alts_v.skip(i as int))
                    == ommer_fill::<H>(
                    hash_views(result@),
                    used as nat,
                    avals_v,
                    om_v.skip(i as int + 1),
                    alts_v.skip(i as int + 1),
                ));
            }
            i = i + 1;
        }
        proof {
            assert(om_v.skip(i as int).len() == 0 || alts_v.skip(i as int).len() == 0);
        }
        Self::pad_path(&mut result, &avals, &mut used, DEPTH);
        proof {
            assert(hash_views(result@) == auth_path_from::<H>(anchor_m, avals_v, DEPTH as nat));
        }
        result
    }

    /// Fill the path with staged values up to a target altitude, falling
    /// back to empty roots once they run out.
    fn pad_path(result: &mut Vec<H>, avals: &Vec<H>, used: &mut usize, target: u8)
        requires
            target <= 64,
            *old(used) <= avals@.len(),
        ensures
            ({
                let filled = padded_fill::<H>(
                    hash_views(old(result)@),
                    hash_views(avals@),
                    (*old(used)) as nat,
                    target as nat,
                );
                hash_views(final(result)@) == filled.0 && (*final(used)) as nat == filled.1
                    && *final(used) <= avals@.len()
            }),
    {
        let ghost r0 = hash_views(result@);
        let ghost u0 = (*used) as nat;
        let ghost av = hash_views(avals@);
        while result.len() < target as usize
            invariant
                target <= 64,
                *used <= avals@.len(),
                av == hash_views(avals@),
                padded_fill::<H>(r0, av, u0, target as nat) == padded_fill::<H>(
                    hash_views(result@),
                    av,
                    (*used) as nat,
                    target as nat,
                ),
            decreases target - result@.len(),
        {
            let ghost pre = hash_views(result@);
            if *used < avals.len() {
                let v = avals[*used].duplicate();
                result.push(v);
                *used = *used + 1;
                proof {
                    assert(hash_views(result@) =~= pre.push(av[(*used - 1) as int]));
                }
            } else {
                let l = result.len() as u8;
                result.push(H::empty_root(Altitude(l)));
                proof {
                    assert(hash_views(result@) =~= pre.push(H::blank_root(pre.len())));
                }
            }
        }
    }

    /// Whether some witness is anchored strictly after bridge `i`.
    fn any_saved_above(&self, i: usize) -> (r: bool)
        ensures
            r == exists|k: int| 0 <= k < saved_view(self.saved@).len() && (#[trigger] saved_view(
                self.saved@,
            )[k]).1 > i as nat,
    {
        let mut j: usize = 0;
        while j < self.saved.len()
            invariant
                j <= self.saved.len(),
                forall|k: int| 0 <= k < j ==> (#[trigger] saved_view(self.saved@)[k]).1
                    <= i as nat,
            decreases self.saved.len() - j,
        {
            proof {
                assert(saved_view(self.saved@)[j as int] == (self.saved@[j as int].0@,
                    self.saved@[j as int].1 as nat));
            }
            if self.saved[j].1 > i {
                return true;
            }
            j = j + 1;
        }
        false
    }

    /// Whether some witness is anchored exactly at bridge `i`.
    fn any_saved_at(&self, i: usize) -> (r: bool)
        ensures
            r == exists|k: int| 0 <= k < saved_view(self.saved@).len() && (#[trigger] saved_view(
                self.saved@,
            )[k]).1 == i as nat,
    {
        let mut j: usize = 0;
        while j < self.saved.len()
            invariant
                j <= self.saved.len(),
                forall|k: int| 0 <= k < j ==> (#[trigger] saved_view(self.saved@)[k]).1
                    != i as nat,
            decreases self.saved.len() - j,
        {
            proof {
                assert(saved_view(self.saved@)[j as int] == (self.saved@[j as int].0@,
                    self.saved@[j as int].1 as nat));
            }
            if self.saved[j].1 == i {
                return true;
            }
            j = j + 1;
        }
        false
    }

    /// Keep only witnesses anchored at or below bridge `i`.
    fn retain_saved_up_to(&mut self, i: usize)
        ensures
            saved_view(final(self).saved@) == retain_saved_le(
                saved_view(old(self).saved@),
                i as nat,
            ),
            final(self).bridges == old(self).bridges,
            final(self).checkpoints == old(self).checkpoints,
            final(self).max_checkpoints == old(self).max_checkpoints,
    {
        let ghost full = saved_view(self.saved@);
        let mut kept: Vec<(H, usize)> = Vec::new();
        let mut j: usize = 0;
        proof {
            assert(full.skip(0) =~= full);
            assert(saved_view(kept@) =~= Seq::<(H::V, nat)>::empty());
        }
        while j < self.saved.len()
            invariant
                j <= self.saved.len(),
                full == saved_view(self.saved@),
                retain_saved_le(full, i as nat) == saved_view(kept@) + retain_saved_le(
                    full.skip(j as int),
                    i as nat,
                ),
            decreases self.saved.len() - j,
        {
            proof {
                assert(full.skip(j as int)[0] == full[j as int]);
                assert(full.skip(j as int).drop_first() =~= full.skip(j as int + 1));
                assert(full[j as int] == (self.saved@[j as int].0@,
                    self.saved@[j as int].1 as nat));
            }
            let ghost kept_pre = saved_view(kept@);
            if self.saved[j].1 <= i {
                let entry = (self.saved[j].0.duplicate(), self.saved[j].1);
                kept.push(entry);
                proof {
                    assert(saved_view(kept@) =~= kept_pre + seq![full[j as int]]);
                    assert(retain_saved_le(full, i as nat) =~= saved_view(kept@)
                        + retain_saved_le(full.skip(j as int + 1), i as nat));
                }
            }
            j = j + 1;
        }
        proof {
            assert(full.skip(j as int) =~= Seq::<(H::V, nat)>::empty());
            assert(retain_saved_le(full, i as nat) =~= saved_view(kept@));
        }
        self.saved = kept;
    }

    /// The position of a witnessed value in the saved list, if any.
    fn find_saved_index(&self, value: &H) -> (r: Option<usize>)
        ensures
            match r {
                Some(j) => {
                    &&& j < self.saved@.len()
                    &&& self.saved@[j as int].0@ == value@
                    &&& forall|k: int| 0 <= k < j ==> (#[trigger] self.saved@[k]).0@ != value@
                    &&& find_saved(saved_view(self.saved@), value@) == Some(
                        self.saved@[j as int].1 as nat,
                    )
                },
                None => find_saved(saved_view(self.saved@), value@) is None,
            },
    {
        let ghost full = saved_view(self.saved@);
        let mut i: usize = 0;
        proof {
            assert(full.skip(0) =~= full);
        }
        while i < self.saved.len()
            invariant
                i <= self.saved.len(),
                full == saved_view(self.saved@),
                find_saved(full, value@) == find_saved(full.skip(i as int), value@),
                forall|k: int| 0 <= k < i ==> (#[trigger] self.saved@[k]).0@ != value@,
            decreases self.saved.len() - i,
        {
            proof {
                assert(full.skip(i as int)[0] == full[i as int]);
                assert(full.skip(i as int).drop_first() =~= full.skip(i as int + 1));
                assert(full[i as int] == (self.saved@[i as int].0@, self.saved@[i as int].1 as nat));
            }
            if self.saved[i].0.eq_value(value) {
                return Some(i);
            }
            i = i + 1;
        }
        proof {
            assert(full.skip(i as int) =~= Seq::<(H::V, nat)>::empty());
        }
        None
    }
}

/// What survives a retain: entries at or below the bound, drawn from the
/// input list, with key uniqueness preserved.
pub proof fn lemma_retain_saved_le<V>(s: Seq<(V, nat)>, i: nat)
    ensures
        forall|k: int| 0 <= k < retain_saved_le(s, i).len() ==> (#[trigger] retain_saved_le(
            s,
            i,
        )[k]).1 <= i && s.contains(retain_saved_le(s, i)[k]),
        (forall|k1: int, k2: int|
            #![trigger s[k1], s[k2]]
            0 <= k1 < k2 < s.len() ==> s[k1].0 != s[k2].0) ==> (forall|k1: int, k2: int|
            #![trigger retain_saved_le(s, i)[k1], retain_saved_le(s, i)[k2]]
            0 <= k1 < k2 < retain_saved_le(s, i).len() ==> retain_saved_le(s, i)[k1].0
                != retain_saved_le(s, i)[k2].0),
    decreases s.len(),
{
    if s.len() > 0 {
        let rest = s.drop_first();
        lemma_retain_saved_le(rest, i);
        assert(forall|k: int| 0 <= k < rest.len() ==> (#[trigger] rest[k]) == s[k + 1]);
        assert forall|k: int| 0 <= k < rest.len() && rest.contains(#[trigger] rest[k]) implies s.contains(
            rest[k],
        ) by {
            assert(s[k + 1] == rest[k]);
        }
        let r = retain_saved_le(s, i);
        let rr = retain_saved_le(rest, i);
        if s[0].1 <= i {
            assert(r == seq![s[0]] + rr);
            assert forall|k: int| 0 <= k < r.len() implies (#[trigger] r[k]).1 <= i
                && s.contains(r[k]) by {
                if k == 0 {
                    assert(r[0] == s[0]);
                    assert(s[0] == s[0 as int]);
                } else {
                    assert(r[k] == rr[k - 1]);
                    assert(s.contains(rr[k - 1]));
                }
            }
            if forall|k1: int, k2: int|
                #![trigger s[k1], s[k2]]
                0 <= k1 < k2 < s.len() ==> s[k1].0 != s[k2].0 {
                assert(forall|k1: int, k2: int|
                    #![trigger rest[k1], rest[k2]]
                    0 <= k1 < k2 < rest.len() ==> rest[k1].0 != rest[k2].0) by {
                    assert forall|k1: int, k2: int|
                        0 <= k1 < k2 < rest.len() implies (#[trigger] rest[k1]).0
                        != (#[trigger] rest[k2]).0 by {
                        assert(rest[k1] == s[k1 + 1]);
                        assert(rest[k2] == s[k2 + 1]);
                    }
                }
                assert forall|k1: int, k2: int|
                    0 <= k1 < k2 < r.len() implies (#[trigger] r[k1]).0 != (#[trigger] r[k2]).0 by {
                    if k1 == 0 {
                        assert(r[0] == s[0]);
                        assert(r[k2] == rr[k2 - 1]);
                        assert(rest.contains(rr[k2 - 1]));
                        let w = choose|w: int| 0 <= w < rest.len() && rest[w] == rr[k2 - 1];
                        assert(s[w + 1] == rest[w]);
                        assert(s[0].0 != s[w + 1].0);
                    } else {
                        assert(r[k1] == rr[k1 - 1]);
                        assert(r[k2] == rr[k2 - 1]);
                    }
                }
            }
        } else {
            assert(r == rr);
        }
    }
}

/// Removing a key that is not present changes nothing.
pub proof fn lemma_remove_saved_none<V>(s: Seq<(V, nat)>, h: V)
    requires
        find_saved(s, h) is None,
    ensures
        remove_saved(s, h) == s,
    decreases s.len(),
{
    if s.len() > 0 {
        lemma_remove_saved_none(s.drop_first(), h);
        assert(remove_saved(s, h) =~= s);
    }
}

impl<H: Hashable, const DEPTH: u8> BridgeRecording<H, DEPTH> {
    /// A deep copy holding the same staged state.
    pub fn duplicate(&self) -> (r: Self)
        ensures
            r@ == self@,
    {
        match &self.bridge {
            Some(b) => BridgeRecording { bridge: Some(b.duplicate()) },
            None => BridgeRecording { bridge: None },
        }
    }

    /// Append a leaf to the recording, starting its bridge if needed; refuse
    /// once 2^DEPTH leaves are present.
    pub fn append(&mut self, value: &H) -> (r: bool)
        requires
            DEPTH <= 64,
        ensures
            match old(self)@ {
                None => r == true && final(self)@ == Some(bridge_model_new::<H::V>(value@)),
                Some(b) => if complete_to(b.frontier.position, DEPTH as nat) {
                    r == false && final(self)@ == old(self)@
                } else {
                    r == true && final(self)@ == Some(bridge_append::<H>(b, value@))
                },
            },
    {
        match &mut self.bridge {
            Some(b) => {
                if b.frontier.position.is_complete(Altitude(DEPTH)) {
                    false
                } else {
                    proof {
                        if b.frontier.position.0 == u64::MAX {
                            assert(exists|i: nat|
                                i < DEPTH as nat && !bit_set(u64::MAX as nat, i));
                            let i0 = choose|i: nat|
                                i < DEPTH as nat && !bit_set(u64::MAX as nat, i);
                            crate::position::lemma_max_position_bits(i0 as u64);
                        }
                    }
                    b.append(value.duplicate());
                    true
                }
            }
            None => {
                self.bridge = Some(MerkleBridge::new(value.duplicate()));
                true
            }
        }
    }

    /// Replay another recording on top of this one: fuse the bridges when
    /// both exist, else copy the other's state; `false` when the fuse fails.
    pub fn play(&mut self, recording: &Self) -> (r: bool)
        ensures
            match (old(self)@, recording@) {
                (Some(a), Some(b)) => match bridge_fuse(a, b) {
                    Some(f) => r == true && final(self)@ == Some(f),
                    None => r == false && final(self)@ == old(self)@,
                },
                _ => r == true && final(self)@ == recording@,
            },
    {
        let both = match (&self.bridge, &recording.bridge) {
            (Some(_), Some(_)) => true,
            _ => false,
        };
        if both {
            let fused = match (&self.bridge, &recording.bridge) {
                (Some(current), Some(next)) => current.fuse(next),
                _ => None,
            };
            match fused {
                Some(f) => {
                    self.bridge = Some(f);
                    true
                }
                None => false,
            }
        } else {
            match &recording.bridge {
                Some(b) => {
                    self.bridge = Some(b.duplicate());
                }
                None => {
                    self.bridge = None;
                }
            }
            true
        }
    }
}

} // verus!
