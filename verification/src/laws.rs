//! The laws the tree obeys, stated over the models that the executable
//! contracts speak of, and proved from the definitions alone.

use vstd::prelude::*;
use vstd::arithmetic::power2::{pow2, lemma_pow2_strictly_increases, lemma2_to64};
use crate::position::{
    bit_set, max_altitude_of, alt_range, ommer_keep, required_keep, set_bit_keep,
    ommer_altitudes_of, altitudes_required_of, all_altitudes_required_of, popcount64,
    lemma_alt_range_snoc, lemma_alt_range_membership, lemma_bit_high_zero, lemma_bit_low_bound,
    lemma_max_altitude_bounds,
};
use crate::hashing::Hashable;
use crate::frontier::{frontier_model_append, leaf_value_of};
use crate::bridge::{
    BridgeModel, bridge_model_new, bridge_append, bridge_successor, bridge_fuse, bridge_fuse_all,
    bridge_can_follow,
};
use crate::tree::{
    TreeModel, tree_wf, tree_witness, tree_append, tree_rewind, tree_checkpoint, tree_root,
    find_saved, retain_saved_le, CheckpointModel, lemma_find_saved_none,
};

verus! {

/// Two scans agree when their filters do over the scanned range.
proof fn lemma_alt_range_congruent2(
    p1: nat,
    p2: nat,
    lo: nat,
    end: nat,
    k1: spec_fn(nat, nat) -> bool,
    k2: spec_fn(nat, nat) -> bool,
)
    requires
        forall|i: nat| lo <= i < end ==> #[trigger] k1(p1, i) == k2(p2, i),
    ensures
        alt_range(p1, lo, end, k1) == alt_range(p2, lo, end, k2),
    decreases end - lo,
{
    if lo < end {
        lemma_alt_range_congruent2(p1, p2, lo + 1, end, k1, k2);
        if k1(p1, lo) {
            assert(alt_range(p1, lo, end, k1) =~= alt_range(p2, lo, end, k2));
        } else {
            assert(alt_range(p1, lo, end, k1) =~= alt_range(p2, lo, end, k2));
        }
    }
}

/// Two scans over the same range agree when their filters do.
proof fn lemma_alt_range_congruent(
    p: nat,
    lo: nat,
    end: nat,
    k1: spec_fn(nat, nat) -> bool,
    k2: spec_fn(nat, nat) -> bool,
)
    requires
        forall|i: nat| lo <= i < end ==> #[trigger] k1(p, i) == k2(p, i),
    ensures
        alt_range(p, lo, end, k1) == alt_range(p, lo, end, k2),
    decreases end - lo,
{
    if lo < end {
        lemma_alt_range_congruent(p, lo + 1, end, k1, k2);
    }
}

/// A scan whose filter accepts the whole range lists it in order.
proof fn lemma_alt_range_all_kept(p: nat, lo: nat, end: nat, keep: spec_fn(nat, nat) -> bool)
    requires
        lo <= end,
        forall|i: nat| lo <= i < end ==> #[trigger] keep(p, i),
    ensures
        alt_range(p, lo, end, keep).len() == end - lo,
        forall|k: int| 0 <= k < end - lo ==> alt_range(p, lo, end, keep)[k] == lo + k,
    decreases end - lo,
{
    if lo < end {
        lemma_alt_range_all_kept(p, lo + 1, end, keep);
        assert(alt_range(p, lo, end, keep) == seq![lo] + alt_range(p, lo + 1, end, keep));
    }
}

/// A scan over a widened range splits at the seam.
proof fn lemma_alt_range_split(p: nat, lo: nat, mid: nat, end: nat, keep: spec_fn(nat, nat) -> bool)
    requires
        lo <= mid <= end,
    ensures
        alt_range(p, lo, end, keep) == alt_range(p, lo, mid, keep) + alt_range(p, mid, end, keep),
    decreases mid - lo,
{
    if lo == mid {
        assert(alt_range(p, lo, mid, keep) == Seq::<nat>::empty());
        assert(alt_range(p, lo, end, keep) =~= alt_range(p, lo, mid, keep) + alt_range(
            p,
            mid,
            end,
            keep,
        ));
    } else {
        lemma_alt_range_split(p, lo + 1, mid, end, keep);
        if keep(p, lo) {
            assert(alt_range(p, lo, end, keep) =~= alt_range(p, lo, mid, keep) + alt_range(
                p,
                mid,
                end,
                keep,
            ));
        } else {
            assert(alt_range(p, lo, end, keep) =~= alt_range(p, lo, mid, keep) + alt_range(
                p,
                mid,
                end,
                keep,
            ));
        }
    }
}

/// Widening the scanned range past the position's highest set bit adds
/// nothing.
proof fn lemma_alt_range_clear_extension(
    p: nat,
    lo: nat,
    e1: nat,
    e2: nat,
    keep: spec_fn(nat, nat) -> bool,
)
    requires
        lo <= e1 <= e2,
        forall|i: nat| e1 <= i < e2 ==> !(#[trigger] keep(p, i)),
    ensures
        alt_range(p, lo, e2, keep) == alt_range(p, lo, e1, keep),
    decreases e2 - e1,
{
    if e1 < e2 {
        lemma_alt_range_clear_extension(p, lo, e1, (e2 - 1) as nat, keep);
        lemma_alt_range_snoc(p, lo, (e2 - 1) as nat, keep);
    }
}

/// The populated ommer altitudes of a position are exactly its set bits
/// above bit 0, and their number is the position's popcount less its low
/// bit.
pub proof fn lemma_ommer_altitudes_popcount(p: nat)
    requires
        p < pow2(64),
    ensures
        ommer_altitudes_of(p).len() + (if bit_set(p, 0) {
            1nat
        } else {
            0nat
        }) == popcount64(p),
        forall|i: nat| #[trigger] ommer_altitudes_of(p).contains(i) <==> (1 <= i && bit_set(p, i)),
{
    let top = max_altitude_of(p) + 1;
    lemma_max_altitude_bounds(p);
    lemma2_to64();
    assert forall|i: nat| top <= i < 64 implies !bit_set(p, i) by {
        if i > max_altitude_of(p) {
            assert(p < pow2(i)) by {
                if top < i {
                    lemma_pow2_strictly_increases(top, i);
                }
            }
            lemma_bit_high_zero(p, i);
        }
    }
    // The ommer scan reaches every set bit: none lies at or above `top`.
    lemma_alt_range_clear_extension(p, 0, top, 64, ommer_keep());
    lemma_alt_range_clear_extension(p, 0, top, 64, set_bit_keep());
    // Above bit 0 the two filters agree.
    lemma_alt_range_congruent(p, 1, 64, ommer_keep(), set_bit_keep());
    assert(alt_range(p, 0, 64, ommer_keep()) == (if ommer_keep()(p, 0) {
        seq![0nat]
    } else {
        Seq::<nat>::empty()
    }) + alt_range(p, 1, 64, ommer_keep()));
    assert(alt_range(p, 0, 64, set_bit_keep()) == (if set_bit_keep()(p, 0) {
        seq![0nat]
    } else {
        Seq::<nat>::empty()
    }) + alt_range(p, 1, 64, set_bit_keep()));
    assert(ommer_altitudes_of(p) =~= alt_range(p, 1, 64, set_bit_keep()));
    // Membership: scanned range plus filter, in both directions.
    lemma_alt_range_membership(p, 0, top, ommer_keep());
    assert forall|i: nat| #[trigger] ommer_altitudes_of(p).contains(i) implies (1 <= i && bit_set(
        p,
        i,
    )) by {
        let k = choose|k: int|
            0 <= k < ommer_altitudes_of(p).len() && ommer_altitudes_of(p)[k] == i;
        assert(ommer_keep()(p, ommer_altitudes_of(p)[k]));
    }
    assert forall|i: nat| 1 <= i && bit_set(p, i) implies ommer_altitudes_of(p).contains(i) by {
        lemma_bit_low_bound(p, i);
        assert(i < top) by {
            if i > top {
                lemma_pow2_strictly_increases(top, i);
            }
        }
        assert(ommer_keep()(p, i));
    }
}

/// The missing sibling altitudes up to the frontier top are a prefix of the
/// full list, which only extends the same scan out to altitude 64.
pub proof fn lemma_required_altitudes_prefix(p: nat)
    requires
        p < pow2(63),
    ensures
        all_altitudes_required_of(p) == altitudes_required_of(p) + alt_range(
            p,
            max_altitude_of(p) + 2,
            64,
            required_keep(),
        ),
        altitudes_required_of(p) == all_altitudes_required_of(p).take(
            altitudes_required_of(p).len() as int,
        ),
{
    let mid = max_altitude_of(p) + 2;
    lemma_max_altitude_bounds(p);
    assert(mid <= 64) by {
        if max_altitude_of(p) >= 63 {
            lemma_pow2_strictly_increases(63, max_altitude_of(p));
        }
    }
    lemma_alt_range_split(p, 0, mid, 64, required_keep());
    assert(altitudes_required_of(p) =~= all_altitudes_required_of(p).take(
        altitudes_required_of(p).len() as int,
    ));
}

/// A bridge grown by appends alone: each append advances the frontier
/// position by one, so the frontier holds one leaf more than the number of
/// appends (its size is k+1 after k appends to a fresh bridge).
pub open spec fn bridge_after_appends<H: Hashable>(b: BridgeModel<H::V>, vs: Seq<H::V>) -> BridgeModel<H::V>
    decreases vs.len(),
{
    if vs.len() == 0 {
        b
    } else {
        bridge_after_appends::<H>(bridge_append::<H>(b, vs[0]), vs.drop_first())
    }
}

/// After k appends to a fresh bridge the frontier sits at position k: its
/// size is k + 1.
pub proof fn lemma_bridge_size_after_appends<H: Hashable>(v0: H::V, vs: Seq<H::V>)
    ensures
        bridge_after_appends::<H>(bridge_model_new(v0), vs).frontier.position == vs.len(),
{
    lemma_bridge_appends_position::<H>(bridge_model_new(v0), vs);
}

/// Appends advance a bridge's frontier position one by one.
proof fn lemma_bridge_appends_position<H: Hashable>(b: BridgeModel<H::V>, vs: Seq<H::V>)
    ensures
        bridge_after_appends::<H>(b, vs).frontier.position == b.frontier.position + vs.len(),
    decreases vs.len(),
{
    if vs.len() > 0 {
        let b1 = bridge_append::<H>(b, vs[0]);
        assert(b1.frontier.position == b.frontier.position + 1) by {
            assert(frontier_model_append::<H>(b.frontier, vs[0]).position == b.frontier.position
                + 1);
        }
        lemma_bridge_appends_position::<H>(b1, vs.drop_first());
    }
}

/// A fused chain keeps the first bridge's prior position and ends at the
/// last bridge's frontier.
pub proof fn lemma_fuse_all_frontier<V>(s: Seq<BridgeModel<V>>)
    requires
        s.len() >= 1,
        bridge_fuse_all(s) is Some,
    ensures
        (bridge_fuse_all(s) matches Some(f) && f.frontier == s.last().frontier && f.prior == s[0].prior),
    decreases s.len(),
{
    if s.len() > 1 {
        lemma_fuse_all_frontier(s.drop_last());
    }
}

/// The left fold grows one fuse at a time: extending the chain by one bridge
/// fuses the folded prefix with it.
pub proof fn lemma_fuse_all_step<V>(s: Seq<BridgeModel<V>>, b: BridgeModel<V>)
    requires
        s.len() >= 1,
    ensures
        bridge_fuse_all(s.push(b)) == match bridge_fuse_all(s) {
            Some(acc) => bridge_fuse(acc, b),
            None => None,
        },
{
    assert(s.push(b).drop_last() =~= s);
    assert(s.push(b).last() == b);
}

/// Keys occur at most once in a fragment list.
pub open spec fn frag_keys_unique<V>(frags: Seq<(nat, crate::fragment::FragmentModel<V>)>) -> bool {
    forall|k1: int, k2: int|
        #![trigger frags[k1], frags[k2]]
        0 <= k1 < k2 < frags.len() ==> frags[k1].0 != frags[k2].0
}

/// With unique keys, looking an entry's key up finds that entry.
proof fn lemma_find_frag_at<V>(frags: Seq<(nat, crate::fragment::FragmentModel<V>)>, k: int)
    requires
        frag_keys_unique(frags),
        0 <= k < frags.len(),
    ensures
        crate::bridge::find_frag(frags, frags[k].0) == Some(frags[k].1),
    decreases k,
{
    if k > 0 {
        assert(frags[0].0 != frags[k].0);
        assert(forall|j: int| 0 <= j < frags.len() - 1 ==> (#[trigger] frags.drop_first()[j])
            == frags[j + 1]);
        assert(frag_keys_unique(frags.drop_first())) by {
            assert forall|k1: int, k2: int|
                0 <= k1 < k2 < frags.drop_first().len() implies (#[trigger] frags.drop_first()[k1]).0
                != (#[trigger] frags.drop_first()[k2]).0 by {
                assert(frags.drop_first()[k1] == frags[k1 + 1]);
                assert(frags.drop_first()[k2] == frags[k2 + 1]);
            }
        }
        lemma_find_frag_at(frags.drop_first(), k - 1);
    }
}

/// A found fragment sits somewhere in the list as an entry under its key.
proof fn lemma_find_frag_exists<V>(
    frags: Seq<(nat, crate::fragment::FragmentModel<V>)>,
    key: nat,
)
    requires
        crate::bridge::find_frag(frags, key) is Some,
    ensures
        exists|k: int| 0 <= k < frags.len() && #[trigger] frags[k] == (
        key,
        crate::bridge::find_frag(frags, key)->Some_0,
        ),
    decreases frags.len(),
{
    if frags[0].0 == key {
        assert(frags[0] == (key, crate::bridge::find_frag(frags, key)->Some_0));
    } else {
        lemma_find_frag_exists(frags.drop_first(), key);
        let k = choose|k: int|
            0 <= k < frags.drop_first().len() && #[trigger] frags.drop_first()[k] == (
            key,
            crate::bridge::find_frag(frags.drop_first(), key)->Some_0,
            );
        assert(frags[k + 1] == frags.drop_first()[k]);
    }
}

/// Adjacent bridges link up: the later one follows the earlier, and every
/// fragment of the earlier one has its direct continuation in the later one,
/// anchored alike and with the observation counts chaining.
pub open spec fn links_to<V>(a: BridgeModel<V>, b: BridgeModel<V>) -> bool {
    &&& bridge_can_follow(b, a)
    &&& frag_keys_unique(a.frags)
    &&& frag_keys_unique(b.frags)
    &&& forall|k: int| 0 <= k < a.frags.len() ==> match crate::bridge::find_frag(
        b.frags,
        (#[trigger] a.frags[k]).0,
    ) {
        Some(g) => a.frags[k].1.anchor == g.anchor && a.frags[k].1.observed + g.values.len()
            == g.observed,
        None => false,
    }
}

/// A chain in which every bridge links to the next.
pub open spec fn chain_connected<V>(s: Seq<BridgeModel<V>>) -> bool {
    forall|j: int| 0 <= j < s.len() - 1 ==> links_to(#[trigger] s[j], s[j + 1])
}

/// Fuse completeness: a connected chain always fuses, into a bridge with the
/// last frontier whose fragments carry the last bridge's observation counts.
pub proof fn lemma_fuse_all_connected<V>(s: Seq<BridgeModel<V>>)
    requires
        s.len() >= 1,
        chain_connected(s),
        frag_keys_unique(s[0].frags),
    ensures
        bridge_fuse_all(s) is Some,
        ({
            let f = bridge_fuse_all(s)->Some_0;
            &&& f.frontier == s.last().frontier
            &&& f.frags.len() == s[0].frags.len()
            &&& forall|k: int| 0 <= k < f.frags.len() ==> (#[trigger] f.frags[k]).0
                == s[0].frags[k].0 && match crate::bridge::find_frag(
                s.last().frags,
                f.frags[k].0,
            ) {
                Some(g) => f.frags[k].1.anchor == g.anchor && f.frags[k].1.observed == g.observed,
                None => false,
            }
        }),
    decreases s.len(),
{
    if s.len() == 1 {
        assert(bridge_fuse_all(s) == Some(s[0]));
        assert forall|k: int| 0 <= k < s[0].frags.len() implies (#[trigger] s[0].frags[k]).0
            == s[0].frags[k].0 && match crate::bridge::find_frag(
            s.last().frags,
            s[0].frags[k].0,
        ) {
            Some(g) => s[0].frags[k].1.anchor == g.anchor && s[0].frags[k].1.observed
                == g.observed,
            None => false,
        } by {
            lemma_find_frag_at(s[0].frags, k);
        }
    } else {
        let prefix = s.drop_last();
        assert(chain_connected(prefix)) by {
            assert forall|j: int| 0 <= j < prefix.len() - 1 implies links_to(
                #[trigger] prefix[j],
                prefix[j + 1],
            ) by {
                assert(prefix[j] == s[j]);
                assert(prefix[j + 1] == s[j + 1]);
                assert(links_to(s[j], s[j + 1]));
            }
        }
        assert(prefix[0] == s[0]);
        lemma_fuse_all_connected(prefix);
        let acc = bridge_fuse_all(prefix)->Some_0;
        let last = s.last();
        let prev = prefix.last();
        assert(links_to(prev, last)) by {
            assert(prev == s[s.len() - 2]);
            assert(links_to(s[s.len() - 2], s[s.len() - 2 + 1]));
        }
        // The folded prefix follows the accumulated frontier.
        assert(bridge_can_follow(last, acc)) by {
            assert(acc.frontier == prev.frontier);
        }
        // Each accumulated fragment finds a compatible continuation.
        assert forall|k: int| 0 <= k < acc.frags.len() implies crate::bridge::entry_compatible(
            #[trigger] acc.frags[k],
            last.frags,
        ) by {
            let key = acc.frags[k].0;
            lemma_find_frag_exists(prev.frags, key);
            let k0 = choose|k0: int|
                0 <= k0 < prev.frags.len() && #[trigger] prev.frags[k0] == (
                key,
                crate::bridge::find_frag(prev.frags, key)->Some_0,
                );
            assert(match crate::bridge::find_frag(last.frags, prev.frags[k0].0) {
                Some(g) => prev.frags[k0].1.anchor == g.anchor && prev.frags[k0].1.observed
                    + g.values.len() == g.observed,
                None => false,
            });
        }
        assert(bridge_fuse(acc, last) is Some);
        assert(bridge_fuse_all(s) == bridge_fuse(acc, last));
        let f = bridge_fuse(acc, last)->Some_0;
        assert forall|k: int| 0 <= k < f.frags.len() implies (#[trigger] f.frags[k]).0
            == s[0].frags[k].0 && match crate::bridge::find_frag(s.last().frags, f.frags[k].0) {
            Some(g) => f.frags[k].1.anchor == g.anchor && f.frags[k].1.observed == g.observed,
            None => false,
        } by {
            assert(f.frags[k] == crate::bridge::fused_entry(acc.frags[k], last.frags));
            let key = acc.frags[k].0;
            lemma_find_frag_exists(prev.frags, key);
            let k0 = choose|k0: int|
                0 <= k0 < prev.frags.len() && #[trigger] prev.frags[k0] == (
                key,
                crate::bridge::find_frag(prev.frags, key)->Some_0,
                );
            assert(match crate::bridge::find_frag(last.frags, prev.frags[k0].0) {
                Some(g) => prev.frags[k0].1.anchor == g.anchor && prev.frags[k0].1.observed
                    + g.values.len() == g.observed,
                None => false,
            });
        }
    }
}

/// A filled path reaches exactly the target altitude (or keeps its length
/// when already past it).
proof fn lemma_padded_fill_len<H: Hashable>(
    result: Seq<H::V>,
    avals: Seq<H::V>,
    used: nat,
    target: nat,
)
    ensures
        crate::tree::padded_fill::<H>(result, avals, used, target).0.len() == if result.len()
            >= target {
            result.len()
        } else {
            target
        },
    decreases target - result.len(),
{
    if result.len() < target {
        if used < avals.len() {
            lemma_padded_fill_len::<H>(result.push(avals[used as int]), avals, used + 1, target);
        } else {
            lemma_padded_fill_len::<H>(
                result.push(H::blank_root(result.len())),
                avals,
                used,
                target,
            );
        }
    }
}

/// Walking the ommers never grows the path past the altitude bound, as long
/// as the populated altitudes stay below it, ascend strictly, and the path
/// has not yet passed the first of them.
proof fn lemma_ommer_fill_len<H: Hashable>(
    result: Seq<H::V>,
    used: nat,
    avals: Seq<H::V>,
    om: Seq<H::V>,
    alts: Seq<nat>,
    bound: nat,
)
    requires
        result.len() <= bound,
        forall|k: int| 0 <= k < alts.len() ==> #[trigger] alts[k] < bound,
        forall|k1: int, k2: int|
            #![trigger alts[k1], alts[k2]]
            0 <= k1 < k2 < alts.len() ==> alts[k1] < alts[k2],
        om.len() > 0 && alts.len() > 0 ==> result.len() <= alts[0],
    ensures
        crate::tree::ommer_fill::<H>(result, used, avals, om, alts).0.len() <= bound,
    decreases om.len(),
{
    if om.len() > 0 && alts.len() > 0 {
        lemma_padded_fill_len::<H>(result, avals, used, alts[0]);
        let step = crate::tree::padded_fill::<H>(result, avals, used, alts[0]);
        let result2 = step.0.push(om[0]);
        assert(result2.len() == alts[0] + 1);
        assert(forall|j: int| 0 <= j < alts.len() - 1 ==> (#[trigger] alts.drop_first()[j])
            == alts[j + 1]);
        assert forall|k1: int, k2: int|
            0 <= k1 < k2 < alts.drop_first().len() implies (#[trigger] alts.drop_first()[k1])
            < (#[trigger] alts.drop_first()[k2]) by {
            assert(alts.drop_first()[k1] == alts[k1 + 1]);
            assert(alts.drop_first()[k2] == alts[k2 + 1]);
        }
        if om.len() > 1 && alts.len() > 1 {
            assert(alts[0] < alts[1]);
        }
        lemma_ommer_fill_len::<H>(result2, step.1, avals, om.drop_first(), alts.drop_first(), bound);
    }
}

/// The path built for an anchor inside the tree's depth has exactly one
/// sibling per altitude from the leaf layer up to the root, whatever staged
/// values feed it.
pub proof fn lemma_auth_path_len<H: Hashable>(
    anchor: crate::frontier::FrontierModel<H::V>,
    avals: Seq<H::V>,
    depth: nat,
)
    requires
        1 <= depth,
        anchor.position < pow2(depth),
    ensures
        crate::tree::auth_path_from::<H>(anchor, avals, depth).len() == depth,
{
    let p = anchor.position;
    let alts = ommer_altitudes_of(p);
    lemma_max_altitude_bounds(p);
    assert(max_altitude_of(p) + 1 <= depth) by {
        if p == 0 {
        } else {
            if max_altitude_of(p) > depth {
                lemma_pow2_strictly_increases(depth, max_altitude_of(p));
            }
        }
    }
    lemma_alt_range_membership(p, 0, max_altitude_of(p) + 1, ommer_keep());
    let first: (Seq<H::V>, nat) = match anchor.leaf {
        crate::frontier::Leaf::Left(_) => if avals.len() > 0 {
            (seq![avals[0]], 1nat)
        } else {
            (seq![H::blank_leaf()], 0nat)
        },
        crate::frontier::Leaf::Right(a, _) => (seq![a], 0nat),
    };
    assert(first.0.len() == 1);
    lemma_ommer_fill_len::<H>(first.0, first.1, avals, anchor.ommers, alts, depth);
    let mid = crate::tree::ommer_fill::<H>(first.0, first.1, avals, anchor.ommers, alts);
    lemma_padded_fill_len::<H>(mid.0, avals, mid.1, depth);
}

/// Every witnessed leaf of a well-shaped tree yields a path of exactly the
/// tree depth — also when the anchor is the rightmost leaf with no bridge
/// after it: the path is then drawn from its own frontier and padded out
/// with empty roots.
pub proof fn lemma_authentication_path_complete<H: Hashable>(
    t: TreeModel<H::V>,
    v: H::V,
    depth: nat,
)
    requires
        1 <= depth,
        find_saved(t.saved, v) is Some,
        ({
            let idx = find_saved(t.saved, v)->Some_0;
            &&& idx < t.bridges.len()
            &&& t.bridges[idx as int].frontier.position < pow2(depth)
            &&& (idx + 1 < t.bridges.len() ==> chain_connected(
                t.bridges.subrange(idx as int + 1, t.bridges.len() as int),
            ) && frag_keys_unique(t.bridges[idx as int + 1].frags))
        }),
    ensures
        crate::tree::tree_authentication_path::<H>(t, v, depth) is Some,
        (crate::tree::tree_authentication_path::<H>(t, v, depth)->Some_0).1.len() == depth,
        (crate::tree::tree_authentication_path::<H>(t, v, depth)->Some_0).0 == t.bridges[
            find_saved(t.saved, v)->Some_0 as int
        ].frontier.position,
{
    let idx = find_saved(t.saved, v)->Some_0;
    if idx + 1 == t.bridges.len() {
        lemma_auth_path_len::<H>(
            t.bridges[idx as int].frontier,
            Seq::<H::V>::empty(),
            depth,
        );
    } else {
        let tail = t.bridges.subrange(idx as int + 1, t.bridges.len() as int);
        assert(tail.len() >= 1);
        assert(tail[0] == t.bridges[idx as int + 1]);
        lemma_fuse_all_connected(tail);
        let fused = bridge_fuse_all(tail)->Some_0;
        lemma_auth_path_len::<H>(
            t.bridges[idx as int].frontier,
            crate::tree::auth_values_of::<H>(fused, idx),
            depth,
        );
    }
}

/// Fusing a linked triple associates: grouping the first pair or the last
/// yields the same bridge, so any adjacent grouping of a connected chain
/// folds to the same result.
pub proof fn lemma_fuse_associative<V>(a: BridgeModel<V>, b: BridgeModel<V>, c: BridgeModel<V>)
    requires
        links_to(a, b),
        links_to(b, c),
    ensures
        bridge_fuse(a, b) is Some,
        bridge_fuse(b, c) is Some,
        bridge_fuse(bridge_fuse(a, b)->Some_0, c) == bridge_fuse(a, bridge_fuse(b, c)->Some_0),
{
    assert forall|i: int| 0 <= i < a.frags.len() implies crate::bridge::entry_compatible(
        #[trigger] a.frags[i],
        b.frags,
    ) by {}
    assert forall|j: int| 0 <= j < b.frags.len() implies crate::bridge::entry_compatible(
        #[trigger] b.frags[j],
        c.frags,
    ) by {}
    let ab = bridge_fuse(a, b)->Some_0;
    let bc = bridge_fuse(b, c)->Some_0;
    // Each fragment of `a`, continued through `b`, still finds a chaining
    // continuation in `c` (and vice versa through `bc`), with the same
    // values in either grouping order.
    assert forall|i: int| 0 <= i < ab.frags.len() implies crate::bridge::entry_compatible(
        #[trigger] ab.frags[i],
        c.frags,
    ) by {
        lemma_fuse_associative_entry(a, b, c, i);
    }
    assert forall|i: int| 0 <= i < a.frags.len() implies crate::bridge::entry_compatible(
        #[trigger] a.frags[i],
        bc.frags,
    ) by {
        lemma_fuse_associative_entry(a, b, c, i);
    }
    let lhs = bridge_fuse(ab, c)->Some_0;
    let rhs = bridge_fuse(a, bc)->Some_0;
    assert(bridge_can_follow(c, ab) && bridge_can_follow(bc, a));
    assert(bridge_fuse(ab, c) is Some);
    assert(bridge_fuse(a, bc) is Some);
    assert(lhs.frags =~= rhs.frags) by {
        assert forall|i: int| 0 <= i < a.frags.len() implies lhs.frags[i] == rhs.frags[i] by {
            assert(lhs.frags[i] == crate::bridge::fused_entry(ab.frags[i], c.frags));
            assert(rhs.frags[i] == crate::bridge::fused_entry(a.frags[i], bc.frags));
            lemma_fuse_associative_entry(a, b, c, i);
        }
    }
    assert(lhs =~= rhs);
}

/// One fragment of the first bridge of a linked triple fuses to the same
/// result whether it first takes its continuation in the second bridge or
/// meets the second and third already fused.
proof fn lemma_fuse_associative_entry<V>(
    a: BridgeModel<V>,
    b: BridgeModel<V>,
    c: BridgeModel<V>,
    i: int,
)
    requires
        links_to(a, b),
        links_to(b, c),
        0 <= i < a.frags.len(),
        bridge_fuse(a, b) is Some,
        bridge_fuse(b, c) is Some,
    ensures
        ({
            let ab = bridge_fuse(a, b)->Some_0;
            let bc = bridge_fuse(b, c)->Some_0;
            &&& crate::bridge::entry_compatible(ab.frags[i], c.frags)
            &&& crate::bridge::entry_compatible(a.frags[i], bc.frags)
            &&& crate::bridge::fused_entry(ab.frags[i], c.frags) == crate::bridge::fused_entry(
                a.frags[i],
                bc.frags,
            )
        }),
{
    let ab = bridge_fuse(a, b)->Some_0;
    let bc = bridge_fuse(b, c)->Some_0;
    let key = a.frags[i].0;
    let g_b = crate::bridge::find_frag(b.frags, key)->Some_0;
    lemma_find_frag_exists(b.frags, key);
    let j = choose|j: int| 0 <= j < b.frags.len() && #[trigger] b.frags[j] == (key, g_b);
    assert(crate::bridge::find_frag(c.frags, b.frags[j].0) is Some);
    let g_c = crate::bridge::find_frag(c.frags, key)->Some_0;
    assert(g_b.anchor == g_c.anchor && g_b.observed + g_c.values.len() == g_c.observed);
    assert(ab.frags[i] == crate::bridge::fused_entry(a.frags[i], b.frags));
    assert(bc.frags[j] == crate::bridge::fused_entry(b.frags[j], c.frags));
    assert(bc.frags[j] == (key, crate::fragment::FragmentModel {
        anchor: g_b.anchor,
        observed: g_c.observed,
        values: g_b.values + g_c.values,
    }));
    assert(frag_keys_unique(bc.frags)) by {
        assert forall|k1: int, k2: int|
            0 <= k1 < k2 < bc.frags.len() implies (#[trigger] bc.frags[k1]).0
            != (#[trigger] bc.frags[k2]).0 by {
            assert(bc.frags[k1].0 == b.frags[k1].0);
            assert(bc.frags[k2].0 == b.frags[k2].0);
        }
    }
    lemma_find_frag_at(bc.frags, j);
    assert((a.frags[i].1.values + g_b.values) + g_c.values =~= a.frags[i].1.values + (g_b.values
        + g_c.values));
}

/// An append to a saturated tree reports failure and leaves every part of
/// the state unchanged.
pub proof fn lemma_saturated_append_unchanged<H: Hashable>(t: TreeModel<H::V>, v: H::V, depth: nat)
    requires
        t.bridges.len() > 0,
        crate::position::complete_to(t.bridges.last().frontier.position, depth),
    ensures
        !tree_append::<H>(t, v, depth).0,
        tree_append::<H>(t, v, depth).1 == t,
{
    assert(t.bridges.last() == t.bridges[t.bridges.len() - 1]);
}

/// A rewind with no checkpoint on the stack reports failure and changes
/// nothing.
pub proof fn lemma_rewind_empty_stack<V>(t: TreeModel<V>)
    requires
        t.checkpoints.len() == 0,
    ensures
        !tree_rewind(t).0,
        tree_rewind(t).1 == t,
{
}

/// A rewind refuses, leaving the tree unchanged, exactly when a witness is
/// anchored strictly after the checkpoint, or one is anchored at it while
/// the bridge there has drifted since the snapshot was taken.
pub proof fn lemma_rewind_refusal<V>(t: TreeModel<V>, i: nat, snapshot: BridgeModel<V>)
    requires
        t.checkpoints.len() > 0,
        t.checkpoints.last() == CheckpointModel::AtIndex(i, snapshot),
        i < t.bridges.len(),
        (exists|k: int| 0 <= k < t.saved.len() && (#[trigger] t.saved[k]).1 > i) || ((exists|k: int|
            0 <= k < t.saved.len() && (#[trigger] t.saved[k]).1 == i) && snapshot.frontier
            != t.bridges[i as int].frontier),
    ensures
        !tree_rewind(t).0,
        tree_rewind(t).1 == t,
{
}

/// Witnessing is idempotent: a second witness at the same frontier position
/// changes neither the witnessed-leaf index nor the bridge history.
pub proof fn lemma_witness_idempotent<V>(t: TreeModel<V>)
    requires
        t.bridges.len() > 0,
    ensures
        tree_witness(t).0,
        tree_witness(tree_witness(t).1).1 == tree_witness(t).1,
{
    let t1 = tree_witness(t).1;
    let blen = t.bridges.len();
    let cur = t.bridges[blen - 1];
    let leaf = leaf_value_of(cur.frontier.leaf);
    let is_dup = blen > 1 && cur.frontier == t.bridges[blen - 2].frontier;
    if is_dup {
        // No successor was pushed; the entry for the leaf now exists either
        // way, so the second call finds the same duplicate frontier and the
        // same entry.
        assert(t1.bridges == t.bridges);
        if find_saved(t.saved, leaf) is Some {
            assert(t1.saved == t.saved);
        } else {
            lemma_find_saved_push(t.saved, leaf, (blen - 2) as nat);
        }
        assert(tree_witness(t1).1 =~= t1);
    } else {
        // A successor with the same frontier was pushed: the second call
        // sees a duplicate frontier and an existing entry, and so changes
        // nothing.
        let succ = bridge_successor(cur, (blen - 1) as nat);
        assert(succ.frontier == cur.frontier);
        assert(t1.bridges == t.bridges.push(succ));
        assert(t1.bridges[t1.bridges.len() - 1] == succ);
        assert(t1.bridges[t1.bridges.len() - 2] == cur);
        assert(leaf_value_of(succ.frontier.leaf) == leaf);
        if find_saved(t.saved, leaf) is Some {
            assert(t1.saved == t.saved);
        } else {
            lemma_find_saved_push(t.saved, leaf, (blen - 1) as nat);
        }
        assert(find_saved(t1.saved, leaf) is Some);
        assert(tree_witness(t1).1 =~= t1);
    }
}

/// The tree after a sequence of appends, each routed as `append` routes it
/// (a refused append changes nothing).
pub open spec fn tree_after_appends<H: Hashable>(
    t: TreeModel<H::V>,
    vs: Seq<H::V>,
    depth: nat,
) -> TreeModel<H::V>
    decreases vs.len(),
{
    if vs.len() == 0 {
        t
    } else {
        tree_after_appends::<H>(tree_append::<H>(t, vs[0], depth).1, vs.drop_first(), depth)
    }
}

/// Appends to a non-empty tree touch only the latest bridge: the history's
/// length, every earlier bridge, the witnessed-leaf index and the checkpoint
/// stack stay as they were.
proof fn lemma_appends_touch_last_bridge<H: Hashable>(t: TreeModel<H::V>, vs: Seq<H::V>, depth: nat)
    requires
        t.bridges.len() > 0,
    ensures
        ({
            let t2 = tree_after_appends::<H>(t, vs, depth);
            &&& t2.bridges.len() == t.bridges.len()
            &&& forall|j: int| 0 <= j < t.bridges.len() - 1 ==> t2.bridges[j] == #[trigger] t.bridges[j]
            &&& t2.saved == t.saved
            &&& t2.checkpoints == t.checkpoints
            &&& t2.max_checkpoints == t.max_checkpoints
        }),
    decreases vs.len(),
{
    if vs.len() > 0 {
        let t1 = tree_append::<H>(t, vs[0], depth).1;
        assert(t1.bridges.len() == t.bridges.len());
        assert(forall|j: int| 0 <= j < t.bridges.len() - 1 ==> t1.bridges[j] == #[trigger] t.bridges[j]);
        lemma_appends_touch_last_bridge::<H>(t1, vs.drop_first(), depth);
        let t2 = tree_after_appends::<H>(t1, vs.drop_first(), depth);
        assert forall|j: int| 0 <= j < t.bridges.len() - 1 implies t2.bridges[j] == #[trigger] t.bridges[j] by {
            assert(t2.bridges[j] == t1.bridges[j]);
        }
    }
}

/// Entries all at or below the bound survive a retain unchanged.
proof fn lemma_retain_saved_le_all<V>(s: Seq<(V, nat)>, i: nat)
    requires
        forall|k: int| 0 <= k < s.len() ==> (#[trigger] s[k]).1 <= i,
    ensures
        retain_saved_le(s, i) == s,
    decreases s.len(),
{
    if s.len() > 0 {
        assert(forall|k: int| 0 <= k < s.drop_first().len() ==> (#[trigger] s.drop_first()[k])
            == s[k + 1]);
        lemma_retain_saved_le_all(s.drop_first(), i);
        assert(retain_saved_le(s, i) =~= s);
    }
}

/// Checkpoint round trip: a checkpoint followed by appends alone rewinds to
/// a tree with the bridges, witnesses and root it had before. The two premises
/// say the tree is in the shape every sequence of the public operations
/// leaves it in: every witness already has its successor bridge, and a
/// witness of the current leaf has collapsed onto the previous bridge (the
/// two frontiers there are equal).
pub proof fn lemma_checkpoint_rewind_restores<H: Hashable>(
    t: TreeModel<H::V>,
    vs: Seq<H::V>,
    depth: nat,
)
    requires
        t.bridges.len() > 0,
        t.max_checkpoints >= 1,
        forall|k: int| 0 <= k < t.saved.len() ==> (#[trigger] t.saved[k]).1 + 1 < t.bridges.len(),
        find_saved(t.saved, leaf_value_of(t.bridges.last().frontier.leaf)) is Some ==> (
        t.bridges.len() > 1 && t.bridges.last().frontier == t.bridges[t.bridges.len()
            - 2].frontier),
    ensures
        ({
            let t2 = tree_after_appends::<H>(tree_checkpoint(t), vs, depth);
            let r = tree_rewind(t2);
            &&& r.0
            &&& r.1.bridges == t.bridges
            &&& r.1.saved == t.saved
            &&& tree_root::<H>(r.1, depth) == tree_root::<H>(t, depth)
        }),
{
    let i = (t.bridges.len() - 1) as nat;
    let snapshot = t.bridges[i as int];
    let t1 = tree_checkpoint(t);
    assert(t1.checkpoints.len() >= 1 && t1.checkpoints.last() == CheckpointModel::AtIndex(
        i,
        snapshot,
    )) by {
        let pushed = t.checkpoints.push(CheckpointModel::AtIndex(i, snapshot));
        assert(pushed.last() == CheckpointModel::AtIndex(i, snapshot));
        if pushed.len() > t.max_checkpoints {
            assert(pushed.len() >= 2);
            assert(pushed.drop_first().last() == pushed[pushed.len() - 1]);
        }
    }
    assert(t1.bridges == t.bridges);
    assert(t1.saved == t.saved);
    let t2 = tree_after_appends::<H>(t1, vs, depth);
    lemma_appends_touch_last_bridge::<H>(t1, vs, depth);
    assert(t2.checkpoints.last() == CheckpointModel::AtIndex(i, snapshot));
    // No witness sits past the checkpoint, nor at it.
    assert(forall|k: int| 0 <= k < t2.saved.len() ==> (#[trigger] t2.saved[k]).1 < i);
    let r = tree_rewind(t2);
    assert(r.0);
    lemma_retain_saved_le_all(t2.saved, i);
    let bridges1 = t2.bridges.take(i as int + 1).update(i as int, snapshot);
    assert(bridges1 =~= t.bridges);
    let leaf = leaf_value_of(snapshot.frontier.leaf);
    if find_saved(t2.saved, leaf) is Some {
        // The leaf was witnessed before the checkpoint, so the previous
        // bridge shares the snapshot's frontier and no successor is pushed.
        assert(t.bridges.last().frontier == t.bridges[i as int - 1].frontier);
        assert(t2.bridges[i as int - 1] == t.bridges[i as int - 1]);
        assert(r.1.bridges == bridges1);
    } else {
        assert(r.1.bridges == bridges1);
    }
    assert(r.1.saved == t.saved);
    assert(tree_root::<H>(r.1, depth) == tree_root::<H>(t, depth));
}

/// The number of leading list entries climbing one altitude at a time from
/// `l`: how many ommers an incoming carry at altitude `l` consumes.
pub open spec fn run_from(alts: Seq<nat>, l: nat) -> nat
    decreases alts.len(),
{
    if alts.len() == 0 {
        0
    } else if alts[0] != l {
        0
    } else {
        1 + run_from(alts.drop_first(), l + 1)
    }
}

/// A carry merge consumes the leading run of consecutive altitudes and lands
/// once: the stack shrinks by the run and grows by one.
proof fn lemma_merged_len<H: Hashable>(om: Seq<H::V>, alts: Seq<nat>, c: H::V, l: nat)
    requires
        om.len() == alts.len(),
    ensures
        run_from(alts, l) <= alts.len(),
        crate::frontier::merged_ommers::<H>(om, alts, c, l).len() as int == om.len()
            - run_from(alts, l) + 1,
    decreases om.len(),
{
    if om.len() > 0 {
        if alts[0] == l {
            lemma_merged_len::<H>(
                om.drop_first(),
                alts.drop_first(),
                H::combined(l, om[0], c),
                l + 1,
            );
        } else {
            assert(vstd::math::min(om.len() as int, alts.len() as int) == om.len());
            assert(om.take(om.len() as int) =~= om);
        }
    }
}

/// The length of a position's trailing run of set bits.
pub open spec fn trailing_ones(p: nat) -> nat
    decreases p,
{
    if p % 2 == 0 {
        0
    } else {
        1 + trailing_ones(p / 2)
    }
}

/// A bit of a position is the next-lower bit of its half.
proof fn lemma_bit_shift(p: nat, i: nat)
    requires
        i >= 1,
    ensures
        bit_set(p, i) == bit_set(p / 2, (i - 1) as nat),
{
    vstd::arithmetic::power2::lemma_pow2_unfold(i);
    vstd::arithmetic::power2::lemma_pow2_pos((i - 1) as nat);
    vstd::arithmetic::div_mod::lemma_div_denominator(
        p as int,
        2,
        pow2((i - 1) as nat) as int,
    );
}

/// The trailing run is exactly the set bits below the first clear one.
proof fn lemma_trailing_ones_bits(p: nat)
    ensures
        forall|i: nat| i < trailing_ones(p) ==> #[trigger] bit_set(p, i),
        !bit_set(p, trailing_ones(p)),
    decreases p,
{
    let t = trailing_ones(p);
    lemma2_to64();
    if p % 2 == 0 {
        assert(!bit_set(p, 0));
    } else {
        lemma_trailing_ones_bits(p / 2);
        assert(t == 1 + trailing_ones(p / 2));
        assert forall|i: nat| i < t implies #[trigger] bit_set(p, i) by {
            if i >= 1 {
                lemma_bit_shift(p, i);
                assert(((i - 1) as nat) < trailing_ones(p / 2));
                assert(bit_set(p / 2, (i - 1) as nat));
            } else {
                assert(pow2(0) == 1);
                assert(p / pow2(0) % 2 == 1);
            }
        }
        lemma_bit_shift(p, t);
    }
}

/// Incrementing an even position sets bit 0 and moves no other bit.
proof fn lemma_increment_bits_even(q: nat)
    requires
        q % 2 == 0,
    ensures
        bit_set(q + 1, 0),
        forall|j: nat| j >= 1 ==> #[trigger] bit_set(q + 1, j) == bit_set(q, j),
{
    lemma2_to64();
    assert forall|j: nat| j >= 1 implies #[trigger] bit_set(q + 1, j) == bit_set(q, j) by {
        lemma_bit_shift(q + 1, j);
        lemma_bit_shift(q, j);
        assert((q + 1) / 2 == q / 2);
    }
}

/// Incrementing an odd position clears its trailing set bits, sets the bit
/// above them, and moves no other bit.
proof fn lemma_increment_bits_odd(p: nat)
    requires
        p % 2 == 1,
    ensures
        forall|i: nat| i < trailing_ones(p) ==> !(#[trigger] bit_set(p + 1, i)),
        bit_set(p + 1, trailing_ones(p)),
        forall|i: nat| i > trailing_ones(p) ==> #[trigger] bit_set(p + 1, i) == bit_set(p, i),
    decreases p,
{
    let t = trailing_ones(p);
    let q = p / 2;
    lemma2_to64();
    assert((p + 1) / 2 == q + 1);
    assert(!bit_set(p + 1, 0));
    if q % 2 == 0 {
        lemma_increment_bits_even(q);
        assert(bit_set(p + 1, 1) == bit_set(q + 1, 0)) by {
            lemma_bit_shift(p + 1, 1);
        }
        assert forall|i: nat| i > 1 implies #[trigger] bit_set(p + 1, i) == bit_set(p, i) by {
            lemma_bit_shift(p + 1, i);
            lemma_bit_shift(p, i);
        }
    } else {
        lemma_increment_bits_odd(q);
        assert forall|i: nat| 1 <= i < t implies !(#[trigger] bit_set(p + 1, i)) by {
            lemma_bit_shift(p + 1, i);
        }
        assert(bit_set(p + 1, t)) by {
            lemma_bit_shift(p + 1, t);
        }
        assert forall|i: nat| i > t implies #[trigger] bit_set(p + 1, i) == bit_set(p, i) by {
            lemma_bit_shift(p + 1, i);
            lemma_bit_shift(p, i);
        }
    }
}

/// A run counted across a consecutive block continues past it.
proof fn lemma_run_from_concat(a: Seq<nat>, b: Seq<nat>, l: nat)
    requires
        forall|k: int| 0 <= k < a.len() ==> a[k] == l + k,
        b.len() > 0 ==> b[0] != l + a.len(),
    ensures
        run_from(a + b, l) == a.len(),
    decreases a.len(),
{
    if a.len() == 0 {
        assert(a + b =~= b);
    } else {
        assert((a + b)[0] == l);
        assert((a + b).drop_first() =~= a.drop_first() + b);
        assert(forall|k: int| 0 <= k < a.len() - 1 ==> (#[trigger] a.drop_first()[k]) == a[k + 1]);
        lemma_run_from_concat(a.drop_first(), b, l + 1);
    }
}

/// Position–ommers invariant: appending one leaf keeps exactly one ommer per
/// populated altitude of the new position, whether the leaf pair merely
/// fills (even position) or combines and carries up the stack (odd).
pub proof fn lemma_append_preserves_frontier_wf<H: Hashable>(
    f: crate::frontier::FrontierModel<H::V>,
    v: H::V,
)
    requires
        crate::frontier::frontier_model_wf(f),
        f.position + 1 < pow2(64),
    ensures
        crate::frontier::frontier_model_wf(frontier_model_append::<H>(f, v)),
{
    let p = f.position;
    let g = frontier_model_append::<H>(f, v);
    lemma_ommer_altitudes_popcount(p);
    lemma_ommer_altitudes_popcount(p + 1);
    lemma2_to64();
    match f.leaf {
        crate::frontier::Leaf::Left(_) => {
            // Even position: the leaf pair fills; bit 0 flips on, the rest
            // stay, so the populated ommer altitudes are unchanged.
            lemma_increment_bits_even(p);
            assert(popcount64(p + 1) == popcount64(p) + 1) by {
                lemma_alt_range_congruent2(p, p + 1, 1, 64, set_bit_keep(), set_bit_keep());
                assert(alt_range(p, 0, 64, set_bit_keep()) == (if set_bit_keep()(p, 0) {
                    seq![0nat]
                } else {
                    Seq::<nat>::empty()
                }) + alt_range(p, 1, 64, set_bit_keep()));
                assert(alt_range(p + 1, 0, 64, set_bit_keep()) == (if set_bit_keep()(p + 1, 0) {
                    seq![0nat]
                } else {
                    Seq::<nat>::empty()
                }) + alt_range(p + 1, 1, 64, set_bit_keep()));
                assert(!bit_set(p, 0) && bit_set(p + 1, 0));
            }
        }
        crate::frontier::Leaf::Right(a, b) => {
            // Odd position: the carry consumes the trailing run of
            // consecutive populated altitudes and lands just above it.
            let t = trailing_ones(p);
            assert(p % 2 == 1) by {
                assert(!(p % 2 == 0));
            }
            lemma_trailing_ones_bits(p);
            lemma_increment_bits_odd(p);
            assert(t >= 1);
            assert(t < 64) by {
                lemma_bit_low_bound(p + 1, t);
                if t > 64 {
                    lemma_pow2_strictly_increases(64, t);
                }
            }
            // Popcount: t set bits below the first clear one turn off, that
            // one turns on, and nothing above moves.
            let r = alt_range(p, (t + 1) as nat, 64, set_bit_keep()).len();
            assert(popcount64(p) == t + r) by {
                lemma_alt_range_split(p, 0, t, 64, set_bit_keep());
                lemma_alt_range_split(p, t, t + 1, 64, set_bit_keep());
                lemma_alt_range_all_kept(p, 0, t, set_bit_keep());
                assert(alt_range(p, t, t + 1, set_bit_keep()) =~= Seq::<nat>::empty());
            }
            assert(popcount64(p + 1) == 1 + r) by {
                lemma_alt_range_split(p + 1, 0, t, 64, set_bit_keep());
                lemma_alt_range_split(p + 1, t, t + 1, 64, set_bit_keep());
                lemma_alt_range_clear_extension(p + 1, 0, 0, t, set_bit_keep());
                assert(alt_range(p + 1, t, t + 1, set_bit_keep()) =~= seq![t]);
                lemma_alt_range_congruent2(
                    p + 1,
                    p,
                    (t + 1) as nat,
                    64,
                    set_bit_keep(),
                    set_bit_keep(),
                );
            }
            // The leading run of the ommer list is exactly the trailing-ones
            // block above bit 0.
            let alts = ommer_altitudes_of(p);
            let top = max_altitude_of(p) + 1;
            lemma_max_altitude_bounds(p);
            assert(t <= top) by {
                if t > max_altitude_of(p) + 1 {
                    assert(bit_set(p, (max_altitude_of(p) + 1) as nat));
                    lemma_bit_low_bound(p, max_altitude_of(p) + 1);
                    lemma_pow2_strictly_increases(
                        max_altitude_of(p) + 1,
                        max_altitude_of(p) + 2,
                    );
                }
            }
            let part1 = alt_range(p, 1, t, ommer_keep());
            let part2 = alt_range(p, t, top, ommer_keep());
            assert(alts == (if ommer_keep()(p, 0) {
                seq![0nat]
            } else {
                Seq::<nat>::empty()
            }) + alt_range(p, 1, top, ommer_keep()));
            assert(alts =~= alt_range(p, 1, top, ommer_keep()));
            lemma_alt_range_split(p, 1, t, top, ommer_keep());
            lemma_alt_range_all_kept(p, 1, t, ommer_keep());
            assert(part2.len() == 0 || part2[0] != t) by {
                lemma_alt_range_membership(p, t, top, ommer_keep());
                if part2.len() > 0 {
                    assert(ommer_keep()(p, part2[0]));
                }
            }
            assert(run_from(alts, 1) == t - 1) by {
                assert(alts == part1 + part2);
                lemma_run_from_concat(part1, part2, 1);
            }
            lemma_merged_len::<H>(f.ommers, alts, H::combined(0, a, b), 1);
            assert(g.ommers == crate::frontier::merged_ommers::<H>(
                f.ommers,
                alts,
                H::combined(0, a, b),
                1,
            ));
            assert(g.ommers.len() as int == f.ommers.len() - (t - 1) + 1);
            assert(!bit_set(p + 1, 0));
            assert(ommer_altitudes_of(p + 1).len() == 1 + r);
            assert(g.ommers.len() == ommer_altitudes_of(p + 1).len());
        }
    }
}

/// Pushing an entry for a fresh key makes that key found.
proof fn lemma_find_saved_push<V>(s: Seq<(V, nat)>, h: V, idx: nat)
    requires
        find_saved(s, h) is None,
    ensures
        find_saved(s.push((h, idx)), h) == Some(idx),
    decreases s.len(),
{
    if s.len() == 0 {
        assert(s.push((h, idx))[0] == (h, idx));
    } else {
        lemma_find_saved_push(s.drop_first(), h, idx);
        assert(s.push((h, idx))[0] == s[0]);
        assert(s.push((h, idx)).drop_first() =~= s.drop_first().push((h, idx)));
    }
}

} // verus!
