//! Leaf positions and altitudes, and the bit arithmetic that maps a position
//! to the altitudes of its populated ommers and of the sibling altitudes an
//! authentication path still lacks.

use vstd::prelude::*;
use vstd::arithmetic::power2::{pow2, lemma_pow2_unfold, lemma_pow2_strictly_increases, lemma_pow2_pos};
use vstd::arithmetic::div_mod::lemma_basic_div;
use vstd::bits::lemma_u64_shr_is_div;

verus! {

/// A height in the Merkle tree; the leaf layer is at altitude 0.
#[derive(Clone, Copy, Debug, PartialEq, Eq, Structural, Hash)]
pub struct Altitude(pub u8);

impl Altitude {
    /// The leaf layer.
    pub fn zero() -> (r: Self)
        ensures
            r.0 == 0,
    {
        Altitude(0)
    }

    /// The layer of the first combined pairs.
    pub fn one() -> (r: Self)
        ensures
            r.0 == 1,
    {
        Altitude(1)
    }
}

/// The 0-based index of a leaf in the tree.
#[derive(Clone, Copy, Debug, PartialEq, Eq, Structural, Hash)]
pub struct Position(pub u64);

/// Whether bit `i` of `p` is set.
pub open spec fn bit_set(p: nat, i: nat) -> bool {
    p / pow2(i) % 2 == 1
}

/// The altitude of the highest populated ommer once the leaf at position `p`
/// is the rightmost one: 0 for p = 0, else the index of p's highest set bit.
pub open spec fn max_altitude_of(p: nat) -> nat
    decreases p,
{
    if p < 2 {
        0
    } else {
        1 + max_altitude_of(p / 2)
    }
}

/// The ascending list of indices `i` in `[lo, end)` with `keep(p, i)`.
pub open spec fn alt_range(p: nat, lo: nat, end: nat, keep: spec_fn(nat, nat) -> bool) -> Seq<nat>
    decreases end - lo,
{
    if lo >= end {
        Seq::empty()
    } else if keep(p, lo) {
        seq![lo] + alt_range(p, lo + 1, end, keep)
    } else {
        alt_range(p, lo + 1, end, keep)
    }
}

/// Keeps the altitudes of populated ommers: set bits of p above bit 0.
pub open spec fn ommer_keep() -> spec_fn(nat, nat) -> bool {
    |p: nat, i: nat| 1 <= i && bit_set(p, i)
}

/// Keeps the altitudes whose sibling is still missing from the
/// authentication path anchored at p: clear bits of p, or every altitude
/// when p = 0.
pub open spec fn required_keep() -> spec_fn(nat, nat) -> bool {
    |p: nat, i: nat| p == 0 || !bit_set(p, i)
}

/// Keeps every set bit of p.
pub open spec fn set_bit_keep() -> spec_fn(nat, nat) -> bool {
    |p: nat, i: nat| bit_set(p, i)
}

/// The altitudes of the populated ommers of position `p`, ascending.
pub open spec fn ommer_altitudes_of(p: nat) -> Seq<nat> {
    alt_range(p, 0, max_altitude_of(p) + 1, ommer_keep())
}

/// The sibling altitudes missing from an authentication path anchored at
/// `p`, up to one altitude above the highest populated ommer.
pub open spec fn altitudes_required_of(p: nat) -> Seq<nat> {
    alt_range(p, 0, max_altitude_of(p) + 2, required_keep())
}

/// The full ordered list of sibling altitudes an authentication path
/// anchored at `p` will eventually need as the tree grows, up to altitude 64.
pub open spec fn all_altitudes_required_of(p: nat) -> Seq<nat> {
    alt_range(p, 0, 64, required_keep())
}

/// The number of set bits of `p` below bit 64.
pub open spec fn popcount64(p: nat) -> nat {
    alt_range(p, 0, 64, set_bit_keep()).len()
}

/// Whether bits 0..h of `p` are all set: the subtree of height `h` whose
/// rightmost leaf sits at position `p` has no empty slot.
pub open spec fn complete_to(p: nat, h: nat) -> bool {
    forall|i: nat| i < h ==> bit_set(p, i)
}

/// Extending the scanned range by one appends at most one altitude.
pub proof fn lemma_alt_range_snoc(p: nat, lo: nat, end: nat, keep: spec_fn(nat, nat) -> bool)
    requires
        lo <= end,
    ensures
        alt_range(p, lo, end + 1, keep) == alt_range(p, lo, end, keep) + (if keep(p, end) {
            seq![end]
        } else {
            Seq::<nat>::empty()
        }),
    decreases end - lo,
{
    if lo >= end {
        assert(alt_range(p, lo, end, keep) == Seq::<nat>::empty());
        if keep(p, end) {
            assert(alt_range(p, end + 1, end + 1, keep) == Seq::<nat>::empty());
            assert(alt_range(p, lo, end + 1, keep) == seq![end] + Seq::<nat>::empty());
            assert(alt_range(p, lo, end + 1, keep) =~= alt_range(p, lo, end, keep) + seq![end]);
        } else {
            assert(alt_range(p, lo, end + 1, keep) =~= alt_range(p, lo, end, keep));
        }
    } else {
        lemma_alt_range_snoc(p, lo + 1, end, keep);
        if keep(p, lo) {
            assert(alt_range(p, lo, end + 1, keep) == seq![lo] + alt_range(p, lo + 1, end + 1, keep));
            if keep(p, end) {
                assert(alt_range(p, lo, end + 1, keep) =~= alt_range(p, lo, end, keep) + seq![end]);
            } else {
                assert(alt_range(p, lo, end + 1, keep) =~= alt_range(p, lo, end, keep));
            }
        } else {
            if keep(p, end) {
                assert(alt_range(p, lo, end + 1, keep) =~= alt_range(p, lo, end, keep) + seq![end]);
            } else {
                assert(alt_range(p, lo, end + 1, keep) =~= alt_range(p, lo, end, keep));
            }
        }
    }
}

/// Every kept altitude lies in the scanned range; every in-range altitude
/// that `keep` accepts is kept, in ascending order.
pub proof fn lemma_alt_range_membership(p: nat, lo: nat, end: nat, keep: spec_fn(nat, nat) -> bool)
    ensures
        forall|k: int| 0 <= k < alt_range(p, lo, end, keep).len() ==> {
            let a = #[trigger] alt_range(p, lo, end, keep)[k];
            lo <= a < end && keep(p, a)
        },
        forall|a: nat| lo <= a < end && keep(p, a) ==> alt_range(p, lo, end, keep).contains(a),
        forall|k1: int, k2: int|
            #![trigger alt_range(p, lo, end, keep)[k1], alt_range(p, lo, end, keep)[k2]]
            0 <= k1 < k2 < alt_range(p, lo, end, keep).len() ==> alt_range(p, lo, end, keep)[k1]
                < alt_range(p, lo, end, keep)[k2],
    decreases end - lo,
{
    if lo < end {
        lemma_alt_range_membership(p, lo + 1, end, keep);
        let tail = alt_range(p, lo + 1, end, keep);
        let s = alt_range(p, lo, end, keep);
        assert forall|a: nat| lo <= a < end && keep(p, a) implies s.contains(a) by {
            if a == lo && keep(p, lo) {
                assert(s[0] == a);
            } else {
                assert(lo + 1 <= a < end && keep(p, a));
                assert(tail.contains(a));
                let j = choose|j: int| 0 <= j < tail.len() && tail[j] == a;
                if keep(p, lo) {
                    assert(s == seq![lo] + tail);
                    assert(s[j + 1] == a);
                } else {
                    assert(s == tail);
                    assert(s[j] == a);
                }
            }
        }
    }
}

/// The scanned range bounds the list's length.
pub proof fn lemma_alt_range_len(p: nat, lo: nat, end: nat, keep: spec_fn(nat, nat) -> bool)
    requires
        lo <= end,
    ensures
        alt_range(p, lo, end, keep).len() <= end - lo,
    decreases end - lo,
{
    if lo < end {
        lemma_alt_range_len(p, lo + 1, end, keep);
        if keep(p, lo) {
            assert(alt_range(p, lo, end, keep) == seq![lo] + alt_range(p, lo + 1, end, keep));
        } else {
            assert(alt_range(p, lo, end, keep) == alt_range(p, lo + 1, end, keep));
        }
    }
}

/// Positions below 2^i have bit i clear.
pub proof fn lemma_bit_high_zero(p: nat, i: nat)
    requires
        p < pow2(i),
    ensures
        !bit_set(p, i),
{
    lemma_pow2_pos(i);
    lemma_basic_div(p as int, pow2(i) as int);
}

/// A set bit witnesses a lower bound on the position.
pub proof fn lemma_bit_low_bound(p: nat, i: nat)
    requires
        bit_set(p, i),
    ensures
        p >= pow2(i),
{
    lemma_pow2_pos(i);
    if p < pow2(i) {
        lemma_bit_high_zero(p, i);
    }
}

/// The highest populated altitude brackets the position between two powers
/// of two.
pub proof fn lemma_max_altitude_bounds(p: nat)
    ensures
        p < pow2(max_altitude_of(p) + 1),
        p >= 1 ==> p >= pow2(max_altitude_of(p)),
        p < pow2(64) ==> max_altitude_of(p) <= 63,
    decreases p,
{
    if p < 2 {
        lemma_pow2_unfold(1);
        assert(pow2(0) == 1) by {
            vstd::arithmetic::power2::lemma2_to64();
        }
    } else {
        lemma_max_altitude_bounds(p / 2);
        let m = max_altitude_of(p / 2);
        lemma_pow2_unfold(m + 2);
        lemma_pow2_unfold(m + 1);
        assert(p < pow2(m + 2)) by {
            assert(p / 2 < pow2(m + 1));
            assert(p <= 2 * (p / 2) + 1);
        }
        assert(p >= pow2(m + 1)) by {
            assert(p / 2 >= pow2(m));
            assert(p >= 2 * (p / 2));
        }
        if p < pow2(64) {
            if max_altitude_of(p) > 63 {
                assert(pow2(64) <= pow2(max_altitude_of(p))) by {
                    if 64 < max_altitude_of(p) {
                        lemma_pow2_strictly_increases(64, max_altitude_of(p));
                    }
                }
            }
        }
    }
}

/// Every bit below 64 of the largest position is set.
pub proof fn lemma_max_position_bits(i: u64)
    requires
        i < 64,
    ensures
        bit_set(u64::MAX as nat, i as nat),
{
    assert((0xffffffffffffffffu64 >> i) % 2 == 1) by (bit_vector)
        requires
            i < 64,
    ;
    lemma_u64_shr_is_div(0xffffffffffffffffu64, i);
}

/// Exec bit test, tied to the spec-level `bit_set`.
fn test_bit(p: u64, i: u8) -> (r: bool)
    requires
        i < 64,
    ensures
        r == bit_set(p as nat, i as nat),
{
    proof {
        lemma_u64_shr_is_div(p, i as u64);
    }
    (p >> (i as u64)) % 2 == 1
}

impl Position {
    /// The position of the first leaf.
    pub fn zero() -> (r: Self)
        ensures
            r.0 == 0,
    {
        Position(0)
    }

    /// Advance to the next leaf position.
    pub fn increment(&mut self)
        requires
            old(self).0 < u64::MAX,
        ensures
            final(self).0 == old(self).0 + 1,
    {
        self.0 = self.0 + 1;
    }

    /// The altitude of the highest populated ommer when this position holds
    /// the rightmost leaf.
    pub fn max_altitude(&self) -> (r: Altitude)
        ensures
            r.0 as nat == max_altitude_of(self.0 as nat),
            r.0 <= 63,
    {
        proof {
            vstd::arithmetic::power2::lemma2_to64();
            lemma_max_altitude_bounds(self.0 as nat);
        }
        let mut p = self.0;
        let mut a: u8 = 0;
        while p >= 2
            invariant
                max_altitude_of(self.0 as nat) == a as nat + max_altitude_of(p as nat),
                max_altitude_of(self.0 as nat) <= 63,
            decreases p,
        {
            proof {
                assert(max_altitude_of(p as nat) == 1 + max_altitude_of((p / 2) as nat));
            }
            p = p / 2;
            a = a + 1;
        }
        proof {
            assert(max_altitude_of(p as nat) == 0);
        }
        Altitude(a)
    }

    /// The altitudes of this position's populated ommers, ascending.
    pub fn ommer_altitudes(&self) -> (r: Vec<Altitude>)
        ensures
            alts_seq(r@) == ommer_altitudes_of(self.0 as nat),
    {
        let top = self.max_altitude();
        let mut r: Vec<Altitude> = Vec::new();
        let mut i: u8 = 0;
        proof {
            assert(alts_seq(r@) =~= alt_range(self.0 as nat, 0, 0, ommer_keep()));
        }
        while i <= top.0
            invariant
                top.0 as nat == max_altitude_of(self.0 as nat),
                top.0 <= 63,
                i <= top.0 + 1,
                alts_seq(r@) == alt_range(self.0 as nat, 0, i as nat, ommer_keep()),
            decreases top.0 + 1 - i,
        {
            proof {
                lemma_alt_range_snoc(self.0 as nat, 0, i as nat, ommer_keep());
            }
            if i != 0 && test_bit(self.0, i) {
                r.push(Altitude(i));
                proof {
                    assert(alts_seq(r@) =~= alt_range(self.0 as nat, 0, i as nat + 1, ommer_keep()));
                }
            } else {
                proof {
                    assert(alts_seq(r@) =~= alt_range(self.0 as nat, 0, i as nat + 1, ommer_keep()));
                }
            }
            i = i + 1;
        }
        r
    }

    /// How many sibling altitudes an authentication path anchored here still
    /// lacks, up to one altitude above the highest populated ommer.
    pub fn altitudes_required_count(&self) -> (r: usize)
        requires
            self.0 < pow2(63),
        ensures
            r as nat == altitudes_required_of(self.0 as nat).len(),
    {
        let alts = self.altitudes_required();
        alts.len()
    }

    /// The missing sibling altitudes themselves, ascending.
    pub fn altitudes_required(&self) -> (r: Vec<Altitude>)
        requires
            self.0 < pow2(63),
        ensures
            alts_seq(r@) == altitudes_required_of(self.0 as nat),
    {
        let top = self.max_altitude();
        proof {
            lemma_max_altitude_bounds(self.0 as nat);
            if top.0 as nat >= 63 {
                lemma_pow2_strictly_increases(63, top.0 as nat);
            }
        }
        let mut r: Vec<Altitude> = Vec::new();
        let mut i: u8 = 0;
        proof {
            assert(alts_seq(r@) =~= alt_range(self.0 as nat, 0, 0, required_keep()));
        }
        while i <= top.0 + 1
            invariant
                top.0 as nat == max_altitude_of(self.0 as nat),
                top.0 <= 62,
                i <= top.0 + 2,
                alts_seq(r@) == alt_range(self.0 as nat, 0, i as nat, required_keep()),
            decreases top.0 + 2 - i,
        {
            proof {
                lemma_alt_range_snoc(self.0 as nat, 0, i as nat, required_keep());
            }
            if self.0 == 0 || !test_bit(self.0, i) {
                r.push(Altitude(i));
                proof {
                    assert(alts_seq(r@) =~= alt_range(self.0 as nat, 0, i as nat + 1, required_keep()));
                }
            } else {
                proof {
                    assert(alts_seq(r@) =~= alt_range(self.0 as nat, 0, i as nat + 1, required_keep()));
                }
            }
            i = i + 1;
        }
        r
    }

    /// Every sibling altitude this anchor will ever need, up to altitude 64.
    pub fn all_altitudes_required(&self) -> (r: Vec<Altitude>)
        ensures
            alts_seq(r@) == all_altitudes_required_of(self.0 as nat),
    {
        let mut r: Vec<Altitude> = Vec::new();
        let mut i: u8 = 0;
        proof {
            assert(alts_seq(r@) =~= alt_range(self.0 as nat, 0, 0, required_keep()));
        }
        while i < 64
            invariant
                i <= 64,
                alts_seq(r@) == alt_range(self.0 as nat, 0, i as nat, required_keep()),
            decreases 64 - i,
        {
            proof {
                lemma_alt_range_snoc(self.0 as nat, 0, i as nat, required_keep());
            }
            if self.0 == 0 || !test_bit(self.0, i) {
                r.push(Altitude(i));
                proof {
                    assert(alts_seq(r@) =~= alt_range(self.0 as nat, 0, i as nat + 1, required_keep()));
                }
            } else {
                proof {
                    assert(alts_seq(r@) =~= alt_range(self.0 as nat, 0, i as nat + 1, required_keep()));
                }
            }
            i = i + 1;
        }
        r
    }

    /// Whether the subtree of height `to_altitude` whose rightmost leaf sits
    /// here is perfectly full.
    pub fn is_complete(&self, to_altitude: Altitude) -> (r: bool)
        requires
            to_altitude.0 <= 64,
        ensures
            r == complete_to(self.0 as nat, to_altitude.0 as nat),
    {
        let mut i: u8 = 0;
        while i < to_altitude.0
            invariant
                i <= to_altitude.0,
                to_altitude.0 <= 64,
                forall|j: nat| j < i as nat ==> bit_set(self.0 as nat, j),
            decreases to_altitude.0 - i,
        {
            if !test_bit(self.0, i) {
                return false;
            }
            i = i + 1;
        }
        true
    }
}

impl From<Position> for u64 {
    /// The raw index of the position.
    fn from(p: Position) -> (r: u64)
        ensures
            r == p.0,
    {
        p.0
    }
}

impl vstd::std_specs::convert::FromSpecImpl<Position> for u64 {
    open spec fn obeys_from_spec() -> bool {
        true
    }

    open spec fn from_spec(p: Position) -> u64 {
        p.0
    }
}

/// The altitudes of a list, as the mathematical sequence it denotes.
pub open spec fn alts_seq(s: Seq<Altitude>) -> Seq<nat> {
    s.map_values(|a: Altitude| a.0 as nat)
}

} // verus!
