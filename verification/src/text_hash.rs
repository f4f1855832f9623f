//! A readable reference hash over `String`: `combine` concatenates, the
//! absent leaf is `"_"`, and the empty root at altitude k is `"_"` repeated
//! 2^k times. Every digest spells out the leaves below it.

use vstd::prelude::*;
use vstd::arithmetic::power2::{pow2, lemma_pow2_unfold, lemma2_to64};
use vstd::string::StringExecFns;
use crate::position::Altitude;
use crate::hashing::Hashable;

verus! {

impl Hashable for String {
    open spec fn combined(lvl: nat, a: Seq<char>, b: Seq<char>) -> Seq<char> {
        a + b
    }

    open spec fn blank_leaf() -> Seq<char> {
        seq!['_']
    }

    open spec fn blank_root(lvl: nat) -> Seq<char> {
        Seq::new(pow2(lvl), |i: int| '_')
    }

    proof fn blank_root_law(lvl: nat) {
        lemma2_to64();
        assert(Self::blank_root(0) =~= Self::blank_leaf());
        if lvl > 0 {
            lemma_pow2_unfold(lvl);
            assert(Self::blank_root(lvl) =~= Self::blank_root((lvl - 1) as nat) + Self::blank_root(
                (lvl - 1) as nat,
            ));
        }
    }

    fn empty_leaf() -> (r: Self) {
        proof {
            reveal_strlit("_");
        }
        let r = String::from_str("_");
        proof {
            assert(r@ =~= seq!['_']);
        }
        r
    }

    fn empty_root(lvl: Altitude) -> (r: Self) {
        let mut r = <String as Hashable>::empty_leaf();
        proof {
            <String as Hashable>::blank_root_law(0);
        }
        let mut i: u8 = 0;
        while i < lvl.0
            invariant
                i <= lvl.0,
                lvl.0 <= 64,
                r@ == <String as Hashable>::blank_root(i as nat),
            decreases lvl.0 - i,
        {
            let copy = r.clone();
            r.append(copy.as_str());
            proof {
                lemma_pow2_unfold(i as nat + 1);
                assert(r@ =~= <String as Hashable>::blank_root(i as nat + 1));
            }
            i = i + 1;
        }
        r
    }

    fn combine(lvl: Altitude, a: &Self, b: &Self) -> (r: Self) {
        let mut r = a.clone();
        r.append(b.as_str());
        r
    }

    fn duplicate(&self) -> (r: Self) {
        self.clone()
    }

    fn eq_value(&self, other: &Self) -> (r: bool) {
        self.eq(other)
    }
}

} // verus!
