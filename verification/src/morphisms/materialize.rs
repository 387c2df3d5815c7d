//! Materialization: the tokens behind the members of sketches.

use vstd::prelude::*;

use crate::hllset::HLLSet;
use crate::lut::LutIndex;
use crate::lut::TokenSet;
use crate::lut;

verus! {

/// The models of pairs of a sketch and an index.
pub open spec fn pair_models(pairs: Seq<(&HLLSet, &LutIndex)>) -> Seq<(Set<u32>, Set<(u32, Seq<u8>)>)> {
    pairs.map_values(|p: (&HLLSet, &LutIndex)| (p.0@, p.1@))
}

/// Every token that some pair's index holds behind a member of its sketch.
pub fn materialize(pairs: &[(&HLLSet, &LutIndex)]) -> (tokens: TokenSet)
    ensures
        tokens.wf(),
        tokens@ == lut::selected_all(pair_models(pairs@)),
{
    let mut out = TokenSet::new();
    let ghost all = pair_models(pairs@);
    let mut i: usize = 0;
    proof {
        assert(out@ =~= lut::selected_all(all.take(0)));
    }
    while i < pairs.len()
        invariant
            i <= pairs.len(),
            out.wf(),
            all == pair_models(pairs@),
            out@ == lut::selected_all(all.take(i as int)),
        decreases pairs.len() - i,
    {
        lut::select_into(&mut out, pairs[i].0, pairs[i].1);
        proof {
            let a = all.take(i as int);
            let b = all.take(i as int + 1);
            assert(all[i as int] == (pairs@[i as int].0@, pairs@[i as int].1@));
            assert forall|t: Seq<u8>| lut::selected_all(b).contains(t) == (lut::selected_all(a).contains(t) || lut::selected(
                all[i as int].0,
                all[i as int].1,
            ).contains(t)) by {
                if lut::selected_all(b).contains(t) {
                    let k = choose|k: int| 0 <= k < b.len() && lut::selected((#[trigger] b[k]).0, b[k].1).contains(t);
                    if k < i {
                        assert(a[k] == b[k]);
                    }
                }
                if lut::selected_all(a).contains(t) {
                    let k = choose|k: int| 0 <= k < a.len() && lut::selected((#[trigger] a[k]).0, a[k].1).contains(t);
                    assert(b[k] == a[k]);
                }
                assert(b[i as int] == all[i as int]);
            }
            assert(out@ =~= lut::selected_all(b));
        }
        i = i + 1;
    }
    proof {
        assert(all.take(i as int) =~= all);
    }
    out
}

/// More sketches and larger indexes select no fewer tokens.
pub proof fn selection_monotone(
    sketch: Set<u32>,
    lut: Set<(u32, Seq<u8>)>,
    wider: Set<u32>,
    larger: Set<(u32, Seq<u8>)>,
)
    requires
        sketch.subset_of(wider),
        lut.subset_of(larger),
    ensures
        lut::selected(sketch, lut).subset_of(lut::selected(wider, larger)),
{
    assert forall|t: Seq<u8>| lut::selected(sketch, lut).contains(t) implies lut::selected(wider, larger).contains(t) by {
        let b = choose|b: u32| #[trigger] sketch.contains(b) && lut.contains((b, t));
        assert(wider.contains(b));
    }
}

} // verus!
