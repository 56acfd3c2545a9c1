//! How deep a link lies below the root.

use vstd::prelude::*;
use crate::counting::lemma_distinct_ids_bounded;
use crate::link::LinkView;
use crate::tree::{climbs, ids_ok};

verus! {

/// The link reached from `i` by following `parent` for `k` steps.
pub open spec fn ancestor(t: Seq<LinkView>, i: int, k: nat) -> int
    decreases k,
{
    if k == 0 {
        i
    } else {
        ancestor(t, t[i].parent as int, (k - 1) as nat)
    }
}

/// A link has one depth only.
pub proof fn lemma_depth_unique(t: Seq<LinkView>, i: int, d: nat, e: nat)
    requires
        climbs(t, i, d),
        climbs(t, i, e),
    ensures
        d == e,
    decreases d,
{
    if d > 0 && e > 0 {
        lemma_depth_unique(t, t[i].parent as int, (d - 1) as nat, (e - 1) as nat);
    }
}

/// The link `k` steps above a link of depth `d` has depth `d - k`.
proof fn lemma_ancestor_climbs(t: Seq<LinkView>, i: int, d: nat, k: nat)
    requires
        ids_ok(t),
        0 <= i < t.len(),
        climbs(t, i, d),
        k <= d,
    ensures
        0 <= ancestor(t, i, k) < t.len(),
        climbs(t, ancestor(t, i, k), (d - k) as nat),
    decreases k,
{
    if k > 0 {
        assert(climbs(t, t[i].parent as int, (d - 1) as nat));
        if d - 1 == 0 {
            assert(t[i].parent == 0);
        }
        lemma_ancestor_climbs(t, t[i].parent as int, (d - 1) as nat, (k - 1) as nat);
    }
}

/// No link lies as deep as the arena has links.
pub proof fn lemma_depth_below_len(t: Seq<LinkView>, i: int, d: nat)
    requires
        ids_ok(t),
        0 <= i < t.len(),
        climbs(t, i, d),
    ensures
        d < t.len(),
{
    let chain = Seq::new(d + 1, |k: int| ancestor(t, i, k as nat) as u8);
    assert forall|k: int| 0 <= k < chain.len() implies 0 <= #[trigger] chain[k] < t.len()
        && chain[k] as int == ancestor(t, i, k as nat) by {
        lemma_ancestor_climbs(t, i, d, k as nat);
    }
    assert forall|a: int, b: int| 0 <= a < chain.len() && 0 <= b < chain.len() && a != b implies chain[a]
        != chain[b] by {
        lemma_ancestor_climbs(t, i, d, a as nat);
        lemma_ancestor_climbs(t, i, d, b as nat);
        if chain[a] == chain[b] {
            lemma_depth_unique(t, ancestor(t, i, a as nat), (d - a) as nat, (d - b) as nat);
        }
    }
    lemma_distinct_ids_bounded(chain, 0, t.len() as int);
}

} // verus!
