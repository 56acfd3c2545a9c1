//! The two orders of a depth-first descent.

use vstd::prelude::*;
use crate::depth::lemma_depth_below_len;
use crate::link::LinkView;
use crate::tree::{children_ok, climbs, ids_ok, is_child};

verus! {

/// The links of the subtrees under `kids`, each link before its
/// descendants, the subtree of the last of `kids` first. `fuel` bounds the
/// depth to which the descent goes.
pub open spec fn descent(t: Seq<LinkView>, kids: Seq<u8>, fuel: nat) -> Seq<u8>
    decreases fuel, kids.len(),
{
    if fuel == 0 || kids.len() == 0 {
        Seq::empty()
    } else {
        seq![kids.last()] + descent(t, t[kids.last() as int].children, (fuel - 1) as nat)
            + descent(t, kids.drop_last(), fuel)
    }
}

/// The links of the subtrees under `kids`, each link after its descendants,
/// the subtree of the last of `kids` first. `fuel` bounds the depth to which
/// the descent goes.
pub open spec fn ascent(t: Seq<LinkView>, kids: Seq<u8>, fuel: nat) -> Seq<u8>
    decreases fuel, kids.len(),
{
    if fuel == 0 || kids.len() == 0 {
        Seq::empty()
    } else {
        ascent(t, t[kids.last() as int].children, (fuel - 1) as nat) + seq![kids.last()] + ascent(
            t,
            kids.drop_last(),
            fuel,
        )
    }
}

/// The order of the kinematic pass: every link but the root, depth first
/// from the root, among siblings the one attached last first. No tree is
/// deeper than it has links, so the descent reaches every link.
pub open spec fn kinematic_order(t: Seq<LinkView>) -> Seq<u8> {
    descent(t, t[0].children, t.len())
}

/// The order of the dynamic pass: every link after its descendants, among
/// siblings the one attached last first, the root last.
pub open spec fn dynamic_order(t: Seq<LinkView>) -> Seq<u8> {
    ascent(t, t[0].children, t.len()).push(0u8)
}

/// Every link of `kids` lies at depth `d`.
pub open spec fn at_depth(t: Seq<LinkView>, kids: Seq<u8>, d: nat) -> bool {
    forall|h: int| 0 <= h < kids.len() ==> climbs(t, #[trigger] kids[h] as int, d)
}

/// The children of a link lie one level below it.
pub(crate) proof fn lemma_children_at_depth(t: Seq<LinkView>, i: int, d: nat)
    requires
        ids_ok(t),
        children_ok(t),
        0 <= i < t.len(),
        climbs(t, i, d),
    ensures
        at_depth(t, t[i].children, d + 1),
{
    assert forall|h: int| 0 <= h < t[i].children.len() implies climbs(
        t,
        #[trigger] t[i].children[h] as int,
        d + 1,
    ) by {
        assert(is_child(t, t[i].children[h] as int, i));
    }
}

/// A descent under siblings that may go to the bottom of the tree does not
/// go further with more fuel.
pub(crate) proof fn lemma_descent_fuel(t: Seq<LinkView>, kids: Seq<u8>, d: nat, f: nat, g: nat)
    requires
        ids_ok(t),
        children_ok(t),
        at_depth(t, kids, d),
        forall|h: int| 0 <= h < kids.len() ==> #[trigger] kids[h] < t.len(),
        f + d >= t.len(),
        g + d >= t.len(),
    ensures
        descent(t, kids, f) == descent(t, kids, g),
    decreases f, kids.len(),
{
    if kids.len() > 0 {
        let c = kids.last();
        assert(climbs(t, kids[kids.len() - 1] as int, d));
        lemma_depth_below_len(t, c as int, d);
        lemma_children_at_depth(t, c as int, d);
        let below = t[c as int].children;
        assert forall|h: int| 0 <= h < below.len() implies #[trigger] below[h] < t.len() by {
            assert(is_child(t, t[c as int].children[h] as int, c as int));
        }
        lemma_descent_fuel(t, below, d + 1, (f - 1) as nat, (g - 1) as nat);
        assert forall|h: int| 0 <= h < kids.drop_last().len() implies climbs(
            t,
            #[trigger] kids.drop_last()[h] as int,
            d,
        ) && kids.drop_last()[h] < t.len() by {
            assert(kids.drop_last()[h] == kids[h]);
        }
        lemma_descent_fuel(t, kids.drop_last(), d, f, g);
    }
}

/// A descent under `a` followed by `b` takes the subtrees of `b` first.
pub(crate) proof fn lemma_descent_concat(t: Seq<LinkView>, a: Seq<u8>, b: Seq<u8>, f: nat)
    ensures
        descent(t, a + b, f) == descent(t, b, f) + descent(t, a, f),
    decreases b.len(),
{
    if f == 0 {
    } else if b.len() == 0 {
        assert(a + b =~= a);
        assert(descent(t, b, f) + descent(t, a, f) =~= descent(t, a, f));
    } else {
        assert((a + b).last() == b.last());
        assert((a + b).drop_last() =~= a + b.drop_last());
        lemma_descent_concat(t, a, b.drop_last(), f);
        let head = seq![b.last()] + descent(t, t[b.last() as int].children, (f - 1) as nat);
        assert(head + (descent(t, b.drop_last(), f) + descent(t, a, f)) =~= (head + descent(
            t,
            b.drop_last(),
            f,
        )) + descent(t, a, f));
    }
}

/// The same of the order in which links are finished.
pub(crate) proof fn lemma_ascent_fuel(t: Seq<LinkView>, kids: Seq<u8>, d: nat, f: nat, g: nat)
    requires
        ids_ok(t),
        children_ok(t),
        at_depth(t, kids, d),
        forall|h: int| 0 <= h < kids.len() ==> #[trigger] kids[h] < t.len(),
        f + d >= t.len(),
        g + d >= t.len(),
    ensures
        ascent(t, kids, f) == ascent(t, kids, g),
    decreases f, kids.len(),
{
    if kids.len() > 0 {
        let c = kids.last();
        assert(climbs(t, kids[kids.len() - 1] as int, d));
        lemma_depth_below_len(t, c as int, d);
        lemma_children_at_depth(t, c as int, d);
        let below = t[c as int].children;
        assert forall|h: int| 0 <= h < below.len() implies #[trigger] below[h] < t.len() by {
            assert(is_child(t, t[c as int].children[h] as int, c as int));
        }
        lemma_ascent_fuel(t, below, d + 1, (f - 1) as nat, (g - 1) as nat);
        assert forall|h: int| 0 <= h < kids.drop_last().len() implies climbs(
            t,
            #[trigger] kids.drop_last()[h] as int,
            d,
        ) && kids.drop_last()[h] < t.len() by {
            assert(kids.drop_last()[h] == kids[h]);
        }
        lemma_ascent_fuel(t, kids.drop_last(), d, f, g);
    }
}

} // verus!
