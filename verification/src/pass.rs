//! What the two passes leave behind.
//!
//! The tree decides which link is computed from which; what is computed is
//! the caller's. A body is whatever the caller keeps per link: its physical
//! parameters, its joint state and the state computed for it.

use vstd::prelude::*;
use crate::link::LinkView;

verus! {

/// The result of the kinematic pass.
///
/// `after` holds one body per link. The root's is what `ground` makes of the
/// root's body as it was; every other link's is what `joint` makes of its
/// parent's body as it is now and of its own as it was.
pub open spec fn kinematics_hold<B, G: Fn(&B) -> B, J: Fn(&B, &B) -> B>(
    t: Seq<LinkView>,
    before: Seq<B>,
    after: Seq<B>,
    ground: G,
    joint: J,
) -> bool {
    &&& before.len() == t.len()
    &&& after.len() == t.len()
    &&& ground.ensures((&before[0],), after[0])
    &&& forall|i: int|
        0 < i < t.len() ==> joint.ensures(
            (&after[t[i].parent as int], &before[i]),
            #[trigger] after[i],
        )
}

/// Child number `h` of `kids` hands its wrench up: `transmit` makes
/// `sums[h + 1]` of the sum so far, `sums[h]`, and of the child's body and
/// wrench.
pub open spec fn sent_up<B, W, X: Fn(W, &B, &W) -> W>(
    transmit: X,
    bodies: Seq<B>,
    wrench: Seq<W>,
    kids: Seq<u8>,
    sums: Seq<W>,
    h: int,
) -> bool {
    transmit.ensures((sums[h], &bodies[kids[h] as int], &wrench[kids[h] as int]), sums[h + 1])
}

/// `sums` are the partial sums of a link that gathers the wrenches of
/// `kids` one after the other, the first of `kids` first.
pub open spec fn gathers<B, W, X: Fn(W, &B, &W) -> W>(
    transmit: X,
    bodies: Seq<B>,
    wrench: Seq<W>,
    kids: Seq<u8>,
    sums: Seq<W>,
) -> bool {
    &&& sums.len() == kids.len() + 1
    &&& forall|h: int|
        0 <= h < kids.len() ==> #[trigger] sent_up(transmit, bodies, wrench, kids, sums, h)
}

/// The wrench of link `i` is its own inertial wrench, as `inertial` makes it
/// of the link's body, with what its children send added in the order in
/// which they were attached.
pub open spec fn link_settled<B, W, I: Fn(&B) -> W, X: Fn(W, &B, &W) -> W>(
    t: Seq<LinkView>,
    bodies: Seq<B>,
    wrench: Seq<W>,
    i: int,
    inertial: I,
    transmit: X,
) -> bool {
    exists|sums: Seq<W>|
        {
            &&& #[trigger] gathers(transmit, bodies, wrench, t[i].children, sums)
            &&& inertial.ensures((&bodies[i],), sums[0])
            &&& sums.last() == wrench[i]
        }
}

/// How many torques the dynamic pass returns for an arena of `n` links: one
/// per link, but none for a root that stands alone.
pub open spec fn torque_count(n: nat) -> nat {
    if n == 1 {
        0
    } else {
        n
    }
}

/// The result of the dynamic pass.
///
/// `wrench` holds the net wrench through the joint of every link, and
/// `torque[i]` is what `project` makes of the body and the wrench of link
/// `i`.
pub open spec fn dynamics_hold<
    B,
    W,
    T,
    I: Fn(&B) -> W,
    X: Fn(W, &B, &W) -> W,
    P: Fn(&B, &W) -> T,
>(
    t: Seq<LinkView>,
    bodies: Seq<B>,
    wrench: Seq<W>,
    torque: Seq<T>,
    inertial: I,
    transmit: X,
    project: P,
) -> bool {
    &&& bodies.len() == t.len()
    &&& wrench.len() == t.len()
    &&& torque.len() == torque_count(t.len())
    &&& forall|i: int|
        0 <= i < t.len() ==> #[trigger] link_settled(t, bodies, wrench, i, inertial, transmit)
    &&& forall|i: int|
        0 <= i < torque.len() ==> project.ensures((&bodies[i], &wrench[i]), #[trigger] torque[i])
}

/// `torque` is what the dynamic pass may return: the torques that go with
/// some assignment of wrenches that the pass could have gathered.
pub open spec fn torques_hold<
    B,
    W,
    T,
    I: Fn(&B) -> W,
    X: Fn(W, &B, &W) -> W,
    P: Fn(&B, &W) -> T,
>(
    t: Seq<LinkView>,
    bodies: Seq<B>,
    torque: Seq<T>,
    inertial: I,
    transmit: X,
    project: P,
) -> bool {
    exists|wrench: Seq<W>| #[trigger]
        dynamics_hold(t, bodies, wrench, torque, inertial, transmit, project)
}

/// What the children hand up depends on their own wrenches only.
pub proof fn lemma_gathers_frame<B, W, X: Fn(W, &B, &W) -> W>(
    transmit: X,
    bodies: Seq<B>,
    wrench: Seq<W>,
    other: Seq<W>,
    kids: Seq<u8>,
    sums: Seq<W>,
)
    requires
        gathers(transmit, bodies, wrench, kids, sums),
        forall|h: int| 0 <= h < kids.len() ==> wrench[#[trigger] kids[h] as int] == other[kids[h] as int],
    ensures
        gathers(transmit, bodies, other, kids, sums),
{
    assert forall|h: int| 0 <= h < kids.len() implies #[trigger] sent_up(
        transmit,
        bodies,
        other,
        kids,
        sums,
        h,
    ) by {
        assert(sent_up(transmit, bodies, wrench, kids, sums, h));
        assert(wrench[kids[h] as int] == other[kids[h] as int]);
    }
}

} // verus!
