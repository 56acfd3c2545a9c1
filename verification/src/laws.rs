//! What holds of the tree and of the passes whatever the mechanism.

use vstd::prelude::*;
use vstd::seq_lib::{commutative_foldl, lemma_fold_left_permutation};
use crate::depth::lemma_depth_below_len;
use crate::link::LinkView;
use crate::pass::{dynamics_hold, gathers, kinematics_hold, link_settled, sent_up, torques_hold};
use crate::climb::{first_stack, lemma_climb_finishes, lemma_climb_start, lemma_unfinished_push, unfinished};
use crate::order::{descent, dynamic_order, kinematic_order, lemma_children_at_depth};
use crate::tree::{
    attach, can_attach, climbs, is_backward_order, is_child, is_forward_order, is_listed, is_tree,
    reaches_root,
};
use crate::walk::{lemma_walk_finishes, lemma_walk_start};

verus! {

/// Two arenas of the same links with the same parents, whose child lists
/// hold the same ids in a possibly different order.
pub open spec fn same_joints(a: Seq<LinkView>, b: Seq<LinkView>) -> bool {
    &&& a.len() == b.len()
    &&& forall|i: int|
        0 <= i < a.len() ==> {
            &&& (#[trigger] a[i]).id == b[i].id
            &&& a[i].parent == b[i].parent
            &&& a[i].children.to_multiset() == b[i].children.to_multiset()
        }
}

/// `ground` has at most one result for each root.
pub open spec fn ground_is_function<B, G: Fn(&B) -> B>(ground: G) -> bool {
    forall|root: &B, x: B, y: B|
        ground.ensures((root,), x) && ground.ensures((root,), y) ==> x == y
}

/// `joint` has at most one result for each parent and link.
pub open spec fn joint_is_function<B, J: Fn(&B, &B) -> B>(joint: J) -> bool {
    forall|parent: &B, link: &B, x: B, y: B|
        joint.ensures((parent, link), x) && joint.ensures((parent, link), y) ==> x == y
}

proof fn lemma_climbs_by_parents(a: Seq<LinkView>, b: Seq<LinkView>, i: int, d: nat)
    requires
        a.len() == b.len(),
        forall|j: int| 0 <= j < a.len() ==> (#[trigger] a[j]).parent == b[j].parent,
        climbs(a, i, d),
    ensures
        climbs(b, i, d),
    decreases d,
{
    if d > 0 {
        lemma_climbs_by_parents(a, b, a[i].parent as int, (d - 1) as nat);
    }
}

/// An arena with one more link, attached to a link that it holds, is a tree
/// if it was one before; and the root alone is a tree.
pub proof fn lemma_attach_keeps_tree(t: Seq<LinkView>, parent: u8)
    requires
        can_attach(t, parent),
        t.len() == 0 || is_tree(t),
    ensures
        is_tree(attach(t, parent)),
{
    let n = t.len() as int;
    let t2 = attach(t, parent);
    if n == 0 {
        assert(climbs(t2, 0, 0));
        assert forall|i: int| 0 <= i < t2.len() implies #[trigger] reaches_root(t2, i) by {}
    } else {
        let id = n as u8;
        let kids = t[parent as int].children;
        assert(t2.len() == n + 1);
        assert forall|i: int| 0 <= i < n implies (#[trigger] t2[i]).id == t[i].id && t2[i].parent
            == t[i].parent by {}
        assert forall|h: int| 0 <= h < kids.len() implies #[trigger] kids[h] != id by {
            assert(is_child(t, t[parent as int].children[h] as int, parent as int));
        }
        assert forall|p: int, k: int|
            0 <= p < t2.len() && 0 <= k < t2[p].children.len() implies is_child(
            t2,
            #[trigger] t2[p].children[k] as int,
            p,
        ) by {
            if p == parent && k == kids.len() {
            } else {
                assert(t2[p].children[k] == t[p].children[k]);
                assert(is_child(t, t[p].children[k] as int, p));
            }
        }
        assert forall|p: int| 0 <= p < t2.len() implies (#[trigger] t2[p]).children.no_duplicates() by {
            if p < n {
                assert(t[p].children.no_duplicates());
            }
        }
        assert forall|i: int| 0 < i < t2.len() implies #[trigger] is_listed(t2, i) by {
            if i < n {
                assert(is_listed(t, i));
                let p = t[i].parent;
                let h = choose|h: int| 0 <= h < t[p as int].children.len() && t[p as int].children[h]
                    == i as u8;
                assert(t2[p as int].children[h] == i as u8);
            } else {
                assert(t2[parent as int].children[kids.len() as int] == id);
            }
        }
        assert forall|i: int| 0 <= i < t2.len() implies #[trigger] reaches_root(t2, i) by {
            let j = if i < n {
                i
            } else {
                parent as int
            };
            assert(reaches_root(t, j));
            let d = choose|d: nat| climbs(t, j, d);
            lemma_climbs_by_parents(t, t2.take(n), j, d);
            lemma_climbs_within(t2, n, j, d);
            if i == n {
                assert(climbs(t2, i, d + 1));
            }
        }
    }
}

/// A climb within the first `n` links of an arena is a climb in the arena.
proof fn lemma_climbs_within(t: Seq<LinkView>, n: int, i: int, d: nat)
    requires
        0 <= n <= t.len(),
        climbs(t.take(n), i, d),
    ensures
        climbs(t, i, d),
    decreases d,
{
    if d > 0 {
        lemma_climbs_within(t, n, t[i].parent as int, (d - 1) as nat);
    }
}

/// The kinematic order of a tree lists every link but the root once, and
/// none before its parent.
pub proof fn lemma_kinematic_order_is_valid(t: Seq<LinkView>)
    requires
        is_tree(t),
    ensures
        is_forward_order(t, kinematic_order(t)),
{
    lemma_walk_start(t);
    lemma_walk_finishes(t, Seq::<u8>::empty(), t[0].children);
    assert(Seq::<u8>::empty() + descent(t, t[0].children, t.len()) =~= kinematic_order(t));
}

/// The dynamic order of a tree lists every link once, and none before any
/// of its children.
pub proof fn lemma_dynamic_order_is_valid(t: Seq<LinkView>)
    requires
        is_tree(t),
    ensures
        is_backward_order(t, dynamic_order(t)),
{
    let n = t.len();
    let seen = Seq::new(n, |x: int| x == 0);
    let order = Seq::<u8>::empty();
    lemma_climb_start(t, seen);
    lemma_climb_finishes(t, order, first_stack(t), seen, seq![0u8]);
    assert(climbs(t, 0, 0));
    lemma_children_at_depth(t, 0, 0);
    assert forall|h: int| 0 <= h < t[0].children.len() implies #[trigger] t[0].children[h]
        < t.len() && !seen[t[0].children[h] as int] by {
        assert(is_child(t, t[0].children[h] as int, 0));
    }
    lemma_unfinished_push(t, seq![0u8], t[0].children, seen, 1);
    assert(seq![0u8].drop_last() =~= Seq::<u8>::empty());
    assert(seq![0u8].last() == 0u8);
    assert(unfinished(t, Seq::<u8>::empty(), seen, n) =~= Seq::<u8>::empty());
    assert(unfinished(t, seq![0u8], seen, n) =~= seq![0u8]);
    assert(order + unfinished(t, first_stack(t), seen, n) =~= dynamic_order(t));
}

/// Sibling order and the tree: an arena stays a tree when the ids within
/// its child lists change places.
pub proof fn lemma_sibling_order_keeps_tree(a: Seq<LinkView>, b: Seq<LinkView>)
    requires
        same_joints(a, b),
        is_tree(a),
    ensures
        is_tree(b),
{
    broadcast use vstd::seq_lib::group_to_multiset_ensures;

    assert forall|i: int| 0 <= i < b.len() implies (#[trigger] b[i]).id == i && (i > 0
        ==> b[i].parent < b.len()) by {
        assert(a[i].id == b[i].id);
    }
    assert forall|p: int, k: int| 0 <= p < b.len() && 0 <= k < b[p].children.len() implies is_child(
        b,
        #[trigger] b[p].children[k] as int,
        p,
    ) by {
        let c = b[p].children[k];
        assert(a[p].id == b[p].id);
        assert(b[p].children.contains(c));
        assert(b[p].children.to_multiset().count(c) > 0);
        assert(a[p].children.contains(c));
        let h = choose|h: int| 0 <= h < a[p].children.len() && a[p].children[h] == c;
        assert(is_child(a, a[p].children[h] as int, p));
        assert(a[c as int].parent == b[c as int].parent);
    }
    assert forall|p: int| 0 <= p < b.len() implies (#[trigger] b[p]).children.no_duplicates() by {
        assert(a[p].id == b[p].id);
        assert(a[p].children.no_duplicates());
        a[p].children.lemma_multiset_has_no_duplicates();
        b[p].children.lemma_multiset_has_no_duplicates_conv();
    }
    assert forall|i: int| 0 < i < b.len() implies #[trigger] is_listed(b, i) by {
        assert(is_listed(a, i));
        assert(a[i].parent == b[i].parent);
        let p = a[i].parent as int;
        assert(a[p].id == b[p].id);
        assert(a[p].children.to_multiset().count(i as u8) > 0);
        assert(b[p].children.to_multiset().count(i as u8) > 0);
    }
    assert forall|i: int| 0 <= i < b.len() implies #[trigger] reaches_root(b, i) by {
        assert(reaches_root(a, i));
        let d = choose|d: nat| climbs(a, i, d);
        lemma_climbs_by_parents(a, b, i, d);
    }
}

/// Sibling order and the kinematic pass: what the pass may leave behind on
/// an arena it may leave behind on every arena that differs from it in the
/// order of siblings alone, and nothing else.
pub proof fn lemma_kinematics_ignore_sibling_order<B, G: Fn(&B) -> B, J: Fn(&B, &B) -> B>(
    a: Seq<LinkView>,
    b: Seq<LinkView>,
    before: Seq<B>,
    after: Seq<B>,
    ground: G,
    joint: J,
)
    requires
        same_joints(a, b),
    ensures
        kinematics_hold(a, before, after, ground, joint) <==> kinematics_hold(
            b,
            before,
            after,
            ground,
            joint,
        ),
{
    if kinematics_hold(a, before, after, ground, joint) {
        assert forall|i: int| 0 < i < b.len() implies joint.ensures(
            (&after[b[i].parent as int], &before[i]),
            #[trigger] after[i],
        ) by {
            assert(a[i].parent == b[i].parent);
        }
    }
    if kinematics_hold(b, before, after, ground, joint) {
        assert forall|i: int| 0 < i < a.len() implies joint.ensures(
            (&after[a[i].parent as int], &before[i]),
            #[trigger] after[i],
        ) by {
            assert(a[i].parent == b[i].parent);
        }
    }
}

proof fn lemma_same_body<B, G: Fn(&B) -> B, J: Fn(&B, &B) -> B>(
    t: Seq<LinkView>,
    before: Seq<B>,
    x: Seq<B>,
    y: Seq<B>,
    ground: G,
    joint: J,
    i: int,
    d: nat,
)
    requires
        kinematics_hold(t, before, x, ground, joint),
        kinematics_hold(t, before, y, ground, joint),
        ground_is_function(ground),
        joint_is_function(joint),
        0 <= i < t.len(),
        climbs(t, i, d),
    ensures
        x[i] == y[i],
    decreases d,
{
    if d > 0 {
        let p = t[i].parent as int;
        assert(climbs(t, p, (d - 1) as nat));
        assert(0 <= p < t.len());
        lemma_same_body(t, before, x, y, ground, joint, p, (d - 1) as nat);
        assert(joint.ensures((&x[p], &before[i]), x[i]));
        assert(joint.ensures((&y[p], &before[i]), y[i]));
    }
}

/// Order of visits and the kinematic pass: where `ground` and `joint` are
/// functions, the bodies that the pass leaves behind are determined by the
/// tree and by the bodies it found, whatever the order in which the links
/// were visited.
pub proof fn lemma_kinematics_single_result<B, G: Fn(&B) -> B, J: Fn(&B, &B) -> B>(
    t: Seq<LinkView>,
    before: Seq<B>,
    x: Seq<B>,
    y: Seq<B>,
    ground: G,
    joint: J,
)
    requires
        is_tree(t),
        kinematics_hold(t, before, x, ground, joint),
        kinematics_hold(t, before, y, ground, joint),
        ground_is_function(ground),
        joint_is_function(joint),
    ensures
        x == y,
{
    assert forall|i: int| 0 <= i < t.len() implies x[i] == y[i] by {
        assert(reaches_root(t, i));
        let d = choose|d: nat| climbs(t, i, d);
        lemma_same_body(t, before, x, y, ground, joint, i, d);
    }
    assert(x =~= y);
}

/// The root after the kinematic pass: whatever `ground` promises of its
/// result holds of the root's body, whatever the tree and whatever the
/// bodies were.
pub proof fn lemma_root_is_grounded<B, G: Fn(&B) -> B, J: Fn(&B, &B) -> B>(
    t: Seq<LinkView>,
    before: Seq<B>,
    after: Seq<B>,
    ground: G,
    joint: J,
    at_rest: spec_fn(B) -> bool,
)
    requires
        kinematics_hold(t, before, after, ground, joint),
        forall|r: B| ground.ensures((&before[0],), r) ==> at_rest(r),
    ensures
        at_rest(after[0]),
{
}

proof fn lemma_carried_to<B, G: Fn(&B) -> B, J: Fn(&B, &B) -> B>(
    t: Seq<LinkView>,
    before: Seq<B>,
    after: Seq<B>,
    ground: G,
    joint: J,
    holds: spec_fn(int, B) -> bool,
    i: int,
    d: nat,
)
    requires
        kinematics_hold(t, before, after, ground, joint),
        forall|r: B| ground.ensures((&before[0],), r) ==> holds(0, r),
        forall|k: int, above: &B, r: B|
            0 < k < t.len() && holds(t[k].parent as int, *above) && #[trigger] joint.ensures(
                (above, &before[k]),
                r,
            ) ==> holds(k, r),
        0 <= i < t.len(),
        climbs(t, i, d),
    ensures
        holds(i, after[i]),
    decreases d,
{
    if d > 0 {
        let p = t[i].parent as int;
        assert(climbs(t, p, (d - 1) as nat));
        assert(0 <= p < t.len());
        lemma_carried_to(t, before, after, ground, joint, holds, p, (d - 1) as nat);
        assert(joint.ensures((&after[p], &before[i]), after[i]));
    }
}

/// Induction along the kinematic pass: what `ground` establishes of the
/// root, and `joint` carries from every parent to its child, holds of every
/// link of a tree after the pass.
pub proof fn lemma_kinematics_carry<B, G: Fn(&B) -> B, J: Fn(&B, &B) -> B>(
    t: Seq<LinkView>,
    before: Seq<B>,
    after: Seq<B>,
    ground: G,
    joint: J,
    holds: spec_fn(int, B) -> bool,
)
    requires
        is_tree(t),
        kinematics_hold(t, before, after, ground, joint),
        forall|r: B| ground.ensures((&before[0],), r) ==> holds(0, r),
        forall|k: int, above: &B, r: B|
            0 < k < t.len() && holds(t[k].parent as int, *above) && #[trigger] joint.ensures(
                (above, &before[k]),
                r,
            ) ==> holds(k, r),
    ensures
        forall|i: int| 0 <= i < t.len() ==> holds(i, #[trigger] after[i]),
{
    assert forall|i: int| 0 <= i < t.len() implies holds(i, #[trigger] after[i]) by {
        assert(reaches_root(t, i));
        let d = choose|d: nat| climbs(t, i, d);
        lemma_carried_to(t, before, after, ground, joint, holds, i, d);
    }
}

proof fn lemma_gathered_at<B, W, I: Fn(&B) -> W, X: Fn(W, &B, &W) -> W>(
    t: Seq<LinkView>,
    bodies: Seq<B>,
    wrench: Seq<W>,
    inertial: I,
    transmit: X,
    holds: spec_fn(int, W) -> bool,
    i: int,
    d: nat,
)
    requires
        is_tree(t),
        wrench.len() == t.len(),
        forall|j: int| 0 <= j < t.len() ==> #[trigger] link_settled(t, bodies, wrench, j, inertial, transmit),
        forall|k: int, w: W|
            0 <= k < t.len() && #[trigger] inertial.ensures((&bodies[k],), w) ==> holds(k, w),
        forall|k: int, c: int, sum: W, sent: &W, r: W|
            #![trigger holds(k, sum), transmit.ensures((sum, &bodies[c], sent), r)]
            is_child(t, c, k) && holds(k, sum) && holds(c, *sent) && transmit.ensures(
                (sum, &bodies[c], sent),
                r,
            ) ==> holds(k, r),
        0 <= i < t.len(),
        climbs(t, i, d),
    ensures
        holds(i, wrench[i]),
    decreases t.len() - d,
{
    lemma_depth_below_len(t, i, d);
    let kids = t[i].children;
    assert(link_settled(t, bodies, wrench, i, inertial, transmit));
    let sums = choose|sums: Seq<W>|
        {
            &&& #[trigger] gathers(transmit, bodies, wrench, t[i].children, sums)
            &&& inertial.ensures((&bodies[i],), sums[0])
            &&& sums.last() == wrench[i]
        };
    assert forall|g: int| 0 <= g < kids.len() implies is_child(t, #[trigger] kids[g] as int, i)
        && holds(kids[g] as int, wrench[kids[g] as int]) by {
        assert(is_child(t, t[i].children[g] as int, i));
        lemma_gathered_at(t, bodies, wrench, inertial, transmit, holds, kids[g] as int, d + 1);
    }
    lemma_sums_hold(t, bodies, wrench, transmit, holds, i, sums, kids.len() as int);
}

proof fn lemma_sums_hold<B, W, X: Fn(W, &B, &W) -> W>(
    t: Seq<LinkView>,
    bodies: Seq<B>,
    wrench: Seq<W>,
    transmit: X,
    holds: spec_fn(int, W) -> bool,
    i: int,
    sums: Seq<W>,
    h: int,
)
    requires
        gathers(transmit, bodies, wrench, t[i].children, sums),
        holds(i, sums[0]),
        forall|g: int|
            0 <= g < t[i].children.len() ==> is_child(t, #[trigger] t[i].children[g] as int, i)
                && holds(t[i].children[g] as int, wrench[t[i].children[g] as int]),
        forall|k: int, c: int, sum: W, sent: &W, r: W|
            #![trigger holds(k, sum), transmit.ensures((sum, &bodies[c], sent), r)]
            is_child(t, c, k) && holds(k, sum) && holds(c, *sent) && transmit.ensures(
                (sum, &bodies[c], sent),
                r,
            ) ==> holds(k, r),
        0 <= h <= t[i].children.len(),
    ensures
        holds(i, sums[h]),
    decreases h,
{
    if h > 0 {
        lemma_sums_hold(t, bodies, wrench, transmit, holds, i, sums, h - 1);
        assert(sent_up(transmit, bodies, wrench, t[i].children, sums, h - 1));
        let c = t[i].children[h - 1];
        assert(is_child(t, c as int, i));
        assert(holds(c as int, wrench[c as int]));
    }
}

/// Induction along the dynamic pass: what `inertial` establishes of every
/// link's own wrench, and `transmit` keeps when a child that has it hands
/// its wrench to a parent that has it, holds of the wrench of every link of
/// a tree after the pass.
pub proof fn lemma_dynamics_carry<B, W, I: Fn(&B) -> W, X: Fn(W, &B, &W) -> W>(
    t: Seq<LinkView>,
    bodies: Seq<B>,
    wrench: Seq<W>,
    inertial: I,
    transmit: X,
    holds: spec_fn(int, W) -> bool,
)
    requires
        is_tree(t),
        wrench.len() == t.len(),
        forall|j: int| 0 <= j < t.len() ==> #[trigger] link_settled(t, bodies, wrench, j, inertial, transmit),
        forall|k: int, w: W|
            0 <= k < t.len() && #[trigger] inertial.ensures((&bodies[k],), w) ==> holds(k, w),
        forall|k: int, c: int, sum: W, sent: &W, r: W|
            #![trigger holds(k, sum), transmit.ensures((sum, &bodies[c], sent), r)]
            is_child(t, c, k) && holds(k, sum) && holds(c, *sent) && transmit.ensures(
                (sum, &bodies[c], sent),
                r,
            ) ==> holds(k, r),
    ensures
        forall|i: int| 0 <= i < t.len() ==> holds(i, #[trigger] wrench[i]),
{
    assert forall|i: int| 0 <= i < t.len() implies holds(i, #[trigger] wrench[i]) by {
        assert(reaches_root(t, i));
        let d = choose|d: nat| climbs(t, i, d);
        lemma_gathered_at(t, bodies, wrench, inertial, transmit, holds, i, d);
    }
}

/// `inertial` has at most one result for each link.
pub open spec fn inertial_is_function<B, W, I: Fn(&B) -> W>(inertial: I) -> bool {
    forall|link: &B, x: W, y: W|
        inertial.ensures((link,), x) && inertial.ensures((link,), y) ==> x == y
}

/// `project` has at most one result for each link and wrench.
pub open spec fn project_is_function<B, W, T, P: Fn(&B, &W) -> T>(project: P) -> bool {
    forall|link: &B, net: &W, x: T, y: T|
        project.ensures((link, net), x) && project.ensures((link, net), y) ==> x == y
}

/// `transmit` has a result for this sum, child and wrench.
pub open spec fn has_result<B, W, X: Fn(W, &B, &W) -> W>(
    transmit: X,
    sum: W,
    child: &B,
    sent: &W,
) -> bool {
    exists|r: W| transmit.ensures((sum, child, sent), r)
}

/// `transmit` has exactly one result for each sum, child and wrench.
pub open spec fn transmit_is_function<B, W, X: Fn(W, &B, &W) -> W>(transmit: X) -> bool {
    &&& forall|sum: W, child: &B, sent: &W| #[trigger] has_result(transmit, sum, child, sent)
    &&& forall|sum: W, child: &B, sent: &W, x: W, y: W|
        transmit.ensures((sum, child, sent), x) && transmit.ensures((sum, child, sent), y) ==> x
            == y
}

/// What two children add to a sum does not depend on which of them is
/// heard first.
pub open spec fn transmit_commutes<B, W, X: Fn(W, &B, &W) -> W>(transmit: X) -> bool {
    forall|sum: W, c1: &B, w1: &W, c2: &B, w2: &W, m1: W, r1: W, m2: W, r2: W|
        transmit.ensures((sum, c1, w1), m1) && transmit.ensures((m1, c2, w2), r1)
            && transmit.ensures((sum, c2, w2), m2) && transmit.ensures((m2, c1, w1), r2) ==> r1
            == r2
}

/// What `transmit` makes of a sum and of the child `c`.
pub open spec fn handed_up<B, W, X: Fn(W, &B, &W) -> W>(
    transmit: X,
    bodies: Seq<B>,
    wrench: Seq<W>,
    sum: W,
    c: u8,
) -> W {
    choose|r: W| transmit.ensures((sum, &bodies[c as int], &wrench[c as int]), r)
}

/// The partial sums of a link are the sums of a fold over its children.
proof fn lemma_gathers_is_fold<B, W, X: Fn(W, &B, &W) -> W>(
    transmit: X,
    bodies: Seq<B>,
    wrench: Seq<W>,
    other: Seq<W>,
    kids: Seq<u8>,
    sums: Seq<W>,
    h: int,
)
    requires
        transmit_is_function(transmit),
        gathers(transmit, bodies, other, kids, sums),
        forall|g: int| 0 <= g < kids.len() ==> wrench[#[trigger] kids[g] as int] == other[kids[g] as int],
        0 <= h <= kids.len(),
    ensures
        sums[h] == kids.take(h).fold_left(
            sums[0],
            |sum: W, c: u8| handed_up(transmit, bodies, wrench, sum, c),
        ),
    decreases h,
{
    let f = |sum: W, c: u8| handed_up(transmit, bodies, wrench, sum, c);
    if h > 0 {
        lemma_gathers_is_fold(transmit, bodies, wrench, other, kids, sums, h - 1);
        assert(kids.take(h).drop_last() =~= kids.take(h - 1));
        assert(kids.take(h).last() == kids[h - 1]);
        assert(sent_up(transmit, bodies, other, kids, sums, h - 1));
        assert(wrench[kids[h - 1] as int] == other[kids[h - 1] as int]);
        assert(f(sums[h - 1], kids[h - 1]) == sums[h]);
    }
}

/// The wrench of a link is the same on both arenas, given that the
/// wrenches of all links below it are.
proof fn lemma_same_wrench<B, W, I: Fn(&B) -> W, X: Fn(W, &B, &W) -> W>(
    a: Seq<LinkView>,
    b: Seq<LinkView>,
    bodies: Seq<B>,
    wa: Seq<W>,
    wb: Seq<W>,
    inertial: I,
    transmit: X,
    i: int,
    d: nat,
)
    requires
        is_tree(a),
        same_joints(a, b),
        wa.len() == a.len(),
        wb.len() == a.len(),
        forall|j: int| 0 <= j < a.len() ==> #[trigger] link_settled(a, bodies, wa, j, inertial, transmit),
        forall|j: int| 0 <= j < a.len() ==> #[trigger] link_settled(b, bodies, wb, j, inertial, transmit),
        inertial_is_function(inertial),
        transmit_is_function(transmit),
        transmit_commutes(transmit),
        0 <= i < a.len(),
        climbs(a, i, d),
    ensures
        wa[i] == wb[i],
    decreases a.len() - d,
{
    broadcast use vstd::seq_lib::group_to_multiset_ensures;

    lemma_depth_below_len(a, i, d);
    let ka = a[i].children;
    let kb = b[i].children;
    assert(a[i].id == b[i].id);
    assert(link_settled(a, bodies, wa, i, inertial, transmit));
    assert(link_settled(b, bodies, wb, i, inertial, transmit));
    let sa = choose|sums: Seq<W>|
        {
            &&& #[trigger] gathers(transmit, bodies, wa, a[i].children, sums)
            &&& inertial.ensures((&bodies[i],), sums[0])
            &&& sums.last() == wa[i]
        };
    let sb = choose|sums: Seq<W>|
        {
            &&& #[trigger] gathers(transmit, bodies, wb, b[i].children, sums)
            &&& inertial.ensures((&bodies[i],), sums[0])
            &&& sums.last() == wb[i]
        };
    assert forall|g: int| 0 <= g < ka.len() implies 0 < #[trigger] ka[g] < a.len() && wa[ka[g] as int]
        == wb[ka[g] as int] by {
        assert(is_child(a, a[i].children[g] as int, i));
        lemma_same_wrench(a, b, bodies, wa, wb, inertial, transmit, ka[g] as int, d + 1);
    }
    assert forall|g: int| 0 <= g < kb.len() implies wa[#[trigger] kb[g] as int] == wb[kb[g] as int] by {
        assert(kb.contains(kb[g]));
        assert(kb.to_multiset().count(kb[g]) > 0);
        assert(ka.contains(kb[g]));
        let h = choose|h: int| 0 <= h < ka.len() && ka[h] == kb[g];
        assert(wa[ka[h] as int] == wb[ka[h] as int]);
    }
    let f = |sum: W, c: u8| handed_up(transmit, bodies, wa, sum, c);
    lemma_gathers_is_fold(transmit, bodies, wa, wa, ka, sa, ka.len() as int);
    lemma_gathers_is_fold(transmit, bodies, wa, wb, kb, sb, kb.len() as int);
    assert(ka.take(ka.len() as int) =~= ka);
    assert(kb.take(kb.len() as int) =~= kb);
    assert(commutative_foldl(f)) by {
        assert forall|x: u8, y: u8, v: W| #[trigger] f(f(v, x), y) == f(f(v, y), x) by {
            let m1 = f(v, x);
            let r1 = f(m1, y);
            let m2 = f(v, y);
            let r2 = f(m2, x);
            assert(has_result(transmit, v, &bodies[x as int], &wa[x as int]));
            assert(has_result(transmit, m1, &bodies[y as int], &wa[y as int]));
            assert(has_result(transmit, v, &bodies[y as int], &wa[y as int]));
            assert(has_result(transmit, m2, &bodies[x as int], &wa[x as int]));
            assert(transmit.ensures((v, &bodies[x as int], &wa[x as int]), m1));
            assert(transmit.ensures((m1, &bodies[y as int], &wa[y as int]), r1));
            assert(transmit.ensures((v, &bodies[y as int], &wa[y as int]), m2));
            assert(transmit.ensures((m2, &bodies[x as int], &wa[x as int]), r2));
        }
    }
    lemma_fold_left_permutation(ka, kb, f, sa[0]);
}

/// Sibling order and the dynamic pass: where the three steps are functions
/// and what children add to a sum does not depend on who is heard first,
/// the torques are the same on every arena that differs in the order of
/// siblings alone.
pub proof fn lemma_dynamics_ignore_sibling_order<
    B,
    W,
    T,
    I: Fn(&B) -> W,
    X: Fn(W, &B, &W) -> W,
    P: Fn(&B, &W) -> T,
>(
    a: Seq<LinkView>,
    b: Seq<LinkView>,
    bodies: Seq<B>,
    x: Seq<T>,
    y: Seq<T>,
    inertial: I,
    transmit: X,
    project: P,
)
    requires
        is_tree(a),
        same_joints(a, b),
        torques_hold(a, bodies, x, inertial, transmit, project),
        torques_hold(b, bodies, y, inertial, transmit, project),
        inertial_is_function(inertial),
        transmit_is_function(transmit),
        transmit_commutes(transmit),
        project_is_function(project),
    ensures
        x == y,
{
    let wa = choose|w: Seq<W>| #[trigger]
        dynamics_hold(a, bodies, w, x, inertial, transmit, project);
    let wb = choose|w: Seq<W>| #[trigger]
        dynamics_hold(b, bodies, w, y, inertial, transmit, project);
    assert forall|i: int| 0 <= i < x.len() implies x[i] == y[i] by {
        assert(reaches_root(a, i));
        let d = choose|d: nat| climbs(a, i, d);
        lemma_same_wrench(a, b, bodies, wa, wb, inertial, transmit, i, d);
        assert(project.ensures((&bodies[i], &wa[i]), x[i]));
        assert(project.ensures((&bodies[i], &wb[i]), y[i]));
    }
    assert(x =~= y);
}

} // verus!
