//! The kinematic walk: a depth-first descent from the root with a work stack.
//!
//! `order` holds the links visited so far, `stack` those waiting. The lemmas
//! here carry one invariant from the first push to the empty stack, and read
//! off it whether the arena is a tree.

use vstd::prelude::*;
use crate::counting::{lemma_covering_ids_many, lemma_distinct_ids_bounded, lemma_distinct_ids_cover};
use crate::link::LinkView;
use crate::order::{
    descent, lemma_children_at_depth, lemma_descent_concat, lemma_descent_fuel,
};
use crate::tree::{
    children_ok, climbs, ids_ok, is_child, is_forward_order, is_listed, is_tree, parent_first,
    reaches_root,
};

verus! {

/// The parent of `x` is the root or has been visited.
pub open spec fn ready(t: Seq<LinkView>, order: Seq<u8>, x: u8) -> bool {
    t[x as int].parent == 0 || order.contains(t[x as int].parent)
}

/// A link whose parent is the root or visited is itself visited or waiting.
pub open spec fn reached(t: Seq<LinkView>, order: Seq<u8>, stack: Seq<u8>, c: int) -> bool {
    ready(t, order, c as u8) ==> order.contains(c as u8) || stack.contains(c as u8)
}

/// What holds of the walk between two visits.
pub open spec fn walk_inv(t: Seq<LinkView>, order: Seq<u8>, stack: Seq<u8>) -> bool {
    &&& order.no_duplicates()
    &&& stack.no_duplicates()
    &&& forall|a: int, b: int|
        0 <= a < order.len() && 0 <= b < stack.len() ==> #[trigger] order[a] != #[trigger] stack[b]
    &&& forall|k: int| 0 <= k < order.len() ==> 0 < #[trigger] order[k] < t.len()
    &&& forall|k: int| 0 <= k < stack.len() ==> 0 < #[trigger] stack[k] < t.len()
    &&& forall|k: int| 0 <= k < stack.len() ==> ready(t, order, #[trigger] stack[k])
    &&& forall|k: int| 0 <= k < order.len() ==> #[trigger] parent_first(t, order, k)
    &&& forall|c: int| 0 < c < t.len() ==> #[trigger] reached(t, order, stack, c)
}

/// The walk may start from the children of the root.
pub proof fn lemma_walk_start(t: Seq<LinkView>)
    requires
        ids_ok(t),
        children_ok(t),
    ensures
        walk_inv(t, Seq::<u8>::empty(), t[0].children),
{
    let order = Seq::<u8>::empty();
    let stack = t[0].children;
    assert forall|k: int| 0 <= k < stack.len() implies 0 < #[trigger] stack[k] < t.len() && ready(
        t,
        order,
        stack[k],
    ) by {
        assert(is_child(t, t[0].children[k] as int, 0));
    }
    assert forall|c: int| 0 < c < t.len() implies #[trigger] reached(t, order, stack, c) by {
        if ready(t, order, c as u8) {
            assert(is_listed(t, c));
        }
    }
}

/// Visiting the link on top of the stack, and putting its children in its
/// place, keeps the invariant.
pub proof fn lemma_walk_step(t: Seq<LinkView>, order: Seq<u8>, stack: Seq<u8>)
    requires
        ids_ok(t),
        children_ok(t),
        walk_inv(t, order, stack),
        stack.len() > 0,
    ensures
        walk_inv(
            t,
            order.push(stack.last()),
            stack.drop_last() + t[stack.last() as int].children,
        ),
{
    let i = stack.last();
    let rest = stack.drop_last();
    let kids = t[i as int].children;
    let order2 = order.push(i);
    let stack2 = rest + kids;
    assert(stack[stack.len() - 1] == i);
    assert(0 < i < t.len());
    assert(!order.contains(i));
    assert(ready(t, order, i));
    assert(kids.no_duplicates());
    // No child of `i` has been seen before.
    assert forall|h: int| 0 <= h < kids.len() implies 0 < #[trigger] kids[h] < t.len()
        && t[kids[h] as int].parent == i && !order.contains(kids[h]) && !stack.contains(kids[h]) by {
        let c = kids[h];
        assert(is_child(t, t[i as int].children[h] as int, i as int));
        if order.contains(c) {
            let a = choose|a: int| 0 <= a < order.len() && order[a] == c;
            assert(parent_first(t, order, a));
        }
        if stack.contains(c) {
            let b = choose|b: int| 0 <= b < stack.len() && stack[b] == c;
            assert(ready(t, order, stack[b]));
        }
    }
    assert forall|a: int, b: int|
        0 <= a < stack2.len() && 0 <= b < stack2.len() && a != b implies stack2[a] != stack2[b] by {
        if a < rest.len() && b < rest.len() {
            assert(stack[a] != stack[b]);
        } else if a >= rest.len() && b >= rest.len() {
            assert(kids[a - rest.len()] != kids[b - rest.len()]);
        } else if a < rest.len() {
            assert(stack.contains(stack[a]));
            assert(stack2[b] == kids[b - rest.len()]);
        } else {
            assert(stack.contains(stack[b]));
            assert(stack2[a] == kids[a - rest.len()]);
        }
    }
    assert forall|a: int, b: int| 0 <= a < order2.len() && 0 <= b < stack2.len() implies order2[a]
        != stack2[b] by {
        if b < rest.len() {
            assert(stack2[b] == stack[b]);
            if a < order.len() {
                assert(order[a] != stack[b]);
            } else {
                assert(stack[b] != stack[stack.len() - 1]);
            }
        } else {
            assert(stack2[b] == kids[b - rest.len()]);
            if a < order.len() {
                assert(order.contains(order[a]));
            } else {
                assert(stack.contains(i));
            }
        }
    }
    assert forall|k: int| 0 <= k < order2.len() implies 0 < #[trigger] order2[k] < t.len() by {
        if k < order.len() {
            assert(order2[k] == order[k]);
        }
    }
    assert forall|k: int| 0 <= k < stack2.len() implies 0 < #[trigger] stack2[k] < t.len() && ready(
        t,
        order2,
        stack2[k],
    ) by {
        if k < rest.len() {
            assert(stack2[k] == stack[k]);
            assert(ready(t, order, stack[k]));
            let p = t[stack[k] as int].parent;
            if p != 0 {
                let a = choose|a: int| 0 <= a < order.len() && order[a] == p;
                assert(order2[a] == p);
            }
        } else {
            assert(stack2[k] == kids[k - rest.len()]);
            assert(order2[order.len() as int] == i);
        }
    }
    assert forall|k: int| 0 <= k < order2.len() implies #[trigger] parent_first(t, order2, k) by {
        if k < order.len() {
            assert(parent_first(t, order, k));
            assert(order2[k] == order[k]);
            let p = t[order[k] as int].parent;
            if p != 0 {
                let j = choose|j: int| 0 <= j < k && order[j] == p;
                assert(order2[j] == p);
            }
        } else {
            let p = t[i as int].parent;
            if p != 0 {
                let j = choose|j: int| 0 <= j < order.len() && order[j] == p;
                assert(order2[j] == p);
            }
        }
    }
    assert forall|c: int| 0 < c < t.len() implies #[trigger] reached(t, order2, stack2, c) by {
        if ready(t, order2, c as u8) {
            let p = t[c].parent;
            if p == i {
                assert(is_listed(t, c));
                let h = choose|h: int| 0 <= h < kids.len() && kids[h] == c as u8;
                assert(stack2[rest.len() + h] == c as u8);
            } else {
                if p != 0 {
                    let a = choose|a: int| 0 <= a < order2.len() && order2[a] == p;
                    assert(a < order.len());
                    assert(order[a] == p);
                }
                assert(reached(t, order, stack, c));
                if order.contains(c as u8) {
                    let a = choose|a: int| 0 <= a < order.len() && order[a] == c as u8;
                    assert(order2[a] == c as u8);
                } else {
                    let b = choose|b: int| 0 <= b < stack.len() && stack[b] == c as u8;
                    if b < rest.len() {
                        assert(stack2[b] == c as u8);
                    } else {
                        assert(order2[order.len() as int] == c as u8);
                    }
                }
            }
        }
    }
    assert(order2.no_duplicates());
}

/// Visited and waiting links together are fewer than the arena has links.
pub proof fn lemma_walk_bound(t: Seq<LinkView>, order: Seq<u8>, stack: Seq<u8>)
    requires
        ids_ok(t),
        walk_inv(t, order, stack),
    ensures
        order.len() + stack.len() <= t.len() - 1,
{
    let both = order + stack;
    assert forall|a: int, b: int| 0 <= a < both.len() && 0 <= b < both.len() && a != b implies both[a]
        != both[b] by {
        if a < order.len() && b < order.len() {
            assert(order[a] != order[b]);
        } else if a >= order.len() && b >= order.len() {
            assert(stack[a - order.len()] != stack[b - order.len()]);
        } else if a < order.len() {
            assert(order[a] != stack[b - order.len()]);
        } else {
            assert(order[b] != stack[a - order.len()]);
        }
    }
    assert forall|k: int| 0 <= k < both.len() implies 1 <= #[trigger] both[k] < t.len() by {
        if k < order.len() {
            assert(both[k] == order[k]);
        } else {
            assert(both[k] == stack[k - order.len()]);
        }
    }
    lemma_distinct_ids_bounded(both, 1, t.len() as int);
}

/// Every visited link is a descendant of the root.
proof fn lemma_visited_reach_root(t: Seq<LinkView>, order: Seq<u8>, k: int)
    requires
        ids_ok(t),
        forall|j: int| 0 <= j < order.len() ==> 0 < #[trigger] order[j] < t.len(),
        forall|j: int| 0 <= j < order.len() ==> #[trigger] parent_first(t, order, j),
        0 <= k < order.len(),
    ensures
        reaches_root(t, order[k] as int),
    decreases k,
{
    let x = order[k];
    let p = t[x as int].parent;
    assert(parent_first(t, order, k));
    if p == 0 {
        assert(climbs(t, 0, 0));
        assert(climbs(t, x as int, 1));
    } else {
        let j = choose|j: int| 0 <= j < k && order[j] == p;
        lemma_visited_reach_root(t, order, j);
        let d = choose|d: nat| climbs(t, p as int, d);
        assert(climbs(t, x as int, d + 1));
    }
}

/// A descendant of the root is visited by the time the stack is empty.
proof fn lemma_descendant_visited(t: Seq<LinkView>, order: Seq<u8>, i: int, d: nat)
    requires
        ids_ok(t),
        walk_inv(t, order, Seq::<u8>::empty()),
        0 < i < t.len(),
        climbs(t, i, d),
    ensures
        order.contains(i as u8),
    decreases d,
{
    let p = t[i].parent;
    assert(d > 0);
    if p != 0 {
        lemma_descendant_visited(t, order, p as int, (d - 1) as nat);
    }
    assert(reached(t, order, Seq::<u8>::empty(), i));
}

/// When the stack is empty and every link but the root has been visited,
/// the arena is a tree and the visits are a kinematic order of it.
pub proof fn lemma_walk_complete(t: Seq<LinkView>, order: Seq<u8>)
    requires
        ids_ok(t),
        children_ok(t),
        walk_inv(t, order, Seq::<u8>::empty()),
        order.len() == t.len() - 1,
    ensures
        is_tree(t),
        is_forward_order(t, order),
{
    assert forall|k: int| 0 <= k < order.len() implies 1 <= #[trigger] order[k] < t.len() by {}
    lemma_distinct_ids_cover(order, 1, t.len() as int);
    assert forall|i: int| 0 <= i < t.len() implies #[trigger] reaches_root(t, i) by {
        if i == 0 {
            assert(climbs(t, 0, 0));
        } else {
            assert(order.contains(i as u8));
            let k = choose|k: int| 0 <= k < order.len() && order[k] == i as u8;
            lemma_visited_reach_root(t, order, k);
        }
    }
}

/// When the stack is empty and some link has not been visited, the arena is
/// no tree.
pub proof fn lemma_walk_incomplete(t: Seq<LinkView>, order: Seq<u8>)
    requires
        ids_ok(t),
        children_ok(t),
        walk_inv(t, order, Seq::<u8>::empty()),
        order.len() != t.len() - 1,
    ensures
        !is_tree(t),
{
    if is_tree(t) {
        assert forall|i: int| 1 <= i < t.len() implies #[trigger] order.contains(i as u8) by {
            assert(reaches_root(t, i));
            let d = choose|d: nat| climbs(t, i, d);
            lemma_descendant_visited(t, order, i, d);
        }
        lemma_covering_ids_many(order, 1, t.len() as int);
        lemma_walk_bound(t, order, Seq::<u8>::empty());
    }
}

/// What a descent from a stack visits is the link on top, and then what a
/// descent visits from the stack with the children of that link in its
/// place.
pub proof fn lemma_descent_step(t: Seq<LinkView>, stack: Seq<u8>)
    requires
        is_tree(t),
        stack.len() > 0,
        0 < stack.last() < t.len(),
    ensures
        descent(t, stack, t.len()) == seq![stack.last()] + descent(
            t,
            stack.drop_last() + t[stack.last() as int].children,
            t.len(),
        ),
{
    let n = t.len();
    let i = stack.last();
    let kids = t[i as int].children;
    let rest = stack.drop_last();
    assert(reaches_root(t, i as int));
    let d = choose|d: nat| climbs(t, i as int, d);
    lemma_children_at_depth(t, i as int, d);
    assert forall|h: int| 0 <= h < kids.len() implies #[trigger] kids[h] < t.len() by {
        assert(is_child(t, t[i as int].children[h] as int, i as int));
    }
    lemma_descent_fuel(t, kids, d + 1, (n - 1) as nat, n);
    lemma_descent_concat(t, rest, kids, n);
    assert(seq![i] + descent(t, kids, n) + descent(t, rest, n) =~= seq![i] + (descent(t, kids, n)
        + descent(t, rest, n)));
}

/// From any state of the walk on a tree, the links visited so far followed
/// by what a descent from the stack visits are a kinematic order.
pub proof fn lemma_walk_finishes(t: Seq<LinkView>, order: Seq<u8>, stack: Seq<u8>)
    requires
        is_tree(t),
        walk_inv(t, order, stack),
    ensures
        is_forward_order(t, order + descent(t, stack, t.len())),
    decreases t.len() - order.len(),
{
    let n = t.len();
    lemma_walk_bound(t, order, stack);
    if stack.len() == 0 {
        assert(stack =~= Seq::<u8>::empty());
        assert(order + descent(t, stack, n) =~= order);
        if order.len() != n - 1 {
            lemma_walk_incomplete(t, order);
        }
        lemma_walk_complete(t, order);
    } else {
        let i = stack.last();
        let next = stack.drop_last() + t[i as int].children;
        assert(stack[stack.len() - 1] == i);
        lemma_walk_step(t, order, stack);
        lemma_descent_step(t, stack);
        lemma_walk_finishes(t, order.push(i), next);
        assert(order + (seq![i] + descent(t, next, n)) =~= order.push(i) + descent(t, next, n));
    }
}

} // verus!
