//! The dynamic walk: a depth-first descent that finishes a link only when
//! all its children are finished.
//!
//! `order` holds the finished links, `stack` the path being explored with the
//! siblings still waiting, `seen` marks the links whose children have been
//! put on the stack, and `opened` lists the marked links in the order of
//! marking.

use vstd::prelude::*;
use crate::counting::lemma_distinct_ids_bounded;
use crate::link::LinkView;
use crate::order::{ascent, at_depth, lemma_ascent_fuel, lemma_children_at_depth};
use crate::tree::{
    children_ok, climbs, ids_ok, is_backward_order, is_child, is_listed, is_tree, parent_later,
    reaches_root,
};

verus! {

/// The entry at position `k` of the stack is the root, or its parent is
/// marked and lies below it.
pub open spec fn below_parent(t: Seq<LinkView>, stack: Seq<u8>, seen: Seq<bool>, k: int) -> bool {
    stack[k] == 0 || (seen[t[stack[k] as int].parent as int] && exists|j: int|
        0 <= j < k && stack[j] == t[stack[k] as int].parent)
}

/// The finished link at position `k` is the root, or its parent is marked
/// and either still on the stack or finished later.
pub open spec fn awaits_parent(
    t: Seq<LinkView>,
    order: Seq<u8>,
    stack: Seq<u8>,
    seen: Seq<bool>,
    k: int,
) -> bool {
    order[k] == 0 || (seen[t[order[k] as int].parent as int] && (stack.contains(
        t[order[k] as int].parent,
    ) || exists|j: int| k < j < order.len() && order[j] == t[order[k] as int].parent))
}

/// A marked link is finished or on the stack.
pub open spec fn held(order: Seq<u8>, stack: Seq<u8>, seen: Seq<bool>, x: int) -> bool {
    seen[x] ==> order.contains(x as u8) || stack.contains(x as u8)
}

/// A link whose parent is marked is finished or on the stack.
pub open spec fn handed_down(
    t: Seq<LinkView>,
    order: Seq<u8>,
    stack: Seq<u8>,
    seen: Seq<bool>,
    c: int,
) -> bool {
    seen[t[c].parent as int] ==> order.contains(c as u8) || stack.contains(c as u8)
}

/// What holds of the walk at the head of every round.
pub open spec fn climb_inv(
    t: Seq<LinkView>,
    order: Seq<u8>,
    stack: Seq<u8>,
    seen: Seq<bool>,
    opened: Seq<u8>,
) -> bool {
    &&& seen.len() == t.len()
    &&& seen[0]
    &&& order.no_duplicates()
    &&& stack.no_duplicates()
    &&& opened.no_duplicates()
    &&& forall|a: int, b: int|
        0 <= a < order.len() && 0 <= b < stack.len() ==> #[trigger] order[a] != #[trigger] stack[b]
    &&& forall|k: int| 0 <= k < order.len() ==> #[trigger] order[k] < t.len()
    &&& forall|k: int| 0 <= k < stack.len() ==> #[trigger] stack[k] < t.len()
    &&& forall|k: int| 0 <= k < opened.len() ==> #[trigger] opened[k] < t.len()
    &&& forall|k: int| 0 <= k < opened.len() ==> seen[#[trigger] opened[k] as int]
    &&& forall|x: int| 0 <= x < t.len() && #[trigger] seen[x] ==> opened.contains(x as u8)
    &&& forall|k: int| 0 <= k < order.len() ==> seen[#[trigger] order[k] as int]
    &&& forall|x: int| 0 <= x < t.len() ==> #[trigger] held(order, stack, seen, x)
    &&& forall|k: int| 0 <= k < stack.len() ==> #[trigger] below_parent(t, stack, seen, k)
    &&& forall|k: int| 0 <= k < order.len() ==> #[trigger] awaits_parent(t, order, stack, seen, k)
    &&& forall|c: int| 0 < c < t.len() ==> #[trigger] handed_down(t, order, stack, seen, c)
}

/// The root alone, followed by its children.
pub open spec fn first_stack(t: Seq<LinkView>) -> Seq<u8> {
    seq![0u8] + t[0].children
}

/// The walk may start from the root and its children, the root marked.
pub proof fn lemma_climb_start(t: Seq<LinkView>, seen: Seq<bool>)
    requires
        ids_ok(t),
        children_ok(t),
        seen.len() == t.len(),
        forall|x: int| 0 <= x < t.len() ==> #[trigger] seen[x] == (x == 0),
    ensures
        climb_inv(t, Seq::<u8>::empty(), first_stack(t), seen, seq![0u8]),
        first_stack(t).len() <= t.len(),
{
    let order = Seq::<u8>::empty();
    let kids = t[0].children;
    let stack = first_stack(t);
    let opened = seq![0u8];
    assert(kids.no_duplicates());
    assert forall|h: int| 0 <= h < kids.len() implies 0 < #[trigger] kids[h] < t.len()
        && t[kids[h] as int].parent == 0 by {
        assert(is_child(t, t[0].children[h] as int, 0));
    }
    assert forall|a: int, b: int|
        0 <= a < stack.len() && 0 <= b < stack.len() && a != b implies stack[a] != stack[b] by {
        if a > 0 {
            assert(stack[a] == kids[a - 1]);
        }
        if b > 0 {
            assert(stack[b] == kids[b - 1]);
        }
    }
    assert forall|k: int| 0 <= k < stack.len() implies #[trigger] stack[k] < t.len()
        && below_parent(t, stack, seen, k) by {
        if k > 0 {
            assert(stack[k] == kids[k - 1]);
            assert(stack[0] == 0);
        }
    }
    assert(opened[0] == 0);
    assert(stack[0] == 0);
    assert forall|x: int| 0 <= x < t.len() implies #[trigger] held(order, stack, seen, x) by {}
    assert forall|c: int| 0 < c < t.len() implies #[trigger] handed_down(
        t,
        order,
        stack,
        seen,
        c,
    ) by {
        if seen[t[c].parent as int] {
            assert(is_listed(t, c));
            let h = choose|h: int| 0 <= h < kids.len() && kids[h] == c as u8;
            assert(stack[h + 1] == c as u8);
        }
    }
    lemma_distinct_ids_bounded(stack, 0, t.len() as int);
}

/// At the head of a round the children of the link on top are all marked
/// if it is marked itself, and none of them is if it is not.
pub proof fn lemma_children_follow(
    t: Seq<LinkView>,
    order: Seq<u8>,
    stack: Seq<u8>,
    seen: Seq<bool>,
    opened: Seq<u8>,
)
    requires
        ids_ok(t),
        children_ok(t),
        climb_inv(t, order, stack, seen, opened),
        stack.len() > 0,
    ensures
        forall|h: int|
            0 <= h < t[stack.last() as int].children.len() ==> {
                &&& 0 < #[trigger] t[stack.last() as int].children[h] < t.len()
                &&& seen[t[stack.last() as int].children[h] as int] == seen[stack.last() as int]
                &&& !stack.contains(t[stack.last() as int].children[h])
            },
{
    let i = stack.last();
    let top = stack.len() - 1;
    let kids = t[i as int].children;
    assert(stack[top] == i);
    assert forall|h: int| 0 <= h < kids.len() implies 0 < #[trigger] kids[h] < t.len() && seen[kids[h] as int]
        == seen[i as int] && !stack.contains(kids[h]) by {
        let c = kids[h];
        assert(is_child(t, t[i as int].children[h] as int, i as int));
        if stack.contains(c) {
            let k = choose|k: int| 0 <= k < stack.len() && stack[k] == c;
            assert(below_parent(t, stack, seen, k));
            let j = choose|j: int| 0 <= j < k && stack[j] == i;
            assert(stack[j] == stack[top]);
        }
        if seen[i as int] {
            assert(handed_down(t, order, stack, seen, c as int));
            let a = choose|a: int| 0 <= a < order.len() && order[a] == c;
            assert(seen[order[a] as int]);
        } else if seen[c as int] {
            assert(held(order, stack, seen, c as int));
            let a = choose|a: int| 0 <= a < order.len() && order[a] == c;
            assert(awaits_parent(t, order, stack, seen, a));
        }
    }
}

/// Marking the unmarked link on top of the stack, and putting its children
/// above it, keeps the invariant.
pub proof fn lemma_climb_open(
    t: Seq<LinkView>,
    order: Seq<u8>,
    stack: Seq<u8>,
    seen: Seq<bool>,
    opened: Seq<u8>,
)
    requires
        ids_ok(t),
        children_ok(t),
        climb_inv(t, order, stack, seen, opened),
        stack.len() > 0,
        !seen[stack.last() as int],
    ensures
        climb_inv(
            t,
            order,
            stack + t[stack.last() as int].children,
            seen.update(stack.last() as int, true),
            opened.push(stack.last()),
        ),
{
    let i = stack.last();
    let top = stack.len() - 1;
    let kids = t[i as int].children;
    let stack2 = stack + kids;
    let seen2 = seen.update(i as int, true);
    let opened2 = opened.push(i);
    assert(stack[top] == i);
    assert(i < t.len());
    lemma_children_follow(t, order, stack, seen, opened);
    assert(kids.no_duplicates());
    assert forall|h: int| 0 <= h < kids.len() implies !order.contains(#[trigger] kids[h])
        && t[kids[h] as int].parent == i by {
        assert(is_child(t, t[i as int].children[h] as int, i as int));
        if order.contains(kids[h]) {
            let a = choose|a: int| 0 <= a < order.len() && order[a] == kids[h];
            assert(seen[order[a] as int]);
        }
    }
    assert forall|a: int, b: int|
        0 <= a < stack2.len() && 0 <= b < stack2.len() && a != b implies stack2[a] != stack2[b] by {
        if a < stack.len() && b < stack.len() {
            assert(stack[a] != stack[b]);
        } else if a >= stack.len() && b >= stack.len() {
            assert(kids[a - stack.len()] != kids[b - stack.len()]);
        } else if a < stack.len() {
            assert(stack.contains(stack[a]));
            assert(stack2[b] == kids[b - stack.len()]);
        } else {
            assert(stack.contains(stack[b]));
            assert(stack2[a] == kids[a - stack.len()]);
        }
    }
    assert forall|a: int, b: int| 0 <= a < order.len() && 0 <= b < stack2.len() implies order[a]
        != stack2[b] by {
        if b < stack.len() {
            assert(order[a] != stack[b]);
        } else {
            assert(stack2[b] == kids[b - stack.len()]);
            assert(order.contains(order[a]));
        }
    }
    assert forall|k: int| 0 <= k < stack2.len() implies #[trigger] stack2[k] < t.len()
        && below_parent(t, stack2, seen2, k) by {
        if k < stack.len() {
            assert(stack2[k] == stack[k]);
            assert(below_parent(t, stack, seen, k));
            if stack[k] != 0 {
                let j = choose|j: int| 0 <= j < k && stack[j] == t[stack[k] as int].parent;
                assert(stack2[j] == stack[j]);
            }
        } else {
            assert(stack2[k] == kids[k - stack.len()]);
            assert(stack2[top] == i);
        }
    }
    assert(opened2.no_duplicates()) by {
        assert forall|a: int| 0 <= a < opened.len() implies opened[a] != i by {
            assert(seen[opened[a] as int]);
        }
    }
    assert forall|k: int| 0 <= k < opened2.len() implies #[trigger] opened2[k] < t.len()
        && seen2[opened2[k] as int] by {
        if k < opened.len() {
            assert(opened2[k] == opened[k]);
            assert(seen[opened[k] as int]);
        }
    }
    assert forall|x: int| 0 <= x < t.len() && #[trigger] seen2[x] implies opened2.contains(
        x as u8,
    ) by {
        if x == i {
            assert(opened2[opened.len() as int] == i);
        } else {
            assert(seen[x]);
            let a = choose|a: int| 0 <= a < opened.len() && opened[a] == x as u8;
            assert(opened2[a] == x as u8);
        }
    }
    assert forall|k: int| 0 <= k < order.len() implies seen2[#[trigger] order[k] as int] by {
        assert(seen[order[k] as int]);
    }
    assert forall|x: int| 0 <= x < t.len() implies #[trigger] held(order, stack2, seen2, x) by {
        if seen2[x] {
            if x == i {
                assert(stack2[top] == i);
            } else {
                assert(held(order, stack, seen, x));
                if !order.contains(x as u8) {
                    let b = choose|b: int| 0 <= b < stack.len() && stack[b] == x as u8;
                    assert(stack2[b] == x as u8);
                }
            }
        }
    }
    assert forall|k: int| 0 <= k < order.len() implies #[trigger] awaits_parent(
        t,
        order,
        stack2,
        seen2,
        k,
    ) by {
        assert(awaits_parent(t, order, stack, seen, k));
        if order[k] != 0 {
            let p = t[order[k] as int].parent;
            if stack.contains(p) {
                let b = choose|b: int| 0 <= b < stack.len() && stack[b] == p;
                assert(stack2[b] == p);
            }
        }
    }
    assert forall|c: int| 0 < c < t.len() implies #[trigger] handed_down(
        t,
        order,
        stack2,
        seen2,
        c,
    ) by {
        let p = t[c].parent;
        if seen2[p as int] {
            if p == i {
                assert(is_listed(t, c));
                let h = choose|h: int| 0 <= h < kids.len() && kids[h] == c as u8;
                assert(stack2[stack.len() + h] == c as u8);
            } else {
                assert(handed_down(t, order, stack, seen, c));
                if !order.contains(c as u8) {
                    let b = choose|b: int| 0 <= b < stack.len() && stack[b] == c as u8;
                    assert(stack2[b] == c as u8);
                }
            }
        }
    }
}

/// Finishing the marked link on top of the stack keeps the invariant.
pub proof fn lemma_climb_close(
    t: Seq<LinkView>,
    order: Seq<u8>,
    stack: Seq<u8>,
    seen: Seq<bool>,
    opened: Seq<u8>,
)
    requires
        ids_ok(t),
        children_ok(t),
        climb_inv(t, order, stack, seen, opened),
        stack.len() > 0,
        seen[stack.last() as int],
    ensures
        climb_inv(t, order.push(stack.last()), stack.drop_last(), seen, opened),
{
    let i = stack.last();
    let top = stack.len() - 1;
    let rest = stack.drop_last();
    let order2 = order.push(i);
    assert(stack[top] == i);
    assert(i < t.len());
    assert(order2[order.len() as int] == i);
    assert forall|a: int, b: int|
        0 <= a < order2.len() && 0 <= b < order2.len() && a != b implies order2[a] != order2[b] by {
        if a < order.len() && b < order.len() {
            assert(order[a] != order[b]);
        } else if a < order.len() {
            assert(order[a] != stack[top]);
        } else {
            assert(order[b] != stack[top]);
        }
    }
    assert forall|a: int, b: int| 0 <= a < order2.len() && 0 <= b < rest.len() implies order2[a]
        != rest[b] by {
        assert(rest[b] == stack[b]);
        if a < order.len() {
            assert(order[a] != stack[b]);
        } else {
            assert(stack[b] != stack[top]);
        }
    }
    assert forall|k: int| 0 <= k < order2.len() implies #[trigger] order2[k] < t.len()
        && seen[order2[k] as int] by {
        if k < order.len() {
            assert(order2[k] == order[k]);
            assert(seen[order[k] as int]);
        }
    }
    assert forall|k: int| 0 <= k < rest.len() implies #[trigger] rest[k] < t.len()
        && below_parent(t, rest, seen, k) by {
        assert(rest[k] == stack[k]);
        assert(below_parent(t, stack, seen, k));
        if stack[k] != 0 {
            let j = choose|j: int| 0 <= j < k && stack[j] == t[stack[k] as int].parent;
            assert(rest[j] == stack[j]);
        }
    }
    assert forall|x: int| 0 <= x < t.len() implies #[trigger] held(order2, rest, seen, x) by {
        if seen[x] {
            assert(held(order, stack, seen, x));
            if order.contains(x as u8) {
                let a = choose|a: int| 0 <= a < order.len() && order[a] == x as u8;
                assert(order2[a] == x as u8);
            } else {
                let b = choose|b: int| 0 <= b < stack.len() && stack[b] == x as u8;
                if b < top {
                    assert(rest[b] == x as u8);
                }
            }
        }
    }
    assert forall|k: int| 0 <= k < order2.len() implies #[trigger] awaits_parent(
        t,
        order2,
        rest,
        seen,
        k,
    ) by {
        if k < order.len() {
            assert(order2[k] == order[k]);
            assert(awaits_parent(t, order, stack, seen, k));
            if order[k] != 0 {
                let p = t[order[k] as int].parent;
                if stack.contains(p) {
                    let b = choose|b: int| 0 <= b < stack.len() && stack[b] == p;
                    if b < top {
                        assert(rest[b] == p);
                    }
                } else {
                    let j = choose|j: int| k < j < order.len() && order[j] == p;
                    assert(order2[j] == p);
                }
            }
        } else {
            assert(below_parent(t, stack, seen, top));
            if i != 0 {
                let j = choose|j: int| 0 <= j < top && stack[j] == t[i as int].parent;
                assert(rest[j] == stack[j]);
            }
        }
    }
    assert forall|c: int| 0 < c < t.len() implies #[trigger] handed_down(
        t,
        order2,
        rest,
        seen,
        c,
    ) by {
        if seen[t[c].parent as int] {
            assert(handed_down(t, order, stack, seen, c));
            if order.contains(c as u8) {
                let a = choose|a: int| 0 <= a < order.len() && order[a] == c as u8;
                assert(order2[a] == c as u8);
            } else {
                let b = choose|b: int| 0 <= b < stack.len() && stack[b] == c as u8;
                if b < top {
                    assert(rest[b] == c as u8);
                }
            }
        }
    }
}

/// Finished and waiting links together, and the marked links, are no more
/// than the arena has links.
pub proof fn lemma_climb_bound(
    t: Seq<LinkView>,
    order: Seq<u8>,
    stack: Seq<u8>,
    seen: Seq<bool>,
    opened: Seq<u8>,
)
    requires
        climb_inv(t, order, stack, seen, opened),
    ensures
        order.len() + stack.len() <= t.len(),
        opened.len() <= t.len(),
{
    let both = order + stack;
    assert forall|a: int, b: int| 0 <= a < both.len() && 0 <= b < both.len() && a != b implies both[a]
        != both[b] by {
        if a < order.len() && b < order.len() {
            assert(order[a] != order[b]);
        } else if a >= order.len() && b >= order.len() {
            assert(stack[a - order.len()] != stack[b - order.len()]);
        } else if a < order.len() {
            assert(order[a] != stack[b - order.len()]);
        } else {
            assert(order[b] != stack[a - order.len()]);
        }
    }
    assert forall|k: int| 0 <= k < both.len() implies 0 <= #[trigger] both[k] < t.len() by {
        if k < order.len() {
            assert(both[k] == order[k]);
        } else {
            assert(both[k] == stack[k - order.len()]);
        }
    }
    lemma_distinct_ids_bounded(both, 0, t.len() as int);
    lemma_distinct_ids_bounded(opened, 0, t.len() as int);
}

/// A descendant of the root is finished by the time the stack is empty.
proof fn lemma_descendant_finished(
    t: Seq<LinkView>,
    order: Seq<u8>,
    seen: Seq<bool>,
    opened: Seq<u8>,
    i: int,
    d: nat,
)
    requires
        ids_ok(t),
        climb_inv(t, order, Seq::<u8>::empty(), seen, opened),
        0 <= i < t.len(),
        climbs(t, i, d),
    ensures
        order.contains(i as u8),
    decreases d,
{
    if d == 0 {
        assert(held(order, Seq::<u8>::empty(), seen, 0));
    } else {
        let p = t[i].parent;
        lemma_descendant_finished(t, order, seen, opened, p as int, (d - 1) as nat);
        let a = choose|a: int| 0 <= a < order.len() && order[a] == p;
        assert(seen[order[a] as int]);
        assert(handed_down(t, order, Seq::<u8>::empty(), seen, i));
    }
}

/// When the stack is empty, the finished links are a dynamic order of the
/// tree.
pub proof fn lemma_climb_done(t: Seq<LinkView>, order: Seq<u8>, seen: Seq<bool>, opened: Seq<u8>)
    requires
        is_tree(t),
        climb_inv(t, order, Seq::<u8>::empty(), seen, opened),
    ensures
        is_backward_order(t, order),
{
    assert forall|i: int| 0 <= i < t.len() implies #[trigger] order.contains(i as u8) by {
        assert(reaches_root(t, i));
        let d = choose|d: nat| climbs(t, i, d);
        lemma_descendant_finished(t, order, seen, opened, i, d);
    }
    assert forall|k: int| 0 <= k < order.len() implies #[trigger] parent_later(t, order, k) by {
        assert(awaits_parent(t, order, Seq::<u8>::empty(), seen, k));
    }
}

/// The links that the walk has still to finish, in the order in which it
/// will finish them: from the top of the stack down, every marked link by
/// itself, every other link after all that lies below it.
pub open spec fn unfinished(t: Seq<LinkView>, stack: Seq<u8>, seen: Seq<bool>, fuel: nat) -> Seq<
    u8,
>
    decreases stack.len(),
{
    if stack.len() == 0 {
        Seq::empty()
    } else {
        let x = stack.last();
        let first = if seen[x as int] {
            seq![x]
        } else {
            ascent(t, t[x as int].children, fuel).push(x)
        };
        first + unfinished(t, stack.drop_last(), seen, fuel)
    }
}

/// What is still to finish depends on the marks of the links on the stack
/// only.
pub proof fn lemma_unfinished_frame(
    t: Seq<LinkView>,
    stack: Seq<u8>,
    seen: Seq<bool>,
    other: Seq<bool>,
    fuel: nat,
)
    requires
        forall|k: int| 0 <= k < stack.len() ==> seen[#[trigger] stack[k] as int] == other[stack[k] as int],
    ensures
        unfinished(t, stack, seen, fuel) == unfinished(t, stack, other, fuel),
    decreases stack.len(),
{
    if stack.len() > 0 {
        assert(seen[stack[stack.len() - 1] as int] == other[stack[stack.len() - 1] as int]);
        assert forall|k: int| 0 <= k < stack.drop_last().len() implies seen[#[trigger] stack.drop_last()[k] as int]
            == other[stack.drop_last()[k] as int] by {
            assert(stack.drop_last()[k] == stack[k]);
        }
        lemma_unfinished_frame(t, stack.drop_last(), seen, other, fuel);
    }
}

/// Unmarked siblings on top of a stack are finished first, each after all
/// that lies below it, the last of them first.
pub proof fn lemma_unfinished_push(
    t: Seq<LinkView>,
    base: Seq<u8>,
    kids: Seq<u8>,
    seen: Seq<bool>,
    d: nat,
)
    requires
        ids_ok(t),
        children_ok(t),
        d >= 1,
        at_depth(t, kids, d),
        forall|h: int| 0 <= h < kids.len() ==> #[trigger] kids[h] < t.len() && !seen[kids[h] as int],
    ensures
        unfinished(t, base + kids, seen, t.len()) == ascent(t, kids, t.len()) + unfinished(
            t,
            base,
            seen,
            t.len(),
        ),
    decreases kids.len(),
{
    let n = t.len();
    if kids.len() == 0 {
        assert(base + kids =~= base);
        assert(ascent(t, kids, n) + unfinished(t, base, seen, n) =~= unfinished(t, base, seen, n));
    } else {
        let c = kids.last();
        let below = t[c as int].children;
        assert(kids[kids.len() - 1] == c);
        assert((base + kids).last() == c);
        assert((base + kids).drop_last() =~= base + kids.drop_last());
        assert forall|h: int| 0 <= h < kids.drop_last().len() implies climbs(
            t,
            #[trigger] kids.drop_last()[h] as int,
            d,
        ) && kids.drop_last()[h] < t.len() && !seen[kids.drop_last()[h] as int] by {
            assert(kids.drop_last()[h] == kids[h]);
        }
        lemma_unfinished_push(t, base, kids.drop_last(), seen, d);
        lemma_children_at_depth(t, c as int, d);
        assert forall|h: int| 0 <= h < below.len() implies #[trigger] below[h] < t.len() by {
            assert(is_child(t, t[c as int].children[h] as int, c as int));
        }
        lemma_ascent_fuel(t, below, d + 1, (n - 1) as nat, n);
        let first = ascent(t, below, n).push(c);
        assert(first =~= ascent(t, below, (n - 1) as nat) + seq![c]);
        assert(first + (ascent(t, kids.drop_last(), n) + unfinished(t, base, seen, n)) =~= (first
            + ascent(t, kids.drop_last(), n)) + unfinished(t, base, seen, n));
    }
}

/// Marking the link on top and putting its children above it leaves what
/// is still to finish as it was.
pub proof fn lemma_unfinished_open(
    t: Seq<LinkView>,
    order: Seq<u8>,
    stack: Seq<u8>,
    seen: Seq<bool>,
    opened: Seq<u8>,
)
    requires
        is_tree(t),
        climb_inv(t, order, stack, seen, opened),
        stack.len() > 0,
        !seen[stack.last() as int],
    ensures
        unfinished(
            t,
            stack + t[stack.last() as int].children,
            seen.update(stack.last() as int, true),
            t.len(),
        ) == unfinished(t, stack, seen, t.len()),
{
    let n = t.len();
    let x = stack.last();
    let top = stack.len() - 1;
    let kids = t[x as int].children;
    let rest = stack.drop_last();
    let seen2 = seen.update(x as int, true);
    assert(stack[top] == x);
    assert(x < n);
    lemma_children_follow(t, order, stack, seen, opened);
    assert(reaches_root(t, x as int));
    let d = choose|d: nat| climbs(t, x as int, d);
    lemma_children_at_depth(t, x as int, d);
    assert forall|h: int| 0 <= h < kids.len() implies #[trigger] kids[h] < t.len() && !seen2[kids[h] as int] by {
        assert(stack.contains(x));
    }
    lemma_unfinished_push(t, stack, kids, seen2, d + 1);
    assert forall|k: int| 0 <= k < rest.len() implies seen[#[trigger] rest[k] as int] == seen2[rest[k] as int] by {
        assert(rest[k] == stack[k]);
        assert(stack[k] != stack[top]);
    }
    lemma_unfinished_frame(t, rest, seen, seen2, n);
    let tail = unfinished(t, rest, seen, n);
    assert(ascent(t, kids, n) + (seq![x] + tail) =~= ascent(t, kids, n).push(x) + tail);
}

/// From any state of the walk on a tree, the links finished so far
/// followed by those still to finish are a dynamic order.
pub proof fn lemma_climb_finishes(
    t: Seq<LinkView>,
    order: Seq<u8>,
    stack: Seq<u8>,
    seen: Seq<bool>,
    opened: Seq<u8>,
)
    requires
        is_tree(t),
        climb_inv(t, order, stack, seen, opened),
    ensures
        is_backward_order(t, order + unfinished(t, stack, seen, t.len())),
    decreases 2 * t.len() - opened.len() - order.len(),
{
    let n = t.len();
    lemma_climb_bound(t, order, stack, seen, opened);
    if stack.len() == 0 {
        assert(stack =~= Seq::<u8>::empty());
        assert(order + unfinished(t, stack, seen, n) =~= order);
        lemma_climb_done(t, order, seen, opened);
    } else {
        let x = stack.last();
        assert(stack[stack.len() - 1] == x);
        if seen[x as int] {
            let rest = unfinished(t, stack.drop_last(), seen, n);
            lemma_climb_close(t, order, stack, seen, opened);
            lemma_climb_bound(t, order.push(x), stack.drop_last(), seen, opened);
            lemma_climb_finishes(t, order.push(x), stack.drop_last(), seen, opened);
            assert(order + (seq![x] + rest) =~= order.push(x) + rest);
        } else {
            let kids = t[x as int].children;
            lemma_climb_open(t, order, stack, seen, opened);
            lemma_unfinished_open(t, order, stack, seen, opened);
            lemma_climb_bound(
                t,
                order,
                stack + kids,
                seen.update(x as int, true),
                opened.push(x),
            );
            lemma_climb_finishes(
                t,
                order,
                stack + kids,
                seen.update(x as int, true),
                opened.push(x),
            );
        }
    }
}

} // verus!
