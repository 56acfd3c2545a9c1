//! The kinematic tree and its two traversals.

use vstd::prelude::*;
use crate::bounded::{
    flag_seq, flags_get, flags_new, flags_resize, flags_set, id_seq, ids_get, ids_len, ids_new,
    ids_push, link_seq, links_get, links_get_mut, links_len, links_new, links_push, stack_len,
    stack_new, stack_pop, stack_push, stack_seq, stack_top, CAPACITY,
};
use crate::climb::{
    climb_inv, lemma_children_follow, lemma_climb_bound, lemma_climb_close, lemma_climb_done,
    lemma_climb_open, lemma_climb_start, lemma_unfinished_open, lemma_unfinished_push, unfinished,
};
use crate::counting::{lemma_covering_ids_many, lemma_distinct_ids_bounded};
use crate::laws::lemma_attach_keeps_tree;
use crate::link::{Link, LinkView};
use crate::order::{descent, dynamic_order, kinematic_order, lemma_children_at_depth};
use crate::pass::{
    dynamics_hold, gathers, kinematics_hold, lemma_gathers_frame, link_settled, sent_up,
    torques_hold,
};
use crate::tree::{
    attach, can_attach, children_ok, climbs, ids_ok, is_backward_order, is_child,
    is_forward_order, is_listed, is_tree, parent_first, parent_later,
};
use crate::walk::{
    lemma_descent_step, lemma_walk_bound, lemma_walk_complete, lemma_walk_incomplete,
    lemma_walk_start, lemma_walk_step, walk_inv,
};

verus! {

/// Why a mechanism was turned away.
#[derive(Debug, Clone, Copy, PartialEq, Eq)]
pub enum TreeError {
    /// The links do not form a tree rooted at link 0.
    Malformed,
    /// The arena already holds as many links as it can.
    CapacityExceeded,
    /// The bodies handed in are not one per link.
    BodyCount,
}

/// A mechanism: the arena of its links, indexed by id, link 0 the root.
pub struct Rkd {
    pub links: heapless::Vec<Link, 256>,
}

impl View for Rkd {
    type V = Seq<LinkView>;

    open spec fn view(&self) -> Seq<LinkView> {
        link_seq(self.links)
    }
}

/// Whether `x` is among the first `upto` ids of `v`.
fn occurs_before(v: &heapless::Vec<u8, 256>, x: u8, upto: usize) -> (r: bool)
    requires
        upto <= id_seq(*v).len(),
    ensures
        r == exists|j: int| 0 <= j < upto && id_seq(*v)[j] == x,
{
    let mut j: usize = 0;
    while j < upto
        invariant
            j <= upto <= id_seq(*v).len(),
            forall|h: int| 0 <= h < j ==> id_seq(*v)[h] != x,
        decreases upto - j,
    {
        if ids_get(v, j) == x {
            return true;
        }
        j += 1;
    }
    false
}

impl Rkd {
    /// A mechanism without links.
    pub fn new() -> (r: Rkd)
        ensures
            r@ == Seq::<LinkView>::empty(),
    {
        Rkd { links: links_new() }
    }

    /// Appends a link whose parent is `parent` and returns its id, which is
    /// its index in the arena. The first link of an arena is the root: it
    /// has id 0, and what it names as its parent is recorded and not read.
    ///
    /// A full arena turns the link away, and so does a parent that the
    /// arena does not hold; the arena is then left as it was.
    pub fn add_link(&mut self, parent: u8) -> (r: Result<u8, TreeError>)
        ensures
            r is Ok <==> can_attach(old(self)@, parent),
            r is Ok ==> r->Ok_0 == old(self)@.len() && final(self)@ == attach(old(self)@, parent),
            r is Ok && (old(self)@.len() == 0 || is_tree(old(self)@)) ==> is_tree(final(self)@),
            r is Err ==> final(self)@ == old(self)@,
            r is Err ==> r->Err_0 == (if old(self)@.len() >= CAPACITY {
                TreeError::CapacityExceeded
            } else {
                TreeError::Malformed
            }),
    {
        let n = links_len(&self.links);
        if n >= CAPACITY {
            return Err(TreeError::CapacityExceeded);
        }
        if n > 0 {
            if parent as usize >= n {
                return Err(TreeError::Malformed);
            }
            let above = links_get(&self.links, parent as usize);
            if ids_len(&above.children) >= CAPACITY {
                return Err(TreeError::Malformed);
            }
        }
        let id = n as u8;
        if n > 0 {
            let above = links_get_mut(&mut self.links, parent as usize);
            let listed = ids_push(&mut above.children, id);
            assert(listed is Ok);
        }
        let link = Link { id, parent, children: ids_new() };
        let pushed = links_push(&mut self.links, link);
        assert(pushed is Ok);
        proof {
            assert(self@ =~= attach(old(self)@, parent));
            if old(self)@.len() == 0 || is_tree(old(self)@) {
                lemma_attach_keeps_tree(old(self)@, parent);
            }
        }
        Ok(id)
    }

    /// Whether ids, parents and child lists agree with one another. Cycles
    /// are not looked for here.
    fn is_consistent(&self) -> (r: bool)
        ensures
            r == (ids_ok(self@) && children_ok(self@)),
    {
        let n = links_len(&self.links);
        if n == 0 {
            return false;
        }
        let ghost t = self@;
        let mut i: usize = 0;
        while i < n
            invariant
                t == self@,
                n == t.len(),
                0 < n <= CAPACITY,
                i <= n,
                forall|j: int| 0 <= j < i ==> (#[trigger] t[j]).id == j,
                forall|j: int| 0 < j < i ==> (#[trigger] t[j]).parent < n,
                forall|p: int, k: int|
                    0 <= p < i && 0 <= k < t[p].children.len() ==> is_child(
                        t,
                        #[trigger] t[p].children[k] as int,
                        p,
                    ),
                forall|p: int| 0 <= p < i ==> (#[trigger] t[p]).children.no_duplicates(),
            decreases n - i,
        {
            let link = links_get(&self.links, i);
            if link.id as usize != i {
                return false;
            }
            if i > 0 && link.parent as usize >= n {
                return false;
            }
            let m = ids_len(&link.children);
            let ghost kids = t[i as int].children;
            let mut k: usize = 0;
            while k < m
                invariant
                    t == self@,
                    n == t.len(),
                    0 < n <= CAPACITY,
                    i < n,
                    link@ == t[i as int],
                    kids == t[i as int].children,
                    kids == id_seq(link.children),
                    m == kids.len(),
                    k <= m,
                    forall|h: int| 0 <= h < k ==> is_child(t, #[trigger] kids[h] as int, i as int),
                    forall|a: int, b: int| 0 <= a < b < k ==> kids[a] != kids[b],
                decreases m - k,
            {
                let c = ids_get(&link.children, k);
                if c == 0 || c as usize >= n {
                    assert(!is_child(t, t[i as int].children[k as int] as int, i as int));
                    return false;
                }
                let child = links_get(&self.links, c as usize);
                if child.parent as usize != i {
                    assert(!is_child(t, t[i as int].children[k as int] as int, i as int));
                    return false;
                }
                if occurs_before(&link.children, c, k) {
                    assert(!t[i as int].children.no_duplicates());
                    return false;
                }
                k += 1;
            }
            assert(kids.no_duplicates());
            i += 1;
        }
        let mut i: usize = 1;
        while i < n
            invariant
                t == self@,
                n == t.len(),
                0 < n <= CAPACITY,
                1 <= i <= n,
                forall|j: int| 0 < j < n ==> (#[trigger] t[j]).parent < n,
                forall|j: int| 0 < j < i ==> #[trigger] is_listed(t, j),
            decreases n - i,
        {
            let link = links_get(&self.links, i);
            let parent = links_get(&self.links, link.parent as usize);
            let m = ids_len(&parent.children);
            if !occurs_before(&parent.children, i as u8, m) {
                assert(!is_listed(t, i as int));
                return false;
            }
            assert(is_listed(t, i as int));
            i += 1;
        }
        true
    }

    /// Puts the children of link `i` on the stack, the first attached lowest.
    fn push_children(&self, i: usize, stack: &mut heapless::Deque<u8, 256>)
        requires
            i < self@.len(),
            stack_seq(*old(stack)).len() + self@[i as int].children.len() <= CAPACITY,
        ensures
            stack_seq(*final(stack)) == stack_seq(*old(stack)) + self@[i as int].children,
    {
        let link = links_get(&self.links, i);
        let ghost kids = id_seq(link.children);
        let ghost below = stack_seq(*stack);
        let m = ids_len(&link.children);
        let mut k: usize = 0;
        while k < m
            invariant
                k <= m,
                m == kids.len(),
                kids == id_seq(link.children),
                below.len() + m <= CAPACITY,
                stack_seq(*stack) == below + kids.take(k as int),
            decreases m - k,
        {
            let c = ids_get(&link.children, k);
            let pushed = stack_push(stack, c);
            assert(pushed is Ok);
            assert(kids.take(k + 1) =~= kids.take(k as int).push(kids[k as int]));
            assert(below + kids.take(k + 1) =~= (below + kids.take(k as int)).push(c));
            k += 1;
        }
        assert(kids.take(m as int) =~= kids);
    }

    /// The order in which the kinematic pass visits the links: depth first
    /// from the root, the child attached last first. The root itself is not
    /// in it.
    ///
    /// An arena that is no tree rooted at link 0 is turned away.
    pub fn forward_order(&self) -> (r: Result<heapless::Vec<u8, 256>, TreeError>)
        ensures
            r is Ok <==> is_tree(self@),
            r is Ok ==> id_seq(r->Ok_0) == kinematic_order(self@),
            r is Ok ==> is_forward_order(self@, id_seq(r->Ok_0)),
            r is Err ==> r->Err_0 == TreeError::Malformed,
    {
        if !self.is_consistent() {
            return Err(TreeError::Malformed);
        }
        let ghost t = self@;
        let n = links_len(&self.links);
        let mut order = ids_new();
        let mut stack = stack_new();
        proof {
            lemma_walk_start(t);
            lemma_walk_bound(t, Seq::<u8>::empty(), t[0].children);
        }
        self.push_children(0, &mut stack);
        assert(stack_seq(stack) =~= t[0].children);
        assert(id_seq(order) + descent(t, stack_seq(stack), n as nat) =~= kinematic_order(t));
        while stack_len(&stack) > 0
            invariant
                t == self@,
                n == t.len(),
                ids_ok(t),
                children_ok(t),
                walk_inv(t, id_seq(order), stack_seq(stack)),
                is_tree(t) ==> id_seq(order) + descent(t, stack_seq(stack), n as nat)
                    == kinematic_order(t),
            decreases n - id_seq(order).len(),
        {
            let ghost before = id_seq(order);
            let ghost waiting = stack_seq(stack);
            proof {
                if is_tree(t) {
                    lemma_descent_step(t, waiting);
                    let next = descent(
                        t,
                        waiting.drop_last() + t[waiting.last() as int].children,
                        n as nat,
                    );
                    assert(before + (seq![waiting.last()] + next) =~= before.push(waiting.last())
                        + next);
                }
                lemma_walk_bound(t, before, waiting);
                lemma_walk_step(t, before, waiting);
                lemma_walk_bound(
                    t,
                    before.push(waiting.last()),
                    waiting.drop_last() + t[waiting.last() as int].children,
                );
            }
            let top = stack_pop(&mut stack);
            let i = top.unwrap();
            self.push_children(i as usize, &mut stack);
            let visited = ids_push(&mut order, i);
            assert(visited is Ok);
        }
        assert(stack_seq(stack) =~= Seq::<u8>::empty());
        if ids_len(&order) + 1 == n {
            proof {
                lemma_walk_complete(t, id_seq(order));
                assert(id_seq(order) + Seq::<u8>::empty() =~= id_seq(order));
            }
            Ok(order)
        } else {
            proof {
                lemma_walk_incomplete(t, id_seq(order));
            }
            Err(TreeError::Malformed)
        }
    }

    /// The order in which the dynamic pass finishes the links: every link
    /// after all its children, the root last.
    ///
    /// An arena that is no tree rooted at link 0 is turned away.
    pub fn backward_order(&self) -> (r: Result<heapless::Vec<u8, 256>, TreeError>)
        ensures
            r is Ok <==> is_tree(self@),
            r is Ok ==> id_seq(r->Ok_0) == dynamic_order(self@),
            r is Ok ==> is_backward_order(self@, id_seq(r->Ok_0)),
            r is Err ==> r->Err_0 == TreeError::Malformed,
    {
        if self.forward_order().is_err() {
            return Err(TreeError::Malformed);
        }
        let ghost t = self@;
        let n = links_len(&self.links);
        let mut seen = flags_new();
        let sized = flags_resize(&mut seen, n, false);
        assert(sized is Ok);
        flags_set(&mut seen, 0, true);
        let mut order = ids_new();
        let mut stack = stack_new();
        let rooted = stack_push(&mut stack, 0);
        assert(rooted is Ok);
        assert(stack_seq(stack) =~= seq![0u8]);
        proof {
            lemma_climb_start(t, flag_seq(seen));
        }
        self.push_children(0, &mut stack);
        let ghost mut opened = seq![0u8];
        proof {
            let marks = flag_seq(seen);
            assert(climbs(t, 0, 0));
            lemma_children_at_depth(t, 0, 0);
            assert forall|h: int| 0 <= h < t[0].children.len() implies #[trigger] t[0].children[h]
                < t.len() && !marks[t[0].children[h] as int] by {
                assert(is_child(t, t[0].children[h] as int, 0));
            }
            lemma_unfinished_push(t, seq![0u8], t[0].children, marks, 1);
            assert(seq![0u8].drop_last() =~= Seq::<u8>::empty());
            assert(seq![0u8].last() == 0u8);
            assert(unfinished(t, Seq::<u8>::empty(), marks, n as nat) =~= Seq::<u8>::empty());
            assert(unfinished(t, seq![0u8], marks, n as nat) =~= seq![0u8]);
            assert(id_seq(order) + unfinished(t, stack_seq(stack), marks, n as nat)
                =~= dynamic_order(t));
        }
        while stack_len(&stack) > 0
            invariant
                t == self@,
                n == t.len(),
                is_tree(t),
                ids_ok(t),
                children_ok(t),
                climb_inv(t, id_seq(order), stack_seq(stack), flag_seq(seen), opened),
                id_seq(order) + unfinished(t, stack_seq(stack), flag_seq(seen), n as nat)
                    == dynamic_order(t),
            decreases 2 * n - opened.len() - id_seq(order).len(),
        {
            let ghost done = id_seq(order);
            let ghost waiting = stack_seq(stack);
            let ghost marks = flag_seq(seen);
            let top = stack_top(&stack).unwrap();
            let link = links_get(&self.links, top as usize);
            let ghost kids = id_seq(link.children);
            let ghost marked = marks[top as int];
            proof {
                lemma_climb_bound(t, done, waiting, marks, opened);
                lemma_children_follow(t, done, waiting, marks, opened);
                if !marked {
                    lemma_unfinished_open(t, done, waiting, marks, opened);
                    lemma_climb_open(t, done, waiting, marks, opened);
                    lemma_climb_bound(
                        t,
                        done,
                        waiting + kids,
                        marks.update(top as int, true),
                        opened.push(top),
                    );
                }
            }
            let m = ids_len(&link.children);
            let mut flag = true;
            let mut k: usize = 0;
            while k < m
                invariant
                    k <= m,
                    m == kids.len(),
                    kids == id_seq(link.children),
                    marks == flag_seq(seen),
                    marks.len() == n,
                    forall|h: int|
                        0 <= h < kids.len() ==> #[trigger] kids[h] < n && marks[kids[h] as int]
                            == marked,
                    !marked ==> waiting.len() + m <= CAPACITY,
                    !marked ==> stack_seq(stack) == waiting + kids.take(k as int),
                    !marked ==> flag == (k == 0),
                    marked ==> stack_seq(stack) == waiting,
                    marked ==> flag,
                decreases m - k,
            {
                let c = ids_get(&link.children, k);
                if !flags_get(&seen, c as usize) {
                    let pushed = stack_push(&mut stack, c);
                    assert(pushed is Ok);
                    assert(kids.take(k + 1) =~= kids.take(k as int).push(kids[k as int]));
                    assert(waiting + kids.take(k + 1) =~= (waiting + kids.take(k as int)).push(c));
                    flag = false;
                }
                k += 1;
            }
            flags_set(&mut seen, top as usize, true);
            proof {
                assert(kids.take(m as int) =~= kids);
                if marked {
                    assert(flag_seq(seen) =~= marks);
                } else {
                    opened = opened.push(top);
                }
            }
            if flag {
                proof {
                    if !marked {
                        assert(waiting + kids =~= waiting);
                    }
                    let rest = unfinished(t, waiting.drop_last(), flag_seq(seen), n as nat);
                    assert(done + (seq![top] + rest) =~= done.push(top) + rest);
                    lemma_climb_close(t, done, waiting, flag_seq(seen), opened);
                    lemma_climb_bound(
                        t,
                        done.push(top),
                        waiting.drop_last(),
                        flag_seq(seen),
                        opened,
                    );
                }
                let finished = ids_push(&mut order, top);
                assert(finished is Ok);
                let popped = stack_pop(&mut stack);
                assert(popped is Some);
            }
        }
        proof {
            assert(stack_seq(stack) =~= Seq::<u8>::empty());
            assert(id_seq(order) + Seq::<u8>::empty() =~= id_seq(order));
            lemma_climb_done(t, id_seq(order), flag_seq(seen), opened);
        }
        Ok(order)
    }

    /// The kinematic pass: recomputes the body of every link from the root
    /// towards the leaves.
    ///
    /// `bodies[i]` is the body of link `i`. `ground` resets the root;
    /// `joint` computes a link from its parent, already recomputed, and from
    /// the link as it was. Nothing is changed unless the arena is a tree
    /// and there is one body per link.
    pub fn update_kinematic_relationship<B, G: Fn(&B) -> B, J: Fn(&B, &B) -> B>(
        &self,
        bodies: &mut Vec<B>,
        ground: G,
        joint: J,
    ) -> (r: Result<(), TreeError>)
        requires
            forall|b: &B| ground.requires((b,)),
            forall|p: &B, c: &B| joint.requires((p, c)),
        ensures
            r is Ok <==> is_tree(self@) && old(bodies)@.len() == self@.len(),
            r is Ok ==> kinematics_hold(self@, old(bodies)@, final(bodies)@, ground, joint),
            r is Err ==> final(bodies)@ == old(bodies)@,
            r is Err ==> r->Err_0 == (if is_tree(self@) {
                TreeError::BodyCount
            } else {
                TreeError::Malformed
            }),
    {
        let order = match self.forward_order() {
            Ok(order) => order,
            Err(e) => {
                return Err(e);
            },
        };
        let n = links_len(&self.links);
        if bodies.len() != n {
            return Err(TreeError::BodyCount);
        }
        let ghost t = self@;
        let ghost o = id_seq(order);
        let ghost before = bodies@;
        let root = ground(&bodies[0]);
        bodies[0] = root;
        let m = ids_len(&order);
        let mut k: usize = 0;
        while k < m
            invariant
                t == self@,
                n == t.len(),
                ids_ok(t),
                o == id_seq(order),
                m == o.len(),
                k <= m,
                is_forward_order(t, o),
                forall|p: &B, c: &B| joint.requires((p, c)),
                before.len() == n,
                bodies@.len() == n,
                ground.ensures((&before[0],), bodies@[0]),
                forall|j: int|
                    0 <= j < k ==> joint.ensures(
                        (&bodies@[t[o[j] as int].parent as int], &before[o[j] as int]),
                        bodies@[#[trigger] o[j] as int],
                    ),
                forall|j: int| k <= j < m ==> bodies@[#[trigger] o[j] as int] == before[o[j] as int],
            decreases m - k,
        {
            let i = ids_get(&order, k);
            let link = links_get(&self.links, i as usize);
            let p = link.parent;
            let ghost was = bodies@;
            assert(parent_first(t, o, k as int));
            let next = joint(&bodies[p as usize], &bodies[i as usize]);
            bodies[i as usize] = next;
            proof {
                assert forall|j: int| 0 <= j < k implies joint.ensures(
                    (&bodies@[t[o[j] as int].parent as int], &before[o[j] as int]),
                    bodies@[#[trigger] o[j] as int],
                ) by {
                    assert(parent_first(t, o, j));
                    assert(o[j] != o[k as int]);
                    assert(bodies@[o[j] as int] == was[o[j] as int]);
                    let q = t[o[j] as int].parent;
                    assert(bodies@[q as int] == was[q as int]);
                }
            }
            k += 1;
        }
        proof {
            assert forall|i: int| 0 < i < t.len() implies joint.ensures(
                (&bodies@[t[i].parent as int], &before[i]),
                #[trigger] bodies@[i],
            ) by {
                assert(o.contains(i as u8));
                let j = choose|j: int| 0 <= j < o.len() && o[j] == i as u8;
                assert(o[j] as int == i);
            }
        }
        Ok(())
    }

    /// The dynamic pass: gathers the wrenches from the leaves towards the
    /// root and returns the torque of every joint, indexed by link id.
    ///
    /// `bodies[i]` is the body of link `i`, as the kinematic pass left it.
    /// `inertial` gives the wrench a link needs for its own motion;
    /// `transmit` adds to a parent's sum what one child sends through its
    /// joint; `project` reads the torque about the joint axis off a link's
    /// wrench. A root that stands alone has no joint and gets no torque.
    pub fn update_equation_of_motion<
        B,
        W,
        T,
        I: Fn(&B) -> W,
        X: Fn(W, &B, &W) -> W,
        P: Fn(&B, &W) -> T,
    >(&self, bodies: &Vec<B>, inertial: I, transmit: X, project: P) -> (r: Result<
        Vec<T>,
        TreeError,
    >)
        requires
            forall|b: &B| inertial.requires((b,)),
            forall|sum: W, b: &B, w: &W| transmit.requires((sum, b, w)),
            forall|b: &B, w: &W| project.requires((b, w)),
        ensures
            r is Ok <==> is_tree(self@) && bodies@.len() == self@.len(),
            r is Ok ==> torques_hold(self@, bodies@, r->Ok_0@, inertial, transmit, project),
            r is Err ==> r->Err_0 == (if is_tree(self@) {
                TreeError::BodyCount
            } else {
                TreeError::Malformed
            }),
    {
        let order = match self.backward_order() {
            Ok(order) => order,
            Err(e) => {
                return Err(e);
            },
        };
        let n = links_len(&self.links);
        if bodies.len() != n {
            return Err(TreeError::BodyCount);
        }
        let ghost t = self@;
        let ghost o = id_seq(order);
        let mut slots: Vec<Option<W>> = Vec::new();
        let mut i: usize = 0;
        while i < n
            invariant
                i <= n,
                slots@.len() == i,
                forall|j: int| 0 <= j < i ==> #[trigger] slots@[j] is None,
            decreases n - i,
        {
            slots.push(None);
            i += 1;
        }
        let ghost mut wrench: Seq<W> = Seq::new(n as nat, |j: int| arbitrary());
        proof {
            lemma_distinct_ids_bounded(o, 0, n as int);
            lemma_covering_ids_many(o, 0, n as int);
        }
        let mut k: usize = 0;
        while k < n
            invariant
                t == self@,
                n == t.len(),
                n <= CAPACITY,
                is_tree(t),
                o == id_seq(order),
                o.len() == n,
                k <= n,
                is_backward_order(t, o),
                forall|b: &B| inertial.requires((b,)),
                forall|sum: W, b: &B, w: &W| transmit.requires((sum, b, w)),
                bodies@.len() == n,
                slots@.len() == n,
                wrench.len() == n,
                forall|j: int| 0 <= j < k ==> slots@[#[trigger] o[j] as int] == Some(wrench[o[j] as int]),
                forall|j: int|
                    0 <= j < k ==> link_settled(
                        t,
                        bodies@,
                        wrench,
                        #[trigger] o[j] as int,
                        inertial,
                        transmit,
                    ),
            decreases n - k,
        {
            let i = ids_get(&order, k);
            let link = links_get(&self.links, i as usize);
            let ghost kids = id_seq(link.children);
            let m = ids_len(&link.children);
            let mut sum = inertial(&bodies[i as usize]);
            let ghost mut sums = seq![sum];
            let mut h: usize = 0;
            while h < m
                invariant
                    t == self@,
                    n == t.len(),
                    n <= CAPACITY,
                    is_tree(t),
                    o == id_seq(order),
                    o.len() == n,
                    k < n,
                    i == o[k as int],
                    inertial.ensures((&bodies@[i as int],), sums[0]),
                    is_backward_order(t, o),
                    forall|sum: W, b: &B, w: &W| transmit.requires((sum, b, w)),
                    bodies@.len() == n,
                    slots@.len() == n,
                    wrench.len() == n,
                    forall|j: int|
                        0 <= j < k ==> slots@[#[trigger] o[j] as int] == Some(wrench[o[j] as int]),
                    kids == id_seq(link.children),
                    kids == t[i as int].children,
                    m == kids.len(),
                    h <= m,
                    gathers(transmit, bodies@, wrench, kids.take(h as int), sums),
                    sums.last() == sum,
                decreases m - h,
            {
                let c = ids_get(&link.children, h);
                proof {
                    assert(is_child(t, t[i as int].children[h as int] as int, i as int));
                    assert(o.contains((c as int) as u8));
                    let pc = choose|pc: int| 0 <= pc < o.len() && o[pc] == c;
                    assert(parent_later(t, o, pc));
                    assert(pc < k);
                }
                let sent = slots[c as usize].as_ref().unwrap();
                let ghost so_far = sums;
                sum = transmit(sum, &bodies[c as usize], sent);
                proof {
                    sums = sums.push(sum);
                    let next = kids.take(h + 1);
                    assert forall|g: int| 0 <= g < next.len() implies #[trigger] sent_up(
                        transmit,
                        bodies@,
                        wrench,
                        next,
                        sums,
                        g,
                    ) by {
                        if g < h {
                            assert(sent_up(transmit, bodies@, wrench, kids.take(h as int), so_far, g));
                        }
                    }
                }
                h += 1;
            }
            proof {
                assert(kids.take(m as int) =~= kids);
                let settled = wrench.update(i as int, sum);
                assert forall|j: int| 0 <= j < k implies link_settled(
                    t,
                    bodies@,
                    settled,
                    #[trigger] o[j] as int,
                    inertial,
                    transmit,
                ) by {
                    let x = o[j];
                    assert(x != i);
                    let was = choose|was: Seq<W>|
                        {
                            &&& #[trigger] gathers(
                                transmit,
                                bodies@,
                                wrench,
                                t[x as int].children,
                                was,
                            )
                            &&& inertial.ensures((&bodies@[x as int],), was[0])
                            &&& was.last() == wrench[x as int]
                        };
                    assert forall|g: int| 0 <= g < t[x as int].children.len() implies wrench[#[trigger] t[x as int].children[g] as int]
                        == settled[t[x as int].children[g] as int] by {
                        assert(is_child(t, t[x as int].children[g] as int, x as int));
                        if t[x as int].children[g] == i {
                            assert(parent_later(t, o, k as int));
                        }
                    }
                    lemma_gathers_frame(transmit, bodies@, wrench, settled, t[x as int].children, was);
                }
                assert forall|g: int| 0 <= g < kids.len() implies wrench[#[trigger] kids[g] as int]
                    == settled[kids[g] as int] by {
                    assert(is_child(t, t[i as int].children[g] as int, i as int));
                    assert(parent_later(t, o, k as int));
                }
                lemma_gathers_frame(transmit, bodies@, wrench, settled, kids, sums);
                assert(link_settled(t, bodies@, settled, i as int, inertial, transmit));
                wrench = settled;
            }
            slots[i as usize] = Some(sum);
            k += 1;
        }
        let mut torque: Vec<T> = Vec::new();
        if n == 1 {
            assert(dynamics_hold(t, bodies@, wrench, torque@, inertial, transmit, project)) by {
                assert forall|x: int| 0 <= x < t.len() implies #[trigger] link_settled(
                    t,
                    bodies@,
                    wrench,
                    x,
                    inertial,
                    transmit,
                ) by {
                    assert(o.contains(x as u8));
                    let j = choose|j: int| 0 <= j < o.len() && o[j] == x as u8;
                    assert(o[j] as int == x);
                }
            }
            return Ok(torque);
        }
        let mut i: usize = 0;
        while i < n
            invariant
                n == t.len(),
                n <= CAPACITY,
                o.len() == n,
                is_backward_order(t, o),
                forall|b: &B, w: &W| project.requires((b, w)),
                bodies@.len() == n,
                slots@.len() == n,
                wrench.len() == n,
                forall|j: int| 0 <= j < n ==> slots@[#[trigger] o[j] as int] == Some(wrench[o[j] as int]),
                i <= n,
                torque@.len() == i,
                forall|j: int|
                    0 <= j < i ==> project.ensures((&bodies@[j], &wrench[j]), #[trigger] torque@[j]),
            decreases n - i,
        {
            proof {
                assert(o.contains(i as u8));
                let j = choose|j: int| 0 <= j < o.len() && o[j] == i as u8;
                assert(o[j] as int == i);
            }
            let net = slots[i].as_ref().unwrap();
            torque.push(project(&bodies[i], net));
            i += 1;
        }
        assert(dynamics_hold(t, bodies@, wrench, torque@, inertial, transmit, project)) by {
            assert forall|x: int| 0 <= x < t.len() implies #[trigger] link_settled(
                t,
                bodies@,
                wrench,
                x,
                inertial,
                transmit,
            ) by {
                assert(o.contains(x as u8));
                let j = choose|j: int| 0 <= j < o.len() && o[j] == x as u8;
                assert(o[j] as int == x);
            }
        }
        Ok(torque)
    }
}

} // verus!
