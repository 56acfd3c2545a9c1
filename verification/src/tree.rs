//! What it means for an arena of links to be a tree, and for a sequence of
//! ids to be an order in which the tree can be walked.

use vstd::prelude::*;
use crate::bounded::CAPACITY;
use crate::link::LinkView;

verus! {

/// `c` is a link other than the root, and its recorded parent is `p`.
pub open spec fn is_child(t: Seq<LinkView>, c: int, p: int) -> bool {
    0 < c < t.len() && t[c].parent == p
}

/// Link `i` appears in the child list of its recorded parent.
pub open spec fn is_listed(t: Seq<LinkView>, i: int) -> bool {
    t[t[i].parent as int].children.contains(i as u8)
}

/// There is a root, the arena is within capacity, every link sits at the
/// index that its id names, and every link but the root names an existing
/// link as its parent. The root's own `parent` field is not read.
pub open spec fn ids_ok(t: Seq<LinkView>) -> bool {
    &&& 0 < t.len() <= CAPACITY
    &&& forall|i: int| 0 <= i < t.len() ==> (#[trigger] t[i]).id == i
    &&& forall|i: int| 0 < i < t.len() ==> (#[trigger] t[i]).parent < t.len()
}

/// The child list of every link holds exactly the links that name it as
/// their parent, each once. The root is nobody's child.
pub open spec fn children_ok(t: Seq<LinkView>) -> bool {
    &&& forall|p: int, k: int|
        0 <= p < t.len() && 0 <= k < t[p].children.len() ==> is_child(
            t,
            #[trigger] t[p].children[k] as int,
            p,
        )
    &&& forall|p: int| 0 <= p < t.len() ==> (#[trigger] t[p]).children.no_duplicates()
    &&& forall|i: int| 0 < i < t.len() ==> #[trigger] is_listed(t, i)
}

/// Whether a link with parent `parent` can be appended to the arena: there
/// is room for it, and either the arena is empty, so that the link is the
/// root, or the parent is in the arena and has room in its child list.
pub open spec fn can_attach(t: Seq<LinkView>, parent: u8) -> bool {
    &&& t.len() < CAPACITY
    &&& t.len() == 0 || (parent < t.len() && t[parent as int].children.len() < CAPACITY)
}

/// The arena with one more link, whose parent is `parent`, listed last
/// among the children of its parent.
pub open spec fn attach(t: Seq<LinkView>, parent: u8) -> Seq<LinkView> {
    let id = t.len() as u8;
    let leaf = LinkView { id, parent, children: Seq::empty() };
    if t.len() == 0 {
        seq![leaf]
    } else {
        let above = t[parent as int];
        t.update(
            parent as int,
            LinkView { id: above.id, parent: above.parent, children: above.children.push(id) },
        ).push(leaf)
    }
}

/// Following `parent` from link `i` arrives at the root after exactly `d`
/// steps.
pub open spec fn climbs(t: Seq<LinkView>, i: int, d: nat) -> bool
    decreases d,
{
    if d == 0 {
        i == 0
    } else {
        0 < i < t.len() && climbs(t, t[i].parent as int, (d - 1) as nat)
    }
}

/// Link `i` is the root or one of its descendants.
pub open spec fn reaches_root(t: Seq<LinkView>, i: int) -> bool {
    exists|d: nat| climbs(t, i, d)
}

/// The arena is a tree rooted at link 0: ids, parents and child lists agree,
/// and no link is on a cycle or otherwise cut off from the root.
pub open spec fn is_tree(t: Seq<LinkView>) -> bool {
    &&& ids_ok(t)
    &&& children_ok(t)
    &&& forall|i: int| 0 <= i < t.len() ==> #[trigger] reaches_root(t, i)
}

/// The link at position `k` of `o` comes after its parent, unless its parent
/// is the root.
pub open spec fn parent_first(t: Seq<LinkView>, o: Seq<u8>, k: int) -> bool {
    t[o[k] as int].parent == 0 || exists|j: int| 0 <= j < k && o[j] == t[o[k] as int].parent
}

/// The link at position `k` of `o` comes before its parent, unless it is the
/// root.
pub open spec fn parent_later(t: Seq<LinkView>, o: Seq<u8>, k: int) -> bool {
    o[k] == 0 || exists|j: int| k < j < o.len() && o[j] == t[o[k] as int].parent
}

/// `o` lists every link but the root exactly once, and no link before its
/// parent: an order in which the kinematic pass may visit the links.
pub open spec fn is_forward_order(t: Seq<LinkView>, o: Seq<u8>) -> bool {
    &&& o.no_duplicates()
    &&& forall|k: int| 0 <= k < o.len() ==> 0 < #[trigger] o[k] < t.len()
    &&& forall|i: int| 0 < i < t.len() ==> #[trigger] o.contains(i as u8)
    &&& forall|k: int| 0 <= k < o.len() ==> #[trigger] parent_first(t, o, k)
}

/// `o` lists every link exactly once, and no link before any of its
/// children: an order in which the dynamic pass may finish the links.
pub open spec fn is_backward_order(t: Seq<LinkView>, o: Seq<u8>) -> bool {
    &&& o.no_duplicates()
    &&& forall|k: int| 0 <= k < o.len() ==> #[trigger] o[k] < t.len()
    &&& forall|i: int| 0 <= i < t.len() ==> #[trigger] o.contains(i as u8)
    &&& forall|k: int| 0 <= k < o.len() ==> #[trigger] parent_later(t, o, k)
}

} // verus!
