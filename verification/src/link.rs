//! One rigid body of a mechanism, as the tree sees it.

use vstd::prelude::*;
use crate::bounded::{id_seq, ids_new};

verus! {

/// A node of the kinematic tree.
///
/// `children` keeps the ids in the order in which they were attached; that
/// order decides which sibling a traversal takes first, and the order in
/// which a parent gathers what its children transmit.
#[derive(Debug)]
pub struct Link {
    pub id: u8,
    pub parent: u8,
    pub children: heapless::Vec<u8, 256>,
}

/// What a link is to the specifications: its fields, the child list as a
/// sequence.
pub struct LinkView {
    pub id: u8,
    pub parent: u8,
    pub children: Seq<u8>,
}

impl View for Link {
    type V = LinkView;

    open spec fn view(&self) -> LinkView {
        LinkView { id: self.id, parent: self.parent, children: id_seq(self.children) }
    }
}

impl Link {
    /// A link with id 0 that is its own parent and has no children.
    pub fn new() -> (l: Link)
        ensures
            l@ == (LinkView { id: 0, parent: 0, children: Seq::empty() }),
    {
        Link { id: 0, parent: 0, children: ids_new() }
    }
}

} // verus!
