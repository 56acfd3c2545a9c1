//! Fixed-capacity storage.
//!
//! The collections are those of the `heapless` crate. Nothing in this module
//! is proved: each function states what the `heapless` source shows of the
//! method it calls, over the sequence of items that the collection holds.

use vstd::prelude::*;
use crate::link::{Link, LinkView};

verus! {

/// The capacity of every collection of this crate, and so the largest number
/// of links in one mechanism.
pub const CAPACITY: usize = 256;

/// `heapless::Vec`, a list of at most `N` items, known here by its wrappers
/// alone.
#[verifier::external_type_specification]
#[verifier::external_body]
#[verifier::reject_recursive_types(T)]
pub struct ExVec<T, const N: usize>(heapless::Vec<T, N>);

/// `heapless::Deque`, a double-ended queue of at most `N` items, used here
/// as a stack and known by its wrappers alone.
#[verifier::external_type_specification]
#[verifier::external_body]
#[verifier::reject_recursive_types(T)]
pub struct ExDeque<T, const N: usize>(heapless::Deque<T, N>);

/// The ids that a list holds, first pushed first.
pub uninterp spec fn id_seq(v: heapless::Vec<u8, 256>) -> Seq<u8>;

/// The flags that a list holds, by index.
pub uninterp spec fn flag_seq(v: heapless::Vec<bool, 256>) -> Seq<bool>;

/// The links that an arena holds, by index, each as its view.
pub uninterp spec fn link_seq(v: heapless::Vec<Link, 256>) -> Seq<LinkView>;

/// The ids that a work stack holds, bottom first.
pub uninterp spec fn stack_seq(d: heapless::Deque<u8, 256>) -> Seq<u8>;

/// `heapless::Vec::new`: a list that holds nothing.
#[verifier::external_body]
pub(crate) fn ids_new() -> (v: heapless::Vec<u8, 256>)
    ensures
        id_seq(v) == Seq::<u8>::empty(),
{
    heapless::Vec::new()
}

/// `len` of the slice that a `heapless::Vec` dereferences to: the number of
/// items pushed and not removed, which never exceeds the capacity.
#[verifier::external_body]
pub(crate) fn ids_len(v: &heapless::Vec<u8, 256>) -> (n: usize)
    ensures
        n == id_seq(*v).len(),
        n <= CAPACITY,
{
    v.len()
}

/// Indexing of the slice that a `heapless::Vec` dereferences to. It panics
/// past the end, so the index must be in range.
#[verifier::external_body]
pub(crate) fn ids_get(v: &heapless::Vec<u8, 256>, i: usize) -> (x: u8)
    requires
        i < id_seq(*v).len(),
    ensures
        x == id_seq(*v)[i as int],
{
    v[i]
}

/// `heapless::Vec::push`: appends the item while the list is below its
/// capacity; a full list is left as it was and the item is handed back.
#[verifier::external_body]
pub(crate) fn ids_push(v: &mut heapless::Vec<u8, 256>, x: u8) -> (r: Result<(), u8>)
    ensures
        r is Ok <==> id_seq(*old(v)).len() < CAPACITY,
        r is Ok ==> id_seq(*final(v)) == id_seq(*old(v)).push(x),
        r is Err ==> r->Err_0 == x && id_seq(*final(v)) == id_seq(*old(v)),
{
    v.push(x)
}

/// `heapless::Vec::new`: a list that holds nothing.
#[verifier::external_body]
pub(crate) fn flags_new() -> (v: heapless::Vec<bool, 256>)
    ensures
        flag_seq(v) == Seq::<bool>::empty(),
{
    heapless::Vec::new()
}

/// `heapless::Vec::resize`: refuses a length above the capacity and leaves
/// the list as it was; otherwise truncates to the new length, or extends to
/// it with copies of the value.
#[verifier::external_body]
pub(crate) fn flags_resize(v: &mut heapless::Vec<bool, 256>, n: usize, value: bool) -> (r: Result<
    (),
    (),
>)
    ensures
        r is Ok <==> n <= CAPACITY,
        r is Err ==> flag_seq(*final(v)) == flag_seq(*old(v)),
        r is Ok ==> flag_seq(*final(v)).len() == n,
        r is Ok ==> forall|i: int|
            0 <= i < n ==> #[trigger] flag_seq(*final(v))[i] == (if i < flag_seq(*old(v)).len() {
                flag_seq(*old(v))[i]
            } else {
                value
            }),
{
    v.resize(n, value)
}

/// Indexing of the slice that a `heapless::Vec` dereferences to. It panics
/// past the end, so the index must be in range.
#[verifier::external_body]
pub(crate) fn flags_get(v: &heapless::Vec<bool, 256>, i: usize) -> (x: bool)
    requires
        i < flag_seq(*v).len(),
    ensures
        x == flag_seq(*v)[i as int],
{
    v[i]
}

/// Assignment through the mutable slice that a `heapless::Vec` dereferences
/// to: replaces the item at the index and nothing else. It panics past the
/// end, so the index must be in range.
#[verifier::external_body]
pub(crate) fn flags_set(v: &mut heapless::Vec<bool, 256>, i: usize, value: bool)
    requires
        i < flag_seq(*old(v)).len(),
    ensures
        flag_seq(*final(v)) == flag_seq(*old(v)).update(i as int, value),
{
    v[i] = value;
}

/// `heapless::Vec::new`: an arena that holds nothing.
#[verifier::external_body]
pub(crate) fn links_new() -> (v: heapless::Vec<Link, 256>)
    ensures
        link_seq(v) == Seq::<LinkView>::empty(),
{
    heapless::Vec::new()
}

/// `len` of the slice that a `heapless::Vec` dereferences to: the number of
/// items pushed and not removed, which never exceeds the capacity.
#[verifier::external_body]
pub(crate) fn links_len(v: &heapless::Vec<Link, 256>) -> (n: usize)
    ensures
        n == link_seq(*v).len(),
        n <= CAPACITY,
{
    v.len()
}

/// Indexing of the slice that a `heapless::Vec` dereferences to. It panics
/// past the end, so the index must be in range.
#[verifier::external_body]
pub(crate) fn links_get(v: &heapless::Vec<Link, 256>, i: usize) -> (l: &Link)
    requires
        i < link_seq(*v).len(),
    ensures
        l@ == link_seq(*v)[i as int],
{
    &v[i]
}

/// `heapless::Vec::push`: appends the link while the arena is below its
/// capacity; a full arena is left as it was and the link is handed back.
#[verifier::external_body]
pub(crate) fn links_push(v: &mut heapless::Vec<Link, 256>, l: Link) -> (r: Result<(), Link>)
    ensures
        r is Ok <==> link_seq(*old(v)).len() < CAPACITY,
        r is Ok ==> link_seq(*final(v)) == link_seq(*old(v)).push(l@),
        r is Err ==> r->Err_0 == l && link_seq(*final(v)) == link_seq(*old(v)),
{
    v.push(l)
}

/// Mutable indexing of the slice that a `heapless::Vec` dereferences to:
/// lends the link at the index, and whatever the borrower leaves there is
/// what the arena then holds at that index, the rest untouched. It panics
/// past the end, so the index must be in range.
#[verifier::external_body]
pub(crate) fn links_get_mut(v: &mut heapless::Vec<Link, 256>, i: usize) -> (l: &mut Link)
    requires
        i < link_seq(*old(v)).len(),
    ensures
        l@ == link_seq(*old(v))[i as int],
        link_seq(*final(v)) == link_seq(*old(v)).update(i as int, final(l)@),
{
    &mut v[i]
}

/// `heapless::Deque::new`: a work stack that holds nothing.
#[verifier::external_body]
pub(crate) fn stack_new() -> (d: heapless::Deque<u8, 256>)
    ensures
        stack_seq(d) == Seq::<u8>::empty(),
{
    heapless::Deque::new()
}

/// `heapless::Deque::len`: the number of items held, which never exceeds the
/// capacity.
#[verifier::external_body]
pub(crate) fn stack_len(d: &heapless::Deque<u8, 256>) -> (n: usize)
    ensures
        n == stack_seq(*d).len(),
        n <= CAPACITY,
{
    d.len()
}

/// `heapless::Deque::push_back`: puts the item on top unless the stack is
/// full; a full stack is left as it was and the item is handed back.
#[verifier::external_body]
pub(crate) fn stack_push(d: &mut heapless::Deque<u8, 256>, x: u8) -> (r: Result<(), u8>)
    ensures
        r is Ok <==> stack_seq(*old(d)).len() < CAPACITY,
        r is Ok ==> stack_seq(*final(d)) == stack_seq(*old(d)).push(x),
        r is Err ==> r->Err_0 == x && stack_seq(*final(d)) == stack_seq(*old(d)),
{
    d.push_back(x)
}

/// `heapless::Deque::pop_back`: takes the top item off, or returns `None`
/// from an empty stack.
#[verifier::external_body]
pub(crate) fn stack_pop(d: &mut heapless::Deque<u8, 256>) -> (r: Option<u8>)
    ensures
        r is Some <==> stack_seq(*old(d)).len() > 0,
        r is Some ==> r->Some_0 == stack_seq(*old(d)).last() && stack_seq(*final(d)) == stack_seq(
            *old(d),
        ).drop_last(),
        r is None ==> stack_seq(*final(d)) == stack_seq(*old(d)),
{
    d.pop_back()
}

/// `heapless::Deque::back`: the top item, or `None` on an empty stack.
#[verifier::external_body]
pub(crate) fn stack_top(d: &heapless::Deque<u8, 256>) -> (r: Option<u8>)
    ensures
        r is Some <==> stack_seq(*d).len() > 0,
        r is Some ==> r->Some_0 == stack_seq(*d).last(),
{
    d.back().copied()
}

} // verus!
