// The ordered set of grid coordinates that are still unresolved.
//
// The set is a `linked_hash_set::LinkedHashSet`, which keeps its elements
// in insertion order. Verus sees it through the name `pending_order`: the
// sequence of its elements, oldest first.
use linked_hash_set::LinkedHashSet;
use vstd::prelude::*;

verus! {

/// A coordinate of a grid: (row, column).
pub type Coord = (usize, usize);

#[verifier::external_type_specification]
#[verifier::external_body]
#[verifier::reject_recursive_types(T)]
#[verifier::reject_recursive_types(S)]
pub struct ExLinkedHashSet<T, S>(LinkedHashSet<T, S>);

/// The elements of a set of coordinates, in the order in which they were
/// inserted (oldest first).
pub uninterp spec fn pending_order(s: LinkedHashSet<Coord>) -> Seq<Coord>;

/// Relies on `LinkedHashSet::new`: the new set is empty.
#[verifier::external_body]
pub(crate) fn pending_new() -> (r: LinkedHashSet<Coord>)
    ensures
        pending_order(r) == Seq::<Coord>::empty(),
{
    LinkedHashSet::new()
}

/// Relies on `LinkedHashSet::insert`: an absent value is appended and `true`
/// returned; a present value is moved to the back and `false` returned.
#[verifier::external_body]
pub(crate) fn pending_insert(s: &mut LinkedHashSet<Coord>, v: Coord) -> (r: bool)
    ensures
        r == !pending_order(*old(s)).contains(v),
        r ==> pending_order(*final(s)) == pending_order(*old(s)).push(v),
        !r ==> pending_order(*final(s)) == pending_order(*old(s)).remove_value(v).push(v),
{
    s.insert(v)
}

/// Relies on `LinkedHashSet::contains`: membership of a value.
#[verifier::external_body]
pub(crate) fn pending_contains(s: &LinkedHashSet<Coord>, v: &Coord) -> (r: bool)
    ensures
        r == pending_order(*s).contains(*v),
{
    s.contains(v)
}

/// Relies on `LinkedHashSet::len`: the number of elements.
#[verifier::external_body]
pub(crate) fn pending_len(s: &LinkedHashSet<Coord>) -> (r: usize)
    ensures
        r == pending_order(*s).len(),
{
    s.len()
}

/// Relies on `LinkedHashSet::pop_front`: removes and returns the oldest
/// element, or returns `None` on an empty set.
#[verifier::external_body]
pub(crate) fn pending_pop_front(s: &mut LinkedHashSet<Coord>) -> (r: Option<Coord>)
    ensures
        pending_order(*old(s)).len() == 0 ==> r is None && pending_order(*final(s)) == pending_order(*old(s)),
        pending_order(*old(s)).len() > 0 ==> r == Some(pending_order(*old(s))[0])
            && pending_order(*final(s)) == pending_order(*old(s)).drop_first()
            && !pending_order(*final(s)).contains(pending_order(*old(s))[0]),
{
    s.pop_front()
}

} // verus!
