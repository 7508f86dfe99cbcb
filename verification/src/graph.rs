//! The sorter that orders elements by their dependencies.
//!
//! The sorter is `topological_sort::TopologicalSort`, holding the identifiers
//! of packages. Nothing of it is verified here: this module states what its
//! operations do to what it holds, and the rest of the crate builds on that.

use topological_sort::TopologicalSort;
use vstd::prelude::*;

verus! {

#[verifier::external_type_specification]
#[verifier::external_body]
#[verifier::reject_recursive_types(T)]
pub struct ExTopologicalSort<T>(TopologicalSort<T>);

/// The elements that wait in a sorter, each with the elements that it still
/// waits for.
pub type Waiting = Map<Seq<char>, Set<Seq<char>>>;

/// What `sorter` holds: its elements, and for each of them the elements that
/// were registered as coming before it and have not left the sorter.
pub uninterp spec fn waiting(sorter: TopologicalSort<String>) -> Waiting;

/// `held` with `element` in it: as it is where it holds the element already,
/// else with the element waiting for nothing.
pub open spec fn with_element(held: Waiting, element: Seq<char>) -> Waiting {
    if held.dom().contains(element) {
        held
    } else {
        held.insert(element, Set::empty())
    }
}

/// `held` with both `prec` and `succ` in it, and `succ` waiting for `prec`.
pub open spec fn with_dependency(held: Waiting, prec: Seq<char>, succ: Seq<char>) -> Waiting {
    let both = with_element(with_element(held, prec), succ);
    both.insert(succ, both[succ].insert(prec))
}

/// Whether `element` is in `held` and waits for nothing.
pub open spec fn ready(held: Waiting, element: Seq<char>) -> bool {
    held.dom().contains(element) && forall|other: Seq<char>| !held[element].contains(other)
}

/// `held` after `element` has left it: without the element, and with nothing
/// waiting for it any more.
pub open spec fn without(held: Waiting, element: Seq<char>) -> Waiting {
    Map::new(
        |other: Seq<char>| held.dom().contains(other) && other != element,
        |other: Seq<char>| held[other].remove(element),
    )
}

/// Calls `TopologicalSort::new`: the new sorter holds nothing.
#[verifier::external_body]
pub(crate) fn new_sorter() -> (sorter: TopologicalSort<String>)
    ensures
        waiting(sorter) == Waiting::empty(),
{
    TopologicalSort::new()
}

/// Calls `TopologicalSort::add_dependency`: both elements are in the sorter
/// afterwards, and `succ` waits for `prec`. Registering the same dependency
/// again changes nothing.
#[verifier::external_body]
pub(crate) fn add_dependency(sorter: &mut TopologicalSort<String>, prec: &str, succ: &str)
    ensures
        waiting(*final(sorter)) == with_dependency(waiting(*old(sorter)), prec@, succ@),
{
    sorter.add_dependency(prec, succ)
}

/// Calls `TopologicalSort::insert`: the element is in the sorter afterwards,
/// and what an element waits for is unchanged. Returns whether the element
/// was new.
#[verifier::external_body]
pub(crate) fn insert(sorter: &mut TopologicalSort<String>, element: &str) -> (fresh: bool)
    ensures
        fresh == !waiting(*old(sorter)).dom().contains(element@),
        waiting(*final(sorter)) == with_element(waiting(*old(sorter)), element@),
{
    sorter.insert(element)
}

/// Calls `TopologicalSort::pop`: takes out and returns an element that waits
/// for nothing; which one, where there are several, is open. Returns nothing,
/// and changes nothing, where every element waits for another.
#[verifier::external_body]
pub(crate) fn pop(sorter: &mut TopologicalSort<String>) -> (element: Option<String>)
    ensures
        match element {
            Some(e) => ready(waiting(*old(sorter)), e@) && waiting(*final(sorter)) == without(
                waiting(*old(sorter)),
                e@,
            ),
            None => waiting(*final(sorter)) == waiting(*old(sorter)) && forall|e: Seq<char>|
                !ready(waiting(*old(sorter)), e),
        },
{
    sorter.pop()
}

/// Calls `TopologicalSort::is_empty`: whether the sorter holds no element.
#[verifier::external_body]
pub(crate) fn is_empty(sorter: &TopologicalSort<String>) -> (empty: bool)
    ensures
        empty == (forall|e: Seq<char>| !waiting(*sorter).dom().contains(e)),
{
    sorter.is_empty()
}

} // verus!
