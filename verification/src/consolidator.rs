//! Collapsing chains of segments into single segments.
//!
//! A list is consolidated by contracting, again and again, the first pair of
//! segments that can be chained, until no such pair is left. Which pair is first
//! is fixed: the lowest position that chains to anything, together with the
//! lowest position it chains to. The order of the result follows from that rule
//! and is part of the contract.

use crate::segment::{Segment, SegmentView};
use vstd::prelude::*;

verus! {

/// Segment `i` ends where the distinct segment `j` begins.
pub open spec fn chains(list: Seq<SegmentView>, i: int, j: int) -> bool {
    &&& 0 <= i < list.len()
    &&& 0 <= j < list.len()
    &&& i != j
    &&& list[i].destination == list[j].origin
}

/// Some segment of the list ends where another one begins.
pub open spec fn has_chainable_pair(list: Seq<SegmentView>) -> bool {
    exists|i: int, j: int| chains(list, i, j)
}

/// `j` is the lowest position that segment `i` chains to.
pub open spec fn is_partner(list: Seq<SegmentView>, i: int, j: int) -> bool {
    &&& chains(list, i, j)
    &&& forall|l: int| 0 <= l < j ==> !chains(list, i, l)
}

/// `(i, j)` is the pair that the next contraction joins: no position below `i`
/// chains to anything, and `j` is the lowest position that `i` chains to.
pub open spec fn is_next_pair(list: Seq<SegmentView>, i: int, j: int) -> bool {
    &&& is_partner(list, i, j)
    &&& forall|k: int, l: int| 0 <= k < i ==> !chains(list, k, l)
}

/// The pair that the next contraction joins, where there is one.
pub open spec fn next_pair(list: Seq<SegmentView>) -> (int, int) {
    choose|i: int, j: int| is_next_pair(list, i, j)
}

/// The list after segments `i` and `j` have been taken out and the segment
/// from the origin of `i` to the destination of `j` has been put at its end.
pub open spec fn contracted(list: Seq<SegmentView>, i: int, j: int) -> Seq<SegmentView> {
    let joined = SegmentView { origin: list[i].origin, destination: list[j].destination };
    if i < j {
        list.remove(j).remove(i).push(joined)
    } else {
        list.remove(i).remove(j).push(joined)
    }
}

/// The list after every possible contraction has been made, one at a time, each
/// on the pair that is next at that moment.
pub open spec fn consolidated(list: Seq<SegmentView>) -> Seq<SegmentView>
    decreases list.len(),
{
    let (i, j) = next_pair(list);
    if is_next_pair(list, i, j) {
        consolidated(contracted(list, i, j))
    } else {
        list
    }
}

/// A contraction makes the list shorter by exactly one segment.
pub proof fn lemma_contracted_len(list: Seq<SegmentView>, i: int, j: int)
    requires
        chains(list, i, j),
    ensures
        contracted(list, i, j).len() == list.len() - 1,
{
}

/// Below a position that chains to something there is a lowest one that it
/// chains to.
proof fn lemma_lowest_partner(list: Seq<SegmentView>, i: int, j: int) -> (lowest: int)
    requires
        chains(list, i, j),
    ensures
        is_partner(list, i, lowest),
    decreases j,
{
    if exists|l: int| 0 <= l < j && chains(list, i, l) {
        let l = choose|l: int| 0 <= l < j && chains(list, i, l);
        lemma_lowest_partner(list, i, l)
    } else {
        j
    }
}

/// At or below a position that chains to something there is a lowest position
/// that does.
proof fn lemma_lowest_chaining(list: Seq<SegmentView>, i: int, j: int) -> (lowest: (int, int))
    requires
        chains(list, i, j),
    ensures
        chains(list, lowest.0, lowest.1),
        forall|k: int, l: int| 0 <= k < lowest.0 ==> !chains(list, k, l),
    decreases i,
{
    if exists|k: int, l: int| 0 <= k < i && chains(list, k, l) {
        let (k, l) = choose|k: int, l: int| 0 <= k < i && chains(list, k, l);
        lemma_lowest_chaining(list, k, l)
    } else {
        (i, j)
    }
}

/// A list with a chainable pair has a next pair, and `next_pair` names it.
pub proof fn lemma_next_pair_exists(list: Seq<SegmentView>)
    requires
        has_chainable_pair(list),
    ensures
        is_next_pair(list, next_pair(list).0, next_pair(list).1),
{
    let (i, j) = choose|i: int, j: int| chains(list, i, j);
    let (first, other) = lemma_lowest_chaining(list, i, j);
    let partner = lemma_lowest_partner(list, first, other);
    assert(is_next_pair(list, first, partner));
}

/// There is at most one next pair.
pub proof fn lemma_next_pair_unique(list: Seq<SegmentView>, i: int, j: int)
    requires
        is_next_pair(list, i, j),
    ensures
        next_pair(list) == (i, j),
{
    let (a, b) = next_pair(list);
    assert(is_next_pair(list, a, b));
    assert(chains(list, a, b));
    assert(chains(list, i, j));
}

/// Consolidating a list starts with the contraction of its next pair.
pub proof fn lemma_consolidated_step(list: Seq<SegmentView>, i: int, j: int)
    requires
        is_next_pair(list, i, j),
    ensures
        consolidated(list) == consolidated(contracted(list, i, j)),
{
    lemma_next_pair_unique(list, i, j);
}

/// A list without a chainable pair is its own consolidation: nothing moves and
/// nothing is joined.
pub proof fn lemma_consolidated_unchanged(list: Seq<SegmentView>)
    requires
        !has_chainable_pair(list),
    ensures
        consolidated(list) == list,
{
    let (i, j) = next_pair(list);
    if is_next_pair(list, i, j) {
        assert(chains(list, i, j));
    }
}

/// In a consolidated list no segment ends where another one begins.
pub proof fn lemma_consolidated_has_no_chainable_pair(list: Seq<SegmentView>)
    ensures
        !has_chainable_pair(consolidated(list)),
    decreases list.len(),
{
    let (i, j) = next_pair(list);
    if is_next_pair(list, i, j) {
        lemma_contracted_len(list, i, j);
        lemma_consolidated_has_no_chainable_pair(contracted(list, i, j));
    } else if has_chainable_pair(list) {
        lemma_next_pair_exists(list);
    }
}

/// Consolidation never makes a list longer, and it keeps the length exactly
/// when the list had no chainable pair to begin with.
pub proof fn lemma_consolidated_len(list: Seq<SegmentView>)
    ensures
        consolidated(list).len() <= list.len(),
        consolidated(list).len() == list.len() <==> !has_chainable_pair(list),
    decreases list.len(),
{
    let (i, j) = next_pair(list);
    if is_next_pair(list, i, j) {
        assert(chains(list, i, j));
        lemma_contracted_len(list, i, j);
        lemma_consolidated_len(contracted(list, i, j));
    } else if has_chainable_pair(list) {
        lemma_next_pair_exists(list);
    }
}

/// Consolidating a second time changes nothing.
pub proof fn lemma_consolidated_idempotent(list: Seq<SegmentView>)
    ensures
        consolidated(consolidated(list)) == consolidated(list),
{
    lemma_consolidated_has_no_chainable_pair(list);
    lemma_consolidated_unchanged(consolidated(list));
}

/// A chain of three segments over four different endpoints, standing at the
/// positions `first`, `second` and `third` in whatever order, collapses into
/// the one segment from its first origin to its last destination.
pub proof fn lemma_chain_of_three_collapses(
    list: Seq<SegmentView>,
    first: int,
    second: int,
    third: int,
)
    requires
        list.len() == 3,
        0 <= first < 3 && 0 <= second < 3 && 0 <= third < 3,
        first != second && first != third && second != third,
        list[first].destination == list[second].origin,
        list[second].destination == list[third].origin,
        list[first].origin != list[first].destination,
        list[first].origin != list[second].destination,
        list[first].origin != list[third].destination,
        list[second].origin != list[second].destination,
        list[second].origin != list[third].destination,
        list[third].origin != list[third].destination,
    ensures
        consolidated(list) == seq![
            SegmentView { origin: list[first].origin, destination: list[third].destination },
        ],
{
    let whole = SegmentView { origin: list[first].origin, destination: list[third].destination };
    if first < second {
        // The first two are joined and put behind the third, which the joined
        // segment then chains to.
        assert(chains(list, first, second));
        assert(is_next_pair(list, first, second));
        lemma_consolidated_step(list, first, second);
        let rest = contracted(list, first, second);
        assert(rest =~= seq![
            list[third],
            SegmentView { origin: list[first].origin, destination: list[second].destination },
        ]);
        assert(chains(rest, 1, 0));
        assert(is_next_pair(rest, 1, 0));
        lemma_consolidated_step(rest, 1, 0);
        assert(contracted(rest, 1, 0) =~= seq![whole]);
    } else {
        // The last two are joined and put behind the first, which chains to
        // the joined segment.
        assert(chains(list, second, third));
        assert(is_next_pair(list, second, third));
        lemma_consolidated_step(list, second, third);
        let rest = contracted(list, second, third);
        assert(rest =~= seq![
            list[first],
            SegmentView { origin: list[second].origin, destination: list[third].destination },
        ]);
        assert(chains(rest, 0, 1));
        assert(is_next_pair(rest, 0, 1));
        lemma_consolidated_step(rest, 0, 1);
        assert(contracted(rest, 0, 1) =~= seq![whole]);
    }
    assert(!has_chainable_pair(seq![whole]));
    lemma_consolidated_unchanged(seq![whole]);
}

/// Two segments that lead to each other collapse into one segment that leads
/// from the first origin back to itself.
pub proof fn lemma_cycle_of_two_collapses(there: SegmentView, back: SegmentView)
    requires
        there.destination == back.origin,
        back.destination == there.origin,
    ensures
        consolidated(seq![there, back]) == seq![
            SegmentView { origin: there.origin, destination: there.origin },
        ],
{
    let list = seq![there, back];
    let around = SegmentView { origin: there.origin, destination: there.origin };
    assert(chains(list, 0, 1));
    assert(is_next_pair(list, 0, 1));
    lemma_consolidated_step(list, 0, 1);
    assert(contracted(list, 0, 1) =~= seq![around]);
    assert(!has_chainable_pair(seq![around]));
    lemma_consolidated_unchanged(seq![around]);
}

/// Looks for the lowest position that segment `i` chains to.
pub fn find_partner(list: &Vec<Segment>, i: usize) -> (found: Option<usize>)
    ensures
        match found {
            Some(j) => is_partner(list.deep_view(), i as int, j as int),
            None => forall|l: int| !chains(list.deep_view(), i as int, l),
        },
{
    if i >= list.len() {
        return None;
    }
    let mut j: usize = 0;
    while j < list.len()
        invariant
            i < list.len(),
            j <= list.len(),
            forall|l: int| 0 <= l < j ==> !chains(list.deep_view(), i as int, l),
        decreases list.len() - j,
    {
        if j != i && *list[i].destination() == *list[j].origin() {
            return Some(j);
        }
        j += 1;
    }
    None
}

/// Takes the two different segments `i` and `j` out of the list and puts the
/// segment from the origin of `i` to the destination of `j` at its end.
pub fn contract(list: &mut Vec<Segment>, i: usize, j: usize)
    requires
        i < old(list).len(),
        j < old(list).len(),
        i != j,
    ensures
        final(list).deep_view() == contracted(old(list).deep_view(), i as int, j as int),
{
    let origin = list[i].origin().clone();
    let destination = list[j].destination().clone();
    if i < j {
        list.remove(j);
        list.remove(i);
    } else {
        list.remove(i);
        list.remove(j);
    }
    list.push(Segment::new(origin, destination));
    assert(list.deep_view() =~= contracted(old(list).deep_view(), i as int, j as int));
}

/// Consolidates the list: contracts the next pair until no two segments can be
/// chained any more.
///
/// The result is the input itself, in its order, when nothing could be chained.
/// It is shorter than the input by one segment for each contraction made.
pub fn consolidate(segments: Vec<Segment>) -> (merged: Vec<Segment>)
    ensures
        merged.deep_view() == consolidated(segments.deep_view()),
        !has_chainable_pair(merged.deep_view()),
        merged.len() <= segments.len(),
        merged.len() == segments.len() <==> !has_chainable_pair(segments.deep_view()),
        !has_chainable_pair(segments.deep_view()) ==> merged.deep_view() == segments.deep_view(),
{
    let ghost input = segments.deep_view();
    let mut list = segments;
    let mut i: usize = 0;
    while i < list.len()
        invariant
            i <= list.len(),
            consolidated(list.deep_view()) == consolidated(input),
            forall|k: int, l: int| 0 <= k < i ==> !chains(list.deep_view(), k, l),
        decreases list.len(), list.len() - i,
    {
        match find_partner(&list, i) {
            Some(j) => {
                proof {
                    lemma_consolidated_step(list.deep_view(), i as int, j as int);
                    lemma_contracted_len(list.deep_view(), i as int, j as int);
                }
                contract(&mut list, i, j);
                i = 0;
            },
            None => {
                i += 1;
            },
        }
    }
    proof {
        lemma_consolidated_unchanged(list.deep_view());
        lemma_consolidated_has_no_chainable_pair(input);
        lemma_consolidated_len(input);
        if !has_chainable_pair(input) {
            lemma_consolidated_unchanged(input);
        }
    }
    list
}

} // verus!
