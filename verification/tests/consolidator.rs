use flights::consolidator::{consolidate, contract, find_partner};
use flights::segment::Segment;

fn leg(origin: &str, destination: &str) -> Segment {
    Segment::new(origin.to_string(), destination.to_string())
}

fn legs(pairs: &[(&str, &str)]) -> Vec<Segment> {
    pairs.iter().map(|(origin, destination)| leg(origin, destination)).collect()
}

fn has_chainable_pair(list: &[Segment]) -> bool {
    (0..list.len()).any(|i| {
        (0..list.len()).any(|j| i != j && list[i].destination() == list[j].origin())
    })
}

#[test]
fn chain_collapses_in_given_order() {
    assert_eq!(
        consolidate(legs(&[("A", "B"), ("B", "C"), ("C", "D")])),
        legs(&[("A", "D")])
    );
}

#[test]
fn chain_collapses_in_every_order() {
    let chain = [("A", "B"), ("B", "C"), ("C", "D")];
    let orders = [[0, 1, 2], [0, 2, 1], [1, 0, 2], [1, 2, 0], [2, 0, 1], [2, 1, 0]];
    for order in orders {
        let input = legs(&[chain[order[0]], chain[order[1]], chain[order[2]]]);
        assert_eq!(consolidate(input), legs(&[("A", "D")]));
    }
}

#[test]
fn disjoint_segments_are_unaffected() {
    assert_eq!(
        consolidate(legs(&[("A", "B"), ("C", "D")])),
        legs(&[("A", "B"), ("C", "D")])
    );
}

#[test]
fn cycle_terminates_in_one_self_referential_segment() {
    assert_eq!(consolidate(legs(&[("A", "B"), ("B", "A")])), legs(&[("A", "A")]));
}

#[test]
fn longer_cycle_terminates() {
    // ("A","B") and ("B","C") are joined first and go to the end, behind
    // ("C","A"), which then is the segment that finds a partner.
    assert_eq!(
        consolidate(legs(&[("A", "B"), ("B", "C"), ("C", "A")])),
        legs(&[("C", "C")])
    );
}

#[test]
fn empty_list_stays_empty() {
    assert_eq!(consolidate(Vec::new()), Vec::new());
}

#[test]
fn single_segment_stays() {
    assert_eq!(consolidate(legs(&[("A", "B")])), legs(&[("A", "B")]));
    assert_eq!(consolidate(legs(&[("X", "X")])), legs(&[("X", "X")]));
}

#[test]
fn consolidation_is_idempotent() {
    let inputs = [
        legs(&[("A", "B"), ("B", "C"), ("C", "D")]),
        legs(&[("A", "B"), ("C", "D")]),
        legs(&[("A", "B"), ("B", "A")]),
        legs(&[("A", "B"), ("B", "C"), ("B", "D"), ("D", "E"), ("X", "A")]),
        legs(&[]),
    ];
    for input in inputs {
        let once = consolidate(input);
        assert!(!has_chainable_pair(&once));
        let twice = consolidate(once.clone());
        assert_eq!(twice, once);
    }
}

#[test]
fn list_without_chainable_pair_comes_back_in_its_order() {
    let input = legs(&[("D", "X"), ("A", "Y"), ("C", "Z"), ("B", "W"), ("Q", "Q")]);
    assert_eq!(consolidate(input.clone()), input);
}

#[test]
fn count_never_grows_and_stays_only_without_chainable_pair() {
    let inputs = [
        legs(&[]),
        legs(&[("A", "B")]),
        legs(&[("A", "B"), ("C", "D")]),
        legs(&[("A", "B"), ("B", "C")]),
        legs(&[("A", "B"), ("B", "A")]),
        legs(&[("A", "B"), ("A", "B")]),
        legs(&[("X", "X"), ("X", "X")]),
        legs(&[("A", "B"), ("B", "C"), ("B", "D"), ("D", "E"), ("X", "A")]),
    ];
    for input in inputs {
        let before = input.len();
        let chainable = has_chainable_pair(&input);
        let after = consolidate(input).len();
        assert!(after <= before);
        assert_eq!(after == before, !chainable);
    }
}

#[test]
fn each_contraction_takes_one_segment_away() {
    assert_eq!(consolidate(legs(&[("A", "B"), ("B", "C"), ("X", "Y")])).len(), 2);
    assert_eq!(
        consolidate(legs(&[("A", "B"), ("B", "C"), ("X", "Y"), ("Y", "Z")])).len(),
        2
    );
    assert_eq!(
        consolidate(legs(&[("A", "B"), ("B", "C"), ("C", "D"), ("D", "E"), ("E", "F")])).len(),
        1
    );
}

#[test]
fn joined_segment_goes_to_the_end() {
    assert_eq!(
        consolidate(legs(&[("A", "B"), ("B", "C"), ("X", "Y")])),
        legs(&[("X", "Y"), ("A", "C")])
    );
    assert_eq!(
        consolidate(legs(&[("X", "Y"), ("A", "B"), ("B", "C")])),
        legs(&[("X", "Y"), ("A", "C")])
    );
}

#[test]
fn scan_restarts_from_the_front_after_a_contraction() {
    // ("C","D") finds no partner at first; after ("A","B") and ("B","C") are
    // joined, the restart finds nothing for it again, then joins ("A","C") to it.
    assert_eq!(
        consolidate(legs(&[("C", "D"), ("A", "B"), ("B", "C")])),
        legs(&[("A", "D")])
    );
    assert_eq!(
        consolidate(legs(&[("M", "N"), ("C", "D"), ("A", "B"), ("B", "C"), ("N", "O")])),
        legs(&[("M", "O"), ("A", "D")])
    );
}

#[test]
fn lowest_partner_wins_when_an_origin_is_shared() {
    assert_eq!(
        consolidate(legs(&[("A", "B"), ("B", "C"), ("B", "D")])),
        legs(&[("B", "D"), ("A", "C")])
    );
    assert_eq!(
        consolidate(legs(&[("A", "B"), ("B", "D"), ("B", "C")])),
        legs(&[("B", "C"), ("A", "D")])
    );
}

#[test]
fn lowest_position_wins_when_a_destination_is_shared() {
    assert_eq!(
        consolidate(legs(&[("A", "C"), ("B", "C"), ("C", "D")])),
        legs(&[("B", "C"), ("A", "D")])
    );
}

#[test]
fn partner_may_stand_before_the_segment() {
    assert_eq!(consolidate(legs(&[("B", "C"), ("A", "B")])), legs(&[("A", "C")]));
}

#[test]
fn self_referential_segment_joins_like_any_other() {
    assert_eq!(consolidate(legs(&[("X", "X"), ("X", "Y")])), legs(&[("X", "Y")]));
    assert_eq!(consolidate(legs(&[("X", "X"), ("X", "X")])), legs(&[("X", "X")]));
}

#[test]
fn equal_segments_that_do_not_chain_both_stay() {
    assert_eq!(
        consolidate(legs(&[("A", "B"), ("A", "B")])),
        legs(&[("A", "B"), ("A", "B")])
    );
}

#[test]
fn endpoints_are_compared_exactly() {
    assert_eq!(
        consolidate(legs(&[("A", "b"), ("B", "C"), ("A", "B "), (" B", "D")])),
        legs(&[("A", "b"), ("B", "C"), ("A", "B "), (" B", "D")])
    );
}

#[test]
fn find_partner_gives_the_lowest_other_position() {
    let list = legs(&[("A", "B"), ("B", "C"), ("B", "D"), ("C", "C"), ("Z", "A")]);
    assert_eq!(find_partner(&list, 0), Some(1));
    assert_eq!(find_partner(&list, 1), Some(3));
    assert_eq!(find_partner(&list, 2), None);
    assert_eq!(find_partner(&list, 3), None);
    assert_eq!(find_partner(&list, 4), Some(0));
}

#[test]
fn contract_joins_a_pair_at_the_end() {
    let mut list = legs(&[("A", "B"), ("X", "Y"), ("B", "C"), ("P", "Q")]);
    contract(&mut list, 0, 2);
    assert_eq!(list, legs(&[("X", "Y"), ("P", "Q"), ("A", "C")]));

    let mut list = legs(&[("B", "C"), ("X", "Y"), ("A", "B")]);
    contract(&mut list, 2, 0);
    assert_eq!(list, legs(&[("X", "Y"), ("A", "C")]));
}
