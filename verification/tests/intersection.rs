use movie_search::intersect::{intersect2, intersect_many, is_ascending_by_doc, DocTf};
use movie_search::method::{intersect_terms, order_by_length, Method};
use movie_search::pairing::both;

fn list(docs: &[(u64, u64)]) -> Vec<DocTf> {
    docs.iter().map(|&(doc_id, tf)| DocTf { doc_id, tf }).collect()
}

fn docs_of(matches: &[(u64, Vec<u64>)]) -> Vec<u64> {
    matches.iter().map(|m| m.0).collect()
}

#[test]
fn both_pairs_two_present_values() {
    assert_eq!(both(Some(1u8), Some("x")), Some((1u8, "x")));
}

#[test]
fn both_is_none_when_either_is_missing() {
    assert_eq!(both(None::<u8>, Some(2u8)), None);
    assert_eq!(both(Some(1u8), None::<u8>), None);
    assert_eq!(both(None::<u8>, None::<u8>), None);
}

#[test]
fn two_terms_share_two_documents_under_both_methods() {
    let a = list(&[(1, 1), (2, 1), (5, 1), (7, 1)]);
    let b = list(&[(2, 1), (5, 1), (9, 1)]);
    let lists = vec![a, b];
    let (mut s1, mut c1, mut s2, mut c2) = (0u64, 0u64, 0u64, 0u64);
    let naive = intersect_terms(&lists, Method::Naive, &mut s1, &mut c1);
    let ascending = intersect_terms(&lists, Method::Ascending, &mut s2, &mut c2);
    assert_eq!(docs_of(&naive), vec![2, 5]);
    assert_eq!(docs_of(&ascending), vec![2, 5]);
    assert_eq!(naive, ascending);
}

#[test]
fn intersect2_extends_frequencies_and_counts_comparisons() {
    let left = vec![(1u64, vec![3u64]), (2, vec![4]), (5, vec![6]), (7, vec![8])];
    let right = list(&[(2, 10), (5, 20), (9, 30)]);
    let mut compares = 0u64;
    let r = intersect2(&left, &right, &mut compares);
    assert_eq!(r, vec![(2u64, vec![4u64, 10]), (5, vec![6, 20])]);
    // 1 < 2: one; 2 == 2: two; 5 == 5: two; 7 < 9: one.
    assert_eq!(compares, 6);
}

#[test]
fn intersect2_counts_two_when_the_right_document_is_smaller() {
    let left = vec![(5u64, vec![1u64])];
    let right = list(&[(1, 1), (5, 2)]);
    let mut compares = 10u64;
    let r = intersect2(&left, &right, &mut compares);
    assert_eq!(r, vec![(5u64, vec![1u64, 2])]);
    assert_eq!(compares, 14);
}

#[test]
fn intersect2_with_an_empty_side_is_empty() {
    let mut compares = 0u64;
    assert!(intersect2(&vec![], &list(&[(1, 1)]), &mut compares).is_empty());
    assert!(intersect2(&vec![(1u64, vec![1u64])], &vec![], &mut compares).is_empty());
    assert_eq!(compares, 0);
}

#[test]
fn intersect_many_of_one_list_is_that_list() {
    let lists = vec![list(&[(3, 2), (8, 1)])];
    let mut compares = 0u64;
    let r = intersect_many(&lists, &mut compares);
    assert_eq!(r, vec![(3u64, vec![2u64]), (8, vec![1])]);
    assert_eq!(compares, 0);
}

#[test]
fn intersect_many_keeps_frequencies_in_list_order() {
    let lists = vec![
        list(&[(1, 11), (2, 12), (3, 13), (4, 14)]),
        list(&[(2, 22), (4, 24)]),
        list(&[(0, 30), (2, 32), (4, 34), (6, 36)]),
    ];
    let mut compares = 0u64;
    let r = intersect_many(&lists, &mut compares);
    assert_eq!(r, vec![(2u64, vec![12u64, 22, 32]), (4, vec![14, 24, 34])]);
}

#[test]
fn ascending_method_keeps_frequencies_in_query_order() {
    let lists = vec![
        list(&[(1, 11), (2, 12), (3, 13), (4, 14)]),
        list(&[(2, 22), (4, 24)]),
        list(&[(0, 30), (2, 32), (4, 34)]),
    ];
    let (mut s, mut c) = (0u64, 0u64);
    let r = intersect_terms(&lists, Method::Ascending, &mut s, &mut c);
    assert_eq!(r, vec![(2u64, vec![12u64, 22, 32]), (4, vec![14, 24, 34])]);
    assert!(s > 0);
}

#[test]
fn naive_method_makes_no_sort_comparisons() {
    let lists = vec![list(&[(1, 1)]), list(&[(1, 1)])];
    let (mut s, mut c) = (7u64, 0u64);
    let r = intersect_terms(&lists, Method::Naive, &mut s, &mut c);
    assert_eq!(r, vec![(1u64, vec![1u64, 1])]);
    assert_eq!(s, 7);
    assert_eq!(c, 2);
}

#[test]
fn order_by_length_puts_shorter_lists_first_and_keeps_ties_in_place() {
    let lists = vec![
        list(&[(1, 1), (2, 1), (3, 1)]),
        list(&[(1, 1)]),
        list(&[(1, 1), (2, 1), (4, 1)]),
        list(&[(2, 1)]),
        list(&[]),
    ];
    let mut s = 0u64;
    assert_eq!(order_by_length(&lists, &mut s), vec![4, 1, 3, 0, 2]);
}

#[test]
fn disjoint_lists_have_no_common_document() {
    let lists = vec![list(&[(1, 1), (3, 1)]), list(&[(2, 1), (4, 1)])];
    let (mut s, mut c) = (0u64, 0u64);
    assert!(intersect_terms(&lists, Method::Naive, &mut s, &mut c).is_empty());
    assert!(intersect_terms(&lists, Method::Ascending, &mut s, &mut c).is_empty());
}

#[test]
fn document_lists_strictly_ascend() {
    assert!(is_ascending_by_doc(&list(&[])));
    assert!(is_ascending_by_doc(&list(&[(3, 1)])));
    assert!(is_ascending_by_doc(&list(&[(1, 9), (2, 1), (7, 1)])));
    assert!(!is_ascending_by_doc(&list(&[(1, 1), (1, 1)])));
    assert!(!is_ascending_by_doc(&list(&[(1, 1), (5, 1), (4, 1)])));
}

#[test]
fn the_merge_counter_stops_at_its_largest_value() {
    let left = vec![(1u64, vec![3u64]), (2, vec![4]), (5, vec![6]), (7, vec![8])];
    let right = list(&[(2, 10), (5, 20), (9, 30)]);
    // The merge takes six comparisons.
    let mut compares = u64::MAX - 6;
    intersect2(&left, &right, &mut compares);
    assert_eq!(compares, u64::MAX);
    let mut compares = u64::MAX - 7;
    intersect2(&left, &right, &mut compares);
    assert_eq!(compares, u64::MAX - 1);
    let mut compares = u64::MAX - 2;
    let r = intersect2(&left, &right, &mut compares);
    assert_eq!(compares, u64::MAX);
    assert_eq!(r, vec![(2u64, vec![4u64, 10]), (5, vec![6, 20])]);
}
