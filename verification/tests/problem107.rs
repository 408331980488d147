use std::collections::HashSet;
use euler::problem107::{
    answer, checked_prim, checked_weight, find_minimum, parse_entry, parse_network, prim,
    sample_network, savings, weight,
};

#[test]
fn test_min_weight_sample() {
    let (n, v) = sample_network();
    let w = prim(&v, n);
    assert_eq!(w, 93);
}

#[test]
fn test_start_weight_sample() {
    let (n, v) = sample_network();
    let w = weight(&v, n);
    assert_eq!(w, 243);
}

#[test]
fn lightest_edge_out_of_the_tree() {
    let (n, v) = sample_network();
    let mut inside: HashSet<usize> = HashSet::new();
    let mut outside: HashSet<usize> = (1..n).collect();
    inside.insert(0);
    assert_eq!(find_minimum(&v, &inside, &outside, n), (2, 12));
    outside.remove(&2);
    inside.insert(2);
    assert_eq!(find_minimum(&v, &inside, &outside, n), (1, 16));
}

#[test]
fn no_edge_out_of_a_full_tree() {
    let (n, v) = sample_network();
    let inside: HashSet<usize> = (0..n).collect();
    let outside: HashSet<usize> = HashSet::new();
    assert_eq!(find_minimum(&v, &inside, &outside, n), (0, usize::MAX));
}

#[test]
fn vertices_beyond_the_network_are_not_looked_at() {
    let (n, v) = sample_network();
    let inside: HashSet<usize> = vec![0, 100].into_iter().collect();
    let outside: HashSet<usize> = vec![3, 200].into_iter().collect();
    assert_eq!(find_minimum(&v, &inside, &outside, n), (3, 21));
}

#[test]
fn single_vertex_weighs_nothing() {
    assert_eq!(prim(&vec![None], 1), 0);
    assert_eq!(weight(&vec![None], 1), 0);
    assert_eq!(weight(&vec![], 0), 0);
}

#[test]
fn text_is_split_at_commas_and_white_space() {
    assert_eq!(
        parse_network(b"-,16,12\n16,-,+7\t0"),
        vec![None, Some(16), Some(12), Some(16), None, Some(7), Some(0)]
    );
}

#[test]
fn empty_entries_stand_for_no_edge() {
    assert_eq!(parse_network(b""), vec![None]);
    assert_eq!(parse_network(b"5"), vec![Some(5)]);
    assert_eq!(parse_network(b"5,\r\n6\n"), vec![Some(5), None, None, Some(6), None]);
    assert_eq!(parse_network(b"+"), vec![None]);
    assert_eq!(parse_network(b"1x 2"), vec![None, Some(2)]);
}

#[test]
fn numbers_that_do_not_fit_stand_for_no_edge() {
    assert_eq!(parse_entry(&b"18446744073709551615".to_vec()), Some(18446744073709551615));
    assert_eq!(parse_entry(&b"18446744073709551616".to_vec()), None);
    assert_eq!(parse_entry(&b"184467440737095516150".to_vec()), None);
    assert_eq!(parse_entry(&b"007".to_vec()), Some(7));
}

#[test]
fn savings_of_the_sample_network() {
    let (n, v) = sample_network();
    assert_eq!(checked_weight(&v, n), Some(243));
    assert_eq!(checked_prim(&v, n), Some(93));
    assert_eq!(savings(&v, n), Some(150));
}

#[test]
fn network_in_two_parts_has_no_spanning_tree() {
    let v = vec![None, None, None, None];
    assert_eq!(checked_prim(&v, 2), None);
    assert_eq!(savings(&v, 2), None);
    assert_eq!(checked_prim(&v, 3), None);
}

#[test]
fn answer_needs_forty_by_forty_entries() {
    assert_eq!(answer(b"1,2,3"), None);
    let mut text = String::new();
    for i in 0..40 {
        for j in 0..40 {
            if j > 0 {
                text.push(',');
            }
            if i == j {
                text.push('-');
            } else {
                text.push('1');
            }
        }
        if i < 39 {
            text.push('\n');
        }
    }
    // 780 edges of weight 1, of which a spanning tree keeps 39
    assert_eq!(answer(text.as_bytes()), Some(741));
}
