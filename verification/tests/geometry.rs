use polis::cut::{front_edge, split_ring};
use polis::ranks::{age_medians, in_order, percentile};

#[test]
fn a_cut_across_the_foot_makes_two_pieces() {
    // An L, cut across the foot: the two crossings are corners 2 and 7.
    let side = vec![-1, -1, 0, 1, 1, 1, 1, 0];
    let along = vec![0, -3, -3, -3, -1, -1, 0, 0];
    let cut = split_ring(&side, &along).expect("it is cut");
    assert_eq!(cut.below, vec![vec![7, 0, 1, 2]]);
    assert_eq!(cut.above, vec![vec![2, 3, 4, 5, 6, 7]]);
}

#[test]
fn a_cut_across_two_legs_makes_three_pieces() {
    // A U with its legs up: corners 0..=7 of the outline and four crossings.
    let side = vec![-1, -1, 0, 1, 1, 0, -1, -1, 0, 1, 1, 0];
    let along = vec![0, 5, 5, 5, 3, 3, 3, 2, 2, 2, 0, 0];
    let cut = split_ring(&side, &along).expect("it is cut");
    assert_eq!(cut.above.len(), 2, "the two tips");
    assert_eq!(cut.above[0], vec![2, 3, 4, 5]);
    assert_eq!(cut.above[1], vec![8, 9, 10, 11]);
    assert_eq!(cut.below, vec![vec![5, 6, 7, 8, 11, 0, 1, 2]]);
    let mut corners: Vec<usize> = cut.below.concat();
    corners.sort_unstable();
    assert_eq!(corners, vec![0, 1, 2, 5, 6, 7, 8, 11], "each once");
}

#[test]
fn a_ring_on_one_side_is_one_piece_of_that_side() {
    for side in [vec![1, 1, 1, 1], vec![0, 1, 1, 1], vec![0, 0, 1, 1], vec![0, 1, 0, 1]] {
        let cut = split_ring(&side, &vec![0, 1, 2, 3]).expect("nothing is crossed");
        assert_eq!(cut.above, vec![vec![0, 1, 2, 3]]);
        assert!(cut.below.is_empty());
        let turned: Vec<i8> = side.iter().map(|s| -s).collect();
        let cut = split_ring(&turned, &vec![0, 1, 2, 3]).expect("nothing is crossed");
        assert_eq!(cut.below, vec![vec![0, 1, 2, 3]]);
        assert!(cut.above.is_empty());
    }
    let flat = split_ring(&vec![0, 0, 0], &vec![0, 1, 2]).expect("nothing is crossed");
    assert!(flat.below.is_empty() && flat.above.is_empty());
    assert!(split_ring(&vec![], &vec![]).is_some());
    assert!(split_ring(&vec![1, -1, 0], &vec![0, 1, 2]).is_none(), "a crossing is missing");
}

#[test]
fn a_corner_that_only_touches_the_line_is_no_crossing() {
    // Two crossings, and a tooth that comes down to the line from above.
    let side = vec![-1, -1, 0, 1, 0, 1, 0];
    let along = vec![0, 9, 9, 8, 5, 2, 0];
    let cut = split_ring(&side, &along).expect("every crossing is a corner");
    assert_eq!(cut.below, vec![vec![6, 0, 1, 2]]);
    assert_eq!(cut.above, vec![vec![2, 3, 4, 5, 6]]);
    // The ring runs along the line where it crosses: one crossing, where it leaves.
    let side = vec![-1, 0, 0, 1, 1, 0];
    let along = vec![0, 5, 3, 3, 0, 0];
    let cut = split_ring(&side, &along).expect("every crossing is a corner");
    assert_eq!(cut.below, vec![vec![5, 0, 1, 2]]);
    assert_eq!(cut.above, vec![vec![2, 3, 4, 5]]);
}

#[test]
fn a_parcel_faces_the_greatest_key() {
    let keys = vec![None, Some((0, 9, 0, 0)), Some((1, 2, 3, 4)), Some((1, 2, 3, 4)), Some((1, 2, 3, 3))];
    assert_eq!(front_edge(&keys), Some(2));
    assert_eq!(front_edge(&vec![None, None]), None);
}

#[test]
fn ranks_count_what_stands_before() {
    let keys = vec![Some((3, 0)), None, Some((1, 5)), Some((1, 2)), Some((3, 0))];
    assert_eq!(in_order(&keys), vec![3, 2, 0, 4]);
    let hundred: Vec<Option<(i64, i64)>> = (0..100).map(|i| Some(((i * 7) % 100, 0))).collect();
    let value = |p: usize| hundred[percentile(&hundred, p).unwrap()].unwrap().0;
    assert_eq!((value(5), value(50), value(95), value(100)), (5, 50, 95, 99));
    assert_eq!(percentile(&vec![None], 50), None);
}

#[test]
fn the_gradient_compares_the_oldest_third_with_the_newest() {
    // Nine blocks, three to a third; one has no age.
    let births = vec![0, 1, 2, 10, 11, 12, 20, 21, 22, u32::MAX];
    let areas = vec![5, 1, 3, 9, 9, 9, 40, 60, 50, 1];
    assert_eq!(age_medians(&births, &areas), Some((2, 8)));
    assert_eq!(age_medians(&vec![0, 1, 2, 3, 4], &vec![1; 5]), None);
}
