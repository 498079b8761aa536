use ben::utils::{assign_slice_to_rle, assign_to_rle, rle_to_vec};

#[test]
fn rle_of_two_runs() {
    assert_eq!(assign_to_rle(vec![1, 1, 1, 2, 2, 2]), vec![(1, 3), (2, 3)]);
}

#[test]
fn rle_of_alternating_labels() {
    assert_eq!(
        assign_to_rle(vec![1, 1, 2, 2, 1, 2]),
        vec![(1, 2), (2, 2), (1, 1), (2, 1)]
    );
}

#[test]
fn rle_of_empty_vector_is_empty() {
    assert_eq!(assign_to_rle(Vec::new()), Vec::<(u16, u16)>::new());
}

#[test]
fn rle_of_single_label() {
    assert_eq!(assign_to_rle(vec![9]), vec![(9, 1)]);
}

#[test]
fn rle_of_slice_matches_vector() {
    let v: Vec<u16> = vec![4, 4, 0, 0, 0, 65535];
    assert_eq!(assign_slice_to_rle(&v), vec![(4, 2), (0, 3), (65535, 1)]);
    assert_eq!(assign_slice_to_rle(&v), assign_to_rle(v.clone()));
}

#[test]
fn rle_cuts_a_stretch_longer_than_a_run() {
    let v: Vec<u16> = vec![7; 70000];
    assert_eq!(assign_to_rle(v), vec![(7, 65535), (7, 4465)]);
}

#[test]
fn rle_full_run_followed_by_other_label() {
    let mut v: Vec<u16> = vec![7; 65535];
    v.push(8);
    assert_eq!(assign_to_rle(v), vec![(7, 65535), (8, 1)]);
}

#[test]
fn expand_two_runs() {
    assert_eq!(rle_to_vec(vec![(1, 3), (2, 3)]), vec![1, 1, 1, 2, 2, 2]);
}

#[test]
fn expand_nothing() {
    assert_eq!(rle_to_vec(Vec::new()), Vec::<u16>::new());
}

#[test]
fn expand_skips_a_run_of_no_nodes() {
    assert_eq!(rle_to_vec(vec![(1, 2), (5, 0), (2, 1)]), vec![1, 1, 2]);
}

#[test]
fn expand_undoes_rle() {
    let v: Vec<u16> = vec![0, 0, 0, 5, 5, 1000, 1000, 1000, 1000, 3];
    assert_eq!(rle_to_vec(assign_to_rle(v.clone())), v);
    let long: Vec<u16> = vec![2; 140000];
    assert_eq!(rle_to_vec(assign_to_rle(long.clone())), long);
}

#[test]
fn runs_are_maximal_and_not_empty() {
    let v: Vec<u16> = vec![3, 3, 1, 1, 1, 3, 2, 2];
    let runs = assign_to_rle(v.clone());
    let total: usize = runs.iter().map(|r| r.1 as usize).sum();
    assert_eq!(total, v.len());
    for r in runs.iter() {
        assert!(r.1 >= 1);
    }
    for pair in runs.windows(2) {
        assert_ne!(pair[0].0, pair[1].0);
    }
}
