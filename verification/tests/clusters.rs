use isomfolio_core::clusters::group_labels;

#[test]
fn groups_come_largest_first_with_noise_apart() {
    let r = group_labels(&[0, 1, 1, -1, 2, 0, 1]);
    assert_eq!(r.groups, vec![vec![1, 2, 6], vec![0, 5], vec![4]]);
    assert_eq!(r.labels, vec![1, 0, 2]);
    assert_eq!(r.noise, vec![3]);
}

#[test]
fn equal_sizes_keep_label_order() {
    let r = group_labels(&[2, 0, 2, 0, -5]);
    assert_eq!(r.groups, vec![vec![1, 3], vec![0, 2]]);
    assert_eq!(r.labels, vec![0, 2]);
    assert_eq!(r.noise, vec![4]);
}

#[test]
fn no_labels_no_groups() {
    let r = group_labels(&[]);
    assert!(r.groups.is_empty() && r.labels.is_empty() && r.noise.is_empty());
    let r = group_labels(&[-1, -1]);
    assert!(r.groups.is_empty());
    assert_eq!(r.noise, vec![0, 1]);
}
