use fm_index::{
    construct_suffix_array_naive, is_valid_suffix_array, remap_reference, skew,
    suffix_array_induced_sort,
};

#[test]
fn mixed_reference_suffix_array() {
    let reference = remap_reference("CCAATTAATTAAGGAA").unwrap();
    let want = vec![16, 15, 14, 10, 6, 2, 11, 7, 3, 1, 0, 13, 12, 9, 5, 8, 4];
    assert_eq!(suffix_array_induced_sort(&reference), want);
    assert_eq!(construct_suffix_array_naive(&reference), want);
}

#[test]
fn repeated_symbol_reference_sorts_backwards() {
    let reference = remap_reference("GGGGGGGGGGGGGGGGGGGG").unwrap();
    let n = reference.len();
    let sa = suffix_array_induced_sort(&reference);
    for i in 0..n {
        assert_eq!(sa[i], n - 1 - i);
    }
}

#[test]
fn builders_agree() {
    for s in ["A", "ACGT", "TTTTACGTACGTTTT", "GATTACAGATTACAGATTACA", "CATTATTAGGA"] {
        let reference = remap_reference(s).unwrap();
        let naive = construct_suffix_array_naive(&reference);
        assert_eq!(skew(&reference), naive);
        assert_eq!(suffix_array_induced_sort(&reference), naive);
        assert!(is_valid_suffix_array(&reference, &naive));
    }
}

#[test]
fn checker_rejects_wrong_orders() {
    let reference = remap_reference("ACGT").unwrap();
    assert!(is_valid_suffix_array(&reference, &[4, 0, 1, 2, 3]));
    assert!(!is_valid_suffix_array(&reference, &[4, 1, 0, 2, 3]));
    assert!(!is_valid_suffix_array(&reference, &[4, 0, 1, 2, 2]));
    assert!(!is_valid_suffix_array(&reference, &[4, 0, 1, 2]));
    assert!(!is_valid_suffix_array(&reference, &[3, 2, 1, 0, 4]));
}

#[test]
fn single_sentinel_reference() {
    let sa = construct_suffix_array_naive(&[0]);
    assert_eq!(sa, vec![0]);
}
