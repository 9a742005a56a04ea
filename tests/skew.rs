use fm_index::skew::skew;
use fm_index::remap_reference;

#[test]
fn test_skew_mississippi() {
    let string = "CATTATTAGGA";
    let reference = remap_reference(&string).unwrap();
    let result = skew(&reference);
    assert_eq!(result, vec![11, 10, 7, 4, 1, 0, 9, 8, 6, 3, 5, 2]);
}

#[test]
fn test_skew_medium_string() {
    let reference =
        remap_reference("AATAAACCTTACCTAGCACTCCATCATGTCTTATGGCGCGTGATTTGCCCCGGACTCAGG").unwrap();
    let result = skew(&reference);
    assert_eq!(
        result,
        vec![
            60, 3, 4, 0, 10, 5, 53, 17, 14, 57, 1, 22, 32, 25, 42, 16, 56, 21, 24, 20, 47, 48,
            49, 11, 6, 36, 50, 38, 12, 54, 18, 7, 29, 59, 52, 41, 15, 46, 35, 37, 58, 51, 34,
            27, 39, 2, 9, 13, 31, 55, 23, 19, 28, 40, 45, 33, 26, 8, 30, 44, 43
        ]
    );
}

#[test]
fn test_skew_aaaaaa() {
    let reference = remap_reference("AAAAAAAAAAAAAAAAAAAAAAAAAAAAAAAAAAAAAAAAAAAAAAAAAAAAAAAAAAAAAAAAAAAAAAAAAAAAAAAAAAAAAAAAAAAAAAAAAAAAAAAAAAAAAAAAAAAAAAAAAAAAAAAAAAAAAAAAAAAAAAAAAAAAAAAAAAAAAAAAAAAAAAAAAAAAAAAAAAAAAAAAAAAAAAAAAAAAAAAAAAAAAAAAAAAAAAAAAAAAAAAAAAAAAAAAAAAAAAAAAAAAAAAAAAAAAAAAAAAAAAAAAAAA").unwrap();
    let result = skew(&reference);
    for i in 0..reference.len() {
        assert_eq!(result[i], reference.len() - i - 1);
    }
}

#[test]
fn skew_of_mixed_reference() {
    let reference = remap_reference("CCAATTAATTAAGGAA").unwrap();
    assert_eq!(
        skew(&reference),
        vec![16, 15, 14, 10, 6, 2, 11, 7, 3, 1, 0, 13, 12, 9, 5, 8, 4]
    );
}
