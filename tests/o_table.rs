use fm_index::{
    generate_o_table_naive, remap_reference, suffix_array_induced_sort, OTable, ALPHABET,
};

#[test]
fn test_o_table_shape() {
    let reference = remap_reference("ACGTATCGTGACGGGCTATAGCGATGTCGATGC").unwrap();
    let sa = suffix_array_induced_sort(&reference);
    let o_table = OTable::new(&reference, &sa, 10);
    let (rows, cols) = o_table.shape();
    assert_eq!(rows, ALPHABET.len());
    assert_eq!(cols, reference.len() + 1);
}

#[test]
fn test_o_table_get() {
    let reference = remap_reference("ACGTATCGTGACGGGCTATAGCGATGTCGATGC").unwrap();
    let sa = suffix_array_induced_sort(&reference);
    let o_table = OTable::new(&reference, &sa, 10);
    assert_eq!(o_table.get(2, 1), 1);
    assert_eq!(o_table.get(0, 3), 1);
    assert_eq!(o_table.get(0, 34), 1);
    assert_eq!(o_table.get(2, 13), 1);
    assert_eq!(o_table.get(3, 13), 5);
    assert_eq!(o_table.get(1, 30), 4);
}

#[test]
fn sampled_table_matches_naive_count_for_every_spacing() {
    let reference = remap_reference("ACGTATCGTGACGGGCTATAGCGATGTCGATGC").unwrap();
    let sa = suffix_array_induced_sort(&reference);
    let naive = generate_o_table_naive(&reference, &sa);
    for spacing in [1, 2, 3, 7, 10, 34, 100] {
        let o_table = OTable::new(&reference, &sa, spacing);
        for i in 0..=reference.len() {
            for a in 0..5u8 {
                assert_eq!(o_table.get(a, i), naive[i][a as usize]);
            }
        }
    }
}

#[test]
fn occurrence_counts_at_the_ends() {
    let reference = remap_reference("ACGTATCGTGACGGGCTATAGCGATGTCGATGC").unwrap();
    let sa = suffix_array_induced_sort(&reference);
    let o_table = OTable::new(&reference, &sa, 10);
    let n = reference.len();
    for a in 0..5u8 {
        assert_eq!(o_table.get(a, 0), 0);
        let total = reference.iter().filter(|&&x| x == a).count();
        assert_eq!(o_table.get(a, n), total);
    }
}
