use fm_index::{
    bwt_search, construct_suffix_array_naive, generate_c_table, remap_query, remap_reference,
    OTable,
};

fn search(reference: &str, query: &str) -> (usize, usize) {
    let reference = remap_reference(reference).unwrap();
    let suffix_array = construct_suffix_array_naive(&reference);
    let o_table = OTable::new(&reference, &suffix_array, 10);
    let c_table = generate_c_table(&reference);
    let query = remap_query(query).unwrap();
    bwt_search(&query, &o_table, &c_table)
}

#[test]
fn test_bwt_search_1_match() {
    assert_eq!((2, 2), search("CATTGA", "ATT"));
}

#[test]
fn test_bwt_search_banana() {
    assert_eq!((2, 3), search("CAGAGA", "AGA"));
}

#[test]
fn test_bwt_search_2_matches() {
    assert_eq!((2, 3), search("AGAGA", "AGA"));
}

#[test]
fn test_bwt_search_0_matches() {
    let search_result = search("AGAGA", "ACA");
    assert!(search_result.0 > search_result.1);
}

#[test]
fn test_bwt_search_query_longer_than_reference() {
    let search_result = search("AGAGA", "ACAAGAGAGA");
    assert!(search_result.0 > search_result.1);
}

#[test]
fn empty_query_spans_whole_array() {
    let n = remap_reference("AGAGA").unwrap().len();
    assert_eq!((0, n - 1), search("AGAGA", ""));
}
