use fm_index::approx_search::cigar_runs;
use fm_index::suffix_array_construction::{sa_from_bytes, sa_positions, sa_to_bytes};
use fm_index::{
    bwm, bwt, calculate_d_table, construct_suffix_array_naive, generate_c_table,
    generate_o_table_naive, naive_exact_search, remap_query, remap_reference, FmError, OTable,
};

#[test]
fn remap_maps_bases_to_codes() {
    assert_eq!(remap_query("ACGT").unwrap(), vec![1, 2, 3, 4]);
    assert_eq!(remap_reference("TGCA").unwrap(), vec![4, 3, 2, 1, 0]);
    assert_eq!(remap_query("").unwrap(), Vec::<u8>::new());
}

#[test]
fn remap_rejects_unknown_symbols() {
    assert_eq!(remap_query("ACNT"), Err(FmError::InvalidSymbol));
    assert_eq!(remap_query("AC$"), Err(FmError::InvalidSymbol));
    assert_eq!(remap_reference("acgt"), Err(FmError::InvalidSymbol));
    assert_eq!(remap_reference("AÅ"), Err(FmError::InvalidSymbol));
}

#[test]
fn remap_rejects_empty_reference() {
    assert_eq!(remap_reference(""), Err(FmError::EmptyReference));
}

#[test]
fn c_table_counts_smaller_symbols() {
    let reference = remap_reference("AGATAGATTCACA").unwrap();
    assert_eq!(generate_c_table(&reference), vec![0, 1, 7, 9, 11]);
}

#[test]
fn bwt_reads_the_preceding_symbol() {
    let reference = remap_reference("ACG").unwrap();
    let sa = construct_suffix_array_naive(&reference);
    assert_eq!(sa, vec![3, 0, 1, 2]);
    let column: Vec<u8> = (0..4).map(|i| bwt(&reference, &sa, i)).collect();
    assert_eq!(column, vec![3, 0, 1, 2]);
}

#[test]
fn bwm_rows_are_sorted_rotations() {
    let reference = remap_reference("ACG").unwrap();
    assert_eq!(bwm(&reference, 0), "$ACG");
    assert_eq!(bwm(&reference, 1), "ACG$");
    assert_eq!(bwm(&reference, 3), "G$AC");
}

#[test]
fn naive_o_table_rows() {
    let reference = remap_reference("ACG").unwrap();
    let sa = construct_suffix_array_naive(&reference);
    let table = generate_o_table_naive(&reference, &sa);
    assert_eq!(table.len(), 5);
    assert_eq!(table[0], vec![0, 0, 0, 0, 0]);
    assert_eq!(table[1], vec![0, 0, 0, 1, 0]);
    assert_eq!(table[4], vec![1, 1, 1, 1, 0]);
}

#[test]
fn binary_search_finds_occurrence() {
    let reference = remap_reference("AGATAGATTCACA").unwrap();
    let sa = construct_suffix_array_naive(&reference);
    let query = remap_query("ATT").unwrap();
    let r = naive_exact_search(&reference, &sa, &query);
    assert_eq!(r, 6);
    assert_eq!(&reference[sa[r]..sa[r] + 3], &query[..]);
}

#[test]
fn binary_search_reports_insertion_point() {
    let reference = remap_reference("AGAGA").unwrap();
    let sa = construct_suffix_array_naive(&reference);
    let query = remap_query("ACA").unwrap();
    let r = naive_exact_search(&reference, &sa, &query);
    assert!(r <= sa.len());
    for &p in sa.iter() {
        let end = (p + query.len()).min(reference.len());
        assert_ne!(&reference[p..end], &query[..]);
    }
}

#[test]
fn d_table_is_non_decreasing() {
    let reference = remap_reference("AGATAGATTCACA").unwrap();
    let rev: String = "AGATAGATTCACA".chars().rev().collect();
    let rev_reference = remap_reference(&rev).unwrap();
    let rev_sa = construct_suffix_array_naive(&rev_reference);
    let rev_o = OTable::new(&rev_reference, &rev_sa, 4);
    let c_table = generate_c_table(&reference);
    let query = remap_query("ATTGGGCCATT").unwrap();
    let d = calculate_d_table(&reference, &query, &c_table, &rev_o);
    assert_eq!(d.len(), query.len());
    for i in 1..d.len() {
        assert!(d[i - 1] <= d[i]);
    }
    assert_eq!(d[0], 0);
    let exact = calculate_d_table(&reference, &remap_query("ATT").unwrap(), &c_table, &rev_o);
    assert_eq!(exact, vec![0, 0, 0]);
}

#[test]
fn cigar_runs_compress_operations() {
    let runs = cigar_runs(b"MMMSMMIID");
    assert_eq!(runs, vec![(3, b'M'), (1, b'S'), (2, b'M'), (2, b'I'), (1, b'D')]);
    assert!(cigar_runs(b"").is_empty());
}

#[test]
fn suffix_array_round_trip_and_positions() {
    let reference = remap_reference("GATTACA").unwrap();
    let sa = construct_suffix_array_naive(&reference);
    let bytes = sa_to_bytes(&sa).unwrap();
    assert_eq!(bytes.len(), 8 + 8 * (2 + sa.len()));
    assert_eq!(sa_from_bytes(&bytes, &reference).unwrap(), sa);
    let mut broken = bytes.clone();
    broken[8 * 3] ^= 1;
    assert_eq!(sa_from_bytes(&broken, &reference), Err(FmError::DecodeError));
    assert_eq!(sa_positions(&sa, 1, 3), sa[1..3].to_vec());
}
