use fm_index::{bwt_search, calculate_d_table, suffix_array_induced_sort};
use fm_index::{
    approx_search, construct_suffix_array_naive, generate_c_table, remap_query, remap_reference,
    ApproxSearchParams, OTable,
};

fn run(reference: &str, query: &str, edits: usize) -> Vec<(usize, usize, String, usize)> {
    let reference = remap_reference(reference).unwrap();
    let suffix_array = construct_suffix_array_naive(&reference);
    let reverse_reference: Vec<u8> = reference.iter().rev().map(|&x| x).collect();
    let reverse_suffix_array = construct_suffix_array_naive(&reverse_reference);
    let query = remap_query(query).unwrap();
    let o_table = OTable::new(&reference, &suffix_array, 10);
    let c_table = generate_c_table(&reference);
    let rev_o_table = OTable::new(&reverse_reference, &reverse_suffix_array, 10);
    let params = ApproxSearchParams {
        reference: &reference,
        query: &query,
        o_table: &o_table,
        c_table: &c_table,
        rev_o_table: &rev_o_table,
        edits,
    };
    approx_search(params)
}

#[test]
fn test_att_with_1_edit() {
    let search_result = run("AGATAGATTCACA", "ATT", 1);
    assert_eq!(search_result.len(), 5);
    assert!(search_result.contains(&(13, 14, "IMM".to_string(), 1)));
    assert!(search_result.contains(&(5, 7, "MMI".to_string(), 1)));
    assert!(search_result.contains(&(5, 7, "MIM".to_string(), 1)));
    assert!(search_result.contains(&(6, 7, "MMM".to_string(), 0)));
    assert!(search_result.contains(&(5, 6, "MMS".to_string(), 1)));
}

#[test]
fn test_simple() {
    let search_result = run("AAC", "ACC", 1);
    assert_eq!(search_result.len(), 3);
}

#[test]
fn test_substitute() {
    let results = run("ACG", "AGG", 1);
    assert_eq!(results.len(), 1);
    assert!(results.contains(&(1, 2, "MSM".to_string(), 1)));
}

#[test]
fn test_delete() {
    let results = run("TACGT", "TAGT", 1);
    assert_eq!(results.len(), 1);
    match results.iter().next() {
        Some((start, end, edits, num_edits)) => {
            assert_eq!(start, &5);
            assert_eq!(end, &6);
            assert_eq!(edits, "MMDMM");
            assert_eq!(num_edits, &1);
        }
        None => {
            panic!("did not find any results")
        }
    }
}

#[test]
fn test_insert() {
    let results = run("AC", "ACG", 1);
    assert_eq!(results.len(), 1);
    match results.iter().next() {
        Some((start, end, edits, num_edits)) => {
            assert_eq!(start, &1);
            assert_eq!(end, &2);
            assert_eq!(edits, "MMI");
            assert_eq!(num_edits, &1);
        }
        None => {
            panic!("did not find any results")
        }
    }
}

#[test]
fn test_too_long_query() {
    let results = run("ACGT", "ACGTGTGT", 1);
    assert_eq!(results.len(), 0);
}

#[test]
fn zero_edits_with_substituted_query_is_empty() {
    let results = run("AGATAGATTCACA", "AGG", 0);
    assert!(results.is_empty());
}

#[test]
fn cigar_counts_match_edits() {
    let results = run("AGATAGATTCACA", "ATT", 1);
    for (lo, hi, cigar, edits) in results.iter() {
        assert!(lo < hi);
        assert_eq!(cigar.chars().filter(|&c| c != 'M').count(), *edits);
    }
}

#[test]
fn test_att_with_0_edit() {
    let genome = "AGATAGATTCACA";
    let remap_genome = remap_reference(genome).unwrap();
    let suffix_array = suffix_array_induced_sort(&remap_genome);

    let rev_genome: String = genome.chars().rev().collect();
    let rev_remap_genome = remap_reference(&rev_genome).unwrap();
    let rev_suffix_array = suffix_array_induced_sort(&rev_remap_genome);

    let query = remap_query("ATT").unwrap();
    let o_table = OTable::new(&remap_genome, &suffix_array, 10);
    let c_table = generate_c_table(&remap_genome);
    let rev_o_table = OTable::new(&rev_remap_genome, &rev_suffix_array, 10);
    let params = ApproxSearchParams {
        reference: &remap_genome,
        query: &query,
        o_table: &o_table,
        c_table: &c_table,
        rev_o_table: &rev_o_table,
        edits: 0,
    };

    let search_result = approx_search(params);
    assert_eq!(1, search_result.len());
    assert!(search_result.contains(&(6, 7, String::from("MMM"), 0)));
}

#[test]
fn zero_edits_agree_with_exact_search() {
    let reference = remap_reference("AGATAGATTCACA").unwrap();
    let suffix_array = construct_suffix_array_naive(&reference);
    let reverse_reference: Vec<u8> = reference.iter().rev().map(|&x| x).collect();
    let reverse_suffix_array = construct_suffix_array_naive(&reverse_reference);
    let o_table = OTable::new(&reference, &suffix_array, 10);
    let c_table = generate_c_table(&reference);
    let rev_o_table = OTable::new(&reverse_reference, &reverse_suffix_array, 10);
    for q in ["ATT", "GAT", "CACA", "TTT", "AGATAGATTCACAA"] {
        let query = remap_query(q).unwrap();
        let (lo, last) = bwt_search(&query, &o_table, &c_table);
        let d = calculate_d_table(&reference, &query, &c_table, &rev_o_table);
        let params = ApproxSearchParams {
            reference: &reference,
            query: &query,
            o_table: &o_table,
            c_table: &c_table,
            rev_o_table: &rev_o_table,
            edits: 0,
        };
        let hits = approx_search(params);
        let exact = (lo, last + 1, "M".repeat(query.len()), 0);
        assert!(hits.iter().all(|h| *h == exact), "{}", q);
        if lo > last {
            assert!(hits.is_empty(), "{}", q);
        } else if d[..d.len() - 1].iter().all(|&x| x == 0) {
            assert_eq!(hits, vec![exact], "{}", q);
        }
    }
}

#[test]
fn d_table_pruning_can_hide_an_exact_hit() {
    let reference = remap_reference("GCA").unwrap();
    let suffix_array = construct_suffix_array_naive(&reference);
    let reverse_reference = remap_reference("ACG").unwrap();
    let reverse_suffix_array = construct_suffix_array_naive(&reverse_reference);
    let o_table = OTable::new(&reference, &suffix_array, 10);
    let c_table = generate_c_table(&reference);
    let rev_o_table = OTable::new(&reverse_reference, &reverse_suffix_array, 10);
    let query = remap_query("CA").unwrap();
    let (lo, last) = bwt_search(&query, &o_table, &c_table);
    assert!(lo <= last);
    assert_eq!(calculate_d_table(&reference, &query, &c_table, &rev_o_table), vec![1, 1]);
    let params = ApproxSearchParams {
        reference: &reference,
        query: &query,
        o_table: &o_table,
        c_table: &c_table,
        rev_o_table: &rev_o_table,
        edits: 0,
    };
    assert!(approx_search(params).is_empty());
}

#[test]
fn hits_are_distinct() {
    let results = run("AAC", "ACC", 1);
    for i in 0..results.len() {
        for j in (i + 1)..results.len() {
            assert_ne!(results[i], results[j]);
        }
    }
}
