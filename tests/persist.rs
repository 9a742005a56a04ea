use fm_index::{construct_suffix_array_naive, remap_reference, FmError, OTable};

#[test]
fn o_table_round_trip() {
    let reference = remap_reference("ACGTATCGTGACGGGCTATAGCGATGTCGATGC").unwrap();
    let sa = construct_suffix_array_naive(&reference);
    let table = OTable::new(&reference, &sa, 3);
    let bytes = table.to_bytes().unwrap();
    let loaded = OTable::from_bytes(&bytes, &reference, &sa, 3).unwrap();
    let mut state: usize = 12345;
    for _ in 0..200 {
        state = state.wrapping_mul(6364136223846793005).wrapping_add(1442695040888963407);
        let a = ((state >> 33) % 5) as u8;
        let i = (state >> 13) % (reference.len() + 1);
        assert_eq!(loaded.get(a, i), table.get(a, i));
    }
}

#[test]
fn o_table_blob_layout() {
    let reference = remap_reference("AC").unwrap();
    let sa = construct_suffix_array_naive(&reference);
    let table = OTable::new(&reference, &sa, 2);
    let bytes = table.to_bytes().unwrap();
    // length word, then version, n, symbols, period, sentinel, 4 rows of 2 samples
    assert_eq!(bytes.len(), 8 + 8 * (5 + 8));
    assert_eq!(&bytes[0..8], &13u64.to_le_bytes());
    assert_eq!(&bytes[8..16], &1u64.to_le_bytes());
    assert_eq!(&bytes[16..24], &3u64.to_le_bytes());
}

#[test]
fn o_table_rejects_other_period() {
    let reference = remap_reference("ACGTACGT").unwrap();
    let sa = construct_suffix_array_naive(&reference);
    let bytes = OTable::new(&reference, &sa, 3).to_bytes().unwrap();
    assert!(matches!(OTable::from_bytes(&bytes, &reference, &sa, 4), Err(FmError::DecodeError)));
    assert!(matches!(OTable::from_bytes(&bytes[..10], &reference, &sa, 3), Err(FmError::DecodeError)));
    let other = remap_reference("ACGTACGTA").unwrap();
    let other_sa = construct_suffix_array_naive(&other);
    assert!(matches!(OTable::from_bytes(&bytes, &other, &other_sa, 3), Err(FmError::DecodeError)));
}

#[test]
fn o_table_rejects_altered_samples() {
    let reference = remap_reference("ACGTACGTTGCA").unwrap();
    let sa = construct_suffix_array_naive(&reference);
    let mut bytes = OTable::new(&reference, &sa, 2).to_bytes().unwrap();
    let last = bytes.len() - 8;
    bytes[last] ^= 1;
    assert!(matches!(OTable::from_bytes(&bytes, &reference, &sa, 2), Err(FmError::DecodeError)));
}
