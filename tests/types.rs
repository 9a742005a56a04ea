use fm_index::types::OTable;
use fm_index::{construct_suffix_array_naive, remap_reference};

#[test]
fn test_1() {
    let reference = remap_reference("ACG").unwrap();
    let suffix_array = construct_suffix_array_naive(&reference);
    let mut o_table = OTable::new(&reference, &suffix_array);
    o_table.set(2, 3, 1);
    println!("{:?}", o_table.rows());
}

#[test]
fn dense_table_set_changes_one_cell() {
    let reference = remap_reference("ACG").unwrap();
    let suffix_array = construct_suffix_array_naive(&reference);
    let mut o_table = OTable::new(&reference, &suffix_array);
    assert_eq!(o_table.shape(), (5, 5));
    o_table.set(2, 3, 1);
    assert_eq!(o_table.get(2, 3), 1);
    assert_eq!(o_table.get(2, 2), 0);
    assert_eq!(o_table.get(3, 3), 0);
}
