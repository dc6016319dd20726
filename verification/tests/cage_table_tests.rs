use killer_sudoku::cage_table::{CageTable, FormatError};

#[test]
fn size_two_sum_three_has_one_combination() {
    let text = b"1 cells\n2 cells\n3: 12\n4: 13\n5: 14 23\n";
    let mut table = CageTable::parse(text).unwrap();
    let entry = table.find(2, 3).unwrap();
    assert_eq!(entry.cage_size, 2);
    assert_eq!(entry.cage_sum, 3);
    assert_eq!(entry.combinations, vec![vec![1, 2]]);
    // Two distinct digits 1..9 sum to at least 3: no entry for (2, 2).
    assert!(table.find(2, 2).is_none());
}

#[test]
fn parse_reads_sizes_in_order() {
    let text = b"1 cells\n2 cells\n3: 12\n17: 89\n3 cells\n6: 123\n24: 789\n";
    let table = CageTable::parse(text).unwrap();
    assert_eq!(table.0.len(), 4);
    assert_eq!(table.0[0].cage_size, 2);
    assert_eq!(table.0[0].cage_sum, 3);
    assert_eq!(table.0[1].cage_sum, 17);
    assert_eq!(table.0[1].combinations, vec![vec![8, 9]]);
    assert_eq!(table.0[2].cage_size, 3);
    assert_eq!(table.0[2].combinations, vec![vec![1, 2, 3]]);
    assert_eq!(table.0[3].cage_size, 3);
    assert_eq!(table.0[3].cage_sum, 24);
}

#[test]
fn parse_strips_punctuation_inside_combinations() {
    let text = b"1 cells\n2 cells\n5: (1,4) (2,3)\n";
    let table = CageTable::parse(text).unwrap();
    assert_eq!(table.0[0].combinations, vec![vec![1, 4], vec![2, 3]]);
}

#[test]
fn parse_handles_carriage_returns_and_blank_lines() {
    let text = b"1 cells\r\n2 cells\r\n\r\n3: 12\r\n";
    let table = CageTable::parse(text).unwrap();
    assert_eq!(table.0.len(), 1);
    assert_eq!(table.0[0].cage_size, 2);
    assert_eq!(table.0[0].cage_sum, 3);
}

#[test]
fn parse_rejects_unparsable_sum() {
    let text = b"1 cells\nab: 12\n";
    assert!(matches!(CageTable::parse(text), Err(FormatError)));
}

#[test]
fn parse_rejects_digitless_combination_token() {
    let text = b"1 cells\n2 cells\n3: xy\n";
    assert!(matches!(CageTable::parse(text), Err(FormatError)));
}

#[test]
fn parse_rejects_sum_overflow() {
    let text = b"1 cells\n99999999999: 12\n";
    assert!(matches!(CageTable::parse(text), Err(FormatError)));
}

#[test]
fn find_on_empty_table_misses() {
    let mut table = CageTable(Vec::new());
    assert!(table.find(2, 3).is_none());
}

#[test]
fn parse_accepts_a_signed_sum() {
    let text = b"1 cells\n-5: 12\n";
    let table = CageTable::parse(text).unwrap();
    assert_eq!(table.0[0].cage_sum, -5);
    assert_eq!(table.0[0].cage_size, 1);
}
