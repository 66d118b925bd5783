use rem::piece_table::PieceTable;

#[test]
fn test_basic_insertion() {
    let mut pt = PieceTable::new("Hello World".to_string());

    pt.insert(5, " Beautiful");
    assert_eq!(pt.get_text(), "Hello Beautiful World", "L'inserimento a metà ha fallito");
}

#[test]
fn test_edge_cases_insertion() {
    let mut pt = PieceTable::new("Code".to_string());

    pt.insert(0, "VS");
    assert_eq!(pt.get_text(), "VSCode");

    let len = pt.get_text().len();
    pt.insert(len, " is slow");
    assert_eq!(pt.get_text(), "VSCode is slow");
}

#[test]
fn test_multiple_overlapping_inserts() {
    let mut pt = PieceTable::new("".to_string());

    pt.insert(0, "a");
    pt.insert(1, "c");

    pt.insert(1, "b");

    assert_eq!(pt.get_text(), "abc", "La gestione degli indici relativi ha fallito");
}

#[test]
fn new_then_get_text_gives_back_the_text() {
    let pt = PieceTable::new("résumé\nline".to_string());
    assert_eq!(pt.get_text(), "résumé\nline");
    assert!(pt.is_readable());
}

#[test]
fn insert_empty_text_changes_nothing() {
    let mut pt = PieceTable::new("abc".to_string());
    pt.insert(1, "");
    assert_eq!(pt.get_text(), "abc");
}

#[test]
fn insert_past_the_end_goes_to_the_front() {
    let mut pt = PieceTable::new("abc".to_string());
    pt.insert(10, "X");
    assert_eq!(pt.get_text(), "Xabc");
}

#[test]
fn insert_into_empty_text_past_the_end() {
    let mut pt = PieceTable::new(String::new());
    pt.insert(3, "hi");
    assert_eq!(pt.get_text(), "hi");
}

#[test]
fn insert_at_the_end_appends() {
    let mut pt = PieceTable::new("ab".to_string());
    pt.insert(2, "cd");
    assert_eq!(pt.get_text(), "abcd");
}

#[test]
fn delete_inside_one_piece() {
    let mut pt = PieceTable::new("Hello World".to_string());
    pt.delete(5, 6);
    assert_eq!(pt.get_text(), "Hello");
}

#[test]
fn delete_across_pieces() {
    let mut pt = PieceTable::new("Hello World".to_string());
    pt.insert(5, " Beautiful");
    // "Hello Beautiful World": remove "o Beautiful W"
    pt.delete(4, 13);
    assert_eq!(pt.get_text(), "Hellorld");
}

#[test]
fn delete_range_past_the_end_is_clamped() {
    let mut pt = PieceTable::new("abcdef".to_string());
    pt.delete(4, 100);
    assert_eq!(pt.get_text(), "abcd");
    pt.delete(10, 2);
    assert_eq!(pt.get_text(), "abcd");
}

#[test]
fn delete_with_huge_length_does_not_overflow() {
    let mut pt = PieceTable::new("abcdef".to_string());
    pt.delete(2, usize::MAX);
    assert_eq!(pt.get_text(), "ab");
}

#[test]
fn delete_everything_then_insert() {
    let mut pt = PieceTable::new("abc".to_string());
    pt.insert(3, "def");
    pt.delete(0, 6);
    assert_eq!(pt.get_text(), "");
    pt.insert(0, "x");
    assert_eq!(pt.get_text(), "x");
}

#[test]
fn delete_zero_length_changes_nothing() {
    let mut pt = PieceTable::new("abc".to_string());
    pt.delete(1, 0);
    assert_eq!(pt.get_text(), "abc");
}

#[test]
fn insert_then_delete_restores_the_text() {
    let mut pt = PieceTable::new("Hello World".to_string());
    pt.insert(6, "big ");
    assert_eq!(pt.get_text(), "Hello big World");
    pt.delete(6, 4);
    assert_eq!(pt.get_text(), "Hello World");
}

#[test]
fn multibyte_text_round_trips() {
    let mut pt = PieceTable::new("añb".to_string());
    // 'ñ' takes two bytes: insert at the boundary after it.
    pt.insert(3, "é");
    assert!(pt.is_readable());
    assert_eq!(pt.get_text(), "añéb");
}

#[test]
fn split_inside_a_character_is_not_readable() {
    let mut pt = PieceTable::new("añb".to_string());
    // Offset 2 lies inside the two bytes of 'ñ'.
    pt.insert(2, "x");
    assert!(!pt.is_readable());
    // Deleting the inserted byte leaves pieces that still cut 'ñ'.
    pt.delete(2, 1);
    assert!(!pt.is_readable());
}

#[test]
fn insert_adds_exactly_the_inserted_bytes() {
    let mut pt = PieceTable::new("añb".to_string());
    let before = pt.get_text().len();
    pt.insert(1, "xyz");
    assert_eq!(pt.get_text().len(), before + 3);
    assert_eq!(pt.get_text(), "axyzñb");
}

#[test]
fn delete_after_front_insertion_restores_the_text() {
    let mut pt = PieceTable::new("abc".to_string());
    pt.insert(99, "ZZ");
    assert_eq!(pt.get_text(), "ZZabc");
    pt.delete(0, 2);
    assert_eq!(pt.get_text(), "abc");
}

#[test]
fn many_edits_keep_text_in_step() {
    let mut pt = PieceTable::new("0123456789".to_string());
    let mut model = String::from("0123456789");
    let edits: [(usize, &str, usize); 6] = [(3, "ab", 0), (0, "", 2), (5, "XYZ", 1), (12, "!", 0), (2, "", 7), (1, "q", 3)];
    for (off, ins, del) in edits {
        pt.insert(off, ins);
        if !ins.is_empty() {
            model.insert_str(off, ins);
        }
        pt.delete(off, del);
        let end = (off + del).min(model.len());
        if off < model.len() {
            model.replace_range(off..end, "");
        }
        assert_eq!(pt.get_text(), model);
    }
}
