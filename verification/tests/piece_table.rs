use ske::piece::PieceTable;

#[test]
fn lines_across_chunks() {
    let mut t = PieceTable::new();
    t.push_chunk("hello\nwor".into());
    t.push_chunk("ld\nlast".into());
    assert_eq!(t.line_count(), 3);
    assert_eq!(t.line(0), "hello");
    assert_eq!(t.line(1), "world");
    assert_eq!(t.line(2), "last");
    assert_eq!(t.line_start(2), 12);
}

#[test]
fn insert_middle_and_typing_coalesces() {
    let mut t = PieceTable::from_text("ab\ncd");
    t.insert(1, "X");
    t.insert(2, "Y"); // right after the X piece -> should extend it
    assert_eq!(t.text(), "aXYb\ncd");
    assert_eq!(t.piece_count(), 3);
    assert_eq!(t.line(0), "aXYb");
    assert_eq!(t.line(1), "cd");
}

#[test]
fn insert_newline_updates_lines() {
    let mut t = PieceTable::from_text("abcd");
    t.insert(2, "\n");
    assert_eq!(t.line_count(), 2);
    assert_eq!(t.line(0), "ab");
    assert_eq!(t.line(1), "cd");
}

#[test]
fn delete_range_and_join_lines() {
    let mut t = PieceTable::from_text("one\ntwo\nthree");
    t.delete(3..4); // the first newline
    assert_eq!(t.text(), "onetwo\nthree");
    assert_eq!(t.line_count(), 2);
    t.delete(0..6);
    assert_eq!(t.text(), "\nthree");
}

#[test]
fn edits_at_ends() {
    let mut t = PieceTable::from_text("mid");
    t.insert(0, ">");
    t.insert(t.len_bytes(), "<");
    assert_eq!(t.text(), ">mid<");
    t.delete(0..1);
    t.delete(t.len_bytes() - 1..t.len_bytes());
    assert_eq!(t.text(), "mid");
}

#[test]
fn empty_and_trailing_newline() {
    let t = PieceTable::new();
    assert_eq!(t.line_count(), 1);
    assert_eq!(t.line(0), "");
    let t = PieceTable::from_text("a\n");
    assert_eq!(t.line_count(), 2);
    assert_eq!(t.line(1), "");
}

#[test]
fn streamed_chunk_lands_at_end_after_edit() {
    let mut t = PieceTable::new();
    t.push_chunk("first\n".into());
    t.insert(0, "// header\n");
    t.push_chunk("second\n".into());
    assert_eq!(t.text(), "// header\nfirst\nsecond\n");
}

#[test]
fn delete_undoes_insert() {
    let mut t = PieceTable::from_text("héllo\nwörld");
    let before = t.text();
    t.insert(3, "ü\n");
    assert_eq!(t.text(), "hé\u{fc}\nllo\nwörld");
    t.delete(3..6);
    assert_eq!(t.text(), before);
}

#[test]
fn multibyte_lines_and_offsets() {
    let t = PieceTable::from_text("ä\nbc\n");
    assert_eq!(t.newline_count(), 2);
    assert_eq!(t.line_start(1), 3);
    assert_eq!(t.line(1), "bc");
    assert_eq!(t.line(2), "");
    assert_eq!(t.line(7), "");
    assert_eq!(t.line_start(7), t.len_bytes());
    assert_eq!(t.to_bytes(), "ä\nbc\n".as_bytes().to_vec());
}

#[test]
fn offsets_past_the_end_clamp() {
    let mut t = PieceTable::from_text("ab");
    t.insert(99, "c");
    assert_eq!(t.text(), "abc");
    t.delete(1..99);
    assert_eq!(t.text(), "a");
    t.delete(5..2);
    assert_eq!(t.text(), "a");
}

#[test]
fn deleting_an_insert_across_lines() {
    let mut t = PieceTable::from_text("héllo\nworld");
    t.insert(3, "XY\nZ");
    assert_eq!(t.text(), "hé" .to_string() + "XY\nZ" + "llo\nworld");
    t.delete(3..7);
    assert_eq!(t.text(), "héllo\nworld");
    assert_eq!(t.len_bytes(), 12);
}

#[test]
fn lines_join_back_into_the_text() {
    let mut t = PieceTable::new();
    t.push_chunk("a\n\nbc\n".into());
    t.insert(0, "z");
    let lines: Vec<String> = (0..t.line_count()).map(|i| t.line(i)).collect();
    assert_eq!(lines.join("\n"), t.text());
    assert_eq!(lines, vec!["za", "", "bc", ""]);
}

#[test]
fn slices_spell_the_document() {
    let mut t = PieceTable::new();
    t.push_chunk("first\n".to_string());
    t.insert(0, "// header\n");
    t.push_chunk("second\n".to_string());
    let joined: Vec<u8> = t.slices().concat();
    assert_eq!(joined, b"// header\nfirst\nsecond\n".to_vec());
    assert!(t.slices().len() >= 2);
    assert!(PieceTable::new().slices().concat().is_empty());
}
