use ske::big::{Action, BigBuffer};
use ske::recent::{ago, parse_line, parse_recents, recents_text, text_lines, touch, Entry};

#[test]
fn parses_recent_lines_newest_first() {
    let text = "a /w/a 10\nb /w/my dir 30\nbroken\nc /w/c notanumber\nd /w/d 20\n";
    let es = parse_recents(text);
    let names: Vec<&str> = es.iter().map(|e| e.name.as_str()).collect();
    assert_eq!(names, vec!["b", "d", "a"]);
    assert_eq!(es[0].path, "/w/my dir");
    assert_eq!(es[0].epoch, 30);
}

#[test]
fn equal_times_keep_their_order() {
    let es = parse_recents("x /1 5\ny /2 5\nz /3 7");
    let names: Vec<&str> = es.iter().map(|e| e.name.as_str()).collect();
    assert_eq!(names, vec!["z", "x", "y"]);
}

#[test]
fn recent_line_edge_cases() {
    assert!(parse_line("a b").is_none());
    assert!(parse_line("a b -1").is_none());
    assert_eq!(parse_line("a b +7").unwrap().epoch, 7);
    assert!(parse_line("a b 18446744073709551616").is_none());
    assert_eq!(parse_line("a b 18446744073709551615").unwrap().epoch, u64::MAX);
    assert_eq!(parse_line("n  x 1").unwrap().path, " x");
    assert_eq!(text_lines("a\r\nb\n\nc\r"), vec!["a", "b", "", "c\r"]);
    assert!(text_lines("").is_empty());
}

fn entry(name: &str, path: &str, epoch: u64) -> Entry {
    Entry {
        name: name.to_string(),
        path: path.to_string(),
        epoch,
    }
}

#[test]
fn touching_moves_to_front() {
    let es = vec![entry("a", "/a", 3), entry("b", "/b", 2), entry("a", "/a", 1)];
    let es = touch(es, "/a", Some("my ws"), 9);
    assert_eq!(es.len(), 2);
    assert_eq!(es[0].name, "my-ws");
    assert_eq!(es[0].path, "/a");
    assert_eq!(es[0].epoch, 9);
    assert_eq!(es[1].name, "b");
    let es = touch(vec![], "/", None, 1);
    assert_eq!(es[0].name, "workspace");
}

#[test]
fn recent_file_keeps_twenty() {
    let es: Vec<Entry> = (0..25).map(|i| entry("n", "/p", i)).collect();
    let text = recents_text(&es);
    assert_eq!(text.lines().count(), 20);
    assert!(text.starts_with("n /p 0\nn /p 1\n"));
    assert_eq!(recents_text(&vec![entry("a", "/x y", 5)]), "a /x y 5\n");
}

#[test]
fn ages() {
    assert_eq!(ago(100, 100), "just now");
    assert_eq!(ago(200, 100), "just now");
    assert_eq!(ago(0, 59), "just now");
    assert_eq!(ago(0, 60), "1m ago");
    assert_eq!(ago(0, 3599), "59m ago");
    assert_eq!(ago(0, 3600), "1h ago");
    assert_eq!(ago(0, 86399), "23h ago");
    assert_eq!(ago(0, 3 * 86400 + 5), "3d ago");
}

fn buffer(text: &str) -> BigBuffer {
    let mut b = BigBuffer::new(text.len() as u64);
    b.table.push_chunk(text.to_string());
    b
}

#[test]
fn typing_and_enter_keep_indent() {
    let mut b = buffer("    foo");
    b.col = 100;
    assert!(b.apply(Action::Insert("x".into()), 10));
    assert_eq!(b.table.text(), "    foox");
    assert_eq!((b.line, b.col), (0, 8));
    b.col = 6;
    assert!(b.apply(Action::Enter, 10));
    assert_eq!(b.table.text(), "    fo\n    ox");
    assert_eq!((b.line, b.col), (1, 4));
}

#[test]
fn multiline_paste_lands_after_it() {
    let mut b = buffer("ab");
    b.col = 1;
    b.apply(Action::Insert("x\nyz\nw".into()), 10);
    assert_eq!(b.table.text(), "ax\nyz\nwb");
    assert_eq!((b.line, b.col), (2, 1));
}

#[test]
fn backspace_and_delete_join_lines() {
    let mut b = buffer("aé\nb");
    b.line = 1;
    b.col = 0;
    assert!(b.apply(Action::Backspace, 10));
    assert_eq!(b.table.text(), "aéb");
    assert_eq!((b.line, b.col), (0, 2));
    assert!(b.apply(Action::Backspace, 10));
    assert_eq!(b.table.text(), "ab");
    assert_eq!(b.col, 1);
    b.col = 0;
    assert!(b.apply(Action::Delete, 10));
    assert_eq!(b.table.text(), "b");
    b.col = 1;
    assert!(!b.apply(Action::Delete, 10));
    let mut c = buffer("x\ny");
    c.col = 5;
    assert!(c.apply(Action::Delete, 10));
    assert_eq!(c.table.text(), "xy");
    let mut d = buffer("z");
    assert!(!d.apply(Action::Backspace, 10));
}

#[test]
fn cursor_moves() {
    let mut b = buffer("abc\nde\n");
    b.apply(Action::End, 10);
    assert_eq!(b.col, 3);
    b.apply(Action::Right, 10);
    assert_eq!((b.line, b.col), (1, 0));
    b.apply(Action::Left, 10);
    assert_eq!((b.line, b.col), (0, 3));
    b.apply(Action::Down, 10);
    assert_eq!((b.line, b.col), (1, 3));
    b.apply(Action::Left, 10);
    assert_eq!(b.col, 1);
    b.apply(Action::PageDown, 10);
    assert_eq!(b.line, 2);
    b.apply(Action::PageUp, 0);
    assert_eq!(b.line, 1);
    b.apply(Action::Up, 10);
    b.apply(Action::Up, 10);
    assert_eq!(b.line, 0);
    b.apply(Action::Click { line: 9, col: 9 }, 10);
    assert_eq!((b.line, b.col), (2, 0));
    b.apply(Action::Home, 10);
    assert_eq!(b.col, 0);
    assert!(!b.apply(Action::Right, 10));
    assert_eq!((b.line, b.col), (2, 0));
}

#[test]
fn horizontal_follow() {
    let mut b = buffer(&"x".repeat(100));
    b.col = 50;
    b.follow_cursor_h(20);
    assert_eq!(b.h_first, 38);
    b.col = 10;
    b.follow_cursor_h(20);
    assert_eq!(b.h_first, 10);
}

#[test]
fn saved_list_reads_back() {
    let es = vec![
        entry("ws", "/home/u/my ws", 300),
        entry("b", "/b", 200),
        entry("c", "/c", 200),
    ];
    let back = parse_recents(&recents_text(&es));
    let got: Vec<(String, String, u64)> = back
        .into_iter()
        .map(|e| (e.name, e.path, e.epoch))
        .collect();
    let want: Vec<(String, String, u64)> = es
        .into_iter()
        .map(|e| (e.name, e.path, e.epoch))
        .collect();
    assert_eq!(got, want);
}

#[test]
fn backspace_takes_back_a_typed_char() {
    let mut b = buffer("ab\ncd");
    b.line = 1;
    b.col = 7;
    assert!(b.apply(Action::Insert("é".into()), 10));
    assert_eq!(b.table.text(), "ab\ncdé");
    assert!(b.apply(Action::Backspace, 10));
    assert_eq!(b.table.text(), "ab\ncd");
    assert_eq!((b.line, b.col), (1, 2));
}

#[test]
fn typing_nothing_leaves_the_document_clean() {
    let mut b = buffer("ab");
    b.col = 1;
    assert!(!b.apply(Action::Insert(String::new()), 10));
    assert_eq!(b.table.text(), "ab");
    assert_eq!((b.line, b.col), (0, 1));
    assert!(b.apply(Action::Backspace, 10));
    assert_eq!(b.table.text(), "b");
}

#[test]
fn touch_matches_the_same_directory_however_written() {
    let list = vec![entry("w", "/home/u/w/", 5), entry("x", "/home/u/x", 6)];
    let t = touch(list, "/home/u/w", Some("w"), 9);
    assert_eq!(t.len(), 2);
    assert_eq!(t[0].path, "/home/u/w");
    assert_eq!(t[0].epoch, 9);
    assert_eq!(t[1].path, "/home/u/x");
}

#[test]
fn touch_then_read_back() {
    let list = vec![entry("x", "/home/u/x", 8), entry("w", "/home/u/w", 5)];
    let t = touch(list, "/home/u/w", Some("w"), 9);
    let back = parse_recents(&recents_text(&t));
    let got: Vec<(String, String, u64)> = back.iter().map(|e| (e.name.clone(), e.path.clone(), e.epoch)).collect();
    assert_eq!(
        got,
        vec![("w".to_string(), "/home/u/w".to_string(), 9), ("x".to_string(), "/home/u/x".to_string(), 8)]
    );
}
