use sapvc_lsp::lines::{split, split_lines};
use sapvc_lsp::names::{NameMap, NameSet};
use sapvc_lsp::render::{join, join_first, number};
use sapvc_lsp::text::{chars_of, contains, rfind, string_of, trim, CharClass};

fn owned(list: &[&str]) -> Vec<String> {
    list.iter().map(|s| s.to_string()).collect()
}

#[test]
fn white_space_is_that_of_unicode() {
    for code in 0..=0x10ffffu32 {
        if let Some(c) = char::from_u32(code) {
            assert_eq!(CharClass::White.accepts(c), c.is_whitespace(), "{:?}", c);
        }
    }
}

#[test]
fn word_characters_are_ascii() {
    for code in 0..=0x10ffffu32 {
        if let Some(c) = char::from_u32(code) {
            let word = c.is_ascii_alphanumeric() || c == '_';
            assert_eq!(CharClass::Word.accepts(c), word);
            assert_eq!(CharClass::DollarWord.accepts(c), word || c == '$');
            assert_eq!(CharClass::Chain.accepts(c), word || c == '$' || c == '.');
        }
    }
}

#[test]
fn lines_are_those_of_std() {
    for text in [
        "", "a", "a\n", "a\nb", "a\r\nb\r\n", "\n", "\n\n", "a\rb\n", "a\r", "\r\n", "中\n\r\n文",
    ] {
        let chars = chars_of(text);
        let ours: Vec<String> = split_lines(&chars).into_iter().map(string_of).collect();
        let theirs: Vec<String> = text.lines().map(|l| l.to_string()).collect();
        assert_eq!(ours, theirs, "{:?}", text);
    }
}

#[test]
fn pieces_are_those_of_std() {
    for text in ["", ".", "a.b", "a..b", ".a.", "中.文"] {
        let chars = chars_of(text);
        let ours: Vec<String> = split(&chars, '.').into_iter().map(string_of).collect();
        let theirs: Vec<String> = text.split('.').map(|l| l.to_string()).collect();
        assert_eq!(ours, theirs, "{:?}", text);
    }
}

#[test]
fn trimming_takes_both_ends() {
    let chars = chars_of("''A'B'");
    assert_eq!(string_of(trim(&chars, CharClass::Only('\''))), "A'B");
    let chars = chars_of(" \t中 \u{3000}");
    assert_eq!(string_of(trim(&chars, CharClass::White)), "中");
    let chars = chars_of("'''");
    assert_eq!(string_of(trim(&chars, CharClass::Only('\''))), "");
}

#[test]
fn searching_finds_the_last_place() {
    let text = chars_of("TABLE x TABLE y");
    let word = chars_of("TABLE");
    assert_eq!(rfind(&text, &word), Some(8));
    assert!(contains(&text, &word));
    assert_eq!(rfind(&text, &chars_of("TABLES")), None);
    assert!(!contains(&text, &chars_of("TABLES")));
}

#[test]
fn numbers_are_decimal() {
    assert_eq!(number(0), "0");
    assert_eq!(number(9), "9");
    assert_eq!(number(10), "10");
    assert_eq!(number(4096), "4096");
    assert_eq!(number(usize::MAX), usize::MAX.to_string());
}

#[test]
fn joining_puts_separators_between() {
    let list = owned(&["a", "b", "c"]);
    assert_eq!(join(&list, ", "), "a, b, c");
    assert_eq!(join_first(&list, 2, ", "), "a, b");
    assert_eq!(join_first(&list, 0, ", "), "");
    assert_eq!(join(&owned(&[]), ", "), "");
    assert_eq!(join(&owned(&["a"]), ", "), "a");
}

#[test]
fn a_set_is_sorted_and_without_repetition() {
    let list = owned(&["b", "a", "中", "b", "Z", "a", ""]);
    let set = NameSet::collect(&list);
    let mut theirs = list.clone();
    theirs.sort();
    theirs.dedup();
    assert_eq!(set.to_vec(), theirs);
    assert_eq!(set.len(), 5);
    assert!(set.contains("中"));
    assert!(!set.contains("c"));
    assert_eq!(set.at(0), "");
}

#[test]
fn inserting_twice_changes_nothing() {
    let mut set = NameSet::new();
    assert!(set.is_empty());
    assert!(set.insert("x".to_string()));
    assert!(!set.insert("x".to_string()));
    assert_eq!(set.len(), 1);
}

#[test]
fn a_map_holds_the_last_value() {
    let mut map: NameMap<u8> = NameMap::new();
    map.insert("b".to_string(), 1);
    map.insert("a".to_string(), 2);
    map.insert("b".to_string(), 3);
    assert_eq!(map.len(), 2);
    assert_eq!(map.get("b"), Some(&3));
    assert_eq!(map.get("a"), Some(&2));
    assert_eq!(map.get("c"), None);
    map.remove("b");
    map.remove("c");
    assert_eq!(map.len(), 1);
    assert_eq!(map.get("b"), None);
    assert!(map.contains_key("a"));
}

#[test]
fn appending_keeps_the_order() {
    let mut map: NameMap<Vec<u8>> = NameMap::new();
    map.append("x", 2);
    map.append("y", 9);
    map.append("x", 1);
    assert_eq!(map.get("x"), Some(&vec![2, 1]));
    assert_eq!(map.get("y"), Some(&vec![9]));
}
