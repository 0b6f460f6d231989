use sapvc_lsp::documents::{file_of_path, Documents};
use sapvc_lsp::position::Position;
use sapvc_lsp::references::{locations, references, word_before, Location};
use sapvc_lsp::refs::{
    collect_mentions, is_source_extension, RefLoc, ReferenceIndex, SourceFile,
};
use sapvc_lsp::syntax::{tree_fits, SyntaxNode};
use sapvc_lsp::text::chars_of;

fn node(text: &str, kind: &str, start: usize, end: usize, children: Vec<SyntaxNode>) -> SyntaxNode {
    SyntaxNode {
        kind: kind.to_string(),
        start_byte: start,
        end_byte: end,
        start_row: text[..start].matches('\n').count(),
        end_row: text[..end].matches('\n').count(),
        is_error: false,
        is_missing: false,
        children,
    }
}

fn leaf(text: &str, kind: &str, part: &str) -> SyntaxNode {
    let start = text.find(part).unwrap();
    node(text, kind, start, start + part.len(), vec![])
}

fn root(text: &str, children: Vec<SyntaxNode>) -> SyntaxNode {
    let tree = node(text, "source_file", 0, text.len(), children);
    assert!(tree_fits(&tree, &chars_of(text)));
    tree
}

fn add(idx: &mut ReferenceIndex, file: &str, text: &str, tree: &SyntaxNode) {
    idx.add_mentions(file, &collect_mentions(text, tree));
}

fn at(line: u32, character: u32) -> Position {
    Position { line, character }
}

fn places(list: &[Location]) -> Vec<(String, u32)> {
    list.iter().map(|l| (l.uri.clone(), l.line)).collect()
}

fn pair(uri: &str, line: u32) -> (String, u32) {
    (uri.to_string(), line)
}

#[test]
fn scans_corpus_and_summarizes() {
    let a = "RESTRICTIONS:\n$SELF.TYP_CDO = 'X'\n$SELF.DIM_A = 1\n";
    let b = "RESTRICTIONS:\nET1.TYP_CDO = 'Y'\n";
    let mut idx = ReferenceIndex::default();
    let tree = root(
        a,
        vec![
            leaf(a, "RESTRICTIONS", "RESTRICTIONS"),
            leaf(a, "identifier", "TYP_CDO"),
            leaf(a, "identifier", "DIM_A"),
        ],
    );
    add(&mut idx, "A.vcpro", a, &tree);
    let tree = root(
        b,
        vec![leaf(b, "RESTRICTIONS", "RESTRICTIONS"), leaf(b, "identifier", "TYP_CDO")],
    );
    add(&mut idx, "B.vccons", b, &tree);

    let (total, nfiles, _) = idx.summary("TYP_CDO", "A.vcpro", 10);
    assert_eq!(total, 2, "two dotted references across corpus");
    assert_eq!(nfiles, 2, "both files");
    let (_, _, others) = idx.summary("TYP_CDO", "A.vcpro", 10);
    assert_eq!(others.len(), 1, "B.vccons only (current file excluded)");
    assert_eq!(others[0].file, "B.vccons");
    assert_eq!(others[0].line, 2);
    let (t, n, _) = idx.summary("DIM_A", "B.vccons", 10);
    assert_eq!((t, n), (1, 1));
    assert!(idx.refs.get("IF").is_none());
    assert!(idx.refs.get("RESTRICTIONS").is_none());
}

#[test]
fn a_summary_shows_no_more_than_asked_for() {
    let mut idx = ReferenceIndex::default();
    for (file, line) in [("A", 1), ("B", 2), ("B", 3), ("C", 4)] {
        idx.refs.append("X", RefLoc { file: file.to_string(), line });
    }
    let (total, files, others) = idx.summary("X", "A", 2);
    assert_eq!((total, files), (4, 3));
    let shown: Vec<(String, usize)> = others.iter().map(|l| (l.file.clone(), l.line)).collect();
    assert_eq!(shown, vec![("B".to_string(), 2), ("B".to_string(), 3)]);
    assert_eq!(idx.summary("X", "", 0).2.len(), 0);
    let (total, files, others) = idx.summary("Y", "A", 2);
    assert_eq!((total, files, others.len()), (0, 0, 0));
}

#[test]
fn builtins_and_what_stands_below_them_are_left_out() {
    let text = "$SELF X";
    let mut head = leaf(text, "identifier", "$SELF");
    head.children = vec![leaf(text, "identifier", "SELF")];
    let tree = root(text, vec![head, leaf(text, "identifier", "X")]);
    assert_eq!(collect_mentions(text, &tree), vec![("X".to_string(), 1)]);
}

#[test]
fn mentions_come_from_right_to_left() {
    let text = "A B\nC";
    let mut outer = leaf(text, "identifier", "A");
    outer.children = vec![leaf(text, "identifier", "A")];
    let tree = root(
        text,
        vec![outer, leaf(text, "identifier", "B"), leaf(text, "identifier", "C")],
    );
    assert_eq!(
        collect_mentions(text, &tree),
        vec![
            ("C".to_string(), 2),
            ("B".to_string(), 1),
            ("A".to_string(), 1),
            ("A".to_string(), 1),
        ]
    );
}

#[test]
fn a_grammar_without_identifiers_gives_an_empty_index() {
    let language: tree_sitter::Language = tree_sitter_json::LANGUAGE.into();
    let sources = vec![
        SourceFile { name: "a.sapvc".to_string(), text: "[1, 2]".to_string() },
        SourceFile { name: "b.sapvc".to_string(), text: "{\"X\": 1}".to_string() },
    ];
    assert_eq!(ReferenceIndex::scan(&sources, &language).refs.len(), 0);
}

#[test]
fn sources_go_by_their_extension() {
    for extension in ["vcpro", "vcnet", "vccons", "vcsel", "vcpre", "vcfct", "sapvc"] {
        assert!(is_source_extension(extension));
    }
    for extension in ["", "txt", "VCPRO", "vcpro2"] {
        assert!(!is_source_extension(extension));
    }
}

#[test]
fn the_word_ends_at_the_cursor() {
    let text = "$SELF.AB_1 = 2\n文C";
    assert_eq!(word_before(text, at(0, 10)).as_deref(), Some("AB_1"));
    assert_eq!(word_before(text, at(0, 8)).as_deref(), Some("AB"));
    assert_eq!(word_before(text, at(0, 6)), None);
    assert_eq!(word_before(text, at(0, 0)), None);
    assert_eq!(word_before(text, at(1, 2)).as_deref(), Some("C"));
    assert_eq!(word_before(text, at(1, 1)), None);
    assert_eq!(word_before(text, at(2, 0)), None);
}

#[test]
fn locations_are_sorted_and_without_repetition() {
    let text = "A.X\nX\nB. X = 1\r\n.X";
    let mut refs = ReferenceIndex::default();
    for (file, line) in [("b", 7), ("a", 3), ("b", 7), ("c", 1), ("d", 0)] {
        refs.refs.append("X", RefLoc { file: file.to_string(), line });
    }
    let uris = vec![
        Some("u:b".to_string()),
        Some("u:a".to_string()),
        Some("u:b".to_string()),
        None,
        None,
    ];
    let list = locations(text, "X", "u:aa", &refs, &uris);
    assert_eq!(
        places(&list),
        vec![
            pair("u:a", 2),
            pair("u:aa", 0),
            pair("u:aa", 2),
            pair("u:aa", 3),
            pair("u:b", 6),
        ]
    );
    assert_eq!(list[1].range().start, at(0, 0));
    assert_eq!(list[4].range().start, at(6, 0));
    assert_eq!(list[4].range().end, at(6, 0));
}

#[test]
fn references_resolve_files_in_the_directory() {
    let text = "$SELF.X = 1";
    let mut refs = ReferenceIndex::default();
    refs.refs.append("X", RefLoc { file: "A B.vcpro".to_string(), line: 4 });
    let dir = std::path::PathBuf::from("/corpus/M1");
    let list = references(text, at(0, 7), "file:///w/doc.vcpro", &refs, Some(&dir)).unwrap();
    assert_eq!(
        places(&list),
        vec![pair("file:///corpus/M1/A%20B.vcpro", 3), pair("file:///w/doc.vcpro", 0)]
    );
    // each place goes by its own file
    let mut more = ReferenceIndex::default();
    more.refs.append("X", RefLoc { file: "A-1.vcpro".to_string(), line: 2 });
    more.refs.append("X", RefLoc { file: "B.vccons".to_string(), line: 9 });
    let list = references(text, at(0, 7), "file:///w/doc.vcpro", &more, Some(&dir)).unwrap();
    assert_eq!(
        places(&list),
        vec![
            pair("file:///corpus/M1/A-1.vcpro", 1),
            pair("file:///corpus/M1/B.vccons", 8),
            pair("file:///w/doc.vcpro", 0),
        ]
    );
    // a relative path has no URI of its own, an absolute one has
    let mut absolute = ReferenceIndex::default();
    absolute.refs.append("X", RefLoc { file: "/s/C.vcpro".to_string(), line: 1 });
    let list = references(text, at(0, 7), "file:///w/doc.vcpro", &absolute, None).unwrap();
    assert_eq!(places(&list), vec![pair("file:///s/C.vcpro", 0), pair("file:///w/doc.vcpro", 0)]);
    let list = references(text, at(0, 7), "file:///w/doc.vcpro", &refs, None).unwrap();
    assert_eq!(
        places(&list),
        vec![pair("file:///w/doc.vcpro", 0), pair("file:///w/doc.vcpro", 3)]
    );
    assert!(references(text, at(0, 6), "u", &refs, None).is_none());
    assert!(references(text, at(9, 0), "u", &refs, None).is_none());
}

#[test]
fn a_word_without_references_is_found_in_the_document() {
    let text = "A.Z = 1\nZ = 2\nB.Y = C.Z";
    let list = references(text, at(1, 1), "u", &ReferenceIndex::default(), None).unwrap();
    assert_eq!(places(&list), vec![pair("u", 0), pair("u", 2)]);
}

#[test]
fn only_dotted_tails_equal_to_the_word_are_found() {
    let text = "$SELF.A = 1\n$SELF.AB = 2\nA = 3\n";
    let list = references(text, at(0, 7), "u", &ReferenceIndex::default(), None).unwrap();
    assert_eq!(places(&list), vec![pair("u", 0)]);
}

#[test]
fn documents_read_back_what_was_written() {
    let mut docs = Documents::default();
    assert_eq!(docs.get("a"), None);
    docs.insert("a".to_string(), "1".to_string());
    docs.insert("b".to_string(), "2".to_string());
    docs.insert("a".to_string(), "3".to_string());
    assert_eq!(docs.get("a").as_deref(), Some("3"));
    assert_eq!(docs.get("b").as_deref(), Some("2"));
    docs.remove("a");
    docs.remove("a");
    assert_eq!(docs.get("a"), None);
    assert_eq!(docs.get("b").as_deref(), Some("2"));
}

#[test]
fn the_last_change_counts() {
    let mut docs = Documents::default();
    docs.change("a".to_string(), &vec![]);
    assert_eq!(docs.get("a"), None);
    docs.change("a".to_string(), &vec!["1".to_string(), "2".to_string()]);
    assert_eq!(docs.get("a").as_deref(), Some("2"));
    docs.change("a".to_string(), &vec![]);
    assert_eq!(docs.get("a").as_deref(), Some("2"));
}

#[test]
fn the_file_of_a_path_follows_the_last_slash() {
    assert_eq!(file_of_path("/a/b/C.vcpro"), "C.vcpro");
    assert_eq!(file_of_path("/"), "");
    assert_eq!(file_of_path("/a/"), "");
    assert_eq!(file_of_path("/x"), "x");
    assert_eq!(file_of_path("opaque/x"), "");
    assert_eq!(file_of_path(""), "");
}
