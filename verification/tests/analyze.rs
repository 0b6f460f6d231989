use sapvc_lsp::analyze::{
    diagnostics, document_diagnostics, is_star_limitation, number_literals, syntax_diagnostics,
};
use sapvc_lsp::diagnostic::{Diagnostic, Severity};
use sapvc_lsp::grammar::{read_focus, read_syntax};
use sapvc_lsp::material::MaterialIndex;
use sapvc_lsp::names::NameSet;
use sapvc_lsp::position::{Position, Range};
use sapvc_lsp::syntax::{tree_fits, SyntaxNode};
use sapvc_lsp::text::chars_of;

fn row(text: &str, byte: usize) -> usize {
    text[..byte].matches('\n').count()
}

/// A node from `start` to `end`.
fn node(text: &str, kind: &str, start: usize, end: usize, children: Vec<SyntaxNode>) -> SyntaxNode {
    SyntaxNode {
        kind: kind.to_string(),
        start_byte: start,
        end_byte: end,
        start_row: row(text, start),
        end_row: row(text, end),
        is_error: false,
        is_missing: false,
        children,
    }
}

/// A node over the first occurrence of `part`.
fn over(text: &str, kind: &str, part: &str) -> SyntaxNode {
    let start = text.find(part).unwrap();
    node(text, kind, start, start + part.len(), vec![])
}

fn error(mut n: SyntaxNode) -> SyntaxNode {
    n.kind = "ERROR".to_string();
    n.is_error = true;
    n
}

fn root(text: &str, children: Vec<SyntaxNode>) -> SyntaxNode {
    let tree = node(text, "source_file", 0, text.len(), children);
    assert!(tree_fits(&tree, &chars_of(text)));
    tree
}

fn json() -> tree_sitter::Language {
    tree_sitter_json::LANGUAGE.into()
}

fn range(a: (u32, u32), b: (u32, u32)) -> Range {
    Range {
        start: Position { line: a.0, character: a.1 },
        end: Position { line: b.0, character: b.1 },
    }
}

#[test]
fn clean_text_no_diagnostics() {
    let text = "$SELF.X = 1\n$SELF.Y ?= 'A'\n";
    let tree = root(
        text,
        vec![
            over(text, "assignment", "$SELF.X = 1"),
            over(text, "conditional_assignment", "$SELF.Y ?= 'A'"),
        ],
    );
    let d = syntax_diagnostics(text, &tree);
    assert_eq!(d.len(), 0);
}

#[test]
fn comment_after_value_is_suppressed_as_star_limitation() {
    let text = "$SELF.X = 1\n* comment after value\n";
    let tree = root(
        text,
        vec![
            over(text, "assignment", "$SELF.X = 1\n* comment"),
            error(over(text, "", "* comment after value")),
        ],
    );
    let d = syntax_diagnostics(text, &tree);
    assert_eq!(d.len(), 0, "star limitation must be suppressed");
}

#[test]
fn real_file_head_parses() {
    let text = "$SELF.THIS_WILL_STOP = $SELF.NULL\n\
                IF $SELF.TXT_ELE_VENDOR SPECIFIED,\n\
                * Chinese comment 中文注释\n\
                $SELF.TXT_ELE_VENDOR ?= 'VER_03'\n";
    let tree = root(
        text,
        vec![
            over(text, "assignment", "$SELF.THIS_WILL_STOP = $SELF.NULL"),
            over(text, "if_clause", "IF $SELF.TXT_ELE_VENDOR SPECIFIED,"),
            over(text, "comment", "* Chinese comment 中文注释"),
            over(text, "conditional_assignment", "$SELF.TXT_ELE_VENDOR ?= 'VER_03'"),
        ],
    );
    let d = syntax_diagnostics(text, &tree);
    assert_eq!(d.len(), 0);
}

#[test]
fn errors_are_reported_with_their_range() {
    let text = "文 = = 1\nX\n";
    let mut missing = node(text, "number", text.len() - 1, text.len() - 1, vec![]);
    missing.is_missing = true;
    let tree = root(text, vec![error(over(text, "", "= =")), missing]);
    let d = syntax_diagnostics(text, &tree);
    assert_eq!(d.len(), 2);
    assert_eq!(d[0].message, "Syntax error");
    assert_eq!(d[0].severity, Severity::Error);
    assert_eq!(d[0].range, range((0, 2), (0, 5)));
    assert_eq!(d[1].message, "Syntax error (missing token)");
    assert_eq!(d[1].severity, Severity::Error);
    assert_eq!(d[1].range, range((1, 1), (1, 1)));
}

#[test]
fn errors_on_the_end_row_of_a_suppressed_one_are_suppressed() {
    let text = "* a\nb c\nd e\nf\n";
    // from the comment line to `b`, then `c` on the same row up to `d`, then
    // `e` on that row, then `f` on a row of its own
    let first = error(over(text, "", "* a\nb"));
    let second = error(over(text, "", "c\nd"));
    let third = error(over(text, "", "e"));
    let fourth = error(over(text, "", "f"));
    let d = syntax_diagnostics(text, &root(text, vec![first, second, third, fourth]));
    assert_eq!(d.len(), 1);
    assert_eq!(d[0].range, range((3, 0), (3, 1)));
}

#[test]
fn errors_inside_errors_are_looked_at() {
    let text = "a b c";
    let inner = error(over(text, "", "b"));
    let mut outer = error(over(text, "", "a b c"));
    outer.children = vec![inner];
    let d = syntax_diagnostics(text, &root(text, vec![outer]));
    assert_eq!(d.len(), 2);
    assert_eq!(d[0].range, range((0, 0), (0, 5)));
    assert_eq!(d[1].range, range((0, 2), (0, 3)));
}

#[test]
fn only_the_line_of_the_error_decides() {
    let text = "x\n  * c\n \n* d";
    let chars = chars_of(text);
    assert!(!is_star_limitation(&chars, 0));
    assert!(is_star_limitation(&chars, 2));
    assert!(is_star_limitation(&chars, 6));
    // a blank line before a comment line
    assert!(!is_star_limitation(&chars, 8));
    assert!(is_star_limitation(&chars, text.len()));
    // behind the end of the text the last line counts
    assert!(is_star_limitation(&chars, text.len() + 5));
}

#[test]
fn without_a_material_only_syntax_is_reported() {
    let text = "X = = 1";
    let tree = root(text, vec![error(over(text, "", "= ="))]);
    let d = document_diagnostics(text, &tree, &MaterialIndex::default(), &NameSet::new());
    assert_eq!(d.len(), 1);
    assert_eq!(d[0].message, "Syntax error");
}

#[test]
fn number_literals_in_the_order_of_the_text() {
    let text = "A = 1 B = -2 C = 1";
    let inner = node(text, "value", 4, 5, vec![node(text, "number", 4, 5, vec![])]);
    let tree = root(
        text,
        vec![inner, over(text, "number", "-2"), node(text, "number", 17, 18, vec![])],
    );
    assert_eq!(number_literals(text, &tree), vec!["1", "-2", "1"]);
}

#[test]
fn a_tree_that_leaves_the_text_does_not_fit() {
    let text = "中";
    let chars = chars_of(text);
    assert!(tree_fits(&node(text, "a", 0, 3, vec![]), &chars));
    let mut bad = node(text, "a", 0, 3, vec![]);
    bad.end_byte = 4;
    assert!(!tree_fits(&bad, &chars));
    bad.end_byte = 1;
    assert!(!tree_fits(&bad, &chars));
    let mut above = node(text, "b", 0, 3, vec![]);
    above.children = vec![bad];
    assert!(!tree_fits(&above, &chars));
}

fn find<'a>(n: &'a SyntaxNode, kind: &str) -> Option<&'a SyntaxNode> {
    if n.kind == kind {
        return Some(n);
    }
    n.children.iter().find_map(|c| find(c, kind))
}

#[test]
fn a_parsed_text_is_read_as_a_tree() {
    let text = "{\n\"a\": 12}";
    let tree = read_syntax(&json(), text).unwrap();
    assert_eq!(tree.kind, "document");
    assert_eq!((tree.start_byte, tree.end_byte), (0, text.len()));
    assert_eq!((tree.start_row, tree.end_row), (0, 1));
    assert!(!tree.is_error && !tree.is_missing);
    assert_eq!(tree.children.len(), 1);
    let object = &tree.children[0];
    let kinds: Vec<&str> = object.children.iter().map(|c| c.kind.as_str()).collect();
    assert_eq!(kinds, vec!["{", "pair", "}"]);
    let number = find(&tree, "number").unwrap();
    assert_eq!(&text[number.start_byte..number.end_byte], "12");
    assert_eq!((number.start_row, number.end_row), (1, 1));
}

#[test]
fn a_parsed_text_without_errors_has_no_diagnostics() {
    assert_eq!(diagnostics("{\"a\": [1, 2]}", &json()).len(), 0);
}

#[test]
fn a_missing_token_is_diagnosed() {
    let d: Vec<Diagnostic> = diagnostics("[1, 2", &json());
    assert_eq!(d.len(), 1);
    assert_eq!(d[0].message, "Syntax error (missing token)");
    assert_eq!(d[0].range, range((0, 5), (0, 5)));
}

#[test]
fn an_unexpected_token_is_diagnosed() {
    let d = diagnostics("{\"a\": 1} @", &json());
    assert!(!d.is_empty());
    for x in &d {
        assert_eq!(x.message, "Syntax error");
        assert_eq!(x.severity, Severity::Error);
        assert_eq!(x.range, range((0, 9), (0, 10)));
    }
}

#[test]
fn an_unexpected_token_on_a_comment_line_is_not() {
    assert_eq!(diagnostics("{\"a\": 1}\n  * @", &json()).len(), 0);
}

#[test]
fn the_node_under_an_offset_knows_what_is_above_it() {
    let text = "{\"a\": 12}";
    let focus = read_focus(&json(), text, 7).unwrap();
    assert_eq!(focus.kind, "number");
    assert_eq!((focus.start_byte, focus.end_byte), (6, 8));
    assert_eq!(focus.ancestors, vec!["pair", "object", "document"]);
    assert!(!focus.is_class);
    let top = read_focus(&json(), "", 0).unwrap();
    assert_eq!(top.kind, "document");
    assert_eq!(top.ancestors, Vec::<String>::new());
}
