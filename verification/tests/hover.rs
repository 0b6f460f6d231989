use sapvc_lsp::grammar::Focus;
use sapvc_lsp::hover::{count_occurrences, hover, hover_node, Hover};
use sapvc_lsp::material::{CharValueInfo, MaterialIndex};
use sapvc_lsp::position::{Position, Range};
use sapvc_lsp::refs::{RefLoc, ReferenceIndex};

fn owned(list: &[&str]) -> Vec<String> {
    list.iter().map(|s| s.to_string()).collect()
}

fn focus(text: &str, kind: &str, part: &str, ancestors: &[&str]) -> Focus {
    let start = text.find(part).unwrap();
    Focus {
        kind: kind.to_string(),
        start_byte: start,
        end_byte: start + part.len(),
        ancestors: owned(ancestors),
        is_class: false,
    }
}

fn plain(text: &str, focus: &Focus) -> Option<Hover> {
    hover_node(text, focus, &MaterialIndex::default(), &ReferenceIndex::default(), "F.vcpro")
}

fn value(text: &str, kind: &str, part: &str, ancestors: &[&str]) -> String {
    plain(text, &focus(text, kind, part, ancestors)).unwrap().value
}

fn json() -> tree_sitter::Language {
    tree_sitter_json::LANGUAGE.into()
}

#[test]
fn a_reference_tells_its_occurrences() {
    let text = "$SELF.X = 1\nET1. X = $SELF.XY\nX = A.X.X\n";
    assert_eq!(
        value(text, "identifier", "X", &["object_ref", "reference"]),
        "`X` — object variable reference\n\nOccurrences in this document: **4**"
    );
    assert_eq!(
        value(text, "identifier", "X", &["bare_ref"]),
        "`X` — characteristic/object reference\n\nOccurrences in this document: **4**"
    );
}

#[test]
fn a_builtin_is_told_apart() {
    let text = "$SELF.X";
    assert_eq!(
        value(text, "identifier", "$SELF", &["object_ref"]),
        "`$SELF` — object variable reference (builtin object variable)\n\nOccurrences in this document: **0**"
    );
}

#[test]
fn a_characteristic_tells_what_the_material_knows() {
    let text = "$SELF.C = 1";
    let mut mat = MaterialIndex::default();
    mat.char_values.insert(
        "C".to_string(),
        CharValueInfo {
            values: owned(&["1", "2", "3", "4", "5", "6"]),
            numeric: true,
            description: Some("width".to_string()),
            with_sign: true,
        },
    );
    let mut refs = ReferenceIndex::default();
    for (file, line) in [("F", 1), ("G", 2), ("H", 3), ("G", 4), ("I", 5), ("J", 6)] {
        refs.refs.append("C", RefLoc { file: file.to_string(), line });
    }
    let at = focus(text, "identifier", "C", &["object_ref"]);
    let shown = hover_node(text, &at, &mat, &refs, "F").unwrap();
    assert_eq!(
        shown.value,
        "`C` — object variable reference\n\nOccurrences in this document: **1**\
         \n\n*width*\
         \n\nValue range (6 values, e.g.): `1`, `2`, `3`, `4`, `5`\
         \nNumeric characteristic — **accepts negative values**\
         \n\n**Where used:** 6 refs in 5 files — `G:2`, `H:3`, `G:4`, `I:5`"
    );
    assert_eq!(
        shown.range,
        Range {
            start: Position { line: 0, character: 6 },
            end: Position { line: 0, character: 7 },
        }
    );
}

#[test]
fn a_characteristic_without_values_and_uses_elsewhere() {
    let text = "$SELF.C = 1";
    let mut mat = MaterialIndex::default();
    mat.char_values.insert(
        "C".to_string(),
        CharValueInfo { values: vec![], numeric: true, description: None, with_sign: false },
    );
    let mut refs = ReferenceIndex::default();
    refs.refs.append("C", RefLoc { file: "F".to_string(), line: 1 });
    let at = focus(text, "identifier", "C", &["object_ref"]);
    assert_eq!(
        hover_node(text, &at, &mat, &refs, "F").unwrap().value,
        "`C` — object variable reference\n\nOccurrences in this document: **1**\
         \nNumeric characteristic — no negative values\
         \n\n**Where used:** 1 refs in 1 files"
    );
}

#[test]
fn a_table_tells_its_columns() {
    let text = "TABLE T (A = 1)";
    let mut mat = MaterialIndex::default();
    mat.vt_chars.insert("T".to_string(), owned(&["A", "B", "C"]));
    mat.vt_keys.insert("T".to_string(), owned(&["A", "C"]));
    let at = focus(text, "identifier", "T ", &["keyword_call"]);
    let at = Focus { end_byte: at.end_byte - 1, ..at };
    let refs = ReferenceIndex::default();
    assert_eq!(
        hover_node(text, &at, &mat, &refs, "").unwrap().value,
        "`T` — variant table (3 columns)\n\n- `A` — **key**\n- `B`\n- `C` — **key**\n\nKeys: `A`, `C`"
    );
    mat.vt_keys.remove("T");
    assert_eq!(
        hover_node(text, &at, &mat, &refs, "").unwrap().value,
        "`T` — variant table (3 columns)\n\n- `A`\n- `B`\n- `C`"
    );
    mat.vt_chars.remove("T");
    assert_eq!(
        hover_node(text, &at, &mat, &refs, "").unwrap().value,
        "`T` — variant table / function call callee."
    );
}

#[test]
fn identifiers_by_what_they_stand_in() {
    let text = "NAME";
    let told = |above: &[&str]| value(text, "identifier", "NAME", above);
    assert_eq!(told(&["call"]), "`NAME` — function call (math builtin or user function).");
    assert_eq!(
        told(&["named_argument", "keyword_call"]),
        "`NAME` — parameter of a variant table / function call."
    );
    assert_eq!(told(&["x", "object_decl"]), "`NAME` — constraint object declaration.");
    assert_eq!(told(&["x", "y"]), "`NAME`");
    assert_eq!(told(&[]), "`NAME`");
}

#[test]
fn a_class_is_told_apart_from_the_object() {
    let text = "ET1 IS_A(300) CN_SPB_1";
    let mut mat = MaterialIndex::default();
    let refs = ReferenceIndex::default();
    let object = focus(text, "identifier", "ET1", &["object_decl"]);
    let class = focus(text, "identifier", "CN_SPB_1", &["object_decl"]);
    let class = Focus { is_class: true, ..class };
    assert_eq!(
        hover_node(text, &object, &mat, &refs, "").unwrap().value,
        "`ET1` — constraint object declaration."
    );
    assert_eq!(
        hover_node(text, &class, &mat, &refs, "").unwrap().value,
        "`CN_SPB_1` — class (not in material class universe)."
    );
    mat.classes.insert("CN_SPB_1".to_string());
    assert_eq!(
        hover_node(text, &class, &mat, &refs, "").unwrap().value,
        "`CN_SPB_1` — class (in material class universe)."
    );
}

#[test]
fn literals_and_comments() {
    assert_eq!(value("* c \n", "comment", "* c \n", &[]), "Comment\n\n```\n* c\n```");
    assert_eq!(value("'A'", "string", "'A'", &[]), "String literal\n\n`'A'`");
    assert_eq!(value("12", "number", "12", &[]), "Numeric literal\n\n`12`");
}

#[test]
fn keywords_have_texts() {
    let told = |kind: &str| value("x", kind, "x", &[]);
    let guard = "IF — guard clause; the preceding statement/condition applies only when this condition holds (trailing `,` or `.` ends the guard).";
    assert_eq!(told("IF"), guard);
    assert_eq!(told("if"), guard);
    assert_eq!(
        told("AND"),
        "AND — condition conjunction (multi-line chains continue while a line ends with AND/OR)."
    );
    assert_eq!(told("and"), told("AND"));
    assert_eq!(told("OR"), "OR — condition disjunction.");
    assert_eq!(told("or"), told("OR"));
    assert_eq!(told("NOT"), "NOT — condition negation.");
    assert_eq!(told("not"), told("NOT"));
    assert_eq!(
        told("IN"),
        "IN — membership test against a list or range: `X IN ('A','B')` / `X IN (>2400 - 2600)`."
    );
    assert_eq!(told("in"), told("IN"));
    assert_eq!(
        told("SPECIFIED"),
        "SPECIFIED — presence test (prefix and postfix forms both occur in production code)."
    );
    assert_eq!(told("specified"), told("SPECIFIED"));
    for kind in ["TABLE", "table", "FUNCTION", "function", "PFUNCTION", "pfunction"] {
        assert_eq!(
            told(kind),
            format!("`{}` call — variant table / custom function invocation with named parameters.", kind)
        );
    }
    for kind in ["OBJECTS", "CONDITION", "RESTRICTIONS", "INFERENCES"] {
        assert_eq!(told(kind), format!("`{}:` — constraint section header.", kind));
    }
    for kind in
        ["$SET_DEFAULT", "$DEL_DEFAULT", "$SET_PRICING_FACTOR", "$COUNT_PARTS", "$SUM_PARTS"]
    {
        assert_eq!(told(kind), format!("`{}` — system procedure (engine builtin).", kind));
    }
    assert_eq!(told("?="), "`?=` — conditional assignment: set the value only if not already set.");
    assert_eq!(told("="), "`=` — assignment / comparison equals.");
    for kind in ["(", ")", "<", "ERROR", "If", "source_file"] {
        assert!(plain("x", &focus("x", kind, "x", &[])).is_none());
    }
}

#[test]
fn occurrences_come_behind_dots() {
    assert_eq!(count_occurrences("", "X"), 0);
    assert_eq!(count_occurrences("X", "X"), 0);
    assert_eq!(count_occurrences("A.X", "X"), 1);
    assert_eq!(count_occurrences("A. \t X", "X"), 1);
    assert_eq!(count_occurrences("A.X.X\nB.X-1\r\nC.X", "X"), 4);
    assert_eq!(count_occurrences("A.XY A.X_ A.X1", "X"), 0);
    assert_eq!(count_occurrences("A.X中", "X"), 1);
    // the head of a chain starts anew on every line
    assert_eq!(count_occurrences("A.\nX", "X"), 0);
}

#[test]
fn hovering_over_a_parsed_text() {
    let text = "{\n\"a\": 12}";
    let mat = MaterialIndex::default();
    let refs = ReferenceIndex::default();
    let at = |line: u32, character: u32| {
        hover(text, Position { line, character }, &mat, &refs, "", &json())
    };
    let shown = at(1, 6).unwrap();
    assert_eq!(shown.value, "Numeric literal\n\n`12`");
    assert_eq!(
        shown.range,
        Range {
            start: Position { line: 1, character: 5 },
            end: Position { line: 1, character: 7 },
        }
    );
    assert!(at(0, 0).is_none());
    assert!(at(5, 0).is_none());
}
