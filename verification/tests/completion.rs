use sapvc_lsp::completion::{
    complete, in_if_condition, table_call_context, CompletionItem, ItemKind,
};
use sapvc_lsp::material::MaterialIndex;
use sapvc_lsp::position::Position;

fn owned(list: &[&str]) -> Vec<String> {
    list.iter().map(|s| s.to_string()).collect()
}

fn mat_with_table() -> MaterialIndex {
    let mut m = MaterialIndex::default();
    m.chars.insert("TYP_CDO".into());
    m.chars.insert("DIM_X".into());
    m.vt_chars.insert(
        "TB_DOOR_SILL_A1".into(),
        vec!["TYP_CDO".into(), "DIM_X".into(), "TYP_CDO_OPENING".into()],
    );
    m.vt_keys.insert("TB_DOOR_SILL_A1".into(), vec!["TYP_CDO".into()]);
    m
}

fn items(resp: Option<Vec<CompletionItem>>) -> Vec<String> {
    match resp {
        Some(a) => a.into_iter().map(|i| i.label).collect(),
        None => vec![],
    }
}

fn end_of(text: &str) -> Position {
    let line = text.matches('\n').count() as u32;
    let last = text.rsplit('\n').next().unwrap();
    Position { line, character: last.chars().count() as u32 }
}

fn at_end(text: &str, m: &MaterialIndex) -> Vec<CompletionItem> {
    complete(text, end_of(text), m).unwrap()
}

const STARTERS: [&str; 14] = [
    "$SELF.",
    "IF ",
    "TABLE ",
    "PFUNCTION ",
    "FUNCTION ",
    "$DEL_DEFAULT (",
    "$SET_DEFAULT (",
    "$SET_PRICING_FACTOR (",
    "$COUNT_PARTS (",
    "$SUM_PARTS (",
    "OBJECTS:",
    "CONDITION:",
    "RESTRICTIONS:",
    "INFERENCES:",
];

const OPERATORS: [&str; 10] =
    ["SPECIFIED", "NOT ", "IN (", ">=", "<=", "=", "<>", "IS INVISIBLE", "AND ", "OR "];

#[test]
fn table_column_completion_inside_call() {
    let m = mat_with_table();
    let text = "TABLE TB_DOOR_SILL_A1 (TY";
    let pos = Position { line: 0, character: text.chars().count() as u32 };
    let resp = complete(text, pos, &m);
    let labels = items(resp);
    assert!(labels.contains(&"TYP_CDO".to_string()), "key column offered");
    assert!(labels.contains(&"TYP_CDO_OPENING".to_string()));
    assert!(!labels.contains(&"DIM_X".to_string()), "partial 'TY' filters");
    let a = complete(text, pos, &m).unwrap();
    let key_item = a.iter().find(|i| i.label == "TYP_CDO").unwrap();
    assert!(key_item.detail.as_deref().unwrap_or("").contains("key field"));
    assert_eq!(key_item.detail.as_deref(), Some("TB_DOOR_SILL_A1 — key field"));
    assert_eq!(key_item.insert_text.as_deref(), Some("TYP_CDO = "));
    assert_eq!(key_item.kind, ItemKind::Field);
    assert_eq!(a[1].detail.as_deref(), Some("TB_DOOR_SILL_A1 — column"));
}

#[test]
fn condition_operator_completion_after_ref() {
    let m = MaterialIndex::default();
    let text = "IF $SELF.DIM_X ";
    let pos = Position { line: 0, character: text.chars().count() as u32 };
    let resp = complete(text, pos, &m);
    let labels = items(resp);
    assert!(labels.contains(&"SPECIFIED".to_string()));
    assert!(labels.contains(&"IN (".to_string()));
    assert!(labels.contains(&">=".to_string()));
    assert!(labels.contains(&"IS INVISIBLE".to_string()));
    assert_eq!(labels, owned(&OPERATORS));
}

#[test]
fn an_operator_that_is_being_typed_is_offered() {
    let m = MaterialIndex::default();
    assert_eq!(items(Some(at_end("IF $SELF.DIM_X SP", &m))), owned(&["SPECIFIED"]));
    assert_eq!(items(Some(at_end("X = 0.5 IF ", &m))), owned(&STARTERS));
}

#[test]
fn no_table_completion_after_closed_call() {
    let m = mat_with_table();
    let text = "TABLE TB_DOOR_SILL_A1 (TYP_CDO = 'A') ";
    let pos = Position { line: 0, character: text.chars().count() as u32 };
    let resp = complete(text, pos, &m);
    let labels = items(resp);
    assert!(!labels.contains(&"TYP_CDO".to_string()) || labels.contains(&"IF ".to_string()));
    assert_eq!(labels, owned(&STARTERS));
}

#[test]
fn starters_are_offered_elsewhere() {
    let m = MaterialIndex::default();
    assert_eq!(items(Some(at_end("", &m))), owned(&STARTERS));
    let dollar = at_end("X = 1\n$S", &m);
    assert_eq!(
        dollar.iter().map(|i| i.label.clone()).collect::<Vec<_>>(),
        owned(&["$SELF.", "$SET_DEFAULT (", "$SET_PRICING_FACTOR (", "$SUM_PARTS ("])
    );
    assert_eq!(dollar[0].kind, ItemKind::Variable);
    assert_eq!(dollar[0].detail.as_deref(), Some("object variable reference"));
    assert_eq!(dollar[0].insert_text.as_deref(), Some("$SELF."));
    assert_eq!(dollar[1].kind, ItemKind::Function);
    let guard = at_end("IF", &m);
    assert_eq!(guard.len(), 1);
    assert_eq!(guard[0].kind, ItemKind::Keyword);
    assert_eq!(
        guard[0].detail.as_deref(),
        Some("postfix guard — `IF <condition>,` guards the preceding statement")
    );
    assert_eq!(at_end("nothing", &m).len(), 0);
}

#[test]
fn no_block_keyword_is_offered() {
    let m = MaterialIndex::default();
    for text in ["", "IF $SELF.A "] {
        for label in items(Some(at_end(text, &m))) {
            assert!(!label.starts_with("THEN") && !label.starts_with("END"));
            assert!(!label.starts_with("ELSE"));
        }
    }
    assert_eq!(at_end("TH", &m).len(), 0);
    assert_eq!(at_end("E", &m).len(), 0);
}

#[test]
fn characteristics_are_offered_behind_a_dot() {
    let m = mat_with_table();
    let text = "ET1.NEW = 1\n$SELF.";
    let got = at_end(text, &m);
    assert_eq!(
        got.iter().map(|i| i.label.clone()).collect::<Vec<_>>(),
        owned(&["DIM_X", "NEW", "TYP_CDO"])
    );
    assert!(got.iter().all(|i| i.kind == ItemKind::Field));
    assert!(got.iter().all(|i| i.detail.is_none() && i.insert_text.is_none()));
    let text = "ET1.DIM_NEW = 1\n$SELF.DI";
    assert_eq!(items(Some(at_end(text, &m))), owned(&["DI", "DIM_NEW", "DIM_X"]));
}

#[test]
fn dots_on_earlier_lines_do_not_count() {
    let m = mat_with_table();
    assert_eq!(items(Some(at_end("X = 0.5*M.WGT_LOAD\n", &m))), owned(&STARTERS));
}

#[test]
fn a_finished_reference_falls_through() {
    let m = mat_with_table();
    assert_eq!(items(Some(at_end("$SELF.DIM_X ", &m))), owned(&STARTERS));
    // a dot without a chain before it
    assert_eq!(items(Some(at_end(" .", &m))), owned(&STARTERS));
}

#[test]
fn a_dotted_chain_inside_a_call_comes_first() {
    let m = mat_with_table();
    let text = "TABLE TB_DOOR_SILL_A1 (TYP_CDO = $SELF.DI";
    assert_eq!(items(Some(at_end(text, &m))), owned(&["DI", "DIM_X"]));
}

#[test]
fn an_unknown_table_has_no_columns() {
    let m = mat_with_table();
    assert_eq!(at_end("TABLE OTHER (", &m).len(), 0);
}

#[test]
fn the_open_call_is_the_last_one() {
    let name = |s: &str| table_call_context(s);
    assert_eq!(name("TABLE T ("), Some("T".to_string()));
    assert_eq!(name("  TABLE\t T_1 x (A = 1, "), Some("T_1".to_string()));
    assert_eq!(name("TABLE A (x) TABLE B (y"), Some("B".to_string()));
    // inside a longer word it is no keyword
    assert_eq!(name("TABLE TB_TABLE_1 ("), Some("TB_TABLE_1".to_string()));
    assert_eq!(name("TABLE T (MY_TABLE = 1, TABLES = "), Some("T".to_string()));
    assert_eq!(name("TB_TABLE X ("), None);
    assert_eq!(name("TABLEX ("), None);
    assert_eq!(name("TABLE T (x)"), None);
    assert_eq!(name("TABLE T"), None);
    assert_eq!(name("TABLE ("), None);
    assert_eq!(name("table T ("), None);
    assert_eq!(name(""), None);
}

#[test]
fn conditions_are_found_in_any_case() {
    assert!(in_if_condition("if $SELF.A ", "if $SELF.A "));
    assert!(in_if_condition("x and y.z", "x and y.z"));
    assert!(in_if_condition("x Or y.z", "x Or y.z"));
    assert!(in_if_condition("\nx If y.z ", "x If y.z "));
    assert!(!in_if_condition("IF x ", "IF x "));
    // a dot inside of a number is no reference
    assert!(!in_if_condition("X = 0.5 IF Y ", "X = 0.5 IF Y "));
    assert!(!in_if_condition("IF A.B > 2.5 ", "IF A.B > 2.5 "));
    // the reference is not the last thing
    assert!(!in_if_condition("IF A.B = ", "IF A.B = "));
    assert!(!in_if_condition("IF A. ", "IF A. "));
    // an operator that is being typed
    assert!(in_if_condition("IF A.B SP", "IF A.B SP"));
    assert!(!in_if_condition("x.y ", "x.y "));
}

#[test]
fn a_position_behind_the_text_has_no_completion() {
    let m = MaterialIndex::default();
    let pos = Position { line: 3, character: 0 };
    assert!(complete("a\n", pos, &m).is_none());
}

#[test]
fn a_wide_character_right_before_a_chain_is_no_obstacle() {
    let mut m = MaterialIndex::default();
    m.chars.insert("A".into());
    let text = "中$SELF.";
    let got = complete(text, Position { line: 0, character: 7 }, &m);
    assert_eq!(items(got), owned(&["A"]));
    assert_eq!(items(Some(at_end("B.中", &m))), owned(&STARTERS));
}

#[test]
fn only_the_current_line_makes_a_condition() {
    let before = "$SELF.A = 1 IF $SELF.B = 2,\n$SELF.C ";
    assert!(!in_if_condition(before, "$SELF.C "));
    let m = MaterialIndex::default();
    assert_eq!(items(Some(at_end(before, &m))), owned(&STARTERS));
    assert!(!in_if_condition("x IF y AND\n y.z", " y.z"));
}

#[test]
fn a_word_that_repeats_the_dotted_tail_is_a_new_word() {
    let m = MaterialIndex::default();
    let got = complete("$SELF.T = T", Position { line: 0, character: 11 }, &m);
    assert_eq!(items(got), owned(&["TABLE "]));
}
