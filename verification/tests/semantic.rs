use sapvc_lsp::aliases::collect_aliases;
use sapvc_lsp::analyze::number_literals;
use sapvc_lsp::diagnostic::{Diagnostic, Severity};
use sapvc_lsp::material::{CharValueInfo, MaterialFile, MaterialIndex, VtStruct};
use sapvc_lsp::names::NameSet;
use sapvc_lsp::position::{Position, Range};
use sapvc_lsp::semantic::semantic_diagnostics;
use sapvc_lsp::syntax::{tree_fits, SyntaxNode};
use sapvc_lsp::text::chars_of;

fn owned(list: &[&str]) -> Vec<String> {
    list.iter().map(|s| s.to_string()).collect()
}

fn package(chars: &[&str], tables: &[&str], objects: &[&str]) -> MaterialFile {
    MaterialFile {
        material: Some("X".to_string()),
        system: Some("R1E".to_string()),
        chars: owned(chars),
        tables: owned(tables),
        objects: owned(objects),
        deps: vec![],
        char_values: vec![],
        classes: vec![],
        vt_chars: vec![],
        variant_functions: vec![],
        char_refs: vec![],
    }
}

fn info(values: &[&str], numeric: bool, description: Option<&str>, with_sign: bool) -> CharValueInfo {
    CharValueInfo {
        values: owned(values),
        numeric,
        description: description.map(|d| d.to_string()),
        with_sign,
    }
}

/// Builds the tree of a text from left to right: every token is looked for
/// behind the one before.
struct Builder<'a> {
    text: &'a str,
    at: usize,
}

impl<'a> Builder<'a> {
    fn new(text: &'a str) -> Builder<'a> {
        Builder { text, at: 0 }
    }

    fn make(&self, kind: &str, start: usize, end: usize, children: Vec<SyntaxNode>) -> SyntaxNode {
        SyntaxNode {
            kind: kind.to_string(),
            start_byte: start,
            end_byte: end,
            start_row: self.text[..start].matches('\n').count(),
            end_row: self.text[..end].matches('\n').count(),
            is_error: false,
            is_missing: false,
            children,
        }
    }

    fn token(&mut self, kind: &str, part: &str) -> SyntaxNode {
        let start = self.at + self.text[self.at..].find(part).unwrap();
        self.at = start + part.len();
        self.make(kind, start, self.at, vec![])
    }

    fn group(&self, kind: &str, children: Vec<SyntaxNode>) -> SyntaxNode {
        let start = children[0].start_byte;
        let end = children[children.len() - 1].end_byte;
        self.make(kind, start, end, children)
    }

    /// `<head>.<name>`
    fn object_ref(&mut self, head: &str, name: &str) -> SyntaxNode {
        let head = self.token("object_variable", head);
        let dot = self.token(".", ".");
        let name = self.token("identifier", name);
        self.group("object_ref", vec![head, dot, name])
    }

    /// `$SELF.<name> <op> <literal>`
    fn assign(&mut self, kind: &str, name: &str, op: &str, literal: &str, value: &str) -> SyntaxNode {
        let left = self.object_ref("$SELF", name);
        let left = self.group("reference", vec![left]);
        let op = self.token(op, op);
        let literal = self.token(literal, value);
        let value = self.group("value", vec![literal]);
        let right = self.group("expression", vec![value]);
        self.group(kind, vec![left, op, right])
    }

    /// `<keyword> <callee> (<name> = <value>, ..)`
    fn call(&mut self, keyword: &str, callee: &str, args: &[(&str, &str)]) -> SyntaxNode {
        let mut parts = vec![self.token(keyword, keyword), self.token("identifier", callee)];
        parts.push(self.token("(", "("));
        for (name, value) in args {
            let name = self.token("identifier", name);
            let op = self.token("=", "=");
            let value = self.token("value", value);
            parts.push(self.group("named_argument", vec![name, op, value]));
        }
        parts.push(self.token(")", ")"));
        self.group("keyword_call", parts)
    }

    fn root(&self, children: Vec<SyntaxNode>) -> SyntaxNode {
        let tree = self.make("source_file", 0, self.text.len(), children);
        assert!(tree_fits(&tree, &chars_of(self.text)));
        tree
    }
}

fn check(text: &str, tree: &SyntaxNode, data: MaterialFile) -> Vec<Diagnostic> {
    let below: Vec<String> = number_literals(text, tree)
        .into_iter()
        .filter(|raw| raw.parse::<f64>().unwrap_or(0.0) < 0.0)
        .collect();
    let mat = MaterialIndex::load(Some(data));
    semantic_diagnostics(text, tree, &mat, &NameSet::collect(&below))
}

#[test]
fn semantic_unknowns_reported() {
    let text = "$SELF.KNOWN_CHAR = 1\n\
                $SELF.UNKNOWN_CHAR_X = 2\n\
                TABLE TB_NOT_IN_PKG (A = 1)\n\
                TABLE TB_KNOWN (A = 1)\n";
    let mut b = Builder::new(text);
    let nodes = vec![
        b.assign("assignment", "KNOWN_CHAR", "=", "number", "1"),
        b.assign("assignment", "UNKNOWN_CHAR_X", "=", "number", "2"),
        b.call("TABLE", "TB_NOT_IN_PKG", &[("A", "1")]),
        b.call("TABLE", "TB_KNOWN", &[("A", "1")]),
    ];
    let d = check(text, &b.root(nodes), package(&["KNOWN_CHAR"], &["TB_KNOWN"], &["ET1"]));
    assert_eq!(d.len(), 2, "one unknown char warning + one unknown table error");
    assert!(d.iter().any(|x| x.message.contains("UNKNOWN_CHAR_X")));
    assert!(d.iter().any(|x| x.message.contains("TB_NOT_IN_PKG")));
    assert_eq!(
        d[0].message,
        "Unknown characteristic/object `UNKNOWN_CHAR_X` — not in material package (chars: 1, objects: 1)"
    );
    assert_eq!(d[0].severity, Severity::Warning);
    assert_eq!(
        d[0].range,
        Range {
            start: Position { line: 1, character: 6 },
            end: Position { line: 1, character: 20 },
        }
    );
    assert_eq!(d[1].message, "Unknown variant table `TB_NOT_IN_PKG` (not in material package)");
    assert_eq!(d[1].severity, Severity::Error);
    assert_eq!(d[1].range.start, Position { line: 2, character: 6 });
}

#[test]
fn semantic_value_range_and_type() {
    let mut data = package(&["TYP_LDO", "WGT_CAR_TOTAL"], &[], &[]);
    data.char_values = vec![
        ("TYP_LDO".to_string(), info(&["S200", "S400_E"], false, Some("door type"), false)),
        ("WGT_CAR_TOTAL".to_string(), info(&["100", "150"], true, Some(""), false)),
    ];
    let text = "$SELF.TYP_LDO = 'S200'\n\
                $SELF.TYP_LDO = 'INVALID_XXX'\n\
                $SELF.WGT_CAR_TOTAL = 'not_a_number'\n\
                $SELF.WGT_CAR_TOTAL ?= 150\n";
    let mut b = Builder::new(text);
    let nodes = vec![
        b.assign("assignment", "TYP_LDO", "=", "string", "'S200'"),
        b.assign("assignment", "TYP_LDO", "=", "string", "'INVALID_XXX'"),
        b.assign("assignment", "WGT_CAR_TOTAL", "=", "string", "'not_a_number'"),
        b.assign("conditional_assignment", "WGT_CAR_TOTAL", "?=", "number", "150"),
    ];
    let d = check(text, &b.root(nodes), data);
    assert_eq!(d.len(), 2);
    assert!(d.iter().any(|x| x.message.contains("INVALID_XXX")));
    assert!(d.iter().any(|x| x.message.contains("numeric")));
    assert_eq!(
        d[0].message,
        "Value `INVALID_XXX` not in `TYP_LDO` value range (door type) (2 values known, e.g. S200, S400_E)"
    );
    assert_eq!(
        d[1].message,
        "`WGT_CAR_TOTAL` is a numeric characteristic (values: 100), string literal `not_a_number` looks wrong"
    );
    assert!(d.iter().all(|x| x.severity == Severity::Warning));
}

#[test]
fn semantic_where_aliases_exempted() {
    let mut data = package(&["TXT_NON_STD_REMARK"], &[], &["ETO"]);
    data.char_values =
        vec![("TXT_NON_STD_REMARK".to_string(), info(&["YES", "NO"], false, Some(""), false))];
    let text = "OBJECTS:\n\
                ETO IS_A(300) ETOPARAMETERGROUP WHERE NS = TXT_NON_STD_REMARK,\n\
                RESTRICTIONS:\n\
                IF NS SPECIFIED,\n\
                $SELF.NS = 'YES'\n\
                $SELF.NS = 'INVALID_ALIAS_VAL'\n";
    let mut b = Builder::new(text);
    let object = b.token("identifier", "ETO");
    let class = b.token("identifier", "ETOPARAMETERGROUP");
    let alias = b.token("identifier", "NS");
    let alias = b.group("bare_ref", vec![alias]);
    let target = b.token("identifier", "TXT_NON_STD_REMARK");
    let target = b.group("bare_ref", vec![target]);
    let clause = b.group("where_clause", vec![alias, target]);
    let decl = b.group("object_decl", vec![object, class, clause]);
    let guard = b.token("identifier", "NS");
    let guard = b.group("bare_ref", vec![guard]);
    let nodes = vec![
        decl,
        guard,
        b.assign("restriction_statement", "NS", "=", "string", "'YES'"),
        b.assign("restriction_statement", "NS", "=", "string", "'INVALID_ALIAS_VAL'"),
    ];
    let d = check(text, &b.root(nodes), data);
    assert_eq!(d.len(), 1, "only the alias-resolved value error");
    assert!(d[0].message.contains("INVALID_ALIAS_VAL"));
    assert!(d[0].message.contains("TXT_NON_STD_REMARK"));
}

#[test]
fn semantic_multiline_assignment_value_check() {
    let mut data = package(&["TYP_LDO", "DIM_CD"], &[], &[]);
    data.char_values =
        vec![("TYP_LDO".to_string(), info(&["S200", "S400"], false, Some("厅门型号"), false))];
    let text = "$SELF.TYP_LDO =\n'INVALID_ML'\nIF $SELF.DIM_CD < 1100,\n";
    let mut b = Builder::new(text);
    let nodes = vec![
        b.assign("assignment", "TYP_LDO", "=", "string", "'INVALID_ML'"),
        b.object_ref("$SELF", "DIM_CD"),
    ];
    let d = check(text, &b.root(nodes), data);
    assert_eq!(d.len(), 1, "one out-of-range value on the continued line");
    assert!(d[0].message.contains("INVALID_ML"));
    assert!(d[0].message.contains("TYP_LDO"));
    assert_eq!(d[0].range.start, Position { line: 1, character: 0 });
}

#[test]
fn semantic_class_table_function_checks() {
    let mut data = package(&["TYP_CDO"], &["TB_DOOR_SILL_A1"], &["ET1"]);
    data.classes = owned(&["CN_SPB_1"]);
    data.vt_chars = vec![(
        "TB_DOOR_SILL_A1".to_string(),
        VtStruct { chars: owned(&["TYP_CDO", "DIM_X"]), key_fields: owned(&["TYP_CDO"]) },
    )];
    data.variant_functions = owned(&["SAP_VF_CONCATENATE"]);
    let text = "OBJECTS:\n\
                ET1 IS_A(300) CN_SPB_1,\n\
                ET2 IS_A(300) NO_SUCH_CLASS,\n\
                RESTRICTIONS:\n\
                TABLE TB_DOOR_SILL_A1 (TYP_CDO = 'A', BAD_COL = 'B')\n\
                FUNCTION SAP_VF_UNKNOWN (A = 1)\n";
    let mut b = Builder::new(text);
    let one = vec![b.token("identifier", "ET1"), b.token("number", "300"), b.token("identifier", "CN_SPB_1")];
    let one = b.group("object_decl", one);
    let two =
        vec![b.token("identifier", "ET2"), b.token("number", "300"), b.token("identifier", "NO_SUCH_CLASS")];
    let two = b.group("object_decl", two);
    let nodes = vec![
        one,
        two,
        b.call("TABLE", "TB_DOOR_SILL_A1", &[("TYP_CDO", "'A'"), ("BAD_COL", "'B'")]),
        b.call("FUNCTION", "SAP_VF_UNKNOWN", &[("A", "1")]),
    ];
    let d = check(text, &b.root(nodes), data);
    assert_eq!(d.len(), 3, "one per new semantic check");
    assert!(d.iter().any(|x| x.message.contains("NO_SUCH_CLASS")));
    assert!(d.iter().any(|x| x.message.contains("BAD_COL")));
    assert!(d.iter().any(|x| x.message.contains("SAP_VF_UNKNOWN")));
    assert_eq!(
        d[0].message,
        "Unknown class `NO_SUCH_CLASS` — not in material class universe (1 classes known)"
    );
    assert_eq!(
        d[1].message,
        "`BAD_COL` is not a column of TB_DOOR_SILL_A1 (columns: TYP_CDO, DIM_X)"
    );
    assert_eq!(
        d[2].message,
        "Unknown variant function `SAP_VF_UNKNOWN` — known: SAP_VF_CONCATENATE"
    );
    assert!(d.iter().all(|x| x.severity == Severity::Warning));
}

#[test]
fn semantic_negative_value_with_sign_check() {
    let mut data = package(&["DIM_CDO_OD", "WGT_CAR_TOTAL"], &[], &[]);
    data.char_values = vec![
        ("DIM_CDO_OD".to_string(), info(&[], true, None, true)),
        ("WGT_CAR_TOTAL".to_string(), info(&[], true, None, false)),
    ];
    let text = "RESTRICTIONS:\n\
                $SELF.DIM_CDO_OD = -50\n\
                $SELF.WGT_CAR_TOTAL = -50\n";
    let mut b = Builder::new(text);
    let nodes = vec![
        b.assign("restriction_statement", "DIM_CDO_OD", "=", "number", "-50"),
        b.assign("restriction_statement", "WGT_CAR_TOTAL", "=", "number", "-50"),
    ];
    let d = check(text, &b.root(nodes), data);
    assert_eq!(d.len(), 1, "one negative-value warning");
    assert!(d[0].message.contains("WGT_CAR_TOTAL"));
    assert!(d[0].message.contains("negative"));
    assert_eq!(
        d[0].message,
        "`WGT_CAR_TOTAL` does not accept negative values (WITH_SIGN not set)"
    );
}

#[test]
fn nothing_is_found_without_a_universe() {
    let text = "$SELF.X = 1\nTABLE T (A = 1)\n";
    let mut b = Builder::new(text);
    let nodes = vec![
        b.assign("assignment", "X", "=", "number", "1"),
        b.call("TABLE", "T", &[("A", "1")]),
    ];
    assert_eq!(check(text, &b.root(nodes), package(&[], &[], &[])).len(), 0);
}

#[test]
fn builtins_and_objects_pass() {
    let text = "$SELF ET1 NOPE";
    let mut b = Builder::new(text);
    let nodes: Vec<SyntaxNode> = ["$SELF", "ET1", "NOPE"]
        .iter()
        .map(|name| {
            let id = b.token("identifier", name);
            b.group("bare_ref", vec![id])
        })
        .collect();
    let d = check(text, &b.root(nodes), package(&["C"], &[], &["ET1"]));
    assert_eq!(d.len(), 1);
    assert_eq!(
        d[0].message,
        "Unknown characteristic/object `NOPE` — not in material package (chars: 1, objects: 1)"
    );
}

#[test]
fn making_a_characteristic_known_takes_out_its_warnings_alone() {
    let text = "N OTHER N TABLE T (A = 1)";
    let mut b = Builder::new(text);
    let mut nodes: Vec<SyntaxNode> = ["N", "OTHER", "N"]
        .iter()
        .map(|name| {
            let id = b.token("identifier", name);
            b.group("bare_ref", vec![id])
        })
        .collect();
    nodes.push(b.call("TABLE", "T", &[("A", "1")]));
    let tree = b.root(nodes);
    let less = check(text, &tree, package(&["C"], &["U"], &[]));
    let more = check(text, &tree, package(&["C", "N"], &["U"], &[]));
    let unknown =
        "Unknown characteristic/object `N` — not in material package (chars: 1, objects: 0)";
    let kept: Vec<(Range, Severity)> = less
        .iter()
        .filter(|d| d.message != unknown)
        .map(|d| (d.range, d.severity))
        .collect();
    let left: Vec<(Range, Severity)> = more.iter().map(|d| (d.range, d.severity)).collect();
    assert_eq!(less.len(), 4);
    assert_eq!(left, kept);
    assert_eq!(left.len(), 2);
}

#[test]
fn identifiers_outside_of_references_pass() {
    let text = "NOPE";
    let mut b = Builder::new(text);
    let id = b.token("identifier", "NOPE");
    let call = b.group("call", vec![id]);
    assert_eq!(check(text, &b.root(vec![call]), package(&["C"], &[], &[])).len(), 0);
}

#[test]
fn keywords_and_functions_are_taken_in_upper_case() {
    let mut data = package(&["C"], &["T"], &[]);
    data.variant_functions = owned(&["F_STRASSE"]);
    let text = "table U (A = 1)\nfunction f_straße (A = 1)\nFunction g (A = 1)\nPFUNCTION h (A = 1)\n";
    let mut b = Builder::new(text);
    let nodes = vec![
        b.call("table", "U", &[("A", "1")]),
        b.call("function", "f_straße", &[("A", "1")]),
        b.call("Function", "g", &[("A", "1")]),
        b.call("PFUNCTION", "h", &[("A", "1")]),
    ];
    let d = check(text, &b.root(nodes), data);
    assert_eq!(d.len(), 2);
    assert_eq!(d[0].message, "Unknown variant table `U` (not in material package)");
    assert_eq!(d[1].message, "Unknown variant function `G` — known: F_STRASSE");
}

#[test]
fn known_functions_are_listed_in_order() {
    let mut data = package(&["C"], &[], &[]);
    data.variant_functions = owned(&["B", "C", "A"]);
    let text = "FUNCTION X (A = 1)";
    let mut b = Builder::new(text);
    let nodes = vec![b.call("FUNCTION", "X", &[("A", "1")])];
    let d = check(text, &b.root(nodes), data);
    assert_eq!(d[0].message, "Unknown variant function `X` — known: A, B, C");
}

#[test]
fn a_value_without_a_description_and_many_examples() {
    let mut data = package(&["C"], &[], &[]);
    data.char_values =
        vec![("C".to_string(), info(&["1", "2", "3", "4", "5", "6"], false, None, false))];
    let text = "$SELF.C = 'x'\n$SELF.C = '6'";
    let mut b = Builder::new(text);
    let nodes = vec![
        b.assign("assignment", "C", "=", "string", "'x'"),
        b.assign("assignment", "C", "=", "string", "'6'"),
    ];
    let d = check(text, &b.root(nodes), data);
    assert_eq!(d.len(), 1);
    assert_eq!(
        d[0].message,
        "Value `x` not in `C` value range (6 values known, e.g. 1, 2, 3, 4, 5)"
    );
}

#[test]
fn a_numeric_characteristic_without_values() {
    let mut data = package(&["C"], &[], &[]);
    data.char_values = vec![("C".to_string(), info(&[], true, None, false))];
    let text = "$SELF.C = 'x'";
    let mut b = Builder::new(text);
    let nodes = vec![b.assign("assignment", "C", "=", "string", "'x'")];
    let d = check(text, &b.root(nodes), data);
    assert_eq!(
        d[0].message,
        "`C` is a numeric characteristic (values: ?), string literal `x` looks wrong"
    );
}

#[test]
fn aliases_are_declared_behind_where() {
    let aliases = collect_aliases(
        "WHERE A = B, where  C_1=D x\nWHERE\nE\n=\nF WHERE 1 = 2 NOWHERE G = H WHERE A = Z",
    );
    assert_eq!(aliases.len(), 3);
    assert_eq!(aliases.get("A").map(|s| s.as_str()), Some("Z"));
    assert_eq!(aliases.get("C_1").map(|s| s.as_str()), Some("D"));
    assert_eq!(aliases.get("E").map(|s| s.as_str()), Some("F"));
    assert!(aliases.get("G").is_none());
}
