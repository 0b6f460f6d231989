//! Semantic findings: what a document says against what the material knows.

use vstd::prelude::*;
use vstd::string::*;

use crate::aliases::{aliases_in, collect_aliases, texts};
use crate::diagnostic::{
    diagnostic_views, finding, lemma_nothing_added, node_range, range_of_node, report, Diagnostic,
    DiagnosticView, Severity,
};
use crate::material::{holds_value, CharValueInfo, MaterialIndex};
use crate::names::{lists, views, NameMap, NameSet};
use crate::position::{is_span, Range};
use crate::render::{decimal, first, join, join_first, joined, number, to_uppercase, uppercase};
use crate::syntax::{
    find_identifier, first_identifier, fits, is_kind, lemma_child_fits, lemma_first_identifier,
    node_text, nth_of_kind, of_kind, text_of, SyntaxNode, SyntaxView,
};
use crate::text::{
    builtin, chars_of, has_prefix, is_builtin, same_str, string_of, trim, trim_both, CharClass,
};

verus! {

/// What findings are made against.
pub struct Scope<'a> {
    pub text: &'a [char],
    pub mat: &'a MaterialIndex,
    pub aliases: &'a NameMap<String>,
    /// The number literals that are below zero, as they are written.
    pub negative: &'a NameSet,
}

/// What a [`Scope`] says.
pub struct ScopeView {
    pub text: Seq<char>,
    pub mat: MaterialIndex,
    pub aliases: Map<Seq<char>, Seq<char>>,
    pub negative: Seq<Seq<char>>,
}

impl<'a> View for Scope<'a> {
    type V = ScopeView;

    open spec fn view(&self) -> ScopeView {
        ScopeView {
            text: self.text@,
            mat: *self.mat,
            aliases: texts(self.aliases@),
            negative: self.negative@,
        }
    }
}

// ---- Calls: TABLE and FUNCTION ----------------------------------------------

/// `TABLE` with a table that the material does not know.
pub open spec fn table_message(name: Seq<char>) -> Seq<char> {
    "Unknown variant table `"@ + name + "` (not in material package)"@
}

/// A named argument that is no column of the table.
pub open spec fn column_message(
    column: Seq<char>,
    table: Seq<char>,
    columns: Seq<Seq<char>>,
) -> Seq<char> {
    "`"@ + column + "` is not a column of "@ + table + " (columns: "@ + joined(columns, ", "@)
        + ")"@
}

/// `FUNCTION` with a function that the material does not know.
pub open spec fn function_message(name: Seq<char>, known: Seq<Seq<char>>) -> Seq<char> {
    "Unknown variant function `"@ + name + "` — known: "@ + joined(known, ", "@)
}

/// Findings on one argument of a `TABLE` call.
pub open spec fn column_finding(
    scope: ScopeView,
    table: Seq<char>,
    columns: Seq<Seq<char>>,
    arg: SyntaxView,
) -> Seq<DiagnosticView> {
    if arg.kind == "named_argument"@ {
        match first_identifier(arg) {
            Some(id) => {
                let column = node_text(id, scope.text);
                finding(
                    !columns.contains(column),
                    node_range(id, scope.text),
                    Severity::Warning,
                    column_message(column, table, columns),
                )
            },
            None => seq![],
        }
    } else {
        seq![]
    }
}

/// Findings on the arguments of a `TABLE` call.
pub open spec fn column_findings(
    scope: ScopeView,
    table: Seq<char>,
    columns: Seq<Seq<char>>,
    args: Seq<SyntaxView>,
) -> Seq<DiagnosticView>
    decreases args.len(),
{
    if args.len() == 0 {
        seq![]
    } else {
        column_findings(scope, table, columns, args.drop_last()) + column_finding(
            scope,
            table,
            columns,
            args.last(),
        )
    }
}

/// Findings on `TABLE <name>( ... )`.
pub open spec fn table_findings(
    scope: ScopeView,
    node: SyntaxView,
    callee: SyntaxView,
) -> Seq<DiagnosticView> {
    let name = node_text(callee, scope.text);
    finding(
        scope.mat.tables@.len() > 0 && !scope.mat.tables@.contains(name),
        node_range(callee, scope.text),
        Severity::Error,
        table_message(name),
    ) + if scope.mat.vt_chars@.contains_key(name) {
        column_findings(scope, name, views(scope.mat.vt_chars@[name]@), node.children)
    } else {
        seq![]
    }
}

/// Findings on `FUNCTION <name>( ... )`, where `name` is in upper case.
pub open spec fn function_findings(
    scope: ScopeView,
    callee: SyntaxView,
    name: Seq<char>,
) -> Seq<DiagnosticView> {
    finding(
        scope.mat.variant_functions@.len() > 0 && !scope.mat.variant_functions@.contains(name),
        node_range(callee, scope.text),
        Severity::Warning,
        function_message(name, scope.mat.variant_functions@),
    )
}

/// Findings on a call whose keyword and callee read `keyword` and `callee` in
/// upper case.
pub open spec fn call_findings(
    scope: ScopeView,
    node: SyntaxView,
    keyword: Seq<char>,
    callee: Seq<char>,
) -> Seq<DiagnosticView> {
    if node.children.len() < 2 || node.children[1].kind != "identifier"@ {
        seq![]
    } else if keyword == "TABLE"@ {
        table_findings(scope, node, node.children[1])
    } else if keyword == "FUNCTION"@ {
        function_findings(scope, node.children[1], callee)
    } else {
        seq![]
    }
}

/// What child number `i` of a node covers; nothing where there is none.
pub open spec fn child_text(scope: ScopeView, node: SyntaxView, i: int) -> Seq<char> {
    if i < node.children.len() {
        node_text(node.children[i], scope.text)
    } else {
        seq![]
    }
}

// ---- Declarations and references --------------------------------------------

/// A class outside of the material.
pub open spec fn class_message(name: Seq<char>, known: nat) -> Seq<char> {
    "Unknown class `"@ + name + "` — not in material class universe ("@ + decimal(known)
        + " classes known)"@
}

/// A name that is neither a characteristic nor an object of the material.
pub open spec fn reference_message(name: Seq<char>, chars: nat, objects: nat) -> Seq<char> {
    "Unknown characteristic/object `"@ + name + "` — not in material package (chars: "@
        + decimal(chars) + ", objects: "@ + decimal(objects) + ")"@
}

/// Findings on an object declaration: its second identifier is the class.
pub open spec fn class_findings(scope: ScopeView, node: SyntaxView) -> Seq<DiagnosticView> {
    let ids = of_kind(node.children, "identifier"@);
    if ids.len() < 2 {
        seq![]
    } else {
        let name = node_text(ids[1], scope.text);
        finding(
            scope.mat.classes@.len() > 0 && !scope.mat.classes@.contains(name),
            node_range(ids[1], scope.text),
            Severity::Warning,
            class_message(name, scope.mat.classes@.len()),
        )
    }
}

/// Whether a referenced name is unknown: it is no builtin, no alias, no
/// characteristic and no object.
pub open spec fn is_unknown(scope: ScopeView, name: Seq<char>) -> bool {
    &&& !is_builtin(name)
    &&& !scope.aliases.contains_key(name)
    &&& !scope.mat.chars@.contains(name)
    &&& !scope.mat.objects@.contains(name)
}

/// Findings on an identifier below a node of kind `parent`.
pub open spec fn reference_findings(
    scope: ScopeView,
    node: SyntaxView,
    parent: Option<Seq<char>>,
) -> Seq<DiagnosticView> {
    if parent == Some("bare_ref"@) || parent == Some("object_ref"@) {
        let name = node_text(node, scope.text);
        finding(
            is_unknown(scope, name),
            node_range(node, scope.text),
            Severity::Warning,
            reference_message(name, scope.mat.chars@.len(), scope.mat.objects@.len()),
        )
    } else {
        seq![]
    }
}

// ---- Assigned values --------------------------------------------------------

/// A string assigned to a numeric characteristic.
pub open spec fn type_message(name: Seq<char>, values: Seq<Seq<char>>, val: Seq<char>) -> Seq<
    char,
> {
    "`"@ + name + "` is a numeric characteristic (values: "@ + (if values.len() > 0 {
        values[0]
    } else {
        "?"@
    }) + "), string literal `"@ + val + "` looks wrong"@
}

/// A value outside of the value range.
pub open spec fn value_message(
    val: Seq<char>,
    actual: Seq<char>,
    description: Option<Seq<char>>,
    values: Seq<Seq<char>>,
) -> Seq<char> {
    "Value `"@ + val + "` not in `"@ + actual + "` value range"@ + (match description {
        Some(d) => " ("@ + d + ")"@,
        None => seq![],
    }) + " ("@ + decimal(values.len()) + " values known, e.g. "@ + joined(first(values, 5), ", "@)
        + ")"@
}

/// A negative value of a characteristic that takes none.
pub open spec fn sign_message(name: Seq<char>) -> Seq<char> {
    "`"@ + name + "` does not accept negative values (WITH_SIGN not set)"@
}

/// The text of an optional string.
pub open spec fn option_view(s: Option<String>) -> Option<Seq<char>> {
    match s {
        Some(s) => Some(s@),
        None => None,
    }
}

/// What an assignment assigns to: the name as written, the characteristic that
/// it stands for, and what is known of that.
pub struct TargetView {
    pub name: Seq<char>,
    pub actual: Seq<char>,
    pub info: CharValueInfo,
}

/// Findings on one literal on the right of an assignment.
pub open spec fn literal_findings(
    scope: ScopeView,
    target: TargetView,
    literal: SyntaxView,
) -> Seq<DiagnosticView> {
    let raw = node_text(literal, scope.text);
    let range = node_range(literal, scope.text);
    let values = views(target.info.values@);
    if literal.kind == "string"@ {
        let val = trim_both(raw, CharClass::Only('\''));
        if target.info.numeric {
            finding(true, range, Severity::Warning, type_message(target.name, values, val))
        } else {
            finding(
                values.len() > 0 && !holds_value(values, val),
                range,
                Severity::Warning,
                value_message(val, target.actual, option_view(target.info.description), values),
            )
        }
    } else if literal.kind == "number"@ {
        finding(
            scope.negative.contains(raw) && !target.info.with_sign,
            range,
            Severity::Warning,
            sign_message(target.name),
        )
    } else {
        seq![]
    }
}

/// Findings on the literals of one value.
pub open spec fn literals_findings(
    scope: ScopeView,
    target: TargetView,
    literals: Seq<SyntaxView>,
) -> Seq<DiagnosticView>
    decreases literals.len(),
{
    if literals.len() == 0 {
        seq![]
    } else {
        literals_findings(scope, target, literals.drop_last()) + literal_findings(
            scope,
            target,
            literals.last(),
        )
    }
}

/// Findings on the parts of an expression: its values are looked at.
pub open spec fn parts_findings(
    scope: ScopeView,
    target: TargetView,
    parts: Seq<SyntaxView>,
) -> Seq<DiagnosticView>
    decreases parts.len(),
{
    if parts.len() == 0 {
        seq![]
    } else {
        parts_findings(scope, target, parts.drop_last()) + if parts.last().kind == "value"@ {
            literals_findings(scope, target, parts.last().children)
        } else {
            seq![]
        }
    }
}

/// What the left of an assignment stands for, where the material knows values
/// of it. An alias stands for its characteristic.
pub open spec fn assignment_target(scope: ScopeView, left: SyntaxView) -> Option<TargetView> {
    match first_identifier(left) {
        Some(id) => {
            let name = node_text(id, scope.text);
            let actual = if scope.aliases.contains_key(name) {
                scope.aliases[name]
            } else {
                name
            };
            if scope.mat.char_values@.contains_key(actual) {
                Some(TargetView { name, actual, info: scope.mat.char_values@[actual] })
            } else {
                None
            }
        },
        None => None,
    }
}

/// Findings on an assignment: its first child is the left, the first
/// expression behind that the right.
pub open spec fn assignment_findings(scope: ScopeView, node: SyntaxView) -> Seq<DiagnosticView> {
    if node.children.len() == 0 {
        seq![]
    } else {
        let rights = of_kind(node.children.skip(1), "expression"@);
        match assignment_target(scope, node.children[0]) {
            Some(target) => if rights.len() > 0 {
                parts_findings(scope, target, rights[0].children)
            } else {
                seq![]
            },
            None => seq![],
        }
    }
}

/// Findings on one node, the nodes below it left aside.
pub open spec fn own_findings(
    scope: ScopeView,
    node: SyntaxView,
    parent: Option<Seq<char>>,
) -> Seq<DiagnosticView> {
    if node.kind == "keyword_call"@ {
        call_findings(
            scope,
            node,
            uppercase(child_text(scope, node, 0)),
            uppercase(child_text(scope, node, 1)),
        )
    } else if node.kind == "object_decl"@ {
        class_findings(scope, node)
    } else if node.kind == "identifier"@ {
        reference_findings(scope, node, parent)
    } else if node.kind == "assignment"@ || node.kind == "conditional_assignment"@ || node.kind
        == "restriction_statement"@ {
        assignment_findings(scope, node)
    } else {
        seq![]
    }
}

/// Findings on a tree, from the top down and from left to right.
pub open spec fn tree_findings(
    scope: ScopeView,
    node: SyntaxView,
    parent: Option<Seq<char>>,
) -> Seq<DiagnosticView>
    decreases node,
{
    own_findings(scope, node, parent) + trees_findings(scope, node.children, Some(node.kind))
}

/// Findings on a list of trees.
pub open spec fn trees_findings(
    scope: ScopeView,
    nodes: Seq<SyntaxView>,
    parent: Option<Seq<char>>,
) -> Seq<DiagnosticView>
    decreases nodes,
{
    if nodes.len() == 0 {
        seq![]
    } else {
        trees_findings(scope, nodes.drop_last(), parent) + tree_findings(
            scope,
            nodes.last(),
            parent,
        )
    }
}

// ---- Making the findings ----------------------------------------------------

fn check_columns(
    scope: &Scope,
    node: &SyntaxNode,
    table: &str,
    columns: &Vec<String>,
    out: &mut Vec<Diagnostic>,
)
    requires
        fits(node@, scope@.text),
    ensures
        diagnostic_views(final(out)@) == diagnostic_views(old(out)@) + column_findings(
            scope@,
            table@,
            views(columns@),
            node@.children,
        ),
{
    let ghost args = node@.children;
    let ghost known = views(columns@);
    let mut i: usize = 0;
    assert(args.take(0) =~= Seq::<SyntaxView>::empty());
    proof {
        lemma_nothing_added(diagnostic_views(out@));
    }
    while i < node.children.len()
        invariant
            i <= node.children@.len(),
            args == node@.children,
            known == views(columns@),
            fits(node@, scope@.text),
            diagnostic_views(out@) == diagnostic_views(old(out)@) + column_findings(
                scope@,
                table@,
                known,
                args.take(i as int),
            ),
        decreases node.children@.len() - i,
    {
        let arg = &node.children[i];
        let ghost before = diagnostic_views(out@);
        proof {
            assert(args[i as int] == arg@);
            assert(args.take(i + 1).drop_last() =~= args.take(i as int));
            lemma_nothing_added(before);
        }
        if is_kind(arg, "named_argument") {
            match find_identifier(arg) {
                Some(id) => {
                    proof {
                        lemma_first_identifier(arg@, scope@.text);
                    }
                    let column = string_of(text_of(id, scope.text));
                    if !lists(columns, column.as_str()) {
                        let mut message = "`".to_owned();
                        message.append(column.as_str());
                        message.append("` is not a column of ");
                        message.append(table);
                        message.append(" (columns: ");
                        message.append(join(columns, ", ").as_str());
                        message.append(")");
                        report(out, range_of_node(id, scope.text), Severity::Warning, message);
                    }
                },
                None => {},
            }
        }
        proof {
            let part = column_finding(scope@, table@, known, arg@);
            assert(diagnostic_views(out@) == before + part);
            assert(before + part =~= diagnostic_views(old(out)@) + (column_findings(
                scope@,
                table@,
                known,
                args.take(i as int),
            ) + part));
        }
        i += 1;
    }
    assert(args.take(i as int) =~= args);
}

/// Adds the findings on a call whose keyword and callee read `keyword` and
/// `upper` in upper case.
pub fn check_call(
    scope: &Scope,
    node: &SyntaxNode,
    keyword: &str,
    upper: &str,
    out: &mut Vec<Diagnostic>,
)
    requires
        fits(node@, scope@.text),
    ensures
        diagnostic_views(final(out)@) == diagnostic_views(old(out)@) + call_findings(
            scope@,
            node@,
            keyword@,
            upper@,
        ),
{
    proof {
        lemma_nothing_added(diagnostic_views(out@));
    }
    if node.children.len() < 2 {
        return;
    }
    let callee = &node.children[1];
    proof {
        assert(node@.children[1] == callee@);
        lemma_child_fits(node@, scope@.text, 1);
    }
    if !is_kind(callee, "identifier") {
        return;
    }
    let name = string_of(text_of(callee, scope.text));
    let ghost start = diagnostic_views(out@);
    if same_str(keyword, "TABLE") {
        if !scope.mat.tables.is_empty() && !scope.mat.tables.contains(name.as_str()) {
            let mut message = "Unknown variant table `".to_owned();
            message.append(name.as_str());
            message.append("` (not in material package)");
            report(out, range_of_node(callee, scope.text), Severity::Error, message);
        }
        let ghost part = finding(
            scope@.mat.tables@.len() > 0 && !scope@.mat.tables@.contains(name@),
            node_range(callee@, scope@.text),
            Severity::Error,
            table_message(name@),
        );
        assert(diagnostic_views(out@) == start + part);
        match scope.mat.vt_chars.get(name.as_str()) {
            Some(columns) => {
                check_columns(scope, node, name.as_str(), columns, out);
                assert(diagnostic_views(out@) =~= start + table_findings(scope@, node@, callee@));
            },
            None => {
                proof {
                    lemma_nothing_added(part);
                }
            },
        }
    } else if same_str(keyword, "FUNCTION") {
        if !scope.mat.variant_functions.is_empty() && !scope.mat.variant_functions.contains(upper) {
            let mut message = "Unknown variant function `".to_owned();
            message.append(upper);
            message.append("` — known: ");
            let known = scope.mat.variant_functions.to_vec();
            message.append(join(&known, ", ").as_str());
            report(out, range_of_node(callee, scope.text), Severity::Warning, message);
        }
    }
}

fn check_class(scope: &Scope, node: &SyntaxNode, out: &mut Vec<Diagnostic>)
    requires
        fits(node@, scope@.text),
    ensures
        diagnostic_views(final(out)@) == diagnostic_views(old(out)@) + class_findings(
            scope@,
            node@,
        ),
{
    proof {
        lemma_nothing_added(diagnostic_views(out@));
        assert(node@.children.skip(0) =~= node@.children);
    }
    match nth_of_kind(node, 0, "identifier", 1) {
        Some(class) => {
            proof {
                let i = choose|i: int|
                    0 <= i < node@.children.len() && #[trigger] node@.children[i] == class@;
                lemma_child_fits(node@, scope@.text, i);
            }
            let name = string_of(text_of(class, scope.text));
            if !scope.mat.classes.is_empty() && !scope.mat.classes.contains(name.as_str()) {
                let mut message = "Unknown class `".to_owned();
                message.append(name.as_str());
                message.append("` — not in material class universe (");
                message.append(number(scope.mat.classes.len()).as_str());
                message.append(" classes known)");
                report(out, range_of_node(class, scope.text), Severity::Warning, message);
            }
        },
        None => {},
    }
}

fn check_reference(scope: &Scope, node: &SyntaxNode, out: &mut Vec<Diagnostic>)
    requires
        fits(node@, scope@.text),
    ensures
        diagnostic_views(final(out)@) == diagnostic_views(old(out)@) + reference_findings(
            scope@,
            node@,
            Some("bare_ref"@),
        ),
{
    proof {
        lemma_nothing_added(diagnostic_views(out@));
    }
    let chars = text_of(node, scope.text);
    let name = string_of(chars);
    if !builtin(chars) && !scope.aliases.contains_key(name.as_str())
        && !scope.mat.chars.contains(name.as_str()) && !scope.mat.objects.contains(name.as_str()) {
        let mut message = "Unknown characteristic/object `".to_owned();
        message.append(name.as_str());
        message.append("` — not in material package (chars: ");
        message.append(number(scope.mat.chars.len()).as_str());
        message.append(", objects: ");
        message.append(number(scope.mat.objects.len()).as_str());
        message.append(")");
        report(out, range_of_node(node, scope.text), Severity::Warning, message);
    }
}

/// What an assignment assigns to.
struct Target<'a> {
    name: String,
    actual: String,
    info: &'a CharValueInfo,
}

impl<'a> Target<'a> {
    spec fn model(self) -> TargetView {
        TargetView { name: self.name@, actual: self.actual@, info: *self.info }
    }
}

fn find_target<'a>(scope: &Scope<'a>, left: &SyntaxNode) -> (res: Option<Target<'a>>)
    requires
        fits(left@, scope@.text),
    ensures
        match res {
            Some(target) => assignment_target(scope@, left@) == Some(target.model()),
            None => assignment_target(scope@, left@) is None,
        },
{
    match find_identifier(left) {
        Some(id) => {
            proof {
                lemma_first_identifier(left@, scope@.text);
            }
            let name = string_of(text_of(id, scope.text));
            let actual = match scope.aliases.get(name.as_str()) {
                Some(alias) => alias.clone(),
                None => name.clone(),
            };
            match scope.mat.char_values.get(actual.as_str()) {
                Some(info) => Some(Target { name, actual, info }),
                None => None,
            }
        },
        None => None,
    }
}

fn check_literal(
    scope: &Scope,
    target: &Target,
    literal: &SyntaxNode,
    out: &mut Vec<Diagnostic>,
)
    requires
        is_span(scope@.text, literal@.start_byte, literal@.end_byte),
    ensures
        diagnostic_views(final(out)@) == diagnostic_views(old(out)@) + literal_findings(
            scope@,
            target.model(),
            literal@,
        ),
{
    proof {
        lemma_nothing_added(diagnostic_views(out@));
    }
    let raw = text_of(literal, scope.text);
    let info = target.info;
    if is_kind(literal, "string") {
        let val = string_of(trim(raw, CharClass::Only('\'')));
        if info.numeric {
            let mut message = "`".to_owned();
            message.append(target.name.as_str());
            message.append("` is a numeric characteristic (values: ");
            if info.values.len() > 0 {
                assert(views(info.values@)[0] == info.values@[0]@);
                message.append(info.values[0].as_str());
            } else {
                message.append("?");
            }
            message.append("), string literal `");
            message.append(val.as_str());
            message.append("` looks wrong");
            report(out, range_of_node(literal, scope.text), Severity::Warning, message);
        } else if info.has_values() && !info.contains_value(val.as_str()) {
            let mut message = "Value `".to_owned();
            message.append(val.as_str());
            message.append("` not in `");
            message.append(target.actual.as_str());
            message.append("` value range");
            let mut remark = String::new();
            match &info.description {
                Some(d) => {
                    remark = " (".to_owned();
                    remark.append(d.as_str());
                    remark.append(")");
                },
                None => {},
            }
            message.append(remark.as_str());
            message.append(" (");
            message.append(number(info.values.len()).as_str());
            message.append(" values known, e.g. ");
            message.append(join_first(&info.values, 5, ", ").as_str());
            message.append(")");
            report(out, range_of_node(literal, scope.text), Severity::Warning, message);
        }
    } else if is_kind(literal, "number") {
        if scope.negative.contains(string_of(raw).as_str()) && !info.with_sign {
            let mut message = "`".to_owned();
            message.append(target.name.as_str());
            message.append("` does not accept negative values (WITH_SIGN not set)");
            report(out, range_of_node(literal, scope.text), Severity::Warning, message);
        }
    }
}

fn check_literals(scope: &Scope, target: &Target, value: &SyntaxNode, out: &mut Vec<Diagnostic>)
    requires
        fits(value@, scope@.text),
    ensures
        diagnostic_views(final(out)@) == diagnostic_views(old(out)@) + literals_findings(
            scope@,
            target.model(),
            value@.children,
        ),
{
    let ghost literals = value@.children;
    let ghost start = diagnostic_views(out@);
    let mut i: usize = 0;
    proof {
        assert(literals.take(0) =~= Seq::<SyntaxView>::empty());
        lemma_nothing_added(start);
    }
    while i < value.children.len()
        invariant
            i <= value.children@.len(),
            literals == value@.children,
            fits(value@, scope@.text),
            diagnostic_views(out@) == start + literals_findings(
                scope@,
                target.model(),
                literals.take(i as int),
            ),
        decreases value.children@.len() - i,
    {
        let ghost part = literal_findings(scope@, target.model(), literals[i as int]);
        let ghost done = literals_findings(scope@, target.model(), literals.take(i as int));
        proof {
            assert(literals[i as int] == value.children@[i as int]@);
            assert(literals.take(i + 1).drop_last() =~= literals.take(i as int));
            lemma_child_fits(value@, scope@.text, i as int);
        }
        check_literal(scope, target, &value.children[i], out);
        assert((start + done) + part =~= start + (done + part));
        i += 1;
    }
    assert(literals.take(i as int) =~= literals);
}

fn check_parts(scope: &Scope, target: &Target, right: &SyntaxNode, out: &mut Vec<Diagnostic>)
    requires
        fits(right@, scope@.text),
    ensures
        diagnostic_views(final(out)@) == diagnostic_views(old(out)@) + parts_findings(
            scope@,
            target.model(),
            right@.children,
        ),
{
    let ghost parts = right@.children;
    let ghost start = diagnostic_views(out@);
    let mut i: usize = 0;
    proof {
        assert(parts.take(0) =~= Seq::<SyntaxView>::empty());
        lemma_nothing_added(start);
    }
    while i < right.children.len()
        invariant
            i <= right.children@.len(),
            parts == right@.children,
            fits(right@, scope@.text),
            diagnostic_views(out@) == start + parts_findings(
                scope@,
                target.model(),
                parts.take(i as int),
            ),
        decreases right.children@.len() - i,
    {
        let ghost done = parts_findings(scope@, target.model(), parts.take(i as int));
        let ghost part = literals_findings(scope@, target.model(), parts[i as int].children);
        proof {
            assert(parts[i as int] == right.children@[i as int]@);
            assert(parts.take(i + 1).drop_last() =~= parts.take(i as int));
            lemma_child_fits(right@, scope@.text, i as int);
            lemma_nothing_added(done);
            assert((start + done) + part =~= start + (done + part));
        }
        if is_kind(&right.children[i], "value") {
            check_literals(scope, target, &right.children[i], out);
        }
        i += 1;
    }
    assert(parts.take(i as int) =~= parts);
}

fn check_assignment_values(scope: &Scope, node: &SyntaxNode, out: &mut Vec<Diagnostic>)
    requires
        fits(node@, scope@.text),
    ensures
        diagnostic_views(final(out)@) == diagnostic_views(old(out)@) + assignment_findings(
            scope@,
            node@,
        ),
{
    proof {
        lemma_nothing_added(diagnostic_views(out@));
    }
    if node.children.len() == 0 {
        return;
    }
    proof {
        assert(node@.children[0] == node.children@[0]@);
        lemma_child_fits(node@, scope@.text, 0);
    }
    match nth_of_kind(node, 1, "expression", 0) {
        Some(right) => {
            proof {
                let i = choose|i: int|
                    0 <= i < node@.children.len() && #[trigger] node@.children[i] == right@;
                lemma_child_fits(node@, scope@.text, i);
            }
            match find_target(scope, &node.children[0]) {
                Some(target) => {
                    check_parts(scope, &target, right, out);
                },
                None => {},
            }
        },
        None => {},
    }
}

/// Adds the findings on a tree below a node of kind `parent`. What is there
/// already stays as it is, and has no part in what is added.
pub fn check_node(
    scope: &Scope,
    node: &SyntaxNode,
    parent: Option<&str>,
    out: &mut Vec<Diagnostic>,
)
    requires
        fits(node@, scope@.text),
    ensures
        diagnostic_views(final(out)@) == diagnostic_views(old(out)@) + tree_findings(
            scope@,
            node@,
            str_view(parent),
        ),
    decreases node,
{
    let ghost start = diagnostic_views(out@);
    let ghost own = own_findings(scope@, node@, str_view(parent));
    proof {
        lemma_nothing_added(start);
    }
    if is_kind(node, "keyword_call") {
        let keyword = text_of_child(scope, node, 0);
        let callee = text_of_child(scope, node, 1);
        check_call(
            scope,
            node,
            to_uppercase(keyword.as_str()).as_str(),
            to_uppercase(callee.as_str()).as_str(),
            out,
        );
    } else if is_kind(node, "object_decl") {
        check_class(scope, node, out);
    } else if is_kind(node, "identifier") {
        match parent {
            Some(p) => {
                if same_str(p, "bare_ref") || same_str(p, "object_ref") {
                    check_reference(scope, node, out);
                }
            },
            None => {},
        }
    } else if is_kind(node, "assignment") || is_kind(node, "conditional_assignment") || is_kind(
        node,
        "restriction_statement",
    ) {
        check_assignment_values(scope, node, out);
    }
    assert(diagnostic_views(out@) == start + own);
    let ghost below = Some(node@.kind);
    let ghost nodes = node@.children;
    let mut i: usize = 0;
    proof {
        assert(nodes.take(0) =~= Seq::<SyntaxView>::empty());
        lemma_nothing_added(start + own);
    }
    while i < node.children.len()
        invariant
            i <= node.children@.len(),
            nodes == node@.children,
            below == Some(node@.kind),
            fits(node@, scope@.text),
            diagnostic_views(out@) == (start + own) + trees_findings(
                scope@,
                nodes.take(i as int),
                below,
            ),
        decreases node.children@.len() - i,
    {
        let ghost done = trees_findings(scope@, nodes.take(i as int), below);
        let ghost part = tree_findings(scope@, nodes[i as int], below);
        proof {
            assert(nodes[i as int] == node.children@[i as int]@);
            assert(nodes.take(i + 1).drop_last() =~= nodes.take(i as int));
            lemma_child_fits(node@, scope@.text, i as int);
        }
        check_node(scope, &node.children[i], Some(node.kind.as_str()), out);
        assert(((start + own) + done) + part =~= (start + own) + (done + part));
        i += 1;
    }
    assert(nodes.take(i as int) =~= nodes);
    assert((start + own) + trees_findings(scope@, nodes, below) =~= start + (own + trees_findings(
        scope@,
        nodes,
        below,
    )));
}

/// The text of an optional string slice.
pub open spec fn str_view(s: Option<&str>) -> Option<Seq<char>> {
    match s {
        Some(s) => Some(s@),
        None => None,
    }
}

fn text_of_child(scope: &Scope, node: &SyntaxNode, i: usize) -> (res: String)
    requires
        fits(node@, scope@.text),
    ensures
        res@ == child_text(scope@, node@, i as int),
{
    if i < node.children.len() {
        proof {
            assert(node@.children[i as int] == node.children@[i as int]@);
            lemma_child_fits(node@, scope@.text, i as int);
        }
        string_of(text_of(&node.children[i], scope.text))
    } else {
        String::new()
    }
}

/// The findings on a tree against a scope.
pub fn findings(scope: &Scope, tree: &SyntaxNode) -> (res: Vec<Diagnostic>)
    requires
        fits(tree@, scope@.text),
    ensures
        diagnostic_views(res@) == tree_findings(scope@, tree@, None),
{
    let mut out: Vec<Diagnostic> = Vec::new();
    check_node(scope, tree, None, &mut out);
    proof {
        assert(diagnostic_views(Seq::<Diagnostic>::empty()) + tree_findings(scope@, tree@, None)
            =~= tree_findings(scope@, tree@, None));
    }
    out
}

/// The semantic findings on a document: none where the material has no
/// universe.
pub open spec fn semantic_findings(
    text: Seq<char>,
    tree: SyntaxView,
    mat: MaterialIndex,
    negative: Seq<Seq<char>>,
) -> Seq<DiagnosticView> {
    if mat.has_no_universe() {
        seq![]
    } else {
        tree_findings(ScopeView { text, mat, aliases: aliases_in(text), negative }, tree, None)
    }
}

/// Semantic diagnostics against the material: unknown variant tables (error),
/// unknown references, columns, functions and classes, and values that do not
/// fit (warning). Nothing is found where no material is loaded. `negative`
/// holds the number literals whose value is below zero.
pub fn semantic_diagnostics(
    text: &str,
    tree: &SyntaxNode,
    mat: &MaterialIndex,
    negative: &NameSet,
) -> (res: Vec<Diagnostic>)
    requires
        fits(tree@, text@),
    ensures
        diagnostic_views(res@) == semantic_findings(text@, tree@, *mat, negative@),
{
    if mat.is_empty() {
        let res: Vec<Diagnostic> = Vec::new();
        assert(diagnostic_views(res@) =~= Seq::<DiagnosticView>::empty());
        return res;
    }
    let aliases = collect_aliases(text);
    let chars = chars_of(text);
    let scope = Scope { text: chars.as_slice(), mat, aliases: &aliases, negative };
    findings(&scope, tree)
}

// ---- Laws -------------------------------------------------------------------

/// Whether a finding is graded as it should be: an error is about a table that
/// the material does not know, anything else is a warning.
pub open spec fn is_graded(scope: ScopeView, d: DiagnosticView) -> bool {
    d.severity == Severity::Error ==> exists|name: Seq<char>|
        scope.mat.tables@.len() > 0 && !scope.mat.tables@.contains(name) && d.message
            == #[trigger] table_message(name)
}

/// Whether all findings are graded as they should be.
pub open spec fn are_graded(scope: ScopeView, list: Seq<DiagnosticView>) -> bool {
    forall|i: int| 0 <= i < list.len() ==> is_graded(scope, #[trigger] list[i])
}

/// Only an unknown variant table is an error; every other semantic finding is a
/// warning.
pub proof fn law_only_unknown_tables_are_errors(
    scope: ScopeView,
    node: SyntaxView,
    parent: Option<Seq<char>>,
)
    ensures
        are_graded(scope, tree_findings(scope, node, parent)),
    decreases node,
{
    lemma_own_graded(scope, node, parent);
    lemma_trees_graded(scope, node.children, Some(node.kind));
}

proof fn lemma_trees_graded(
    scope: ScopeView,
    nodes: Seq<SyntaxView>,
    parent: Option<Seq<char>>,
)
    ensures
        are_graded(scope, trees_findings(scope, nodes, parent)),
    decreases nodes,
{
    if nodes.len() > 0 {
        lemma_trees_graded(scope, nodes.drop_last(), parent);
        law_only_unknown_tables_are_errors(scope, nodes.last(), parent);
    }
}

proof fn lemma_own_graded(scope: ScopeView, node: SyntaxView, parent: Option<Seq<char>>)
    ensures
        are_graded(scope, own_findings(scope, node, parent)),
{
    if node.kind == "keyword_call"@ && node.children.len() >= 2 {
        let name = node_text(node.children[1], scope.text);
        assert(table_message(name) == table_message(name));
        lemma_columns_graded(scope, name, views(scope.mat.vt_chars@[name]@), node.children);
    }
    if node.children.len() > 0 {
        let rights = of_kind(node.children.skip(1), "expression"@);
        if assignment_target(scope, node.children[0]) is Some && rights.len() > 0 {
            lemma_parts_graded(
                scope,
                assignment_target(scope, node.children[0])->0,
                rights[0].children,
            );
        }
    }
}

proof fn lemma_columns_graded(
    scope: ScopeView,
    table: Seq<char>,
    columns: Seq<Seq<char>>,
    args: Seq<SyntaxView>,
)
    ensures
        are_graded(scope, column_findings(scope, table, columns, args)),
    decreases args.len(),
{
    if args.len() > 0 {
        lemma_columns_graded(scope, table, columns, args.drop_last());
    }
}

proof fn lemma_parts_graded(scope: ScopeView, target: TargetView, parts: Seq<SyntaxView>)
    ensures
        are_graded(scope, parts_findings(scope, target, parts)),
    decreases parts.len(),
{
    if parts.len() > 0 {
        lemma_parts_graded(scope, target, parts.drop_last());
        lemma_literals_graded(scope, target, parts.last().children);
    }
}

proof fn lemma_literals_graded(scope: ScopeView, target: TargetView, literals: Seq<SyntaxView>)
    ensures
        are_graded(scope, literals_findings(scope, target, literals)),
    decreases literals.len(),
{
    if literals.len() > 0 {
        lemma_literals_graded(scope, target, literals.drop_last());
    }
}

/// A reference is flagged if and only if its name is unknown: never a builtin,
/// an alias, a characteristic or an object of the material.
pub proof fn law_known_references_pass(
    scope: ScopeView,
    node: SyntaxView,
    parent: Option<Seq<char>>,
)
    requires
        node.kind == "identifier"@,
        parent == Some("bare_ref"@) || parent == Some("object_ref"@),
    ensures
        ({
            let name = node_text(node, scope.text);
            own_findings(scope, node, parent).len() == 0 <==> is_builtin(name)
                || scope.aliases.contains_key(name) || scope.mat.chars@.contains(name)
                || scope.mat.objects@.contains(name)
        }),
{
    lemma_kinds_differ();
}

proof fn lemma_kinds_differ()
    ensures
        "identifier"@ != "keyword_call"@,
        "identifier"@ != "object_decl"@,
{
    reveal_strlit("identifier");
    reveal_strlit("keyword_call");
    reveal_strlit("object_decl");
    assert("identifier"@[0] != "keyword_call"@[0]);
    assert("identifier"@[0] != "object_decl"@[0]);
}

/// Under an alias the values of the characteristic that it stands for are
/// checked.
pub proof fn law_aliases_stand_for_characteristics(
    scope: ScopeView,
    left: SyntaxView,
    id: SyntaxView,
)
    requires
        first_identifier(left) == Some(id),
        scope.aliases.contains_key(node_text(id, scope.text)),
    ensures
        ({
            let actual = scope.aliases[node_text(id, scope.text)];
            match assignment_target(scope, left) {
                Some(target) => target.actual == actual && scope.mat.char_values@.contains_key(
                    actual,
                ) && target.info == scope.mat.char_values@[actual],
                None => !scope.mat.char_values@.contains_key(actual),
            }
        }),
{
}

/// A literal is flagged if and only if it does not fit: a string under a
/// numeric characteristic or outside of the known values, a negative number
/// under a characteristic that takes none.
pub proof fn law_fitting_values_pass(scope: ScopeView, target: TargetView, literal: SyntaxView)
    ensures
        literal.kind == "string"@ ==> {
            let val = trim_both(node_text(literal, scope.text), CharClass::Only('\''));
            let values = views(target.info.values@);
            literal_findings(scope, target, literal).len() == 0 <==> !target.info.numeric && (
            values.len() == 0 || holds_value(values, val))
        },
        literal.kind == "number"@ ==> {
            literal_findings(scope, target, literal).len() == 0 <==> !scope.negative.contains(
                node_text(literal, scope.text),
            ) || target.info.with_sign
        },
        literal.kind != "string"@ && literal.kind != "number"@ ==> literal_findings(
            scope,
            target,
            literal,
        ).len() == 0,
{
    reveal_strlit("string");
    reveal_strlit("number");
    assert("string"@[0] != "number"@[0]);
}

/// Whether a named argument is a column, or no argument of that kind.
pub open spec fn is_column(scope: ScopeView, columns: Seq<Seq<char>>, arg: SyntaxView) -> bool {
    arg.kind == "named_argument"@ ==> match first_identifier(arg) {
        Some(id) => columns.contains(node_text(id, scope.text)),
        None => true,
    }
}

/// A call of a known table with columns of that table is not flagged.
pub proof fn law_known_tables_pass(scope: ScopeView, node: SyntaxView, callee: SyntaxView)
    requires
        scope.mat.tables@.contains(node_text(callee, scope.text)),
        scope.mat.vt_chars@.contains_key(node_text(callee, scope.text)) ==> forall|i: int|
            0 <= i < node.children.len() ==> is_column(
                scope,
                views(scope.mat.vt_chars@[node_text(callee, scope.text)]@),
                #[trigger] node.children[i],
            ),
    ensures
        table_findings(scope, node, callee) == Seq::<DiagnosticView>::empty(),
{
    let name = node_text(callee, scope.text);
    if scope.mat.vt_chars@.contains_key(name) {
        lemma_known_columns(scope, name, views(scope.mat.vt_chars@[name]@), node.children);
    }
    lemma_nothing_added(Seq::<DiagnosticView>::empty());
}

proof fn lemma_known_columns(
    scope: ScopeView,
    table: Seq<char>,
    columns: Seq<Seq<char>>,
    args: Seq<SyntaxView>,
)
    requires
        forall|i: int| 0 <= i < args.len() ==> is_column(scope, columns, #[trigger] args[i]),
    ensures
        column_findings(scope, table, columns, args) == Seq::<DiagnosticView>::empty(),
    decreases args.len(),
{
    if args.len() > 0 {
        let init = args.drop_last();
        assert forall|i: int| 0 <= i < init.len() implies is_column(
            scope,
            columns,
            #[trigger] init[i],
        ) by {
            assert(init[i] == args[i]);
        }
        lemma_known_columns(scope, table, columns, init);
        assert(args.last() == args[args.len() - 1]);
        lemma_nothing_added(Seq::<DiagnosticView>::empty());
    }
}

// ---- Making a characteristic known ------------------------------------------

/// The ranges and severities of findings.
pub open spec fn grades(list: Seq<DiagnosticView>) -> Seq<(Range, Severity)> {
    Seq::new(list.len(), |i: int| (list[i].range, list[i].severity))
}

/// The findings without those that say `message`.
pub open spec fn without(list: Seq<DiagnosticView>, message: Seq<char>) -> Seq<DiagnosticView>
    decreases list.len(),
{
    if list.len() == 0 {
        seq![]
    } else {
        let init = without(list.drop_last(), message);
        if list.last().message == message {
            init
        } else {
            init.push(list.last())
        }
    }
}

/// Whether `more` knows what `mat` knows, and the characteristic `name`.
pub open spec fn knows_also(more: MaterialIndex, mat: MaterialIndex, name: Seq<char>) -> bool {
    &&& forall|n: Seq<char>| #[trigger]
        more.chars@.contains(n) <==> mat.chars@.contains(n) || n == name
    &&& more.tables@ == mat.tables@
    &&& more.objects@ == mat.objects@
    &&& more.char_values@ == mat.char_values@
    &&& more.classes@ == mat.classes@
    &&& more.vt_chars@ == mat.vt_chars@
    &&& more.variant_functions@ == mat.variant_functions@
}

/// The warning of an unknown reference to `name`.
pub open spec fn unknown_message(mat: MaterialIndex, name: Seq<char>) -> Seq<char> {
    reference_message(name, mat.chars@.len(), mat.objects@.len())
}

/// Making a characteristic known takes out the warnings that it is unknown, and
/// them alone; nothing is added, and the rest keeps its order.
pub proof fn law_known_characteristic(
    text: Seq<char>,
    tree: SyntaxView,
    mat: MaterialIndex,
    more: MaterialIndex,
    negative: Seq<Seq<char>>,
    name: Seq<char>,
)
    requires
        !mat.has_no_universe(),
        knows_also(more, mat, name),
    ensures
        grades(semantic_findings(text, tree, more, negative)) == grades(
            without(semantic_findings(text, tree, mat, negative), unknown_message(mat, name)),
        ),
        semantic_findings(text, tree, more, negative).len() <= semantic_findings(
            text,
            tree,
            mat,
            negative,
        ).len(),
{
    let a = ScopeView { text, mat, aliases: aliases_in(text), negative };
    let b = ScopeView { text, mat: more, aliases: aliases_in(text), negative };
    assert(!more.has_no_universe()) by {
        assert(more.chars@.contains(name));
    }
    lemma_known_tree(a, b, name, tree, None);
    lemma_without_len(tree_findings(a, tree, None), unknown_message(mat, name));
    assert(grades(tree_findings(b, tree, None)).len() == tree_findings(b, tree, None).len());
}

/// Whether two scopes differ in the characteristic `name` alone.
spec fn scopes_differ(a: ScopeView, b: ScopeView, name: Seq<char>) -> bool {
    &&& knows_also(b.mat, a.mat, name)
    &&& b.text == a.text
    &&& b.aliases == a.aliases
    &&& b.negative == a.negative
}

/// Whether findings `y` are findings `x` without those that say `message`.
spec fn is_rest(x: Seq<DiagnosticView>, y: Seq<DiagnosticView>, message: Seq<char>) -> bool {
    grades(y) == grades(without(x, message))
}

proof fn lemma_without_len(list: Seq<DiagnosticView>, message: Seq<char>)
    ensures
        without(list, message).len() <= list.len(),
    decreases list.len(),
{
    if list.len() > 0 {
        lemma_without_len(list.drop_last(), message);
    }
}

proof fn lemma_without_add(x: Seq<DiagnosticView>, y: Seq<DiagnosticView>, message: Seq<char>)
    ensures
        without(x + y, message) == without(x, message) + without(y, message),
    decreases y.len(),
{
    if y.len() == 0 {
        assert(x + y =~= x);
        assert(without(x, message) + without(y, message) =~= without(x, message));
    } else {
        lemma_without_add(x, y.drop_last(), message);
        assert((x + y).drop_last() =~= x + y.drop_last());
        assert((x + y).last() == y.last());
        assert(without(x + y, message) =~= without(x, message) + without(y, message));
    }
}

proof fn lemma_rest_add(
    x: Seq<DiagnosticView>,
    y: Seq<DiagnosticView>,
    u: Seq<DiagnosticView>,
    v: Seq<DiagnosticView>,
    message: Seq<char>,
)
    requires
        is_rest(x, y, message),
        is_rest(u, v, message),
    ensures
        is_rest(x + u, y + v, message),
{
    lemma_without_add(x, u, message);
    let p = without(x, message);
    let q = without(u, message);
    assert(grades(p + q) =~= grades(p) + grades(q));
    assert(grades(y + v) =~= grades(y) + grades(v));
}

/// Whether no finding is that of an unknown reference.
spec fn are_others(list: Seq<DiagnosticView>) -> bool {
    forall|i: int|
        0 <= i < list.len() ==> !has_prefix(
            (#[trigger] list[i]).message,
            "Unknown characteristic/object `"@,
        )
}

proof fn lemma_others_stay(list: Seq<DiagnosticView>, message: Seq<char>)
    requires
        are_others(list),
        has_prefix(message, "Unknown characteristic/object `"@),
    ensures
        without(list, message) == list,
    decreases list.len(),
{
    if list.len() > 0 {
        let init = list.drop_last();
        assert forall|i: int| 0 <= i < init.len() implies !has_prefix(
            (#[trigger] init[i]).message,
            "Unknown characteristic/object `"@,
        ) by {
            assert(init[i] == list[i]);
        }
        lemma_others_stay(init, message);
        assert(list.last() == list[list.len() - 1]);
        assert(without(list, message) =~= list);
    } else {
        assert(without(list, message) =~= list);
    }
}

/// A message that differs from the warning of an unknown reference within the
/// first ten characters is no such warning.
proof fn lemma_other_message(message: Seq<char>, i: int)
    requires
        0 <= i < 10,
        i < message.len(),
        message[i] != "Unknown characteristic/object `"@[i],
    ensures
        !has_prefix(message, "Unknown characteristic/object `"@),
{
    reveal_strlit("Unknown characteristic/object `");
    let start = "Unknown characteristic/object `"@;
    assert(start.len() == 31);
    if has_prefix(message, start) {
        assert(message.take(start.len() as int)[i] == message[i]);
    }
}

/// No other message starts like the warning of an unknown reference.
proof fn lemma_other_messages()
    ensures
        forall|name: Seq<char>|
            !has_prefix(#[trigger] table_message(name), "Unknown characteristic/object `"@),
        forall|name: Seq<char>, known: Seq<Seq<char>>|
            !has_prefix(
                #[trigger] function_message(name, known),
                "Unknown characteristic/object `"@,
            ),
        forall|name: Seq<char>, known: nat|
            !has_prefix(#[trigger] class_message(name, known), "Unknown characteristic/object `"@),
        forall|column: Seq<char>, table: Seq<char>, columns: Seq<Seq<char>>|
            !has_prefix(
                #[trigger] column_message(column, table, columns),
                "Unknown characteristic/object `"@,
            ),
        forall|name: Seq<char>, values: Seq<Seq<char>>, val: Seq<char>|
            !has_prefix(
                #[trigger] type_message(name, values, val),
                "Unknown characteristic/object `"@,
            ),
        forall|
            val: Seq<char>,
            actual: Seq<char>,
            description: Option<Seq<char>>,
            values: Seq<Seq<char>>,
        |
            !has_prefix(
                #[trigger] value_message(val, actual, description, values),
                "Unknown characteristic/object `"@,
            ),
        forall|name: Seq<char>|
            !has_prefix(#[trigger] sign_message(name), "Unknown characteristic/object `"@),
{
    reveal_strlit("Unknown characteristic/object `");
    reveal_strlit("Unknown variant table `");
    reveal_strlit("Unknown variant function `");
    reveal_strlit("Unknown class `");
    reveal_strlit("`");
    reveal_strlit("Value `");
    assert forall|name: Seq<char>| !has_prefix(
        #[trigger] table_message(name),
        "Unknown characteristic/object `"@,
    ) by {
        assert(table_message(name)[8] == 'v');
        lemma_other_message(table_message(name), 8);
    }
    assert forall|name: Seq<char>, known: Seq<Seq<char>>| !has_prefix(
        #[trigger] function_message(name, known),
        "Unknown characteristic/object `"@,
    ) by {
        assert(function_message(name, known)[8] == 'v');
        lemma_other_message(function_message(name, known), 8);
    }
    assert forall|name: Seq<char>, known: nat| !has_prefix(
        #[trigger] class_message(name, known),
        "Unknown characteristic/object `"@,
    ) by {
        assert(class_message(name, known)[9] == 'l');
        lemma_other_message(class_message(name, known), 9);
    }
    assert forall|column: Seq<char>, table: Seq<char>, columns: Seq<Seq<char>>| !has_prefix(
        #[trigger] column_message(column, table, columns),
        "Unknown characteristic/object `"@,
    ) by {
        assert(column_message(column, table, columns)[0] == '`');
        lemma_other_message(column_message(column, table, columns), 0);
    }
    assert forall|name: Seq<char>, values: Seq<Seq<char>>, val: Seq<char>| !has_prefix(
        #[trigger] type_message(name, values, val),
        "Unknown characteristic/object `"@,
    ) by {
        assert(type_message(name, values, val)[0] == '`');
        lemma_other_message(type_message(name, values, val), 0);
    }
    assert forall|
        val: Seq<char>,
        actual: Seq<char>,
        description: Option<Seq<char>>,
        values: Seq<Seq<char>>,
    | !has_prefix(
        #[trigger] value_message(val, actual, description, values),
        "Unknown characteristic/object `"@,
    ) by {
        assert(value_message(val, actual, description, values)[0] == 'V');
        lemma_other_message(value_message(val, actual, description, values), 0);
    }
    assert forall|name: Seq<char>| !has_prefix(
        #[trigger] sign_message(name),
        "Unknown characteristic/object `"@,
    ) by {
        assert(sign_message(name)[0] == '`');
        lemma_other_message(sign_message(name), 0);
    }
}

/// The warning of an unknown reference starts as such, and tells its name.
proof fn lemma_reference_message(x: Seq<char>, y: Seq<char>, chars: nat, objects: nat)
    ensures
        has_prefix(reference_message(x, chars, objects), "Unknown characteristic/object `"@),
        reference_message(x, chars, objects) == reference_message(y, chars, objects) ==> x == y,
{
    let start = "Unknown characteristic/object `"@;
    let a = reference_message(x, chars, objects);
    let b = reference_message(y, chars, objects);
    assert(a.take(start.len() as int) =~= start);
    let rest = "` — not in material package (chars: "@.len() + decimal(chars).len()
        + ", objects: "@.len() + decimal(objects).len() + ")"@.len();
    assert(a.len() == start.len() + x.len() + rest);
    assert(b.len() == start.len() + y.len() + rest);
    if a == b {
        assert(a.subrange(start.len() as int, (start.len() + x.len()) as int) =~= x);
        assert(b.subrange(start.len() as int, (start.len() + y.len()) as int) =~= y);
    }
}

proof fn lemma_same_columns(
    a: ScopeView,
    b: ScopeView,
    table: Seq<char>,
    columns: Seq<Seq<char>>,
    args: Seq<SyntaxView>,
)
    requires
        a.text == b.text,
    ensures
        column_findings(b, table, columns, args) == column_findings(a, table, columns, args),
        are_others(column_findings(a, table, columns, args)),
    decreases args.len(),
{
    if args.len() > 0 {
        lemma_same_columns(a, b, table, columns, args.drop_last());
        lemma_other_messages();
    }
}

proof fn lemma_same_literals(
    a: ScopeView,
    b: ScopeView,
    target: TargetView,
    literals: Seq<SyntaxView>,
)
    requires
        a.text == b.text,
        a.negative == b.negative,
    ensures
        literals_findings(b, target, literals) == literals_findings(a, target, literals),
        are_others(literals_findings(a, target, literals)),
    decreases literals.len(),
{
    if literals.len() > 0 {
        lemma_same_literals(a, b, target, literals.drop_last());
        lemma_other_messages();
    }
}

proof fn lemma_same_parts(
    a: ScopeView,
    b: ScopeView,
    target: TargetView,
    parts: Seq<SyntaxView>,
)
    requires
        a.text == b.text,
        a.negative == b.negative,
    ensures
        parts_findings(b, target, parts) == parts_findings(a, target, parts),
        are_others(parts_findings(a, target, parts)),
    decreases parts.len(),
{
    if parts.len() > 0 {
        lemma_same_parts(a, b, target, parts.drop_last());
        lemma_same_literals(a, b, target, parts.last().children);
    }
}

proof fn lemma_same_assignment(a: ScopeView, b: ScopeView, name: Seq<char>, node: SyntaxView)
    requires
        scopes_differ(a, b, name),
    ensures
        assignment_findings(b, node) == assignment_findings(a, node),
        are_others(assignment_findings(a, node)),
{
    if node.children.len() > 0 {
        let rights = of_kind(node.children.skip(1), "expression"@);
        let target = assignment_target(a, node.children[0]);
        assert(assignment_target(b, node.children[0]) == target);
        if target is Some && rights.len() > 0 {
            lemma_same_parts(a, b, target->0, rights[0].children);
        }
    }
}

proof fn lemma_same_call(
    a: ScopeView,
    b: ScopeView,
    name: Seq<char>,
    node: SyntaxView,
    keyword: Seq<char>,
    callee: Seq<char>,
)
    requires
        scopes_differ(a, b, name),
    ensures
        call_findings(b, node, keyword, callee) == call_findings(a, node, keyword, callee),
        are_others(call_findings(a, node, keyword, callee)),
{
    lemma_other_messages();
    if node.children.len() >= 2 {
        let table = node_text(node.children[1], a.text);
        lemma_same_columns(a, b, table, views(a.mat.vt_chars@[table]@), node.children);
    }
}

proof fn lemma_known_own(
    a: ScopeView,
    b: ScopeView,
    name: Seq<char>,
    node: SyntaxView,
    parent: Option<Seq<char>>,
)
    requires
        scopes_differ(a, b, name),
    ensures
        is_rest(
            own_findings(a, node, parent),
            own_findings(b, node, parent),
            unknown_message(a.mat, name),
        ),
{
    let message = unknown_message(a.mat, name);
    let own = own_findings(a, node, parent);
    lemma_reference_message(name, name, a.mat.chars@.len(), a.mat.objects@.len());
    if node.kind == "keyword_call"@ {
        lemma_same_call(
            a,
            b,
            name,
            node,
            uppercase(child_text(a, node, 0)),
            uppercase(child_text(a, node, 1)),
        );
        lemma_others_stay(own, message);
    } else if node.kind == "object_decl"@ {
        lemma_other_messages();
        lemma_others_stay(own, message);
    } else if node.kind == "identifier"@ {
        let used = node_text(node, a.text);
        lemma_reference_message(used, name, a.mat.chars@.len(), a.mat.objects@.len());
        assert(is_unknown(b, used) <==> is_unknown(a, used) && used != name);
        if own.len() > 0 {
            assert(own.drop_last() =~= seq![]);
            assert(without(own.drop_last(), message) =~= seq![]);
            assert(own.last() == own[0]);
            if used == name {
                assert(without(own, message) =~= seq![]);
            } else {
                assert(without(own, message) =~= own);
            }
        }
        assert(grades(own_findings(b, node, parent)) =~= grades(without(own, message)));
    } else {
        lemma_same_assignment(a, b, name, node);
        lemma_others_stay(own, message);
    }
}

proof fn lemma_known_tree(
    a: ScopeView,
    b: ScopeView,
    name: Seq<char>,
    node: SyntaxView,
    parent: Option<Seq<char>>,
)
    requires
        scopes_differ(a, b, name),
    ensures
        is_rest(
            tree_findings(a, node, parent),
            tree_findings(b, node, parent),
            unknown_message(a.mat, name),
        ),
    decreases node,
{
    lemma_known_own(a, b, name, node, parent);
    lemma_known_trees(a, b, name, node.children, Some(node.kind));
    lemma_rest_add(
        own_findings(a, node, parent),
        own_findings(b, node, parent),
        trees_findings(a, node.children, Some(node.kind)),
        trees_findings(b, node.children, Some(node.kind)),
        unknown_message(a.mat, name),
    );
}

proof fn lemma_known_trees(
    a: ScopeView,
    b: ScopeView,
    name: Seq<char>,
    nodes: Seq<SyntaxView>,
    parent: Option<Seq<char>>,
)
    requires
        scopes_differ(a, b, name),
    ensures
        is_rest(
            trees_findings(a, nodes, parent),
            trees_findings(b, nodes, parent),
            unknown_message(a.mat, name),
        ),
    decreases nodes,
{
    let message = unknown_message(a.mat, name);
    if nodes.len() == 0 {
        assert(without(trees_findings(a, nodes, parent), message) =~= seq![]);
    } else {
        lemma_known_trees(a, b, name, nodes.drop_last(), parent);
        lemma_known_tree(a, b, name, nodes.last(), parent);
        lemma_rest_add(
            trees_findings(a, nodes.drop_last(), parent),
            trees_findings(b, nodes.drop_last(), parent),
            tree_findings(a, nodes.last(), parent),
            tree_findings(b, nodes.last(), parent),
            message,
        );
    }
}

} // verus!
