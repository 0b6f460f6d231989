//! Laws of the semantic findings: each finding has its cause in the document,
//! and each cause is found, from the findings on a document down to the names
//! and literals in it.

use vstd::prelude::*;

use crate::aliases::aliases_in;
use crate::diagnostic::{DiagnosticView, Severity};
use crate::material::{same_ignoring_case, CharValueInfo, MaterialIndex};
use crate::names::views;
use crate::position::byte_range;
use crate::render::{decimal, first, joined, uppercase};
use crate::semantic::{
    assignment_findings, assignment_target, call_findings, class_findings, column_finding,
    column_findings, literal_findings, literals_findings, own_findings, parts_findings,
    semantic_findings, tree_findings, trees_findings, ScopeView, TargetView,
};
use crate::syntax::{first_identifier, node_text, of_kind, SyntaxView};
use crate::text::{trim_both, CharClass};

verus! {

// ---- Causes -----------------------------------------------------------------

/// A finding on a node.
pub open spec fn on_node(
    text: Seq<char>,
    node: SyntaxView,
    severity: Severity,
    message: Seq<char>,
) -> DiagnosticView {
    DiagnosticView {
        range: byte_range(text, node.start_byte, node.end_byte),
        severity,
        message,
    }
}

/// Whether a node is a call with a keyword, which reads `keyword` in upper
/// case, and a callee.
pub open spec fn is_call(text: Seq<char>, x: SyntaxView, keyword: Seq<char>) -> bool {
    &&& x.kind == "keyword_call"@
    &&& x.children.len() >= 2 && x.children[1].kind == "identifier"@
    &&& uppercase(node_text(x.children[0], text)) == keyword
}

/// A call of a table that the material does not know.
pub open spec fn is_unknown_table(
    text: Seq<char>,
    mat: MaterialIndex,
    x: SyntaxView,
    d: DiagnosticView,
) -> bool {
    let name = node_text(x.children[1], text);
    &&& is_call(text, x, "TABLE"@)
    &&& mat.tables@.len() > 0 && !mat.tables@.contains(name)
    &&& d == on_node(
        text,
        x.children[1],
        Severity::Error,
        "Unknown variant table `"@ + name + "` (not in material package)"@,
    )
}

/// A named argument of a table, child number `i` of the call, that is none of
/// the columns of the table.
pub open spec fn is_unknown_column(
    text: Seq<char>,
    mat: MaterialIndex,
    x: SyntaxView,
    i: int,
    d: DiagnosticView,
) -> bool {
    let table = node_text(x.children[1], text);
    let columns = views(mat.vt_chars@[table]@);
    let id = first_identifier(x.children[i])->0;
    let column = node_text(id, text);
    &&& is_call(text, x, "TABLE"@)
    &&& mat.vt_chars@.contains_key(table)
    &&& 0 <= i < x.children.len() && x.children[i].kind == "named_argument"@
    &&& first_identifier(x.children[i]) is Some
    &&& !columns.contains(column)
    &&& d == on_node(
        text,
        id,
        Severity::Warning,
        "`"@ + column + "` is not a column of "@ + table + " (columns: "@ + joined(columns, ", "@)
            + ")"@,
    )
}

/// A call of a function that the material does not know.
pub open spec fn is_unknown_function(
    text: Seq<char>,
    mat: MaterialIndex,
    x: SyntaxView,
    d: DiagnosticView,
) -> bool {
    let name = uppercase(node_text(x.children[1], text));
    &&& is_call(text, x, "FUNCTION"@)
    &&& mat.variant_functions@.len() > 0 && !mat.variant_functions@.contains(name)
    &&& d == on_node(
        text,
        x.children[1],
        Severity::Warning,
        "Unknown variant function `"@ + name + "` — known: "@ + joined(
            mat.variant_functions@,
            ", "@,
        ),
    )
}

/// Whether child number `j` is the second identifier among the children.
pub open spec fn is_second(children: Seq<SyntaxView>, i: int, j: int) -> bool {
    &&& 0 <= i < j < children.len()
    &&& children[i].kind == "identifier"@ && children[j].kind == "identifier"@
    &&& forall|k: int|
        0 <= k < j && k != i ==> (#[trigger] children[k]).kind != "identifier"@
}

/// A declaration with a class that the material does not know.
pub open spec fn is_unknown_class(
    text: Seq<char>,
    mat: MaterialIndex,
    x: SyntaxView,
    i: int,
    j: int,
    d: DiagnosticView,
) -> bool {
    let name = node_text(x.children[j], text);
    &&& x.kind == "object_decl"@
    &&& is_second(x.children, i, j)
    &&& mat.classes@.len() > 0 && !mat.classes@.contains(name)
    &&& d == on_node(
        text,
        x.children[j],
        Severity::Warning,
        "Unknown class `"@ + name + "` — not in material class universe ("@ + decimal(
            mat.classes@.len(),
        ) + " classes known)"@,
    )
}

/// A reference to a name that is no builtin, no alias, no characteristic and no
/// object.
pub open spec fn is_unknown_reference(
    text: Seq<char>,
    mat: MaterialIndex,
    x: SyntaxView,
    parent: Option<Seq<char>>,
    d: DiagnosticView,
) -> bool {
    let name = node_text(x, text);
    &&& x.kind == "identifier"@
    &&& parent == Some("bare_ref"@) || parent == Some("object_ref"@)
    &&& name.len() == 0 || name[0] != '$'
    &&& !aliases_in(text).contains_key(name)
    &&& !mat.chars@.contains(name) && !mat.objects@.contains(name)
    &&& d == on_node(
        text,
        x,
        Severity::Warning,
        "Unknown characteristic/object `"@ + name + "` — not in material package (chars: "@
            + decimal(mat.chars@.len()) + ", objects: "@ + decimal(mat.objects@.len()) + ")"@,
    )
}

/// The characteristic that a written name stands for.
pub open spec fn stands_for(text: Seq<char>, name: Seq<char>) -> Seq<char> {
    if aliases_in(text).contains_key(name) {
        aliases_in(text)[name]
    } else {
        name
    }
}

/// The value that a string literal has: what stands between its quotes.
pub open spec fn literal_value(text: Seq<char>, literal: SyntaxView) -> Seq<char> {
    trim_both(node_text(literal, text), CharClass::Only('\''))
}

/// A string where a number is due.
pub open spec fn is_wrong_type(
    text: Seq<char>,
    info: CharValueInfo,
    name: Seq<char>,
    literal: SyntaxView,
    d: DiagnosticView,
) -> bool {
    let sample = if info.values@.len() > 0 {
        info.values@[0]@
    } else {
        "?"@
    };
    &&& literal.kind == "string"@ && info.numeric
    &&& d == on_node(
        text,
        literal,
        Severity::Warning,
        "`"@ + name + "` is a numeric characteristic (values: "@ + sample
            + "), string literal `"@ + literal_value(text, literal) + "` looks wrong"@,
    )
}

/// A string that is none of the known values, the case of ASCII letters aside.
pub open spec fn is_wrong_value(
    text: Seq<char>,
    info: CharValueInfo,
    actual: Seq<char>,
    literal: SyntaxView,
    d: DiagnosticView,
) -> bool {
    let val = literal_value(text, literal);
    let remark = match info.description {
        Some(s) => " ("@ + s@ + ")"@,
        None => Seq::<char>::empty(),
    };
    &&& literal.kind == "string"@ && !info.numeric
    &&& info.values@.len() > 0
    &&& forall|i: int|
        0 <= i < info.values@.len() ==> !same_ignoring_case((#[trigger] info.values@[i])@, val)
    &&& d == on_node(
        text,
        literal,
        Severity::Warning,
        "Value `"@ + val + "` not in `"@ + actual + "` value range"@ + remark + " ("@ + decimal(
            info.values@.len(),
        ) + " values known, e.g. "@ + joined(first(views(info.values@), 5), ", "@) + ")"@,
    )
}

/// A negative number where none is taken.
pub open spec fn is_wrong_sign(
    text: Seq<char>,
    info: CharValueInfo,
    negative: Seq<Seq<char>>,
    name: Seq<char>,
    literal: SyntaxView,
    d: DiagnosticView,
) -> bool {
    &&& literal.kind == "number"@
    &&& negative.contains(node_text(literal, text)) && !info.with_sign
    &&& d == on_node(
        text,
        literal,
        Severity::Warning,
        "`"@ + name + "` does not accept negative values (WITH_SIGN not set)"@,
    )
}

/// Whether a literal does not fit what is known of a characteristic.
pub open spec fn is_wrong_literal(
    text: Seq<char>,
    info: CharValueInfo,
    negative: Seq<Seq<char>>,
    name: Seq<char>,
    actual: Seq<char>,
    literal: SyntaxView,
    d: DiagnosticView,
) -> bool {
    ||| is_wrong_type(text, info, name, literal, d)
    ||| is_wrong_value(text, info, actual, literal, d)
    ||| is_wrong_sign(text, info, negative, name, literal, d)
}

/// Whether child number `e` is the first expression behind the first child.
pub open spec fn is_right_side(children: Seq<SyntaxView>, e: int) -> bool {
    &&& 1 <= e < children.len() && children[e].kind == "expression"@
    &&& forall|k: int| 1 <= k < e ==> (#[trigger] children[k]).kind != "expression"@
}

/// Whether literal `q` of value `p` of the right side `e` of an assignment does
/// not fit.
pub open spec fn is_misfit(
    text: Seq<char>,
    mat: MaterialIndex,
    negative: Seq<Seq<char>>,
    x: SyntaxView,
    e: int,
    p: int,
    q: int,
    d: DiagnosticView,
) -> bool {
    let id = first_identifier(x.children[0])->0;
    let name = node_text(id, text);
    let actual = stands_for(text, name);
    let value = x.children[e].children[p];
    &&& is_right_side(x.children, e)
    &&& first_identifier(x.children[0]) is Some
    &&& mat.char_values@.contains_key(actual)
    &&& 0 <= p < x.children[e].children.len() && value.kind == "value"@
    &&& 0 <= q < value.children.len()
    &&& is_wrong_literal(
        text,
        mat.char_values@[actual],
        negative,
        name,
        actual,
        value.children[q],
        d,
    )
}

/// Whether a node is an assignment that has a literal that does not fit.
pub open spec fn has_misfit(
    text: Seq<char>,
    mat: MaterialIndex,
    negative: Seq<Seq<char>>,
    x: SyntaxView,
    d: DiagnosticView,
) -> bool {
    &&& x.kind == "assignment"@ || x.kind == "conditional_assignment"@ || x.kind
        == "restriction_statement"@
    &&& exists|e: int, p: int, q: int| is_misfit(text, mat, negative, x, e, p, q, d)
}

/// Whether a node below one of kind `parent` is the cause of a finding.
pub open spec fn is_cause(
    text: Seq<char>,
    mat: MaterialIndex,
    negative: Seq<Seq<char>>,
    x: SyntaxView,
    parent: Option<Seq<char>>,
    d: DiagnosticView,
) -> bool {
    ||| is_unknown_table(text, mat, x, d)
    ||| exists|i: int| is_unknown_column(text, mat, x, i, d)
    ||| is_unknown_function(text, mat, x, d)
    ||| exists|i: int, j: int| is_unknown_class(text, mat, x, i, j, d)
    ||| is_unknown_reference(text, mat, x, parent, d)
    ||| has_misfit(text, mat, negative, x, d)
}

/// Whether a node belongs to a tree, right below a node of kind `parent`; what
/// is above the tree is of kind `above`.
pub open spec fn is_node_of(
    x: SyntaxView,
    parent: Option<Seq<char>>,
    tree: SyntaxView,
    above: Option<Seq<char>>,
) -> bool
    decreases tree,
{
    (x == tree && parent == above) || exists|i: int|
        0 <= i < tree.children.len() && is_node_of(
            x,
            parent,
            #[trigger] tree.children[i],
            Some(tree.kind),
        )
}

// ---- Lists ------------------------------------------------------------------

proof fn lemma_either(a: Seq<DiagnosticView>, b: Seq<DiagnosticView>, d: DiagnosticView)
    ensures
        (a + b).contains(d) <==> a.contains(d) || b.contains(d),
{
    if a.contains(d) {
        let k = choose|k: int| 0 <= k < a.len() && a[k] == d;
        assert((a + b)[k] == d);
    }
    if b.contains(d) {
        let k = choose|k: int| 0 <= k < b.len() && b[k] == d;
        assert((a + b)[a.len() + k] == d);
    }
}

proof fn lemma_one(found: bool, x: DiagnosticView, d: DiagnosticView)
    ensures
        (if found {
            seq![x]
        } else {
            Seq::<DiagnosticView>::empty()
        }).contains(d) <==> found && d == x,
{
    assert(seq![x][0] == x);
}

/// The nodes of one kind keep their order: a node is number `n` of them if `n`
/// of that kind come before it.
proof fn lemma_of_kind_push(nodes: Seq<SyntaxView>, kind: Seq<char>)
    requires
        nodes.len() > 0,
    ensures
        of_kind(nodes, kind) == of_kind(nodes.drop_last(), kind) + if nodes.last().kind == kind {
            seq![nodes.last()]
        } else {
            seq![]
        },
    decreases nodes.len(),
{
    let one: Seq<SyntaxView> = if nodes.last().kind == kind {
        seq![nodes.last()]
    } else {
        seq![]
    };
    let init = nodes.drop_last();
    if init.len() == 0 {
        assert(nodes.skip(1) =~= seq![]);
        assert(of_kind(nodes.skip(1), kind) =~= seq![]);
        assert(of_kind(init, kind) =~= seq![]);
        assert(of_kind(nodes, kind) =~= of_kind(init, kind) + one);
    } else {
        let rest = nodes.skip(1);
        lemma_of_kind_push(rest, kind);
        assert(rest.drop_last() =~= init.skip(1));
        assert(rest.last() == nodes.last());
        assert(init[0] == nodes[0]);
        assert(of_kind(nodes, kind) =~= of_kind(init, kind) + one);
    }
}

/// The nodes of one kind in a list are those in its parts.
pub proof fn law_of_kind(a: Seq<SyntaxView>, b: Seq<SyntaxView>, kind: Seq<char>)
    ensures
        of_kind(a + b, kind) == of_kind(a, kind) + of_kind(b, kind),
    decreases b.len(),
{
    if b.len() == 0 {
        assert(a + b =~= a);
        assert(of_kind(a, kind) + of_kind(b, kind) =~= of_kind(a, kind));
    } else {
        law_of_kind(a, b.drop_last(), kind);
        assert((a + b).drop_last() =~= a + b.drop_last());
        assert((a + b).last() == b.last());
        lemma_of_kind_push(a + b, kind);
        lemma_of_kind_push(b, kind);
        assert(of_kind(a + b, kind) =~= of_kind(a, kind) + of_kind(b, kind));
    }
}

/// A node alone is the list of its kind.
pub proof fn law_of_kind_single(node: SyntaxView, kind: Seq<char>)
    ensures
        of_kind(seq![node], kind) == if node.kind == kind {
            seq![node]
        } else {
            Seq::<SyntaxView>::empty()
        },
{
    let nodes = seq![node];
    assert(nodes.drop_last() =~= seq![]);
    assert(of_kind(nodes.drop_last(), kind) =~= seq![]);
    lemma_of_kind_push(nodes, kind);
    assert(of_kind(nodes, kind) =~= if node.kind == kind {
        seq![node]
    } else {
        Seq::<SyntaxView>::empty()
    });
}

/// None of a kind where no node is of it.
proof fn lemma_none_of_kind(nodes: Seq<SyntaxView>, kind: Seq<char>)
    ensures
        of_kind(nodes, kind).len() == 0 <==> forall|i: int|
            0 <= i < nodes.len() ==> (#[trigger] nodes[i]).kind != kind,
    decreases nodes.len(),
{
    if nodes.len() > 0 {
        let init = nodes.drop_last();
        lemma_none_of_kind(init, kind);
        lemma_of_kind_push(nodes, kind);
        if of_kind(nodes, kind).len() == 0 {
            assert forall|i: int| 0 <= i < nodes.len() implies (#[trigger] nodes[i]).kind != kind by {
                if i < init.len() {
                    assert(init[i] == nodes[i]);
                }
            }
        }
        if forall|i: int| 0 <= i < nodes.len() ==> (#[trigger] nodes[i]).kind != kind {
            assert forall|i: int| 0 <= i < init.len() implies (#[trigger] init[i]).kind != kind by {
                assert(init[i] == nodes[i]);
            }
            assert(nodes[nodes.len() - 1] == nodes.last());
        }
    }
}

/// The first of a kind: the one with none before it.
proof fn lemma_first_of_kind(nodes: Seq<SyntaxView>, kind: Seq<char>, e: int)
    requires
        0 <= e < nodes.len(),
        nodes[e].kind == kind,
        forall|k: int| 0 <= k < e ==> (#[trigger] nodes[k]).kind != kind,
    ensures
        of_kind(nodes, kind).len() > 0,
        of_kind(nodes, kind)[0] == nodes[e],
{
    let a = nodes.take(e);
    let b = nodes.skip(e);
    assert(a + b =~= nodes);
    law_of_kind(a, b, kind);
    assert forall|i: int| 0 <= i < a.len() implies (#[trigger] a[i]).kind != kind by {
        assert(a[i] == nodes[i]);
    }
    lemma_none_of_kind(a, kind);
    assert(b[0] == nodes[e]);
}

/// There is a first of a kind where there is any.
proof fn lemma_has_first(nodes: Seq<SyntaxView>, kind: Seq<char>) -> (e: int)
    requires
        of_kind(nodes, kind).len() > 0,
    ensures
        0 <= e < nodes.len(),
        nodes[e].kind == kind,
        forall|k: int| 0 <= k < e ==> (#[trigger] nodes[k]).kind != kind,
        of_kind(nodes, kind)[0] == nodes[e],
    decreases nodes.len(),
{
    if nodes[0].kind == kind {
        lemma_first_of_kind(nodes, kind, 0);
        0
    } else {
        let rest = nodes.skip(1);
        let e = lemma_has_first(rest, kind);
        assert(rest[e] == nodes[e + 1]);
        assert forall|k: int| 0 <= k < e + 1 implies (#[trigger] nodes[k]).kind != kind by {
            if k > 0 {
                assert(rest[k - 1] == nodes[k]);
            }
        }
        e + 1
    }
}

// ---- Calls ------------------------------------------------------------------

proof fn lemma_columns(
    scope: ScopeView,
    table: Seq<char>,
    columns: Seq<Seq<char>>,
    args: Seq<SyntaxView>,
    d: DiagnosticView,
)
    ensures
        column_findings(scope, table, columns, args).contains(d) <==> exists|i: int|
            0 <= i < args.len() && column_finding(
                scope,
                table,
                columns,
                #[trigger] args[i],
            ).contains(d),
    decreases args.len(),
{
    if args.len() > 0 {
        let init = args.drop_last();
        lemma_columns(scope, table, columns, init, d);
        lemma_either(
            column_findings(scope, table, columns, init),
            column_finding(scope, table, columns, args.last()),
            d,
        );
        if exists|i: int|
            0 <= i < init.len() && column_finding(
                scope,
                table,
                columns,
                #[trigger] init[i],
            ).contains(d) {
            let i = choose|i: int|
                0 <= i < init.len() && column_finding(
                    scope,
                    table,
                    columns,
                    #[trigger] init[i],
                ).contains(d);
            assert(args[i] == init[i]);
        }
        if exists|i: int|
            0 <= i < args.len() && column_finding(
                scope,
                table,
                columns,
                #[trigger] args[i],
            ).contains(d) {
            let i = choose|i: int|
                0 <= i < args.len() && column_finding(
                    scope,
                    table,
                    columns,
                    #[trigger] args[i],
                ).contains(d);
            if i < init.len() {
                assert(init[i] == args[i]);
            }
        }
        assert(args[args.len() - 1] == args.last());
    }
}

proof fn lemma_call(
    text: Seq<char>,
    mat: MaterialIndex,
    negative: Seq<Seq<char>>,
    x: SyntaxView,
    d: DiagnosticView,
)
    requires
        x.kind == "keyword_call"@,
    ensures
        ({
            let scope = ScopeView { text, mat, aliases: aliases_in(text), negative };
            own_findings(scope, x, None).contains(d) <==> {
                ||| is_unknown_table(text, mat, x, d)
                ||| exists|i: int| is_unknown_column(text, mat, x, i, d)
                ||| is_unknown_function(text, mat, x, d)
            }
        }),
{
    let scope = ScopeView { text, mat, aliases: aliases_in(text), negative };
    reveal_strlit("TABLE");
    reveal_strlit("FUNCTION");
    assert("TABLE"@.len() != "FUNCTION"@.len());
    if x.children.len() >= 2 && x.children[1].kind == "identifier"@ {
        let callee = x.children[1];
        let name = node_text(callee, text);
        let keyword = uppercase(node_text(x.children[0], text));
        let upper = uppercase(name);
        let columns = views(mat.vt_chars@[name]@);
        let own = call_findings(scope, x, keyword, upper);
        assert(own_findings(scope, x, None) == own);
        if keyword == "TABLE"@ {
            let unknown = on_node(
                text,
                callee,
                Severity::Error,
                "Unknown variant table `"@ + name + "` (not in material package)"@,
            );
            let found = mat.tables@.len() > 0 && !mat.tables@.contains(name);
            let a: Seq<DiagnosticView> = if found {
                seq![unknown]
            } else {
                seq![]
            };
            let b: Seq<DiagnosticView> = if mat.vt_chars@.contains_key(name) {
                column_findings(scope, name, columns, x.children)
            } else {
                seq![]
            };
            assert(own == a + b);
            lemma_one(found, unknown, d);
            lemma_either(a, b, d);
            if mat.vt_chars@.contains_key(name) {
                lemma_columns(scope, name, columns, x.children, d);
                assert forall|i: int|
                    0 <= i < x.children.len() implies (column_finding(
                    scope,
                    name,
                    columns,
                    #[trigger] x.children[i],
                ).contains(d) <==> is_unknown_column(text, mat, x, i, d)) by {
                    lemma_column(text, mat, negative, x, i, d);
                }
                if b.contains(d) {
                    let i = choose|i: int|
                        0 <= i < x.children.len() && column_finding(
                            scope,
                            name,
                            columns,
                            #[trigger] x.children[i],
                        ).contains(d);
                    assert(is_unknown_column(text, mat, x, i, d));
                }
                if exists|i: int| is_unknown_column(text, mat, x, i, d) {
                    let i = choose|i: int| is_unknown_column(text, mat, x, i, d);
                    assert(column_finding(scope, name, columns, x.children[i]).contains(d));
                }
            }
        } else if keyword == "FUNCTION"@ {
            let unknown = on_node(
                text,
                callee,
                Severity::Warning,
                "Unknown variant function `"@ + upper + "` — known: "@ + joined(
                    mat.variant_functions@,
                    ", "@,
                ),
            );
            lemma_one(
                mat.variant_functions@.len() > 0 && !mat.variant_functions@.contains(upper),
                unknown,
                d,
            );
        }
    }
}

proof fn lemma_column(
    text: Seq<char>,
    mat: MaterialIndex,
    negative: Seq<Seq<char>>,
    x: SyntaxView,
    i: int,
    d: DiagnosticView,
)
    requires
        is_call(text, x, "TABLE"@),
        mat.vt_chars@.contains_key(node_text(x.children[1], text)),
        0 <= i < x.children.len(),
    ensures
        ({
            let scope = ScopeView { text, mat, aliases: aliases_in(text), negative };
            let table = node_text(x.children[1], text);
            column_finding(
                scope,
                table,
                views(mat.vt_chars@[table]@),
                x.children[i],
            ).contains(d) <==> is_unknown_column(text, mat, x, i, d)
        }),
{
    let table = node_text(x.children[1], text);
    let columns = views(mat.vt_chars@[table]@);
    let arg = x.children[i];
    if arg.kind == "named_argument"@ && first_identifier(arg) is Some {
        let id = first_identifier(arg)->0;
        let column = node_text(id, text);
        lemma_one(
            !columns.contains(column),
            on_node(
                text,
                id,
                Severity::Warning,
                "`"@ + column + "` is not a column of "@ + table + " (columns: "@ + joined(
                    columns,
                    ", "@,
                ) + ")"@,
            ),
            d,
        );
    }
}

// ---- Declarations and references --------------------------------------------

/// The second identifier among the children, by its place.
pub proof fn lemma_second(children: Seq<SyntaxView>, i: int, j: int)
    requires
        is_second(children, i, j),
    ensures
        of_kind(children, "identifier"@).len() > 1,
        of_kind(children, "identifier"@)[1] == children[j],
{
    let kind = "identifier"@;
    let a = children.take(i + 1);
    let b = children.skip(i + 1);
    assert(a + b =~= children);
    law_of_kind(a, b, kind);
    lemma_of_kind_push(a, kind);
    assert(a.last() == children[i]);
    let before = a.drop_last();
    assert forall|k: int| 0 <= k < before.len() implies (#[trigger] before[k]).kind != kind by {
        assert(before[k] == children[k]);
    }
    lemma_none_of_kind(before, kind);
    assert(of_kind(a, kind) =~= seq![children[i]]);
    assert forall|k: int| 0 <= k < j - i - 1 implies (#[trigger] b[k]).kind != kind by {
        assert(b[k] == children[k + i + 1]);
    }
    assert(b[j - i - 1] == children[j]);
    lemma_first_of_kind(b, kind, j - i - 1);
}

/// Where there are two identifiers among the children, there is a second one.
pub proof fn lemma_has_second(children: Seq<SyntaxView>)
    requires
        of_kind(children, "identifier"@).len() > 1,
    ensures
        exists|i: int, j: int| is_second(children, i, j),
{
    let kind = "identifier"@;
    let i = lemma_has_first(children, kind);
    let a = children.take(i + 1);
    let b = children.skip(i + 1);
    assert(a + b =~= children);
    law_of_kind(a, b, kind);
    lemma_of_kind_push(a, kind);
    assert(a.last() == children[i]);
    let before = a.drop_last();
    assert forall|k: int| 0 <= k < before.len() implies (#[trigger] before[k]).kind != kind by {
        assert(before[k] == children[k]);
    }
    lemma_none_of_kind(before, kind);
    assert(of_kind(a, kind) =~= seq![children[i]]);
    let e = lemma_has_first(b, kind);
    let j = e + i + 1;
    assert(b[e] == children[j]);
    assert forall|k: int| 0 <= k < j && k != i implies (#[trigger] children[k]).kind != kind by {
        if k > i {
            assert(b[k - i - 1] == children[k]);
        }
    }
    assert(is_second(children, i, j));
}

proof fn lemma_class(
    text: Seq<char>,
    mat: MaterialIndex,
    negative: Seq<Seq<char>>,
    x: SyntaxView,
    d: DiagnosticView,
)
    requires
        x.kind == "object_decl"@,
    ensures
        ({
            let scope = ScopeView { text, mat, aliases: aliases_in(text), negative };
            class_findings(scope, x).contains(d) <==> exists|i: int, j: int|
                is_unknown_class(text, mat, x, i, j, d)
        }),
{
    let scope = ScopeView { text, mat, aliases: aliases_in(text), negative };
    let ids = of_kind(x.children, "identifier"@);
    if ids.len() > 1 {
        let name = node_text(ids[1], text);
        lemma_one(
            mat.classes@.len() > 0 && !mat.classes@.contains(name),
            on_node(
                text,
                ids[1],
                Severity::Warning,
                "Unknown class `"@ + name + "` — not in material class universe ("@ + decimal(
                    mat.classes@.len(),
                ) + " classes known)"@,
            ),
            d,
        );
        lemma_has_second(x.children);
        let (i, j) = choose|i: int, j: int| is_second(x.children, i, j);
        lemma_second(x.children, i, j);
        if class_findings(scope, x).contains(d) {
            assert(is_unknown_class(text, mat, x, i, j, d));
        }
    }
    if exists|i: int, j: int| is_unknown_class(text, mat, x, i, j, d) {
        let (i, j) = choose|i: int, j: int| is_unknown_class(text, mat, x, i, j, d);
        lemma_second(x.children, i, j);
    }
}

proof fn lemma_reference(
    text: Seq<char>,
    mat: MaterialIndex,
    negative: Seq<Seq<char>>,
    x: SyntaxView,
    parent: Option<Seq<char>>,
    d: DiagnosticView,
)
    requires
        x.kind == "identifier"@,
    ensures
        ({
            let scope = ScopeView { text, mat, aliases: aliases_in(text), negative };
            own_findings(scope, x, parent).contains(d) <==> is_unknown_reference(
                text,
                mat,
                x,
                parent,
                d,
            )
        }),
{
    lemma_kinds_of_nodes();
    let name = node_text(x, text);
    lemma_one(
        (name.len() == 0 || name[0] != '$') && !aliases_in(text).contains_key(name)
            && !mat.chars@.contains(name) && !mat.objects@.contains(name),
        on_node(
            text,
            x,
            Severity::Warning,
            "Unknown characteristic/object `"@ + name + "` — not in material package (chars: "@
                + decimal(mat.chars@.len()) + ", objects: "@ + decimal(mat.objects@.len()) + ")"@,
        ),
        d,
    );
}

proof fn lemma_kinds_of_nodes()
    ensures
        "identifier"@ != "keyword_call"@,
        "identifier"@ != "object_decl"@,
        "object_decl"@ != "keyword_call"@,
        "assignment"@ != "keyword_call"@,
        "assignment"@ != "object_decl"@,
        "assignment"@ != "identifier"@,
        "conditional_assignment"@ != "keyword_call"@,
        "conditional_assignment"@ != "object_decl"@,
        "conditional_assignment"@ != "identifier"@,
        "restriction_statement"@ != "keyword_call"@,
        "restriction_statement"@ != "object_decl"@,
        "restriction_statement"@ != "identifier"@,
        "string"@ != "number"@,
{
    reveal_strlit("identifier");
    reveal_strlit("keyword_call");
    reveal_strlit("object_decl");
    reveal_strlit("assignment");
    reveal_strlit("conditional_assignment");
    reveal_strlit("restriction_statement");
    reveal_strlit("string");
    reveal_strlit("number");
    assert("identifier"@[0] == 'i' && "keyword_call"@[0] == 'k' && "object_decl"@[0] == 'o'
        && "assignment"@[0] == 'a' && "conditional_assignment"@[0] == 'c'
        && "restriction_statement"@[0] == 'r' && "string"@[0] == 's' && "number"@[0] == 'n');
}

// ---- Assigned values --------------------------------------------------------

proof fn lemma_literal(
    text: Seq<char>,
    mat: MaterialIndex,
    negative: Seq<Seq<char>>,
    target: TargetView,
    literal: SyntaxView,
    d: DiagnosticView,
)
    ensures
        ({
            let scope = ScopeView { text, mat, aliases: aliases_in(text), negative };
            literal_findings(scope, target, literal).contains(d) <==> is_wrong_literal(
                text,
                target.info,
                negative,
                target.name,
                target.actual,
                literal,
                d,
            )
        }),
{
    lemma_kinds_of_nodes();
    let scope = ScopeView { text, mat, aliases: aliases_in(text), negative };
    let info = target.info;
    let values = views(info.values@);
    let val = literal_value(text, literal);
    let found = literal_findings(scope, target, literal);
    assert(values.len() == info.values@.len());
    if literal.kind == "string"@ {
        if info.numeric {
            if values.len() > 0 {
                assert(values[0] == info.values@[0]@);
            }
            let sample = if info.values@.len() > 0 {
                info.values@[0]@
            } else {
                "?"@
            };
            lemma_one(
                true,
                on_node(
                    text,
                    literal,
                    Severity::Warning,
                    "`"@ + target.name + "` is a numeric characteristic (values: "@ + sample
                        + "), string literal `"@ + val + "` looks wrong"@,
                ),
                d,
            );
        } else {
            let remark = match info.description {
                Some(s) => " ("@ + s@ + ")"@,
                None => Seq::<char>::empty(),
            };
            let unheld = forall|i: int|
                0 <= i < info.values@.len() ==> !same_ignoring_case(
                    (#[trigger] info.values@[i])@,
                    val,
                );
            assert(unheld <==> !crate::material::holds_value(values, val)) by {
                if unheld {
                    assert forall|i: int| 0 <= i < values.len() implies !same_ignoring_case(
                        #[trigger] values[i],
                        val,
                    ) by {
                        assert(values[i] == info.values@[i]@);
                    }
                }
                if !crate::material::holds_value(values, val) {
                    assert forall|i: int| 0 <= i < info.values@.len() implies !same_ignoring_case(
                        (#[trigger] info.values@[i])@,
                        val,
                    ) by {
                        assert(values[i] == info.values@[i]@);
                    }
                }
            }
            lemma_one(
                values.len() > 0 && unheld,
                on_node(
                    text,
                    literal,
                    Severity::Warning,
                    "Value `"@ + val + "` not in `"@ + target.actual + "` value range"@ + remark
                        + " ("@ + decimal(values.len()) + " values known, e.g. "@ + joined(
                        first(values, 5),
                        ", "@,
                    ) + ")"@,
                ),
                d,
            );
        }
    } else if literal.kind == "number"@ {
        lemma_one(
            negative.contains(node_text(literal, text)) && !info.with_sign,
            on_node(
                text,
                literal,
                Severity::Warning,
                "`"@ + target.name + "` does not accept negative values (WITH_SIGN not set)"@,
            ),
            d,
        );
    }
}

proof fn lemma_literals(
    scope: ScopeView,
    target: TargetView,
    literals: Seq<SyntaxView>,
    d: DiagnosticView,
)
    ensures
        literals_findings(scope, target, literals).contains(d) <==> exists|q: int|
            0 <= q < literals.len() && literal_findings(
                scope,
                target,
                #[trigger] literals[q],
            ).contains(d),
    decreases literals.len(),
{
    if literals.len() > 0 {
        let init = literals.drop_last();
        lemma_literals(scope, target, init, d);
        lemma_either(
            literals_findings(scope, target, init),
            literal_findings(scope, target, literals.last()),
            d,
        );
        if exists|q: int|
            0 <= q < init.len() && literal_findings(scope, target, #[trigger] init[q]).contains(d) {
            let q = choose|q: int|
                0 <= q < init.len() && literal_findings(
                    scope,
                    target,
                    #[trigger] init[q],
                ).contains(d);
            assert(literals[q] == init[q]);
        }
        if exists|q: int|
            0 <= q < literals.len() && literal_findings(
                scope,
                target,
                #[trigger] literals[q],
            ).contains(d) {
            let q = choose|q: int|
                0 <= q < literals.len() && literal_findings(
                    scope,
                    target,
                    #[trigger] literals[q],
                ).contains(d);
            if q < init.len() {
                assert(init[q] == literals[q]);
            }
        }
        assert(literals[literals.len() - 1] == literals.last());
    }
}

/// Whether part `p` of an expression is a value with a finding on a literal.
spec fn has_part(
    scope: ScopeView,
    target: TargetView,
    parts: Seq<SyntaxView>,
    p: int,
    d: DiagnosticView,
) -> bool {
    0 <= p < parts.len() && parts[p].kind == "value"@ && literals_findings(
        scope,
        target,
        parts[p].children,
    ).contains(d)
}

proof fn lemma_parts(
    scope: ScopeView,
    target: TargetView,
    parts: Seq<SyntaxView>,
    d: DiagnosticView,
)
    ensures
        parts_findings(scope, target, parts).contains(d) <==> exists|p: int|
            has_part(scope, target, parts, p, d),
    decreases parts.len(),
{
    if parts.len() > 0 {
        let init = parts.drop_last();
        lemma_parts(scope, target, init, d);
        let end: Seq<DiagnosticView> = if parts.last().kind == "value"@ {
            literals_findings(scope, target, parts.last().children)
        } else {
            seq![]
        };
        lemma_either(parts_findings(scope, target, init), end, d);
        if exists|p: int| has_part(scope, target, init, p, d) {
            let p = choose|p: int| has_part(scope, target, init, p, d);
            assert(parts[p] == init[p]);
            assert(has_part(scope, target, parts, p, d));
        }
        if exists|p: int| has_part(scope, target, parts, p, d) {
            let p = choose|p: int| has_part(scope, target, parts, p, d);
            if p < init.len() {
                assert(init[p] == parts[p]);
                assert(has_part(scope, target, init, p, d));
            }
        }
        if end.contains(d) {
            assert(has_part(scope, target, parts, parts.len() - 1, d));
        }
    }
}

proof fn lemma_assignment(
    text: Seq<char>,
    mat: MaterialIndex,
    negative: Seq<Seq<char>>,
    x: SyntaxView,
    d: DiagnosticView,
)
    ensures
        ({
            let scope = ScopeView { text, mat, aliases: aliases_in(text), negative };
            assignment_findings(scope, x).contains(d) <==> exists|e: int, p: int, q: int|
                is_misfit(text, mat, negative, x, e, p, q, d)
        }),
{
    let scope = ScopeView { text, mat, aliases: aliases_in(text), negative };
    if x.children.len() > 0 {
        let rest = x.children.skip(1);
        let rights = of_kind(rest, "expression"@);
        let target = assignment_target(scope, x.children[0]);
        if target is Some && rights.len() > 0 {
            let t = target->0;
            let r = lemma_has_first(rest, "expression"@);
            let e = r + 1;
            assert(rest[r] == x.children[e]);
            assert forall|k: int| 1 <= k < e implies (#[trigger] x.children[k]).kind
                != "expression"@ by {
                assert(rest[k - 1] == x.children[k]);
            }
            assert(is_right_side(x.children, e));
            let parts = x.children[e].children;
            lemma_parts(scope, t, parts, d);
            if assignment_findings(scope, x).contains(d) {
                let p = choose|p: int| has_part(scope, t, parts, p, d);
                lemma_literals(scope, t, parts[p].children, d);
                let q = choose|q: int|
                    0 <= q < parts[p].children.len() && literal_findings(
                        scope,
                        t,
                        #[trigger] parts[p].children[q],
                    ).contains(d);
                lemma_literal(text, mat, negative, t, parts[p].children[q], d);
                assert(is_misfit(text, mat, negative, x, e, p, q, d));
            }
        }
    }
    if exists|e: int, p: int, q: int| is_misfit(text, mat, negative, x, e, p, q, d) {
        let (e, p, q) = choose|e: int, p: int, q: int|
            is_misfit(text, mat, negative, x, e, p, q, d);
        let rest = x.children.skip(1);
        assert(rest[e - 1] == x.children[e]);
        assert forall|k: int| 0 <= k < e - 1 implies (#[trigger] rest[k]).kind != "expression"@ by {
            assert(rest[k] == x.children[k + 1]);
        }
        lemma_first_of_kind(rest, "expression"@, e - 1);
        let t = assignment_target(scope, x.children[0])->0;
        let parts = x.children[e].children;
        let literal = parts[p].children[q];
        lemma_literal(text, mat, negative, t, literal, d);
        lemma_literals(scope, t, parts[p].children, d);
        assert(literal_findings(scope, t, parts[p].children[q]).contains(d));
        assert(has_part(scope, t, parts, p, d));
        lemma_parts(scope, t, parts, d);
    }
}

// ---- Nodes and documents ----------------------------------------------------

proof fn lemma_own(
    text: Seq<char>,
    mat: MaterialIndex,
    negative: Seq<Seq<char>>,
    x: SyntaxView,
    parent: Option<Seq<char>>,
    d: DiagnosticView,
)
    ensures
        own_findings(
            ScopeView { text, mat, aliases: aliases_in(text), negative },
            x,
            parent,
        ).contains(d) <==> is_cause(text, mat, negative, x, parent, d),
{
    lemma_kinds_of_nodes();
    let scope = ScopeView { text, mat, aliases: aliases_in(text), negative };
    if x.kind == "keyword_call"@ {
        lemma_call(text, mat, negative, x, d);
        assert(own_findings(scope, x, parent) == own_findings(scope, x, None));
    } else if x.kind == "object_decl"@ {
        lemma_class(text, mat, negative, x, d);
    } else if x.kind == "identifier"@ {
        lemma_reference(text, mat, negative, x, parent, d);
    } else {
        lemma_assignment(text, mat, negative, x, d);
    }
}

proof fn lemma_tree(
    scope: ScopeView,
    tree: SyntaxView,
    above: Option<Seq<char>>,
    d: DiagnosticView,
)
    ensures
        tree_findings(scope, tree, above).contains(d) <==> exists|
            x: SyntaxView,
            parent: Option<Seq<char>>,
        | #[trigger]
            is_node_of(x, parent, tree, above) && own_findings(scope, x, parent).contains(d),
    decreases tree,
{
    let own = own_findings(scope, tree, above);
    let below = trees_findings(scope, tree.children, Some(tree.kind));
    lemma_either(own, below, d);
    lemma_trees(scope, tree.children, Some(tree.kind), d);
    if own.contains(d) {
        assert(is_node_of(tree, above, tree, above));
    }
    if below.contains(d) {
        let (i, x, parent) = choose|i: int, x: SyntaxView, parent: Option<Seq<char>>|
            0 <= i < tree.children.len() && #[trigger] is_node_of(
                x,
                parent,
                tree.children[i],
                Some(tree.kind),
            ) && own_findings(scope, x, parent).contains(d);
        assert(is_node_of(x, parent, tree.children[i], Some(tree.kind)));
        assert(is_node_of(x, parent, tree, above));
    }
    if exists|x: SyntaxView, parent: Option<Seq<char>>| #[trigger]
        is_node_of(x, parent, tree, above) && own_findings(scope, x, parent).contains(d) {
        let (x, parent) = choose|x: SyntaxView, parent: Option<Seq<char>>| #[trigger]
            is_node_of(x, parent, tree, above) && own_findings(scope, x, parent).contains(d);
        if !(x == tree && parent == above) {
            let i = choose|i: int|
                0 <= i < tree.children.len() && is_node_of(
                    x,
                    parent,
                    #[trigger] tree.children[i],
                    Some(tree.kind),
                );
            assert(is_node_of(x, parent, tree.children[i], Some(tree.kind)));
        }
    }
}

proof fn lemma_trees(
    scope: ScopeView,
    trees: Seq<SyntaxView>,
    above: Option<Seq<char>>,
    d: DiagnosticView,
)
    ensures
        trees_findings(scope, trees, above).contains(d) <==> exists|
            i: int,
            x: SyntaxView,
            parent: Option<Seq<char>>,
        |
            0 <= i < trees.len() && #[trigger] is_node_of(x, parent, trees[i], above)
                && own_findings(scope, x, parent).contains(d),
    decreases trees,
{
    if trees.len() > 0 {
        let init = trees.drop_last();
        let last = trees.last();
        lemma_trees(scope, init, above, d);
        lemma_tree(scope, last, above, d);
        lemma_either(
            trees_findings(scope, init, above),
            tree_findings(scope, last, above),
            d,
        );
        assert(trees[trees.len() - 1] == last);
        if trees_findings(scope, init, above).contains(d) {
            let (i, x, parent) = choose|i: int, x: SyntaxView, parent: Option<Seq<char>>|
                0 <= i < init.len() && #[trigger] is_node_of(x, parent, init[i], above)
                    && own_findings(scope, x, parent).contains(d);
            assert(init[i] == trees[i]);
            assert(is_node_of(x, parent, trees[i], above));
        }
        if tree_findings(scope, last, above).contains(d) {
            let (x, parent) = choose|x: SyntaxView, parent: Option<Seq<char>>| #[trigger]
                is_node_of(x, parent, last, above) && own_findings(scope, x, parent).contains(d);
            assert(is_node_of(x, parent, trees[trees.len() - 1], above));
        }
        if exists|i: int, x: SyntaxView, parent: Option<Seq<char>>|
            0 <= i < trees.len() && #[trigger] is_node_of(x, parent, trees[i], above)
                && own_findings(scope, x, parent).contains(d) {
            let (i, x, parent) = choose|i: int, x: SyntaxView, parent: Option<Seq<char>>|
                0 <= i < trees.len() && #[trigger] is_node_of(x, parent, trees[i], above)
                    && own_findings(scope, x, parent).contains(d);
            if i < init.len() {
                assert(init[i] == trees[i]);
                assert(is_node_of(x, parent, init[i], above));
            }
        }
    }
}

/// A document has a finding if and only if a node of its tree is the cause of
/// it: an unknown table, column, function or class, an unknown reference, or a
/// literal of an assignment, a conditional assignment or a restriction that
/// does not fit.
pub proof fn law_findings_and_causes(
    text: Seq<char>,
    tree: SyntaxView,
    mat: MaterialIndex,
    negative: Seq<Seq<char>>,
    d: DiagnosticView,
)
    requires
        mat.chars@.len() > 0 || mat.tables@.len() > 0 || mat.objects@.len() > 0,
    ensures
        semantic_findings(text, tree, mat, negative).contains(d) <==> exists|
            x: SyntaxView,
            parent: Option<Seq<char>>,
        | #[trigger]
            is_node_of(x, parent, tree, None) && is_cause(text, mat, negative, x, parent, d),
{
    let scope = ScopeView { text, mat, aliases: aliases_in(text), negative };
    lemma_tree(scope, tree, None, d);
    if semantic_findings(text, tree, mat, negative).contains(d) {
        let (x, parent) = choose|x: SyntaxView, parent: Option<Seq<char>>| #[trigger]
            is_node_of(x, parent, tree, None) && own_findings(scope, x, parent).contains(d);
        lemma_own(text, mat, negative, x, parent, d);
        assert(is_node_of(x, parent, tree, None) && is_cause(text, mat, negative, x, parent, d));
    }
    if exists|x: SyntaxView, parent: Option<Seq<char>>| #[trigger]
        is_node_of(x, parent, tree, None) && is_cause(text, mat, negative, x, parent, d) {
        let (x, parent) = choose|x: SyntaxView, parent: Option<Seq<char>>| #[trigger]
            is_node_of(x, parent, tree, None) && is_cause(text, mat, negative, x, parent, d);
        lemma_own(text, mat, negative, x, parent, d);
        assert(is_node_of(x, parent, tree, None) && own_findings(scope, x, parent).contains(d));
    }
}

/// Without a characteristic, a table and an object nothing is found.
pub proof fn law_no_findings_without_universe(
    text: Seq<char>,
    tree: SyntaxView,
    mat: MaterialIndex,
    negative: Seq<Seq<char>>,
)
    requires
        mat.chars@.len() == 0 && mat.tables@.len() == 0 && mat.objects@.len() == 0,
    ensures
        semantic_findings(text, tree, mat, negative).len() == 0,
{
}

/// In an assignment each literal that does not fit has its warning.
pub proof fn law_assignment_is_checked(
    text: Seq<char>,
    tree: SyntaxView,
    mat: MaterialIndex,
    negative: Seq<Seq<char>>,
    x: SyntaxView,
    parent: Option<Seq<char>>,
    e: int,
    p: int,
    q: int,
    d: DiagnosticView,
)
    requires
        mat.chars@.len() > 0 || mat.tables@.len() > 0 || mat.objects@.len() > 0,
        is_node_of(x, parent, tree, None),
        x.kind == "assignment"@,
        is_misfit(text, mat, negative, x, e, p, q, d),
    ensures
        semantic_findings(text, tree, mat, negative).contains(d),
{
    assert(has_misfit(text, mat, negative, x, d));
    law_findings_and_causes(text, tree, mat, negative, d);
}

/// In a conditional assignment each literal that does not fit has its warning.
pub proof fn law_conditional_assignment_is_checked(
    text: Seq<char>,
    tree: SyntaxView,
    mat: MaterialIndex,
    negative: Seq<Seq<char>>,
    x: SyntaxView,
    parent: Option<Seq<char>>,
    e: int,
    p: int,
    q: int,
    d: DiagnosticView,
)
    requires
        mat.chars@.len() > 0 || mat.tables@.len() > 0 || mat.objects@.len() > 0,
        is_node_of(x, parent, tree, None),
        x.kind == "conditional_assignment"@,
        is_misfit(text, mat, negative, x, e, p, q, d),
    ensures
        semantic_findings(text, tree, mat, negative).contains(d),
{
    assert(has_misfit(text, mat, negative, x, d));
    law_findings_and_causes(text, tree, mat, negative, d);
}

/// In a restriction each literal that does not fit has its warning.
pub proof fn law_restriction_is_checked(
    text: Seq<char>,
    tree: SyntaxView,
    mat: MaterialIndex,
    negative: Seq<Seq<char>>,
    x: SyntaxView,
    parent: Option<Seq<char>>,
    e: int,
    p: int,
    q: int,
    d: DiagnosticView,
)
    requires
        mat.chars@.len() > 0 || mat.tables@.len() > 0 || mat.objects@.len() > 0,
        is_node_of(x, parent, tree, None),
        x.kind == "restriction_statement"@,
        is_misfit(text, mat, negative, x, e, p, q, d),
    ensures
        semantic_findings(text, tree, mat, negative).contains(d),
{
    assert(has_misfit(text, mat, negative, x, d));
    law_findings_and_causes(text, tree, mat, negative, d);
}

/// What is found on an assignment, a conditional assignment or a restriction
/// itself is a warning on a literal of it that does not fit: a literal that
/// fits has none.
pub proof fn law_fitting_literals_have_no_warning(
    text: Seq<char>,
    mat: MaterialIndex,
    negative: Seq<Seq<char>>,
    x: SyntaxView,
    parent: Option<Seq<char>>,
    d: DiagnosticView,
)
    requires
        x.kind == "assignment"@ || x.kind == "conditional_assignment"@ || x.kind
            == "restriction_statement"@,
        own_findings(
            ScopeView { text, mat, aliases: aliases_in(text), negative },
            x,
            parent,
        ).contains(d),
    ensures
        exists|e: int, p: int, q: int| is_misfit(text, mat, negative, x, e, p, q, d),
{
    lemma_kinds_of_nodes();
    lemma_own(text, mat, negative, x, parent, d);
}

// ---- How often, and in which order ------------------------------------------

/// The findings on arguments come in the order of the arguments.
pub proof fn law_column_order(
    scope: ScopeView,
    table: Seq<char>,
    columns: Seq<Seq<char>>,
    a: Seq<SyntaxView>,
    b: Seq<SyntaxView>,
)
    ensures
        column_findings(scope, table, columns, a + b) == column_findings(scope, table, columns, a) + column_findings(scope, table, columns, b),
    decreases b.len(),
{
    if b.len() == 0 {
        assert(a + b =~= a);
        assert(column_findings(scope, table, columns, a) + column_findings(scope, table, columns, b) =~= column_findings(scope, table, columns, a));
    } else {
        law_column_order(scope, table, columns, a, b.drop_last());
        assert((a + b).drop_last() =~= a + b.drop_last());
        assert((a + b).last() == b.last());
        assert(column_findings(scope, table, columns, a + b) =~= column_findings(scope, table, columns, a) + column_findings(scope, table, columns, b));
    }
}

/// An argument alone has its own finding.
pub proof fn law_column_once(
    scope: ScopeView,
    table: Seq<char>,
    columns: Seq<Seq<char>>,
    arg: SyntaxView,
)
    ensures
        column_findings(scope, table, columns, seq![arg]) == column_finding(scope, table, columns, arg),
{
    let one = seq![arg];
    assert(one.drop_last() =~= seq![]);
    assert(column_findings(scope, table, columns, one.drop_last()) =~= seq![]);
    assert(column_findings(scope, table, columns, one) =~= column_finding(scope, table, columns, arg));
}

/// The findings on literals come in the order of the literals.
pub proof fn law_literal_order(
    scope: ScopeView,
    target: TargetView,
    a: Seq<SyntaxView>,
    b: Seq<SyntaxView>,
)
    ensures
        literals_findings(scope, target, a + b) == literals_findings(scope, target, a) + literals_findings(scope, target, b),
    decreases b.len(),
{
    if b.len() == 0 {
        assert(a + b =~= a);
        assert(literals_findings(scope, target, a) + literals_findings(scope, target, b) =~= literals_findings(scope, target, a));
    } else {
        law_literal_order(scope, target, a, b.drop_last());
        assert((a + b).drop_last() =~= a + b.drop_last());
        assert((a + b).last() == b.last());
        assert(literals_findings(scope, target, a + b) =~= literals_findings(scope, target, a) + literals_findings(scope, target, b));
    }
}

/// A literal alone has its own finding.
pub proof fn law_literal_once(
    scope: ScopeView,
    target: TargetView,
    literal: SyntaxView,
)
    ensures
        literals_findings(scope, target, seq![literal]) == literal_findings(scope, target, literal),
{
    let one = seq![literal];
    assert(one.drop_last() =~= seq![]);
    assert(literals_findings(scope, target, one.drop_last()) =~= seq![]);
    assert(literals_findings(scope, target, one) =~= literal_findings(scope, target, literal));
}

/// The findings on the parts of an expression come in the order of the parts.
pub proof fn law_value_order(
    scope: ScopeView,
    target: TargetView,
    a: Seq<SyntaxView>,
    b: Seq<SyntaxView>,
)
    ensures
        parts_findings(scope, target, a + b) == parts_findings(scope, target, a) + parts_findings(scope, target, b),
    decreases b.len(),
{
    if b.len() == 0 {
        assert(a + b =~= a);
        assert(parts_findings(scope, target, a) + parts_findings(scope, target, b) =~= parts_findings(scope, target, a));
    } else {
        law_value_order(scope, target, a, b.drop_last());
        assert((a + b).drop_last() =~= a + b.drop_last());
        assert((a + b).last() == b.last());
        assert(parts_findings(scope, target, a + b) =~= parts_findings(scope, target, a) + parts_findings(scope, target, b));
    }
}

/// A value alone has the findings on its literals; any other part has none.
pub proof fn law_value_once(
    scope: ScopeView,
    target: TargetView,
    part: SyntaxView,
)
    ensures
        parts_findings(scope, target, seq![part]) == if part.kind == "value"@ {
            literals_findings(scope, target, part.children)
        } else {
            Seq::<DiagnosticView>::empty()
        },
{
    let one = seq![part];
    assert(one.drop_last() =~= seq![]);
    assert(parts_findings(scope, target, one.drop_last()) =~= seq![]);
    assert(parts_findings(scope, target, one) =~= if part.kind == "value"@ {
            literals_findings(scope, target, part.children)
        } else {
            Seq::<DiagnosticView>::empty()
        });
}

/// The findings on trees come in the order of the trees.
pub proof fn law_tree_order(
    scope: ScopeView,
    a: Seq<SyntaxView>,
    b: Seq<SyntaxView>,
    parent: Option<Seq<char>>,
)
    ensures
        trees_findings(scope, a + b, parent) == trees_findings(scope, a, parent) + trees_findings(
            scope,
            b,
            parent,
        ),
    decreases b.len(),
{
    if b.len() == 0 {
        assert(a + b =~= a);
        assert(trees_findings(scope, a, parent) + trees_findings(scope, b, parent)
            =~= trees_findings(scope, a, parent));
    } else {
        law_tree_order(scope, a, b.drop_last(), parent);
        assert((a + b).drop_last() =~= a + b.drop_last());
        assert((a + b).last() == b.last());
        assert(trees_findings(scope, a + b, parent) =~= trees_findings(scope, a, parent)
            + trees_findings(scope, b, parent));
    }
}

/// What is found on a node comes before what is found below it, and nothing is
/// found twice.
pub proof fn law_node_before_children(
    scope: ScopeView,
    tree: SyntaxView,
    parent: Option<Seq<char>>,
)
    ensures
        trees_findings(scope, seq![tree], parent) == own_findings(scope, tree, parent)
            + trees_findings(scope, tree.children, Some(tree.kind)),
{
    let one = seq![tree];
    assert(one.drop_last() =~= seq![]);
    assert(trees_findings(scope, one.drop_last(), parent) =~= seq![]);
    assert(one.last() == tree);
    assert(trees_findings(scope, one, parent) == trees_findings(scope, one.drop_last(), parent)
        + tree_findings(scope, tree, parent));
    assert(trees_findings(scope, one, parent) =~= own_findings(scope, tree, parent)
        + trees_findings(scope, tree.children, Some(tree.kind)));
}

/// A reference, a class, the callee of a call, an argument and a literal have
/// one finding at the most.
pub proof fn law_one_finding_each(
    scope: ScopeView,
    x: SyntaxView,
    parent: Option<Seq<char>>,
    target: TargetView,
    table: Seq<char>,
    columns: Seq<Seq<char>>,
)
    ensures
        x.kind == "identifier"@ || x.kind == "object_decl"@ ==> own_findings(
            scope,
            x,
            parent,
        ).len() <= 1,
        column_finding(scope, table, columns, x).len() <= 1,
        literal_findings(scope, target, x).len() <= 1,
        x.children.len() > 1 && is_call(scope.text, x, "FUNCTION"@) ==> own_findings(
            scope,
            x,
            parent,
        ).len() <= 1,
        x.children.len() > 1 && is_call(scope.text, x, "TABLE"@) ==> own_findings(
            scope,
            x,
            parent,
        ).len() <= 1 + column_findings(
            scope,
            node_text(x.children[1], scope.text),
            views(scope.mat.vt_chars@[node_text(x.children[1], scope.text)]@),
            x.children,
        ).len(),
{
    lemma_kinds_of_nodes();
    reveal_strlit("TABLE");
    reveal_strlit("FUNCTION");
    assert("TABLE"@.len() != "FUNCTION"@.len());
}

} // verus!
