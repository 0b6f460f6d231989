//! Syntax diagnostics: error and missing nodes of the tree, minus the false
//! alarms of comment lines that start with `*`.

use vstd::prelude::*;
use vstd::string::*;

use crate::diagnostic::{
    diagnostic_views, finding, lemma_nothing_added, node_range, range_of_node, report, Diagnostic,
    DiagnosticView, Severity,
};
use crate::grammar::{read_syntax, syntax_of};
use crate::material::MaterialIndex;
use crate::names::NameSet;
use crate::position::{
    boundary_at, byte_len, byte_range, clamp_byte, find_boundary, is_boundary, is_span,
    lemma_boundary, lemma_trail_is, prefix_at,
};
use crate::semantic::{semantic_diagnostics, semantic_findings};
use crate::syntax::{
    fits, is_among, is_below, is_kind, lemma_among, lemma_below, lemma_child_fits, node_text,
    text_of, SyntaxNode, SyntaxView,
};
use crate::text::{
    chars_of, is_white_space, lead, lead_len, lead_run, lemma_lead, lemma_lead_is, lemma_trail, skip,
    string_of, take, trail, trail_len, trim_lead, CharClass,
};

verus! {

/// The line on which byte `start` falls.
pub open spec fn line_at(text: Seq<char>, start: nat) -> Seq<char> {
    let before = prefix_at(text, start);
    let at = before.len() - trail_len(before, CharClass::Except('\n'));
    lead_run(text.skip(at), CharClass::Except('\n'))
}

/// Whether the line on which byte `start` falls is a comment: it starts, white
/// space aside, with a `*`. A comment line right after a value is read as a
/// multiplication, and the error that follows from that starts on such a line.
pub open spec fn is_star_limited(text: Seq<char>, start: nat) -> bool {
    let rest = trim_lead(line_at(text, start), CharClass::White);
    rest.len() > 0 && rest[0] == '*'
}

/// What a sweep for errors has found, and the row on which the last suppressed
/// error ended.
pub struct Sweep {
    pub found: Seq<DiagnosticView>,
    pub last: Option<nat>,
}

/// The message for a syntax error.
pub open spec fn error_message(missing: bool) -> Seq<char> {
    "Syntax error"@ + if missing {
        " (missing token)"@
    } else {
        ""@
    }
}

/// Whether an error at `node` is suppressed: it starts on a comment line, or on
/// the row on which the last suppressed error ended.
pub open spec fn is_suppressed(text: Seq<char>, node: SyntaxView, last: Option<nat>) -> bool {
    is_star_limited(text, node.start_byte) || last == Some(node.start_row)
}

/// The sweep over one node, the nodes below it left aside.
pub open spec fn sweep_own(text: Seq<char>, node: SyntaxView, last: Option<nat>) -> Sweep {
    if !node.is_error && !node.is_missing {
        Sweep { found: seq![], last }
    } else if is_suppressed(text, node, last) {
        Sweep { found: seq![], last: Some(node.end_row) }
    } else {
        Sweep {
            found: finding(
                true,
                node_range(node, text),
                Severity::Error,
                error_message(node.is_missing),
            ),
            last,
        }
    }
}

/// The sweep over a tree, from the top down and from left to right.
pub open spec fn sweep_tree(text: Seq<char>, node: SyntaxView, last: Option<nat>) -> Sweep
    decreases node,
{
    let own = sweep_own(text, node, last);
    let below = sweep_trees(text, node.children, own.last);
    Sweep { found: own.found + below.found, last: below.last }
}

/// The sweep over a list of trees.
pub open spec fn sweep_trees(text: Seq<char>, nodes: Seq<SyntaxView>, last: Option<nat>) -> Sweep
    decreases nodes,
{
    if nodes.len() == 0 {
        Sweep { found: seq![], last }
    } else {
        let init = sweep_trees(text, nodes.drop_last(), last);
        let end = sweep_tree(text, nodes.last(), init.last);
        Sweep { found: init.found + end.found, last: end.last }
    }
}

/// The syntax findings on a document.
pub open spec fn syntax_findings(text: Seq<char>, tree: SyntaxView) -> Seq<DiagnosticView> {
    sweep_tree(text, tree, None).found
}

/// Whether an error that starts at byte `start` starts on a comment line.
pub fn is_star_limitation(text: &[char], start: usize) -> (res: bool)
    requires
        is_boundary(text@, clamp_byte(text@, start as nat)),
    ensures
        res == is_star_limited(text@, start as nat),
{
    let n = match find_boundary(text, start) {
        Some(n) => {
            proof {
                lemma_boundary(text@, start as nat, n as int);
            }
            n
        },
        None => {
            proof {
                assert(text@.take(text@.len() as int) =~= text@);
                lemma_boundary(text@, byte_len(text@), text@.len() as int);
            }
            text.len()
        },
    };
    let before = take(text, n);
    let rest = skip(text, n - trail(before, CharClass::Except('\n')));
    let line = take(rest, lead(rest, CharClass::Except('\n')));
    let rest = skip(line, lead(line, CharClass::White));
    rest.len() > 0 && rest[0] == '*'
}

/// The row as a number.
pub open spec fn row_view(row: Option<usize>) -> Option<nat> {
    match row {
        Some(row) => Some(row as nat),
        None => None,
    }
}

fn collect_errors(
    node: &SyntaxNode,
    text: &[char],
    last: Option<usize>,
    out: &mut Vec<Diagnostic>,
) -> (res: Option<usize>)
    requires
        fits(node@, text@),
    ensures
        diagnostic_views(final(out)@) == diagnostic_views(old(out)@) + sweep_tree(
            text@,
            node@,
            row_view(last),
        ).found,
        row_view(res) == sweep_tree(text@, node@, row_view(last)).last,
    decreases node,
{
    let ghost start = diagnostic_views(out@);
    let ghost own = sweep_own(text@, node@, row_view(last));
    proof {
        lemma_nothing_added(start);
    }
    let mut row: Option<usize> = last;
    if node.is_error || node.is_missing {
        let cascade = match last {
            Some(l) => l == node.start_row,
            None => false,
        };
        proof {
            let i = choose|i: int| boundary_at(text@, node@.start_byte, i);
            lemma_boundary(text@, node@.start_byte, i);
        }
        if is_star_limitation(text, node.start_byte) || cascade {
            row = Some(node.end_row);
        } else {
            let mut message = "Syntax error".to_owned();
            message.append(
                if node.is_missing {
                    " (missing token)"
                } else {
                    ""
                },
            );
            report(out, range_of_node(node, text), Severity::Error, message);
        }
    }
    assert(diagnostic_views(out@) == start + own.found);
    assert(row_view(row) == own.last);
    let ghost nodes = node@.children;
    let mut i: usize = 0;
    proof {
        assert(nodes.take(0) =~= Seq::<SyntaxView>::empty());
        lemma_nothing_added(start + own.found);
    }
    while i < node.children.len()
        invariant
            i <= node.children@.len(),
            nodes == node@.children,
            fits(node@, text@),
            diagnostic_views(out@) == (start + own.found) + sweep_trees(
                text@,
                nodes.take(i as int),
                own.last,
            ).found,
            row_view(row) == sweep_trees(text@, nodes.take(i as int), own.last).last,
        decreases node.children@.len() - i,
    {
        let ghost done = sweep_trees(text@, nodes.take(i as int), own.last);
        let ghost part = sweep_tree(text@, nodes[i as int], done.last);
        proof {
            assert(nodes[i as int] == node.children@[i as int]@);
            assert(nodes.take(i + 1).drop_last() =~= nodes.take(i as int));
            lemma_child_fits(node@, text@, i as int);
        }
        row = collect_errors(&node.children[i], text, row, out);
        assert(((start + own.found) + done.found) + part.found =~= (start + own.found) + (done.found
            + part.found));
        i += 1;
    }
    assert(nodes.take(i as int) =~= nodes);
    let ghost below = sweep_trees(text@, nodes, own.last);
    assert((start + own.found) + below.found =~= start + (own.found + below.found));
    row
}

/// Syntax diagnostics of a tree.
pub fn syntax_diagnostics(text: &str, tree: &SyntaxNode) -> (res: Vec<Diagnostic>)
    requires
        fits(tree@, text@),
    ensures
        diagnostic_views(res@) == syntax_findings(text@, tree@),
{
    let chars = chars_of(text);
    let mut out: Vec<Diagnostic> = Vec::new();
    let ghost none = diagnostic_views(out@);
    collect_errors(tree, chars.as_slice(), None, &mut out);
    assert(none + syntax_findings(text@, tree@) =~= syntax_findings(text@, tree@));
    out
}

/// Syntax diagnostics of a text: error and missing nodes, minus the false
/// alarms of comment lines. A text without a tree has none.
pub fn diagnostics(text: &str, language: &tree_sitter::Language) -> (res: Vec<Diagnostic>)
    requires
        byte_len(text@) <= u32::MAX,
    ensures
        diagnostic_views(res@) == match syntax_of(*language, text@) {
            Some(tree) => syntax_findings(text@, tree),
            None => Seq::<DiagnosticView>::empty(),
        },
{
    match read_syntax(language, text) {
        Some(tree) => syntax_diagnostics(text, &tree),
        None => {
            let res: Vec<Diagnostic> = Vec::new();
            assert(diagnostic_views(res@) =~= Seq::<DiagnosticView>::empty());
            res
        },
    }
}

/// Everything there is to say of a document: its syntax diagnostics, then its
/// semantic ones.
pub fn document_diagnostics(
    text: &str,
    tree: &SyntaxNode,
    mat: &MaterialIndex,
    negative: &NameSet,
) -> (res: Vec<Diagnostic>)
    requires
        fits(tree@, text@),
    ensures
        diagnostic_views(res@) == syntax_findings(text@, tree@) + semantic_findings(
            text@,
            tree@,
            *mat,
            negative@,
        ),
{
    let mut all = syntax_diagnostics(text, tree);
    let mut more = semantic_diagnostics(text, tree, mat, negative);
    let ghost a = all@;
    let ghost b = more@;
    all.append(&mut more);
    assert(diagnostic_views(a + b) =~= diagnostic_views(a) + diagnostic_views(b));
    all
}

/// The number literals of a tree, as they are written.
pub open spec fn numbers_in(text: Seq<char>, node: SyntaxView) -> Seq<Seq<char>>
    decreases node,
{
    (if node.kind == "number"@ {
        seq![node_text(node, text)]
    } else {
        seq![]
    }) + numbers_among(text, node.children)
}

/// The number literals of a list of trees, as they are written.
pub open spec fn numbers_among(text: Seq<char>, nodes: Seq<SyntaxView>) -> Seq<Seq<char>>
    decreases nodes,
{
    if nodes.len() == 0 {
        seq![]
    } else {
        numbers_among(text, nodes.drop_last()) + numbers_in(text, nodes.last())
    }
}

fn collect_numbers(node: &SyntaxNode, text: &[char], out: &mut Vec<String>)
    requires
        fits(node@, text@),
    ensures
        crate::names::views(final(out)@) == crate::names::views(old(out)@) + numbers_in(
            text@,
            node@,
        ),
    decreases node,
{
    let ghost start = crate::names::views(out@);
    let ghost own = if node@.kind == "number"@ {
        seq![node_text(node@, text@)]
    } else {
        seq![]
    };
    if is_kind(node, "number") {
        let ghost before = out@;
        out.push(string_of(text_of(node, text)));
        assert(crate::names::views(out@) =~= crate::names::views(before).push(
            node_text(node@, text@),
        ));
    }
    assert(crate::names::views(out@) =~= start + own);
    let ghost nodes = node@.children;
    let mut i: usize = 0;
    proof {
        assert(nodes.take(0) =~= Seq::<SyntaxView>::empty());
        assert((start + own) + Seq::<Seq<char>>::empty() =~= start + own);
    }
    while i < node.children.len()
        invariant
            i <= node.children@.len(),
            nodes == node@.children,
            fits(node@, text@),
            crate::names::views(out@) == (start + own) + numbers_among(text@, nodes.take(i as int)),
        decreases node.children@.len() - i,
    {
        let ghost done = numbers_among(text@, nodes.take(i as int));
        let ghost part = numbers_in(text@, nodes[i as int]);
        proof {
            assert(nodes[i as int] == node.children@[i as int]@);
            assert(nodes.take(i + 1).drop_last() =~= nodes.take(i as int));
            lemma_child_fits(node@, text@, i as int);
        }
        collect_numbers(&node.children[i], text, out);
        assert(((start + own) + done) + part =~= (start + own) + (done + part));
        i += 1;
    }
    assert(nodes.take(i as int) =~= nodes);
    assert((start + own) + numbers_among(text@, nodes) =~= start + (own + numbers_among(
        text@,
        nodes,
    )));
}

/// The number literals of a tree, as they are written, in the order of the
/// text.
pub fn number_literals(text: &str, tree: &SyntaxNode) -> (res: Vec<String>)
    requires
        fits(tree@, text@),
    ensures
        crate::names::views(res@) == numbers_in(text@, tree@),
{
    let chars = chars_of(text);
    let mut out: Vec<String> = Vec::new();
    let ghost none = crate::names::views(out@);
    collect_numbers(tree, chars.as_slice(), &mut out);
    assert(none + numbers_in(text@, tree@) =~= numbers_in(text@, tree@));
    out
}

// ---- Laws -------------------------------------------------------------------

/// Whether a node is an error.
pub open spec fn is_alarm(node: SyntaxView) -> bool {
    node.is_error || node.is_missing
}

/// Whether every error in the tree starts on a comment line.
pub open spec fn is_excused(text: Seq<char>, node: SyntaxView) -> bool
    decreases node,
{
    &&& is_alarm(node) ==> is_star_limited(text, node.start_byte)
    &&& forall|i: int|
        0 <= i < node.children.len() ==> is_excused(text, #[trigger] node.children[i])
}

/// Whether no error in the tree starts on a comment line.
pub open spec fn is_unexcused(text: Seq<char>, node: SyntaxView) -> bool
    decreases node,
{
    &&& is_alarm(node) ==> !is_star_limited(text, node.start_byte)
    &&& forall|i: int|
        0 <= i < node.children.len() ==> is_unexcused(text, #[trigger] node.children[i])
}

/// How many errors a tree has.
pub open spec fn alarm_count(node: SyntaxView) -> nat
    decreases node,
{
    (if is_alarm(node) {
        1nat
    } else {
        0
    }) + alarms_count(node.children)
}

/// How many errors a list of trees has.
pub open spec fn alarms_count(nodes: Seq<SyntaxView>) -> nat
    decreases nodes,
{
    if nodes.len() == 0 {
        0
    } else {
        alarms_count(nodes.drop_last()) + alarm_count(nodes.last())
    }
}

/// A document whose errors all start on comment lines, or that has none, has no
/// syntax findings.
pub proof fn law_comment_lines_are_quiet(text: Seq<char>, tree: SyntaxView)
    requires
        is_excused(text, tree),
    ensures
        syntax_findings(text, tree) == Seq::<DiagnosticView>::empty(),
{
    lemma_excused(text, tree, None);
}

proof fn lemma_excused(text: Seq<char>, node: SyntaxView, last: Option<nat>)
    requires
        is_excused(text, node),
    ensures
        sweep_tree(text, node, last).found == Seq::<DiagnosticView>::empty(),
    decreases node,
{
    let own = sweep_own(text, node, last);
    lemma_all_excused(text, node.children, own.last);
    lemma_nothing_added(own.found);
}

proof fn lemma_all_excused(text: Seq<char>, nodes: Seq<SyntaxView>, last: Option<nat>)
    requires
        forall|i: int| 0 <= i < nodes.len() ==> is_excused(text, #[trigger] nodes[i]),
    ensures
        sweep_trees(text, nodes, last).found == Seq::<DiagnosticView>::empty(),
    decreases nodes,
{
    if nodes.len() > 0 {
        let init = nodes.drop_last();
        assert forall|i: int| 0 <= i < init.len() implies is_excused(text, #[trigger] init[i]) by {
            assert(init[i] == nodes[i]);
        }
        lemma_all_excused(text, init, last);
        assert(nodes.last() == nodes[nodes.len() - 1]);
        lemma_excused(text, nodes.last(), sweep_trees(text, init, last).last);
        lemma_nothing_added(Seq::<DiagnosticView>::empty());
    }
}

/// In a document whose errors start on no comment line, each of them is
/// reported, once.
pub proof fn law_every_error_is_reported(text: Seq<char>, tree: SyntaxView)
    requires
        is_unexcused(text, tree),
    ensures
        syntax_findings(text, tree).len() == alarm_count(tree),
{
    lemma_unexcused(text, tree);
}

proof fn lemma_unexcused(text: Seq<char>, node: SyntaxView)
    requires
        is_unexcused(text, node),
    ensures
        sweep_tree(text, node, None).found.len() == alarm_count(node),
        sweep_tree(text, node, None).last is None,
    decreases node,
{
    lemma_all_unexcused(text, node.children);
}

proof fn lemma_all_unexcused(text: Seq<char>, nodes: Seq<SyntaxView>)
    requires
        forall|i: int| 0 <= i < nodes.len() ==> is_unexcused(text, #[trigger] nodes[i]),
    ensures
        sweep_trees(text, nodes, None).found.len() == alarms_count(nodes),
        sweep_trees(text, nodes, None).last is None,
    decreases nodes,
{
    if nodes.len() > 0 {
        let init = nodes.drop_last();
        assert forall|i: int| 0 <= i < init.len() implies is_unexcused(
            text,
            #[trigger] init[i],
        ) by {
            assert(init[i] == nodes[i]);
        }
        lemma_all_unexcused(text, init);
        assert(nodes.last() == nodes[nodes.len() - 1]);
        lemma_unexcused(text, nodes.last());
    }
}

/// An error that starts on the row on which a suppressed error ended is
/// suppressed as well, and passes the suppression on.
pub proof fn law_cascade_is_quiet(
    text: Seq<char>,
    a: SyntaxView,
    b: SyntaxView,
    last: Option<nat>,
)
    requires
        is_alarm(a),
        is_suppressed(text, a, last),
        is_alarm(b),
        b.start_row == a.end_row,
    ensures
        sweep_own(text, b, sweep_own(text, a, last).last).found
            == Seq::<DiagnosticView>::empty(),
        sweep_own(text, b, sweep_own(text, a, last).last).last == Some(b.end_row),
{
}

/// Whether a finding is that of a syntax error.
pub open spec fn is_syntax_finding(d: DiagnosticView) -> bool {
    d.severity == Severity::Error && (d.message == error_message(true) || d.message
        == error_message(false))
}

/// Every syntax finding is an error.
pub proof fn law_syntax_findings_are_errors(text: Seq<char>, tree: SyntaxView, i: int)
    requires
        0 <= i < syntax_findings(text, tree).len(),
    ensures
        is_syntax_finding(syntax_findings(text, tree)[i]),
{
    lemma_sweep_findings(text, tree, None);
}

proof fn lemma_sweep_findings(text: Seq<char>, node: SyntaxView, last: Option<nat>)
    ensures
        forall|i: int|
            0 <= i < sweep_tree(text, node, last).found.len() ==> is_syntax_finding(
                #[trigger] sweep_tree(text, node, last).found[i],
            ),
    decreases node,
{
    lemma_sweep_all(text, node.children, sweep_own(text, node, last).last);
}

proof fn lemma_sweep_all(text: Seq<char>, nodes: Seq<SyntaxView>, last: Option<nat>)
    ensures
        forall|i: int|
            0 <= i < sweep_trees(text, nodes, last).found.len() ==> is_syntax_finding(
                #[trigger] sweep_trees(text, nodes, last).found[i],
            ),
    decreases nodes,
{
    if nodes.len() > 0 {
        lemma_sweep_all(text, nodes.drop_last(), last);
        lemma_sweep_findings(
            text,
            nodes.last(),
            sweep_trees(text, nodes.drop_last(), last).last,
        );
    }
}

/// Without a material there is nothing to say of a document but its syntax
/// findings.
pub proof fn law_syntax_alone_without_material(
    text: Seq<char>,
    tree: SyntaxView,
    mat: MaterialIndex,
    negative: Seq<Seq<char>>,
)
    requires
        mat.has_no_universe(),
    ensures
        syntax_findings(text, tree) + semantic_findings(text, tree, mat, negative)
            == syntax_findings(text, tree),
{
    lemma_nothing_added(syntax_findings(text, tree));
}

// ---- What a comment line is -------------------------------------------------

/// Whether the line around index `n` starts at `b` and has a `*` at `i`, with
/// nothing but white space before it.
pub open spec fn is_comment_at(text: Seq<char>, n: int, b: int, i: int) -> bool {
    &&& 0 <= b <= n <= text.len()
    &&& b == 0 || text[b - 1] == '\n'
    &&& forall|j: int| b <= j < n ==> #[trigger] text[j] != '\n'
    &&& b <= i < text.len()
    &&& forall|j: int| b <= j < i ==> is_white_space(#[trigger] text[j]) && text[j] != '\n'
    &&& text[i] == '*'
}

/// Whether byte `start` falls on a comment line.
pub open spec fn on_comment_line(text: Seq<char>, start: nat) -> bool {
    exists|n: int, b: int, i: int|
        #![trigger boundary_at(text, start, n), is_comment_at(text, n, b, i)]
        boundary_at(text, start, n) && is_comment_at(text, n, b, i)
}

/// An error starts on a comment line if and only if the first character of its
/// line that is no white space is a `*`.
pub proof fn law_comment_line(text: Seq<char>, start: nat)
    requires
        is_boundary(text, start),
    ensures
        is_star_limited(text, start) <==> on_comment_line(text, start),
{
    let k = choose|k: int| boundary_at(text, start, k);
    lemma_boundary(text, start, k);
    let before = text.take(k);
    let class = CharClass::Except('\n');
    let white = CharClass::White;
    lemma_trail(before, class);
    let at = k - trail_len(before, class);
    let rest = text.skip(at);
    let len = lead_len(rest, class) as int;
    lemma_lead(rest, class);
    let line = line_at(text, start);
    assert(line =~= rest.take(len));
    let g = lead_len(line, white) as int;
    lemma_lead(line, white);
    if is_star_limited(text, start) {
        let i = at + g;
        assert(line[g] == text[i]);
        assert forall|j: int| at <= j < k implies #[trigger] text[j] != '\n' by {
            assert(before[j] == text[j]);
            assert(class.admits(before[j]));
        }
        if at > 0 {
            assert(before[at - 1] == text[at - 1]);
        }
        assert forall|j: int| at <= j < i implies is_white_space(#[trigger] text[j]) && text[j]
            != '\n' by {
            assert(line[j - at] == text[j]);
            assert(white.admits(line[j - at]));
            assert(rest[j - at] == text[j]);
            assert(class.admits(rest[j - at]));
        }
        assert(is_comment_at(text, k, at, i));
    }
    if on_comment_line(text, start) {
        let (n, b, i) = choose|n: int, b: int, i: int|
            #![trigger boundary_at(text, start, n), is_comment_at(text, n, b, i)]
            boundary_at(text, start, n) && is_comment_at(text, n, b, i);
        lemma_boundary(text, start, n);
        assert(n == k);
        assert forall|j: int|
            before.len() - (k - b) <= j < before.len() implies class.admits(
            #[trigger] before[j],
        ) by {
            assert(before[j] == text[j]);
        }
        if b > 0 {
            assert(before[b - 1] == text[b - 1]);
        }
        lemma_trail_is(before, class, (k - b) as nat);
        assert(at == b);
        if len <= i - b {
            assert(rest[len] == text[b + len]);
        }
        assert forall|j: int| 0 <= j < i - b implies white.admits(#[trigger] line[j]) by {
            assert(line[j] == text[b + j]);
        }
        assert(line[i - b] == text[i]);
        lemma_lead_is(line, white, i - b);
    }
}

/// What is reported for an error.
pub open spec fn alarm(text: Seq<char>, node: SyntaxView) -> DiagnosticView {
    DiagnosticView {
        range: byte_range(text, node.start_byte, node.end_byte),
        severity: Severity::Error,
        message: if node.is_missing {
            "Syntax error"@ + " (missing token)"@
        } else {
            "Syntax error"@
        },
    }
}

/// Whether an error that ends on a row also starts on it, and on no comment
/// line, so that it cannot silence an error on that row.
pub open spec fn is_harmless(text: Seq<char>, x: SyntaxView, row: nat) -> bool {
    is_alarm(x) && x.end_row == row ==> x.start_row == row && !on_comment_line(text, x.start_byte)
}

/// An error on a line whose first character, white space aside, is no `*` is
/// reported, unless an error that may be suppressed ends on its row.
pub proof fn law_plain_error_is_reported(text: Seq<char>, tree: SyntaxView, node: SyntaxView)
    requires
        fits(tree, text),
        is_below(node, tree),
        is_alarm(node),
        !on_comment_line(text, node.start_byte),
        forall|x: SyntaxView| #[trigger]
            is_below(x, tree) ==> is_harmless(text, x, node.start_row),
    ensures
        syntax_findings(text, tree).contains(alarm(text, node)),
{
    lemma_reported(text, tree, node, None);
}

proof fn lemma_sweep_own(text: Seq<char>, node: SyntaxView, last: Option<nat>, row: nat)
    requires
        is_span(text, node.start_byte, node.end_byte),
        is_harmless(text, node, row),
        last != Some(row),
    ensures
        sweep_own(text, node, last).last != Some(row),
        is_alarm(node) && !on_comment_line(text, node.start_byte) && node.start_row == row
            ==> sweep_own(text, node, last).found == seq![alarm(text, node)],
{
    law_comment_line(text, node.start_byte);
    let found = sweep_own(text, node, last).found;
    if found.len() > 0 {
        assert(error_message(node.is_missing) =~= alarm(text, node).message) by {
            reveal_strlit("");
        }
    }
}

proof fn lemma_reported(text: Seq<char>, tree: SyntaxView, node: SyntaxView, last: Option<nat>)
    requires
        fits(tree, text),
        is_alarm(node),
        !on_comment_line(text, node.start_byte),
        forall|x: SyntaxView| #[trigger]
            is_below(x, tree) ==> is_harmless(text, x, node.start_row),
        last != Some(node.start_row),
    ensures
        sweep_tree(text, tree, last).last != Some(node.start_row),
        is_below(node, tree) ==> sweep_tree(text, tree, last).found.contains(alarm(text, node)),
    decreases tree,
{
    let own = sweep_own(text, tree, last);
    assert(is_below(tree, tree));
    lemma_sweep_own(text, tree, last, node.start_row);
    assert forall|x: SyntaxView| #[trigger] is_among(x, tree.children) implies is_harmless(
        text,
        x,
        node.start_row,
    ) by {
        lemma_below(x, tree);
    }
    assert forall|i: int| 0 <= i < tree.children.len() implies fits(
        #[trigger] tree.children[i],
        text,
    ) by {
        lemma_child_fits(tree, text, i);
    }
    lemma_all_reported(text, tree.children, node, own.last);
    let below = sweep_trees(text, tree.children, own.last);
    if is_below(node, tree) {
        lemma_below(node, tree);
        if node == tree {
            assert((own.found + below.found)[0] == alarm(text, node));
        } else {
            let k = choose|k: int| 0 <= k < below.found.len() && below.found[k] == alarm(text, node);
            assert((own.found + below.found)[own.found.len() + k] == alarm(text, node));
        }
    }
}

proof fn lemma_all_reported(
    text: Seq<char>,
    trees: Seq<SyntaxView>,
    node: SyntaxView,
    last: Option<nat>,
)
    requires
        forall|i: int| 0 <= i < trees.len() ==> fits(#[trigger] trees[i], text),
        is_alarm(node),
        !on_comment_line(text, node.start_byte),
        forall|x: SyntaxView| #[trigger]
            is_among(x, trees) ==> is_harmless(text, x, node.start_row),
        last != Some(node.start_row),
    ensures
        sweep_trees(text, trees, last).last != Some(node.start_row),
        is_among(node, trees) ==> sweep_trees(text, trees, last).found.contains(alarm(text, node)),
    decreases trees,
{
    if trees.len() > 0 {
        let init = trees.drop_last();
        assert forall|i: int| 0 <= i < init.len() implies fits(#[trigger] init[i], text) by {
            assert(init[i] == trees[i]);
        }
        assert forall|x: SyntaxView| #[trigger] is_among(x, init) implies is_harmless(
            text,
            x,
            node.start_row,
        ) by {
            lemma_among(x, trees);
        }
        assert(trees[trees.len() - 1] == trees.last());
        assert forall|x: SyntaxView| #[trigger] is_below(x, trees.last()) implies is_harmless(
            text,
            x,
            node.start_row,
        ) by {
            lemma_among(x, trees);
        }
        lemma_all_reported(text, init, node, last);
        let before = sweep_trees(text, init, last);
        lemma_reported(text, trees.last(), node, before.last);
        let end = sweep_tree(text, trees.last(), before.last);
        lemma_among(node, trees);
        let all = before.found + end.found;
        if is_among(node, init) {
            let k = choose|k: int|
                0 <= k < before.found.len() && before.found[k] == alarm(text, node);
            assert(all[k] == alarm(text, node));
        } else if is_below(node, trees.last()) {
            let k = choose|k: int| 0 <= k < end.found.len() && end.found[k] == alarm(text, node);
            assert(all[before.found.len() + k] == alarm(text, node));
        }
    }
}

/// Whether a finding is that of an error of the tree that starts on no comment
/// line.
pub open spec fn is_alarm_of(text: Seq<char>, tree: SyntaxView, d: DiagnosticView) -> bool {
    exists|x: SyntaxView| #[trigger]
        is_below(x, tree) && is_alarm(x) && !on_comment_line(text, x.start_byte) && d == alarm(
            text,
            x,
        )
}

/// Every syntax finding is that of an error of the tree that starts on no
/// comment line.
pub proof fn law_syntax_findings_have_a_cause(text: Seq<char>, tree: SyntaxView, i: int)
    requires
        fits(tree, text),
        0 <= i < syntax_findings(text, tree).len(),
    ensures
        is_alarm_of(text, tree, syntax_findings(text, tree)[i]),
{
    lemma_caused(text, tree, None, i);
}

proof fn lemma_caused(text: Seq<char>, tree: SyntaxView, last: Option<nat>, i: int)
    requires
        fits(tree, text),
        0 <= i < sweep_tree(text, tree, last).found.len(),
    ensures
        is_alarm_of(text, tree, sweep_tree(text, tree, last).found[i]),
    decreases tree,
{
    let own = sweep_own(text, tree, last);
    let below = sweep_trees(text, tree.children, own.last);
    if i < own.found.len() {
        law_comment_line(text, tree.start_byte);
        assert(error_message(tree.is_missing) =~= alarm(text, tree).message) by {
            reveal_strlit("");
        }
        assert(is_below(tree, tree));
    } else {
        assert forall|j: int| 0 <= j < tree.children.len() implies fits(
            #[trigger] tree.children[j],
            text,
        ) by {
            lemma_child_fits(tree, text, j);
        }
        let k = i - own.found.len();
        lemma_all_caused(text, tree.children, own.last, k);
        let d = below.found[k];
        let x = choose|x: SyntaxView| #[trigger]
            is_among(x, tree.children) && is_alarm(x) && !on_comment_line(text, x.start_byte) && d
                == alarm(text, x);
        lemma_below(x, tree);
        assert(is_below(x, tree));
    }
}

proof fn lemma_all_caused(text: Seq<char>, trees: Seq<SyntaxView>, last: Option<nat>, i: int)
    requires
        forall|j: int| 0 <= j < trees.len() ==> fits(#[trigger] trees[j], text),
        0 <= i < sweep_trees(text, trees, last).found.len(),
    ensures
        exists|x: SyntaxView| #[trigger]
            is_among(x, trees) && is_alarm(x) && !on_comment_line(text, x.start_byte)
                && sweep_trees(text, trees, last).found[i] == alarm(text, x),
    decreases trees,
{
    let init = trees.drop_last();
    let before = sweep_trees(text, init, last);
    let end = sweep_tree(text, trees.last(), before.last);
    assert forall|j: int| 0 <= j < init.len() implies fits(#[trigger] init[j], text) by {
        assert(init[j] == trees[j]);
    }
    assert(trees[trees.len() - 1] == trees.last());
    if i < before.found.len() {
        lemma_all_caused(text, init, last, i);
        let d = before.found[i];
        let x = choose|x: SyntaxView| #[trigger]
            is_among(x, init) && is_alarm(x) && !on_comment_line(text, x.start_byte) && d == alarm(
                text,
                x,
            );
        lemma_among(x, trees);
        assert(is_among(x, trees));
    } else {
        let k = i - before.found.len();
        lemma_caused(text, trees.last(), before.last, k);
        let d = end.found[k];
        let x = choose|x: SyntaxView| #[trigger]
            is_below(x, trees.last()) && is_alarm(x) && !on_comment_line(text, x.start_byte) && d
                == alarm(text, x);
        lemma_among(x, trees);
        assert(is_among(x, trees));
    }
}

/// The number literals of a tree are the texts of its number nodes, and nothing
/// else.
pub proof fn law_numbers(text: Seq<char>, tree: SyntaxView, number: Seq<char>)
    ensures
        numbers_in(text, tree).contains(number) <==> exists|x: SyntaxView| #[trigger]
            is_below(x, tree) && x.kind == "number"@ && node_text(x, text) == number,
    decreases tree,
{
    let own: Seq<Seq<char>> = if tree.kind == "number"@ {
        seq![node_text(tree, text)]
    } else {
        seq![]
    };
    let below = numbers_among(text, tree.children);
    let all = own + below;
    lemma_numbers_among(text, tree.children, number);
    if all.contains(number) {
        let k = choose|k: int| 0 <= k < all.len() && all[k] == number;
        if k < own.len() {
            assert(is_below(tree, tree));
        } else {
            assert(below[k - own.len()] == number);
            let x = choose|x: SyntaxView| #[trigger]
                is_among(x, tree.children) && x.kind == "number"@ && node_text(x, text) == number;
            lemma_below(x, tree);
        }
    }
    if exists|x: SyntaxView| #[trigger]
        is_below(x, tree) && x.kind == "number"@ && node_text(x, text) == number {
        let x = choose|x: SyntaxView| #[trigger]
            is_below(x, tree) && x.kind == "number"@ && node_text(x, text) == number;
        lemma_below(x, tree);
        if x == tree {
            assert(all[0] == number);
        } else {
            assert(is_among(x, tree.children));
            let k = choose|k: int| 0 <= k < below.len() && below[k] == number;
            assert(all[own.len() + k] == number);
        }
    }
}

proof fn lemma_numbers_among(text: Seq<char>, trees: Seq<SyntaxView>, number: Seq<char>)
    ensures
        numbers_among(text, trees).contains(number) <==> exists|x: SyntaxView| #[trigger]
            is_among(x, trees) && x.kind == "number"@ && node_text(x, text) == number,
    decreases trees,
{
    if trees.len() > 0 {
        let init = trees.drop_last();
        let last = trees.last();
        lemma_numbers_among(text, init, number);
        law_numbers(text, last, number);
        let a = numbers_among(text, init);
        let b = numbers_in(text, last);
        if (a + b).contains(number) {
            let k = choose|k: int| 0 <= k < (a + b).len() && (a + b)[k] == number;
            if k < a.len() {
                assert(a[k] == number);
                let x = choose|x: SyntaxView| #[trigger]
                    is_among(x, init) && x.kind == "number"@ && node_text(x, text) == number;
                lemma_among(x, trees);
            } else {
                assert(b[k - a.len()] == number);
                let x = choose|x: SyntaxView| #[trigger]
                    is_below(x, last) && x.kind == "number"@ && node_text(x, text) == number;
                lemma_among(x, trees);
            }
        }
        if exists|x: SyntaxView| #[trigger]
            is_among(x, trees) && x.kind == "number"@ && node_text(x, text) == number {
            let x = choose|x: SyntaxView| #[trigger]
                is_among(x, trees) && x.kind == "number"@ && node_text(x, text) == number;
            lemma_among(x, trees);
            if is_below(x, last) {
                let k = choose|k: int| 0 <= k < b.len() && b[k] == number;
                assert((a + b)[a.len() + k] == number);
            } else {
                let k = choose|k: int| 0 <= k < a.len() && a[k] == number;
                assert((a + b)[k] == number);
            }
        }
    } else {
        assert forall|x: SyntaxView| !#[trigger] is_among(x, trees) by {}
    }
}

} // verus!
