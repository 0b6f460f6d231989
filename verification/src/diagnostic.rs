//! Diagnostics: what a finding is, and how one is put down.

use vstd::prelude::*;

use crate::position::{byte_range, is_span, range_of, Range};
use crate::syntax::{SyntaxNode, SyntaxView};

verus! {

/// How bad a finding is.
#[derive(Clone, Copy, Debug, PartialEq, Eq, Structural)]
pub enum Severity {
    Error,
    Warning,
}

/// A finding.
#[derive(Debug)]
pub struct Diagnostic {
    pub range: Range,
    pub severity: Severity,
    pub message: String,
}

/// What a [`Diagnostic`] says.
#[verifier::ext_equal]
pub struct DiagnosticView {
    pub range: Range,
    pub severity: Severity,
    pub message: Seq<char>,
}

impl View for Diagnostic {
    type V = DiagnosticView;

    open spec fn view(&self) -> DiagnosticView {
        DiagnosticView { range: self.range, severity: self.severity, message: self.message@ }
    }
}

/// What a list of findings says.
pub open spec fn diagnostic_views(v: Seq<Diagnostic>) -> Seq<DiagnosticView> {
    Seq::new(v.len(), |i: int| v[i]@)
}

/// One more finding says one thing more.
pub proof fn lemma_views_push(v: Seq<Diagnostic>, d: Diagnostic)
    ensures
        diagnostic_views(v.push(d)) == diagnostic_views(v).push(d@),
{
    assert(diagnostic_views(v.push(d)) =~= diagnostic_views(v).push(d@));
}

/// The range of a node.
pub open spec fn node_range(node: SyntaxView, text: Seq<char>) -> Range {
    byte_range(text, node.start_byte, node.end_byte)
}

/// Nothing, or one finding.
pub open spec fn finding(
    found: bool,
    range: Range,
    severity: Severity,
    message: Seq<char>,
) -> Seq<DiagnosticView> {
    if found {
        seq![DiagnosticView { range, severity, message }]
    } else {
        seq![]
    }
}

/// The range of a node that covers characters of the text.
pub fn range_of_node(node: &SyntaxNode, text: &[char]) -> (res: Range)
    requires
        is_span(text@, node@.start_byte, node@.end_byte),
    ensures
        res == node_range(node@, text@),
{
    range_of(text, node.start_byte, node.end_byte)
}

/// Puts down a finding.
pub fn report(out: &mut Vec<Diagnostic>, range: Range, severity: Severity, message: String)
    ensures
        diagnostic_views(final(out)@) == diagnostic_views(old(out)@) + finding(
            true,
            range,
            severity,
            message@,
        ),
{
    let d = Diagnostic { range, severity, message };
    proof {
        lemma_views_push(out@, d);
        assert(diagnostic_views(out@).push(d@) =~= diagnostic_views(out@) + seq![d@]);
    }
    out.push(d);
}

/// No finding adds nothing.
pub proof fn lemma_nothing_added(v: Seq<DiagnosticView>)
    ensures
        v + Seq::<DiagnosticView>::empty() == v,
{
    assert(v + Seq::<DiagnosticView>::empty() =~= v);
}

} // verus!
