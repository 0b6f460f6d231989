//! Laws of the syntax findings: which errors of a tree are reported, in which
//! order, and which are silenced.

use vstd::prelude::*;

use crate::analyze::{
    alarm, error_message, is_alarm, law_comment_line, on_comment_line, sweep_own, sweep_tree,
    sweep_trees, syntax_findings, Sweep,
};
use crate::diagnostic::DiagnosticView;
use crate::position::is_span;
use crate::syntax::{fits, lemma_child_fits, SyntaxView};

verus! {

/// The errors of a tree, from the top down and from left to right.
pub open spec fn alarms_in(tree: SyntaxView) -> Seq<SyntaxView>
    decreases tree,
{
    (if is_alarm(tree) {
        seq![tree]
    } else {
        seq![]
    }) + alarms_among(tree.children)
}

/// The errors of a list of trees.
pub open spec fn alarms_among(trees: Seq<SyntaxView>) -> Seq<SyntaxView>
    decreases trees,
{
    if trees.len() == 0 {
        seq![]
    } else {
        alarms_among(trees.drop_last()) + alarms_in(trees.last())
    }
}

/// Whether error `j` silences error `k`: it is silent itself, the last silent
/// one before `k`, and it ends on the row on which `k` starts.
pub open spec fn silences(list: Seq<SyntaxView>, quiet: Seq<bool>, j: int, k: int) -> bool {
    &&& 0 <= j < k && quiet[j]
    &&& forall|i: int| j < i < k ==> !#[trigger] quiet[i]
    &&& list[j].end_row == list[k].start_row
}

/// Whether `quiet` marks the errors that are silent: those that start on a
/// comment line, and those that another silent one silences.
pub open spec fn is_marking(text: Seq<char>, list: Seq<SyntaxView>, quiet: Seq<bool>) -> bool {
    &&& quiet.len() == list.len()
    &&& forall|k: int|
        0 <= k < list.len() ==> (#[trigger] quiet[k] <==> on_comment_line(text, list[k].start_byte)
            || exists|j: int| silences(list, quiet, j, k))
}

/// What is reported for the errors that are not silent.
pub open spec fn reported(
    text: Seq<char>,
    list: Seq<SyntaxView>,
    quiet: Seq<bool>,
) -> Seq<DiagnosticView>
    decreases list.len(),
{
    if list.len() == 0 {
        seq![]
    } else {
        let init = reported(text, list.drop_last(), quiet.drop_last());
        if quiet.last() {
            init
        } else {
            init.push(alarm(text, list.last()))
        }
    }
}

/// The sweep over a list of nodes, what is below them left aside.
spec fn sweep_list(text: Seq<char>, list: Seq<SyntaxView>, last: Option<nat>) -> Sweep
    decreases list.len(),
{
    if list.len() == 0 {
        Sweep { found: seq![], last }
    } else {
        let init = sweep_list(text, list.drop_last(), last);
        let end = sweep_own(text, list.last(), init.last);
        Sweep { found: init.found + end.found, last: end.last }
    }
}

proof fn lemma_list_split(
    text: Seq<char>,
    a: Seq<SyntaxView>,
    b: Seq<SyntaxView>,
    last: Option<nat>,
)
    ensures
        ({
            let one = sweep_list(text, a, last);
            let two = sweep_list(text, b, one.last);
            sweep_list(text, a + b, last) == (Sweep {
                found: one.found + two.found,
                last: two.last,
            })
        }),
    decreases b.len(),
{
    let one = sweep_list(text, a, last);
    let two = sweep_list(text, b, one.last);
    if b.len() == 0 {
        assert(a + b =~= a);
        assert(one.found + two.found =~= one.found);
    } else {
        lemma_list_split(text, a, b.drop_last(), last);
        assert((a + b).drop_last() =~= a + b.drop_last());
        assert((a + b).last() == b.last());
        let mid = sweep_list(text, b.drop_last(), one.last);
        let end = sweep_own(text, b.last(), mid.last);
        assert((one.found + mid.found) + end.found =~= one.found + (mid.found + end.found));
    }
}

proof fn lemma_tree_as_list(text: Seq<char>, tree: SyntaxView, last: Option<nat>)
    ensures
        sweep_tree(text, tree, last) == sweep_list(text, alarms_in(tree), last),
    decreases tree,
{
    let own = sweep_own(text, tree, last);
    lemma_trees_as_list(text, tree.children, own.last);
    let one: Seq<SyntaxView> = if is_alarm(tree) {
        seq![tree]
    } else {
        seq![]
    };
    let below = alarms_among(tree.children);
    lemma_list_split(text, one, below, last);
    if is_alarm(tree) {
        assert(one.drop_last() =~= seq![]);
        let none = sweep_list(text, one.drop_last(), last);
        assert(none.found =~= seq![]);
        assert(none.last == last);
        assert(one.last() == tree);
        assert(none.found + own.found =~= own.found);
        assert(sweep_list(text, one, last) == own);
    } else {
        assert(sweep_list(text, one, last) == own);
    }
}

proof fn lemma_trees_as_list(text: Seq<char>, trees: Seq<SyntaxView>, last: Option<nat>)
    ensures
        sweep_trees(text, trees, last) == sweep_list(text, alarms_among(trees), last),
    decreases trees,
{
    if trees.len() > 0 {
        let init = trees.drop_last();
        lemma_trees_as_list(text, init, last);
        let before = sweep_trees(text, init, last);
        lemma_tree_as_list(text, trees.last(), before.last);
        lemma_list_split(text, alarms_among(init), alarms_in(trees.last()), last);
    }
}

/// Whether every node of a list is an error that covers characters of the text.
spec fn are_alarms(text: Seq<char>, list: Seq<SyntaxView>) -> bool {
    forall|i: int|
        0 <= i < list.len() ==> is_alarm(#[trigger] list[i]) && is_span(
            text,
            list[i].start_byte,
            list[i].end_byte,
        )
}

proof fn lemma_alarms_in(text: Seq<char>, tree: SyntaxView)
    requires
        fits(tree, text),
    ensures
        are_alarms(text, alarms_in(tree)),
    decreases tree,
{
    assert forall|i: int| 0 <= i < tree.children.len() implies fits(
        #[trigger] tree.children[i],
        text,
    ) by {
        lemma_child_fits(tree, text, i);
    }
    lemma_alarms_among(text, tree.children);
}

proof fn lemma_alarms_among(text: Seq<char>, trees: Seq<SyntaxView>)
    requires
        forall|i: int| 0 <= i < trees.len() ==> fits(#[trigger] trees[i], text),
    ensures
        are_alarms(text, alarms_among(trees)),
    decreases trees,
{
    if trees.len() > 0 {
        let init = trees.drop_last();
        assert forall|i: int| 0 <= i < init.len() implies fits(#[trigger] init[i], text) by {
            assert(init[i] == trees[i]);
        }
        assert(trees[trees.len() - 1] == trees.last());
        lemma_alarms_among(text, init);
        lemma_alarms_in(text, trees.last());
    }
}

/// Whether `last` is the row on which the last silent one of the first `n`
/// errors ends.
spec fn is_last_row(
    list: Seq<SyntaxView>,
    quiet: Seq<bool>,
    n: int,
    last: Option<nat>,
) -> bool {
    match last {
        Some(row) => exists|j: int| #[trigger] is_last_quiet(quiet, n, j) && list[j].end_row == row,
        None => forall|i: int| 0 <= i < n ==> !#[trigger] quiet[i],
    }
}

spec fn is_last_quiet(quiet: Seq<bool>, n: int, j: int) -> bool {
    0 <= j < n && quiet[j] && forall|i: int| j < i < n ==> !#[trigger] quiet[i]
}

proof fn lemma_marked(text: Seq<char>, list: Seq<SyntaxView>, quiet: Seq<bool>, n: int)
    requires
        are_alarms(text, list),
        is_marking(text, list, quiet),
        0 <= n <= list.len(),
    ensures
        sweep_list(text, list.take(n), None).found == reported(text, list.take(n), quiet.take(n)),
        is_last_row(list, quiet, n, sweep_list(text, list.take(n), None).last),
    decreases n,
{
    if n > 0 {
        let k = n - 1;
        lemma_marked(text, list, quiet, k);
        assert(list.take(n).drop_last() =~= list.take(k));
        assert(quiet.take(n).drop_last() =~= quiet.take(k));
        let node = list[k];
        assert(list.take(n).last() == node);
        assert(quiet.take(n).last() == quiet[k]);
        let before = sweep_list(text, list.take(k), None);
        law_comment_line(text, node.start_byte);
        lemma_silenced(list, quiet, k, before.last);
        let own = sweep_own(text, node, before.last);
        assert(quiet[k] <==> on_comment_line(text, node.start_byte) || exists|j: int|
            silences(list, quiet, j, k));
        if quiet[k] {
            assert(before.found + own.found =~= before.found);
            assert(is_last_quiet(quiet, n, k));
        } else {
            assert(error_message(node.is_missing) =~= alarm(text, node).message) by {
                reveal_strlit("");
            }
            assert(own.found =~= seq![alarm(text, node)]);
            assert(before.found + own.found =~= before.found.push(alarm(text, node)));
            match before.last {
                Some(row) => {
                    let j = choose|j: int| #[trigger]
                        is_last_quiet(quiet, k, j) && list[j].end_row == row;
                    assert(is_last_quiet(quiet, n, j));
                },
                None => {},
            }
        }
    }
}

proof fn lemma_silenced(list: Seq<SyntaxView>, quiet: Seq<bool>, k: int, last: Option<nat>)
    requires
        is_last_row(list, quiet, k, last),
        0 <= k < list.len(),
    ensures
        last == Some(list[k].start_row) <==> exists|j: int| silences(list, quiet, j, k),
{
    match last {
        Some(row) => {
            let j = choose|j: int| #[trigger]
                is_last_quiet(quiet, k, j) && list[j].end_row == row;
            if row == list[k].start_row {
                assert(silences(list, quiet, j, k));
            }
            if exists|i: int| silences(list, quiet, i, k) {
                let i = choose|i: int| silences(list, quiet, i, k);
                if i < j {
                    assert(!quiet[j]);
                } else if j < i {
                    assert(!quiet[i]);
                }
            }
        },
        None => {},
    }
}

/// Exactly those errors of a document are reported that are not silent, each
/// once, from the top down and from left to right. Silent is an error that
/// starts on a comment line, and one that starts on the row on which the last
/// silent one before it ends.
pub proof fn law_reported_errors(text: Seq<char>, tree: SyntaxView, quiet: Seq<bool>)
    requires
        fits(tree, text),
        is_marking(text, alarms_in(tree), quiet),
    ensures
        syntax_findings(text, tree) == reported(text, alarms_in(tree), quiet),
{
    let list = alarms_in(tree);
    let n = list.len() as int;
    lemma_alarms_in(text, tree);
    lemma_tree_as_list(text, tree, None);
    lemma_marked(text, list, quiet, n);
    assert(list.take(n) =~= list);
    assert(quiet.take(n) =~= quiet);
}

/// For every list of errors it is settled which are silent.
pub proof fn law_silence_is_settled(text: Seq<char>, list: Seq<SyntaxView>) -> (quiet: Seq<bool>)
    ensures
        is_marking(text, list, quiet),
    decreases list.len(),
{
    if list.len() == 0 {
        seq![]
    } else {
        let init = list.drop_last();
        let before = law_silence_is_settled(text, init);
        let n = init.len() as int;
        let own = on_comment_line(text, list[n].start_byte) || exists|j: int|
            silences(list, before, j, n);
        let quiet = before.push(own);
        assert forall|k: int| 0 <= k < list.len() implies (#[trigger] quiet[k] <==> on_comment_line(
            text,
            list[k].start_byte,
        ) || exists|j: int| silences(list, quiet, j, k)) by {
            if k < n {
                assert(before[k] <==> on_comment_line(text, init[k].start_byte) || exists|j: int|
                    silences(init, before, j, k));
                assert(quiet[k] == before[k]);
                assert(init[k] == list[k]);
                lemma_same_silence(init, before, list, quiet, k);
            } else {
                assert(quiet[k] == own);
                lemma_same_silence(list, before, list, quiet, k);
            }
        }
        quiet
    }
}

/// Whether an error is silenced depends on it and on those before it alone.
proof fn lemma_same_silence(
    a: Seq<SyntaxView>,
    x: Seq<bool>,
    b: Seq<SyntaxView>,
    y: Seq<bool>,
    k: int,
)
    requires
        0 <= k < a.len() && k < b.len(),
        k <= x.len() && k <= y.len(),
        forall|i: int| 0 <= i <= k ==> #[trigger] a[i] == b[i],
        forall|i: int| 0 <= i < k ==> #[trigger] x[i] == y[i],
    ensures
        (exists|j: int| silences(a, x, j, k)) <==> (exists|j: int| silences(b, y, j, k)),
{
    if exists|j: int| silences(a, x, j, k) {
        let j = choose|j: int| silences(a, x, j, k);
        assert(x[j] == y[j] && a[j] == b[j] && a[k] == b[k]);
        assert forall|i: int| j < i < k implies !#[trigger] y[i] by {
            assert(x[i] == y[i]);
        }
        assert(silences(b, y, j, k));
    }
    if exists|j: int| silences(b, y, j, k) {
        let j = choose|j: int| silences(b, y, j, k);
        assert(x[j] == y[j] && a[j] == b[j] && a[k] == b[k]);
        assert forall|i: int| j < i < k implies !#[trigger] x[i] by {
            assert(x[i] == y[i]);
        }
        assert(silences(a, x, j, k));
    }
}

} // verus!
