//! Syntax trees as plain data, and the questions that analysis asks of them.

use vstd::prelude::*;

use crate::position::{find_boundary, is_span, slice_at, slice_bytes};
use crate::text::same_str;

verus! {

/// One node of a syntax tree.
#[derive(Debug)]
pub struct SyntaxNode {
    pub kind: String,
    pub start_byte: usize,
    pub end_byte: usize,
    pub start_row: usize,
    pub end_row: usize,
    pub is_error: bool,
    pub is_missing: bool,
    pub children: Vec<SyntaxNode>,
}

/// What a [`SyntaxNode`] says.
#[verifier::ext_equal]
pub struct SyntaxView {
    pub kind: Seq<char>,
    pub start_byte: nat,
    pub end_byte: nat,
    pub start_row: nat,
    pub end_row: nat,
    pub is_error: bool,
    pub is_missing: bool,
    pub children: Seq<SyntaxView>,
}

impl SyntaxNode {
    /// What the node says.
    pub open spec fn model(self) -> SyntaxView
        decreases self,
    {
        SyntaxView {
            kind: self.kind@,
            start_byte: self.start_byte as nat,
            end_byte: self.end_byte as nat,
            start_row: self.start_row as nat,
            end_row: self.end_row as nat,
            is_error: self.is_error,
            is_missing: self.is_missing,
            children: Seq::new(
                self.children@.len(),
                |i: int|
                    if 0 <= i < self.children@.len() {
                        self.children@[i].model()
                    } else {
                        arbitrary()
                    },
            ),
        }
    }
}

impl View for SyntaxNode {
    type V = SyntaxView;

    open spec fn view(&self) -> SyntaxView {
        self.model()
    }
}

/// Whether every node of the tree covers characters of `text`, on rows that are
/// counted in 32 bits.
pub open spec fn fits(node: SyntaxView, text: Seq<char>) -> bool
    decreases node,
{
    &&& is_span(text, node.start_byte, node.end_byte)
    &&& node.start_row < u32::MAX
    &&& forall|i: int|
        0 <= i < node.children.len() ==> fits(#[trigger] node.children[i], text)
}

/// The characters that a node covers.
pub open spec fn node_text(node: SyntaxView, text: Seq<char>) -> Seq<char> {
    slice_at(text, node.start_byte, node.end_byte)
}

/// How many nodes a tree has.
pub open spec fn node_count(node: SyntaxView) -> nat
    decreases node,
{
    1 + nodes_count(node.children)
}

/// How many nodes a list of trees has.
pub open spec fn nodes_count(nodes: Seq<SyntaxView>) -> nat
    decreases nodes,
{
    if nodes.len() == 0 {
        0
    } else {
        nodes_count(nodes.drop_last()) + node_count(nodes.last())
    }
}

/// The nodes of two lists together are as many as those of each.
pub proof fn lemma_nodes_count(a: Seq<SyntaxView>, b: Seq<SyntaxView>)
    ensures
        nodes_count(a + b) == nodes_count(a) + nodes_count(b),
    decreases b.len(),
{
    if b.len() == 0 {
        assert(a + b =~= a);
    } else {
        lemma_nodes_count(a, b.drop_last());
        assert((a + b).drop_last() =~= a + b.drop_last());
    }
}

/// The first identifier of a tree, from the top down and from left to right.
pub open spec fn first_identifier(node: SyntaxView) -> Option<SyntaxView>
    decreases node,
{
    if node.kind == "identifier"@ {
        Some(node)
    } else {
        first_identifier_among(node.children)
    }
}

/// The first identifier of a list of trees.
pub open spec fn first_identifier_among(nodes: Seq<SyntaxView>) -> Option<SyntaxView>
    decreases nodes,
{
    if nodes.len() == 0 {
        None
    } else {
        match first_identifier(nodes[0]) {
            Some(found) => Some(found),
            None => first_identifier_among(nodes.skip(1)),
        }
    }
}

/// The nodes of a fitting tree cover characters of the text.
pub proof fn lemma_child_fits(node: SyntaxView, text: Seq<char>, i: int)
    requires
        fits(node, text),
        0 <= i < node.children.len(),
    ensures
        fits(node.children[i], text),
        is_span(text, node.children[i].start_byte, node.children[i].end_byte),
        node.children[i].start_row < u32::MAX,
{
    reveal_with_fuel(fits, 2);
}

/// The first identifier of a fitting tree fits, and is an identifier.
pub proof fn lemma_first_identifier(node: SyntaxView, text: Seq<char>)
    requires
        fits(node, text),
    ensures
        first_identifier(node) matches Some(found) ==> found.kind == "identifier"@ && fits(
            found,
            text,
        ) && is_span(text, found.start_byte, found.end_byte),
    decreases node,
{
    if node.kind != "identifier"@ {
        lemma_first_identifier_among(node.children, text);
    }
}

proof fn lemma_first_identifier_among(nodes: Seq<SyntaxView>, text: Seq<char>)
    requires
        forall|i: int| 0 <= i < nodes.len() ==> fits(#[trigger] nodes[i], text),
    ensures
        first_identifier_among(nodes) matches Some(found) ==> found.kind == "identifier"@ && fits(
            found,
            text,
        ) && is_span(text, found.start_byte, found.end_byte),
    decreases nodes,
{
    if nodes.len() > 0 {
        assert(fits(nodes[0], text));
        lemma_first_identifier(nodes[0], text);
        assert forall|i: int| 0 <= i < nodes.skip(1).len() implies fits(
            #[trigger] nodes.skip(1)[i],
            text,
        ) by {
            assert(nodes.skip(1)[i] == nodes[i + 1]);
        }
        lemma_first_identifier_among(nodes.skip(1), text);
    }
}

/// Whether the node is of this kind.
pub fn is_kind(node: &SyntaxNode, kind: &str) -> (res: bool)
    ensures
        res == (node@.kind == kind@),
{
    same_str(node.kind.as_str(), kind)
}

/// Whether every node of the tree covers characters of `text`, on rows that are
/// counted in 32 bits.
pub fn tree_fits(node: &SyntaxNode, text: &[char]) -> (res: bool)
    ensures
        res == fits(node@, text@),
    decreases node,
{
    if node.start_row >= u32::MAX as usize || node.start_byte > node.end_byte || find_boundary(text, node.start_byte).is_none()
        || find_boundary(text, node.end_byte).is_none() {
        return false;
    }
    let mut i: usize = 0;
    while i < node.children.len()
        invariant
            i <= node.children@.len(),
            is_span(text@, node@.start_byte, node@.end_byte),
            node@.start_row < u32::MAX,
            forall|j: int| 0 <= j < i ==> fits(#[trigger] node@.children[j], text@),
        decreases node.children@.len() - i,
    {
        assert(node@.children[i as int] == node.children@[i as int]@);
        if !tree_fits(&node.children[i], text) {
            return false;
        }
        i += 1;
    }
    true
}

/// The characters that a node covers.
pub fn text_of<'a>(node: &SyntaxNode, text: &'a [char]) -> (res: &'a [char])
    requires
        is_span(text@, node@.start_byte, node@.end_byte),
    ensures
        res@ == node_text(node@, text@),
{
    slice_bytes(text, node.start_byte, node.end_byte)
}

/// The first identifier of a tree, from the top down and from left to right.
pub fn find_identifier(node: &SyntaxNode) -> (res: Option<&SyntaxNode>)
    ensures
        match res {
            Some(found) => first_identifier(node@) == Some(found@),
            None => first_identifier(node@) is None,
        },
    decreases node,
{
    if is_kind(node, "identifier") {
        return Some(node);
    }
    let mut i: usize = 0;
    assert(node@.children.skip(0) =~= node@.children);
    while i < node.children.len()
        invariant
            i <= node.children@.len(),
            first_identifier(node@) == first_identifier_among(node@.children.skip(i as int)),
        decreases node.children@.len() - i,
    {
        assert(node@.children[i as int] == node.children@[i as int]@);
        assert(node@.children.skip(i as int).skip(1) =~= node@.children.skip(i + 1));
        match find_identifier(&node.children[i]) {
            Some(found) => {
                return Some(found);
            },
            None => {},
        }
        i += 1;
    }
    None
}

/// The nodes of one kind.
pub open spec fn of_kind(nodes: Seq<SyntaxView>, kind: Seq<char>) -> Seq<SyntaxView>
    decreases nodes.len(),
{
    if nodes.len() == 0 {
        seq![]
    } else if nodes[0].kind == kind {
        seq![nodes[0]] + of_kind(nodes.skip(1), kind)
    } else {
        of_kind(nodes.skip(1), kind)
    }
}

/// The `n`th child of one kind, counted from zero, among the children from
/// `from` on.
pub fn nth_of_kind<'a>(node: &'a SyntaxNode, from: usize, kind: &str, n: usize) -> (res: Option<
    &'a SyntaxNode,
>)
    requires
        from <= node.children@.len(),
    ensures
        match res {
            Some(found) => {
                let all = of_kind(node@.children.skip(from as int), kind@);
                n < all.len() && found@ == all[n as int] && exists|i: int|
                    0 <= i < node@.children.len() && #[trigger] node@.children[i] == found@
            },
            None => of_kind(node@.children.skip(from as int), kind@).len() <= n,
        },
{
    let ghost all = of_kind(node@.children.skip(from as int), kind@);
    let mut i: usize = from;
    let mut seen: usize = 0;
    assert(all.skip(0) =~= all);
    while i < node.children.len()
        invariant
            from <= i <= node.children@.len(),
            seen <= i,
            seen <= n,
            all == of_kind(node@.children.skip(from as int), kind@),
            seen <= all.len(),
            all.skip(seen as int) == of_kind(node@.children.skip(i as int), kind@),
        decreases node.children@.len() - i,
    {
        let ghost rest = node@.children.skip(i as int);
        proof {
            assert(node@.children[i as int] == node.children@[i as int]@);
            assert(rest[0] == node.children@[i as int]@);
            assert(rest.skip(1) =~= node@.children.skip(i + 1));
        }
        if is_kind(&node.children[i], kind) {
            assert(of_kind(rest, kind@) == seq![rest[0]] + of_kind(rest.skip(1), kind@));
            assert(all.skip(seen as int)[0] == all[seen as int]);
            if seen == n {
                return Some(&node.children[i]);
            }
            assert(all.skip(seen as int).skip(1) =~= all.skip(seen + 1));
            assert(of_kind(rest, kind@).skip(1) =~= of_kind(rest.skip(1), kind@));
            seen += 1;
        }
        i += 1;
    }
    assert(node@.children.skip(i as int) =~= Seq::<SyntaxView>::empty());
    None
}

/// Whether a node belongs to a tree.
pub open spec fn is_below(node: SyntaxView, tree: SyntaxView) -> bool
    decreases tree,
{
    node == tree || exists|i: int|
        0 <= i < tree.children.len() && is_below(node, #[trigger] tree.children[i])
}

/// Whether a node belongs to one of the trees.
pub open spec fn is_among(node: SyntaxView, trees: Seq<SyntaxView>) -> bool {
    exists|i: int| 0 <= i < trees.len() && is_below(node, #[trigger] trees[i])
}

/// A node of a tree is the top of the tree, or belongs to what is below it.
pub proof fn lemma_below(node: SyntaxView, tree: SyntaxView)
    ensures
        is_below(node, tree) <==> node == tree || is_among(node, tree.children),
{
    if is_below(node, tree) && node != tree {
        let i = choose|i: int|
            0 <= i < tree.children.len() && is_below(node, #[trigger] tree.children[i]);
        assert(is_below(node, tree.children[i]));
    }
    if is_among(node, tree.children) {
        let i = choose|i: int|
            0 <= i < tree.children.len() && is_below(node, #[trigger] tree.children[i]);
        assert(is_below(node, tree.children[i]));
    }
}

/// A node of a list of trees belongs to the last, or to the others.
pub proof fn lemma_among(node: SyntaxView, trees: Seq<SyntaxView>)
    requires
        trees.len() > 0,
    ensures
        is_among(node, trees) <==> is_among(node, trees.drop_last()) || is_below(
            node,
            trees.last(),
        ),
{
    let init = trees.drop_last();
    if is_among(node, trees) {
        let i = choose|i: int| 0 <= i < trees.len() && is_below(node, #[trigger] trees[i]);
        if i < init.len() {
            assert(init[i] == trees[i]);
        }
    }
    if is_among(node, init) {
        let i = choose|i: int| 0 <= i < init.len() && is_below(node, #[trigger] init[i]);
        assert(trees[i] == init[i]);
    }
    assert(trees[trees.len() - 1] == trees.last());
}

/// Every node of a tree that fits covers characters of the text.
pub proof fn lemma_below_fits(node: SyntaxView, tree: SyntaxView, text: Seq<char>)
    requires
        fits(tree, text),
        is_below(node, tree),
    ensures
        is_span(text, node.start_byte, node.end_byte),
    decreases tree,
{
    if node != tree {
        let i = choose|i: int|
            0 <= i < tree.children.len() && is_below(node, #[trigger] tree.children[i]);
        lemma_child_fits(tree, text, i);
        lemma_below_fits(node, tree.children[i], text);
    }
}

/// A tree has a first identifier if and only if it has any.
pub proof fn law_first_identifier_is_there(tree: SyntaxView)
    ensures
        first_identifier(tree) is None <==> forall|x: SyntaxView| #[trigger]
            is_below(x, tree) ==> x.kind != "identifier"@,
        first_identifier(tree) matches Some(x) ==> is_below(x, tree) && x.kind == "identifier"@,
    decreases tree,
{
    if tree.kind == "identifier"@ {
        assert(is_below(tree, tree));
    } else {
        lemma_first_among_is_there(tree.children);
        match first_identifier(tree) {
            Some(x) => {
                lemma_below(x, tree);
            },
            None => {
                assert forall|x: SyntaxView| #[trigger] is_below(x, tree) implies x.kind
                    != "identifier"@ by {
                    lemma_below(x, tree);
                }
            },
        }
    }
}

proof fn lemma_first_among_is_there(trees: Seq<SyntaxView>)
    ensures
        first_identifier_among(trees) is None ==> forall|x: SyntaxView| #[trigger]
            is_among(x, trees) ==> x.kind != "identifier"@,
        first_identifier_among(trees) matches Some(x) ==> is_among(x, trees) && x.kind
            == "identifier"@,
    decreases trees,
{
    if trees.len() > 0 {
        let rest = trees.skip(1);
        law_first_identifier_is_there(trees[0]);
        lemma_first_among_is_there(rest);
        match first_identifier_among(trees) {
            Some(x) => {
                if first_identifier(trees[0]) is None {
                    let i = choose|i: int| 0 <= i < rest.len() && is_below(x, #[trigger] rest[i]);
                    assert(trees[i + 1] == rest[i]);
                    assert(is_below(x, trees[i + 1]));
                }
            },
            None => {
                assert forall|x: SyntaxView| #[trigger] is_among(x, trees) implies x.kind
                    != "identifier"@ by {
                    let i = choose|i: int|
                        0 <= i < trees.len() && is_below(x, #[trigger] trees[i]);
                    if i > 0 {
                        assert(rest[i - 1] == trees[i]);
                        assert(is_among(x, rest));
                    }
                }
            },
        }
    }
}

/// An identifier is its own first identifier. That of any other node is that of
/// the first of its children that has one.
pub proof fn law_first_identifier(tree: SyntaxView, i: int)
    ensures
        tree.kind == "identifier"@ ==> first_identifier(tree) == Some(tree),
        tree.kind != "identifier"@ && 0 <= i < tree.children.len() && first_identifier(
            tree.children[i],
        ) is Some && (forall|j: int|
            0 <= j < i ==> first_identifier(#[trigger] tree.children[j]) is None)
            ==> first_identifier(tree) == first_identifier(tree.children[i]),
{
    if 0 <= i < tree.children.len() && first_identifier(tree.children[i]) is Some && (forall|j: int|
        0 <= j < i ==> first_identifier(#[trigger] tree.children[j]) is None) {
        lemma_first_among(tree.children, i);
    }
}

proof fn lemma_first_among(trees: Seq<SyntaxView>, i: int)
    requires
        0 <= i < trees.len(),
        first_identifier(trees[i]) is Some,
        forall|j: int| 0 <= j < i ==> first_identifier(#[trigger] trees[j]) is None,
    ensures
        first_identifier_among(trees) == first_identifier(trees[i]),
    decreases i,
{
    if i > 0 {
        let rest = trees.skip(1);
        assert(rest[i - 1] == trees[i]);
        assert forall|j: int| 0 <= j < i - 1 implies first_identifier(
            #[trigger] rest[j],
        ) is None by {
            assert(rest[j] == trees[j + 1]);
        }
        lemma_first_among(rest, i - 1);
        assert(first_identifier(trees[0]) is None);
    }
}

} // verus!
