//! Reading syntax trees: what the parser makes of a text, as plain data.
//!
//! The parser is tree-sitter; the grammar is handed in by the caller. Every
//! item here that calls it states what is taken on trust.

use vstd::prelude::*;

use crate::names::views;
use crate::position::{byte_len, find_boundary, is_span};
use crate::syntax::{fits, nth_of_kind, of_kind, tree_fits, SyntaxNode, SyntaxView};
use crate::text::{chars_of, same_str};

verus! {

/// A grammar.
#[verifier::external_type_specification]
#[verifier::external_body]
pub struct ExLanguage(tree_sitter::Language);

/// A parsed text.
#[verifier::external_type_specification]
#[verifier::external_body]
pub struct ExTree(tree_sitter::Tree);

/// A place in a parsed text.
#[verifier::external_type_specification]
#[verifier::external_body]
pub struct ExNode<'tree>(tree_sitter::Node<'tree>);

/// What `Parser::parse` makes of a text under a grammar.
pub uninterp spec fn parsed(
    language: tree_sitter::Language,
    text: Seq<char>,
) -> Option<tree_sitter::Tree>;

/// What `Tree::root_node` gives.
pub uninterp spec fn root_of(tree: tree_sitter::Tree) -> tree_sitter::Node<'static>;

/// What `Node::descendant_for_byte_range` gives.
pub uninterp spec fn descendant_of(
    node: tree_sitter::Node<'_>,
    start: nat,
    end: nat,
) -> Option<tree_sitter::Node<'static>>;

/// The tree below a node, the node included.
pub uninterp spec fn node_syntax(node: tree_sitter::Node<'_>) -> SyntaxView;

/// The trees below the nodes above a node, the nearest first.
pub uninterp spec fn node_ancestors(node: tree_sitter::Node<'_>) -> Seq<SyntaxView>;

/// `Parser::new`, `Parser::set_language` and `Parser::parse`, without an
/// earlier tree: the tree depends on the grammar and the text alone. There is
/// none where the grammar is of a version that the parser does not take.
/// Offsets are of 32 bits, so a longer text is left out.
#[verifier::external_body]
fn parse(language: &tree_sitter::Language, text: &str) -> (res: Option<tree_sitter::Tree>)
    requires
        byte_len(text@) <= u32::MAX,
    ensures
        res == parsed(*language, text@),
{
    let mut parser = tree_sitter::Parser::new();
    parser.set_language(language).ok()?;
    parser.parse(text, None)
}

/// `Tree::root_node`: the node at the top of the tree.
#[verifier::external_body]
fn root_node(tree: &tree_sitter::Tree) -> (res: tree_sitter::Node<'_>)
    ensures
        res == root_of(*tree),
{
    tree.root_node()
}

/// `Node::descendant_for_byte_range`: the smallest node below `node` that spans
/// the bytes. Offsets are of 32 bits.
#[verifier::external_body]
fn descendant_for_byte_range<'tree>(
    node: tree_sitter::Node<'tree>,
    start: usize,
    end: usize,
) -> (res: Option<tree_sitter::Node<'tree>>)
    requires
        start <= u32::MAX,
        end <= u32::MAX,
    ensures
        res == descendant_of(node, start as nat, end as nat),
{
    node.descendant_for_byte_range(start, end)
}

/// `Node::kind`: the kind of the node.
#[verifier::external_body]
fn kind(node: tree_sitter::Node<'_>) -> (res: String)
    ensures
        res@ == node_syntax(node).kind,
{
    node.kind().to_owned()
}

/// `Node::start_byte`: the byte offset at which the node starts.
#[verifier::external_body]
fn start_byte(node: tree_sitter::Node<'_>) -> (res: usize)
    ensures
        res == node_syntax(node).start_byte,
{
    node.start_byte()
}

/// `Node::end_byte`: the byte offset at which the node ends.
#[verifier::external_body]
fn end_byte(node: tree_sitter::Node<'_>) -> (res: usize)
    ensures
        res == node_syntax(node).end_byte,
{
    node.end_byte()
}

/// `Node::start_position`: the row on which the node starts.
#[verifier::external_body]
fn start_row(node: tree_sitter::Node<'_>) -> (res: usize)
    ensures
        res == node_syntax(node).start_row,
{
    node.start_position().row
}

/// `Node::end_position`: the row on which the node ends.
#[verifier::external_body]
fn end_row(node: tree_sitter::Node<'_>) -> (res: usize)
    ensures
        res == node_syntax(node).end_row,
{
    node.end_position().row
}

/// `Node::is_error`: whether the node stands for a syntax error.
#[verifier::external_body]
fn is_error(node: tree_sitter::Node<'_>) -> (res: bool)
    ensures
        res == node_syntax(node).is_error,
{
    node.is_error()
}

/// `Node::is_missing`: whether the parser put the node in to recover from an
/// error.
#[verifier::external_body]
fn is_missing(node: tree_sitter::Node<'_>) -> (res: bool)
    ensures
        res == node_syntax(node).is_missing,
{
    node.is_missing()
}

/// `Node::child_count`: how many children the node has, counted in 32 bits.
#[verifier::external_body]
fn child_count(node: tree_sitter::Node<'_>) -> (res: usize)
    ensures
        res == node_syntax(node).children.len(),
        res <= u32::MAX,
{
    node.child_count()
}

/// `Node::child`: the child at an index, where there is one.
#[verifier::external_body]
fn child<'tree>(node: tree_sitter::Node<'tree>, i: usize) -> (res: Option<tree_sitter::Node<'tree>>)
    requires
        i <= u32::MAX,
    ensures
        res is Some <==> i < node_syntax(node).children.len(),
        res matches Some(c) ==> node_syntax(c) == node_syntax(node).children[i as int],
{
    node.child(i)
}

/// `Node::parent`: the node right above, which the top node has not.
#[verifier::external_body]
fn parent(node: tree_sitter::Node<'_>) -> (res: Option<tree_sitter::Node<'_>>)
    ensures
        res is Some <==> node_ancestors(node).len() > 0,
        res matches Some(p) ==> node_ancestors(node).first() == node_syntax(p),
        res matches Some(p) ==> node_ancestors(node).drop_first() == node_ancestors(p),
{
    node.parent()
}

/// The syntax tree of `text`: the one that the parser gives, as long as all of
/// its nodes cover characters of the text.
pub open spec fn syntax_of(language: tree_sitter::Language, text: Seq<char>) -> Option<SyntaxView> {
    match parsed(language, text) {
        Some(tree) => {
            let root = node_syntax(root_of(tree));
            if fits(root, text) {
                Some(root)
            } else {
                None
            }
        },
        None => None,
    }
}

/// The node under a place of the text: its kind, what it covers, the kinds of
/// the nodes above it, the nearest first, and whether it is the class of an
/// object declaration.
#[derive(Debug)]
pub struct Focus {
    pub kind: String,
    pub start_byte: usize,
    pub end_byte: usize,
    pub ancestors: Vec<String>,
    pub is_class: bool,
}

/// What a [`Focus`] says.
#[verifier::ext_equal]
pub struct FocusView {
    pub kind: Seq<char>,
    pub start_byte: nat,
    pub end_byte: nat,
    pub ancestors: Seq<Seq<char>>,
    pub is_class: bool,
}

impl View for Focus {
    type V = FocusView;

    open spec fn view(&self) -> FocusView {
        FocusView {
            kind: self.kind@,
            start_byte: self.start_byte as nat,
            end_byte: self.end_byte as nat,
            ancestors: views(self.ancestors@),
            is_class: self.is_class,
        }
    }
}

/// The kinds of nodes.
pub open spec fn kinds(nodes: Seq<SyntaxView>) -> Seq<Seq<char>> {
    Seq::new(nodes.len(), |i: int| nodes[i].kind)
}

/// Whether a node is the class of the object declaration right above it: the
/// second identifier among the children of the declaration.
pub open spec fn is_class_below(node: SyntaxView, above: Seq<SyntaxView>) -> bool {
    &&& node.kind == "identifier"@
    &&& above.len() > 0 && above.first().kind == "object_decl"@
    &&& {
        let ids = of_kind(above.first().children, "identifier"@);
        ids.len() > 1 && ids[1].start_byte == node.start_byte && ids[1].end_byte == node.end_byte
    }
}

/// The node under the byte offset `byte` of `text`: the one that the parser
/// gives, as long as it covers characters of the text.
pub open spec fn focus_of(
    language: tree_sitter::Language,
    text: Seq<char>,
    byte: nat,
) -> Option<FocusView> {
    match parsed(language, text) {
        Some(tree) => match descendant_of(root_of(tree), byte, byte) {
            Some(node) => {
                let found = node_syntax(node);
                if is_span(text, found.start_byte, found.end_byte) {
                    Some(
                        FocusView {
                            kind: found.kind,
                            start_byte: found.start_byte,
                            end_byte: found.end_byte,
                            ancestors: kinds(node_ancestors(node)),
                            is_class: is_class_below(found, node_ancestors(node)),
                        },
                    )
                } else {
                    None
                }
            },
            None => None,
        },
        None => None,
    }
}

fn read_node(node: tree_sitter::Node<'_>) -> (res: SyntaxNode)
    ensures
        res@ == node_syntax(node),
    decreases node_syntax(node),
{
    let count = child_count(node);
    let mut children: Vec<SyntaxNode> = Vec::new();
    let mut i: usize = 0;
    while i < count
        invariant
            i <= count <= u32::MAX,
            count == node_syntax(node).children.len(),
            children@.len() == i,
            forall|j: int|
                0 <= j < i ==> (#[trigger] children@[j])@ == node_syntax(node).children[j],
        decreases count - i,
    {
        match child(node, i) {
            Some(c) => {
                let read = read_node(c);
                children.push(read);
            },
            None => {},
        }
        i += 1;
    }
    let res = SyntaxNode {
        kind: kind(node),
        start_byte: start_byte(node),
        end_byte: end_byte(node),
        start_row: start_row(node),
        end_row: end_row(node),
        is_error: is_error(node),
        is_missing: is_missing(node),
        children,
    };
    assert(res@.children =~= node_syntax(node).children);
    res
}

/// The syntax tree of `text`.
pub fn read_syntax(language: &tree_sitter::Language, text: &str) -> (res: Option<SyntaxNode>)
    requires
        byte_len(text@) <= u32::MAX,
    ensures
        match res {
            Some(node) => syntax_of(*language, text@) == Some(node@) && fits(node@, text@),
            None => syntax_of(*language, text@) is None,
        },
{
    match parse(language, text) {
        None => None,
        Some(tree) => {
            let node = read_node(root_node(&tree));
            let chars = chars_of(text);
            if tree_fits(&node, chars.as_slice()) {
                Some(node)
            } else {
                None
            }
        },
    }
}

/// The kinds of the nodes above `node`, the nearest first.
fn read_ancestors(node: tree_sitter::Node<'_>) -> (res: Vec<String>)
    ensures
        views(res@) == kinds(node_ancestors(node)),
{
    let mut res: Vec<String> = Vec::new();
    let mut at = node;
    assert(views(res@) + kinds(node_ancestors(at)) =~= kinds(node_ancestors(node)));
    loop
        invariant
            views(res@) + kinds(node_ancestors(at)) == kinds(node_ancestors(node)),
        decreases node_ancestors(at).len(),
    {
        match parent(at) {
            None => {
                assert(views(res@) =~= kinds(node_ancestors(node)));
                return res;
            },
            Some(above) => {
                let ghost before = res@;
                res.push(kind(above));
                proof {
                    let first = node_ancestors(at).first().kind;
                    assert(views(res@) =~= views(before).push(first));
                    assert(views(before).push(first) + kinds(node_ancestors(at).drop_first())
                        =~= views(before) + kinds(node_ancestors(at)));
                }
                at = above;
            },
        }
    }
}

/// Whether `node` is the class of the object declaration right above it.
fn read_is_class(node: tree_sitter::Node<'_>) -> (res: bool)
    ensures
        res == is_class_below(node_syntax(node), node_ancestors(node)),
{
    if !same_str(kind(node).as_str(), "identifier") {
        return false;
    }
    match parent(node) {
        None => false,
        Some(above) => {
            if !same_str(kind(above).as_str(), "object_decl") {
                return false;
            }
            let declaration = read_node(above);
            assert(declaration@.children.skip(0) =~= declaration@.children);
            match nth_of_kind(&declaration, 0, "identifier", 1) {
                Some(class) => class.start_byte == start_byte(node) && class.end_byte == end_byte(
                    node,
                ),
                None => false,
            }
        },
    }
}

/// The node under the byte offset `byte` of `text`.
pub fn read_focus(language: &tree_sitter::Language, text: &str, byte: usize) -> (res: Option<Focus>)
    requires
        byte_len(text@) <= u32::MAX,
        byte <= u32::MAX,
    ensures
        match res {
            Some(focus) => focus_of(*language, text@, byte as nat) == Some(focus@) && is_span(
                text@,
                focus@.start_byte,
                focus@.end_byte,
            ),
            None => focus_of(*language, text@, byte as nat) is None,
        },
{
    match parse(language, text) {
        None => None,
        Some(tree) => match descendant_for_byte_range(root_node(&tree), byte, byte) {
            None => None,
            Some(node) => {
                let focus = Focus {
                    kind: kind(node),
                    start_byte: start_byte(node),
                    end_byte: end_byte(node),
                    ancestors: read_ancestors(node),
                    is_class: read_is_class(node),
                };
                let chars = chars_of(text);
                if focus.start_byte <= focus.end_byte && find_boundary(
                    chars.as_slice(),
                    focus.start_byte,
                ).is_some() && find_boundary(chars.as_slice(), focus.end_byte).is_some() {
                    Some(focus)
                } else {
                    None
                }
            },
        },
    }
}

/// A text has the tree that the parser gives, as long as there is one and its
/// nodes cover characters of the text, and else none.
pub proof fn law_syntax_of(language: tree_sitter::Language, text: Seq<char>)
    ensures
        parsed(language, text) is None ==> syntax_of(language, text) is None,
        parsed(language, text) matches Some(tree) ==> {
            let root = node_syntax(root_of(tree));
            &&& fits(root, text) ==> syntax_of(language, text) == Some(root)
            &&& !fits(root, text) ==> syntax_of(language, text) is None
        },
{
}

/// There is a node under a byte if and only if the parser gives one that covers
/// characters of the text.
pub proof fn law_focus_is_there(language: tree_sitter::Language, text: Seq<char>, byte: nat)
    ensures
        focus_of(language, text, byte) is Some <==> parsed(language, text) is Some && {
            let node = descendant_of(root_of(parsed(language, text)->0), byte, byte);
            node is Some && is_span(
                text,
                node_syntax(node->0).start_byte,
                node_syntax(node->0).end_byte,
            )
        },
{
}

} // verus!
