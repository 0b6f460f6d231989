//! Reference index: where names are used across all sources of a material.
//!
//! Every identifier counts, dotted tails, callees, class names and bare
//! references alike. Heads in the manner of `$SELF` are left out.

use vstd::prelude::*;

use crate::grammar::{read_syntax, syntax_of};
use crate::names::{law_name_set, law_name_set_len, listed, name_set, NameMap, NameSet};
use crate::position::byte_len;
use crate::render::first;
use crate::syntax::{
    fits, is_kind, lemma_child_fits, lemma_nodes_count, node_count, node_text, nodes_count, text_of, SyntaxNode,
    SyntaxView,
};
use crate::text::{builtin, chars_of, is_builtin, same_str, string_of};

verus! {

/// A place where a name is used; lines are counted from one.
#[derive(Debug, Clone)]
pub struct RefLoc {
    pub file: String,
    pub line: usize,
}

/// What a [`RefLoc`] says.
#[verifier::ext_equal]
pub struct RefView {
    pub file: Seq<char>,
    pub line: nat,
}

impl View for RefLoc {
    type V = RefView;

    open spec fn view(&self) -> RefView {
        RefView { file: self.file@, line: self.line as nat }
    }
}

/// What a list of places says.
pub open spec fn ref_views(v: Seq<RefLoc>) -> Seq<RefView> {
    Seq::new(v.len(), |i: int| v[i]@)
}

/// Where names are used.
#[derive(Debug)]
pub struct ReferenceIndex {
    pub refs: NameMap<Vec<RefLoc>>,
}

/// A source of the material.
#[derive(Debug)]
pub struct SourceFile {
    pub name: String,
    pub text: String,
}

/// Whether files with an extension hold sources.
pub open spec fn is_source(extension: Seq<char>) -> bool {
    ||| extension == "vcpro"@
    ||| extension == "vcnet"@
    ||| extension == "vccons"@
    ||| extension == "vcsel"@
    ||| extension == "vcpre"@
    ||| extension == "vcfct"@
    ||| extension == "sapvc"@
}

/// Whether files with an extension hold sources.
pub fn is_source_extension(extension: &str) -> (res: bool)
    ensures
        res == is_source(extension@),
{
    same_str(extension, "vcpro") || same_str(extension, "vcnet") || same_str(extension, "vccons")
        || same_str(extension, "vcsel") || same_str(extension, "vcpre") || same_str(
        extension,
        "vcfct",
    ) || same_str(extension, "sapvc")
}

/// The mentions of names in a tree, each with its line: a node first, then the
/// trees below it from right to left. What stands below a builtin is left out
/// with it.
pub open spec fn mentions(text: Seq<char>, node: SyntaxView) -> Seq<(Seq<char>, nat)>
    decreases node,
{
    let name = node_text(node, text);
    if node.kind != "identifier"@ {
        mentions_among(text, node.children)
    } else if is_builtin(name) {
        seq![]
    } else {
        seq![(name, node.start_row + 1)] + mentions_among(text, node.children)
    }
}

/// The mentions of names in a list of trees, from right to left.
pub open spec fn mentions_among(text: Seq<char>, nodes: Seq<SyntaxView>) -> Seq<(Seq<char>, nat)>
    decreases nodes,
{
    if nodes.len() == 0 {
        seq![]
    } else {
        mentions(text, nodes.last()) + mentions_among(text, nodes.drop_last())
    }
}

proof fn lemma_mentions_among(text: Seq<char>, a: Seq<SyntaxView>, b: Seq<SyntaxView>)
    ensures
        mentions_among(text, a + b) == mentions_among(text, b) + mentions_among(text, a),
    decreases b.len(),
{
    if b.len() == 0 {
        assert(a + b =~= a);
        assert(mentions_among(text, b) + mentions_among(text, a) =~= mentions_among(text, a));
    } else {
        lemma_mentions_among(text, a, b.drop_last());
        assert((a + b).drop_last() =~= a + b.drop_last());
        assert(mentions(text, b.last()) + (mentions_among(text, b.drop_last()) + mentions_among(
            text,
            a,
        )) =~= mentions_among(text, b) + mentions_among(text, a));
    }
}

/// The places in `file` that mention `name`.
pub open spec fn places(
    found: Seq<(Seq<char>, nat)>,
    file: Seq<char>,
    name: Seq<char>,
) -> Seq<RefView>
    decreases found.len(),
{
    if found.len() == 0 {
        seq![]
    } else {
        let init = places(found.drop_last(), file, name);
        if found.last().0 == name {
            init.push(RefView { file, line: found.last().1 })
        } else {
            init
        }
    }
}

/// The mentions in one source; a source without a tree has none.
pub open spec fn source_mentions(
    language: tree_sitter::Language,
    source: SourceFile,
) -> Seq<(Seq<char>, nat)> {
    match syntax_of(language, source.text@) {
        Some(tree) => mentions(source.text@, tree),
        None => seq![],
    }
}

/// The places in a list of sources that mention `name`.
pub open spec fn source_places(
    language: tree_sitter::Language,
    sources: Seq<SourceFile>,
    name: Seq<char>,
) -> Seq<RefView>
    decreases sources.len(),
{
    if sources.len() == 0 {
        seq![]
    } else {
        source_places(language, sources.drop_last(), name) + places(
            source_mentions(language, sources.last()),
            sources.last().name@,
            name,
        )
    }
}

/// The file names of a list of places.
pub open spec fn ref_files(v: Seq<RefLoc>) -> Seq<Seq<char>> {
    Seq::new(v.len(), |i: int| v[i].file@)
}

/// The places outside of `file`.
pub open spec fn elsewhere(v: Seq<RefLoc>, file: Seq<char>) -> Seq<RefLoc> {
    v.filter(|l: RefLoc| l.file@ != file)
}

/// The places that a list of references refers to.
pub open spec fn referents(v: Seq<&RefLoc>) -> Seq<RefLoc> {
    Seq::new(v.len(), |i: int| *v[i])
}

/// The views of a stack of trees.
spec fn tree_views(v: Seq<&SyntaxNode>) -> Seq<SyntaxView> {
    Seq::new(v.len(), |i: int| v[i]@)
}

/// The texts and lines of a list of mentions.
pub open spec fn mention_views(v: Seq<(String, usize)>) -> Seq<(Seq<char>, nat)> {
    Seq::new(v.len(), |i: int| (v[i].0@, v[i].1 as nat))
}

/// The mentions of names in a tree.
pub fn collect_mentions(text: &str, tree: &SyntaxNode) -> (res: Vec<(String, usize)>)
    requires
        fits(tree@, text@),
    ensures
        mention_views(res@) == mentions(text@, tree@),
{
    let chars = chars_of(text);
    let mut out: Vec<(String, usize)> = Vec::new();
    let mut work: Vec<&SyntaxNode> = Vec::new();
    work.push(tree);
    proof {
        let all = tree_views(work@);
        assert(all =~= seq![tree@]);
        assert(all.drop_last() =~= Seq::<SyntaxView>::empty());
        assert(mentions_among(text@, Seq::<SyntaxView>::empty()) =~= seq![]);
        assert(mention_views(out@) + mentions_among(text@, all) =~= mentions(text@, tree@));
    }
    while work.len() > 0
        invariant
            chars@ == text@,
            mention_views(out@) + mentions_among(text@, tree_views(work@)) == mentions(
                text@,
                tree@,
            ),
            forall|i: int| 0 <= i < work@.len() ==> fits((#[trigger] work@[i])@, text@),
        decreases nodes_count(tree_views(work@)),
    {
        let ghost stack = work@;
        let ghost done = mention_views(out@);
        match work.pop() {
            None => {},
            Some(node) => {
                let ghost rest = work@;
                let ghost under = tree_views(rest);
                proof {
                    assert(stack[stack.len() - 1]@ == node@);
                    assert(tree_views(stack).drop_last() =~= under);
                    assert(tree_views(stack).last() == node@);
                    assert(nodes_count(tree_views(stack)) == nodes_count(under) + node_count(node@));
                    assert(node_count(node@) == 1 + nodes_count(node@.children));
                    assert(done + (mentions(text@, node@) + mentions_among(text@, under)) == mentions(
                        text@,
                        tree@,
                    ));
                }
                let mut descend = true;
                if is_kind(node, "identifier") {
                    let name = text_of(node, chars.as_slice());
                    if builtin(name) {
                        descend = false;
                        assert(done + (mentions(text@, node@) + mentions_among(text@, under))
                            =~= done + mentions_among(text@, under));
                    } else {
                        let ghost before = out@;
                        out.push((string_of(name), node.start_row + 1));
                        proof {
                            let one = (node_text(node@, text@), node@.start_row + 1);
                            assert(mention_views(out@) =~= done.push(one));
                            assert(done + (mentions(text@, node@) + mentions_among(text@, under))
                                =~= done.push(one) + (mentions_among(text@, node@.children)
                                + mentions_among(text@, under)));
                        }
                    }
                }
                if descend {
                    assert(mention_views(out@) + (mentions_among(text@, node@.children)
                        + mentions_among(text@, under)) == mentions(text@, tree@));
                    let mut i: usize = 0;
                    proof {
                        assert(tree_views(work@) =~= under + node@.children.take(0));
                    }
                    while i < node.children.len()
                        invariant
                            i <= node.children@.len(),
                            fits(node@, text@),
                            tree_views(work@) == under + node@.children.take(i as int),
                            forall|j: int|
                                0 <= j < work@.len() ==> fits((#[trigger] work@[j])@, text@),
                        decreases node.children@.len() - i,
                    {
                        let ghost before = work@;
                        work.push(&node.children[i]);
                        proof {
                            lemma_child_fits(node@, text@, i as int);
                            assert(node@.children[i as int] == node.children@[i as int]@);
                            assert(tree_views(work@) =~= tree_views(before).push(
                                node@.children[i as int],
                            ));
                            assert(under + node@.children.take(i + 1) =~= (under
                                + node@.children.take(i as int)).push(node@.children[i as int]));
                        }
                        i += 1;
                    }
                    proof {
                        assert(node@.children.take(i as int) =~= node@.children);
                        lemma_mentions_among(text@, under, node@.children);
                        lemma_nodes_count(under, node@.children);
                    }
                }
            },
        }
    }
    assert(mention_views(out@) + mentions_among(text@, tree_views(work@)) =~= mention_views(out@));
    out
}

impl Default for ReferenceIndex {
    fn default() -> (res: ReferenceIndex)
        ensures
            res.refs@ == Map::<Seq<char>, Vec<RefLoc>>::empty(),
    {
        ReferenceIndex { refs: NameMap::new() }
    }
}

impl ReferenceIndex {
    /// The places that the index has for `name`.
    pub open spec fn places_of(self, name: Seq<char>) -> Seq<RefLoc> {
        listed(self.refs@, name)
    }

    /// Adds the mentions of names in one file.
    pub fn add_mentions(&mut self, file: &str, found: &Vec<(String, usize)>)
        ensures
            forall|name: Seq<char>| #[trigger]
                ref_views(final(self).places_of(name)) == ref_views(old(self).places_of(name))
                    + places(mention_views(found@), file@, name),
            forall|name: Seq<char>| #[trigger]
                final(self).refs@.contains_key(name) <==> old(self).refs@.contains_key(name)
                    || places(mention_views(found@), file@, name).len() > 0,
    {
        let ghost all = mention_views(found@);
        let ghost start = *self;
        let mut i: usize = 0;
        proof {
            assert(all.take(0) =~= Seq::<(Seq<char>, nat)>::empty());
            assert forall|name: Seq<char>| #[trigger]
                ref_views(self.places_of(name)) == ref_views(start.places_of(name)) + places(
                    all.take(0),
                    file@,
                    name,
                ) by {
                assert(ref_views(start.places_of(name)) + seq![] =~= ref_views(
                    start.places_of(name),
                ));
            }
        }
        while i < found.len()
            invariant
                i <= found@.len(),
                all == mention_views(found@),
                start == *old(self),
                forall|name: Seq<char>| #[trigger]
                    ref_views(self.places_of(name)) == ref_views(start.places_of(name)) + places(
                        all.take(i as int),
                        file@,
                        name,
                    ),
                forall|name: Seq<char>| #[trigger]
                    self.refs@.contains_key(name) <==> start.refs@.contains_key(name) || places(
                        all.take(i as int),
                        file@,
                        name,
                    ).len() > 0,
            decreases found@.len() - i,
        {
            let ghost before = *self;
            let loc = RefLoc { file: file.to_owned(), line: found[i].1 };
            let ghost key = found@[i as int].0@;
            self.refs.append(found[i].0.as_str(), loc);
            proof {
                assert(all.take(i + 1).drop_last() =~= all.take(i as int));
                assert(all[i as int] == (key, found@[i as int].1 as nat));
                assert forall|name: Seq<char>| #[trigger]
                    ref_views(self.places_of(name)) == ref_views(start.places_of(name)) + places(
                        all.take(i + 1),
                        file@,
                        name,
                    ) by {
                    let old_places = before.places_of(name);
                    assert(ref_views(old_places) == ref_views(start.places_of(name)) + places(
                        all.take(i as int),
                        file@,
                        name,
                    ));
                    if name == key {
                        assert(self.places_of(name) == old_places.push(loc));
                        assert(ref_views(old_places.push(loc)) =~= ref_views(old_places).push(loc@));
                        assert(ref_views(start.places_of(name)) + places(
                            all.take(i + 1),
                            file@,
                            name,
                        ) =~= (ref_views(start.places_of(name)) + places(
                            all.take(i as int),
                            file@,
                            name,
                        )).push(loc@));
                    } else {
                        assert(self.refs@.contains_key(name) == before.refs@.contains_key(name));
                        assert(self.places_of(name) == old_places);
                    }
                }
            }
            i += 1;
        }
        assert(all.take(i as int) =~= all);
    }

    /// The index of a list of sources.
    pub fn scan(sources: &Vec<SourceFile>, language: &tree_sitter::Language) -> (res: ReferenceIndex)
        requires
            forall|i: int|
                0 <= i < sources@.len() ==> byte_len((#[trigger] sources@[i]).text@) <= u32::MAX,
        ensures
            forall|name: Seq<char>| #[trigger]
                ref_views(res.places_of(name)) == source_places(*language, sources@, name),
            forall|name: Seq<char>| #[trigger]
                res.refs@.contains_key(name) <==> source_places(*language, sources@, name).len()
                    > 0,
    {
        let mut res = ReferenceIndex::default();
        let mut i: usize = 0;
        proof {
            assert(sources@.take(0) =~= Seq::<SourceFile>::empty());
            assert forall|name: Seq<char>| #[trigger]
                ref_views(res.places_of(name)) == source_places(
                    *language,
                    sources@.take(0),
                    name,
                ) by {
                assert(ref_views(res.places_of(name)) =~= seq![]);
            }
        }
        while i < sources.len()
            invariant
                i <= sources@.len(),
                forall|j: int|
                    0 <= j < sources@.len() ==> byte_len((#[trigger] sources@[j]).text@)
                        <= u32::MAX,
                forall|name: Seq<char>| #[trigger]
                    ref_views(res.places_of(name)) == source_places(
                        *language,
                        sources@.take(i as int),
                        name,
                    ),
                forall|name: Seq<char>| #[trigger]
                    res.refs@.contains_key(name) <==> source_places(
                        *language,
                        sources@.take(i as int),
                        name,
                    ).len() > 0,
            decreases sources@.len() - i,
        {
            let source = &sources[i];
            let ghost before = res;
            let ghost found = source_mentions(*language, *source);
            proof {
                assert(sources@.take(i + 1).drop_last() =~= sources@.take(i as int));
            }
            match read_syntax(language, source.text.as_str()) {
                Some(tree) => {
                    let list = collect_mentions(source.text.as_str(), &tree);
                    res.add_mentions(source.name.as_str(), &list);
                },
                None => {
                    assert forall|name: Seq<char>| #[trigger]
                        ref_views(res.places_of(name)) == ref_views(before.places_of(name)) + places(
                            found,
                            source.name@,
                            name,
                        ) by {
                        assert(ref_views(before.places_of(name)) + seq![] =~= ref_views(
                            before.places_of(name),
                        ));
                    }
                },
            }
            proof {
                assert forall|name: Seq<char>| #[trigger]
                    res.refs@.contains_key(name) <==> source_places(
                        *language,
                        sources@.take(i + 1),
                        name,
                    ).len() > 0 by {
                    assert(before.refs@.contains_key(name) <==> source_places(
                        *language,
                        sources@.take(i as int),
                        name,
                    ).len() > 0);
                }
                assert forall|name: Seq<char>| #[trigger]
                    ref_views(res.places_of(name)) == source_places(
                        *language,
                        sources@.take(i + 1),
                        name,
                    ) by {
                    assert(ref_views(before.places_of(name)) == source_places(
                        *language,
                        sources@.take(i as int),
                        name,
                    ));
                }
            }
            i += 1;
        }
        assert(sources@.take(i as int) =~= sources@);
        res
    }

    /// Where `name` is used: how often, in how many files, and up to `limit`
    /// places outside of `current_file`.
    pub fn summary(&self, name: &str, current_file: &str, limit: usize) -> (res: (
        usize,
        usize,
        Vec<&RefLoc>,
    ))
        ensures
            res.0 == self.places_of(name@).len(),
            res.1 == name_set(ref_files(self.places_of(name@))).len(),
            referents(res.2@) == first(
                elsewhere(self.places_of(name@), current_file@),
                limit as nat,
            ),
    {
        match self.refs.get(name) {
            None => {
                let none: Vec<&RefLoc> = Vec::new();
                proof {
                    reveal(Seq::filter);
                    assert(ref_files(self.places_of(name@)) =~= seq![]);
                    assert(referents(none@) =~= first(
                        elsewhere(self.places_of(name@), current_file@),
                        limit as nat,
                    ));
                }
                (0, 0, none)
            },
            Some(locs) => {
                let ghost all = self.places_of(name@);
                let mut files = NameSet::new();
                let mut others: Vec<&RefLoc> = Vec::new();
                let mut i: usize = 0;
                proof {
                    reveal(Seq::filter);
                    assert(ref_files(all).take(0) =~= seq![]);
                    assert(all.take(0) =~= seq![]);
                    assert(referents(others@) =~= seq![]);
                }
                while i < locs.len()
                    invariant
                        i <= locs@.len(),
                        all == locs@,
                        files@ == name_set(ref_files(all).take(i as int)),
                        referents(others@) == first(
                            elsewhere(all.take(i as int), current_file@),
                            limit as nat,
                        ),
                    decreases locs@.len() - i,
                {
                    let loc = &locs[i];
                    let ghost before = others@;
                    let ghost so_far = elsewhere(all.take(i as int), current_file@);
                    proof {
                        reveal(Seq::filter);
                        assert(ref_files(all).take(i + 1).drop_last() =~= ref_files(all).take(
                            i as int,
                        ));
                        assert(ref_files(all)[i as int] == loc.file@);
                        assert(all.take(i + 1).drop_last() =~= all.take(i as int));
                    }
                    files.insert(loc.file.clone());
                    if !same_str(loc.file.as_str(), current_file) {
                        if others.len() < limit {
                            others.push(loc);
                            assert(referents(others@) =~= referents(before).push(*loc));
                            assert(so_far.len() < limit);
                            assert(first(so_far, limit as nat) =~= so_far);
                            assert(first(so_far.push(*loc), limit as nat) =~= so_far.push(*loc));
                        } else {
                            assert(referents(others@).len() >= limit);
                            assert(so_far.len() >= limit);
                            assert(first(so_far.push(*loc), limit as nat) =~= first(
                                so_far,
                                limit as nat,
                            ));
                        }
                    }
                    i += 1;
                }
                assert(ref_files(all).take(i as int) =~= ref_files(all));
                assert(all.take(i as int) =~= all);
                (locs.len(), files.len(), others)
            },
        }
    }
}

// ---- Laws -------------------------------------------------------------------

/// Whether mentions are in order: no name is that of a builtin, and lines are
/// counted from one.
pub open spec fn are_proper(found: Seq<(Seq<char>, nat)>) -> bool {
    forall|i: int|
        0 <= i < found.len() ==> !is_builtin((#[trigger] found[i]).0) && found[i].1 >= 1
}

/// No builtin is mentioned, and every mention stands on a line counted from
/// one.
pub proof fn law_mentions_proper(text: Seq<char>, node: SyntaxView)
    ensures
        are_proper(mentions(text, node)),
    decreases node,
{
    lemma_mentions_among_proper(text, node.children);
}

proof fn lemma_mentions_among_proper(text: Seq<char>, nodes: Seq<SyntaxView>)
    ensures
        are_proper(mentions_among(text, nodes)),
    decreases nodes,
{
    if nodes.len() > 0 {
        law_mentions_proper(text, nodes.last());
        lemma_mentions_among_proper(text, nodes.drop_last());
    }
}

proof fn lemma_places_of_builtin(found: Seq<(Seq<char>, nat)>, file: Seq<char>, name: Seq<char>)
    requires
        are_proper(found),
        is_builtin(name),
    ensures
        places(found, file, name) == Seq::<RefView>::empty(),
    decreases found.len(),
{
    if found.len() > 0 {
        let init = found.drop_last();
        assert forall|i: int| 0 <= i < init.len() implies !is_builtin((#[trigger] init[i]).0)
            && init[i].1 >= 1 by {
            assert(init[i] == found[i]);
        }
        lemma_places_of_builtin(init, file, name);
        assert(found.last() == found[found.len() - 1]);
    }
}

/// Builtins never enter the index of any sources.
pub proof fn law_builtins_left_out(
    language: tree_sitter::Language,
    sources: Seq<SourceFile>,
    name: Seq<char>,
)
    requires
        is_builtin(name),
    ensures
        source_places(language, sources, name) == Seq::<RefView>::empty(),
    decreases sources.len(),
{
    if sources.len() > 0 {
        let last = sources.last();
        law_builtins_left_out(language, sources.drop_last(), name);
        match syntax_of(language, last.text@) {
            Some(tree) => {
                law_mentions_proper(last.text@, tree);
            },
            None => {},
        }
        lemma_places_of_builtin(source_mentions(language, last), last.name@, name);
        assert(Seq::<RefView>::empty() + Seq::<RefView>::empty() =~= Seq::<RefView>::empty());
    }
}

proof fn lemma_places_from_one(found: Seq<(Seq<char>, nat)>, file: Seq<char>, name: Seq<char>)
    requires
        are_proper(found),
    ensures
        forall|i: int|
            0 <= i < places(found, file, name).len() ==> (#[trigger] places(
                found,
                file,
                name,
            )[i]).line >= 1 && places(found, file, name)[i].file == file,
    decreases found.len(),
{
    if found.len() > 0 {
        let init = found.drop_last();
        assert forall|i: int| 0 <= i < init.len() implies !is_builtin((#[trigger] init[i]).0)
            && init[i].1 >= 1 by {
            assert(init[i] == found[i]);
        }
        lemma_places_from_one(init, file, name);
        assert(found.last() == found[found.len() - 1]);
        let all = places(found, file, name);
        let before = places(init, file, name);
        assert forall|i: int| 0 <= i < all.len() implies (#[trigger] all[i]).line >= 1
            && all[i].file == file by {
            if i < before.len() {
                assert(all[i] == before[i]);
            }
        }
    }
}

/// Every place in the index lies in one of the sources, on a line counted from
/// one.
pub proof fn law_places_lie_in_sources(
    language: tree_sitter::Language,
    sources: Seq<SourceFile>,
    name: Seq<char>,
    i: int,
)
    requires
        0 <= i < source_places(language, sources, name).len(),
    ensures
        source_places(language, sources, name)[i].line >= 1,
        exists|k: int|
            0 <= k < sources.len() && (#[trigger] sources[k]).name@ == source_places(
                language,
                sources,
                name,
            )[i].file,
    decreases sources.len(),
{
    let last = sources.last();
    let init = source_places(language, sources.drop_last(), name);
    let found = source_mentions(language, last);
    if i < init.len() {
        law_places_lie_in_sources(language, sources.drop_last(), name, i);
        let k = choose|k: int|
            0 <= k < sources.drop_last().len() && (#[trigger] sources.drop_last()[k]).name@
                == init[i].file;
        assert(sources[k] == sources.drop_last()[k]);
    } else {
        match syntax_of(language, last.text@) {
            Some(tree) => {
                law_mentions_proper(last.text@, tree);
            },
            None => {},
        }
        lemma_places_from_one(found, last.name@, name);
        let p = places(found, last.name@, name)[i - init.len()];
        assert(source_places(language, sources, name)[i] == p);
        assert(sources[sources.len() - 1] == last);
    }
}

proof fn lemma_elsewhere(places: Seq<RefLoc>, file: Seq<char>)
    ensures
        elsewhere(places, file).len() <= places.len(),
        forall|i: int|
            0 <= i < elsewhere(places, file).len() ==> (#[trigger] elsewhere(
                places,
                file,
            )[i]).file@ != file,
    decreases places.len(),
{
    reveal(Seq::filter);
    if places.len() > 0 {
        lemma_elsewhere(places.drop_last(), file);
        let all = elsewhere(places, file);
        let before = elsewhere(places.drop_last(), file);
        assert forall|i: int| 0 <= i < all.len() implies (#[trigger] all[i]).file@ != file by {
            if i < before.len() {
                assert(all[i] == before[i]);
            }
        }
    }
}

/// What a summary says hangs together: it shows no more places than asked for,
/// none of them in the current file, and counts no more files than places, and
/// none only where there is no place.
pub proof fn law_summary(places: Seq<RefLoc>, current_file: Seq<char>, limit: nat)
    ensures
        first(elsewhere(places, current_file), limit).len() <= limit,
        first(elsewhere(places, current_file), limit).len() <= places.len(),
        forall|i: int|
            0 <= i < first(elsewhere(places, current_file), limit).len() ==> (#[trigger] first(
                elsewhere(places, current_file),
                limit,
            )[i]).file@ != current_file,
        name_set(ref_files(places)).len() <= places.len(),
        name_set(ref_files(places)).len() == 0 <==> places.len() == 0,
{
    let others = elsewhere(places, current_file);
    lemma_elsewhere(places, current_file);
    assert forall|i: int| 0 <= i < first(others, limit).len() implies (#[trigger] first(
        others,
        limit,
    )[i]).file@ != current_file by {
        assert(others[i] == first(others, limit)[i]);
    }
    law_name_set_len(ref_files(places));
    law_name_set(ref_files(places));
    if places.len() > 0 {
        assert(ref_files(places)[0] == places[0].file@);
        assert(ref_files(places).contains(places[0].file@));
        assert(name_set(ref_files(places)).contains(places[0].file@));
    }
}

/// Files with one of these extensions hold sources, and no others.
pub proof fn law_source_extensions(extension: Seq<char>)
    ensures
        is_source("vcpro"@) && is_source("vcnet"@) && is_source("vccons"@) && is_source("vcsel"@),
        is_source("vcpre"@) && is_source("vcfct"@) && is_source("sapvc"@),
        is_source(extension) ==> {
            ||| extension == "vcpro"@
            ||| extension == "vcnet"@
            ||| extension == "vccons"@
            ||| extension == "vcsel"@
            ||| extension == "vcpre"@
            ||| extension == "vcfct"@
            ||| extension == "sapvc"@
        },
{
}

/// Whether a node is the name of a builtin.
pub open spec fn is_builtin_node(text: Seq<char>, x: SyntaxView) -> bool {
    x.kind == "identifier"@ && is_builtin(node_text(x, text))
}

/// Whether a node belongs to a tree, and to nothing below a builtin.
pub open spec fn is_open_in(text: Seq<char>, x: SyntaxView, tree: SyntaxView) -> bool
    decreases tree,
{
    x == tree || (!is_builtin_node(text, tree) && exists|i: int|
        0 <= i < tree.children.len() && is_open_in(text, x, #[trigger] tree.children[i]))
}

/// Whether a node names `name` on line `line`, counted from one.
pub open spec fn names_at(text: Seq<char>, x: SyntaxView, name: Seq<char>, line: nat) -> bool {
    &&& x.kind == "identifier"@ && !is_builtin(node_text(x, text))
    &&& node_text(x, text) == name && x.start_row + 1 == line
}

/// How many nodes of a tree name `name` on line `line`.
pub open spec fn naming_nodes(
    text: Seq<char>,
    tree: SyntaxView,
    name: Seq<char>,
    line: nat,
) -> nat
    decreases tree,
{
    let own: nat = if names_at(text, tree, name, line) {
        1
    } else {
        0
    };
    if is_builtin_node(text, tree) {
        0
    } else {
        own + naming_nodes_among(text, tree.children, name, line)
    }
}

/// How many nodes of a list of trees name `name` on line `line`.
pub open spec fn naming_nodes_among(
    text: Seq<char>,
    trees: Seq<SyntaxView>,
    name: Seq<char>,
    line: nat,
) -> nat
    decreases trees,
{
    if trees.len() == 0 {
        0
    } else {
        naming_nodes_among(text, trees.drop_last(), name, line) + naming_nodes(
            text,
            trees.last(),
            name,
            line,
        )
    }
}

/// Every identifier is mentioned once for each time that it stands in the tree.
pub proof fn law_each_mention_counts(
    text: Seq<char>,
    tree: SyntaxView,
    name: Seq<char>,
    line: nat,
)
    ensures
        mentions(text, tree).to_multiset().count((name, line)) == naming_nodes(
            text,
            tree,
            name,
            line,
        ),
    decreases tree,
{
    let below = mentions_among(text, tree.children);
    lemma_mentions_counted(text, tree.children, name, line);
    if tree.kind == "identifier"@ {
        let one = (node_text(tree, text), tree.start_row + 1);
        let none = Seq::<(Seq<char>, nat)>::empty();
        if is_builtin_node(text, tree) {
            none.to_multiset_ensures();
            assert(none.to_multiset().len() == 0);
            assert(none.to_multiset().count((name, line)) == 0);
        } else {
            none.to_multiset_ensures();
            assert(none.to_multiset().len() == 0);
            assert(none.push(one) =~= seq![one]);
            assert(seq![one].to_multiset() =~= none.to_multiset().insert(one));
            vstd::seq_lib::lemma_multiset_commutative(seq![one], below);
        }
    }
}

proof fn lemma_mentions_counted(
    text: Seq<char>,
    trees: Seq<SyntaxView>,
    name: Seq<char>,
    line: nat,
)
    ensures
        mentions_among(text, trees).to_multiset().count((name, line)) == naming_nodes_among(
            text,
            trees,
            name,
            line,
        ),
    decreases trees,
{
    if trees.len() == 0 {
        let none = Seq::<(Seq<char>, nat)>::empty();
        none.to_multiset_ensures();
        assert(none.to_multiset().len() == 0);
        assert(none.to_multiset().count((name, line)) == 0);
    } else {
        law_each_mention_counts(text, trees.last(), name, line);
        lemma_mentions_counted(text, trees.drop_last(), name, line);
        vstd::seq_lib::lemma_multiset_commutative(
            mentions(text, trees.last()),
            mentions_among(text, trees.drop_last()),
        );
    }
}

/// A name is mentioned on a line if and only if an identifier of the tree, which
/// does not stand below a builtin, names it there.
pub proof fn law_mentions(text: Seq<char>, tree: SyntaxView, name: Seq<char>, line: nat)
    ensures
        mentions(text, tree).contains((name, line)) <==> exists|x: SyntaxView| #[trigger]
            is_open_in(text, x, tree) && names_at(text, x, name, line),
    decreases tree,
{
    let m = (name, line);
    let below = mentions_among(text, tree.children);
    lemma_mentions_in(text, tree.children, name, line);
    let all = mentions(text, tree);
    if all.contains(m) {
        let k = choose|k: int| 0 <= k < all.len() && all[k] == m;
        if tree.kind == "identifier"@ && k == 0 {
            assert(is_open_in(text, tree, tree) && names_at(text, tree, name, line));
        } else {
            if tree.kind == "identifier"@ {
                assert(below[k - 1] == m);
            }
            assert(below.contains(m));
            let (i, x) = choose|i: int, x: SyntaxView|
                0 <= i < tree.children.len() && #[trigger] is_open_in(text, x, tree.children[i])
                    && names_at(text, x, name, line);
            assert(is_open_in(text, x, tree.children[i]));
            assert(is_open_in(text, x, tree));
        }
    }
    if exists|x: SyntaxView| #[trigger]
        is_open_in(text, x, tree) && names_at(text, x, name, line) {
        let x = choose|x: SyntaxView| #[trigger]
            is_open_in(text, x, tree) && names_at(text, x, name, line);
        if x == tree {
            assert(all[0] == m);
        } else {
            let i = choose|i: int|
                0 <= i < tree.children.len() && is_open_in(text, x, #[trigger] tree.children[i]);
            assert(is_open_in(text, x, tree.children[i]));
            assert(below.contains(m));
            let k = choose|k: int| 0 <= k < below.len() && below[k] == m;
            if tree.kind == "identifier"@ {
                assert(all[k + 1] == m);
            }
        }
    }
}

proof fn lemma_mentions_in(text: Seq<char>, trees: Seq<SyntaxView>, name: Seq<char>, line: nat)
    ensures
        mentions_among(text, trees).contains((name, line)) <==> exists|i: int, x: SyntaxView|
            0 <= i < trees.len() && #[trigger] is_open_in(text, x, trees[i]) && names_at(
                text,
                x,
                name,
                line,
            ),
    decreases trees,
{
    if trees.len() > 0 {
        let m = (name, line);
        let init = trees.drop_last();
        let last = trees.last();
        law_mentions(text, last, name, line);
        lemma_mentions_in(text, init, name, line);
        let a = mentions(text, last);
        let b = mentions_among(text, init);
        assert(trees[trees.len() - 1] == last);
        if (a + b).contains(m) {
            let k = choose|k: int| 0 <= k < (a + b).len() && (a + b)[k] == m;
            if k < a.len() {
                assert(a[k] == m);
                let x = choose|x: SyntaxView| #[trigger]
                    is_open_in(text, x, last) && names_at(text, x, name, line);
                assert(is_open_in(text, x, trees[trees.len() - 1]));
            } else {
                assert(b[k - a.len()] == m);
                let (i, x) = choose|i: int, x: SyntaxView|
                    0 <= i < init.len() && #[trigger] is_open_in(text, x, init[i]) && names_at(
                        text,
                        x,
                        name,
                        line,
                    );
                assert(init[i] == trees[i]);
                assert(is_open_in(text, x, trees[i]));
            }
        }
        if exists|i: int, x: SyntaxView|
            0 <= i < trees.len() && #[trigger] is_open_in(text, x, trees[i]) && names_at(
                text,
                x,
                name,
                line,
            ) {
            let (i, x) = choose|i: int, x: SyntaxView|
                0 <= i < trees.len() && #[trigger] is_open_in(text, x, trees[i]) && names_at(
                    text,
                    x,
                    name,
                    line,
                );
            if i < init.len() {
                assert(init[i] == trees[i]);
                assert(is_open_in(text, x, init[i]));
                let k = choose|k: int| 0 <= k < b.len() && b[k] == m;
                assert((a + b)[a.len() + k] == m);
            } else {
                let k = choose|k: int| 0 <= k < a.len() && a[k] == m;
                assert((a + b)[k] == m);
            }
        }
    }
}

/// The places of a list of mentions are those of its parts, in their order.
pub proof fn law_places(
    a: Seq<(Seq<char>, nat)>,
    b: Seq<(Seq<char>, nat)>,
    file: Seq<char>,
    name: Seq<char>,
)
    ensures
        places(a + b, file, name) == places(a, file, name) + places(b, file, name),
    decreases b.len(),
{
    if b.len() == 0 {
        assert(a + b =~= a);
        assert(places(a, file, name) + places(b, file, name) =~= places(a, file, name));
    } else {
        law_places(a, b.drop_last(), file, name);
        assert((a + b).drop_last() =~= a + b.drop_last());
        assert((a + b).last() == b.last());
        assert(places(a + b, file, name) =~= places(a, file, name) + places(b, file, name));
    }
}

/// A mention of the name alone is one place, a mention of another name is none.
pub proof fn law_place_of_mention(
    mention: (Seq<char>, nat),
    file: Seq<char>,
    name: Seq<char>,
)
    ensures
        places(seq![mention], file, name) == if mention.0 == name {
            seq![RefView { file, line: mention.1 }]
        } else {
            Seq::<RefView>::empty()
        },
{
    let one = seq![mention];
    assert(one.drop_last() =~= seq![]);
    assert(places(one.drop_last(), file, name) =~= seq![]);
    assert(places(one, file, name) =~= if mention.0 == name {
        seq![RefView { file, line: mention.1 }]
    } else {
        Seq::<RefView>::empty()
    });
}

proof fn lemma_is_place(
    found: Seq<(Seq<char>, nat)>,
    file: Seq<char>,
    name: Seq<char>,
    place: RefView,
)
    ensures
        places(found, file, name).contains(place) <==> place.file == file && found.contains(
            (name, place.line),
        ),
    decreases found.len(),
{
    let m = (name, place.line);
    if found.len() > 0 {
        let init = found.drop_last();
        let last = found.last();
        lemma_is_place(init, file, name, place);
        let before = places(init, file, name);
        let all = places(found, file, name);
        assert(found[found.len() - 1] == last);
        if all.contains(place) {
            let k = choose|k: int| 0 <= k < all.len() && all[k] == place;
            if k < before.len() {
                assert(before[k] == place);
                let j = choose|j: int| 0 <= j < init.len() && init[j] == m;
                assert(found[j] == m);
            }
        }
        if place.file == file && found.contains(m) {
            let j = choose|j: int| 0 <= j < found.len() && found[j] == m;
            if j < init.len() {
                assert(init[j] == m);
                let k = choose|k: int| 0 <= k < before.len() && before[k] == place;
                assert(all[k] == place);
            } else {
                assert(all[before.len() as int] == place);
            }
        }
    }
}

/// Whether an identifier of source number `k` names `name` at a place.
pub open spec fn is_place_in(
    language: tree_sitter::Language,
    sources: Seq<SourceFile>,
    name: Seq<char>,
    place: RefView,
    k: int,
    x: SyntaxView,
) -> bool {
    &&& 0 <= k < sources.len() && sources[k].name@ == place.file
    &&& syntax_of(language, sources[k].text@) is Some
    &&& is_open_in(sources[k].text@, x, syntax_of(language, sources[k].text@)->0)
    &&& names_at(sources[k].text@, x, name, place.line)
}

/// The index has a place for a name if and only if an identifier of a source
/// names it there.
pub proof fn law_indexed_places(
    language: tree_sitter::Language,
    sources: Seq<SourceFile>,
    name: Seq<char>,
    place: RefView,
)
    ensures
        source_places(language, sources, name).contains(place) <==> exists|k: int, x: SyntaxView|
            is_place_in(language, sources, name, place, k, x),
    decreases sources.len(),
{
    if sources.len() > 0 {
        let init = sources.drop_last();
        let last = sources.last();
        law_indexed_places(language, init, name, place);
        let found = source_mentions(language, last);
        let a = source_places(language, init, name);
        let b = places(found, last.name@, name);
        lemma_is_place(found, last.name@, name, place);
        assert(sources[sources.len() - 1] == last);
        if syntax_of(language, last.text@) is Some {
            law_mentions(last.text@, syntax_of(language, last.text@)->0, name, place.line);
        }
        if (a + b).contains(place) {
            let j = choose|j: int| 0 <= j < (a + b).len() && (a + b)[j] == place;
            if j < a.len() {
                assert(a[j] == place);
                let (k, x) = choose|k: int, x: SyntaxView|
                    is_place_in(language, init, name, place, k, x);
                assert(init[k] == sources[k]);
                assert(is_place_in(language, sources, name, place, k, x));
            } else {
                assert(b[j - a.len()] == place);
                let x = choose|x: SyntaxView| #[trigger]
                    is_open_in(last.text@, x, syntax_of(language, last.text@)->0) && names_at(
                        last.text@,
                        x,
                        name,
                        place.line,
                    );
                assert(is_place_in(language, sources, name, place, sources.len() - 1, x));
            }
        }
        if exists|k: int, x: SyntaxView| is_place_in(language, sources, name, place, k, x) {
            let (k, x) = choose|k: int, x: SyntaxView|
                is_place_in(language, sources, name, place, k, x);
            if k < init.len() {
                assert(init[k] == sources[k]);
                assert(is_place_in(language, init, name, place, k, x));
                let j = choose|j: int| 0 <= j < a.len() && a[j] == place;
                assert((a + b)[j] == place);
            } else {
                assert(found.contains((name, place.line)));
                let j = choose|j: int| 0 <= j < b.len() && b[j] == place;
                assert((a + b)[a.len() + j] == place);
            }
        }
    }
}

/// The places in a list of sources are those in its parts, in their order.
pub proof fn law_places_of_sources(
    language: tree_sitter::Language,
    a: Seq<SourceFile>,
    b: Seq<SourceFile>,
    name: Seq<char>,
)
    ensures
        source_places(language, a + b, name) == source_places(language, a, name) + source_places(
            language,
            b,
            name,
        ),
    decreases b.len(),
{
    if b.len() == 0 {
        assert(a + b =~= a);
        assert(source_places(language, a, name) + source_places(language, b, name)
            =~= source_places(language, a, name));
    } else {
        law_places_of_sources(language, a, b.drop_last(), name);
        assert((a + b).drop_last() =~= a + b.drop_last());
        assert((a + b).last() == b.last());
        assert(source_places(language, a + b, name) =~= source_places(language, a, name)
            + source_places(language, b, name));
    }
}

/// The places elsewhere of a list are those of its parts, in their order.
pub proof fn law_elsewhere(a: Seq<RefLoc>, b: Seq<RefLoc>, file: Seq<char>)
    ensures
        elsewhere(a + b, file) == elsewhere(a, file) + elsewhere(b, file),
    decreases b.len(),
{
    reveal(Seq::filter);
    if b.len() == 0 {
        assert(a + b =~= a);
        assert(elsewhere(a, file) + elsewhere(b, file) =~= elsewhere(a, file));
    } else {
        law_elsewhere(a, b.drop_last(), file);
        assert((a + b).drop_last() =~= a + b.drop_last());
        assert((a + b).last() == b.last());
        assert(elsewhere(a + b, file) =~= elsewhere(a, file) + elsewhere(b, file));
    }
}

/// A place alone is elsewhere if it lies in another file.
pub proof fn law_elsewhere_single(place: RefLoc, file: Seq<char>)
    ensures
        elsewhere(seq![place], file) == if place.file@ != file {
            seq![place]
        } else {
            Seq::<RefLoc>::empty()
        },
{
    reveal(Seq::filter);
    let one = seq![place];
    assert(one.drop_last() =~= seq![]);
    assert(elsewhere(one.drop_last(), file) =~= seq![]);
    assert(elsewhere(one, file) =~= if place.file@ != file {
        seq![place]
    } else {
        Seq::<RefLoc>::empty()
    });
}

} // verus!
