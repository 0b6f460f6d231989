//! Open documents: the text of each, by its URI.

use vstd::prelude::*;

use crate::aliases::texts;
use crate::names::NameMap;
use crate::text::{
    chars_of, has_prefix, last_occurrence, lemma_last_occurrence, occurs_at, rfind, skip, starts,
    string_of,
};

verus! {

/// The open documents.
#[derive(Debug)]
pub struct Documents {
    map: NameMap<String>,
}

impl View for Documents {
    type V = Map<Seq<char>, Seq<char>>;

    closed spec fn view(&self) -> Map<Seq<char>, Seq<char>> {
        texts(self.map@)
    }
}

impl Default for Documents {
    fn default() -> (res: Documents)
        ensures
            res@ == Map::<Seq<char>, Seq<char>>::empty(),
    {
        let res = Documents { map: NameMap::new() };
        assert(res@ =~= Map::<Seq<char>, Seq<char>>::empty());
        res
    }
}

impl Documents {
    /// The text of a document, where it is open.
    pub fn get(&self, uri: &str) -> (res: Option<String>)
        ensures
            match res {
                Some(text) => self@.contains_key(uri@) && text@ == self@[uri@],
                None => !self@.contains_key(uri@),
            },
    {
        match self.map.get(uri) {
            Some(text) => Some(text.clone()),
            None => None,
        }
    }

    /// Opens a document, or gives it another text.
    pub fn insert(&mut self, uri: String, text: String)
        ensures
            final(self)@ == old(self)@.insert(uri@, text@),
    {
        let ghost before = self.map@;
        let ghost key = uri@;
        self.map.insert(uri, text);
        assert(texts(before.insert(key, text)) =~= texts(before).insert(key, text@));
    }

    /// Closes a document.
    pub fn remove(&mut self, uri: &str)
        ensures
            final(self)@ == old(self)@.remove(uri@),
    {
        let ghost before = self.map@;
        self.map.remove(uri);
        assert(texts(before.remove(uri@)) =~= texts(before).remove(uri@));
    }

    /// Takes over changes to a document. Each holds the whole text, so the last
    /// one counts; without any, the text stays.
    pub fn change(&mut self, uri: String, changes: &Vec<String>)
        ensures
            final(self)@ == if changes@.len() > 0 {
                old(self)@.insert(uri@, changes@.last()@)
            } else {
                old(self)@
            },
    {
        if changes.len() > 0 {
            self.insert(uri, changes[changes.len() - 1].clone());
        }
    }
}

/// A document that was written reads back as it was written, and every other
/// one as it was before.
pub proof fn law_read_after_write(
    docs: Map<Seq<char>, Seq<char>>,
    uri: Seq<char>,
    text: Seq<char>,
    other: Seq<char>,
)
    ensures
        docs.insert(uri, text).contains_key(uri),
        docs.insert(uri, text)[uri] == text,
        other != uri ==> docs.insert(uri, text).contains_key(other) == docs.contains_key(other),
        other != uri && docs.contains_key(other) ==> docs.insert(uri, text)[other] == docs[other],
{
}

/// A document that was closed is gone, and every other one is as it was before.
pub proof fn law_closed_is_gone(
    docs: Map<Seq<char>, Seq<char>>,
    uri: Seq<char>,
    other: Seq<char>,
)
    ensures
        !docs.remove(uri).contains_key(uri),
        other != uri ==> docs.remove(uri).contains_key(other) == docs.contains_key(other),
        other != uri && docs.contains_key(other) ==> docs.remove(uri)[other] == docs[other],
{
}

/// The file that the path of a URI names: what follows the last slash. A path
/// without a slash at its start names none.
pub open spec fn file_of(path: Seq<char>) -> Seq<char> {
    if has_prefix(path, "/"@) {
        path.skip(last_occurrence(path, "/"@)->0 + 1)
    } else {
        seq![]
    }
}

/// The file that the path of a URI names.
pub fn file_of_path(path: &str) -> (res: String)
    ensures
        res@ == file_of(path@),
{
    let chars = chars_of(path);
    let slash = chars_of("/");
    let total = chars.len();
    proof {
        reveal_strlit("/");
        lemma_last_occurrence(path@, "/"@);
    }
    if starts(chars.as_slice(), slash.as_slice()) {
        match rfind(chars.as_slice(), slash.as_slice()) {
            Some(i) => {
                assert(i + 1 <= total);
                string_of(skip(chars.as_slice(), i + 1))
            },
            None => {
                assert(occurs_at(path@, "/"@, 0));
                String::new()
            },
        }
    } else {
        let res = String::new();
        assert(res@ =~= seq![]);
        res
    }
}

/// What follows the last slash of a path that starts with one is the file that
/// it names.
pub proof fn law_file_of(path: Seq<char>, at: int)
    requires
        path.len() > 0 && path[0] == '/',
        0 <= at < path.len() && path[at] == '/',
        forall|j: int| at < j < path.len() ==> path[j] != '/',
    ensures
        file_of(path) == path.subrange(at + 1, path.len() as int),
{
    let slash = "/"@;
    reveal_strlit("/");
    lemma_last_occurrence(path, slash);
    assert(path.take(1) =~= slash);
    assert(path.subrange(at, at + 1) =~= slash);
    assert(occurs_at(path, slash, at));
    let i = last_occurrence(path, slash)->0;
    assert(last_occurrence(path, slash) is Some);
    assert(occurs_at(path, slash, i));
    assert(path.subrange(i, i + 1)[0] == path[i]);
    assert(path[i] == '/');
    assert(i == at);
    assert(path.skip(at + 1) =~= path.subrange(at + 1, path.len() as int));
}

/// A path that does not start with a slash names no file.
pub proof fn law_no_file(path: Seq<char>)
    requires
        path.len() == 0 || path[0] != '/',
    ensures
        file_of(path).len() == 0,
{
    reveal_strlit("/");
    if path.len() > 0 {
        assert(path.take(1)[0] == path[0]);
    }
}

} // verus!
