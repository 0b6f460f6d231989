//! Where the word under the cursor is used: in the sources of the material and
//! in the document itself.

use vstd::prelude::*;
use vstd::utf8::encode_utf8;

use crate::lines::{
    find_tail, has_tail, is_use_at, is_word, law_tails_of_lines, lines, runs, split_lines,
};
use crate::names::{
    bytes_before, lemma_irreflexive, lemma_transitive, name_before, order, NameOrder,
};
use crate::position::{find_position, newlines, position_index, Position, Range};
use crate::refs::{RefLoc, ReferenceIndex};
use crate::semantic::option_view;
use crate::text::{
    chars_of, has_prefix, has_suffix, is_word_char, lemma_trail, skip, string_of, take, trail,
    trail_len, trail_run, CharClass,
};

verus! {

/// A line of a document.
#[derive(Debug)]
pub struct Location {
    pub uri: String,
    pub line: u32,
}

/// What a [`Location`] says.
#[verifier::ext_equal]
pub struct LocationView {
    pub uri: Seq<char>,
    pub line: u32,
}

impl View for Location {
    type V = LocationView;

    open spec fn view(&self) -> LocationView {
        LocationView { uri: self.uri@, line: self.line }
    }
}

impl Location {
    /// The start of the line.
    pub fn range(&self) -> (res: Range)
        ensures
            res.start == (Position { line: self.line, character: 0 }),
            res.end == (Position { line: self.line, character: 0 }),
    {
        let start = Position { line: self.line, character: 0 };
        Range { start, end: start }
    }
}

/// What a list of locations says.
pub open spec fn location_views(v: Seq<Location>) -> Seq<LocationView> {
    Seq::new(v.len(), |i: int| v[i]@)
}

/// Whether `a` stands before `b`: by URI, then by line.
pub open spec fn location_before(a: LocationView, b: LocationView) -> bool {
    name_before(a.uri, b.uri) || (a.uri == b.uri && a.line < b.line)
}

/// Whether locations are in order, none of them twice.
pub open spec fn ascending(v: Seq<LocationView>) -> bool {
    forall|i: int, j: int|
        0 <= i < j < v.len() ==> location_before(#[trigger] v[i], #[trigger] v[j])
}

/// Whether `list` holds what was found, in order and without repetition.
pub open spec fn is_tidy(list: Seq<LocationView>, found: Seq<LocationView>) -> bool {
    &&& ascending(list)
    &&& forall|l: LocationView| #[trigger] list.contains(l) <==> found.contains(l)
}

/// The word that ends at a position.
pub open spec fn word_at(text: Seq<char>, position: Position) -> Option<Seq<char>> {
    match position_index(text, position) {
        Some(i) => {
            let word = trail_run(text.take(i), CharClass::Word);
            if word.len() > 0 {
                Some(word)
            } else {
                None
            }
        },
        None => None,
    }
}

/// The line of a place of use, counted from zero.
pub open spec fn zero_based(line: usize) -> u32 {
    if line > 0 {
        (line - 1) as u32
    } else {
        0
    }
}

/// The places of use in the sources. A source that has no URI of its own goes
/// by that of the document.
pub open spec fn source_locations(
    places: Seq<RefLoc>,
    uris: Seq<Option<Seq<char>>>,
    uri: Seq<char>,
) -> Seq<LocationView> {
    Seq::new(
        places.len(),
        |i: int|
            LocationView {
                uri: match uris[i] {
                    Some(own) => own,
                    None => uri,
                },
                line: zero_based(places[i].line),
            },
    )
}

/// The lines of the document on which the word comes after a dot.
pub open spec fn document_locations(
    list: Seq<Seq<char>>,
    word: Seq<char>,
    uri: Seq<char>,
) -> Seq<LocationView>
    decreases list.len(),
{
    if list.len() == 0 {
        seq![]
    } else {
        let init = document_locations(list.drop_last(), word, uri);
        if has_tail(list.last(), word) {
            init.push(LocationView { uri, line: (list.len() - 1) as u32 })
        } else {
            init
        }
    }
}

/// All places of use of a word: those in the sources, then those in the
/// document.
pub open spec fn found_locations(
    text: Seq<char>,
    word: Seq<char>,
    uri: Seq<char>,
    refs: ReferenceIndex,
    uris: Seq<Option<Seq<char>>>,
) -> Seq<LocationView> {
    source_locations(refs.places_of(word), uris, uri) + document_locations(lines(text), word, uri)
}

/// The texts of a list that may lack some.
pub open spec fn optional_views(v: Seq<Option<String>>) -> Seq<Option<Seq<char>>> {
    Seq::new(v.len(), |i: int| option_view(v[i]))
}

/// Of two locations in order, the one after another in order comes after it.
proof fn lemma_before(a: LocationView, b: LocationView, c: LocationView)
    requires
        location_before(a, b),
        location_before(b, c),
    ensures
        location_before(a, c),
{
    if name_before(a.uri, b.uri) && name_before(b.uri, c.uri) {
        lemma_transitive(a.uri, b.uri, c.uri);
    }
}

/// No location stands before itself.
proof fn lemma_not_before(a: LocationView)
    ensures
        !location_before(a, a),
{
    lemma_irreflexive(a.uri);
}

/// How `a` stands to `b`.
fn order_locations(a: &Location, b: &Location) -> (res: NameOrder)
    ensures
        match res {
            NameOrder::Before => location_before(a@, b@),
            NameOrder::Same => a@ == b@,
            NameOrder::After => location_before(b@, a@),
        },
{
    match order(a.uri.as_str(), b.uri.as_str()) {
        NameOrder::Before => NameOrder::Before,
        NameOrder::After => NameOrder::After,
        NameOrder::Same => if a.line < b.line {
            NameOrder::Before
        } else if a.line == b.line {
            NameOrder::Same
        } else {
            NameOrder::After
        },
    }
}

/// Puts a location in its place, unless it is there.
fn put(list: &mut Vec<Location>, item: Location)
    requires
        ascending(location_views(old(list)@)),
    ensures
        ascending(location_views(final(list)@)),
        forall|l: LocationView| #[trigger]
            location_views(final(list)@).contains(l) <==> location_views(old(list)@).contains(l)
                || l == item@,
{
    let ghost before = location_views(list@);
    let mut i: usize = 0;
    while i < list.len()
        invariant
            i <= list@.len(),
            before == location_views(list@),
            location_views(old(list)@) == before,
            ascending(before),
            forall|j: int| 0 <= j < i ==> location_before(#[trigger] before[j], item@),
        ensures
            i <= list@.len(),
            before == location_views(list@),
            forall|j: int| 0 <= j < i ==> location_before(#[trigger] before[j], item@),
            i < list@.len() ==> location_before(item@, before[i as int]),
        decreases list@.len() - i,
    {
        assert(before[i as int] == list@[i as int]@);
        match order_locations(&list[i], &item) {
            NameOrder::Before => {
                i += 1;
            },
            NameOrder::Same => {
                assert(before.contains(item@));
                return ;
            },
            NameOrder::After => {
                break;
            },
        }
    }
    let ghost new = before.insert(i as int, item@);
    proof {
        assert forall|j: int| i <= j < before.len() implies location_before(
            item@,
            #[trigger] before[j],
        ) by {
            if j > i {
                lemma_before(item@, before[i as int], before[j]);
            }
        }
        assert forall|a: int, b: int| 0 <= a < b < new.len() implies location_before(
            #[trigger] new[a],
            #[trigger] new[b],
        ) by {
            let x = if a < i {
                a
            } else {
                a - 1
            };
            let y = if b < i {
                b
            } else {
                b - 1
            };
            if a != i && b != i {
                assert(new[a] == before[x] && new[b] == before[y]);
            } else if a == i {
                assert(new[b] == before[y]);
            } else {
                assert(new[a] == before[x]);
            }
        }
        assert forall|l: LocationView| #[trigger] new.contains(l) <==> before.contains(l) || l
            == item@ by {
            if new.contains(l) {
                let k = choose|k: int| 0 <= k < new.len() && new[k] == l;
                if k < i {
                    assert(before[k] == l);
                } else if k > i {
                    assert(before[k - 1] == l);
                }
            }
            if before.contains(l) {
                let k = choose|k: int| 0 <= k < before.len() && before[k] == l;
                if k < i {
                    assert(new[k] == l);
                } else {
                    assert(new[k + 1] == l);
                }
            }
            assert(new[i as int] == item@);
        }
    }
    list.insert(i, item);
    assert(location_views(list@) =~= new);
}

/// The word that ends at a position.
pub fn word_before(text: &str, position: Position) -> (res: Option<String>)
    ensures
        match res {
            Some(word) => word_at(text@, position) == Some(word@),
            None => word_at(text@, position) is None,
        },
{
    let chars = chars_of(text);
    match find_position(chars.as_slice(), position) {
        None => None,
        Some(i) => {
            let before = take(chars.as_slice(), i);
            let n = trail(before, CharClass::Word);
            let word = skip(before, before.len() - n);
            if word.len() > 0 {
                Some(string_of(word))
            } else {
                None
            }
        },
    }
}

/// The places of use of a word, in order and without repetition. `uris` has the
/// URI of each place in the sources, as far as there is one.
pub fn locations(
    text: &str,
    word: &str,
    uri: &str,
    refs: &ReferenceIndex,
    uris: &Vec<Option<String>>,
) -> (res: Vec<Location>)
    requires
        uris@.len() == refs.places_of(word@).len(),
    ensures
        is_tidy(
            location_views(res@),
            found_locations(text@, word@, uri@, *refs, optional_views(uris@)),
        ),
{
    let ghost places = refs.places_of(word@);
    let ghost own = optional_views(uris@);
    let ghost sources = source_locations(places, own, uri@);
    let mut res: Vec<Location> = Vec::new();
    assert(location_views(res@) =~= seq![]);
    assert(sources.take(0) =~= seq![]);
    match refs.refs.get(word) {
        None => {
            assert(sources =~= seq![]);
        },
        Some(list) => {
            let mut i: usize = 0;
            while i < list.len()
                invariant
                    i <= list@.len(),
                    list@ == places,
                    own == optional_views(uris@),
                    uris@.len() == places.len(),
                    sources == source_locations(places, own, uri@),
                    is_tidy(location_views(res@), sources.take(i as int)),
                decreases list@.len() - i,
            {
                let file_uri = match &uris[i] {
                    Some(own) => own.clone(),
                    None => uri.to_owned(),
                };
                let line = if list[i].line > 0 {
                    (list[i].line - 1) as u32
                } else {
                    0
                };
                let item = Location { uri: file_uri, line };
                proof {
                    assert(own[i as int] == match uris@[i as int] {
                        Some(s) => Some(s@),
                        None => None,
                    });
                    assert(item@ =~= sources[i as int]);
                    assert(sources.take(i + 1) =~= sources.take(i as int).push(item@));
                    lemma_contains_push(sources.take(i as int), item@);
                }
                put(&mut res, item);
                i += 1;
            }
            assert(sources.take(i as int) =~= sources);
        },
    }
    assert(is_tidy(location_views(res@), sources));
    let chars = chars_of(text);
    let sought = chars_of(word);
    let list = split_lines(chars.as_slice());
    let ghost all = lines(text@);
    let mut i: usize = 0;
    assert(all.take(0) =~= seq![]);
    assert(document_locations(all.take(0), word@, uri@) =~= seq![]);
    assert(sources + document_locations(all.take(0), word@, uri@) =~= sources);
    while i < list.len()
        invariant
            i <= list@.len(),
            runs(list@) == all,
            sought@ == word@,
            is_tidy(
                location_views(res@),
                sources + document_locations(all.take(i as int), word@, uri@),
            ),
        decreases list@.len() - i,
    {
        let ghost done = document_locations(all.take(i as int), word@, uri@);
        proof {
            assert(all.take(i + 1).drop_last() =~= all.take(i as int));
            assert(all[i as int] == runs(list@)[i as int]);
        }
        if find_tail(list[i], sought.as_slice()) {
            let item = Location { uri: uri.to_owned(), line: i as u32 };
            proof {
                assert(sources + done.push(item@) =~= (sources + done).push(item@));
                lemma_contains_push(sources + done, item@);
            }
            put(&mut res, item);
        }
        i += 1;
    }
    assert(all.take(i as int) =~= all);
    res
}

proof fn lemma_contains_push(v: Seq<LocationView>, item: LocationView)
    ensures
        forall|l: LocationView| #[trigger]
            v.push(item).contains(l) <==> v.contains(l) || l == item,
{
    let new = v.push(item);
    assert forall|l: LocationView| #[trigger] new.contains(l) <==> v.contains(l) || l == item by {
        if v.contains(l) {
            let k = choose|k: int| 0 <= k < v.len() && v[k] == l;
            assert(new[k] == l);
        }
        assert(new[v.len() as int] == item);
    }
}

// ---- URIs of sources --------------------------------------------------------

/// A path.
#[verifier::external_type_specification]
#[verifier::external_body]
pub struct ExPathBuf(std::path::PathBuf);

/// Whether a file name is one that paths and URIs take as it is: word
/// characters, `.` and `-` alone, and no `.` at the start.
pub open spec fn is_plain_name(file: Seq<char>) -> bool {
    &&& file.len() > 0 && file[0] != '.'
    &&& forall|i: int|
        0 <= i < file.len() ==> is_word_char(#[trigger] file[i]) || file[i] == '.' || file[i]
            == '-'
}

/// Whether `uri` is that of a file with the name `file`: it starts with
/// `file://`, and its last segment is the name, where the name is plain.
pub open spec fn names_file(uri: Seq<char>, file: Seq<char>) -> bool {
    &&& has_prefix(uri, "file://"@)
    &&& is_plain_name(file) ==> has_suffix(uri, "/"@ + file)
}

/// What `Url::from_file_path` gives for a file in a directory.
pub uninterp spec fn joined_uri(dir: std::path::PathBuf, file: Seq<char>) -> Option<Seq<char>>;

/// What `Url::from_file_path` gives for a file name alone.
pub uninterp spec fn bare_uri(file: Seq<char>) -> Option<Seq<char>>;

/// `Url::from_file_path` on `Path::join`: the URI of a file in a directory, if
/// the path has one. It is made of the path alone, which is a value of its
/// platform. It starts with `file://`, and the last component of the path is
/// its last segment, percent-encoded, which leaves a plain name as it is.
#[verifier::external_body]
fn uri_in(dir: &std::path::PathBuf, file: &str) -> (res: Option<String>)
    ensures
        option_view(res) == joined_uri(*dir, file@),
        res matches Some(uri) ==> names_file(uri@, file@),
{
    tower_lsp::lsp_types::Url::from_file_path(dir.join(file)).ok().map(|uri| uri.to_string())
}

/// `Url::from_file_path` on a file name alone: the URI of the path that the
/// name is on its platform, if that has one, made as for a file in a directory.
#[verifier::external_body]
fn uri_of(file: &str) -> (res: Option<String>)
    ensures
        option_view(res) == bare_uri(file@),
        res matches Some(uri) ==> names_file(uri@, file@),
{
    tower_lsp::lsp_types::Url::from_file_path(file).ok().map(|uri| uri.to_string())
}

/// The URI of a source, which lies in `dir`.
pub open spec fn source_uri(dir: Option<&std::path::PathBuf>, file: Seq<char>) -> Option<
    Seq<char>,
> {
    match dir {
        Some(dir) => joined_uri(*dir, file),
        None => bare_uri(file),
    }
}

/// The URIs of places of use, one for each. Sources lie in `dir`.
pub open spec fn uris_in(dir: Option<&std::path::PathBuf>, places: Seq<RefLoc>) -> Seq<
    Option<Seq<char>>,
> {
    Seq::new(places.len(), |i: int| source_uri(dir, places[i].file@))
}

/// Whether there is one entry for each place, and the URIs that there are, are
/// each that of the file of its place.
pub open spec fn are_file_uris(uris: Seq<Option<Seq<char>>>, places: Seq<RefLoc>) -> bool {
    &&& uris.len() == places.len()
    &&& forall|i: int|
        0 <= i < uris.len() ==> ((#[trigger] uris[i]) matches Some(uri) ==> names_file(
            uri,
            places[i].file@,
        ))
}

/// The URIs of places of use, one for each. Sources lie in `dir`.
fn uris_of(places: &Vec<RefLoc>, dir: Option<&std::path::PathBuf>) -> (res: Vec<Option<String>>)
    ensures
        optional_views(res@) == uris_in(dir, places@),
        are_file_uris(uris_in(dir, places@), places@),
{
    let ghost all = uris_in(dir, places@);
    let mut res: Vec<Option<String>> = Vec::new();
    let mut i: usize = 0;
    assert(optional_views(res@) =~= all.take(0));
    while i < places.len()
        invariant
            i <= places@.len(),
            all == uris_in(dir, places@),
            optional_views(res@) == all.take(i as int),
            forall|j: int|
                0 <= j < i ==> ((#[trigger] all[j]) matches Some(uri) ==> names_file(
                    uri,
                    places@[j].file@,
                )),
        decreases places@.len() - i,
    {
        let file = places[i].file.as_str();
        let uri = match dir {
            Some(dir) => uri_in(dir, file),
            None => uri_of(file),
        };
        let ghost before = res@;
        res.push(uri);
        proof {
            assert(option_view(uri) == all[i as int]);
            assert(optional_views(res@) =~= optional_views(before).push(all[i as int]));
            assert(all.take(i + 1) =~= all.take(i as int).push(all[i as int]));
        }
        i += 1;
    }
    assert(all.take(i as int) =~= all);
    res
}

/// Whether `list` has the places of use of a word: those in the sources, which
/// lie in `dir`, each under the URI of its file, or of the document where the
/// file has none, and those in the document.
pub open spec fn lists_uses(
    list: Seq<LocationView>,
    text: Seq<char>,
    word: Seq<char>,
    uri: Seq<char>,
    refs: ReferenceIndex,
    dir: Option<&std::path::PathBuf>,
) -> bool {
    let places = refs.places_of(word);
    &&& is_tidy(list, found_locations(text, word, uri, refs, uris_in(dir, places)))
    &&& are_file_uris(uris_in(dir, places), places)
}

/// The places of use of the word that ends at a position of the document
/// `uri`: nothing, where no word ends there. Each place in a source goes by the
/// URI of its file in `refs_dir`; see [`locations`] for the list under given
/// URIs.
pub fn references(
    text: &str,
    position: Position,
    uri: &str,
    refs: &ReferenceIndex,
    refs_dir: Option<&std::path::PathBuf>,
) -> (res: Option<Vec<Location>>)
    ensures
        match res {
            Some(list) => match word_at(text@, position) {
                Some(word) => lists_uses(
                    location_views(list@),
                    text@,
                    word,
                    uri@,
                    *refs,
                    refs_dir,
                ),
                None => false,
            },
            None => word_at(text@, position) is None,
        },
{
    match word_before(text, position) {
        None => None,
        Some(word) => {
            let ghost places = refs.places_of(word@);
            let uris = match refs.refs.get(word.as_str()) {
                Some(places) => uris_of(places, refs_dir),
                None => {
                    let none: Vec<Option<String>> = Vec::new();
                    assert(optional_views(none@) =~= uris_in(refs_dir, places));
                    none
                },
            };
            assert(optional_views(uris@) == uris_in(refs_dir, places));
            assert(optional_views(uris@).len() == uris@.len());
            Some(locations(text, word.as_str(), uri, refs, &uris))
        },
    }
}

/// No place of use in the sources is left out: the list has its line, under the
/// URI of its file in the directory, or of the document where the file has
/// none.
pub proof fn law_no_use_is_left_out(
    list: Seq<LocationView>,
    text: Seq<char>,
    word: Seq<char>,
    uri: Seq<char>,
    refs: ReferenceIndex,
    dir: Option<&std::path::PathBuf>,
    i: int,
)
    requires
        lists_uses(list, text, word, uri, refs, dir),
        0 <= i < refs.places_of(word).len(),
    ensures
        list.contains(
            LocationView {
                uri: match source_uri(dir, refs.places_of(word)[i].file@) {
                    Some(own) => own,
                    None => uri,
                },
                line: zero_based(refs.places_of(word)[i].line),
            },
        ),
        source_uri(dir, refs.places_of(word)[i].file@) matches Some(own) ==> names_file(
            own,
            refs.places_of(word)[i].file@,
        ),
{
    let places = refs.places_of(word);
    let uris = uris_in(dir, places);
    let found = found_locations(text, word, uri, refs, uris);
    let l = source_locations(places, uris, uri)[i];
    assert(found[i] == l);
    assert(found.contains(l));
    assert(uris[i] == source_uri(dir, places[i].file@));
}

/// Two lists with the same places of use are the same: the order and the lack
/// of repetition leave no choice.
pub proof fn law_tidy_unique(
    a: Seq<LocationView>,
    b: Seq<LocationView>,
    found: Seq<LocationView>,
)
    requires
        is_tidy(a, found),
        is_tidy(b, found),
    ensures
        a == b,
    decreases a.len(),
{
    if a.len() == 0 {
        if b.len() > 0 {
            assert(b.contains(b[0]));
            assert(a.contains(b[0]));
        }
        assert(a =~= b);
    } else {
        assert(a.contains(a.last()));
        assert(b.contains(a.last()));
        let k = choose|k: int| 0 <= k < b.len() && b[k] == a.last();
        assert(b.contains(b.last()));
        assert(a.contains(b.last()));
        let m = choose|m: int| 0 <= m < a.len() && a[m] == b.last();
        if k < b.len() - 1 {
            assert(location_before(b[k], b[b.len() - 1]));
            lemma_not_before(a.last());
            if m < a.len() - 1 {
                assert(location_before(a[m], a[a.len() - 1]));
                lemma_before(a.last(), b.last(), a.last());
            }
        }
        assert(a.last() == b.last());
        let x = a.drop_last();
        let y = b.drop_last();
        lemma_tidy_prefix(a);
        lemma_tidy_prefix(b);
        assert(is_tidy(y, x)) by {
            assert forall|l: LocationView| #[trigger] y.contains(l) <==> x.contains(l) by {
                assert(a.contains(l) <==> b.contains(l));
            }
        }
        law_tidy_unique(x, y, x);
        assert(a =~= x.push(a.last()));
        assert(b =~= y.push(b.last()));
    }
}

proof fn lemma_tidy_prefix(v: Seq<LocationView>)
    requires
        v.len() > 0,
        ascending(v),
    ensures
        ascending(v.drop_last()),
        forall|l: LocationView| #[trigger]
            v.drop_last().contains(l) <==> v.contains(l) && l != v.last(),
{
    let init = v.drop_last();
    assert forall|i: int, j: int| 0 <= i < j < init.len() implies location_before(
        #[trigger] init[i],
        #[trigger] init[j],
    ) by {
        assert(location_before(v[i], v[j]));
    }
    assert forall|l: LocationView| #[trigger] init.contains(l) <==> v.contains(l) && l
        != v.last() by {
        if init.contains(l) {
            let k = choose|k: int| 0 <= k < init.len() && init[k] == l;
            assert(v[k] == l);
            assert(location_before(v[k], v[v.len() - 1]));
            lemma_not_before(l);
        }
        if v.contains(l) && l != v.last() {
            let k = choose|k: int| 0 <= k < v.len() && v[k] == l;
            assert(init[k] == l);
        }
    }
}

proof fn lemma_document_locations(
    list: Seq<Seq<char>>,
    word: Seq<char>,
    uri: Seq<char>,
    l: LocationView,
)
    ensures
        document_locations(list, word, uri).contains(l) <==> exists|k: int|
            0 <= k < list.len() && has_tail(#[trigger] list[k], word) && l == (LocationView {
                uri,
                line: k as u32,
            }),
    decreases list.len(),
{
    let all = document_locations(list, word, uri);
    if list.len() > 0 {
        let init = list.drop_last();
        let before = document_locations(init, word, uri);
        let last = LocationView { uri, line: (list.len() - 1) as u32 };
        lemma_document_locations(init, word, uri, l);
        lemma_contains_push(before, last);
        if exists|k: int|
            0 <= k < list.len() && has_tail(#[trigger] list[k], word) && l == (LocationView {
                uri,
                line: k as u32,
            }) {
            let k = choose|k: int|
                0 <= k < list.len() && has_tail(#[trigger] list[k], word) && l == (LocationView {
                    uri,
                    line: k as u32,
                });
            if k < init.len() {
                assert(init[k] == list[k]);
            } else {
                assert(list.last() == list[k]);
            }
        }
        if before.contains(l) {
            let k = choose|k: int|
                0 <= k < init.len() && has_tail(#[trigger] init[k], word) && l == (LocationView {
                    uri,
                    line: k as u32,
                });
            assert(list[k] == init[k]);
        }
        if all.contains(l) && !before.contains(l) {
            assert(list[list.len() - 1] == list.last());
        }
    }
}

/// The line of the document on which a dot has the word behind it.
pub open spec fn line_of_use(text: Seq<char>, uri: Seq<char>, d: int) -> LocationView {
    LocationView { uri, line: newlines(text.take(d)) as u32 }
}

/// The list has the line of every dot of the document that has the word behind
/// it, and besides the places in the sources it has nothing else.
pub proof fn law_document_uses(
    list: Seq<LocationView>,
    text: Seq<char>,
    word: Seq<char>,
    uri: Seq<char>,
    refs: ReferenceIndex,
    dir: Option<&std::path::PathBuf>,
)
    requires
        lists_uses(list, text, word, uri, refs, dir),
        is_word(word),
    ensures
        forall|d: int| #[trigger]
            is_use_at(text, word, d) ==> list.contains(line_of_use(text, uri, d)),
        forall|l: LocationView| #[trigger]
            list.contains(l) ==> {
                ||| exists|d: int| #[trigger]
                    is_use_at(text, word, d) && l == line_of_use(text, uri, d)
                ||| exists|i: int|
                    0 <= i < refs.places_of(word).len() && l == (LocationView {
                        uri: match source_uri(dir, (#[trigger] refs.places_of(word)[i]).file@) {
                            Some(own) => own,
                            None => uri,
                        },
                        line: zero_based(refs.places_of(word)[i].line),
                    })
            },
{
    let places = refs.places_of(word);
    let uris = uris_in(dir, places);
    let sources = source_locations(places, uris, uri);
    let own = document_locations(lines(text), word, uri);
    let found = found_locations(text, word, uri, refs, uris);
    assert forall|d: int| #[trigger] is_use_at(text, word, d) implies list.contains(
        line_of_use(text, uri, d),
    ) by {
        let l = line_of_use(text, uri, d);
        let k = newlines(text.take(d)) as int;
        law_tails_of_lines(text, word, k);
        lemma_document_locations(lines(text), word, uri, l);
        assert(has_tail(lines(text)[k], word));
        assert(own.contains(l));
        let m = choose|m: int| 0 <= m < own.len() && own[m] == l;
        assert(found[sources.len() + m] == l);
        assert(found.contains(l));
    }
    assert forall|l: LocationView| #[trigger] list.contains(l) implies {
        ||| exists|d: int| #[trigger] is_use_at(text, word, d) && l == line_of_use(text, uri, d)
        ||| exists|i: int|
            0 <= i < places.len() && l == (LocationView {
                uri: match source_uri(dir, (#[trigger] places[i]).file@) {
                    Some(own) => own,
                    None => uri,
                },
                line: zero_based(places[i].line),
            })
    } by {
        assert(found.contains(l));
        let m = choose|m: int| 0 <= m < found.len() && found[m] == l;
        if m < sources.len() {
            assert(found[m] == sources[m]);
            assert(uris[m] == source_uri(dir, places[m].file@));
        } else {
            assert(found[m] == own[m - sources.len()]);
            assert(own.contains(l));
            lemma_document_locations(lines(text), word, uri, l);
            let k = choose|k: int|
                0 <= k < lines(text).len() && has_tail(#[trigger] lines(text)[k], word) && l == (
                LocationView { uri, line: k as u32 });
            law_tails_of_lines(text, word, k);
            let d = choose|d: int| #[trigger]
                is_use_at(text, word, d) && newlines(text.take(d)) == k;
            assert(is_use_at(text, word, d) && l == line_of_use(text, uri, d));
        }
    }
}

/// The word that ends at a position is the longest run of word characters that
/// does; there is none only where no word character stands right before.
pub proof fn law_word_at(text: Seq<char>, position: Position, i: int)
    requires
        position_index(text, position) == Some(i),
        0 <= i <= text.len(),
    ensures
        match word_at(text, position) {
            Some(word) => {
                let a = i - word.len();
                &&& is_word(word)
                &&& 0 <= a && word == text.subrange(a, i)
                &&& a == 0 || !is_word_char(text[a - 1])
            },
            None => i == 0 || !is_word_char(text[i - 1]),
        },
{
    let before = text.take(i);
    let class = CharClass::Word;
    let n = trail_len(before, class) as int;
    lemma_trail(before, class);
    let word = trail_run(before, class);
    assert(word =~= text.subrange(i - n, i));
    assert forall|j: int| 0 <= j < word.len() implies is_word_char(#[trigger] word[j]) by {
        assert(word[j] == before[i - n + j]);
        assert(class.admits(before[i - n + j]));
    }
    if n < i {
        assert(before[i - n - 1] == text[i - n - 1]);
    }
}

/// Lines are counted from one in the sources and from zero in locations.
pub proof fn law_lines_from_zero(line: usize)
    requires
        1 <= line <= u32::MAX,
    ensures
        zero_based(line) + 1 == line,
{
}

/// Places of use are listed by the bytes of their URIs, and under one URI by
/// their lines, none of them twice.
pub proof fn law_order_of_uses(
    list: Seq<LocationView>,
    text: Seq<char>,
    word: Seq<char>,
    uri: Seq<char>,
    refs: ReferenceIndex,
    dir: Option<&std::path::PathBuf>,
    i: int,
    j: int,
)
    requires
        lists_uses(list, text, word, uri, refs, dir),
        0 <= i < j < list.len(),
    ensures
        list[i].uri == list[j].uri ==> list[i].line < list[j].line,
        list[i].uri != list[j].uri ==> bytes_before(
            encode_utf8(list[i].uri),
            encode_utf8(list[j].uri),
        ),
{
    assert(location_before(list[i], list[j]));
    lemma_not_before(list[i]);
}

/// A place of use in a source is listed under the URI of the file in the
/// directory of the sources, or of the file alone where there is no directory;
/// where that has no URI, under the URI of the document.
pub proof fn law_uri_of_use(
    list: Seq<LocationView>,
    text: Seq<char>,
    word: Seq<char>,
    uri: Seq<char>,
    refs: ReferenceIndex,
    dir: Option<&std::path::PathBuf>,
    i: int,
    own: Seq<char>,
)
    requires
        lists_uses(list, text, word, uri, refs, dir),
        0 <= i < refs.places_of(word).len(),
        1 <= refs.places_of(word)[i].line <= u32::MAX,
        match dir {
            Some(d) => match joined_uri(*d, refs.places_of(word)[i].file@) {
                Some(joined) => own == joined,
                None => own == uri,
            },
            None => match bare_uri(refs.places_of(word)[i].file@) {
                Some(bare) => own == bare,
                None => own == uri,
            },
        },
    ensures
        list.contains(
            LocationView { uri: own, line: (refs.places_of(word)[i].line - 1) as u32 },
        ),
{
    law_no_use_is_left_out(list, text, word, uri, refs, dir, i);
}

} // verus!
