//! Hover: what is known of the node under the cursor.
//!
//! An identifier is told apart by what it stands in: a reference, the callee
//! of a `TABLE` or `FUNCTION` call, a call, a named argument, the object or the
//! class of an object declaration. Keywords, literals and comments have texts
//! of their own, most operators and brackets have none.

use vstd::prelude::*;
use vstd::string::*;

use crate::grammar::{focus_of, read_focus, Focus, FocusView};
use crate::lines::{
    is_line, is_mention, is_mention_of, is_use_at, is_word, lemma_first_use, lemma_no_use,
    lemma_pieces_len, lemma_use_behind, lemma_use_count_same, lemma_use_count_split,
    lemma_use_on_first_line, lines, pieces, runs, split, split_lines, use_count, without_return,
};
use crate::material::{CharValueInfo, MaterialIndex};
use crate::names::{lists, name_set, views};
use crate::position::{
    byte_len, byte_range, is_span, lemma_prefix_grows, position_index, position_to_byte, range_of,
    slice_at, slice_bytes, Position, Range,
};
use crate::refs::{elsewhere, ref_files, referents, RefLoc, ReferenceIndex};
use crate::render::{decimal, first, join, join_first, joined, number};
use crate::text::{
    builtin, chars_of, is_builtin, lead_len, lemma_lead, same_str, string_of, trim, trim_both,
    CharClass,
};

verus! {

/// How many of the pieces are `name`.
pub open spec fn mention_count(list: Seq<Seq<char>>, name: Seq<char>) -> nat
    decreases list.len(),
{
    if list.len() == 0 {
        0
    } else {
        (if is_mention(list[0], name) {
            1nat
        } else {
            0
        }) + mention_count(list.skip(1), name)
    }
}

/// How often `name` comes after a dot in the lines.
pub open spec fn occurrences(list: Seq<Seq<char>>, name: Seq<char>) -> nat
    decreases list.len(),
{
    if list.len() == 0 {
        0
    } else {
        mention_count(pieces(list[0], '.').skip(1), name) + occurrences(list.skip(1), name)
    }
}

proof fn lemma_mention_count(list: Seq<Seq<char>>, name: Seq<char>)
    ensures
        mention_count(list, name) <= list.len(),
    decreases list.len(),
{
    if list.len() > 0 {
        lemma_mention_count(list.skip(1), name);
    }
}

proof fn lemma_occurrences(s: Seq<char>, name: Seq<char>)
    ensures
        occurrences(lines(s), name) <= s.len(),
    decreases s.len(),
{
    let n = lead_len(s, CharClass::Except('\n')) as int;
    if s.len() > 0 {
        let all = lines(s);
        let line = all[0];
        lemma_pieces_len(line, '.');
        lemma_mention_count(pieces(line, '.').skip(1), name);
        if n >= s.len() {
            assert(all.skip(1) =~= seq![]);
            assert(occurrences(all.skip(1), name) == 0);
        } else {
            lemma_occurrences(s.skip(n + 1), name);
            assert(all.skip(1) =~= lines(s.skip(n + 1)));
            assert(without_return(s.take(n)).len() <= n);
        }
    }
}

fn count_mentions(line: &[char], name: &[char]) -> (res: usize)
    ensures
        res == mention_count(pieces(line@, '.').skip(1), name@),
{
    let list = split(line, '.');
    let ghost all = pieces(line@, '.').skip(1);
    let mut count: usize = 0;
    let mut i: usize = 1;
    proof {
        lemma_pieces_len(line@, '.');
        lemma_mention_count(all, name@);
        assert(all.skip(0) =~= all);
    }
    while i < list.len()
        invariant
            1 <= i <= list@.len(),
            runs(list@) == pieces(line@, '.'),
            all == pieces(line@, '.').skip(1),
            count + mention_count(all.skip(i - 1), name@) == mention_count(all, name@),
            mention_count(all, name@) <= all.len() <= list@.len(),
        decreases list@.len() - i,
    {
        proof {
            assert(all.skip(i - 1).skip(1) =~= all.skip(i as int));
            assert(all.skip(i - 1)[0] == runs(list@)[i as int]);
        }
        if is_mention_of(list[i], name) {
            count += 1;
        }
        i += 1;
    }
    count
}

/// How often `name` comes after a dot in the text: `name` right after the dot,
/// but for white space, and not as the start of a longer name.
pub fn count_occurrences(text: &str, name: &str) -> (res: usize)
    ensures
        res == occurrences(lines(text@), name@),
{
    let chars = chars_of(text);
    let sought = chars_of(name);
    let list = split_lines(chars.as_slice());
    let ghost all = lines(text@);
    let mut count: usize = 0;
    let mut i: usize = 0;
    proof {
        lemma_occurrences(text@, name@);
        assert(all.skip(0) =~= all);
    }
    let total = chars.len();
    while i < list.len()
        invariant
            i <= list@.len(),
            sought@ == name@,
            runs(list@) == all,
            count + occurrences(all.skip(i as int), name@) == occurrences(all, name@),
            occurrences(all, name@) <= total,
        decreases list@.len() - i,
    {
        proof {
            assert(all.skip(i as int).skip(1) =~= all.skip(i + 1));
            assert(all.skip(i as int)[0] == runs(list@)[i as int]);
        }
        count += count_mentions(list[i], sought.as_slice());
        i += 1;
    }
    count
}

/// What the cursor is on, in Markdown, and where it stands.
#[derive(Debug)]
pub struct Hover {
    pub value: String,
    pub range: Range,
}

/// What a [`Hover`] says.
#[verifier::ext_equal]
pub struct HoverView {
    pub value: Seq<char>,
    pub range: Range,
}

impl View for Hover {
    type V = HoverView;

    open spec fn view(&self) -> HoverView {
        HoverView { value: self.value@, range: self.range }
    }
}

// ---- Characteristics --------------------------------------------------------

/// How many values are shown as examples.
pub const EXAMPLES: usize = 5;

/// How many places of use are shown.
pub const PLACES: usize = 4;

/// The description of a characteristic.
pub open spec fn description_text(info: CharValueInfo) -> Seq<char> {
    match info.description {
        Some(d) => "\n\n*"@ + d@ + "*"@,
        None => seq![],
    }
}

/// The values of a characteristic.
pub open spec fn values_text(info: CharValueInfo) -> Seq<char> {
    if info.values@.len() > 0 {
        "\n\nValue range ("@ + decimal(info.values@.len()) + " values, e.g.): `"@ + joined(
            first(views(info.values@), EXAMPLES as nat),
            "`, `"@,
        ) + "`"@
    } else {
        seq![]
    }
}

/// Whether a characteristic is numeric, and which signs it takes.
pub open spec fn sign_text(info: CharValueInfo) -> Seq<char> {
    if info.numeric {
        let signs = if info.with_sign {
            " — **accepts negative values**"@
        } else {
            " — no negative values"@
        };
        "\nNumeric characteristic"@ + signs
    } else {
        seq![]
    }
}

/// What the material knows of a characteristic.
pub open spec fn characteristic_text(mat: MaterialIndex, name: Seq<char>) -> Seq<char> {
    if mat.char_values@.contains_key(name) {
        let info = mat.char_values@[name];
        description_text(info) + values_text(info) + sign_text(info)
    } else {
        seq![]
    }
}

/// A place of use.
pub open spec fn place_text(place: RefLoc) -> Seq<char> {
    "`"@ + place.file@ + ":"@ + decimal(place.line as nat) + "`"@
}

/// Places of use.
pub open spec fn place_texts(list: Seq<RefLoc>) -> Seq<Seq<char>> {
    Seq::new(list.len(), |i: int| place_text(list[i]))
}

/// Where a name is used.
pub open spec fn use_text(refs: ReferenceIndex, name: Seq<char>, file: Seq<char>) -> Seq<char> {
    let all = refs.places_of(name);
    let others = first(elsewhere(all, file), PLACES as nat);
    let shown = if others.len() > 0 {
        " — "@ + joined(place_texts(others), ", "@)
    } else {
        seq![]
    };
    if all.len() > 0 {
        "\n\n**Where used:** "@ + decimal(all.len()) + " refs in "@ + decimal(
            name_set(ref_files(all)).len(),
        ) + " files"@ + shown
    } else {
        seq![]
    }
}

/// The text for a reference.
pub open spec fn reference_text(
    text: Seq<char>,
    name: Seq<char>,
    is_object: bool,
    mat: MaterialIndex,
    refs: ReferenceIndex,
    file: Seq<char>,
) -> Seq<char> {
    let label = if is_object {
        "object variable reference"@
    } else {
        "characteristic/object reference"@
    };
    let mark = if is_builtin(name) {
        " (builtin object variable)"@
    } else {
        seq![]
    };
    let extra = if is_builtin(name) {
        seq![]
    } else {
        characteristic_text(mat, name) + use_text(refs, name, file)
    };
    "`"@ + name + "` — "@ + label + mark + "\n\nOccurrences in this document: **"@ + decimal(
        occurrences(lines(text), name),
    ) + "**"@ + extra
}

// ---- Tables -----------------------------------------------------------------

/// A column of a table.
pub open spec fn column_text(column: Seq<char>, keys: Seq<Seq<char>>) -> Seq<char> {
    let mark = if keys.contains(column) {
        "` — **key**"@
    } else {
        "`"@
    };
    "- `"@ + column + mark
}

/// The columns of a table.
pub open spec fn column_texts(columns: Seq<Seq<char>>, keys: Seq<Seq<char>>) -> Seq<Seq<char>> {
    Seq::new(columns.len(), |i: int| column_text(columns[i], keys))
}

/// The keys of a table.
pub open spec fn keys_text(keys: Seq<Seq<char>>) -> Seq<char> {
    if keys.len() > 0 {
        "\n\nKeys: `"@ + joined(keys, "`, `"@) + "`"@
    } else {
        seq![]
    }
}

/// The key fields that the material knows of a table.
pub open spec fn keys_of(mat: MaterialIndex, name: Seq<char>) -> Seq<Seq<char>> {
    if mat.vt_keys@.contains_key(name) {
        views(mat.vt_keys@[name]@)
    } else {
        seq![]
    }
}

/// The text for the callee of a `TABLE` or `FUNCTION` call.
pub open spec fn callee_text(mat: MaterialIndex, name: Seq<char>) -> Seq<char> {
    if mat.vt_chars@.contains_key(name) {
        let columns = views(mat.vt_chars@[name]@);
        let keys = keys_of(mat, name);
        "`"@ + name + "` — variant table ("@ + decimal(columns.len()) + " columns)\n\n"@ + joined(
            column_texts(columns, keys),
            "\n"@,
        ) + keys_text(keys)
    } else {
        "`"@ + name + "` — variant table / function call callee."@
    }
}

// ---- Classes ----------------------------------------------------------------

/// The text for the class of an object declaration.
pub open spec fn class_text(mat: MaterialIndex, name: Seq<char>) -> Seq<char> {
    if mat.classes@.contains(name) {
        "`"@ + name + "` — class (in material class universe)."@
    } else {
        "`"@ + name + "` — class (not in material class universe)."@
    }
}

/// The text for the object of an object declaration.
pub open spec fn object_text(name: Seq<char>) -> Seq<char> {
    "`"@ + name + "` — constraint object declaration."@
}

// ---- Identifiers ------------------------------------------------------------

/// The text for an identifier, by the nearest node above that tells its role,
/// and by whether it is the class of an object declaration.
pub open spec fn identifier_text(
    text: Seq<char>,
    name: Seq<char>,
    ancestors: Seq<Seq<char>>,
    is_class: bool,
    mat: MaterialIndex,
    refs: ReferenceIndex,
    file: Seq<char>,
) -> Seq<char>
    decreases ancestors.len(),
{
    if ancestors.len() == 0 {
        "`"@ + name + "`"@
    } else {
        let kind = ancestors[0];
        if kind == "bare_ref"@ || kind == "object_ref"@ {
            reference_text(text, name, kind == "object_ref"@, mat, refs, file)
        } else if kind == "keyword_call"@ {
            callee_text(mat, name)
        } else if kind == "call"@ {
            "`"@ + name + "` — function call (math builtin or user function)."@
        } else if kind == "named_argument"@ {
            "`"@ + name + "` — parameter of a variant table / function call."@
        } else if kind == "object_decl"@ {
            if is_class {
                class_text(mat, name)
            } else {
                object_text(name)
            }
        } else {
            identifier_text(text, name, ancestors.skip(1), is_class, mat, refs, file)
        }
    }
}

// ---- Keywords and literals --------------------------------------------------

/// The text for a node that is no identifier.
pub open spec fn fixed_text(kind: Seq<char>, content: Seq<char>) -> Option<Seq<char>> {
    if kind == "comment"@ {
        Some("Comment\n\n```\n"@ + content + "\n```"@)
    } else if kind == "string"@ {
        Some("String literal\n\n`"@ + content + "`"@)
    } else if kind == "number"@ {
        Some("Numeric literal\n\n`"@ + content + "`"@)
    } else if kind == "IF"@ || kind == "if"@ {
        Some(IF_TEXT@)
    } else if kind == "AND"@ || kind == "and"@ {
        Some(AND_TEXT@)
    } else if kind == "OR"@ || kind == "or"@ {
        Some("OR — condition disjunction."@)
    } else if kind == "NOT"@ || kind == "not"@ {
        Some("NOT — condition negation."@)
    } else if kind == "IN"@ || kind == "in"@ {
        Some(IN_TEXT@)
    } else if kind == "SPECIFIED"@ || kind == "specified"@ {
        Some(SPECIFIED_TEXT@)
    } else if kind == "TABLE"@ || kind == "table"@ || kind == "FUNCTION"@ || kind == "function"@
        || kind == "PFUNCTION"@ || kind == "pfunction"@ {
        Some(
            "`"@ + kind
                + "` call — variant table / custom function invocation with named parameters."@,
        )
    } else if kind == "OBJECTS"@ || kind == "CONDITION"@ || kind == "RESTRICTIONS"@ || kind
        == "INFERENCES"@ {
        Some("`"@ + kind + ":` — constraint section header."@)
    } else if kind == "$SET_DEFAULT"@ || kind == "$DEL_DEFAULT"@ || kind == "$SET_PRICING_FACTOR"@
        || kind == "$COUNT_PARTS"@ || kind == "$SUM_PARTS"@ {
        Some("`"@ + kind + "` — system procedure (engine builtin)."@)
    } else if kind == "?="@ {
        Some("`?=` — conditional assignment: set the value only if not already set."@)
    } else if kind == "="@ {
        Some("`=` — assignment / comparison equals."@)
    } else {
        None
    }
}

/// The text for the node under the cursor, where there is one.
pub open spec fn hover_text(
    text: Seq<char>,
    focus: FocusView,
    mat: MaterialIndex,
    refs: ReferenceIndex,
    file: Seq<char>,
) -> Option<Seq<char>> {
    let content = slice_at(text, focus.start_byte, focus.end_byte);
    if focus.kind == "identifier"@ {
        Some(
            identifier_text(text, content, focus.ancestors, focus.is_class, mat, refs, file),
        )
    } else {
        fixed_text(focus.kind, trim_both(content, CharClass::White))
    }
}

/// What is shown for the node under the cursor.
pub open spec fn hover_view(
    text: Seq<char>,
    focus: FocusView,
    mat: MaterialIndex,
    refs: ReferenceIndex,
    file: Seq<char>,
) -> Option<HoverView> {
    match hover_text(text, focus, mat, refs, file) {
        Some(value) => Some(
            HoverView { value, range: byte_range(text, focus.start_byte, focus.end_byte) },
        ),
        None => None,
    }
}

/// What is shown for a position of the text.
pub open spec fn hover_at(
    text: Seq<char>,
    position: Position,
    mat: MaterialIndex,
    refs: ReferenceIndex,
    file: Seq<char>,
    language: tree_sitter::Language,
) -> Option<HoverView> {
    match position_index(text, position) {
        Some(i) => match focus_of(language, text, byte_len(text.take(i))) {
            Some(focus) => hover_view(text, focus, mat, refs, file),
            None => None,
        },
        None => None,
    }
}

/// The text for `IF`.
pub const IF_TEXT: &'static str =
    "IF — guard clause; the preceding statement/condition applies only when this condition holds (trailing `,` or `.` ends the guard).";

/// The text for `AND`.
pub const AND_TEXT: &'static str =
    "AND — condition conjunction (multi-line chains continue while a line ends with AND/OR).";

/// The text for `IN`.
pub const IN_TEXT: &'static str =
    "IN — membership test against a list or range: `X IN ('A','B')` / `X IN (>2400 - 2600)`.";

/// The text for `SPECIFIED`.
pub const SPECIFIED_TEXT: &'static str =
    "SPECIFIED — presence test (prefix and postfix forms both occur in production code).";

// ---- Making the texts -------------------------------------------------------

/// Puts `text` between `before` and `after`.
fn between(before: &str, text: &str, after: &str) -> (res: String)
    ensures
        res@ == before@ + text@ + after@,
{
    let mut res = before.to_owned();
    res.append(text);
    res.append(after);
    res
}

/// What the material knows of a characteristic.
fn describe_characteristic(mat: &MaterialIndex, name: &str) -> (res: String)
    ensures
        res@ == characteristic_text(*mat, name@),
{
    let mut res = String::new();
    match mat.char_values.get(name) {
        None => {
            assert(res@ =~= seq![]);
        },
        Some(info) => {
            match &info.description {
                Some(d) => {
                    res = between("\n\n*", d.as_str(), "*");
                },
                None => {
                    assert(res@ =~= seq![]);
                },
            }
            assert(res@ == description_text(*info));
            if info.values.len() > 0 {
                let mut part = between(
                    "\n\nValue range (",
                    number(info.values.len()).as_str(),
                    " values, e.g.): `",
                );
                part.append(join_first(&info.values, EXAMPLES, "`, `").as_str());
                part.append("`");
                assert(part@ == values_text(*info));
                res.append(part.as_str());
            } else {
                assert(res@ + seq![] =~= res@);
            }
            assert(res@ == description_text(*info) + values_text(*info));
            if info.numeric {
                let mut part = "\nNumeric characteristic".to_owned();
                part.append(
                    if info.with_sign {
                        " — **accepts negative values**"
                    } else {
                        " — no negative values"
                    },
                );
                res.append(part.as_str());
            } else {
                assert(res@ + seq![] =~= res@);
            }
        },
    }
    res
}

/// Where a name is used.
fn describe_use(refs: &ReferenceIndex, name: &str, file: &str) -> (res: String)
    ensures
        res@ == use_text(*refs, name@, file@),
{
    let (total, files, others) = refs.summary(name, file, PLACES);
    if total == 0 {
        let res = String::new();
        assert(res@ =~= seq![]);
        return res;
    }
    let mut res = between("\n\n**Where used:** ", number(total).as_str(), " refs in ");
    res.append(number(files).as_str());
    res.append(" files");
    let ghost list = first(elsewhere(refs.places_of(name@), file@), PLACES as nat);
    assert(referents(others@) == list);
    assert(others@.len() == list.len());
    if others.len() > 0 {
        let mut places: Vec<String> = Vec::new();
        let mut i: usize = 0;
        while i < others.len()
            invariant
                i <= others@.len(),
                referents(others@) == list,
                places@.len() == i,
                forall|j: int| 0 <= j < i ==> (#[trigger] places@[j])@ == place_text(list[j]),
            decreases others@.len() - i,
        {
            assert(referents(others@)[i as int] == *others@[i as int]);
            let mut place = between("`", others[i].file.as_str(), ":");
            place.append(number(others[i].line).as_str());
            place.append("`");
            places.push(place);
            i += 1;
        }
        assert(views(places@) =~= place_texts(list));
        let mut shown = " — ".to_owned();
        shown.append(join(&places, ", ").as_str());
        res.append(shown.as_str());
    } else {
        assert(res@ + seq![] =~= res@);
    }
    res
}

/// The text for a reference.
fn describe_reference(
    text: &str,
    name: &str,
    is_object: bool,
    mat: &MaterialIndex,
    refs: &ReferenceIndex,
    file: &str,
) -> (res: String)
    ensures
        res@ == reference_text(text@, name@, is_object, *mat, *refs, file@),
{
    let chars = chars_of(name);
    let is_head = builtin(chars.as_slice());
    let mut res = between("`", name, "` — ");
    res.append(
        if is_object {
            "object variable reference"
        } else {
            "characteristic/object reference"
        },
    );
    if is_head {
        res.append(" (builtin object variable)");
    } else {
        assert(res@ + seq![] =~= res@);
    }
    res.append("\n\nOccurrences in this document: **");
    res.append(number(count_occurrences(text, name)).as_str());
    res.append("**");
    if is_head {
        assert(res@ + seq![] =~= res@);
    } else {
        let mut extra = describe_characteristic(mat, name);
        extra.append(describe_use(refs, name, file).as_str());
        res.append(extra.as_str());
    }
    res
}

/// The text for the callee of a `TABLE` or `FUNCTION` call.
fn describe_callee(mat: &MaterialIndex, name: &str) -> (res: String)
    ensures
        res@ == callee_text(*mat, name@),
{
    match mat.vt_chars.get(name) {
        None => between("`", name, "` — variant table / function call callee."),
        Some(columns) => {
            let none: Vec<String> = Vec::new();
            let keys = match mat.vt_keys.get(name) {
                Some(keys) => keys,
                None => &none,
            };
            assert(views(keys@) =~= keys_of(*mat, name@));
            let mut texts: Vec<String> = Vec::new();
            let mut i: usize = 0;
            while i < columns.len()
                invariant
                    i <= columns@.len(),
                    views(keys@) == keys_of(*mat, name@),
                    texts@.len() == i,
                    forall|j: int|
                        0 <= j < i ==> (#[trigger] texts@[j])@ == column_text(
                            views(columns@)[j],
                            keys_of(*mat, name@),
                        ),
                decreases columns@.len() - i,
            {
                let mut line = "- `".to_owned();
                line.append(columns[i].as_str());
                line.append(
                    if lists(keys, columns[i].as_str()) {
                        "` — **key**"
                    } else {
                        "`"
                    },
                );
                texts.push(line);
                i += 1;
            }
            assert(views(texts@) =~= column_texts(views(columns@), keys_of(*mat, name@)));
            let mut res = between("`", name, "` — variant table (");
            res.append(number(columns.len()).as_str());
            res.append(" columns)\n\n");
            res.append(join(&texts, "\n").as_str());
            if keys.len() > 0 {
                let part = between("\n\nKeys: `", join(keys, "`, `").as_str(), "`");
                res.append(part.as_str());
            } else {
                assert(res@ + seq![] =~= res@);
            }
            res
        },
    }
}

/// The text for the class of an object declaration.
fn describe_class(mat: &MaterialIndex, name: &str) -> (res: String)
    ensures
        res@ == class_text(*mat, name@),
{
    if mat.classes.contains(name) {
        between("`", name, "` — class (in material class universe).")
    } else {
        between("`", name, "` — class (not in material class universe).")
    }
}

/// The text for an identifier.
fn hover_identifier(
    text: &str,
    name: &str,
    ancestors: &Vec<String>,
    is_class: bool,
    mat: &MaterialIndex,
    refs: &ReferenceIndex,
    file: &str,
) -> (res: String)
    ensures
        res@ == identifier_text(text@, name@, views(ancestors@), is_class, *mat, *refs, file@),
{
    let ghost all = views(ancestors@);
    let mut i: usize = 0;
    assert(all.skip(0) =~= all);
    while i < ancestors.len()
        invariant
            i <= ancestors@.len(),
            all == views(ancestors@),
            identifier_text(text@, name@, all, is_class, *mat, *refs, file@) == identifier_text(
                text@,
                name@,
                all.skip(i as int),
                is_class,
                *mat,
                *refs,
                file@,
            ),
        decreases ancestors@.len() - i,
    {
        let kind = ancestors[i].as_str();
        proof {
            assert(all.skip(i as int)[0] == kind@);
            assert(all.skip(i as int).skip(1) =~= all.skip(i + 1));
        }
        if same_str(kind, "bare_ref") {
            return describe_reference(text, name, same_str(kind, "object_ref"), mat, refs, file);
        }
        if same_str(kind, "object_ref") {
            return describe_reference(text, name, true, mat, refs, file);
        }
        if same_str(kind, "keyword_call") {
            return describe_callee(mat, name);
        }
        if same_str(kind, "call") {
            return between("`", name, "` — function call (math builtin or user function).");
        }
        if same_str(kind, "named_argument") {
            return between("`", name, "` — parameter of a variant table / function call.");
        }
        if same_str(kind, "object_decl") {
            return if is_class {
                describe_class(mat, name)
            } else {
                between("`", name, "` — constraint object declaration.")
            };
        }
        i += 1;
    }
    between("`", name, "`")
}

/// The text for a node that is no identifier.
fn hover_fixed(kind: &str, content: &str) -> (res: Option<String>)
    ensures
        match res {
            Some(value) => fixed_text(kind@, content@) == Some(value@),
            None => fixed_text(kind@, content@) is None,
        },
{
    if same_str(kind, "comment") {
        Some(between("Comment\n\n```\n", content, "\n```"))
    } else if same_str(kind, "string") {
        Some(between("String literal\n\n`", content, "`"))
    } else if same_str(kind, "number") {
        Some(between("Numeric literal\n\n`", content, "`"))
    } else if same_str(kind, "IF") || same_str(kind, "if") {
        Some(IF_TEXT.to_owned())
    } else if same_str(kind, "AND") || same_str(kind, "and") {
        Some(AND_TEXT.to_owned())
    } else if same_str(kind, "OR") || same_str(kind, "or") {
        Some("OR — condition disjunction.".to_owned())
    } else if same_str(kind, "NOT") || same_str(kind, "not") {
        Some("NOT — condition negation.".to_owned())
    } else if same_str(kind, "IN") || same_str(kind, "in") {
        Some(IN_TEXT.to_owned())
    } else if same_str(kind, "SPECIFIED") || same_str(kind, "specified") {
        Some(SPECIFIED_TEXT.to_owned())
    } else if same_str(kind, "TABLE") || same_str(kind, "table") || same_str(kind, "FUNCTION")
        || same_str(kind, "function") || same_str(kind, "PFUNCTION") || same_str(
        kind,
        "pfunction",
    ) {
        Some(
            between(
                "`",
                kind,
                "` call — variant table / custom function invocation with named parameters.",
            ),
        )
    } else if same_str(kind, "OBJECTS") || same_str(kind, "CONDITION") || same_str(
        kind,
        "RESTRICTIONS",
    ) || same_str(kind, "INFERENCES") {
        Some(between("`", kind, ":` — constraint section header."))
    } else if same_str(kind, "$SET_DEFAULT") || same_str(kind, "$DEL_DEFAULT") || same_str(
        kind,
        "$SET_PRICING_FACTOR",
    ) || same_str(kind, "$COUNT_PARTS") || same_str(kind, "$SUM_PARTS") {
        Some(between("`", kind, "` — system procedure (engine builtin)."))
    } else if same_str(kind, "?=") {
        Some("`?=` — conditional assignment: set the value only if not already set.".to_owned())
    } else if same_str(kind, "=") {
        Some("`=` — assignment / comparison equals.".to_owned())
    } else {
        None
    }
}

/// What is shown for a node of the text.
pub fn hover_node(
    text: &str,
    focus: &Focus,
    mat: &MaterialIndex,
    refs: &ReferenceIndex,
    current_file: &str,
) -> (res: Option<Hover>)
    requires
        is_span(text@, focus@.start_byte, focus@.end_byte),
    ensures
        match res {
            Some(shown) => hover_view(text@, focus@, *mat, *refs, current_file@) == Some(shown@),
            None => hover_view(text@, focus@, *mat, *refs, current_file@) is None,
        },
{
    let chars = chars_of(text);
    let content = slice_bytes(chars.as_slice(), focus.start_byte, focus.end_byte);
    let value = if same_str(focus.kind.as_str(), "identifier") {
        let name = string_of(content);
        Some(
            hover_identifier(
                text,
                name.as_str(),
                &focus.ancestors,
                focus.is_class,
                mat,
                refs,
                current_file,
            ),
        )
    } else {
        let trimmed = string_of(trim(content, CharClass::White));
        hover_fixed(focus.kind.as_str(), trimmed.as_str())
    };
    match value {
        Some(value) => Some(
            Hover { value, range: range_of(chars.as_slice(), focus.start_byte, focus.end_byte) },
        ),
        None => None,
    }
}

/// What is shown for a position of the text: nothing, where the text has no
/// such position.
pub fn hover(
    text: &str,
    position: Position,
    mat: &MaterialIndex,
    refs: &ReferenceIndex,
    current_file: &str,
    language: &tree_sitter::Language,
) -> (res: Option<Hover>)
    requires
        byte_len(text@) <= u32::MAX,
    ensures
        match res {
            Some(shown) => hover_at(text@, position, *mat, *refs, current_file@, *language) == Some(
                shown@,
            ),
            None => hover_at(text@, position, *mat, *refs, current_file@, *language) is None,
        },
{
    match position_to_byte(text, position) {
        None => None,
        Some(byte) => {
            proof {
                let i = position_index(text@, position)->0;
                lemma_prefix_grows(text@, i, text@.len() as int);
                assert(text@.take(text@.len() as int) =~= text@);
            }
            match read_focus(language, text, byte) {
                None => None,
                Some(focus) => hover_node(text, &focus, mat, refs, current_file),
            }
        },
    }
}

// ---- Laws -------------------------------------------------------------------

/// In an object declaration the class is told apart from the object.
pub proof fn law_classes_are_told_apart(
    text: Seq<char>,
    class: Seq<char>,
    object: Seq<char>,
    above: Seq<Seq<char>>,
    mat: MaterialIndex,
    refs: ReferenceIndex,
    file: Seq<char>,
)
    requires
        above.len() > 0,
        above[0] == "object_decl"@,
    ensures
        identifier_text(text, class, above, true, mat, refs, file) == class_text(mat, class),
        identifier_text(text, object, above, false, mat, refs, file) == object_text(object),
        class_text(mat, class) != object_text(class),
{
    reveal_strlit("object_decl");
    reveal_strlit("bare_ref");
    reveal_strlit("object_ref");
    reveal_strlit("keyword_call");
    reveal_strlit("call");
    reveal_strlit("named_argument");
    assert("object_decl"@.len() == 11 && "bare_ref"@.len() == 8 && "object_ref"@.len() == 10
        && "keyword_call"@.len() == 12 && "call"@.len() == 4 && "named_argument"@.len() == 14);
    reveal_strlit("`");
    reveal_strlit("` — class (in material class universe).");
    reveal_strlit("` — class (not in material class universe).");
    reveal_strlit("` — constraint object declaration.");
    let i = class.len() as int + 6;
    assert(object_text(class)[i] == 'o');
    assert(class_text(mat, class)[i] == 'l');
}

/// What is shown for a reference to a builtin depends on the document alone:
/// neither the material nor the index of uses has a part in it.
pub proof fn law_builtins_have_no_metadata(
    text: Seq<char>,
    name: Seq<char>,
    is_object: bool,
    mats: (MaterialIndex, MaterialIndex),
    refs: (ReferenceIndex, ReferenceIndex),
    files: (Seq<char>, Seq<char>),
)
    requires
        is_builtin(name),
    ensures
        reference_text(text, name, is_object, mats.0, refs.0, files.0) == reference_text(
            text,
            name,
            is_object,
            mats.1,
            refs.1,
            files.1,
        ),
{
}

/// A keyword or a literal is shown alike under every material and every index
/// of uses.
pub proof fn law_keywords_need_no_material(
    text: Seq<char>,
    focus: FocusView,
    mats: (MaterialIndex, MaterialIndex),
    refs: (ReferenceIndex, ReferenceIndex),
    files: (Seq<char>, Seq<char>),
)
    requires
        focus.kind != "identifier"@,
    ensures
        hover_view(text, focus, mats.0, refs.0, files.0) == hover_view(
            text,
            focus,
            mats.1,
            refs.1,
            files.1,
        ),
{
}

/// What is counted on a line are the dots that have the name behind them.
proof fn lemma_mentions_are_uses(line: Seq<char>, name: Seq<char>)
    requires
        is_word(name),
        forall|i: int| 0 <= i < line.len() ==> #[trigger] line[i] != '\n',
    ensures
        mention_count(pieces(line, '.').skip(1), name) == use_count(
            line,
            name,
            0,
            line.len() as int,
        ),
    decreases line.len(),
{
    let class = CharClass::Except('.');
    let n = lead_len(line, class) as int;
    lemma_lead(line, class);
    let end = line.len() as int;
    assert forall|d: int| 0 <= d < n implies !#[trigger] is_use_at(line, name, d) by {
        assert(class.admits(line[d]));
    }
    lemma_no_use(line, name, 0, n);
    if n >= line.len() {
        assert(pieces(line, '.').skip(1) =~= seq![]);
    } else {
        let t = line.skip(n + 1);
        let rest = pieces(t, '.');
        assert forall|i: int| 0 <= i < t.len() implies #[trigger] t[i] != '\n' by {
            assert(t[i] == line[i + n + 1]);
        }
        assert(line[n] == '.');
        lemma_mentions_are_uses(t, name);
        lemma_first_use(line, name, n);
        lemma_pieces_len(t, '.');
        assert(pieces(line, '.').skip(1) =~= rest);
        assert forall|d: int| n + 1 <= d < end implies (#[trigger] is_use_at(line, name, d)
            <==> is_use_at(t, name, d - (n + 1))) by {
            lemma_use_behind(line, name, n + 1, d - n - 1);
        }
        lemma_use_count_same(line, t, name, n + 1, end, n + 1);
        lemma_use_count_split(line, name, 0, n + 1, end);
        lemma_use_count_split(line, name, 0, n, n + 1);
        assert(use_count(line, name, n, n) == 0);
        assert(use_count(line, name, n, n + 1) == if is_use_at(line, name, n) {
            1nat
        } else {
            0
        });
    }
}

/// The occurrences of a name are the dots of the text that have it behind them,
/// on the same line and not as the start of a longer name: all of them, each
/// once.
pub proof fn law_occurrences(text: Seq<char>, name: Seq<char>)
    requires
        is_word(name),
    ensures
        occurrences(lines(text), name) == use_count(text, name, 0, text.len() as int),
    decreases text.len(),
{
    let class = CharClass::Except('\n');
    let n = lead_len(text, class) as int;
    lemma_lead(text, class);
    let end = text.len() as int;
    if text.len() > 0 {
        let all = lines(text);
        let line = all[0];
        let cut = line.len() as int;
        assert forall|j: int| 0 <= j < n implies #[trigger] text[j] != '\n' by {
            assert(class.admits(text[j]));
        }
        assert(is_line(text, 0, n));
        assert(line =~= if n < text.len() && n > 0 && text[n - 1] == '\r' {
            text.take(n - 1)
        } else {
            text.take(n)
        });
        assert forall|i: int| 0 <= i < line.len() implies #[trigger] line[i] != '\n' by {
            assert(line[i] == text[i]);
        }
        lemma_mentions_are_uses(line, name);
        assert forall|d: int| 0 <= d < cut implies (#[trigger] is_use_at(text, name, d)
            <==> is_use_at(line, name, d - 0)) by {
            lemma_use_on_first_line(text, name, n, d);
        }
        lemma_use_count_same(text, line, name, 0, cut, 0);
        if n >= text.len() {
            assert(all.skip(1) =~= seq![]);
            assert(occurrences(all.skip(1), name) == 0);
        } else {
            let t = text.skip(n + 1);
            law_occurrences(t, name);
            assert(all.skip(1) =~= lines(t));
            assert forall|d: int| cut <= d < n + 1 implies !#[trigger] is_use_at(text, name, d) by {
                assert(d == n || text[d] == '\r');
            }
            lemma_no_use(text, name, cut, n + 1);
            assert forall|d: int| n + 1 <= d < end implies (#[trigger] is_use_at(text, name, d)
                <==> is_use_at(t, name, d - (n + 1))) by {
                lemma_use_behind(text, name, n + 1, d - n - 1);
            }
            lemma_use_count_same(text, t, name, n + 1, end, n + 1);
            lemma_use_count_split(text, name, 0, cut, n + 1);
            lemma_use_count_split(text, name, 0, n + 1, end);
        }
    }
}

} // verus!
