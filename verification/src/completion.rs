//! Completion.
//!
//! After a dot in a dotted chain the names of characteristics are offered,
//! inside an open `TABLE` call the columns of the table, inside an `IF`
//! condition the operators, and anywhere else the starts of statements.

use vstd::prelude::*;
use vstd::string::*;

use crate::lines::{ends_at_word, is_word, law_no_such_line};
use crate::material::{matching, MaterialIndex};
use crate::names::{increasing, law_name_set, name_set, views, NameSet};
use crate::position::{find_position, lemma_trail_is, newlines, position_index, Position};
use crate::render::{to_uppercase, uppercase};
use crate::text::{
    chars_of, contains, has_prefix, is_white_space, is_word_char, lead, lead_len, lead_run,
    lemma_lead, lemma_lead_is, lemma_trail, occurs, occurs_at, skip, starts, str_starts, string_of,
    take, trail, trail_len, trail_run, trim_lead, CharClass,
};

verus! {

/// What an item stands for.
#[derive(Clone, Copy, Debug, PartialEq, Eq, Structural)]
pub enum ItemKind {
    Field,
    Operator,
    Variable,
    Keyword,
    Function,
}

/// Something to complete with.
#[derive(Debug)]
pub struct CompletionItem {
    pub label: String,
    pub kind: ItemKind,
    pub detail: Option<String>,
    pub insert_text: Option<String>,
}

/// What a [`CompletionItem`] says.
#[verifier::ext_equal]
pub struct ItemView {
    pub label: Seq<char>,
    pub kind: ItemKind,
    pub detail: Option<Seq<char>>,
    pub insert_text: Option<Seq<char>>,
}

impl View for CompletionItem {
    type V = ItemView;

    open spec fn view(&self) -> ItemView {
        ItemView {
            label: self.label@,
            kind: self.kind,
            detail: match self.detail {
                Some(s) => Some(s@),
                None => None,
            },
            insert_text: match self.insert_text {
                Some(s) => Some(s@),
                None => None,
            },
        }
    }
}

/// What a list of items says.
pub open spec fn item_views(v: Seq<CompletionItem>) -> Seq<ItemView> {
    Seq::new(v.len(), |i: int| v[i]@)
}

proof fn lemma_item_push(v: Seq<CompletionItem>, item: CompletionItem)
    ensures
        item_views(v.push(item)) == item_views(v).push(item@),
{
    assert(item_views(v.push(item)) =~= item_views(v).push(item@));
}

// ---- Where the cursor stands ------------------------------------------------

/// Whether `line` has a dot.
pub open spec fn has_dot(line: Seq<char>) -> bool {
    trail_len(line, CharClass::Except('.')) < line.len()
}

/// The part of `line` before its last dot.
pub open spec fn before_dot(line: Seq<char>) -> Seq<char> {
    line.take(line.len() - trail_len(line, CharClass::Except('.')) - 1)
}

/// The part of `line` behind its last dot.
pub open spec fn after_dot(line: Seq<char>) -> Seq<char> {
    trail_run(line, CharClass::Except('.'))
}

/// Whether a characteristic is being typed at the end of `line`: a dotted chain
/// stands before the last dot, and nothing but a word stands behind it.
pub open spec fn in_dotted_chain(line: Seq<char>) -> bool {
    let word = lead_run(after_dot(line), CharClass::Word);
    &&& has_dot(line)
    &&& trail_len(before_dot(line), CharClass::Chain) > 0
    &&& after_dot(line).len() == 0 || word.len() == after_dot(line).len()
}

/// Whether `word` stands in `line` from index `i` on as a word of its own: no
/// word character before it, and white space behind it.
pub open spec fn is_keyword_at(line: Seq<char>, word: Seq<char>, i: int) -> bool {
    let end = i + word.len();
    &&& occurs_at(line, word, i)
    &&& i == 0 || !is_word_char(line[i - 1])
    &&& end < line.len() && is_white_space(line[end])
}

/// Where `word` stands before index `n` of `line` for the last time as a word
/// of its own.
pub open spec fn last_keyword(line: Seq<char>, word: Seq<char>, n: int) -> Option<int>
    decreases n,
{
    if n <= 0 {
        None
    } else if is_keyword_at(line, word, n - 1) {
        Some(n - 1)
    } else {
        last_keyword(line, word, n - 1)
    }
}

/// The name of the table whose call is open at the end of `line`: the last
/// keyword `TABLE`, a name, and a `(` that no `)` follows.
pub open spec fn open_table(line: Seq<char>) -> Option<Seq<char>> {
    match last_keyword(line, "TABLE"@, line.len() as int) {
        Some(at) => {
            let after = trim_lead(line.skip(at + "TABLE"@.len()), CharClass::White);
            let name = lead_run(after, CharClass::Word);
            let rest = after.skip(name.len() as int);
            let open = lead_len(rest, CharClass::Except('('));
            if name.len() > 0 && open < rest.len() && !rest.skip(open as int + 1).contains(')') {
                Some(name)
            } else {
                None
            }
        },
        None => None,
    }
}

/// Whether a text has nothing but digits and dots.
pub open spec fn is_numeric(s: Seq<char>) -> bool {
    forall|i: int| 0 <= i < s.len() ==> '0' <= #[trigger] s[i] <= '9' || s[i] == '.'
}

/// Whether the end of `line` follows a reference: a chain that is no number
/// stands before the last dot, a word behind it, and then nothing but white
/// space and at most a word that is being typed.
pub open spec fn follows_reference(line: Seq<char>) -> bool {
    let after = after_dot(line);
    let tail = lead_len(after, CharClass::Word);
    let typed = trim_lead(after.skip(tail as int), CharClass::White);
    &&& has_dot(line)
    &&& !is_numeric(trail_run(before_dot(line), CharClass::Chain))
    &&& tail > 0
    &&& lead_len(typed, CharClass::Word) == typed.len()
}

/// Whether the cursor stands in an `IF` condition behind a reference: the line
/// carries `IF`, `AND` or `OR`, and its end follows a reference. `upper_line` is
/// the line in upper case.
pub open spec fn in_condition(upper_line: Seq<char>, line: Seq<char>) -> bool {
    &&& {
        ||| occurs(upper_line, " IF "@)
        ||| has_prefix(upper_line, "IF "@)
        ||| occurs(upper_line, " AND "@)
        ||| occurs(upper_line, " OR "@)
    }
    &&& follows_reference(line)
}

// ---- What is offered --------------------------------------------------------

/// The item for a characteristic.
pub open spec fn characteristic_item(name: Seq<char>) -> ItemView {
    ItemView { label: name, kind: ItemKind::Field, detail: None, insert_text: None }
}

/// The item for a column of a table.
pub open spec fn column_item(table: Seq<char>, keys: Seq<Seq<char>>, name: Seq<char>) -> ItemView {
    ItemView {
        label: name,
        kind: ItemKind::Field,
        detail: Some(
            table + if keys.contains(name) {
                " — key field"@
            } else {
                " — column"@
            },
        ),
        insert_text: Some(name + " = "@),
    }
}

/// The list that the material holds for `table`.
pub open spec fn table_list(
    map: Map<Seq<char>, Vec<String>>,
    table: Seq<char>,
) -> Seq<Seq<char>> {
    if map.contains_key(table) {
        views(map[table]@)
    } else {
        seq![]
    }
}

/// The names that stand behind a dot in `text` and start with `partial`.
pub open spec fn dotted_names(text: Seq<char>, partial: Seq<char>) -> Seq<Seq<char>>
    decreases text.len(),
{
    let n = lead_len(text, CharClass::Except('.'));
    if n >= text.len() {
        seq![]
    } else {
        let after = text.skip(n as int + 1);
        let name = lead_run(after, CharClass::Word);
        (if name.len() > 0 && has_prefix(name, partial) {
            seq![name]
        } else {
            seq![]
        }) + dotted_names(after, partial)
    }
}

/// The names offered as characteristics: those of the material and those that
/// the document already uses.
pub open spec fn characteristic_names(
    text: Seq<char>,
    partial: Seq<char>,
    mat: MaterialIndex,
) -> Seq<Seq<char>> {
    name_set(matching(mat.chars@, partial) + dotted_names(text, partial))
}

/// The items offered as characteristics.
pub open spec fn characteristic_items(
    text: Seq<char>,
    partial: Seq<char>,
    mat: MaterialIndex,
) -> Seq<ItemView> {
    let names = characteristic_names(text, partial, mat);
    Seq::new(names.len(), |i: int| characteristic_item(names[i]))
}

/// The items offered inside of a call of `table`.
pub open spec fn column_items(
    table: Seq<char>,
    partial: Seq<char>,
    mat: MaterialIndex,
) -> Seq<ItemView> {
    let names = name_set(matching(table_list(mat.vt_chars@, table), partial));
    let keys = table_list(mat.vt_keys@, table);
    Seq::new(names.len(), |i: int| column_item(table, keys, names[i]))
}

/// A fixed thing to offer.
pub struct Entry {
    pub label: &'static str,
    pub detail: &'static str,
    pub kind: ItemKind,
}

/// What an [`Entry`] says: label, detail and kind.
pub open spec fn entry_view(entry: Entry) -> (Seq<char>, Seq<char>, ItemKind) {
    (entry.label@, entry.detail@, entry.kind)
}

/// The operators of conditions.
pub open spec fn operators() -> Seq<(Seq<char>, Seq<char>, ItemKind)> {
    seq![
        ("SPECIFIED"@, "postfix: <ref> SPECIFIED — value is entered"@, ItemKind::Operator),
        ("NOT "@, "negation: NOT <condition>"@, ItemKind::Operator),
        ("IN ("@, "membership: <ref> IN ('A','B') / (min - max)"@, ItemKind::Operator),
        (">="@, "comparison: <ref> >= <value>"@, ItemKind::Operator),
        ("<="@, "comparison: <ref> <= <value>"@, ItemKind::Operator),
        ("="@, "comparison: <ref> = <value>"@, ItemKind::Operator),
        ("<>"@, "comparison: <ref> <> <value>"@, ItemKind::Operator),
        ("IS INVISIBLE"@, "postfix: <ref> IS INVISIBLE"@, ItemKind::Operator),
        ("AND "@, "condition conjunction"@, ItemKind::Operator),
        ("OR "@, "condition disjunction"@, ItemKind::Operator),
    ]
}

/// The starts of statements. `IF` is a guard behind a statement: there is no
/// block, and nothing that would open or close one.
pub open spec fn starters() -> Seq<(Seq<char>, Seq<char>, ItemKind)> {
    seq![
        ("$SELF."@, "object variable reference"@, ItemKind::Variable),
        (
            "IF "@,
            "postfix guard — `IF <condition>,` guards the preceding statement"@,
            ItemKind::Keyword,
        ),
        ("TABLE "@, "variant table call"@, ItemKind::Function),
        ("PFUNCTION "@, "custom function call"@, ItemKind::Function),
        ("FUNCTION "@, "SAP function call"@, ItemKind::Function),
        ("$DEL_DEFAULT ("@, "system procedure"@, ItemKind::Function),
        ("$SET_DEFAULT ("@, "system procedure"@, ItemKind::Function),
        ("$SET_PRICING_FACTOR ("@, "system procedure"@, ItemKind::Function),
        ("$COUNT_PARTS ("@, "system procedure"@, ItemKind::Function),
        ("$SUM_PARTS ("@, "system procedure"@, ItemKind::Function),
        ("OBJECTS:"@, "constraint section header"@, ItemKind::Keyword),
        ("CONDITION:"@, "constraint section header"@, ItemKind::Keyword),
        ("RESTRICTIONS:"@, "constraint section header"@, ItemKind::Keyword),
        ("INFERENCES:"@, "constraint section header"@, ItemKind::Keyword),
    ]
}

/// The items for those entries whose label starts with `partial`.
pub open spec fn offered(
    entries: Seq<(Seq<char>, Seq<char>, ItemKind)>,
    partial: Seq<char>,
) -> Seq<ItemView>
    decreases entries.len(),
{
    if entries.len() == 0 {
        seq![]
    } else {
        let (label, detail, kind) = entries.last();
        let init = offered(entries.drop_last(), partial);
        if has_prefix(label, partial) {
            init.push(
                ItemView { label, kind, detail: Some(detail), insert_text: Some(label) },
            )
        } else {
            init
        }
    }
}

/// The word before the cursor.
pub open spec fn partial_word(before: Seq<char>) -> Seq<char> {
    trail_run(before, CharClass::DollarWord)
}

/// The line before the cursor.
pub open spec fn line_before(before: Seq<char>) -> Seq<char> {
    trail_run(before, CharClass::Except('\n'))
}

/// What is offered behind `before`, where `condition` says whether the cursor
/// stands in a condition.
pub open spec fn context_items(
    text: Seq<char>,
    before: Seq<char>,
    mat: MaterialIndex,
    condition: bool,
) -> Seq<ItemView> {
    let partial = partial_word(before);
    let line = line_before(before);
    if in_dotted_chain(line) {
        characteristic_items(text, partial, mat)
    } else {
        match open_table(line) {
            Some(table) => column_items(table, partial, mat),
            None => offered(
                if condition {
                    operators()
                } else {
                    starters()
                },
                partial,
            ),
        }
    }
}

/// What is offered at a position of `text`.
pub open spec fn completion_items(
    text: Seq<char>,
    position: Position,
    mat: MaterialIndex,
) -> Option<Seq<ItemView>> {
    match position_index(text, position) {
        Some(i) => {
            let before = text.take(i);
            let line = line_before(before);
            Some(
                context_items(
                    text,
                    before,
                    mat,
                    in_condition(uppercase(line), line),
                ),
            )
        },
        None => None,
    }
}

// ---- Finding it -------------------------------------------------------------

fn dotted_chain(line: &[char]) -> (res: bool)
    ensures
        res == in_dotted_chain(line@),
{
    let n = trail(line, CharClass::Except('.'));
    if n == line.len() {
        return false;
    }
    let head = take(line, line.len() - n - 1);
    let tail = skip(line, line.len() - n);
    trail(head, CharClass::Chain) > 0 && (tail.len() == 0 || lead(tail, CharClass::Word)
        == tail.len())
}

fn holds(s: &[char], c: char) -> (res: bool)
    ensures
        res == s@.contains(c),
{
    let n = lead(s, CharClass::Except(c));
    proof {
        lemma_lead(s@, CharClass::Except(c));
        if n == s@.len() && s@.contains(c) {
            let k = choose|k: int| 0 <= k < s@.len() && s@[k] == c;
            assert(CharClass::Except(c).admits(s@[k]));
        }
    }
    n < s.len()
}

/// Where `word` stands in `line` for the last time as a word of its own.
fn find_keyword(line: &[char], word: &[char]) -> (res: Option<usize>)
    ensures
        match res {
            Some(i) => last_keyword(line@, word@, line@.len() as int) == Some(i as int)
                && is_keyword_at(line@, word@, i as int),
            None => last_keyword(line@, word@, line@.len() as int) is None,
        },
{
    let mut n: usize = line.len();
    while n > 0
        invariant
            n <= line@.len(),
            last_keyword(line@, word@, line@.len() as int) == last_keyword(
                line@,
                word@,
                n as int,
            ),
        decreases n,
    {
        let i = n - 1;
        let rest = skip(line, i);
        proof {
            if word@.len() <= rest@.len() {
                assert(rest@.take(word@.len() as int) =~= line@.subrange(i as int, i + word@.len()));
            }
        }
        if starts(rest, word) && (i == 0 || !CharClass::Word.accepts(line[i - 1])) && word.len()
            < rest.len() && CharClass::White.accepts(rest[word.len()]) {
            return Some(i);
        }
        n = i;
    }
    None
}

fn find_open_table(line: &[char]) -> (res: Option<String>)
    ensures
        match res {
            Some(name) => open_table(line@) == Some(name@),
            None => open_table(line@) is None,
        },
{
    let keyword = chars_of("TABLE");
    match find_keyword(line, keyword.as_slice()) {
        None => None,
        Some(at) => {
            let total = line.len();
            assert(at + keyword@.len() <= total);
            let after = skip(line, at + keyword.len());
            let after = skip(after, lead(after, CharClass::White));
            let n = lead(after, CharClass::Word);
            let name = take(after, n);
            let rest = skip(after, n);
            let open = lead(rest, CharClass::Except('('));
            if n > 0 && open < rest.len() && !holds(skip(rest, open + 1), ')') {
                Some(string_of(name))
            } else {
                None
            }
        },
    }
}

/// The name of the table whose call is open at the end of the line.
pub fn table_call_context(line_before: &str) -> (res: Option<String>)
    ensures
        match res {
            Some(name) => open_table(line_before@) == Some(name@),
            None => open_table(line_before@) is None,
        },
{
    let line = chars_of(line_before);
    find_open_table(line.as_slice())
}

fn numeric(s: &[char]) -> (res: bool)
    ensures
        res == is_numeric(s@),
{
    let mut i: usize = 0;
    while i < s.len()
        invariant
            i <= s@.len(),
            forall|j: int| 0 <= j < i ==> '0' <= #[trigger] s@[j] <= '9' || s@[j] == '.',
        decreases s@.len() - i,
    {
        if !('0' <= s[i] && s[i] <= '9') && s[i] != '.' {
            assert(!('0' <= s@[i as int] <= '9') && s@[i as int] != '.');
            return false;
        }
        i += 1;
    }
    true
}

fn behind_reference(line: &[char]) -> (res: bool)
    ensures
        res == follows_reference(line@),
{
    let n = trail(line, CharClass::Except('.'));
    if n == line.len() {
        return false;
    }
    let head = take(line, line.len() - n - 1);
    let after = skip(line, line.len() - n);
    let tail = lead(after, CharClass::Word);
    let rest = skip(after, tail);
    let typed = skip(rest, lead(rest, CharClass::White));
    let chain = skip(head, head.len() - trail(head, CharClass::Chain));
    !numeric(chain) && tail > 0 && lead(typed, CharClass::Word) == typed.len()
}

/// Whether the cursor stands in an `IF` condition behind a reference;
/// `upper_line` is the line in upper case.
pub fn is_condition(upper_line: &str, line_before: &str) -> (res: bool)
    ensures
        res == in_condition(upper_line@, line_before@),
{
    let upper = chars_of(upper_line);
    let line = chars_of(line_before);
    let guard = chars_of(" IF ");
    let start = chars_of("IF ");
    let and = chars_of(" AND ");
    let or = chars_of(" OR ");
    let keyword = contains(upper.as_slice(), guard.as_slice()) || starts(
        upper.as_slice(),
        start.as_slice(),
    ) || contains(upper.as_slice(), and.as_slice()) || contains(upper.as_slice(), or.as_slice());
    keyword && behind_reference(line.as_slice())
}

/// Whether the cursor stands in an `IF` condition: the line carries `IF`, `AND`
/// or `OR`, in any case, and the cursor follows a reference. Of the text before
/// the cursor only its last line, `line_before`, has a say.
pub fn in_if_condition(_before: &str, line_before: &str) -> (res: bool)
    ensures
        res == in_condition(uppercase(line_before@), line_before@),
{
    let upper_line = to_uppercase(line_before);
    is_condition(upper_line.as_str(), line_before)
}

/// The names of a list that start with `partial`, in order.
fn matching_names(list: &Vec<String>, partial: &str) -> (res: NameSet)
    ensures
        res@ == name_set(matching(views(list@), partial@)),
{
    let mut res = NameSet::new();
    let ghost all = views(list@);
    let mut i: usize = 0;
    proof {
        reveal(Seq::filter);
        assert(all.take(0) =~= Seq::<Seq<char>>::empty());
    }
    while i < list.len()
        invariant
            i <= list@.len(),
            all == views(list@),
            res@ == name_set(matching(all.take(i as int), partial@)),
        decreases list@.len() - i,
    {
        proof {
            reveal(Seq::filter);
            assert(all.take(i + 1).drop_last() =~= all.take(i as int));
            assert(all[i as int] == list@[i as int]@);
        }
        if str_starts(list[i].as_str(), partial) {
            proof {
                let found = matching(all.take(i as int), partial@);
                assert(found.push(all[i as int]).drop_last() =~= found);
            }
            res.insert(list[i].clone());
        }
        i += 1;
    }
    assert(all.take(i as int) =~= all);
    res
}

/// The items offered inside of a call of `table`: its columns, key fields
/// marked.
pub fn table_column_completions(table: &str, partial: &str, mat: &MaterialIndex) -> (res: Vec<
    CompletionItem,
>)
    ensures
        item_views(res@) == column_items(table@, partial@, *mat),
{
    let none: Vec<String> = Vec::new();
    assert(views(none@) =~= Seq::<Seq<char>>::empty());
    let columns = match mat.vt_chars.get(table) {
        Some(columns) => columns,
        None => &none,
    };
    let keys = match mat.vt_keys.get(table) {
        Some(keys) => keys,
        None => &none,
    };
    let key_set = NameSet::collect(keys);
    let names = matching_names(columns, partial);
    let ghost key_names = views(keys@);
    proof {
        crate::names::law_name_set(key_names);
    }
    let mut res: Vec<CompletionItem> = Vec::new();
    let mut i: usize = 0;
    while i < names.len()
        invariant
            i <= names@.len(),
            key_set@ == name_set(key_names),
            forall|n: Seq<char>| #[trigger]
                name_set(key_names).contains(n) <==> key_names.contains(n),
            res@.len() == i,
            forall|j: int|
                0 <= j < i ==> (#[trigger] res@[j])@ == column_item(table@, key_names, names@[j]),
        decreases names@.len() - i,
    {
        let name = names.at(i);
        let mut detail = table.to_owned();
        detail.append(
            if key_set.contains(name.as_str()) {
                " — key field"
            } else {
                " — column"
            },
        );
        let mut insert_text = name.clone();
        insert_text.append(" = ");
        let item = CompletionItem {
            label: name.clone(),
            kind: ItemKind::Field,
            detail: Some(detail),
            insert_text: Some(insert_text),
        };
        assert(item@ == column_item(table@, key_names, names@[i as int]));
        res.push(item);
        i += 1;
    }
    assert(item_views(res@) =~= column_items(table@, partial@, *mat));
    res
}

/// Adds the names that stand behind a dot in `text` and start with `partial`.
fn add_dotted_names(
    text: &[char],
    partial: &[char],
    names: &mut NameSet,
    Ghost(list): Ghost<Seq<Seq<char>>>,
)
    requires
        old(names)@ == name_set(list),
    ensures
        final(names)@ == name_set(list + dotted_names(text@, partial@)),
{
    let mut at: usize = 0;
    let ghost mut done = list;
    let ghost whole = list + dotted_names(text@, partial@);
    let total = text.len();
    assert(text@.skip(0) =~= text@);
    loop
        invariant
            at <= total == text@.len(),
            names@ == name_set(done),
            done + dotted_names(text@.skip(at as int), partial@) == whole,
            whole == list + dotted_names(text@, partial@),
        decreases total - at,
    {
        let rest = skip(text, at);
        let n = lead(rest, CharClass::Except('.'));
        if n == rest.len() {
            assert(done =~= whole);
            return;
        }
        let after = skip(rest, n + 1);
        let word = take(after, lead(after, CharClass::Word));
        assert(after@ =~= text@.skip(at + n + 1));
        if word.len() > 0 && starts(word, partial) {
            let name = string_of(word);
            proof {
                assert(done + dotted_names(rest@, partial@) =~= done.push(word@) + dotted_names(
                    after@,
                    partial@,
                ));
                assert(done.push(word@).drop_last() =~= done);
                done = done.push(word@);
            }
            names.insert(name);
        } else {
            assert(dotted_names(rest@, partial@) =~= dotted_names(after@, partial@));
        }
        at += n + 1;
    }
}

/// The items offered as characteristics.
pub fn completions_for_characteristics(text: &str, partial: &str, mat: &MaterialIndex) -> (res: Vec<
    CompletionItem,
>)
    ensures
        item_views(res@) == characteristic_items(text@, partial@, *mat),
{
    let known = mat.completions_for(partial);
    let mut names = NameSet::collect(&known);
    let chars = chars_of(text);
    let start = chars_of(partial);
    add_dotted_names(
        chars.as_slice(),
        start.as_slice(),
        &mut names,
        Ghost(matching(mat.chars@, partial@)),
    );
    let mut res: Vec<CompletionItem> = Vec::new();
    let mut i: usize = 0;
    while i < names.len()
        invariant
            i <= names@.len(),
            res@.len() == i,
            forall|j: int|
                0 <= j < i ==> (#[trigger] res@[j])@ == characteristic_item(names@[j]),
        decreases names@.len() - i,
    {
        let item = CompletionItem {
            label: names.at(i).clone(),
            kind: ItemKind::Field,
            detail: None,
            insert_text: None,
        };
        assert(item@ == characteristic_item(names@[i as int]));
        res.push(item);
        i += 1;
    }
    assert(item_views(res@) =~= characteristic_items(text@, partial@, *mat));
    res
}

/// What a list of entries says.
pub open spec fn entry_views(v: Seq<Entry>) -> Seq<(Seq<char>, Seq<char>, ItemKind)> {
    Seq::new(v.len(), |i: int| entry_view(v[i]))
}

/// The items for those entries whose label starts with `partial`.
fn offer(entries: &Vec<Entry>, partial: &str) -> (res: Vec<CompletionItem>)
    ensures
        item_views(res@) == offered(entry_views(entries@), partial@),
{
    let ghost all = entry_views(entries@);
    let mut res: Vec<CompletionItem> = Vec::new();
    let mut i: usize = 0;
    assert(all.take(0) =~= Seq::<(Seq<char>, Seq<char>, ItemKind)>::empty());
    assert(item_views(res@) =~= Seq::<ItemView>::empty());
    while i < entries.len()
        invariant
            i <= entries@.len(),
            all == entry_views(entries@),
            item_views(res@) == offered(all.take(i as int), partial@),
        decreases entries@.len() - i,
    {
        let entry = &entries[i];
        proof {
            assert(all.take(i + 1).drop_last() =~= all.take(i as int));
            assert(all[i as int] == entry_view(*entry));
        }
        if str_starts(entry.label, partial) {
            let item = CompletionItem {
                label: entry.label.to_owned(),
                kind: entry.kind,
                detail: Some(entry.detail.to_owned()),
                insert_text: Some(entry.label.to_owned()),
            };
            proof {
                lemma_item_push(res@, item);
            }
            res.push(item);
        }
        i += 1;
    }
    assert(all.take(i as int) =~= all);
    res
}

fn operator(label: &'static str, detail: &'static str) -> (res: Entry)
    ensures
        entry_view(res) == (label@, detail@, ItemKind::Operator),
{
    Entry { label, detail, kind: ItemKind::Operator }
}

/// The operators of conditions, the `SPECIFIED` postfix included.
pub fn condition_operator_completions(partial: &str) -> (res: Vec<CompletionItem>)
    ensures
        item_views(res@) == offered(operators(), partial@),
{
    let entries: Vec<Entry> = vec![
        operator("SPECIFIED", "postfix: <ref> SPECIFIED — value is entered"),
        operator("NOT ", "negation: NOT <condition>"),
        operator("IN (", "membership: <ref> IN ('A','B') / (min - max)"),
        operator(">=", "comparison: <ref> >= <value>"),
        operator("<=", "comparison: <ref> <= <value>"),
        operator("=", "comparison: <ref> = <value>"),
        operator("<>", "comparison: <ref> <> <value>"),
        operator("IS INVISIBLE", "postfix: <ref> IS INVISIBLE"),
        operator("AND ", "condition conjunction"),
        operator("OR ", "condition disjunction"),
    ];
    assert(entry_views(entries@) =~= operators());
    offer(&entries, partial)
}

fn starter(label: &'static str, detail: &'static str, kind: ItemKind) -> (res: Entry)
    ensures
        entry_view(res) == (label@, detail@, kind),
{
    Entry { label, detail, kind }
}

/// The starts of statements.
pub fn statement_completions(partial: &str) -> (res: Vec<CompletionItem>)
    ensures
        item_views(res@) == offered(starters(), partial@),
{
    let entries: Vec<Entry> = vec![
        starter("$SELF.", "object variable reference", ItemKind::Variable),
        starter(
            "IF ",
            "postfix guard — `IF <condition>,` guards the preceding statement",
            ItemKind::Keyword,
        ),
        starter("TABLE ", "variant table call", ItemKind::Function),
        starter("PFUNCTION ", "custom function call", ItemKind::Function),
        starter("FUNCTION ", "SAP function call", ItemKind::Function),
        starter("$DEL_DEFAULT (", "system procedure", ItemKind::Function),
        starter("$SET_DEFAULT (", "system procedure", ItemKind::Function),
        starter("$SET_PRICING_FACTOR (", "system procedure", ItemKind::Function),
        starter("$COUNT_PARTS (", "system procedure", ItemKind::Function),
        starter("$SUM_PARTS (", "system procedure", ItemKind::Function),
        starter("OBJECTS:", "constraint section header", ItemKind::Keyword),
        starter("CONDITION:", "constraint section header", ItemKind::Keyword),
        starter("RESTRICTIONS:", "constraint section header", ItemKind::Keyword),
        starter("INFERENCES:", "constraint section header", ItemKind::Keyword),
    ];
    assert(entry_views(entries@) =~= starters());
    offer(&entries, partial)
}

/// What is offered behind `before`, where `condition` says whether the cursor
/// stands in a condition.
pub fn items_in_context(text: &str, before: &str, mat: &MaterialIndex, condition: bool) -> (res: Vec<
    CompletionItem,
>)
    ensures
        item_views(res@) == context_items(text@, before@, *mat, condition),
{
    let chars = chars_of(before);
    let all = chars.as_slice();
    let partial = string_of(skip(all, all.len() - trail(all, CharClass::DollarWord)));
    let line = skip(all, all.len() - trail(all, CharClass::Except('\n')));
    if dotted_chain(line) {
        return completions_for_characteristics(text, partial.as_str(), mat);
    }
    match find_open_table(line) {
        Some(table) => table_column_completions(table.as_str(), partial.as_str(), mat),
        None => {
            if condition {
                condition_operator_completions(partial.as_str())
            } else {
                statement_completions(partial.as_str())
            }
        },
    }
}

/// Completion items for a position; `None` if it lies on a line that the text
/// does not have.
pub fn complete(text: &str, position: Position, mat: &MaterialIndex) -> (res: Option<
    Vec<CompletionItem>,
>)
    ensures
        match res {
            Some(items) => completion_items(text@, position, *mat) == Some(item_views(items@)),
            None => completion_items(text@, position, *mat) is None,
        },
{
    let chars = chars_of(text);
    match find_position(chars.as_slice(), position) {
        None => None,
        Some(i) => {
            let head = take(chars.as_slice(), i);
            let before = string_of(head);
            let line = string_of(skip(head, head.len() - trail(head, CharClass::Except('\n'))));
            let condition = in_if_condition(before.as_str(), line.as_str());
            Some(items_in_context(text, before.as_str(), mat, condition))
        },
    }
}

// ---- Laws -------------------------------------------------------------------

/// The labels of items.
pub open spec fn labels(items: Seq<ItemView>) -> Seq<Seq<char>> {
    Seq::new(items.len(), |i: int| items[i].label)
}

proof fn lemma_dotted_names(text: Seq<char>, partial: Seq<char>)
    ensures
        forall|i: int|
            0 <= i < dotted_names(text, partial).len() ==> has_prefix(
                #[trigger] dotted_names(text, partial)[i],
                partial,
            ),
    decreases text.len(),
{
    let n = lead_len(text, CharClass::Except('.'));
    if n < text.len() {
        let after = text.skip(n as int + 1);
        let name = lead_run(after, CharClass::Word);
        let rest = dotted_names(after, partial);
        let all = dotted_names(text, partial);
        lemma_dotted_names(after, partial);
        assert forall|i: int| 0 <= i < all.len() implies has_prefix(#[trigger] all[i], partial) by {
            if name.len() > 0 && has_prefix(name, partial) {
                if i > 0 {
                    assert(all[i] == rest[i - 1]);
                }
            } else {
                assert(all =~= rest);
            }
        }
    }
}

/// The offered characteristics are in order, none of them twice: of those that
/// start with what was typed, the ones of the material, and the words that
/// stand right behind a dot of the document, whichever dot it is.
pub proof fn law_offered_characteristics(
    text: Seq<char>,
    partial: Seq<char>,
    mat: MaterialIndex,
)
    ensures
        increasing(labels(characteristic_items(text, partial, mat))),
        forall|name: Seq<char>| #[trigger]
            labels(characteristic_items(text, partial, mat)).contains(name) <==> has_prefix(
                name,
                partial,
            ) && (mat.chars@.contains(name) || (is_word(name) && exists|k: int|
                is_dotted_at(text, name, k))),
{
    let own = matching(mat.chars@, partial);
    let used = dotted_names(text, partial);
    law_name_set(own + used);
    lemma_matching_contains(mat.chars@, partial);
    assert(labels(characteristic_items(text, partial, mat)) =~= name_set(own + used));
    assert forall|name: Seq<char>| #[trigger]
        name_set(own + used).contains(name) <==> own.contains(name) || used.contains(name) by {
        lemma_contains_either(own, used, name);
    }
    assert forall|name: Seq<char>| #[trigger]
        labels(characteristic_items(text, partial, mat)).contains(name) <==> has_prefix(
            name,
            partial,
        ) && (mat.chars@.contains(name) || (is_word(name) && exists|k: int|
            is_dotted_at(text, name, k))) by {
        law_dotted_names(text, partial, name);
    }
}

proof fn lemma_contains_either(a: Seq<Seq<char>>, b: Seq<Seq<char>>, name: Seq<char>)
    ensures
        (a + b).contains(name) <==> a.contains(name) || b.contains(name),
{
    if a.contains(name) {
        let k = choose|k: int| 0 <= k < a.len() && a[k] == name;
        assert((a + b)[k] == name);
    }
    if b.contains(name) {
        let k = choose|k: int| 0 <= k < b.len() && b[k] == name;
        assert((a + b)[a.len() + k] == name);
    }
}

proof fn lemma_matching_prefix(names: Seq<Seq<char>>, partial: Seq<char>)
    ensures
        forall|i: int|
            0 <= i < matching(names, partial).len() ==> has_prefix(
                #[trigger] matching(names, partial)[i],
                partial,
            ),
    decreases names.len(),
{
    reveal(Seq::filter);
    if names.len() > 0 {
        lemma_matching_prefix(names.drop_last(), partial);
        let all = matching(names, partial);
        let before = matching(names.drop_last(), partial);
        assert forall|i: int| 0 <= i < all.len() implies has_prefix(#[trigger] all[i], partial) by {
            if i < before.len() {
                assert(all[i] == before[i]);
            }
        }
    }
}

proof fn lemma_offered_prefix(
    entries: Seq<(Seq<char>, Seq<char>, ItemKind)>,
    partial: Seq<char>,
)
    ensures
        forall|i: int|
            0 <= i < offered(entries, partial).len() ==> has_prefix(
                (#[trigger] offered(entries, partial)[i]).label,
                partial,
            ) && exists|k: int|
                0 <= k < entries.len() && (#[trigger] entries[k]).0 == offered(
                    entries,
                    partial,
                )[i].label,
    decreases entries.len(),
{
    if entries.len() > 0 {
        let init = entries.drop_last();
        lemma_offered_prefix(init, partial);
        let all = offered(entries, partial);
        let before = offered(init, partial);
        assert forall|i: int| 0 <= i < all.len() implies has_prefix(
            (#[trigger] all[i]).label,
            partial,
        ) && exists|k: int| 0 <= k < entries.len() && (#[trigger] entries[k]).0
            == all[i].label by {
            if i < before.len() {
                assert(all[i] == before[i]);
                let k = choose|k: int|
                    0 <= k < init.len() && (#[trigger] init[k]).0 == before[i].label;
                assert(entries[k] == init[k]);
            } else {
                assert(entries[entries.len() - 1].0 == all[i].label);
            }
        }
    }
}

/// Whatever is offered starts with what was typed.
pub proof fn law_offers_extend_the_word(
    text: Seq<char>,
    before: Seq<char>,
    mat: MaterialIndex,
    condition: bool,
    i: int,
)
    requires
        0 <= i < context_items(text, before, mat, condition).len(),
    ensures
        has_prefix(context_items(text, before, mat, condition)[i].label, partial_word(before)),
{
    let partial = partial_word(before);
    let line = line_before(before);
    let item = context_items(text, before, mat, condition)[i];
    if in_dotted_chain(line) {
        let own = matching(mat.chars@, partial);
        let used = dotted_names(text, partial);
        let names = name_set(own + used);
        law_name_set(own + used);
        lemma_matching_prefix(mat.chars@, partial);
        lemma_dotted_names(text, partial);
        assert(item.label == names[i]);
        assert(names.contains(item.label));
        lemma_contains_either(own, used, item.label);
    } else {
        match open_table(line) {
            Some(table) => {
                let list = matching(table_list(mat.vt_chars@, table), partial);
                law_name_set(list);
                lemma_matching_prefix(table_list(mat.vt_chars@, table), partial);
                assert(item.label == name_set(list)[i]);
                assert(name_set(list).contains(item.label));
            },
            None => {
                lemma_offered_prefix(operators(), partial);
                lemma_offered_prefix(starters(), partial);
            },
        }
    }
}

/// The offered columns of a table are in order, none of them twice: those that
/// the material knows and that start with what was typed.
pub proof fn law_offered_columns(table: Seq<char>, partial: Seq<char>, mat: MaterialIndex)
    ensures
        increasing(labels(column_items(table, partial, mat))),
        forall|name: Seq<char>| #[trigger]
            labels(column_items(table, partial, mat)).contains(name) <==> table_list(
                mat.vt_chars@,
                table,
            ).contains(name) && has_prefix(name, partial),
{
    let list = table_list(mat.vt_chars@, table);
    law_name_set(matching(list, partial));
    assert(labels(column_items(table, partial, mat)) =~= name_set(matching(list, partial)));
    lemma_matching_contains(list, partial);
}

proof fn lemma_matching_contains(names: Seq<Seq<char>>, partial: Seq<char>)
    ensures
        forall|name: Seq<char>| #[trigger]
            matching(names, partial).contains(name) <==> names.contains(name) && has_prefix(
                name,
                partial,
            ),
    decreases names.len(),
{
    reveal(Seq::filter);
    if names.len() > 0 {
        let init = names.drop_last();
        lemma_matching_contains(init, partial);
        let all = matching(names, partial);
        let before = matching(init, partial);
        assert forall|name: Seq<char>| #[trigger] all.contains(name) <==> names.contains(name)
            && has_prefix(name, partial) by {
            assert(before.contains(name) <==> init.contains(name) && has_prefix(name, partial));
            if all.contains(name) {
                let k = choose|k: int| 0 <= k < all.len() && all[k] == name;
                if k < before.len() {
                    assert(before[k] == name);
                    let m = choose|m: int| 0 <= m < init.len() && init[m] == name;
                    assert(names[m] == name);
                } else {
                    assert(names[names.len() - 1] == name);
                }
            }
            if names.contains(name) && has_prefix(name, partial) {
                let k = choose|k: int| 0 <= k < names.len() && names[k] == name;
                if k < init.len() {
                    assert(init[k] == name);
                    let m = choose|m: int| 0 <= m < before.len() && before[m] == name;
                    assert(all[m] == name);
                } else {
                    assert(all[all.len() - 1] == name);
                }
            }
        }
    }
}

/// Whether a label would open or close a block.
pub open spec fn is_block_keyword(label: Seq<char>) -> bool {
    has_prefix(label, "THEN"@) || has_prefix(label, "ELSE"@) || has_prefix(label, "END"@)
}

/// `IF` is a guard behind a statement, without a block: neither among the
/// operators nor among the starts of statements is there a word that would open
/// or close one.
pub proof fn law_no_block_keywords(partial: Seq<char>, condition: bool, i: int)
    requires
        0 <= i < offered(
            if condition {
                operators()
            } else {
                starters()
            },
            partial,
        ).len(),
    ensures
        !is_block_keyword(
            offered(
                if condition {
                    operators()
                } else {
                    starters()
                },
                partial,
            )[i].label,
        ),
{
    let entries = if condition {
        operators()
    } else {
        starters()
    };
    lemma_offered_prefix(entries, partial);
    let label = offered(entries, partial)[i].label;
    let k = choose|k: int| 0 <= k < entries.len() && (#[trigger] entries[k]).0 == label;
    lemma_operators_open_no_block();
    lemma_starters_open_no_block();
    assert(!is_block_keyword(entries[k].0));
}

/// The first two characters of a label tell that it is no block keyword.
proof fn lemma_no_block(label: Seq<char>)
    requires
        label.len() > 0,
        label[0] != 'E',
        label[0] == 'T' ==> label.len() > 1 && label[1] != 'H',
    ensures
        !is_block_keyword(label),
{
    reveal_strlit("THEN");
    reveal_strlit("ELSE");
    reveal_strlit("END");
    assert("THEN"@[0] == 'T' && "THEN"@[1] == 'H' && "ELSE"@[0] == 'E' && "END"@[0] == 'E');
    if has_prefix(label, "THEN"@) {
        assert(label.take("THEN"@.len() as int)[1] == 'H');
        assert(label.take("THEN"@.len() as int)[0] == 'T');
    }
    if has_prefix(label, "ELSE"@) {
        assert(label.take("ELSE"@.len() as int)[0] == 'E');
    }
    if has_prefix(label, "END"@) {
        assert(label.take("END"@.len() as int)[0] == 'E');
    }
}

proof fn lemma_operators_open_no_block()
    ensures
        forall|k: int|
            0 <= k < operators().len() ==> !is_block_keyword((#[trigger] operators()[k]).0),
{
    reveal_strlit("SPECIFIED");
    reveal_strlit("NOT ");
    reveal_strlit("IN (");
    reveal_strlit(">=");
    reveal_strlit("<=");
    reveal_strlit("=");
    reveal_strlit("<>");
    reveal_strlit("IS INVISIBLE");
    reveal_strlit("AND ");
    reveal_strlit("OR ");
    assert forall|k: int| 0 <= k < operators().len() implies !is_block_keyword(
        (#[trigger] operators()[k]).0,
    ) by {
        lemma_no_block(operators()[k].0);
    }
}

proof fn lemma_starters_open_no_block()
    ensures
        forall|k: int|
            0 <= k < starters().len() ==> !is_block_keyword((#[trigger] starters()[k]).0),
{
    reveal_strlit("$SELF.");
    reveal_strlit("IF ");
    reveal_strlit("TABLE ");
    reveal_strlit("PFUNCTION ");
    reveal_strlit("FUNCTION ");
    reveal_strlit("$DEL_DEFAULT (");
    reveal_strlit("$SET_DEFAULT (");
    reveal_strlit("$SET_PRICING_FACTOR (");
    reveal_strlit("$COUNT_PARTS (");
    reveal_strlit("$SUM_PARTS (");
    reveal_strlit("OBJECTS:");
    reveal_strlit("CONDITION:");
    reveal_strlit("RESTRICTIONS:");
    reveal_strlit("INFERENCES:");
    assert forall|k: int| 0 <= k < starters().len() implies !is_block_keyword(
        (#[trigger] starters()[k]).0,
    ) by {
        lemma_no_block(starters()[k].0);
    }
}

/// The keyword that opens a call is a keyword, and the last one of the line.
pub proof fn law_last_keyword(line: Seq<char>, word: Seq<char>, n: int)
    ensures
        match last_keyword(line, word, n) {
            Some(i) => 0 <= i < n && is_keyword_at(line, word, i) && forall|j: int|
                i < j < n ==> !#[trigger] is_keyword_at(line, word, j),
            None => forall|j: int| 0 <= j < n ==> !#[trigger] is_keyword_at(line, word, j),
        },
    decreases n,
{
    if n > 0 {
        law_last_keyword(line, word, n - 1);
    }
}

/// Earlier lines have no part in what the line before the cursor is, so no dot
/// on them puts the cursor into a dotted chain.
pub proof fn law_chains_are_line_local(earlier: Seq<char>, line: Seq<char>)
    requires
        !line.contains('\n'),
    ensures
        line_before(earlier.push('\n') + line) == line,
        in_dotted_chain(line_before(earlier.push('\n') + line)) == in_dotted_chain(line),
        !line.contains('.') ==> !in_dotted_chain(line_before(earlier.push('\n') + line)),
{
    let before = earlier.push('\n') + line;
    let class = CharClass::Except('\n');
    let n = trail_len(before, class);
    lemma_trail(before, class);
    assert(before[earlier.len() as int] == '\n');
    assert(n <= line.len()) by {
        if n > line.len() {
            assert(class.admits(before[earlier.len() as int]));
        }
    }
    if n < line.len() {
        let c = before[before.len() - n - 1];
        assert(c == line[line.len() - n - 1]);
        assert(line.contains(c));
    }
    assert(line_before(before) =~= line);
    if !line.contains('.') {
        lemma_trail(line, CharClass::Except('.'));
        let m = trail_len(line, CharClass::Except('.'));
        if m < line.len() {
            assert(line.contains(line[line.len() - m - 1]));
        }
    }
}

/// Whether `name` is the whole word right behind the dot at index `k`.
pub open spec fn is_dotted_at(text: Seq<char>, name: Seq<char>, k: int) -> bool {
    0 <= k < text.len() && text[k] == '.' && ends_at_word(text, name, k + 1)
}

/// Dots in the rest of a text are dots in the text.
proof fn lemma_dotted_behind(text: Seq<char>, name: Seq<char>, n: int, k: int)
    requires
        0 <= n <= text.len(),
        0 <= k,
    ensures
        is_dotted_at(text.skip(n), name, k) <==> is_dotted_at(text, name, k + n),
{
    let t = text.skip(n);
    if k + 1 + name.len() <= t.len() {
        assert(t.subrange(k + 1, k + 1 + name.len()) =~= text.subrange(
            k + n + 1,
            k + n + 1 + name.len(),
        ));
    }
}

/// The names that a document contributes are the words right behind its dots
/// that start with what was typed: those behind each of its dots.
pub proof fn law_dotted_names(text: Seq<char>, partial: Seq<char>, name: Seq<char>)
    ensures
        dotted_names(text, partial).contains(name) <==> is_word(name) && has_prefix(name, partial)
            && exists|k: int| is_dotted_at(text, name, k),
    decreases text.len(),
{
    let class = CharClass::Except('.');
    let n = lead_len(text, class) as int;
    lemma_lead(text, class);
    let all = dotted_names(text, partial);
    if n >= text.len() {
        assert forall|k: int| !is_dotted_at(text, name, k) by {
            if is_dotted_at(text, name, k) {
                assert(class.admits(text[k]));
            }
        }
    } else {
        let after = text.skip(n + 1);
        let w = lead_len(after, CharClass::Word) as int;
        lemma_lead(after, CharClass::Word);
        let word = lead_run(after, CharClass::Word);
        let rest = dotted_names(after, partial);
        law_dotted_names(after, partial, name);
        assert(word =~= after.take(w));
        let own: Seq<Seq<char>> = if word.len() > 0 && has_prefix(word, partial) {
            seq![word]
        } else {
            seq![]
        };
        assert(all == own + rest);
        lemma_contains_either(own, rest, name);
        assert(own.contains(name) <==> word == name && word.len() > 0 && has_prefix(word, partial))
            by {
            if word.len() > 0 && has_prefix(word, partial) {
                assert(own[0] == word);
            }
        }
        if word == name && word.len() > 0 {
            assert(text.subrange(n + 1, n + 1 + name.len()) =~= word);
            if n + 1 + w < text.len() {
                assert(after[w] == text[n + 1 + w]);
            }
            assert forall|i: int| 0 <= i < name.len() implies is_word_char(#[trigger] name[i]) by {
                assert(after[i] == name[i]);
                assert(CharClass::Word.admits(after[i]));
            }
            assert(is_dotted_at(text, name, n));
        }
        if is_word(name) && is_dotted_at(text, name, n) {
            assert(after.take(name.len() as int) =~= text.subrange(n + 1, n + 1 + name.len()));
            assert forall|i: int| 0 <= i < name.len() implies CharClass::Word.admits(
                #[trigger] after[i],
            ) by {
                assert(after.take(name.len() as int)[i] == after[i]);
                assert(is_word_char(name[i]));
            }
            if name.len() < after.len() {
                assert(after[name.len() as int] == text[n + 1 + name.len()]);
            }
            lemma_lead_is(after, CharClass::Word, name.len() as int);
            assert(word =~= name);
        }
        if exists|k: int| is_dotted_at(text, name, k) {
            let k = choose|k: int| is_dotted_at(text, name, k);
            if k < n {
                assert(class.admits(text[k]));
            } else if k > n {
                lemma_dotted_behind(text, name, n + 1, k - n - 1);
                assert(is_dotted_at(after, name, k - n - 1));
            }
        }
        if exists|k: int| is_dotted_at(after, name, k) {
            let k = choose|k: int| is_dotted_at(after, name, k);
            lemma_dotted_behind(text, name, n + 1, k);
        }
    }
}

/// Whether the dot at index `d` ends a chain, and nothing but word characters
/// stands behind it.
pub open spec fn is_typed_at(line: Seq<char>, d: int) -> bool {
    &&& 0 < d < line.len() && line[d] == '.'
    &&& is_word_char(line[d - 1]) || line[d - 1] == '$' || line[d - 1] == '.'
    &&& forall|j: int| d < j < line.len() ==> is_word_char(#[trigger] line[j])
}

/// The cursor stands in a dotted chain if and only if a dot behind a chain has
/// nothing but a word, or nothing at all, between it and the cursor.
pub proof fn law_dotted_chain(line: Seq<char>)
    ensures
        in_dotted_chain(line) <==> exists|d: int| is_typed_at(line, d),
{
    let class = CharClass::Except('.');
    let n = trail_len(line, class) as int;
    lemma_trail(line, class);
    if n < line.len() {
        let d = line.len() - n - 1;
        let head = before_dot(line);
        let after = after_dot(line);
        assert(head =~= line.take(d));
        assert(after =~= line.skip(d + 1));
        lemma_trail(head, CharClass::Chain);
        lemma_lead(after, CharClass::Word);
        let m = lead_len(after, CharClass::Word) as int;
        if in_dotted_chain(line) {
            assert(head.len() > 0);
            assert(CharClass::Chain.admits(head[d - 1]));
            assert(head[d - 1] == line[d - 1]);
            assert forall|j: int| d < j < line.len() implies is_word_char(#[trigger] line[j]) by {
                assert(after[j - d - 1] == line[j]);
                assert(CharClass::Word.admits(after[j - d - 1]));
            }
            assert(is_typed_at(line, d));
        }
        if exists|e: int| is_typed_at(line, e) {
            let e = choose|e: int| is_typed_at(line, e);
            if e < d {
                assert(is_word_char(line[d]));
            } else if e > d {
                assert(class.admits(line[e]));
            }
            assert(head[d - 1] == line[d - 1]);
            if trail_len(head, CharClass::Chain) == 0 {
                assert(!CharClass::Chain.admits(head[head.len() - 0 - 1]));
            }
            assert forall|i: int| 0 <= i < after.len() implies CharClass::Word.admits(
                #[trigger] after[i],
            ) by {
                assert(after[i] == line[d + 1 + i]);
            }
            lemma_lead_is(after, CharClass::Word, after.len() as int);
        }
    } else {
        assert forall|d: int| !is_typed_at(line, d) by {
            if is_typed_at(line, d) {
                assert(class.admits(line[d]));
            }
        }
    }
}

/// Whether the line has `TABLE` at index `at` as a word of its own.
pub open spec fn is_table_at(line: Seq<char>, at: int) -> bool {
    &&& 0 <= at && at + 5 < line.len()
    &&& line[at] == 'T' && line[at + 1] == 'A' && line[at + 2] == 'B' && line[at + 3] == 'L'
        && line[at + 4] == 'E'
    &&& at == 0 || !is_word_char(line[at - 1])
    &&& is_white_space(line[at + 5])
}

/// Whether the line ends inside of a call: behind the last `TABLE` at `at`
/// white space up to `a`, the name up to `b`, and the first `(` behind it at
/// `c`, without a `)` behind that.
pub open spec fn is_open_call(line: Seq<char>, at: int, a: int, b: int, c: int) -> bool {
    &&& is_table_at(line, at)
    &&& forall|j: int| at < j ==> !#[trigger] is_table_at(line, j)
    &&& at + 5 <= a < b <= c < line.len()
    &&& forall|j: int| at + 5 <= j < a ==> is_white_space(#[trigger] line[j])
    &&& forall|j: int| a <= j < b ==> is_word_char(#[trigger] line[j])
    &&& !is_word_char(line[b])
    &&& forall|j: int| b <= j < c ==> #[trigger] line[j] != '('
    &&& line[c] == '('
    &&& forall|j: int| c < j < line.len() ==> #[trigger] line[j] != ')'
}

proof fn lemma_table_at(line: Seq<char>, at: int)
    ensures
        is_keyword_at(line, "TABLE"@, at) <==> is_table_at(line, at),
{
    reveal_strlit("TABLE");
    let word = "TABLE"@;
    assert(word.len() == 5);
    if 0 <= at && at + 5 <= line.len() {
        let part = line.subrange(at, at + 5);
        assert(part[0] == line[at] && part[1] == line[at + 1] && part[2] == line[at + 2] && part[3]
            == line[at + 3] && part[4] == line[at + 4]);
        if line[at] == 'T' && line[at + 1] == 'A' && line[at + 2] == 'B' && line[at + 3] == 'L'
            && line[at + 4] == 'E' {
            assert(part =~= word);
        }
    }
}

/// The name of the open call is what stands behind the last `TABLE`, up to the
/// first character that is no word character.
pub proof fn law_open_call(line: Seq<char>, at: int, a: int, b: int, c: int)
    requires
        is_open_call(line, at, a, b, c),
    ensures
        open_table(line) == Some(line.subrange(a, b)),
{
    reveal_strlit("TABLE");
    let len = line.len() as int;
    law_last_keyword(line, "TABLE"@, len);
    lemma_table_at(line, at);
    assert(last_keyword(line, "TABLE"@, len) == Some(at)) by {
        match last_keyword(line, "TABLE"@, len) {
            Some(i) => {
                lemma_table_at(line, i);
                if i < at {
                    assert(!is_keyword_at(line, "TABLE"@, at));
                } else if i > at {
                    assert(!is_table_at(line, i));
                }
            },
            None => {
                assert(!is_keyword_at(line, "TABLE"@, at));
            },
        }
    }
    let rest0 = line.skip(at + 5);
    assert forall|j: int| 0 <= j < a - at - 5 implies CharClass::White.admits(
        #[trigger] rest0[j],
    ) by {
        assert(rest0[j] == line[at + 5 + j]);
    }
    assert(rest0[a - at - 5] == line[a]);
    assert(is_word_char(line[a]));
    lemma_lead_is(rest0, CharClass::White, a - at - 5);
    let after = trim_lead(rest0, CharClass::White);
    assert(after =~= line.skip(a));
    assert forall|j: int| 0 <= j < b - a implies CharClass::Word.admits(#[trigger] after[j]) by {
        assert(after[j] == line[a + j]);
    }
    assert(after[b - a] == line[b]);
    lemma_lead_is(after, CharClass::Word, b - a);
    let name = lead_run(after, CharClass::Word);
    assert(name =~= line.subrange(a, b));
    let rest = after.skip(name.len() as int);
    assert(rest =~= line.skip(b));
    assert forall|j: int| 0 <= j < c - b implies CharClass::Except('(').admits(
        #[trigger] rest[j],
    ) by {
        assert(rest[j] == line[b + j]);
    }
    assert(rest[c - b] == line[c]);
    lemma_lead_is(rest, CharClass::Except('('), c - b);
    let tail = rest.skip(c - b + 1);
    assert(!tail.contains(')')) by {
        if tail.contains(')') {
            let k = choose|k: int| 0 <= k < tail.len() && tail[k] == ')';
            assert(tail[k] == line[c + 1 + k]);
        }
    }
}

/// A table is found open only where a call of it is open.
pub proof fn law_open_call_is_there(line: Seq<char>)
    requires
        open_table(line) is Some,
    ensures
        exists|at: int, a: int, b: int, c: int| is_open_call(line, at, a, b, c),
{
    reveal_strlit("TABLE");
    let len = line.len() as int;
    law_last_keyword(line, "TABLE"@, len);
    let at = last_keyword(line, "TABLE"@, len)->0;
    lemma_table_at(line, at);
    let rest0 = line.skip(at + 5);
    let g = lead_len(rest0, CharClass::White) as int;
    lemma_lead(rest0, CharClass::White);
    let after = trim_lead(rest0, CharClass::White);
    let a = at + 5 + g;
    assert(after =~= line.skip(a));
    let w = lead_len(after, CharClass::Word) as int;
    lemma_lead(after, CharClass::Word);
    let b = a + w;
    let rest = after.skip(w);
    assert(rest =~= line.skip(b));
    let o = lead_len(rest, CharClass::Except('(')) as int;
    lemma_lead(rest, CharClass::Except('('));
    let c = b + o;
    let tail = rest.skip(o + 1);
    assert forall|j: int| at < j implies !#[trigger] is_table_at(line, j) by {
        lemma_table_at(line, j);
        if j < len {
            assert(!is_keyword_at(line, "TABLE"@, j));
        }
    }
    assert forall|j: int| at + 5 <= j < a implies is_white_space(#[trigger] line[j]) by {
        assert(rest0[j - at - 5] == line[j]);
        assert(CharClass::White.admits(rest0[j - at - 5]));
    }
    assert forall|j: int| a <= j < b implies is_word_char(#[trigger] line[j]) by {
        assert(after[j - a] == line[j]);
        assert(CharClass::Word.admits(after[j - a]));
    }
    assert(after[w] == line[b]);
    assert forall|j: int| b <= j < c implies #[trigger] line[j] != '(' by {
        assert(rest[j - b] == line[j]);
        assert(CharClass::Except('(').admits(rest[j - b]));
    }
    assert(rest[o] == line[c]);
    assert forall|j: int| c < j < line.len() implies #[trigger] line[j] != ')' by {
        assert(tail[j - c - 1] == line[j]);
        if line[j] == ')' {
            assert(tail.contains(')'));
        }
    }
    assert(is_open_call(line, at, a, b, c));
}

/// Whether the line ends behind a reference: a chain from `j` up to the dot at
/// `d` with something in it that is neither digit nor dot, a word up to `t`,
/// white space up to `w`, and word characters, if any, up to the end.
pub open spec fn is_reference_at(line: Seq<char>, j: int, d: int, t: int, w: int) -> bool {
    &&& 0 <= j < d < line.len() && line[d] == '.'
    &&& forall|i: int|
        j <= i < d ==> is_word_char(#[trigger] line[i]) || line[i] == '$' || line[i] == '.'
    &&& !('0' <= line[j] <= '9') && line[j] != '.'
    &&& d + 1 < t <= w <= line.len()
    &&& forall|i: int| d < i < t ==> is_word_char(#[trigger] line[i])
    &&& forall|i: int| t <= i < w ==> is_white_space(#[trigger] line[i])
    &&& forall|i: int| w <= i < line.len() ==> is_word_char(#[trigger] line[i])
}

/// The cursor follows a reference if and only if there is one right before it,
/// white space and a word that is being typed aside.
pub proof fn law_follows_reference(line: Seq<char>)
    ensures
        follows_reference(line) <==> exists|j: int, d: int, t: int, w: int|
            is_reference_at(line, j, d, t, w),
{
    let class = CharClass::Except('.');
    let n = trail_len(line, class) as int;
    lemma_trail(line, class);
    if n < line.len() {
        let d = line.len() - n - 1;
        let head = before_dot(line);
        let after = after_dot(line);
        assert(head =~= line.take(d));
        assert(after =~= line.skip(d + 1));
        let k = trail_len(head, CharClass::Chain) as int;
        lemma_trail(head, CharClass::Chain);
        let chain = trail_run(head, CharClass::Chain);
        assert(chain =~= line.subrange(d - k, d));
        let m = lead_len(after, CharClass::Word) as int;
        lemma_lead(after, CharClass::Word);
        let rest = after.skip(m);
        let g = lead_len(rest, CharClass::White) as int;
        lemma_lead(rest, CharClass::White);
        let typed = trim_lead(rest, CharClass::White);
        let t = d + 1 + m;
        let w = t + g;
        assert(rest =~= line.skip(t));
        assert(typed =~= line.skip(w));
        lemma_lead(typed, CharClass::Word);
        if follows_reference(line) {
            let i = choose|i: int|
                0 <= i < chain.len() && !('0' <= #[trigger] chain[i] <= '9' || chain[i] == '.');
            let j = d - k + i;
            assert(chain[i] == line[j]);
            assert forall|i: int| j <= i < d implies is_word_char(#[trigger] line[i]) || line[i]
                == '$' || line[i] == '.' by {
                assert(head[i] == line[i]);
                assert(CharClass::Chain.admits(head[i]));
            }
            assert forall|i: int| d < i < t implies is_word_char(#[trigger] line[i]) by {
                assert(after[i - d - 1] == line[i]);
                assert(CharClass::Word.admits(after[i - d - 1]));
            }
            assert forall|i: int| t <= i < w implies is_white_space(#[trigger] line[i]) by {
                assert(rest[i - t] == line[i]);
                assert(CharClass::White.admits(rest[i - t]));
            }
            assert forall|i: int| w <= i < line.len() implies is_word_char(#[trigger] line[i]) by {
                assert(typed[i - w] == line[i]);
                assert(CharClass::Word.admits(typed[i - w]));
            }
            assert(is_reference_at(line, j, d, t, w));
        }
        if exists|j: int, e: int, u: int, v: int| is_reference_at(line, j, e, u, v) {
            let (j, e, u, v) = choose|j: int, e: int, u: int, v: int|
                is_reference_at(line, j, e, u, v);
            if e < d {
                assert(d < u ==> is_word_char(line[d]));
                assert(u <= d < v ==> is_white_space(line[d]));
                assert(v <= d ==> is_word_char(line[d]));
            } else if e > d {
                assert(class.admits(line[e]));
            }
            assert(e == d);
            if d - k > j {
                assert(head[d - k - 1] == line[d - k - 1]);
                assert(!CharClass::Chain.admits(head[head.len() - k - 1]));
            }
            assert(chain[j - (d - k)] == line[j]);
            assert forall|i: int| 0 <= i < u - d - 1 implies CharClass::Word.admits(
                #[trigger] after[i],
            ) by {
                assert(after[i] == line[d + 1 + i]);
            }
            if u < v {
                assert(after[u - d - 1] == line[u]);
                assert(is_white_space(line[u]));
                lemma_lead_is(after, CharClass::Word, u - d - 1);
                assert forall|i: int| 0 <= i < v - u implies CharClass::White.admits(
                    #[trigger] rest[i],
                ) by {
                    assert(rest[i] == line[u + i]);
                }
                if v < line.len() {
                    assert(rest[v - u] == line[v]);
                    assert(is_word_char(line[v]));
                }
                lemma_lead_is(rest, CharClass::White, v - u);
                assert forall|i: int| 0 <= i < typed.len() implies CharClass::Word.admits(
                    #[trigger] typed[i],
                ) by {
                    assert(typed[i] == line[v + i]);
                }
                lemma_lead_is(typed, CharClass::Word, typed.len() as int);
            } else {
                assert forall|i: int| 0 <= i < after.len() implies CharClass::Word.admits(
                    #[trigger] after[i],
                ) by {
                    assert(after[i] == line[d + 1 + i]);
                }
                lemma_lead_is(after, CharClass::Word, after.len() as int);
                assert(rest.len() == 0);
                assert(typed.len() == 0);
            }
        }
    } else {
        assert forall|j: int, d: int, t: int, w: int| !is_reference_at(line, j, d, t, w) by {
            if is_reference_at(line, j, d, t, w) {
                assert(class.admits(line[d]));
            }
        }
    }
}

/// Whether the cursor at index `i` stands on a line that starts at `b`, behind a
/// word that starts at `q`.
pub open spec fn is_cursor(text: Seq<char>, i: int, b: int, q: int) -> bool {
    &&& 0 <= b <= i <= text.len() && 0 <= q <= i
    &&& b == 0 || text[b - 1] == '\n'
    &&& forall|j: int| b <= j < i ==> #[trigger] text[j] != '\n'
    &&& forall|j: int| q <= j < i ==> is_word_char(#[trigger] text[j]) || text[j] == '$'
    &&& q == 0 || !(is_word_char(text[q - 1]) || text[q - 1] == '$')
}

/// Whether a line in upper case carries `IF`, `AND` or `OR`.
pub open spec fn carries_keyword(upper: Seq<char>) -> bool {
    occurs(upper, " IF "@) || has_prefix(upper, "IF "@) || occurs(upper, " AND "@) || occurs(
        upper,
        " OR "@,
    )
}

/// What is offered at a position, by what stands on its line before it: behind
/// a dot of a chain the characteristics, inside of an open call the columns of
/// the table, behind a reference on a line with a condition the operators, and
/// anywhere else the starts of statements.
pub proof fn law_completion(
    text: Seq<char>,
    position: Position,
    mat: MaterialIndex,
    i: int,
    b: int,
    q: int,
)
    requires
        position_index(text, position) == Some(i),
        is_cursor(text, i, b, q),
    ensures
        ({
            let line = text.subrange(b, i);
            let partial = text.subrange(q, i);
            let chain = exists|d: int| is_typed_at(line, d);
            let behind = exists|j: int, d: int, t: int, w: int| is_reference_at(line, j, d, t, w);
            &&& chain ==> completion_items(text, position, mat) == Some(
                characteristic_items(text, partial, mat),
            )
            &&& !chain ==> forall|at: int, x: int, y: int, c: int| #[trigger]
                is_open_call(line, at, x, y, c) ==> completion_items(text, position, mat) == Some(
                    column_items(line.subrange(x, y), partial, mat),
                )
            &&& !chain && (forall|at: int, x: int, y: int, c: int|
                !#[trigger] is_open_call(line, at, x, y, c)) ==> completion_items(
                text,
                position,
                mat,
            ) == Some(
                if carries_keyword(uppercase(line)) && behind {
                    offered(operators(), partial)
                } else {
                    offered(starters(), partial)
                },
            )
        }),
{
    let before = text.take(i);
    let line = text.subrange(b, i);
    let partial = text.subrange(q, i);
    let class = CharClass::Except('\n');
    assert forall|j: int|
        before.len() - (i - b) <= j < before.len() implies class.admits(#[trigger] before[j]) by {
        assert(before[j] == text[j]);
    }
    if b > 0 {
        assert(before[b - 1] == text[b - 1]);
    }
    lemma_trail_is(before, class, (i - b) as nat);
    assert(line_before(before) =~= line);
    let word = CharClass::DollarWord;
    assert forall|j: int|
        before.len() - (i - q) <= j < before.len() implies word.admits(#[trigger] before[j]) by {
        assert(before[j] == text[j]);
    }
    if q > 0 {
        assert(before[q - 1] == text[q - 1]);
    }
    lemma_trail_is(before, word, (i - q) as nat);
    assert(partial_word(before) =~= partial);
    law_dotted_chain(line);
    law_follows_reference(line);
    assert forall|at: int, x: int, y: int, c: int| #[trigger]
        is_open_call(line, at, x, y, c) implies open_table(line) == Some(line.subrange(x, y)) by {
        law_open_call(line, at, x, y, c);
    }
    if open_table(line) is Some {
        law_open_call_is_there(line);
    }
}

/// What is offered of a list is what is offered of its parts, in order.
pub proof fn law_offered_parts(
    a: Seq<(Seq<char>, Seq<char>, ItemKind)>,
    b: Seq<(Seq<char>, Seq<char>, ItemKind)>,
    partial: Seq<char>,
)
    ensures
        offered(a + b, partial) == offered(a, partial) + offered(b, partial),
    decreases b.len(),
{
    if b.len() == 0 {
        assert(a + b =~= a);
        assert(offered(a, partial) + offered(b, partial) =~= offered(a, partial));
    } else {
        law_offered_parts(a, b.drop_last(), partial);
        assert((a + b).drop_last() =~= a + b.drop_last());
        assert((a + b).last() == b.last());
        assert(offered(a + b, partial) =~= offered(a, partial) + offered(b, partial));
    }
}

/// An entry is offered, as it stands, if and only if its label starts with what
/// was typed.
pub proof fn law_offered_entry(
    label: Seq<char>,
    detail: Seq<char>,
    kind: ItemKind,
    partial: Seq<char>,
)
    ensures
        offered(seq![(label, detail, kind)], partial) == if partial.len() <= label.len() && (forall|
            i: int,
        |
            0 <= i < partial.len() ==> #[trigger] label[i] == partial[i]) {
            seq![ItemView { label, kind, detail: Some(detail), insert_text: Some(label) }]
        } else {
            Seq::<ItemView>::empty()
        },
{
    let entries = seq![(label, detail, kind)];
    assert(entries.drop_last() =~= seq![]);
    assert(offered(entries.drop_last(), partial) =~= seq![]);
    lemma_prefix(label, partial);
    assert(offered(entries, partial) =~= if has_prefix(label, partial) {
        seq![ItemView { label, kind, detail: Some(detail), insert_text: Some(label) }]
    } else {
        Seq::<ItemView>::empty()
    });
}

/// A text starts with another if and only if they agree character by character.
proof fn lemma_prefix(s: Seq<char>, prefix: Seq<char>)
    ensures
        has_prefix(s, prefix) <==> prefix.len() <= s.len() && forall|i: int|
            0 <= i < prefix.len() ==> #[trigger] s[i] == prefix[i],
{
    if prefix.len() <= s.len() {
        let t = s.take(prefix.len() as int);
        if has_prefix(s, prefix) {
            assert forall|i: int| 0 <= i < prefix.len() implies #[trigger] s[i] == prefix[i] by {
                assert(t[i] == s[i]);
            }
        }
        if forall|i: int| 0 <= i < prefix.len() ==> #[trigger] s[i] == prefix[i] {
            assert(t =~= prefix);
        }
    }
}

/// A column is offered with an assignment to it as the text to insert, and is
/// marked as a key field if and only if the material has it among the key
/// fields of the table.
pub proof fn law_column_marks(table: Seq<char>, partial: Seq<char>, mat: MaterialIndex, i: int)
    requires
        0 <= i < column_items(table, partial, mat).len(),
    ensures
        ({
            let item = column_items(table, partial, mat)[i];
            let is_key = mat.vt_keys@.contains_key(table) && exists|k: int|
                0 <= k < mat.vt_keys@[table]@.len() && (#[trigger] mat.vt_keys@[table]@[k])@
                    == item.label;
            &&& item.kind == ItemKind::Field
            &&& item.insert_text == Some(item.label + " = "@)
            &&& is_key ==> item.detail == Some(table + " — key field"@)
            &&& !is_key ==> item.detail == Some(table + " — column"@)
        }),
{
    let item = column_items(table, partial, mat)[i];
    let keys = table_list(mat.vt_keys@, table);
    if mat.vt_keys@.contains_key(table) {
        let list = mat.vt_keys@[table]@;
        if keys.contains(item.label) {
            let k = choose|k: int| 0 <= k < keys.len() && keys[k] == item.label;
            assert(list[k]@ == item.label);
        }
        if exists|k: int| 0 <= k < list.len() && (#[trigger] list[k])@ == item.label {
            let k = choose|k: int| 0 <= k < list.len() && (#[trigger] list[k])@ == item.label;
            assert(keys[k] == item.label);
        }
    }
}

/// A characteristic is offered by its name alone.
pub proof fn law_characteristic_items(
    text: Seq<char>,
    partial: Seq<char>,
    mat: MaterialIndex,
    i: int,
)
    requires
        0 <= i < characteristic_items(text, partial, mat).len(),
    ensures
        characteristic_items(text, partial, mat)[i].kind == ItemKind::Field,
        characteristic_items(text, partial, mat)[i].detail is None,
        characteristic_items(text, partial, mat)[i].insert_text is None,
{
}

/// A column is offered if and only if the material has it among the columns of
/// the table, at whichever place, and it starts with what was typed.
pub proof fn law_every_column_is_offered(
    table: Seq<char>,
    partial: Seq<char>,
    mat: MaterialIndex,
    name: Seq<char>,
)
    ensures
        labels(column_items(table, partial, mat)).contains(name) <==> has_prefix(name, partial)
            && mat.vt_chars@.contains_key(table) && exists|k: int|
            0 <= k < mat.vt_chars@[table]@.len() && (#[trigger] mat.vt_chars@[table]@[k])@ == name,
{
    law_offered_columns(table, partial, mat);
    let list = table_list(mat.vt_chars@, table);
    if mat.vt_chars@.contains_key(table) {
        let all = mat.vt_chars@[table]@;
        if list.contains(name) {
            let k = choose|k: int| 0 <= k < list.len() && list[k] == name;
            assert(all[k]@ == name);
        }
        if exists|k: int| 0 <= k < all.len() && (#[trigger] all[k])@ == name {
            let k = choose|k: int| 0 <= k < all.len() && (#[trigger] all[k])@ == name;
            assert(list[k] == name);
        }
    }
}

/// The item for an entry that is always the same.
pub open spec fn fixed_item(label: Seq<char>, detail: Seq<char>, kind: ItemKind) -> ItemView {
    ItemView { label, kind, detail: Some(detail), insert_text: Some(label) }
}

proof fn lemma_all_offered(entries: Seq<(Seq<char>, Seq<char>, ItemKind)>)
    ensures
        offered(entries, seq![]).len() == entries.len(),
        forall|i: int|
            0 <= i < entries.len() ==> #[trigger] offered(entries, seq![])[i] == fixed_item(
                entries[i].0,
                entries[i].1,
                entries[i].2,
            ),
    decreases entries.len(),
{
    if entries.len() > 0 {
        let init = entries.drop_last();
        lemma_all_offered(init);
        assert(entries.last().0.take(0) =~= seq![]);
        let all = offered(entries, seq![]);
        assert forall|i: int| 0 <= i < entries.len() implies #[trigger] all[i] == fixed_item(
            entries[i].0,
            entries[i].1,
            entries[i].2,
        ) by {
            if i < init.len() {
                assert(offered(init, seq![])[i] == fixed_item(init[i].0, init[i].1, init[i].2));
            }
        }
    }
}

/// Where nothing was typed, all operators are offered.
pub proof fn law_all_operators()
    ensures
        offered(operators(), seq![]) == seq![
            fixed_item("SPECIFIED"@, "postfix: <ref> SPECIFIED — value is entered"@, ItemKind::Operator),
            fixed_item("NOT "@, "negation: NOT <condition>"@, ItemKind::Operator),
            fixed_item("IN ("@, "membership: <ref> IN ('A','B') / (min - max)"@, ItemKind::Operator),
            fixed_item(">="@, "comparison: <ref> >= <value>"@, ItemKind::Operator),
            fixed_item("<="@, "comparison: <ref> <= <value>"@, ItemKind::Operator),
            fixed_item("="@, "comparison: <ref> = <value>"@, ItemKind::Operator),
            fixed_item("<>"@, "comparison: <ref> <> <value>"@, ItemKind::Operator),
            fixed_item("IS INVISIBLE"@, "postfix: <ref> IS INVISIBLE"@, ItemKind::Operator),
            fixed_item("AND "@, "condition conjunction"@, ItemKind::Operator),
            fixed_item("OR "@, "condition disjunction"@, ItemKind::Operator),
        ],
{
    lemma_all_offered(operators());
    assert(offered(operators(), seq![]) =~= seq![
            fixed_item("SPECIFIED"@, "postfix: <ref> SPECIFIED — value is entered"@, ItemKind::Operator),
            fixed_item("NOT "@, "negation: NOT <condition>"@, ItemKind::Operator),
            fixed_item("IN ("@, "membership: <ref> IN ('A','B') / (min - max)"@, ItemKind::Operator),
            fixed_item(">="@, "comparison: <ref> >= <value>"@, ItemKind::Operator),
            fixed_item("<="@, "comparison: <ref> <= <value>"@, ItemKind::Operator),
            fixed_item("="@, "comparison: <ref> = <value>"@, ItemKind::Operator),
            fixed_item("<>"@, "comparison: <ref> <> <value>"@, ItemKind::Operator),
            fixed_item("IS INVISIBLE"@, "postfix: <ref> IS INVISIBLE"@, ItemKind::Operator),
            fixed_item("AND "@, "condition conjunction"@, ItemKind::Operator),
            fixed_item("OR "@, "condition disjunction"@, ItemKind::Operator),
    ]);
}

/// Where nothing was typed, all starts of statements are offered.
pub proof fn law_all_starters()
    ensures
        offered(starters(), seq![]) == seq![
            fixed_item("$SELF."@, "object variable reference"@, ItemKind::Variable),
            fixed_item("IF "@, "postfix guard — `IF <condition>,` guards the preceding statement"@, ItemKind::Keyword),
            fixed_item("TABLE "@, "variant table call"@, ItemKind::Function),
            fixed_item("PFUNCTION "@, "custom function call"@, ItemKind::Function),
            fixed_item("FUNCTION "@, "SAP function call"@, ItemKind::Function),
            fixed_item("$DEL_DEFAULT ("@, "system procedure"@, ItemKind::Function),
            fixed_item("$SET_DEFAULT ("@, "system procedure"@, ItemKind::Function),
            fixed_item("$SET_PRICING_FACTOR ("@, "system procedure"@, ItemKind::Function),
            fixed_item("$COUNT_PARTS ("@, "system procedure"@, ItemKind::Function),
            fixed_item("$SUM_PARTS ("@, "system procedure"@, ItemKind::Function),
            fixed_item("OBJECTS:"@, "constraint section header"@, ItemKind::Keyword),
            fixed_item("CONDITION:"@, "constraint section header"@, ItemKind::Keyword),
            fixed_item("RESTRICTIONS:"@, "constraint section header"@, ItemKind::Keyword),
            fixed_item("INFERENCES:"@, "constraint section header"@, ItemKind::Keyword),
        ],
{
    lemma_all_offered(starters());
    assert(offered(starters(), seq![]) =~= seq![
            fixed_item("$SELF."@, "object variable reference"@, ItemKind::Variable),
            fixed_item("IF "@, "postfix guard — `IF <condition>,` guards the preceding statement"@, ItemKind::Keyword),
            fixed_item("TABLE "@, "variant table call"@, ItemKind::Function),
            fixed_item("PFUNCTION "@, "custom function call"@, ItemKind::Function),
            fixed_item("FUNCTION "@, "SAP function call"@, ItemKind::Function),
            fixed_item("$DEL_DEFAULT ("@, "system procedure"@, ItemKind::Function),
            fixed_item("$SET_DEFAULT ("@, "system procedure"@, ItemKind::Function),
            fixed_item("$SET_PRICING_FACTOR ("@, "system procedure"@, ItemKind::Function),
            fixed_item("$COUNT_PARTS ("@, "system procedure"@, ItemKind::Function),
            fixed_item("$SUM_PARTS ("@, "system procedure"@, ItemKind::Function),
            fixed_item("OBJECTS:"@, "constraint section header"@, ItemKind::Keyword),
            fixed_item("CONDITION:"@, "constraint section header"@, ItemKind::Keyword),
            fixed_item("RESTRICTIONS:"@, "constraint section header"@, ItemKind::Keyword),
            fixed_item("INFERENCES:"@, "constraint section header"@, ItemKind::Keyword),
    ]);
}

/// Where the text has the line of a position, there is an answer, and else none.
pub proof fn law_no_completion(text: Seq<char>, position: Position, mat: MaterialIndex)
    ensures
        completion_items(text, position, mat) is None <==> newlines(text) < position.line,
{
    law_no_such_line(text, position);
}

} // verus!
