//! Laws of hover: what a shown text has to hold, and what it depends on.

use vstd::prelude::*;
use vstd::utf8::encode_utf8;

use crate::grammar::{
    descendant_of, focus_of, node_ancestors, node_syntax, parsed, root_of, FocusView,
};
use crate::hover::{
    characteristic_text, column_texts, description_text, hover_at, hover_view, identifier_text, keys_of,
    law_occurrences, occurrences, place_texts, reference_text, sign_text, use_text, values_text,
    HoverView,
};
use crate::lines::{is_word, lines, use_count};
use crate::material::{CharValueInfo, MaterialIndex};
use crate::names::{law_name_set, lemma_increasing_count, name_set, views};
use crate::position::{
    byte_range, lemma_byte_len_is_utf8, position_index, slice_at, Position,
};
use crate::refs::{elsewhere, ref_files, RefLoc, ReferenceIndex};
use crate::render::{decimal, first, joined, lemma_joined_item};
use crate::semantic_laws::{is_second, lemma_has_second, lemma_second};
use crate::syntax::of_kind;
use crate::text::{
    has_prefix, has_suffix, is_core, law_trim, lemma_occurs_between, lemma_occurs_within, occurs,
    CharClass,
};

verus! {

/// Whether a kind of node tells the role of an identifier below it.
pub open spec fn tells_role(kind: Seq<char>) -> bool {
    kind == "bare_ref"@ || kind == "object_ref"@ || kind == "keyword_call"@ || kind == "call"@
        || kind == "named_argument"@ || kind == "object_decl"@
}

proof fn lemma_kinds()
    ensures
        "bare_ref"@ != "object_ref"@,
        "keyword_call"@ != "bare_ref"@,
        "keyword_call"@ != "object_ref"@,
        "call"@ != "bare_ref"@,
        "call"@ != "object_ref"@,
        "call"@ != "keyword_call"@,
        "named_argument"@ != "bare_ref"@,
        "named_argument"@ != "object_ref"@,
        "named_argument"@ != "keyword_call"@,
        "named_argument"@ != "call"@,
        "object_decl"@ != "bare_ref"@,
        "object_decl"@ != "object_ref"@,
        "object_decl"@ != "keyword_call"@,
        "object_decl"@ != "call"@,
        "object_decl"@ != "named_argument"@,
{
    reveal_strlit("bare_ref");
    reveal_strlit("object_ref");
    reveal_strlit("keyword_call");
    reveal_strlit("call");
    reveal_strlit("named_argument");
    reveal_strlit("object_decl");
    assert("bare_ref"@.len() == 8 && "object_ref"@.len() == 10 && "keyword_call"@.len() == 12
        && "call"@.len() == 4 && "named_argument"@.len() == 14 && "object_decl"@.len() == 11);
}

/// Nodes that tell no role are passed over: the nearest one that does decides.
pub proof fn law_nearest_role(
    text: Seq<char>,
    name: Seq<char>,
    ancestors: Seq<Seq<char>>,
    is_class: bool,
    mat: MaterialIndex,
    refs: ReferenceIndex,
    file: Seq<char>,
    k: int,
)
    requires
        0 <= k <= ancestors.len(),
        forall|j: int| 0 <= j < k ==> !tells_role(#[trigger] ancestors[j]),
    ensures
        identifier_text(text, name, ancestors, is_class, mat, refs, file) == identifier_text(
            text,
            name,
            ancestors.skip(k),
            is_class,
            mat,
            refs,
            file,
        ),
    decreases k,
{
    if k == 0 {
        assert(ancestors.skip(0) =~= ancestors);
    } else {
        let rest = ancestors.skip(1);
        assert(!tells_role(ancestors[0]));
        assert forall|j: int| 0 <= j < k - 1 implies !tells_role(#[trigger] rest[j]) by {
            assert(rest[j] == ancestors[j + 1]);
        }
        law_nearest_role(text, name, rest, is_class, mat, refs, file, k - 1);
        assert(rest.skip(k - 1) =~= ancestors.skip(k));
    }
}

/// Whether the first node above that tells a role is number `k`, of a kind.
pub open spec fn role_is(focus: FocusView, k: int, kind: Seq<char>) -> bool {
    &&& focus.kind == "identifier"@
    &&& 0 <= k < focus.ancestors.len() && focus.ancestors[k] == kind
    &&& forall|j: int| 0 <= j < k ==> !tells_role(#[trigger] focus.ancestors[j])
}

/// An identifier in a call, in a named argument, in an object declaration, and
/// one without a role: what is shown, and where.
pub proof fn law_roles(
    text: Seq<char>,
    focus: FocusView,
    mat: MaterialIndex,
    refs: ReferenceIndex,
    file: Seq<char>,
    k: int,
)
    ensures
        ({
            let name = slice_at(text, focus.start_byte, focus.end_byte);
            let range = byte_range(text, focus.start_byte, focus.end_byte);
            let shown = hover_view(text, focus, mat, refs, file);
            &&& role_is(focus, k, "call"@) ==> shown == Some(
                HoverView {
                    value: "`"@ + name + "` — function call (math builtin or user function)."@,
                    range,
                },
            )
            &&& role_is(focus, k, "named_argument"@) ==> shown == Some(
                HoverView {
                    value: "`"@ + name + "` — parameter of a variant table / function call."@,
                    range,
                },
            )
            &&& role_is(focus, k, "object_decl"@) && !focus.is_class ==> shown == Some(
                HoverView { value: "`"@ + name + "` — constraint object declaration."@, range },
            )
            &&& role_is(focus, k, "object_decl"@) && focus.is_class && mat.classes@.contains(name)
                ==> shown == Some(
                HoverView { value: "`"@ + name + "` — class (in material class universe)."@, range },
            )
            &&& role_is(focus, k, "object_decl"@) && focus.is_class && !mat.classes@.contains(name)
                ==> shown == Some(
                HoverView {
                    value: "`"@ + name + "` — class (not in material class universe)."@,
                    range,
                },
            )
            &&& focus.kind == "identifier"@ && (forall|j: int|
                0 <= j < focus.ancestors.len() ==> !tells_role(#[trigger] focus.ancestors[j]))
                ==> shown == Some(HoverView { value: "`"@ + name + "`"@, range })
        }),
{
    lemma_kinds();
    let name = slice_at(text, focus.start_byte, focus.end_byte);
    let above = focus.ancestors;
    if 0 <= k < above.len() && forall|j: int| 0 <= j < k ==> !tells_role(#[trigger] above[j]) {
        law_nearest_role(text, name, above, focus.is_class, mat, refs, file, k);
        assert(above.skip(k)[0] == above[k]);
    }
    if forall|j: int| 0 <= j < above.len() ==> !tells_role(#[trigger] above[j]) {
        law_nearest_role(
            text,
            name,
            above,
            focus.is_class,
            mat,
            refs,
            file,
            above.len() as int,
        );
    }
}

/// The files of places are counted each once.
proof fn lemma_file_count(places: Seq<RefLoc>)
    ensures
        name_set(ref_files(places)).len() == ref_files(places).to_set().len(),
{
    let list = ref_files(places);
    let set = name_set(list);
    law_name_set(list);
    lemma_increasing_count(set);
    assert(set.to_set() =~= list.to_set()) by {
        assert forall|n: Seq<char>| set.to_set().contains(n) <==> list.to_set().contains(n) by {
            assert(set.contains(n) <==> list.contains(n));
        }
    }
}

/// Whether a name starts with a dollar sign.
pub open spec fn is_head(name: Seq<char>) -> bool {
    name.len() > 0 && name[0] == '$'
}

/// What a reference shows: its name and how it refers, how often the document
/// uses it, and unless it is a builtin what the material knows of it and where
/// it is used.
#[verifier::rlimit(40)]
pub proof fn law_reference_hover(
    text: Seq<char>,
    focus: FocusView,
    mat: MaterialIndex,
    refs: ReferenceIndex,
    file: Seq<char>,
    k: int,
)
    requires
        role_is(focus, k, "bare_ref"@) || role_is(focus, k, "object_ref"@),
    ensures
        ({
            let name = slice_at(text, focus.start_byte, focus.end_byte);
            let label = if focus.ancestors[k] == "object_ref"@ {
                "object variable reference"@
            } else {
                "characteristic/object reference"@
            };
            let mark = if is_head(name) {
                " (builtin object variable)"@
            } else {
                Seq::<char>::empty()
            };
            let known = mat.char_values@.contains_key(name) && !is_head(name);
            let info = mat.char_values@[name];
            let description = if known && info.description is Some {
                "\n\n*"@ + (info.description->0)@ + "*"@
            } else {
                Seq::<char>::empty()
            };
            let n = info.values@.len();
            let values = if known && n > 0 {
                "\n\nValue range ("@ + decimal(n) + " values, e.g.): `"@ + joined(
                    views(info.values@).take(
                        if n < 5 {
                            n as int
                        } else {
                            5
                        },
                    ),
                    "`, `"@,
                ) + "`"@
            } else {
                Seq::<char>::empty()
            };
            let sign = if known && info.numeric {
                if info.with_sign {
                    "\nNumeric characteristic"@ + " — **accepts negative values**"@
                } else {
                    "\nNumeric characteristic"@ + " — no negative values"@
                }
            } else {
                Seq::<char>::empty()
            };
            let places = refs.places_of(name);
            let others = first(elsewhere(places, file), 4);
            let shown = if others.len() > 0 {
                " — "@ + joined(place_texts(others), ", "@)
            } else {
                Seq::<char>::empty()
            };
            let uses = if places.len() > 0 && !is_head(name) {
                "\n\n**Where used:** "@ + decimal(places.len()) + " refs in "@ + decimal(
                    ref_files(places).to_set().len(),
                ) + " files"@ + shown
            } else {
                Seq::<char>::empty()
            };
            hover_view(text, focus, mat, refs, file) == Some(
                HoverView {
                    value: "`"@ + name + "` — "@ + label + mark
                        + "\n\nOccurrences in this document: **"@ + decimal(
                        occurrences(lines(text), name),
                    ) + "**"@ + description + values + sign + uses,
                    range: byte_range(text, focus.start_byte, focus.end_byte),
                },
            )
        }),
{
    lemma_kinds();
    let name = slice_at(text, focus.start_byte, focus.end_byte);
    let above = focus.ancestors;
    law_nearest_role(text, name, above, focus.is_class, mat, refs, file, k);
    assert(above.skip(k)[0] == above[k]);
    lemma_file_count(refs.places_of(name));
    let info = mat.char_values@[name];
    let all = views(info.values@);
    assert(first(all, 5) == all.take(
        if all.len() < 5 {
            all.len() as int
        } else {
            5
        },
    ));
    let value = hover_view(text, focus, mat, refs, file)->0.value;
    let none = Seq::<char>::empty();
    let label = if above[k] == "object_ref"@ {
        "object variable reference"@
    } else {
        "characteristic/object reference"@
    };
    let mark = if is_head(name) {
        " (builtin object variable)"@
    } else {
        none
    };
    let head = "`"@ + name + "` — "@ + label + mark + "\n\nOccurrences in this document: **"@
        + decimal(occurrences(lines(text), name)) + "**"@;
    let extra = if is_head(name) {
        none
    } else {
        characteristic_text(mat, name) + use_text(refs, name, file)
    };
    assert(value == head + extra);
    if is_head(name) {
        assert(head + extra =~= head + none + none + none + none);
    } else if mat.char_values@.contains_key(name) {
        let a = description_text(info);
        let b = values_text(info);
        let c = sign_text(info);
        let d = use_text(refs, name, file);
        assert(head + ((a + b + c) + d) =~= head + a + b + c + d);
    } else {
        let d = use_text(refs, name, file);
        assert(head + (none + d) =~= head + none + none + none + d);
    }
}

/// The shown values depend on the list of values alone, and there is nothing to
/// show only where no value is known.
pub proof fn law_value_range(a: CharValueInfo, b: CharValueInfo)
    requires
        views(a.values@) == views(b.values@),
    ensures
        values_text(a) == values_text(b),
        values_text(a).len() == 0 <==> a.values@.len() == 0,
{
    assert(views(a.values@).len() == a.values@.len());
    assert(views(b.values@).len() == b.values@.len());
    reveal_strlit("`");
    if a.values@.len() > 0 {
        assert(values_text(a).last() == '`');
    }
}

/// Under a characteristic with known values, numeric or not, a reference shows
/// how many they are and each of the first five in backquotes.
pub proof fn law_reference_shows_values(
    text: Seq<char>,
    focus: FocusView,
    mat: MaterialIndex,
    refs: ReferenceIndex,
    file: Seq<char>,
    k: int,
    i: int,
)
    requires
        role_is(focus, k, "bare_ref"@) || role_is(focus, k, "object_ref"@),
        ({
            let name = slice_at(text, focus.start_byte, focus.end_byte);
            &&& !is_head(name)
            &&& mat.char_values@.contains_key(name)
            &&& 0 <= i < 5 && i < mat.char_values@[name].values@.len()
        }),
    ensures
        ({
            let name = slice_at(text, focus.start_byte, focus.end_byte);
            let values = mat.char_values@[name].values@;
            let shown = hover_view(text, focus, mat, refs, file);
            &&& shown is Some
            &&& occurs(shown->0.value, "Value range ("@ + decimal(values.len()) + " values, e.g.)"@)
            &&& occurs(shown->0.value, "`"@ + values[i]@ + "`"@)
        }),
{
    let name = slice_at(text, focus.start_byte, focus.end_byte);
    let info = mat.char_values@[name];
    let values = info.values@;
    lemma_reference_parts(text, focus, mat, refs, file, k);
    let value = hover_view(text, focus, mat, refs, file)->0.value;
    lemma_values_text(info, i);
    lemma_occurs_within(
        value,
        values_text(info),
        "Value range ("@ + decimal(values.len()) + " values, e.g.)"@,
    );
    lemma_occurs_within(value, values_text(info), "`"@ + values[i]@ + "`"@);
}

/// What the material knows of a characteristic is part of what is shown.
#[verifier::rlimit(40)]
proof fn lemma_reference_parts(
    text: Seq<char>,
    focus: FocusView,
    mat: MaterialIndex,
    refs: ReferenceIndex,
    file: Seq<char>,
    k: int,
)
    requires
        role_is(focus, k, "bare_ref"@) || role_is(focus, k, "object_ref"@),
        !is_head(slice_at(text, focus.start_byte, focus.end_byte)),
        mat.char_values@.contains_key(slice_at(text, focus.start_byte, focus.end_byte)),
    ensures
        hover_view(text, focus, mat, refs, file) is Some,
        occurs(
            hover_view(text, focus, mat, refs, file)->0.value,
            values_text(mat.char_values@[slice_at(text, focus.start_byte, focus.end_byte)]),
        ),
{
    lemma_kinds();
    let name = slice_at(text, focus.start_byte, focus.end_byte);
    let above = focus.ancestors;
    law_nearest_role(text, name, above, focus.is_class, mat, refs, file, k);
    assert(above.skip(k)[0] == above[k]);
    let info = mat.char_values@[name];
    let is_object = above[k] == "object_ref"@;
    let value = reference_text(text, name, is_object, mat, refs, file);
    assert(hover_view(text, focus, mat, refs, file)->0.value == value);
    let extra = characteristic_text(mat, name) + use_text(refs, name, file);
    let head = value.take(value.len() - extra.len());
    assert(value =~= head + extra);
    let a = description_text(info);
    let b = values_text(info);
    let c = sign_text(info);
    let d = use_text(refs, name, file);
    assert(extra == (a + b + c) + d);
    assert(head + extra =~= (head + a) + b + (c + d));
    lemma_occurs_between(head + a, b, c + d);
}

/// The number of values and each of the first five stand in the value range.
#[verifier::rlimit(30)]
proof fn lemma_values_text(info: CharValueInfo, i: int)
    requires
        0 <= i < 5,
        i < info.values@.len(),
    ensures
        occurs(
            values_text(info),
            "Value range ("@ + decimal(info.values@.len()) + " values, e.g.)"@,
        ),
        occurs(values_text(info), "`"@ + info.values@[i]@ + "`"@),
{
    let n = info.values@.len();
    let some = first(views(info.values@), 5);
    let list = joined(some, "`, `"@);
    let front = "\n\nValue range ("@ + decimal(n) + " values, e.g.): `"@;
    let part = values_text(info);
    assert(part == front + list + "`"@);
    reveal_strlit("\n\nValue range (");
    reveal_strlit("Value range (");
    reveal_strlit(" values, e.g.): `");
    reveal_strlit(" values, e.g.)");
    reveal_strlit("\n\n");
    reveal_strlit(": `");
    reveal_strlit("`, `");
    reveal_strlit("`");
    let count = "Value range ("@ + decimal(n) + " values, e.g.)"@;
    assert("\n\nValue range ("@ =~= "\n\n"@ + "Value range ("@);
    assert(" values, e.g.): `"@ =~= " values, e.g.)"@ + ": `"@);
    assert(front =~= "\n\n"@ + count + ": `"@);
    lemma_occurs_between("\n\n"@, count, ": `"@);
    let none = Seq::<char>::empty();
    assert(none + front + (list + "`"@) =~= part);
    lemma_occurs_between(none, front, list + "`"@);
    lemma_occurs_within(part, front, count);
    lemma_joined_item(some, "`, `"@, i);
    let item = some[i];
    assert(item == info.values@[i]@);
    let (a, b) = choose|a: Seq<char>, b: Seq<char>| #[trigger]
        (a + item + b) == list && (i == 0 ==> a.len() == 0) && (i > 0 ==> has_suffix(a, "`, `"@))
            && (i == some.len() - 1 ==> b.len() == 0) && (i < some.len() - 1 ==> has_prefix(
            b,
            "`, `"@,
        ));
    let start = front + a;
    let end = b + "`"@;
    assert(start.last() == '`') by {
        if i > 0 {
            assert(a.skip(a.len() - 4)[3] == a.last());
        } else {
            assert(start =~= front);
        }
    }
    assert(end[0] == '`') by {
        if i < some.len() - 1 {
            assert(b.take(4)[0] == b[0]);
        } else {
            assert(end =~= "`"@);
        }
    }
    let quoted = "`"@ + item + "`"@;
    assert(part =~= start + item + end);
    assert(start =~= start.drop_last() + "`"@);
    assert(end =~= "`"@ + end.skip(1));
    assert(start.drop_last() + quoted + end.skip(1) =~= part);
    lemma_occurs_between(start.drop_last(), quoted, end.skip(1));
}

/// A name that is a word is counted as often as a dot of the document has it
/// behind it.
pub proof fn law_reference_counts_uses(
    text: Seq<char>,
    focus: FocusView,
    mat: MaterialIndex,
    refs: ReferenceIndex,
    file: Seq<char>,
    k: int,
)
    requires
        role_is(focus, k, "bare_ref"@) || role_is(focus, k, "object_ref"@),
        is_word(slice_at(text, focus.start_byte, focus.end_byte)),
    ensures
        ({
            let name = slice_at(text, focus.start_byte, focus.end_byte);
            let shown = hover_view(text, focus, mat, refs, file);
            shown is Some && occurs(
                shown->0.value,
                "**"@ + decimal(use_count(text, name, 0, text.len() as int)) + "**"@,
            )
        }),
{
    let name = slice_at(text, focus.start_byte, focus.end_byte);
    law_reference_hover(text, focus, mat, refs, file, k);
    law_occurrences(text, name);
    let value = hover_view(text, focus, mat, refs, file)->0.value;
    let label = if focus.ancestors[k] == "object_ref"@ {
        "object variable reference"@
    } else {
        "characteristic/object reference"@
    };
    let none = Seq::<char>::empty();
    let mark = if is_head(name) {
        " (builtin object variable)"@
    } else {
        none
    };
    let head = "`"@ + name + "` — "@ + label + mark + "\n\nOccurrences in this document: "@;
    let part = "**"@ + decimal(use_count(text, name, 0, text.len() as int)) + "**"@;
    reveal_strlit("\n\nOccurrences in this document: **");
    reveal_strlit("\n\nOccurrences in this document: ");
    reveal_strlit("**");
    assert("\n\nOccurrences in this document: **"@ =~= "\n\nOccurrences in this document: "@
        + "**"@);
    let tail = value.skip((head.len() + part.len()) as int);
    assert(value =~= head + part + tail) by {
        assert(value.take(head.len() as int) =~= head);
        assert(value.subrange(head.len() as int, (head.len() + part.len()) as int) =~= part);
    }
    lemma_occurs_between(head, part, tail);
}

/// Whether `list` has a line for each column, in order, with a mark on those
/// that are keys.
pub open spec fn are_column_lines(
    list: Seq<Seq<char>>,
    columns: Seq<String>,
    keys: Seq<Seq<char>>,
) -> bool {
    &&& list.len() == columns.len()
    &&& forall|i: int|
        0 <= i < list.len() ==> #[trigger] list[i] == if keys.contains(columns[i]@) {
            "- `"@ + columns[i]@ + "` — **key**"@
        } else {
            "- `"@ + columns[i]@ + "`"@
        }
}

/// The key fields that the material has for a table.
pub open spec fn key_fields(mat: MaterialIndex, table: Seq<char>) -> Seq<Seq<char>> {
    Seq::new(
        if mat.vt_keys@.contains_key(table) {
            mat.vt_keys@[table]@.len()
        } else {
            0
        },
        |i: int| mat.vt_keys@[table]@[i]@,
    )
}

/// The callee of a call shows the columns of the table, each on a line of its
/// own and the keys marked, and then the keys; without columns it is no known
/// table.
pub proof fn law_callee_hover(
    text: Seq<char>,
    focus: FocusView,
    mat: MaterialIndex,
    refs: ReferenceIndex,
    file: Seq<char>,
    k: int,
)
    requires
        role_is(focus, k, "keyword_call"@),
    ensures
        ({
            let name = slice_at(text, focus.start_byte, focus.end_byte);
            let range = byte_range(text, focus.start_byte, focus.end_byte);
            let columns = mat.vt_chars@[name]@;
            let keys = key_fields(mat, name);
            let tail = if keys.len() > 0 {
                "\n\nKeys: `"@ + joined(keys, "`, `"@) + "`"@
            } else {
                Seq::<char>::empty()
            };
            let shown = hover_view(text, focus, mat, refs, file);
            &&& mat.vt_chars@.contains_key(name) ==> exists|list: Seq<Seq<char>>| #[trigger]
                are_column_lines(list, columns, keys) && shown == Some(
                    HoverView {
                        value: "`"@ + name + "` — variant table ("@ + decimal(columns.len())
                            + " columns)\n\n"@ + joined(list, "\n"@) + tail,
                        range,
                    },
                )
            &&& !mat.vt_chars@.contains_key(name) ==> shown == Some(
                HoverView {
                    value: "`"@ + name + "` — variant table / function call callee."@,
                    range,
                },
            )
        }),
{
    lemma_kinds();
    let name = slice_at(text, focus.start_byte, focus.end_byte);
    let above = focus.ancestors;
    law_nearest_role(text, name, above, focus.is_class, mat, refs, file, k);
    assert(above.skip(k)[0] == above[k]);
    if mat.vt_chars@.contains_key(name) {
        let columns = mat.vt_chars@[name]@;
        let keys = keys_of(mat, name);
        let list = column_texts(views(columns), keys);
        assert forall|i: int| 0 <= i < list.len() implies #[trigger] list[i] == if keys.contains(
            columns[i]@,
        ) {
            "- `"@ + columns[i]@ + "` — **key**"@
        } else {
            "- `"@ + columns[i]@ + "`"@
        } by {
            assert(views(columns)[i] == columns[i]@);
        }
        assert(are_column_lines(list, columns, keys));
        assert(keys =~= key_fields(mat, name));
        let tail = if keys.len() > 0 {
            "\n\nKeys: `"@ + joined(keys, "`, `"@) + "`"@
        } else {
            Seq::<char>::empty()
        };
        assert(views(columns).len() == columns.len());
        assert(hover_view(text, focus, mat, refs, file) == Some(
            HoverView {
                value: "`"@ + name + "` — variant table ("@ + decimal(columns.len())
                    + " columns)\n\n"@ + joined(list, "\n"@) + tail,
                range: byte_range(text, focus.start_byte, focus.end_byte),
            },
        ));
    }
}

/// A comment, a string and a number show what they cover, without the white
/// space around it.
pub proof fn law_literal_hover(
    text: Seq<char>,
    focus: FocusView,
    mat: MaterialIndex,
    refs: ReferenceIndex,
    file: Seq<char>,
    a: int,
    b: int,
)
    requires
        is_core(slice_at(text, focus.start_byte, focus.end_byte), CharClass::White, a, b),
        a < b,
    ensures
        ({
            let content = slice_at(text, focus.start_byte, focus.end_byte).subrange(a, b);
            let range = byte_range(text, focus.start_byte, focus.end_byte);
            let shown = hover_view(text, focus, mat, refs, file);
            &&& focus.kind == "comment"@ ==> shown == Some(
                HoverView { value: "Comment\n\n```\n"@ + content + "\n```"@, range },
            )
            &&& focus.kind == "string"@ ==> shown == Some(
                HoverView { value: "String literal\n\n`"@ + content + "`"@, range },
            )
            &&& focus.kind == "number"@ ==> shown == Some(
                HoverView { value: "Numeric literal\n\n`"@ + content + "`"@, range },
            )
        }),
{
    law_trim(slice_at(text, focus.start_byte, focus.end_byte), CharClass::White, a, b);
    reveal_strlit("identifier");
    reveal_strlit("comment");
    reveal_strlit("string");
    reveal_strlit("number");
    assert("identifier"@[0] == 'i' && "comment"@[0] == 'c' && "string"@[0] == 's' && "number"@[0]
        == 'n');
}

/// A keyword is explained, in capitals or in small letters.
pub proof fn law_keyword_hover(
    text: Seq<char>,
    focus: FocusView,
    mat: MaterialIndex,
    refs: ReferenceIndex,
    file: Seq<char>,
)
    ensures
        ({
            let range = byte_range(text, focus.start_byte, focus.end_byte);
            let shown = hover_view(text, focus, mat, refs, file);
            &&& focus.kind == "IF"@ || focus.kind == "if"@ ==> shown == Some(
                HoverView {
                    value: "IF — guard clause; the preceding statement/condition applies only when this condition holds (trailing `,` or `.` ends the guard)."@,
                    range,
                },
            )
            &&& focus.kind == "AND"@ || focus.kind == "and"@ ==> shown == Some(
                HoverView {
                    value: "AND — condition conjunction (multi-line chains continue while a line ends with AND/OR)."@,
                    range,
                },
            )
            &&& focus.kind == "OR"@ || focus.kind == "or"@ ==> shown == Some(
                HoverView { value: "OR — condition disjunction."@, range },
            )
            &&& focus.kind == "NOT"@ || focus.kind == "not"@ ==> shown == Some(
                HoverView { value: "NOT — condition negation."@, range },
            )
            &&& focus.kind == "IN"@ || focus.kind == "in"@ ==> shown == Some(
                HoverView {
                    value: "IN — membership test against a list or range: `X IN ('A','B')` / `X IN (>2400 - 2600)`."@,
                    range,
                },
            )
            &&& focus.kind == "SPECIFIED"@ || focus.kind == "specified"@ ==> shown == Some(
                HoverView {
                    value: "SPECIFIED — presence test (prefix and postfix forms both occur in production code)."@,
                    range,
                },
            )
            &&& focus.kind == "TABLE"@ || focus.kind == "table"@ || focus.kind == "FUNCTION"@
                || focus.kind == "function"@ || focus.kind == "PFUNCTION"@ || focus.kind
                == "pfunction"@ ==> shown == Some(
                HoverView {
                    value: "`"@ + focus.kind
                        + "` call — variant table / custom function invocation with named parameters."@,
                    range,
                },
            )
            &&& focus.kind == "OBJECTS"@ || focus.kind == "CONDITION"@ || focus.kind
                == "RESTRICTIONS"@ || focus.kind == "INFERENCES"@ ==> shown == Some(
                HoverView {
                    value: "`"@ + focus.kind + ":` — constraint section header."@,
                    range,
                },
            )
            &&& focus.kind == "$SET_DEFAULT"@ || focus.kind == "$DEL_DEFAULT"@ || focus.kind
                == "$SET_PRICING_FACTOR"@ || focus.kind == "$COUNT_PARTS"@ || focus.kind
                == "$SUM_PARTS"@ ==> shown == Some(
                HoverView {
                    value: "`"@ + focus.kind + "` — system procedure (engine builtin)."@,
                    range,
                },
            )
            &&& focus.kind == "?="@ ==> shown == Some(
                HoverView {
                    value: "`?=` — conditional assignment: set the value only if not already set."@,
                    range,
                },
            )
            &&& focus.kind == "="@ ==> shown == Some(
                HoverView { value: "`=` — assignment / comparison equals."@, range },
            )
        }),
{
    reveal_strlit("identifier");
    reveal_strlit("comment");
    reveal_strlit("string");
    reveal_strlit("number");
    reveal_strlit("IF");
    reveal_strlit("if");
    reveal_strlit("AND");
    reveal_strlit("and");
    reveal_strlit("OR");
    reveal_strlit("or");
    reveal_strlit("NOT");
    reveal_strlit("not");
    reveal_strlit("IN");
    reveal_strlit("in");
    reveal_strlit("SPECIFIED");
    reveal_strlit("specified");
    reveal_strlit("TABLE");
    reveal_strlit("table");
    reveal_strlit("FUNCTION");
    reveal_strlit("function");
    reveal_strlit("PFUNCTION");
    reveal_strlit("pfunction");
    reveal_strlit("OBJECTS");
    reveal_strlit("CONDITION");
    reveal_strlit("RESTRICTIONS");
    reveal_strlit("INFERENCES");
    reveal_strlit("$SET_DEFAULT");
    reveal_strlit("$DEL_DEFAULT");
    reveal_strlit("$SET_PRICING_FACTOR");
    reveal_strlit("$COUNT_PARTS");
    reveal_strlit("$SUM_PARTS");
    reveal_strlit("?=");
    reveal_strlit("=");
    assert("identifier"@.len() == 10 && "identifier"@[0] == 'i' && "identifier"@[1] == 'd');
    assert("comment"@.len() == 7 && "comment"@[0] == 'c' && "comment"@[1] == 'o');
    assert("string"@.len() == 6 && "string"@[0] == 's' && "string"@[1] == 't');
    assert("number"@.len() == 6 && "number"@[0] == 'n' && "number"@[1] == 'u');
    assert("IF"@.len() == 2 && "IF"@[0] == 'I' && "IF"@[1] == 'F');
    assert("if"@.len() == 2 && "if"@[0] == 'i' && "if"@[1] == 'f');
    assert("AND"@.len() == 3 && "AND"@[0] == 'A' && "AND"@[1] == 'N');
    assert("and"@.len() == 3 && "and"@[0] == 'a' && "and"@[1] == 'n');
    assert("OR"@.len() == 2 && "OR"@[0] == 'O' && "OR"@[1] == 'R');
    assert("or"@.len() == 2 && "or"@[0] == 'o' && "or"@[1] == 'r');
    assert("NOT"@.len() == 3 && "NOT"@[0] == 'N' && "NOT"@[1] == 'O');
    assert("not"@.len() == 3 && "not"@[0] == 'n' && "not"@[1] == 'o');
    assert("IN"@.len() == 2 && "IN"@[0] == 'I' && "IN"@[1] == 'N');
    assert("in"@.len() == 2 && "in"@[0] == 'i' && "in"@[1] == 'n');
    assert("SPECIFIED"@.len() == 9 && "SPECIFIED"@[0] == 'S' && "SPECIFIED"@[1] == 'P');
    assert("specified"@.len() == 9 && "specified"@[0] == 's' && "specified"@[1] == 'p');
    assert("TABLE"@.len() == 5 && "TABLE"@[0] == 'T' && "TABLE"@[1] == 'A');
    assert("table"@.len() == 5 && "table"@[0] == 't' && "table"@[1] == 'a');
    assert("FUNCTION"@.len() == 8 && "FUNCTION"@[0] == 'F' && "FUNCTION"@[1] == 'U');
    assert("function"@.len() == 8 && "function"@[0] == 'f' && "function"@[1] == 'u');
    assert("PFUNCTION"@.len() == 9 && "PFUNCTION"@[0] == 'P' && "PFUNCTION"@[1] == 'F');
    assert("pfunction"@.len() == 9 && "pfunction"@[0] == 'p' && "pfunction"@[1] == 'f');
    assert("OBJECTS"@.len() == 7 && "OBJECTS"@[0] == 'O' && "OBJECTS"@[1] == 'B');
    assert("CONDITION"@.len() == 9 && "CONDITION"@[0] == 'C' && "CONDITION"@[1] == 'O');
    assert("RESTRICTIONS"@.len() == 12 && "RESTRICTIONS"@[0] == 'R' && "RESTRICTIONS"@[1] == 'E');
    assert("INFERENCES"@.len() == 10 && "INFERENCES"@[0] == 'I' && "INFERENCES"@[1] == 'N');
    assert("$SET_DEFAULT"@.len() == 12 && "$SET_DEFAULT"@[0] == '$' && "$SET_DEFAULT"@[1] == 'S');
    assert("$DEL_DEFAULT"@.len() == 12 && "$DEL_DEFAULT"@[0] == '$' && "$DEL_DEFAULT"@[1] == 'D');
    assert("$SET_PRICING_FACTOR"@.len() == 19 && "$SET_PRICING_FACTOR"@[0] == '$' && "$SET_PRICING_FACTOR"@[1] == 'S');
    assert("$COUNT_PARTS"@.len() == 12 && "$COUNT_PARTS"@[0] == '$' && "$COUNT_PARTS"@[1] == 'C');
    assert("$SUM_PARTS"@.len() == 10 && "$SUM_PARTS"@[0] == '$' && "$SUM_PARTS"@[1] == 'S');
    assert("?="@.len() == 2 && "?="@[0] == '?' && "?="@[1] == '=');
    assert("="@.len() == 1);
}

/// Whether something is shown for a kind of node.
pub open spec fn is_explained(kind: Seq<char>) -> bool {
    ||| kind == "identifier"@
    ||| kind == "comment"@
    ||| kind == "string"@
    ||| kind == "number"@
    ||| kind == "IF"@
    ||| kind == "if"@
    ||| kind == "AND"@
    ||| kind == "and"@
    ||| kind == "OR"@
    ||| kind == "or"@
    ||| kind == "NOT"@
    ||| kind == "not"@
    ||| kind == "IN"@
    ||| kind == "in"@
    ||| kind == "SPECIFIED"@
    ||| kind == "specified"@
    ||| kind == "TABLE"@
    ||| kind == "table"@
    ||| kind == "FUNCTION"@
    ||| kind == "function"@
    ||| kind == "PFUNCTION"@
    ||| kind == "pfunction"@
    ||| kind == "OBJECTS"@
    ||| kind == "CONDITION"@
    ||| kind == "RESTRICTIONS"@
    ||| kind == "INFERENCES"@
    ||| kind == "$SET_DEFAULT"@
    ||| kind == "$DEL_DEFAULT"@
    ||| kind == "$SET_PRICING_FACTOR"@
    ||| kind == "$COUNT_PARTS"@
    ||| kind == "$SUM_PARTS"@
    ||| kind == "?="@
    ||| kind == "="@
}

/// For any other node nothing is shown.
pub proof fn law_nothing_to_show(
    text: Seq<char>,
    focus: FocusView,
    mat: MaterialIndex,
    refs: ReferenceIndex,
    file: Seq<char>,
)
    ensures
        hover_view(text, focus, mat, refs, file) is Some <==> is_explained(focus.kind),
{
}

/// A place of use is shown by its file and its line.
pub proof fn law_place_texts(list: Seq<RefLoc>, i: int)
    requires
        0 <= i < list.len(),
    ensures
        place_texts(list).len() == list.len(),
        place_texts(list)[i] == "`"@ + list[i].file@ + ":"@ + decimal(list[i].line as nat) + "`"@,
{
}

/// What is shown at a position is what is shown for the node under the byte
/// that follows the characters before it; where there is no such line, or no
/// node, nothing is.
pub proof fn law_hover_at(
    text: Seq<char>,
    position: Position,
    mat: MaterialIndex,
    refs: ReferenceIndex,
    file: Seq<char>,
    language: tree_sitter::Language,
    i: int,
)
    ensures
        position_index(text, position) is None ==> hover_at(
            text,
            position,
            mat,
            refs,
            file,
            language,
        ) is None,
        position_index(text, position) == Some(i) ==> hover_at(
            text,
            position,
            mat,
            refs,
            file,
            language,
        ) == match focus_of(language, text, encode_utf8(text.take(i)).len()) {
            Some(focus) => hover_view(text, focus, mat, refs, file),
            None => None,
        },
{
    if position_index(text, position) == Some(i) {
        lemma_byte_len_is_utf8(text.take(i));
    }
}

/// The node under a byte is the one that the parser gives, with the kinds of
/// the nodes above it, the nearest first. It is a class if it is the second
/// identifier of the object declaration right above it.
pub proof fn law_focus(
    language: tree_sitter::Language,
    text: Seq<char>,
    byte: nat,
    i: int,
    j: int,
)
    requires
        focus_of(language, text, byte) is Some,
    ensures
        ({
            let focus = focus_of(language, text, byte)->0;
            let node = descendant_of(root_of(parsed(language, text)->0), byte, byte)->0;
            let above = node_ancestors(node);
            let own = node_syntax(node);
            &&& focus.kind == own.kind
            &&& focus.start_byte == own.start_byte && focus.end_byte == own.end_byte
            &&& focus.ancestors.len() == above.len()
            &&& forall|k: int|
                0 <= k < above.len() ==> #[trigger] focus.ancestors[k] == above[k].kind
            &&& own.kind != "identifier"@ || above.len() == 0 || above[0].kind != "object_decl"@
                ==> !focus.is_class
            &&& own.kind == "identifier"@ && above.len() > 0 && above[0].kind == "object_decl"@
                && is_second(above[0].children, i, j) ==> focus.is_class == (
            above[0].children[j].start_byte == own.start_byte && above[0].children[j].end_byte
                == own.end_byte)
            &&& own.kind == "identifier"@ && above.len() > 0 && above[0].kind == "object_decl"@ && (
            forall|a: int, b: int| !#[trigger] is_second(above[0].children, a, b))
                ==> !focus.is_class
        }),
{
    let node = descendant_of(root_of(parsed(language, text)->0), byte, byte)->0;
    let above = node_ancestors(node);
    if above.len() > 0 {
        if is_second(above[0].children, i, j) {
            lemma_second(above[0].children, i, j);
        }
        if of_kind(above[0].children, "identifier"@).len() > 1 {
            lemma_has_second(above[0].children);
        }
    }
}

} // verus!
