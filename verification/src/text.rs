//! Text as a sequence of characters: classes of characters, runs, and searching.

use vstd::prelude::*;
use vstd::slice::slice_subrange;
use vstd::utf8::encode_utf8;

verus! {

/// A class of characters, by which text is cut into pieces.
#[derive(Clone, Copy)]
pub enum CharClass {
    /// ASCII letters, ASCII digits and `_`.
    Word,
    /// `Word` and `$`.
    DollarWord,
    /// `Word`, `$` and `.`.
    Chain,
    /// The Unicode property `White_Space`.
    White,
    /// One character.
    Only(char),
    /// Every character but one.
    Except(char),
}

/// ASCII letters, ASCII digits and `_`.
pub open spec fn is_word_char(c: char) -> bool {
    ||| 'a' <= c <= 'z'
    ||| 'A' <= c <= 'Z'
    ||| '0' <= c <= '9'
    ||| c == '_'
}

/// The Unicode property `White_Space`.
pub open spec fn is_white_space(c: char) -> bool {
    ||| '\u{9}' <= c <= '\u{d}'
    ||| c == ' '
    ||| c == '\u{85}'
    ||| c == '\u{a0}'
    ||| c == '\u{1680}'
    ||| '\u{2000}' <= c <= '\u{200a}'
    ||| c == '\u{2028}'
    ||| c == '\u{2029}'
    ||| c == '\u{202f}'
    ||| c == '\u{205f}'
    ||| c == '\u{3000}'
}

impl CharClass {
    /// Whether the class holds `c`.
    pub open spec fn admits(self, c: char) -> bool {
        match self {
            CharClass::Word => is_word_char(c),
            CharClass::DollarWord => is_word_char(c) || c == '$',
            CharClass::Chain => is_word_char(c) || c == '$' || c == '.',
            CharClass::White => is_white_space(c),
            CharClass::Only(x) => c == x,
            CharClass::Except(x) => c != x,
        }
    }

    /// Whether the class holds `c`.
    pub fn accepts(self, c: char) -> (res: bool)
        ensures
            res == self.admits(c),
    {
        match self {
            CharClass::Word => word_char(c),
            CharClass::DollarWord => word_char(c) || c == '$',
            CharClass::Chain => word_char(c) || c == '$' || c == '.',
            CharClass::White => white_space(c),
            CharClass::Only(x) => c == x,
            CharClass::Except(x) => c != x,
        }
    }
}

fn word_char(c: char) -> (res: bool)
    ensures
        res == is_word_char(c),
{
    ('a' <= c && c <= 'z') || ('A' <= c && c <= 'Z') || ('0' <= c && c <= '9') || c == '_'
}

fn white_space(c: char) -> (res: bool)
    ensures
        res == is_white_space(c),
{
    ('\u{9}' <= c && c <= '\u{d}') || c == ' ' || c == '\u{85}' || c == '\u{a0}' || c == '\u{1680}'
        || ('\u{2000}' <= c && c <= '\u{200a}') || c == '\u{2028}' || c == '\u{2029}' || c
        == '\u{202f}' || c == '\u{205f}' || c == '\u{3000}'
}

/// How many characters at the start of `s` belong to `class`.
pub open spec fn lead_len(s: Seq<char>, class: CharClass) -> nat
    decreases s.len(),
{
    if s.len() > 0 && class.admits(s[0]) {
        1 + lead_len(s.skip(1), class)
    } else {
        0
    }
}

/// How many characters at the end of `s` belong to `class`.
pub open spec fn trail_len(s: Seq<char>, class: CharClass) -> nat
    decreases s.len(),
{
    if s.len() > 0 && class.admits(s.last()) {
        1 + trail_len(s.drop_last(), class)
    } else {
        0
    }
}

/// The run of `class` that starts `s`.
pub open spec fn lead_run(s: Seq<char>, class: CharClass) -> Seq<char> {
    s.take(lead_len(s, class) as int)
}

/// The run of `class` that ends `s`.
pub open spec fn trail_run(s: Seq<char>, class: CharClass) -> Seq<char> {
    s.skip(s.len() - trail_len(s, class))
}

/// `s` without the run of `class` that starts it.
pub open spec fn trim_lead(s: Seq<char>, class: CharClass) -> Seq<char> {
    s.skip(lead_len(s, class) as int)
}

/// `s` without the runs of `class` that start and end it.
pub open spec fn trim_both(s: Seq<char>, class: CharClass) -> Seq<char> {
    let t = trim_lead(s, class);
    t.take(t.len() - trail_len(t, class))
}

/// A leading run is as long as it can be, and no longer.
pub proof fn lemma_lead(s: Seq<char>, class: CharClass)
    ensures
        lead_len(s, class) <= s.len(),
        forall|i: int| 0 <= i < lead_len(s, class) ==> class.admits(#[trigger] s[i]),
        lead_len(s, class) < s.len() ==> !class.admits(s[lead_len(s, class) as int]),
    decreases s.len(),
{
    if s.len() > 0 && class.admits(s[0]) {
        lemma_lead(s.skip(1), class);
        assert forall|i: int| 0 <= i < lead_len(s, class) implies class.admits(#[trigger] s[i]) by {
            if i > 0 {
                assert(s[i] == s.skip(1)[i - 1]);
            }
        }
    }
}

/// A trailing run is as long as it can be, and no longer.
pub proof fn lemma_trail(s: Seq<char>, class: CharClass)
    ensures
        trail_len(s, class) <= s.len(),
        forall|i: int|
            s.len() - trail_len(s, class) <= i < s.len() ==> class.admits(#[trigger] s[i]),
        trail_len(s, class) < s.len() ==> !class.admits(s[s.len() - trail_len(s, class) - 1]),
    decreases s.len(),
{
    if s.len() > 0 && class.admits(s.last()) {
        lemma_trail(s.drop_last(), class);
        assert forall|i: int|
            s.len() - trail_len(s, class) <= i < s.len() implies class.admits(#[trigger] s[i]) by {
            if i < s.len() - 1 {
                assert(s[i] == s.drop_last()[i]);
            }
        }
    }
}

/// The length of the run of `class` that starts `s`.
pub fn lead(s: &[char], class: CharClass) -> (res: usize)
    ensures
        res == lead_len(s@, class),
        res <= s@.len(),
{
    let mut i: usize = 0;
    assert(s@.skip(0) =~= s@);
    while i < s.len() && class.accepts(s[i])
        invariant
            i <= s@.len(),
            lead_len(s@, class) == i + lead_len(s@.skip(i as int), class),
        decreases s@.len() - i,
    {
        assert(s@.skip(i as int).skip(1) =~= s@.skip(i + 1));
        i += 1;
    }
    i
}

/// The length of the run of `class` that ends `s`.
pub fn trail(s: &[char], class: CharClass) -> (res: usize)
    ensures
        res == trail_len(s@, class),
        res <= s@.len(),
{
    let mut i: usize = s.len();
    assert(s@.take(s@.len() as int) =~= s@);
    while i > 0 && class.accepts(s[i - 1])
        invariant
            i <= s@.len(),
            trail_len(s@, class) == (s@.len() - i) + trail_len(s@.take(i as int), class),
        decreases i,
    {
        assert(s@.take(i as int).drop_last() =~= s@.take(i - 1));
        i -= 1;
    }
    s.len() - i
}

/// The first `n` characters of `s`.
pub fn take(s: &[char], n: usize) -> (res: &[char])
    requires
        n <= s@.len(),
    ensures
        res@ == s@.take(n as int),
{
    slice_subrange(s, 0, n)
}

/// `s` without its first `n` characters.
pub fn skip(s: &[char], n: usize) -> (res: &[char])
    requires
        n <= s@.len(),
    ensures
        res@ == s@.skip(n as int),
{
    slice_subrange(s, n, s.len())
}

/// `s` without the runs of `class` that start and end it.
pub fn trim(s: &[char], class: CharClass) -> (res: &[char])
    ensures
        res@ == trim_both(s@, class),
{
    let t = skip(s, lead(s, class));
    let n = trail(t, class);
    take(t, t.len() - n)
}

/// Whether two runs of characters are the same.
pub fn same(a: &[char], b: &[char]) -> (res: bool)
    ensures
        res == (a@ == b@),
{
    if a.len() != b.len() {
        return false;
    }
    let mut i: usize = 0;
    while i < a.len()
        invariant
            i <= a@.len(),
            a@.len() == b@.len(),
            a@.take(i as int) == b@.take(i as int),
        decreases a@.len() - i,
    {
        if a[i] != b[i] {
            assert(a@[i as int] != b@[i as int]);
            return false;
        }
        assert(a@.take(i + 1) =~= a@.take(i as int).push(a@[i as int]));
        assert(b@.take(i + 1) =~= b@.take(i as int).push(b@[i as int]));
        i += 1;
    }
    assert(a@.take(i as int) =~= a@);
    assert(b@.take(i as int) =~= b@);
    true
}

/// `String::push`: appends one character to the end of the string.
pub assume_specification[ String::push ](s: &mut String, c: char)
    ensures
        final(s)@ == old(s)@.push(c),
;

/// The characters of `text`.
pub fn chars_of(text: &str) -> (res: Vec<char>)
    ensures
        res@ == text@,
{
    let mut res: Vec<char> = Vec::new();
    for c in it: text.chars()
        invariant
            it.seq() == text@,
            res@ == text@.take(it.index() as int),
    {
        assert(text@.take(it.index() + 1) =~= text@.take(it.index() as int).push(c));
        res.push(c);
    }
    assert(text@.take(text@.len() as int) =~= text@);
    res
}

/// The string with these characters.
pub fn string_of(s: &[char]) -> (res: String)
    ensures
        res@ == s@,
{
    let mut res = String::new();
    let mut i: usize = 0;
    while i < s.len()
        invariant
            i <= s@.len(),
            res@ == s@.take(i as int),
        decreases s@.len() - i,
    {
        assert(s@.take(i + 1) =~= s@.take(i as int).push(s@[i as int]));
        res.push(s[i]);
        i += 1;
    }
    assert(s@.take(i as int) =~= s@);
    res
}

/// Whether a name is that of a builtin, such as `$SELF`.
pub open spec fn is_builtin(name: Seq<char>) -> bool {
    name.len() > 0 && name[0] == '$'
}

/// Whether a name is that of a builtin, such as `$SELF`.
pub fn builtin(name: &[char]) -> (res: bool)
    ensures
        res == is_builtin(name@),
{
    name.len() > 0 && name[0] == '$'
}

/// Whether `s` starts with `prefix`.
pub open spec fn has_prefix(s: Seq<char>, prefix: Seq<char>) -> bool {
    prefix.len() <= s.len() && s.take(prefix.len() as int) == prefix
}

/// Whether `s` ends with `suffix`.
pub open spec fn has_suffix(s: Seq<char>, suffix: Seq<char>) -> bool {
    suffix.len() <= s.len() && s.skip(s.len() - suffix.len()) == suffix
}

/// Whether `needle` stands in `s` from index `i` on.
pub open spec fn occurs_at(s: Seq<char>, needle: Seq<char>, i: int) -> bool {
    0 <= i && i + needle.len() <= s.len() && s.subrange(i, i + needle.len()) == needle
}

/// Whether `needle` stands anywhere in `s`.
pub open spec fn occurs(s: Seq<char>, needle: Seq<char>) -> bool {
    exists|i: int| occurs_at(s, needle, i)
}

/// Where `needle` stands in `s` for the last time.
pub open spec fn last_occurrence(s: Seq<char>, needle: Seq<char>) -> Option<int>
    decreases s.len(),
{
    if has_suffix(s, needle) {
        Some(s.len() - needle.len())
    } else if s.len() == 0 {
        None
    } else {
        last_occurrence(s.drop_last(), needle)
    }
}

/// The last occurrence is an occurrence, none comes after it, and it is there
/// whenever there is any.
pub proof fn lemma_last_occurrence(s: Seq<char>, needle: Seq<char>)
    ensures
        match last_occurrence(s, needle) {
            Some(i) => occurs_at(s, needle, i) && forall|j: int|
                j > i ==> !#[trigger] occurs_at(s, needle, j),
            None => !occurs(s, needle),
        },
    decreases s.len(),
{
    if has_suffix(s, needle) {
        assert(s.subrange(s.len() - needle.len(), s.len() as int) =~= s.skip(
            s.len() - needle.len(),
        ));
    } else if s.len() > 0 {
        let t = s.drop_last();
        lemma_last_occurrence(t, needle);
        assert forall|j: int| #[trigger] occurs_at(s, needle, j) implies occurs_at(t, needle, j) by {
            if j + needle.len() == s.len() {
                assert(s.subrange(j, j + needle.len()) =~= s.skip(j));
            } else {
                assert(s.subrange(j, j + needle.len()) =~= t.subrange(j, j + needle.len()));
            }
        }
        if last_occurrence(t, needle) is Some {
            let i = last_occurrence(t, needle)->0;
            assert(s.subrange(i, i + needle.len()) =~= t.subrange(i, i + needle.len()));
        }
    } else {
        assert forall|j: int| !#[trigger] occurs_at(s, needle, j) by {
            if occurs_at(s, needle, j) {
                assert(s.skip(0) =~= needle);
            }
        }
    }
}

/// Whether `s` starts with `prefix`.
pub fn starts(s: &[char], prefix: &[char]) -> (res: bool)
    ensures
        res == has_prefix(s@, prefix@),
{
    prefix.len() <= s.len() && same(take(s, prefix.len()), prefix)
}

/// Whether `s` ends with `suffix`.
pub fn ends(s: &[char], suffix: &[char]) -> (res: bool)
    ensures
        res == has_suffix(s@, suffix@),
{
    suffix.len() <= s.len() && same(skip(s, s.len() - suffix.len()), suffix)
}

/// Where `needle` stands in `s` for the last time.
pub fn rfind(s: &[char], needle: &[char]) -> (res: Option<usize>)
    ensures
        match res {
            Some(i) => last_occurrence(s@, needle@) == Some(i as int),
            None => last_occurrence(s@, needle@) is None,
        },
{
    let mut n: usize = s.len();
    assert(s@.take(s@.len() as int) =~= s@);
    loop
        invariant
            n <= s@.len(),
            last_occurrence(s@, needle@) == last_occurrence(s@.take(n as int), needle@),
        decreases n,
    {
        let t = take(s, n);
        if ends(t, needle) {
            return Some(n - needle.len());
        }
        if n == 0 {
            return None;
        }
        assert(s@.take(n as int).drop_last() =~= s@.take(n - 1));
        n -= 1;
    }
}

/// Whether `needle` stands anywhere in `s`.
pub fn contains(s: &[char], needle: &[char]) -> (res: bool)
    ensures
        res == occurs(s@, needle@),
{
    proof {
        lemma_last_occurrence(s@, needle@);
    }
    rfind(s, needle).is_some()
}

/// Whether `s` starts with `prefix`.
pub fn str_starts(s: &str, prefix: &str) -> (res: bool)
    ensures
        res == has_prefix(s@, prefix@),
{
    let a = chars_of(s);
    let b = chars_of(prefix);
    starts(a.as_slice(), b.as_slice())
}

/// Whether two strings are the same.
pub fn same_str(a: &str, b: &str) -> (res: bool)
    ensures
        res == (a@ == b@),
{
    let x = a.as_bytes();
    let y = b.as_bytes();
    if x.len() != y.len() {
        return false;
    }
    let mut i: usize = 0;
    while i < x.len()
        invariant
            i <= x@.len(),
            x@.len() == y@.len(),
            x@ == encode_utf8(a@),
            y@ == encode_utf8(b@),
            x@.take(i as int) == y@.take(i as int),
        decreases x@.len() - i,
    {
        if x[i] != y[i] {
            assert(x@[i as int] != y@[i as int]);
            return false;
        }
        assert(x@.take(i + 1) =~= x@.take(i as int).push(x@[i as int]));
        assert(y@.take(i + 1) =~= y@.take(i as int).push(y@[i as int]));
        i += 1;
    }
    proof {
        assert(x@.take(i as int) =~= x@);
        assert(y@.take(i as int) =~= y@);
        vstd::utf8::encode_utf8_decode_utf8(a@);
        vstd::utf8::encode_utf8_decode_utf8(b@);
    }
    true
}

// ---- Laws -------------------------------------------------------------------

/// A run that starts a text, of characters of a class and with none behind it,
/// is the leading run.
pub proof fn lemma_lead_is(s: Seq<char>, class: CharClass, n: int)
    requires
        0 <= n <= s.len(),
        forall|i: int| 0 <= i < n ==> class.admits(#[trigger] s[i]),
        n < s.len() ==> !class.admits(s[n]),
    ensures
        lead_len(s, class) == n,
{
    lemma_lead(s, class);
    let m = lead_len(s, class) as int;
    if m < n {
        assert(class.admits(s[m]));
    } else if n < m {
        assert(class.admits(s[n]));
    }
}

/// Whether the characters from `a` up to `b` are what is left of `s` without
/// the runs of `class` at its ends.
pub open spec fn is_core(s: Seq<char>, class: CharClass, a: int, b: int) -> bool {
    &&& 0 <= a <= b <= s.len()
    &&& forall|i: int| 0 <= i < a ==> class.admits(#[trigger] s[i])
    &&& forall|i: int| b <= i < s.len() ==> class.admits(#[trigger] s[i])
    &&& a < b ==> !class.admits(s[a]) && !class.admits(s[b - 1])
}

/// Trimming takes away what belongs to the class at both ends, and no more.
pub proof fn law_trim(s: Seq<char>, class: CharClass, a: int, b: int)
    requires
        is_core(s, class, a, b),
    ensures
        trim_both(s, class) == if a < b {
            s.subrange(a, b)
        } else {
            Seq::<char>::empty()
        },
{
    lemma_lead(s, class);
    let n = lead_len(s, class) as int;
    if a < b {
        lemma_lead_is(s, class, a);
        let t = s.skip(a);
        lemma_trail(t, class);
        let m = trail_len(t, class) as int;
        assert(t[b - a - 1] == s[b - 1]);
        if m < s.len() - b {
            assert(t[t.len() - m - 1] == s[s.len() - m - 1]);
        } else if m > s.len() - b {
            assert(class.admits(t[b - a - 1]));
        }
        assert(trim_both(s, class) =~= s.subrange(a, b));
    } else {
        assert forall|i: int| 0 <= i < s.len() implies class.admits(#[trigger] s[i]) by {}
        lemma_lead_is(s, class, s.len() as int);
        assert(trim_both(s, class) =~= Seq::<char>::empty());
    }
}

/// What is put between two texts stands in the whole.
pub proof fn lemma_occurs_between(a: Seq<char>, b: Seq<char>, c: Seq<char>)
    ensures
        occurs(a + b + c, b),
{
    let s = a + b + c;
    assert(s.subrange(a.len() as int, (a.len() + b.len()) as int) =~= b);
    assert(occurs_at(s, b, a.len() as int));
}

/// What stands in a part stands in the whole.
pub proof fn lemma_occurs_within(s: Seq<char>, part: Seq<char>, needle: Seq<char>)
    requires
        occurs(s, part),
        occurs(part, needle),
    ensures
        occurs(s, needle),
{
    let i = choose|i: int| occurs_at(s, part, i);
    let j = choose|j: int| occurs_at(part, needle, j);
    assert(s.subrange(i + j, i + j + needle.len()) =~= s.subrange(i, i + part.len()).subrange(
        j,
        j + needle.len(),
    ));
    assert(occurs_at(s, needle, i + j));
}

/// The classes of characters, by the codes of what they hold.
pub proof fn law_character_classes(c: char)
    ensures
        CharClass::Word.admits(c) <==> 97 <= c as u32 <= 122 || 65 <= c as u32 <= 90 || 48 <= c as u32
            <= 57 || c as u32 == 95,
        CharClass::DollarWord.admits(c) <==> CharClass::Word.admits(c) || c as u32 == 36,
        CharClass::Chain.admits(c) <==> CharClass::DollarWord.admits(c) || c as u32 == 46,
        CharClass::White.admits(c) <==> {
            ||| 9 <= c as u32 <= 13
            ||| c as u32 == 32
            ||| c as u32 == 133
            ||| c as u32 == 160
            ||| c as u32 == 5760
            ||| 8192 <= c as u32 <= 8202
            ||| c as u32 == 8232
            ||| c as u32 == 8233
            ||| c as u32 == 8239
            ||| c as u32 == 8287
            ||| c as u32 == 12288
        },
{
}

} // verus!
