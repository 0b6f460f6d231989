//! Lines of a text, and pieces of a line.

use vstd::prelude::*;

use crate::position::{
    boundary_at, byte_position, lemma_boundary, lemma_newlines_split, lemma_no_newlines,
    lemma_trail_is, line_start, newlines, position_index, Position,
};
use crate::text::{
    has_prefix, is_white_space, is_word_char, lead, lead_len, lemma_lead, lemma_lead_is, occurs_at,
    skip, starts, take, trim_lead, CharClass,
};

verus! {

/// A line without the carriage return that ends it.
pub open spec fn without_return(line: Seq<char>) -> Seq<char> {
    if line.len() > 0 && line.last() == '\r' {
        line.drop_last()
    } else {
        line
    }
}

/// The lines of a text. A line ends with a line feed, which may come after a
/// carriage return; what follows the last line feed is a line where it is not
/// empty, and keeps its carriage return.
pub open spec fn lines(s: Seq<char>) -> Seq<Seq<char>>
    decreases s.len(),
{
    let n = lead_len(s, CharClass::Except('\n')) as int;
    if s.len() == 0 {
        seq![]
    } else if n >= s.len() {
        seq![s]
    } else {
        seq![without_return(s.take(n))] + lines(s.skip(n + 1))
    }
}

/// What stands between the separators in a text; nothing, where two of them
/// meet or one stands at an end.
pub open spec fn pieces(s: Seq<char>, sep: char) -> Seq<Seq<char>>
    decreases s.len(),
{
    let n = lead_len(s, CharClass::Except(sep)) as int;
    if 0 <= n < s.len() {
        seq![s.take(n)] + pieces(s.skip(n + 1), sep)
    } else {
        seq![s]
    }
}

/// The characters of each run.
pub open spec fn runs(v: Seq<&[char]>) -> Seq<Seq<char>> {
    Seq::new(v.len(), |i: int| v[i]@)
}

/// There is one piece more than there are separators.
pub proof fn lemma_pieces_len(s: Seq<char>, sep: char)
    ensures
        1 <= pieces(s, sep).len() <= s.len() + 1,
    decreases s.len(),
{
    let n = lead_len(s, CharClass::Except(sep)) as int;
    if n < s.len() {
        lemma_pieces_len(s.skip(n + 1), sep);
    }
}

/// The lines of a text.
pub fn split_lines(s: &[char]) -> (res: Vec<&[char]>)
    ensures
        runs(res@) == lines(s@),
{
    let mut res: Vec<&[char]> = Vec::new();
    let mut rest = s;
    assert(runs(res@) + lines(rest@) =~= lines(s@));
    while rest.len() > 0
        invariant
            runs(res@) + lines(rest@) == lines(s@),
        decreases rest@.len(),
    {
        let ghost done = runs(res@);
        let n = lead(rest, CharClass::Except('\n'));
        let ghost tail = rest@;
        if n >= rest.len() {
            res.push(rest);
            rest = skip(rest, rest.len());
            assert(runs(res@) =~= done.push(tail));
            assert(lines(rest@) =~= seq![]);
            assert(runs(res@) + lines(rest@) =~= done + seq![tail]);
        } else {
            let whole = take(rest, n);
            let line = if n > 0 && whole[n - 1] == '\r' {
                take(whole, n - 1)
            } else {
                whole
            };
            assert(line@ =~= without_return(whole@));
            res.push(line);
            rest = skip(rest, n + 1);
            assert(runs(res@) =~= done.push(line@));
            assert(runs(res@) + lines(rest@) =~= done + (seq![line@] + lines(rest@)));
        }
    }
    assert(runs(res@) + lines(rest@) =~= runs(res@));
    res
}

/// What stands between the separators in a text.
pub fn split(s: &[char], sep: char) -> (res: Vec<&[char]>)
    ensures
        runs(res@) == pieces(s@, sep),
{
    let mut res: Vec<&[char]> = Vec::new();
    let mut rest = s;
    assert(runs(res@) + pieces(rest@, sep) =~= pieces(s@, sep));
    loop
        invariant
            runs(res@) + pieces(rest@, sep) == pieces(s@, sep),
        decreases rest@.len(),
    {
        let ghost done = runs(res@);
        let n = lead(rest, CharClass::Except(sep));
        let ghost tail = rest@;
        if n >= rest.len() {
            res.push(rest);
            assert(runs(res@) =~= done + seq![tail]);
            return res;
        }
        let piece = take(rest, n);
        res.push(piece);
        rest = skip(rest, n + 1);
        assert(runs(res@) =~= done.push(piece@));
        assert(runs(res@) + pieces(rest@, sep) =~= done + (seq![piece@] + pieces(rest@, sep)));
    }
}

/// Whether a piece of a dotted chain is `name`, whatever follows it.
pub open spec fn is_mention(piece: Seq<char>, name: Seq<char>) -> bool {
    let t = trim_lead(piece, CharClass::White);
    has_prefix(t, name) && (t.len() == name.len() || !is_word_char(t[name.len() as int]))
}

/// Whether a piece of a dotted chain is `name`, whatever follows it.
pub fn is_mention_of(piece: &[char], name: &[char]) -> (res: bool)
    ensures
        res == is_mention(piece@, name@),
{
    let t = skip(piece, lead(piece, CharClass::White));
    starts(t, name) && (t.len() == name.len() || !CharClass::Word.accepts(t[name.len()]))
}

/// Whether `name` comes after a dot in the line.
pub open spec fn has_tail(line: Seq<char>, name: Seq<char>) -> bool {
    exists|i: int|
        1 <= i < pieces(line, '.').len() && is_mention(#[trigger] pieces(line, '.')[i], name)
}

/// Whether `name` comes after a dot in the line.
pub fn find_tail(line: &[char], name: &[char]) -> (res: bool)
    ensures
        res == has_tail(line@, name@),
{
    let list = split(line, '.');
    let ghost all = pieces(line@, '.');
    let mut i: usize = 1;
    proof {
        lemma_pieces_len(line@, '.');
    }
    while i < list.len()
        invariant
            1 <= i <= list@.len(),
            runs(list@) == all,
            all == pieces(line@, '.'),
            forall|j: int| 1 <= j < i ==> !is_mention(#[trigger] all[j], name@),
        decreases list@.len() - i,
    {
        assert(all[i as int] == runs(list@)[i as int]);
        if is_mention_of(list[i], name) {
            return true;
        }
        i += 1;
    }
    false
}

// ---- Laws -------------------------------------------------------------------

/// Whether the characters from `start` up to `end` are a line of the text, line
/// feed aside.
pub open spec fn is_line(s: Seq<char>, start: int, end: int) -> bool {
    &&& 0 <= start <= end <= s.len()
    &&& start == 0 || s[start - 1] == '\n'
    &&& forall|i: int| start <= i < end ==> #[trigger] s[i] != '\n'
    &&& end == s.len() || s[end] == '\n'
}

/// Newlines in the rest of a text, one of them before the rest.
proof fn lemma_newlines_behind(s: Seq<char>, n: int, i: int)
    requires
        0 <= n < i <= s.len(),
        s[n] == '\n',
        forall|j: int| 0 <= j < n ==> #[trigger] s[j] != '\n',
    ensures
        newlines(s.take(i)) == 1 + newlines(s.skip(n + 1).take(i - n - 1)),
        newlines(s.take(n)) == 0,
{
    lemma_no_newlines(s.take(n));
    assert forall|j: int| 0 <= j < n implies #[trigger] s.take(n)[j] != '\n' by {
        assert(s.take(n)[j] == s[j]);
    }
    assert(s.take(n + 1).drop_last() =~= s.take(n));
    lemma_newlines_split(s, n + 1, i);
    assert(s.subrange(n + 1, i) =~= s.skip(n + 1).take(i - n - 1));
}

/// The line that starts behind so many line feeds has that number, and is what
/// stands up to the next line feed, without a carriage return right before it.
pub proof fn law_line(s: Seq<char>, start: int, end: int)
    requires
        is_line(s, start, end),
        start < s.len(),
    ensures
        newlines(s.take(start)) < lines(s).len(),
        lines(s)[newlines(s.take(start)) as int] == if end < s.len() && start < end && s[end - 1]
            == '\r' {
            s.subrange(start, end - 1)
        } else {
            s.subrange(start, end)
        },
    decreases s.len(),
{
    let class = CharClass::Except('\n');
    let n = lead_len(s, class) as int;
    lemma_lead(s, class);
    if start == 0 {
        if n < end {
            assert(s[n] == '\n');
        } else if end < n {
            assert(class.admits(s[end]));
        }
        assert(s.take(0) =~= Seq::<char>::empty());
        assert(newlines(Seq::<char>::empty()) == 0);
        if n < s.len() {
            assert(without_return(s.take(n)) =~= if start < end && s[end - 1] == '\r' {
                s.subrange(start, end - 1)
            } else {
                s.subrange(start, end)
            });
        } else {
            assert(s.subrange(0, end) =~= s);
        }
    } else {
        if n > start - 1 {
            assert(class.admits(s[start - 1]));
        }
        let t = s.skip(n + 1);
        let a = start - n - 1;
        let b = end - n - 1;
        assert forall|i: int| a <= i < b implies #[trigger] t[i] != '\n' by {
            assert(t[i] == s[i + n + 1]);
        }
        if a > 0 {
            assert(t[a - 1] == s[start - 1]);
        }
        if b < t.len() {
            assert(t[b] == s[end]);
        }
        law_line(t, a, b);
        assert forall|j: int| 0 <= j < n implies #[trigger] s[j] != '\n' by {
            assert(class.admits(s[j]));
        }
        lemma_newlines_behind(s, n, start);
        assert(t.subrange(a, b) =~= s.subrange(start, end));
        if a < b {
            assert(t[b - 1] == s[end - 1]);
            assert(t.subrange(a, b - 1) =~= s.subrange(start, end - 1));
        }
    }
}

/// A text has a line for each line feed, and one more where something follows
/// the last of them.
#[verifier::rlimit(40)]
pub proof fn law_line_count(s: Seq<char>)
    ensures
        lines(s).len() == newlines(s) + if s.len() > 0 && s.last() != '\n' {
            1nat
        } else {
            0
        },
    decreases s.len(),
{
    let class = CharClass::Except('\n');
    let n = lead_len(s, class) as int;
    lemma_lead(s, class);
    if s.len() == 0 {
    } else if n >= s.len() {
        assert forall|i: int| 0 <= i < s.len() implies #[trigger] s[i] != '\n' by {
            assert(class.admits(s[i]));
        }
        lemma_no_newlines(s);
        assert(s.last() == s[s.len() - 1]);
        assert(lines(s) == seq![s]);
    } else {
        let t = s.skip(n + 1);
        assert(lines(s) == seq![without_return(s.take(n))] + lines(t));
        law_line_count(t);
        assert forall|j: int| 0 <= j < n implies #[trigger] s[j] != '\n' by {
            assert(class.admits(s[j]));
        }
        lemma_newlines_behind(s, n, s.len() as int);
        assert(s.take(s.len() as int) =~= s);
        assert(t.take(t.len() as int) =~= t);
        if t.len() > 0 {
            assert(t.last() == s.last());
        }
    }
}

/// Whether a name is a word: word characters, and at least one.
pub open spec fn is_word(name: Seq<char>) -> bool {
    name.len() > 0 && forall|i: int| 0 <= i < name.len() ==> is_word_char(#[trigger] name[i])
}

/// Whether `name` stands in `s` from index `w` on, and no word character
/// follows it.
pub open spec fn ends_at_word(s: Seq<char>, name: Seq<char>, w: int) -> bool {
    occurs_at(s, name, w) && (w + name.len() == s.len() || !is_word_char(s[w + name.len()]))
}

/// Whether nothing but white space on one line stands from `a` up to `b`.
pub open spec fn is_gap(s: Seq<char>, a: int, b: int) -> bool {
    a <= b && forall|i: int| a <= i < b ==> is_white_space(#[trigger] s[i]) && s[i] != '\n'
}

/// Whether the dot at index `d` has `name` behind it: on the same line, white
/// space aside, and not as the start of a longer name.
pub open spec fn is_use_at(s: Seq<char>, name: Seq<char>, d: int) -> bool {
    0 <= d < s.len() && s[d] == '.' && exists|w: int| #[trigger]
        is_gap(s, d + 1, w) && ends_at_word(s, name, w)
}

/// A use right behind the start of a piece, told from the piece.
proof fn lemma_mention(t: Seq<char>, name: Seq<char>)
    requires
        is_word(name),
        forall|i: int| 0 <= i < t.len() ==> #[trigger] t[i] != '\n',
    ensures
        is_mention(pieces(t, '.')[0], name) <==> exists|w: int| #[trigger]
            is_gap(t, 0, w) && ends_at_word(t, name, w),
{
    let class = CharClass::Except('.');
    let m = lead_len(t, class) as int;
    lemma_lead(t, class);
    let piece = t.take(m);
    assert(pieces(t, '.')[0] =~= piece);
    let white = CharClass::White;
    let g = lead_len(piece, white) as int;
    lemma_lead(piece, white);
    let u = trim_lead(piece, white);
    if is_mention(piece, name) {
        assert forall|i: int| 0 <= i < g implies is_white_space(#[trigger] t[i]) && t[i]
            != '\n' by {
            assert(white.admits(piece[i]));
        }
        assert(is_gap(t, 0, g));
        assert(t.subrange(g, g + name.len()) =~= u.take(name.len() as int));
        if g + name.len() < t.len() {
            if u.len() == name.len() {
                assert(t[m] == '.');
            } else {
                assert(u[name.len() as int] == t[g + name.len()]);
            }
        }
        assert(ends_at_word(t, name, g));
    }
    if exists|w: int| #[trigger] is_gap(t, 0, w) && ends_at_word(t, name, w) {
        let w = choose|w: int| #[trigger] is_gap(t, 0, w) && ends_at_word(t, name, w);
        let e = w + name.len();
        assert forall|i: int| 0 <= i < e implies class.admits(#[trigger] t[i]) by {
            if i < w {
                assert(is_white_space(t[i]));
            } else {
                assert(t.subrange(w, e)[i - w] == t[i]);
                assert(is_word_char(name[i - w]));
            }
        }
        if m < e {
            assert(class.admits(t[m]));
        }
        assert forall|i: int| 0 <= i < w implies white.admits(#[trigger] piece[i]) by {
            assert(piece[i] == t[i]);
        }
        assert(t.subrange(w, e)[0] == t[w]);
        assert(is_word_char(name[0]));
        assert(piece[w] == t[w]);
        lemma_lead_is(piece, white, w);
        assert(u.take(name.len() as int) =~= t.subrange(w, e));
        if u.len() > name.len() {
            assert(u[name.len() as int] == t[e]);
        }
    }
}

/// Uses in the rest of a text are uses in the text.
pub proof fn lemma_use_behind(s: Seq<char>, name: Seq<char>, n: int, d: int)
    requires
        0 <= n <= s.len(),
        0 <= d,
    ensures
        is_use_at(s.skip(n), name, d) <==> is_use_at(s, name, d + n),
{
    let t = s.skip(n);
    if is_use_at(t, name, d) {
        let w = choose|w: int| #[trigger] is_gap(t, d + 1, w) && ends_at_word(t, name, w);
        assert forall|i: int| d + n + 1 <= i < w + n implies is_white_space(#[trigger] s[i]) && s[i]
            != '\n' by {
            assert(t[i - n] == s[i]);
        }
        assert(is_gap(s, d + n + 1, w + n));
        assert(s.subrange(w + n, w + n + name.len()) =~= t.subrange(w, w + name.len()));
        assert(ends_at_word(s, name, w + n));
    }
    if is_use_at(s, name, d + n) {
        let w = choose|w: int| #[trigger] is_gap(s, d + n + 1, w) && ends_at_word(s, name, w);
        assert forall|i: int| d + 1 <= i < w - n implies is_white_space(#[trigger] t[i]) && t[i]
            != '\n' by {
            assert(t[i] == s[i + n]);
        }
        assert(is_gap(t, d + 1, w - n));
        assert(s.subrange(w, w + name.len()) =~= t.subrange(w - n, w - n + name.len()));
        assert(ends_at_word(t, name, w - n));
    }
}

/// A line has a word after a dot if and only if one of its dots, whichever, has
/// the word behind it.
#[verifier::rlimit(40)]
pub proof fn law_tail(line: Seq<char>, name: Seq<char>)
    requires
        is_word(name),
        forall|i: int| 0 <= i < line.len() ==> #[trigger] line[i] != '\n',
    ensures
        has_tail(line, name) <==> exists|d: int| is_use_at(line, name, d),
    decreases line.len(),
{
    let class = CharClass::Except('.');
    let n = lead_len(line, class) as int;
    lemma_lead(line, class);
    let all = pieces(line, '.');
    if n >= line.len() {
        assert forall|d: int| !is_use_at(line, name, d) by {
            if is_use_at(line, name, d) {
                assert(class.admits(line[d]));
            }
        }
    } else {
        let t = line.skip(n + 1);
        let rest = pieces(t, '.');
        assert forall|i: int| 0 <= i < t.len() implies #[trigger] t[i] != '\n' by {
            assert(t[i] == line[i + n + 1]);
        }
        law_tail(t, name);
        lemma_mention(t, name);
        lemma_pieces_len(t, '.');
        assert(all[1] == rest[0]);
        if has_tail(line, name) {
            let i = choose|i: int| 1 <= i < all.len() && is_mention(#[trigger] all[i], name);
            assert(all[i] == rest[i - 1]);
            if i == 1 {
                let w = choose|w: int| #[trigger] is_gap(t, 0, w) && ends_at_word(t, name, w);
                assert forall|j: int| n + 1 <= j < w + n + 1 implies is_white_space(
                    #[trigger] line[j],
                ) && line[j] != '\n' by {
                    assert(t[j - n - 1] == line[j]);
                }
                assert(is_gap(line, n + 1, w + n + 1));
                assert(line.subrange(w + n + 1, w + n + 1 + name.len()) =~= t.subrange(
                    w,
                    w + name.len(),
                ));
                assert(ends_at_word(line, name, w + n + 1));
                assert(is_use_at(line, name, n));
            } else {
                assert(has_tail(t, name));
                let d = choose|d: int| is_use_at(t, name, d);
                lemma_use_behind(line, name, n + 1, d);
            }
        }
        if exists|d: int| is_use_at(line, name, d) {
            let d = choose|d: int| is_use_at(line, name, d);
            if d < n {
                assert(class.admits(line[d]));
            } else if d == n {
                let w = choose|w: int| #[trigger]
                    is_gap(line, d + 1, w) && ends_at_word(line, name, w);
                assert forall|j: int| 0 <= j < w - n - 1 implies is_white_space(#[trigger] t[j])
                    && t[j] != '\n' by {
                    assert(t[j] == line[j + n + 1]);
                }
                assert(is_gap(t, 0, w - n - 1));
                assert(line.subrange(w, w + name.len()) =~= t.subrange(
                    w - n - 1,
                    w - n - 1 + name.len(),
                ));
                assert(ends_at_word(t, name, w - n - 1));
                assert(is_mention(all[1], name));
            } else {
                lemma_use_behind(line, name, n + 1, d - n - 1);
                assert(is_use_at(t, name, d - n - 1));
                let i = choose|i: int| 1 <= i < rest.len() && is_mention(#[trigger] rest[i], name);
                assert(all[i + 1] == rest[i]);
            }
        }
    }
}

/// The dot at index `n` has a name behind it if the rest starts with the name,
/// white space aside.
pub proof fn lemma_first_use(line: Seq<char>, name: Seq<char>, n: int)
    requires
        is_word(name),
        0 <= n < line.len(),
        line[n] == '.',
        forall|i: int| 0 <= i < line.len() ==> #[trigger] line[i] != '\n',
    ensures
        is_use_at(line, name, n) <==> is_mention(pieces(line.skip(n + 1), '.')[0], name),
{
    let t = line.skip(n + 1);
    assert forall|i: int| 0 <= i < t.len() implies #[trigger] t[i] != '\n' by {
        assert(t[i] == line[i + n + 1]);
    }
    lemma_mention(t, name);
    if is_use_at(line, name, n) {
        let w = choose|w: int| #[trigger] is_gap(line, n + 1, w) && ends_at_word(line, name, w);
        assert forall|j: int| 0 <= j < w - n - 1 implies is_white_space(#[trigger] t[j]) && t[j]
            != '\n' by {
            assert(t[j] == line[j + n + 1]);
        }
        assert(is_gap(t, 0, w - n - 1));
        assert(line.subrange(w, w + name.len()) =~= t.subrange(
            w - n - 1,
            w - n - 1 + name.len(),
        ));
        assert(ends_at_word(t, name, w - n - 1));
    }
    if exists|w: int| #[trigger] is_gap(t, 0, w) && ends_at_word(t, name, w) {
        let w = choose|w: int| #[trigger] is_gap(t, 0, w) && ends_at_word(t, name, w);
        assert forall|j: int| n + 1 <= j < w + n + 1 implies is_white_space(#[trigger] line[j])
            && line[j] != '\n' by {
            assert(t[j - n - 1] == line[j]);
        }
        assert(is_gap(line, n + 1, w + n + 1));
        assert(line.subrange(w + n + 1, w + n + 1 + name.len()) =~= t.subrange(
            w,
            w + name.len(),
        ));
        assert(ends_at_word(line, name, w + n + 1));
    }
}

/// A use on the first line of a text is a use on that line alone.
pub proof fn lemma_use_on_first_line(s: Seq<char>, name: Seq<char>, end: int, d: int)
    requires
        is_word(name),
        is_line(s, 0, end),
        0 <= d < end,
    ensures
        ({
            let line = if end < s.len() && end > 0 && s[end - 1] == '\r' {
                s.take(end - 1)
            } else {
                s.take(end)
            };
            is_use_at(s, name, d) <==> is_use_at(line, name, d)
        }),
{
    let line = if end < s.len() && end > 0 && s[end - 1] == '\r' {
        s.take(end - 1)
    } else {
        s.take(end)
    };
    if is_use_at(s, name, d) {
        let w = choose|w: int| #[trigger] is_gap(s, d + 1, w) && ends_at_word(s, name, w);
        let e = w + name.len();
        assert(end < s.len() ==> w <= end) by {
            if end < s.len() && w > end {
                assert(s[end] == '\n');
            }
        }
        assert forall|i: int| w <= i < e implies is_word_char(#[trigger] s[i]) by {
            assert(s.subrange(w, e)[i - w] == s[i]);
            assert(is_word_char(name[i - w]));
        }
        if end < s.len() && e > end {
            assert(is_word_char(s[end]));
        }
        if line.len() < e {
            assert(is_word_char(s[end - 1]));
        }
        assert forall|i: int| d + 1 <= i < w implies is_white_space(#[trigger] line[i]) && line[i]
            != '\n' by {
            assert(line[i] == s[i]);
        }
        assert(is_gap(line, d + 1, w));
        assert(line.subrange(w, e) =~= s.subrange(w, e));
        assert(ends_at_word(line, name, w));
    }
    if is_use_at(line, name, d) {
        let w = choose|w: int| #[trigger] is_gap(line, d + 1, w) && ends_at_word(line, name, w);
        let e = w + name.len();
        assert forall|i: int| d + 1 <= i < w implies is_white_space(#[trigger] s[i]) && s[i]
            != '\n' by {
            assert(line[i] == s[i]);
        }
        assert(is_gap(s, d + 1, w));
        assert(line.subrange(w, e) =~= s.subrange(w, e));
        if e < s.len() {
            if e < line.len() {
                assert(line[e] == s[e]);
            } else if line.len() < end {
                assert(s[e] == '\r');
            } else {
                assert(s[e] == '\n');
            }
        }
        assert(ends_at_word(s, name, w));
    }
}

/// Line number `k` of a text has a word after a dot if and only if some dot of
/// the text, behind `k` line feeds, has the word behind it.
pub proof fn law_tails_of_lines(s: Seq<char>, name: Seq<char>, k: int)
    requires
        is_word(name),
        0 <= k,
    ensures
        (k < lines(s).len() && has_tail(lines(s)[k], name)) <==> exists|d: int| #[trigger]
            is_use_at(s, name, d) && newlines(s.take(d)) == k,
    decreases s.len(),
{
    let class = CharClass::Except('\n');
    let n = lead_len(s, class) as int;
    lemma_lead(s, class);
    if s.len() > 0 {
        assert forall|j: int| 0 <= j < n implies #[trigger] s[j] != '\n' by {
            assert(class.admits(s[j]));
        }
        assert(is_line(s, 0, n));
        let line = lines(s)[0];
        assert(line =~= if n < s.len() && n > 0 && s[n - 1] == '\r' {
            s.take(n - 1)
        } else {
            s.take(n)
        });
        assert forall|i: int| 0 <= i < line.len() implies #[trigger] line[i] != '\n' by {
            assert(line[i] == s[i]);
        }
        law_tail(line, name);
        assert forall|d: int| 0 <= d < n implies newlines(#[trigger] s.take(d)) == 0 by {
            lemma_no_newlines(s.take(d));
            assert forall|j: int| 0 <= j < d implies #[trigger] s.take(d)[j] != '\n' by {
                assert(s.take(d)[j] == s[j]);
            }
        }
        if k == 0 {
            if has_tail(line, name) {
                let d = choose|d: int| is_use_at(line, name, d);
                lemma_use_on_first_line(s, name, n, d);
                assert(is_use_at(s, name, d) && newlines(s.take(d)) == k);
            }
            if exists|d: int| #[trigger] is_use_at(s, name, d) && newlines(s.take(d)) == k {
                let d = choose|d: int| #[trigger] is_use_at(s, name, d) && newlines(s.take(d)) == k;
                if d > n {
                    lemma_newlines_behind(s, n, d);
                }
                lemma_use_on_first_line(s, name, n, d);
            }
        } else if n < s.len() {
            let t = s.skip(n + 1);
            law_tails_of_lines(t, name, k - 1);
            assert(lines(s).len() == lines(t).len() + 1);
            assert(k < lines(s).len() ==> lines(s)[k] == lines(t)[k - 1]);
            if exists|d: int| #[trigger] is_use_at(t, name, d) && newlines(t.take(d)) == k - 1 {
                let d = choose|d: int| #[trigger]
                    is_use_at(t, name, d) && newlines(t.take(d)) == k - 1;
                lemma_use_behind(s, name, n + 1, d);
                lemma_newlines_behind(s, n, d + n + 1);
                assert(is_use_at(s, name, d + n + 1) && newlines(s.take(d + n + 1)) == k);
            }
            if exists|d: int| #[trigger] is_use_at(s, name, d) && newlines(s.take(d)) == k {
                let d = choose|d: int| #[trigger] is_use_at(s, name, d) && newlines(s.take(d)) == k;
                if d > n {
                    lemma_use_behind(s, name, n + 1, d - n - 1);
                    lemma_newlines_behind(s, n, d);
                    assert(is_use_at(t, name, d - n - 1) && newlines(t.take(d - n - 1)) == k - 1);
                } else {
                    assert(d < n);
                }
            }
        } else {
            assert forall|d: int| #[trigger] is_use_at(s, name, d) implies newlines(s.take(d))
                == 0 by {}
        }
    }
}

/// How many dots from `a` up to `b` have `name` behind them.
pub open spec fn use_count(s: Seq<char>, name: Seq<char>, a: int, b: int) -> nat
    decreases b - a,
{
    if b <= a {
        0
    } else {
        use_count(s, name, a, b - 1) + if is_use_at(s, name, b - 1) {
            1nat
        } else {
            0
        }
    }
}

/// Uses are counted piece by piece.
pub proof fn lemma_use_count_split(s: Seq<char>, name: Seq<char>, a: int, b: int, c: int)
    requires
        a <= b <= c,
    ensures
        use_count(s, name, a, c) == use_count(s, name, a, b) + use_count(s, name, b, c),
    decreases c - b,
{
    if b < c {
        lemma_use_count_split(s, name, a, b, c - 1);
    }
}

/// Where the uses are the same, they are as many.
pub proof fn lemma_use_count_same(
    s: Seq<char>,
    t: Seq<char>,
    name: Seq<char>,
    a: int,
    b: int,
    shift: int,
)
    requires
        forall|d: int|
            a <= d < b ==> (#[trigger] is_use_at(s, name, d) <==> is_use_at(t, name, d - shift)),
    ensures
        use_count(s, name, a, b) == use_count(t, name, a - shift, b - shift),
    decreases b - a,
{
    if a < b {
        lemma_use_count_same(s, t, name, a, b - 1, shift);
        assert(is_use_at(s, name, b - 1) <==> is_use_at(t, name, b - 1 - shift));
    }
}

/// Without a dot there is no use.
pub proof fn lemma_no_use(s: Seq<char>, name: Seq<char>, a: int, b: int)
    requires
        forall|d: int| a <= d < b ==> !#[trigger] is_use_at(s, name, d),
    ensures
        use_count(s, name, a, b) == 0,
    decreases b - a,
{
    if a < b {
        lemma_no_use(s, name, a, b - 1);
        assert(!is_use_at(s, name, b - 1));
    }
}

/// A position on a line stands so many characters behind the start of the line,
/// or at the end of the line where that is shorter.
pub proof fn law_position_on_line(s: Seq<char>, position: Position, start: int, end: int)
    requires
        is_line(s, start, end),
        newlines(s.take(start)) == position.line,
        end - start <= u32::MAX,
    ensures
        position_index(s, position) == Some(
            if start + position.character <= end {
                start + position.character
            } else {
                end
            },
        ),
{
    lemma_line_start_is(s, position.line as nat, start);
    let class = CharClass::Except('\n');
    let rest = s.skip(start);
    assert forall|i: int| 0 <= i < end - start implies class.admits(#[trigger] rest[i]) by {
        assert(rest[i] == s[start + i]);
    }
    if end < s.len() {
        assert(rest[end - start] == s[end]);
    }
    lemma_lead_is(rest, class, end - start);
}

proof fn lemma_line_start_is(s: Seq<char>, line: nat, start: int)
    requires
        0 <= start <= s.len(),
        start == 0 || s[start - 1] == '\n',
        newlines(s.take(start)) == line,
    ensures
        line_start(s, line) == Some(start),
    decreases line,
{
    let class = CharClass::Except('\n');
    let n = lead_len(s, class) as int;
    lemma_lead(s, class);
    assert forall|j: int| 0 <= j < n implies #[trigger] s[j] != '\n' by {
        assert(class.admits(s[j]));
    }
    if start == 0 {
        assert(s.take(0) =~= Seq::<char>::empty());
        assert(newlines(Seq::<char>::empty()) == 0);
    } else {
        if n >= start {
            assert(class.admits(s[start - 1]));
        }
        lemma_newlines_behind(s, n, start);
        let t = s.skip(n + 1);
        let a = start - n - 1;
        if a > 0 {
            assert(t[a - 1] == s[start - 1]);
        }
        lemma_line_start_is(t, (line - 1) as nat, a);
    }
}

/// A text with fewer line feeds than the number of a line has no such line.
pub proof fn law_no_such_line(s: Seq<char>, position: Position)
    ensures
        position_index(s, position) is None <==> newlines(s) < position.line,
{
    lemma_has_line(s, position.line as nat);
}

proof fn lemma_has_line(s: Seq<char>, line: nat)
    ensures
        line_start(s, line) is None <==> newlines(s) < line,
    decreases line,
{
    if line > 0 {
        let class = CharClass::Except('\n');
        let n = lead_len(s, class) as int;
        lemma_lead(s, class);
        assert forall|j: int| 0 <= j < n implies #[trigger] s[j] != '\n' by {
            assert(class.admits(s[j]));
        }
        if n >= s.len() {
            lemma_no_newlines(s);
        } else {
            let t = s.skip(n + 1);
            lemma_newlines_behind(s, n, s.len() as int);
            assert(s.take(s.len() as int) =~= s);
            assert(t.take(t.len() as int) =~= t);
            lemma_has_line(t, (line - 1) as nat);
        }
    }
}

/// A character has the number of the line feeds before it as its line, and the
/// number of the characters from the start of that line as its place.
pub proof fn law_byte_position(s: Seq<char>, byte: nat, n: int, start: int)
    requires
        boundary_at(s, byte, n),
        0 <= start <= n,
        start == 0 || s[start - 1] == '\n',
        forall|i: int| start <= i < n ==> #[trigger] s[i] != '\n',
    ensures
        byte_position(s, byte) == (Position {
            line: newlines(s.take(n)) as u32,
            character: (n - start) as u32,
        }),
{
    lemma_boundary(s, byte, n);
    let before = s.take(n);
    let class = CharClass::Except('\n');
    assert forall|i: int|
        before.len() - (n - start) <= i < before.len() implies class.admits(#[trigger] before[i]) by {
        assert(before[i] == s[i]);
    }
    if start > 0 {
        assert(before[start - 1] == s[start - 1]);
    }
    lemma_trail_is(before, class, (n - start) as nat);
}

} // verus!
