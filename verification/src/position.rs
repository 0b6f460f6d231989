//! Byte offsets and line/character positions, and the way between them.

use vstd::prelude::*;
use vstd::utf8::{encode_scalar, encode_utf8};

use crate::text::{
    chars_of, lead, lead_len, lemma_lead, lemma_trail, skip, take, trail, trail_len, CharClass,
};

verus! {

/// A place in a document: a line and a character on it, both from zero.
#[derive(Clone, Copy, Debug, PartialEq, Eq, Structural)]
pub struct Position {
    pub line: u32,
    pub character: u32,
}

/// A stretch of a document, the end not included.
#[derive(Clone, Copy, Debug, PartialEq, Eq, Structural)]
pub struct Range {
    pub start: Position,
    pub end: Position,
}

/// How many bytes `c` takes in UTF-8.
pub open spec fn char_width(c: char) -> nat {
    if c <= '\u{7f}' {
        1
    } else if c <= '\u{7ff}' {
        2
    } else if c <= '\u{ffff}' {
        3
    } else {
        4
    }
}

/// How many bytes `s` takes in UTF-8.
pub open spec fn byte_len(s: Seq<char>) -> nat
    decreases s.len(),
{
    if s.len() == 0 {
        0
    } else {
        byte_len(s.drop_last()) + char_width(s.last())
    }
}

/// Whether the byte offset `byte` of `s` falls between two characters, or at
/// the start or the end.
pub open spec fn is_boundary(s: Seq<char>, byte: nat) -> bool {
    exists|i: int| boundary_at(s, byte, i)
}

/// Whether the first `i` characters of `s` take `byte` bytes.
pub open spec fn boundary_at(s: Seq<char>, byte: nat, i: int) -> bool {
    0 <= i <= s.len() && byte_len(s.take(i)) == byte
}

/// How many characters of `s` stand before the byte offset `byte`.
pub open spec fn char_index(s: Seq<char>, byte: nat) -> int {
    choose|i: int| boundary_at(s, byte, i)
}

/// The characters of `s` before the byte offset `byte`, or all of them where
/// the offset lies behind the end.
pub open spec fn prefix_at(s: Seq<char>, byte: nat) -> Seq<char> {
    s.take(char_index(s, clamp_byte(s, byte)))
}

/// `byte`, or the length of `s` in bytes if that is less.
pub open spec fn clamp_byte(s: Seq<char>, byte: nat) -> nat {
    if byte <= byte_len(s) {
        byte
    } else {
        byte_len(s)
    }
}

/// The characters of `s` between two byte offsets.
pub open spec fn slice_at(s: Seq<char>, start: nat, end: nat) -> Seq<char> {
    s.subrange(char_index(s, start), char_index(s, end))
}

/// Whether `start` and `end` delimit characters of `s`.
pub open spec fn is_span(s: Seq<char>, start: nat, end: nat) -> bool {
    start <= end && is_boundary(s, start) && is_boundary(s, end)
}

/// How many newlines `s` holds.
pub open spec fn newlines(s: Seq<char>) -> nat
    decreases s.len(),
{
    if s.len() == 0 {
        0
    } else {
        newlines(s.drop_last()) + if s.last() == '\n' {
            1nat
        } else {
            0
        }
    }
}

/// The index at which line number `line` of `s` starts.
pub open spec fn line_start(s: Seq<char>, line: nat) -> Option<int>
    decreases line,
{
    if line == 0 {
        Some(0)
    } else {
        let n = lead_len(s, CharClass::Except('\n'));
        if n >= s.len() {
            None
        } else {
            match line_start(s.skip(n as int + 1), (line - 1) as nat) {
                Some(i) => Some(n + 1 + i),
                None => None,
            }
        }
    }
}

/// How many characters of `s` stand before `position`. A character beyond the
/// end of its line stands for the end of that line.
pub open spec fn position_index(s: Seq<char>, position: Position) -> Option<int> {
    match line_start(s, position.line as nat) {
        Some(i) => {
            let len = lead_len(s.skip(i), CharClass::Except('\n')) as u32;
            Some(
                i + if position.character <= len {
                    position.character
                } else {
                    len
                },
            )
        },
        None => None,
    }
}

/// The position of the byte offset `byte` of `s`.
pub open spec fn byte_position(s: Seq<char>, byte: nat) -> Position {
    let before = prefix_at(s, byte);
    Position {
        line: newlines(before) as u32,
        character: trail_len(before, CharClass::Except('\n')) as u32,
    }
}

/// The range between two byte offsets of `s`.
pub open spec fn byte_range(s: Seq<char>, start: nat, end: nat) -> Range {
    Range { start: byte_position(s, start), end: byte_position(s, end) }
}

/// Prefixes grow in bytes as they grow in characters.
pub proof fn lemma_prefix_grows(s: Seq<char>, i: int, j: int)
    requires
        0 <= i <= j <= s.len(),
    ensures
        byte_len(s.take(i)) + (j - i) <= byte_len(s.take(j)),
    decreases j - i,
{
    if i < j {
        lemma_prefix_grows(s, i, j - 1);
        assert(s.take(j).drop_last() =~= s.take(j - 1));
    }
}

/// A byte offset is a boundary for one character index only.
pub proof fn lemma_boundary(s: Seq<char>, byte: nat, i: int)
    requires
        boundary_at(s, byte, i),
    ensures
        is_boundary(s, byte),
        char_index(s, byte) == i,
        byte <= byte_len(s),
{
    let j = char_index(s, byte);
    if i < j {
        lemma_prefix_grows(s, i, j);
    } else if j < i {
        lemma_prefix_grows(s, j, i);
    }
    lemma_prefix_grows(s, i, s.len() as int);
    assert(s.take(s.len() as int) =~= s);
}

proof fn lemma_byte_len_front(s: Seq<char>)
    requires
        s.len() > 0,
    ensures
        byte_len(s) == char_width(s[0]) + byte_len(s.skip(1)),
    decreases s.len(),
{
    if s.len() == 1 {
        assert(s.drop_last() =~= Seq::<char>::empty());
        assert(s.skip(1) =~= Seq::<char>::empty());
    } else {
        lemma_byte_len_front(s.drop_last());
        assert(s.drop_last().skip(1) =~= s.skip(1).drop_last());
    }
}

proof fn lemma_char_width(c: char)
    ensures
        encode_scalar(c as u32).len() == char_width(c),
{
}

/// The byte lengths used here are those of the UTF-8 encoding.
pub proof fn lemma_byte_len_is_utf8(s: Seq<char>)
    ensures
        byte_len(s) == encode_utf8(s).len(),
    decreases s.len(),
{
    if s.len() > 0 {
        lemma_byte_len_front(s);
        lemma_byte_len_is_utf8(s.skip(1));
        assert(s.skip(1) =~= s.drop_first());
        lemma_char_width(s[0]);
    }
}

/// How many bytes `c` takes in UTF-8.
pub fn width(c: char) -> (res: usize)
    ensures
        res == char_width(c),
{
    if c <= '\u{7f}' {
        1
    } else if c <= '\u{7ff}' {
        2
    } else if c <= '\u{ffff}' {
        3
    } else {
        4
    }
}

/// The number of characters before a byte offset, where it is a boundary.
pub fn find_boundary(s: &[char], byte: usize) -> (res: Option<usize>)
    ensures
        match res {
            Some(i) => boundary_at(s@, byte as nat, i as int) && char_index(s@, byte as nat) == i,
            None => !is_boundary(s@, byte as nat),
        },
        res matches Some(i) ==> i <= s@.len(),
{
    let mut i: usize = 0;
    let mut rest: usize = byte;
    assert(s@.take(0) =~= Seq::<char>::empty());
    while rest > 0
        invariant
            i <= s@.len(),
            rest <= byte,
            byte_len(s@.take(i as int)) + rest == byte,
        decreases s@.len() - i,
    {
        if i == s.len() {
            proof {
                assert forall|j: int| !boundary_at(s@, byte as nat, j) by {
                    if boundary_at(s@, byte as nat, j) {
                        lemma_prefix_grows(s@, j, i as int);
                    }
                }
            }
            return None;
        }
        let w = width(s[i]);
        assert(s@.take(i + 1).drop_last() =~= s@.take(i as int));
        if w > rest {
            proof {
                assert forall|j: int| !boundary_at(s@, byte as nat, j) by {
                    if boundary_at(s@, byte as nat, j) {
                        if j <= i {
                            lemma_prefix_grows(s@, j, i as int);
                        } else {
                            lemma_prefix_grows(s@, i + 1, j);
                        }
                    }
                }
            }
            return None;
        }
        rest -= w;
        i += 1;
    }
    proof {
        lemma_boundary(s@, byte as nat, i as int);
    }
    Some(i)
}

/// The characters of `s` between two byte offsets.
pub fn slice_bytes(s: &[char], start: usize, end: usize) -> (res: &[char])
    requires
        is_span(s@, start as nat, end as nat),
    ensures
        res@ == slice_at(s@, start as nat, end as nat),
{
    let a = find_boundary(s, start);
    let b = find_boundary(s, end);
    match (a, b) {
        (Some(i), Some(j)) => {
            proof {
                if j < i {
                    lemma_prefix_grows(s@, j as int, i as int);
                }
            }
            vstd::slice::slice_subrange(s, i, j)
        },
        _ => s,
    }
}

/// The number of characters before `position`.
pub fn find_position(s: &[char], position: Position) -> (res: Option<usize>)
    ensures
        match res {
            Some(i) => position_index(s@, position) == Some(i as int),
            None => position_index(s@, position) is None,
        },
        res matches Some(i) ==> i <= s@.len(),
{
    let total = s.len();
    let mut start: usize = 0;
    let mut left: u32 = position.line;
    assert(s@.skip(0) =~= s@);
    while left > 0
        invariant
            start <= total == s@.len(),
            line_start(s@, position.line as nat) == match line_start(
                s@.skip(start as int),
                left as nat,
            ) {
                Some(i) => Some(start + i),
                None => None,
            },
        decreases left,
    {
        let rest = skip(s, start);
        let n = lead(rest, CharClass::Except('\n'));
        if n == rest.len() {
            return None;
        }
        assert(s@.skip(start as int).skip(n + 1) =~= s@.skip(start + n + 1));
        start += n + 1;
        left -= 1;
    }
    let len = lead(skip(s, start), CharClass::Except('\n'));
    proof {
        lemma_truncation(len as nat);
    }
    let shown = len as u32;
    let offset = if position.character <= shown {
        position.character
    } else {
        shown
    };
    Some(start + offset as usize)
}

/// Truncating to 32 bits does not make a number larger.
proof fn lemma_truncation(n: nat)
    ensures
        n as u32 <= n,
{
    if n <= u32::MAX {
    } else {
        assert(n as u32 <= u32::MAX);
    }
}

/// The byte offset of `position`; `None` if it lies on a line that the text
/// does not have.
pub fn position_to_byte(text: &str, position: Position) -> (res: Option<usize>)
    ensures
        match res {
            Some(byte) => position_index(text@, position) is Some && byte == byte_len(
                text@.take(position_index(text@, position)->0),
            ) && is_boundary(text@, byte as nat),
            None => position_index(text@, position) is None,
        },
        res is Some ==> 0 <= position_index(text@, position)->0 <= text@.len(),
{
    let chars = chars_of(text);
    let total = text.as_bytes().len();
    match find_position(chars.as_slice(), position) {
        None => None,
        Some(n) => {
            let mut byte: usize = 0;
            let mut i: usize = 0;
            proof {
                lemma_byte_len_is_utf8(text@);
                assert(text@.take(0) =~= Seq::<char>::empty());
                assert(text@.take(text@.len() as int) =~= text@);
            }
            while i < n
                invariant
                    i <= n <= text@.len(),
                    chars@ == text@,
                    byte == byte_len(text@.take(i as int)),
                    byte_len(text@.take(text@.len() as int)) == total,
                decreases n - i,
            {
                proof {
                    assert(text@.take(i + 1).drop_last() =~= text@.take(i as int));
                    lemma_prefix_grows(text@, i + 1, text@.len() as int);
                }
                byte += width(chars[i]);
                i += 1;
            }
            assert(boundary_at(text@, byte as nat, n as int));
            Some(byte)
        },
    }
}

/// How many newlines `s` holds.
fn count_newlines(s: &[char]) -> (res: usize)
    ensures
        res == newlines(s@),
{
    let mut i: usize = 0;
    let mut count: usize = 0;
    assert(s@.take(0) =~= Seq::<char>::empty());
    while i < s.len()
        invariant
            count <= i <= s@.len(),
            count == newlines(s@.take(i as int)),
        decreases s@.len() - i,
    {
        assert(s@.take(i + 1).drop_last() =~= s@.take(i as int));
        if s[i] == '\n' {
            count += 1;
        }
        i += 1;
    }
    assert(s@.take(i as int) =~= s@);
    count
}

/// The position of a byte offset; an offset behind the end stands for the end.
pub fn position_of(s: &[char], byte: usize) -> (res: Position)
    requires
        is_boundary(s@, clamp_byte(s@, byte as nat)),
    ensures
        res == byte_position(s@, byte as nat),
{
    let n = match find_boundary(s, byte) {
        Some(n) => {
            proof {
                lemma_boundary(s@, byte as nat, n as int);
            }
            n
        },
        None => {
            proof {
                assert(s@.take(s@.len() as int) =~= s@);
                lemma_boundary(s@, byte_len(s@), s@.len() as int);
            }
            s.len()
        },
    };
    let before = take(s, n);
    let line = count_newlines(before);
    let character = trail(before, CharClass::Except('\n'));
    Position { line: line as u32, character: character as u32 }
}

/// The range between two byte offsets.
pub fn range_of(s: &[char], start: usize, end: usize) -> (res: Range)
    requires
        is_span(s@, start as nat, end as nat),
    ensures
        res == byte_range(s@, start as nat, end as nat),
{
    proof {
        let i = choose|i: int| boundary_at(s@, start as nat, i);
        let j = choose|j: int| boundary_at(s@, end as nat, j);
        lemma_boundary(s@, start as nat, i);
        lemma_boundary(s@, end as nat, j);
    }
    Range { start: position_of(s, start), end: position_of(s, end) }
}

/// The position of a byte offset of `text`; an offset behind the end stands for
/// the end.
pub fn byte_to_position(byte: usize, text: &str) -> (res: Position)
    requires
        is_boundary(text@, clamp_byte(text@, byte as nat)),
    ensures
        res == byte_position(text@, byte as nat),
{
    let chars = chars_of(text);
    position_of(chars.as_slice(), byte)
}

/// The newlines up to an index are those up to an earlier one, and those in
/// between.
pub proof fn lemma_newlines_split(s: Seq<char>, i: int, j: int)
    requires
        0 <= i <= j <= s.len(),
    ensures
        newlines(s.take(j)) == newlines(s.take(i)) + newlines(s.subrange(i, j)),
    decreases j - i,
{
    if i < j {
        lemma_newlines_split(s, i, j - 1);
        assert(s.take(j).drop_last() =~= s.take(j - 1));
        assert(s.subrange(i, j).drop_last() =~= s.subrange(i, j - 1));
    } else {
        assert(s.subrange(i, j) =~= Seq::<char>::empty());
    }
}

/// A text without a line feed has no newlines.
pub proof fn lemma_no_newlines(s: Seq<char>)
    ensures
        newlines(s) == 0 <==> forall|i: int| 0 <= i < s.len() ==> #[trigger] s[i] != '\n',
    decreases s.len(),
{
    if s.len() > 0 {
        let t = s.drop_last();
        lemma_no_newlines(t);
        if newlines(s) == 0 {
            assert forall|i: int| 0 <= i < s.len() implies #[trigger] s[i] != '\n' by {
                if i < t.len() {
                    assert(t[i] == s[i]);
                }
            }
        }
        if forall|i: int| 0 <= i < s.len() ==> #[trigger] s[i] != '\n' {
            assert forall|i: int| 0 <= i < t.len() implies #[trigger] t[i] != '\n' by {
                assert(t[i] == s[i]);
            }
        }
    }
}

/// A trailing run is known by where it stops.
pub proof fn lemma_trail_is(s: Seq<char>, class: CharClass, n: nat)
    requires
        n <= s.len(),
        forall|i: int| s.len() - n <= i < s.len() ==> class.admits(#[trigger] s[i]),
        n < s.len() ==> !class.admits(s[s.len() - n - 1]),
    ensures
        trail_len(s, class) == n,
{
    lemma_trail(s, class);
    let t = trail_len(s, class);
    if t < n {
        assert(class.admits(s[s.len() - t - 1]));
    } else if n < t {
        assert(class.admits(s[s.len() - n - 1]));
    }
}

/// A line starts behind as many newlines as its number says, and behind
/// nothing else.
proof fn lemma_line_start(s: Seq<char>, line: nat)
    ensures
        line_start(s, line) matches Some(i) ==> {
            &&& 0 <= i <= s.len()
            &&& newlines(s.take(i)) == line
            &&& i > 0 ==> s[i - 1] == '\n'
        },
    decreases line,
{
    if line == 0 {
        assert(s.take(0) =~= Seq::<char>::empty());
    } else {
        let n = lead_len(s, CharClass::Except('\n')) as int;
        lemma_lead(s, CharClass::Except('\n'));
        if n < s.len() {
            let rest = s.skip(n + 1);
            lemma_line_start(rest, (line - 1) as nat);
            if line_start(rest, (line - 1) as nat) is Some {
                let j = line_start(rest, (line - 1) as nat)->0;
                lemma_newlines_split(s, n, n + 1 + j);
                lemma_newlines_split(s, n + 1, n + 1 + j);
                lemma_newlines_split(s, n, n + 1);
                lemma_no_newlines(s.take(n));
                assert(s.subrange(n + 1, n + 1 + j) =~= rest.take(j));
                assert(s.subrange(n, n + 1).drop_last() =~= Seq::<char>::empty());
                assert(newlines(Seq::<char>::empty()) == 0);
                assert(newlines(s.subrange(n, n + 1)) == 1);
                if j > 0 {
                    assert(rest[j - 1] == s[n + j]);
                }
            }
        }
    }
}

/// The line on which index `k` falls starts where the run of other characters
/// before `k` starts.
proof fn lemma_line_of(s: Seq<char>, k: int)
    requires
        0 <= k <= s.len(),
    ensures
        line_start(s, newlines(s.take(k))) == Some(
            k - trail_len(s.take(k), CharClass::Except('\n')),
        ),
    decreases s.len(),
{
    let class = CharClass::Except('\n');
    let n = lead_len(s, class) as int;
    lemma_lead(s, class);
    if k <= n {
        lemma_no_newlines(s.take(k));
        lemma_trail_is(s.take(k), class, k as nat);
    } else {
        let rest = s.skip(n + 1);
        let m = k - n - 1;
        lemma_line_of(rest, m);
        lemma_newlines_split(s, n, k);
        lemma_newlines_split(s, n + 1, k);
        lemma_newlines_split(s, n, n + 1);
        lemma_no_newlines(s.take(n));
        assert(s.subrange(n + 1, k) =~= rest.take(m));
        assert(s.subrange(n, n + 1).drop_last() =~= Seq::<char>::empty());
        assert(newlines(Seq::<char>::empty()) == 0);
        assert(newlines(s.subrange(n, n + 1)) == 1);
        let t = trail_len(rest.take(m), class);
        lemma_trail(rest.take(m), class);
        assert forall|i: int| k - t <= i < k implies class.admits(#[trigger] s.take(k)[i]) by {
            assert(rest.take(m)[i - n - 1] == s[i]);
        }
        if t < m {
            assert(rest.take(m)[m - t - 1] == s[k - t - 1]);
        }
        lemma_trail_is(s.take(k), class, t);
    }
}

/// From a position to its byte offset and back: a position on a character of
/// the text, or at the end of a line, comes back unchanged.
pub proof fn law_position_round_trip(s: Seq<char>, position: Position)
    requires
        line_start(s, position.line as nat) is Some,
        position.character <= lead_len(
            s.skip(line_start(s, position.line as nat)->0),
            CharClass::Except('\n'),
        ) <= u32::MAX,
    ensures
        position_index(s, position) is Some,
        byte_position(s, byte_len(s.take(position_index(s, position)->0))) == position,
{
    let class = CharClass::Except('\n');
    let i = line_start(s, position.line as nat)->0;
    let c = position.character as int;
    lemma_line_start(s, position.line as nat);
    lemma_lead(s.skip(i), class);
    lemma_newlines_split(s, i, i + c);
    assert forall|j: int| 0 <= j < c implies #[trigger] s.subrange(i, i + c)[j] != '\n' by {
        assert(s.skip(i)[j] == s[i + j]);
    }
    lemma_no_newlines(s.subrange(i, i + c));
    assert forall|j: int| i <= j < i + c implies class.admits(#[trigger] s.take(i + c)[j]) by {
        assert(s.skip(i)[j - i] == s[j]);
    }
    lemma_trail_is(s.take(i + c), class, c as nat);
    lemma_boundary(s, byte_len(s.take(i + c)), i + c);
}

/// From a byte offset to its position and back: in a text short enough for
/// 32-bit positions the offset comes back unchanged.
pub proof fn law_byte_round_trip(s: Seq<char>, byte: nat)
    requires
        is_boundary(s, byte),
        s.len() <= u32::MAX,
    ensures
        position_index(s, byte_position(s, byte)) == Some(char_index(s, byte)),
        byte_len(s.take(position_index(s, byte_position(s, byte))->0)) == byte,
{
    let class = CharClass::Except('\n');
    let k = char_index(s, byte);
    lemma_boundary(s, byte, k);
    lemma_line_of(s, k);
    lemma_newlines_bound(s.take(k));
    let t = trail_len(s.take(k), class) as int;
    lemma_trail(s.take(k), class);
    lemma_lead(s.skip(k - t), class);
    let len = lead_len(s.skip(k - t), class) as int;
    if len < t {
        assert(s.skip(k - t)[len] == s.take(k)[k - t + len]);
    }
}

proof fn lemma_newlines_bound(s: Seq<char>)
    ensures
        newlines(s) <= s.len(),
    decreases s.len(),
{
    if s.len() > 0 {
        lemma_newlines_bound(s.drop_last());
    }
}

/// A range never ends before it starts.
pub proof fn law_range_ordered(s: Seq<char>, start: nat, end: nat)
    requires
        is_span(s, start, end),
        s.len() <= u32::MAX,
    ensures
        ({
            let range = byte_range(s, start, end);
            ||| range.start.line < range.end.line
            ||| range.start.line == range.end.line && range.start.character <= range.end.character
        }),
{
    let class = CharClass::Except('\n');
    let i = char_index(s, start);
    let j = char_index(s, end);
    lemma_boundary(s, start, i);
    lemma_boundary(s, end, j);
    if j < i {
        lemma_prefix_grows(s, j, i);
    }
    lemma_newlines_split(s, i, j);
    lemma_newlines_bound(s.take(j));
    lemma_trail(s.take(i), class);
    lemma_trail(s.take(j), class);
    if newlines(s.take(i)) == newlines(s.take(j)) {
        lemma_no_newlines(s.subrange(i, j));
        let t = trail_len(s.take(i), class) as int;
        let u = trail_len(s.take(j), class) as int;
        if u < t {
            let m = j - u - 1;
            assert(!class.admits(s.take(j)[m]));
            if m < i {
                assert(s.take(i)[m] == s.take(j)[m]);
                assert(i - t <= m);
            } else {
                assert(s.subrange(i, j)[m - i] == s.take(j)[m]);
            }
        }
    }
}

/// Between two byte offsets stand the characters from the index of the one to
/// that of the other.
pub proof fn law_slice(s: Seq<char>, start: nat, end: nat, a: int, b: int)
    requires
        0 <= a <= b <= s.len(),
        encode_utf8(s.take(a)).len() == start,
        encode_utf8(s.take(b)).len() == end,
    ensures
        slice_at(s, start, end) == s.subrange(a, b),
{
    lemma_byte_len_is_utf8(s.take(a));
    lemma_byte_len_is_utf8(s.take(b));
    lemma_boundary(s, start, a);
    lemma_boundary(s, end, b);
}

/// The newlines of a text are those of its parts, and one character alone is
/// one if it is a line feed.
pub proof fn law_newlines(a: Seq<char>, b: Seq<char>, c: char)
    ensures
        newlines(a + b) == newlines(a) + newlines(b),
        newlines(seq![c]) == if c == '\n' {
            1nat
        } else {
            0
        },
{
    let n = a.len() as int;
    let all = (a + b).len() as int;
    lemma_newlines_split(a + b, n, all);
    assert((a + b).take(n) =~= a);
    assert((a + b).take(all) =~= a + b);
    assert((a + b).subrange(n, all) =~= b);
    assert(seq![c].drop_last() =~= seq![]);
    assert(newlines(seq![c].drop_last()) == 0);
    assert(seq![c].last() == c);
}

/// A byte offset behind the end stands for the end.
pub proof fn law_behind_the_end(s: Seq<char>, byte: nat)
    requires
        byte > byte_len(s),
    ensures
        byte_position(s, byte) == byte_position(s, byte_len(s)),
        prefix_at(s, byte) == s,
{
    let n = s.len() as int;
    assert(s.take(n) =~= s);
    lemma_boundary(s, byte_len(s), n);
}

} // verus!
