//! The rope that holds a document's text.
//!
//! What `ropey` does to the text is stated over the text as a sequence of
//! characters, and where lines begin over the line endings that it knows.
use vstd::prelude::*;

use crate::chars::utf8_width;

verus! {

/// `ropey`'s rope, which only its own functions look inside.
#[verifier::external_type_specification]
#[verifier::external_body]
pub struct ExRope(ropey::Rope);

/// The text that a rope holds.
pub uninterp spec fn rope_text(rope: ropey::Rope) -> Seq<char>;

/// Whether a line ends with the character at `i`: a line feed, a vertical
/// tab, a form feed, a carriage return with no line feed after it, or one of
/// the three separators outside ASCII.
pub open spec fn ends_line(t: Seq<char>, i: int) -> bool {
    ||| t[i] == '\n'
    ||| t[i] == '\u{b}'
    ||| t[i] == '\u{c}'
    ||| t[i] == '\u{85}'
    ||| t[i] == '\u{2028}'
    ||| t[i] == '\u{2029}'
    ||| t[i] == '\r' && !(i + 1 < t.len() && t[i + 1] == '\n')
}

/// How many lines end before position `i`, which is the number of the line
/// that the position is on.
pub open spec fn line_at(t: Seq<char>, i: int) -> nat
    decreases i,
{
    if i <= 0 {
        0
    } else if ends_line(t, i - 1) {
        line_at(t, i - 1) + 1
    } else {
        line_at(t, i - 1)
    }
}

/// How many lines there are. The one after the last line ending counts, also
/// where it is empty.
pub open spec fn line_count(t: Seq<char>) -> nat {
    line_at(t, t.len() as int) + 1
}

/// The first position from `i` on by which `n` more lines have ended, and
/// the end of the text where fewer do.
pub open spec fn after_lines(t: Seq<char>, n: nat, i: int) -> int
    decreases t.len() - i,
{
    if n == 0 || i >= t.len() {
        i
    } else if ends_line(t, i) {
        after_lines(t, (n - 1) as nat, i + 1)
    } else {
        after_lines(t, n, i + 1)
    }
}

/// Where a line begins.
pub open spec fn start_of_line(t: Seq<char>, line: nat) -> int {
    after_lines(t, line, 0)
}

/// How many bytes the characters before position `i` take in UTF-8.
pub open spec fn bytes_before(t: Seq<char>, i: int) -> nat
    decreases i,
{
    if i <= 0 {
        0
    } else {
        bytes_before(t, i - 1) + utf8_width(t[i - 1])
    }
}

/// Whether a byte belongs to the character at a position, or is the one after
/// the last and the position is the end.
pub open spec fn is_at_byte(t: Seq<char>, byte: int, i: int) -> bool {
    &&& 0 <= i <= t.len()
    &&& bytes_before(t, i) <= byte
    &&& i < t.len() ==> byte < bytes_before(t, i + 1)
}

/// `Rope::new` makes a rope with nothing in it.
pub assume_specification[ ropey::Rope::new ]() -> (r: ropey::Rope)
    ensures
        rope_text(r) == Seq::<char>::empty(),
;

/// `Rope::from_str` makes a rope that holds the text it is given.
pub assume_specification[ ropey::Rope::from_str ](text: &str) -> (r: ropey::Rope)
    ensures
        rope_text(r) == text@,
;

/// `Rope::len_chars` counts the characters.
pub assume_specification[ ropey::Rope::len_chars ](rope: &ropey::Rope) -> (n: usize)
    ensures
        n == rope_text(*rope).len(),
;

/// `Rope::len_bytes` counts the bytes the text takes in UTF-8.
pub assume_specification[ ropey::Rope::len_bytes ](rope: &ropey::Rope) -> (n: usize)
    ensures
        n == bytes_before(rope_text(*rope), rope_text(*rope).len() as int),
;

/// `Rope::len_lines` counts the lines: one more than there are line endings.
pub assume_specification[ ropey::Rope::len_lines ](rope: &ropey::Rope) -> (n: usize)
    ensures
        n == line_count(rope_text(*rope)),
;

/// `Rope::char_to_line` counts the line endings before a position. It panics
/// past the end of the text.
pub assume_specification[ ropey::Rope::char_to_line ](rope: &ropey::Rope, at: usize) -> (n: usize)
    requires
        at <= rope_text(*rope).len(),
    ensures
        n == line_at(rope_text(*rope), at as int),
;

/// `Rope::line_to_char` finds where a line begins, and the end of the text
/// for the line after the last. It panics further on.
pub assume_specification[ ropey::Rope::line_to_char ](rope: &ropey::Rope, line: usize) -> (n: usize)
    requires
        line <= line_count(rope_text(*rope)),
    ensures
        n == start_of_line(rope_text(*rope), line as nat),
;

/// `Rope::char_to_byte` counts the bytes before a position. It panics past
/// the end of the text.
pub assume_specification[ ropey::Rope::char_to_byte ](rope: &ropey::Rope, at: usize) -> (n: usize)
    requires
        at <= rope_text(*rope).len(),
    ensures
        n == bytes_before(rope_text(*rope), at as int),
;

/// `Rope::byte_to_char` finds the character that a byte belongs to, and the end
/// of the text for the byte after the last. It panics further on.
pub assume_specification[ ropey::Rope::byte_to_char ](rope: &ropey::Rope, byte: usize) -> (n: usize)
    requires
        byte <= bytes_before(rope_text(*rope), rope_text(*rope).len() as int),
    ensures
        is_at_byte(rope_text(*rope), byte as int, n as int),
;

/// `Rope::char` reads one character. It panics from the end of the text on.
pub assume_specification[ ropey::Rope::char ](rope: &ropey::Rope, at: usize) -> (c: char)
    requires
        at < rope_text(*rope).len(),
    ensures
        c == rope_text(*rope)[at as int],
;

/// `Rope::insert` puts text in at a position. It panics past the end of the
/// text.
pub assume_specification[ ropey::Rope::insert ](rope: &mut ropey::Rope, at: usize, text: &str)
    requires
        at <= rope_text(*old(rope)).len(),
    ensures
        rope_text(*final(rope)) == rope_text(*old(rope)).subrange(0, at as int) + text@
            + rope_text(*old(rope)).subrange(at as int, rope_text(*old(rope)).len() as int),
;

/// `Rope::remove` takes a range of characters out. It panics where the range
/// runs backwards or past the end.
#[verifier::external_body]
fn remove(rope: &mut ropey::Rope, from: usize, to: usize)
    requires
        from <= to <= rope_text(*old(rope)).len(),
    ensures
        rope_text(*final(rope)) == rope_text(*old(rope)).subrange(0, from as int)
            + rope_text(*old(rope)).subrange(to as int, rope_text(*old(rope)).len() as int),
{
    rope.remove(from..to)
}

/// Put text in place of a range of characters.
pub fn replace(rope: &mut ropey::Rope, from: usize, to: usize, text: &str)
    requires
        from <= to <= rope_text(*old(rope)).len(),
    ensures
        rope_text(*final(rope)) == rope_text(*old(rope)).subrange(0, from as int) + text@
            + rope_text(*old(rope)).subrange(to as int, rope_text(*old(rope)).len() as int),
{
    let ghost was = rope_text(*rope);
    if to > from {
        remove(rope, from, to);
    }
    let ghost between = rope_text(*rope);
    assert(between =~= was.subrange(0, from as int) + was.subrange(to as int, was.len() as int));
    rope.insert(from, text);
    assert(between.subrange(0, from as int) =~= was.subrange(0, from as int));
    assert(between.subrange(from as int, between.len() as int) =~= was.subrange(
        to as int,
        was.len() as int,
    ));
}

/// `Rope::slice` over a range of characters, as a string of its own. It
/// panics where the range runs backwards or past the end.
#[verifier::external_body]
pub(crate) fn slice(rope: &ropey::Rope, from: usize, to: usize) -> (s: String)
    requires
        from <= to <= rope_text(*rope).len(),
    ensures
        s@ == rope_text(*rope).subrange(from as int, to as int),
{
    rope.slice(from..to).to_string()
}

/// The `Display` of a rope writes the whole of its text.
#[verifier::external_body]
pub(crate) fn whole(rope: &ropey::Rope) -> (s: String)
    ensures
        s@ == rope_text(*rope),
{
    rope.to_string()
}

/// A position further on is on the same line or on a later one.
pub proof fn lemma_line_at_grows(t: Seq<char>, i: int, j: int)
    requires
        i <= j,
    ensures
        line_at(t, i) <= line_at(t, j),
    decreases j,
{
    if i < j && j > 0 {
        lemma_line_at_grows(t, i, j - 1);
    }
}

/// A line found from a position on it begins at or before that position.
pub proof fn lemma_line_starts_before(t: Seq<char>, i: int, at: int)
    requires
        0 <= i <= at <= t.len(),
    ensures
        line_at(t, i) <= line_at(t, at),
        i <= after_lines(t, (line_at(t, at) - line_at(t, i)) as nat, i) <= at,
    decreases at - i,
{
    lemma_line_at_grows(t, i, at);
    if i < at {
        lemma_line_starts_before(t, i + 1, at);
    }
}

/// Counting lines forward never leaves the text.
pub proof fn lemma_after_lines_bounds(t: Seq<char>, n: nat, i: int)
    requires
        0 <= i <= t.len(),
    ensures
        i <= after_lines(t, n, i) <= t.len(),
    decreases t.len() - i,
{
    if n > 0 && i < t.len() {
        lemma_after_lines_bounds(t, n, i + 1);
        if ends_line(t, i) {
            lemma_after_lines_bounds(t, (n - 1) as nat, i + 1);
        }
    }
}

/// More lines reach no less far.
pub proof fn lemma_after_lines_grows(t: Seq<char>, n: nat, m: nat, i: int)
    requires
        n <= m,
        0 <= i <= t.len(),
    ensures
        after_lines(t, n, i) <= after_lines(t, m, i),
    decreases t.len() - i,
{
    lemma_after_lines_bounds(t, m, i);
    if n > 0 && i < t.len() {
        if ends_line(t, i) {
            lemma_after_lines_grows(t, (n - 1) as nat, (m - 1) as nat, i + 1);
        } else {
            lemma_after_lines_grows(t, n, m, i + 1);
        }
    }
}

/// More characters take more bytes.
pub proof fn lemma_bytes_grow(t: Seq<char>, i: int, j: int)
    requires
        0 <= i <= j,
    ensures
        bytes_before(t, i) + (j - i) <= bytes_before(t, j),
    decreases j,
{
    if i < j {
        lemma_bytes_grow(t, i, j - 1);
    }
}

} // verus!
