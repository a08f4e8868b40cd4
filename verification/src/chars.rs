//! Characters and strings: what the rest of the library asks of them.
use vstd::prelude::*;

verus! {

/// `String::push` puts one character at the end.
pub assume_specification[ String::push ](s: &mut String, c: char)
    ensures
        final(s)@ == old(s)@.push(c),
;

/// `char::len_utf16` counts the 16-bit units a character takes in UTF-16:
/// one below U+10000 and two from there on.
pub assume_specification[ char::len_utf16 ](c: char) -> (n: usize)
    ensures
        n == utf16_width(c),
;

/// Whether a character is one of ASCII.
pub open spec fn ascii(c: char) -> bool {
    (c as u32) < 0x80
}

/// Whether `char::is_whitespace` says of a character beyond ASCII that it is
/// blank.
pub uninterp spec fn blank_beyond(c: char) -> bool;

/// Whether a character is blank.
pub open spec fn whitespace(c: char) -> bool {
    if ascii(c) { c == ' ' || 0x09 <= (c as u32) <= 0x0d } else { blank_beyond(c) }
}

/// `char::is_whitespace` depends on the character alone. In ASCII it says yes
/// to the space and to what stands from the tab to the carriage return.
pub assume_specification[ char::is_whitespace ](c: char) -> (yes: bool)
    ensures
        ascii(c) ==> yes == (c == ' ' || 0x09 <= (c as u32) <= 0x0d),
        !ascii(c) ==> yes == blank_beyond(c),
;

/// Whether `char::is_alphanumeric` says of a character beyond ASCII that it is
/// a letter or a digit.
pub uninterp spec fn alphanumeric_beyond(c: char) -> bool;

/// Whether a character is one of the large letters of ASCII.
pub open spec fn large(c: char) -> bool {
    0x41 <= (c as u32) <= 0x5a
}

/// Whether a character is one of the small letters of ASCII.
pub open spec fn small(c: char) -> bool {
    0x61 <= (c as u32) <= 0x7a
}

/// Whether a character is one of the digits of ASCII.
pub open spec fn numeral(c: char) -> bool {
    0x30 <= (c as u32) <= 0x39
}

/// Whether a character is a letter or a digit.
pub open spec fn alphanumeric(c: char) -> bool {
    if ascii(c) { large(c) || small(c) || numeral(c) } else { alphanumeric_beyond(c) }
}

/// `char::is_alphanumeric` depends on the character alone. In ASCII it says
/// yes to the letters and the digits.
pub assume_specification[ char::is_alphanumeric ](c: char) -> (yes: bool)
    ensures
        ascii(c) ==> yes == (large(c) || small(c) || numeral(c)),
        !ascii(c) ==> yes == alphanumeric_beyond(c),
;

/// Whether `char::is_uppercase` says of a character beyond ASCII that it is a
/// large letter.
pub uninterp spec fn upper_beyond(c: char) -> bool;

/// Whether a character is a large letter.
pub open spec fn is_upper(c: char) -> bool {
    if ascii(c) { large(c) } else { upper_beyond(c) }
}

/// `char::is_uppercase` depends on the character alone. In ASCII it says yes
/// to the large letters.
pub assume_specification[ char::is_uppercase ](c: char) -> (yes: bool)
    ensures
        ascii(c) ==> yes == large(c),
        !ascii(c) ==> yes == upper_beyond(c),
;

/// How many 16-bit units a character takes in UTF-16.
pub open spec fn utf16_width(c: char) -> nat {
    if (c as u32) < 0x10000 { 1 } else { 2 }
}

/// How many bytes a character takes in UTF-8.
pub open spec fn utf8_width(c: char) -> nat {
    if (c as u32) < 0x80 {
        1
    } else if (c as u32) < 0x800 {
        2
    } else if (c as u32) < 0x10000 {
        3
    } else {
        4
    }
}

/// A character of ASCII as a large letter, where it is a letter.
pub open spec fn ascii_upper(c: char) -> char {
    if small(c) { ((c as u32) - 32) as char } else { c }
}

/// A character of ASCII as a small letter, where it is a letter.
pub open spec fn ascii_lower(c: char) -> char {
    if large(c) { ((c as u32) + 32) as char } else { c }
}

/// Whether a text is of ASCII alone.
pub open spec fn all_ascii(s: Seq<char>) -> bool {
    forall|i: int| 0 <= i < s.len() ==> ascii(#[trigger] s[i])
}

/// A text of ASCII in large letters.
pub open spec fn ascii_uppercased(s: Seq<char>) -> Seq<char> {
    s.map_values(|c: char| ascii_upper(c))
}

/// A text of ASCII in small letters.
pub open spec fn ascii_lowercased(s: Seq<char>) -> Seq<char> {
    s.map_values(|c: char| ascii_lower(c))
}

/// What `str::to_uppercase` makes of a string that is not of ASCII alone.
pub uninterp spec fn uppercased_beyond(s: Seq<char>) -> Seq<char>;

/// What `str::to_lowercase` makes of a string that is not of ASCII alone.
pub uninterp spec fn lowercased_beyond(s: Seq<char>) -> Seq<char>;

/// What `char::to_uppercase` makes of a character beyond ASCII: one or more.
pub uninterp spec fn upper_of_beyond(c: char) -> Seq<char>;

/// What `char::to_lowercase` makes of a character beyond ASCII: one or more.
pub uninterp spec fn lower_of_beyond(c: char) -> Seq<char>;

/// A text in large letters.
pub open spec fn uppercased(s: Seq<char>) -> Seq<char> {
    if all_ascii(s) { ascii_uppercased(s) } else { uppercased_beyond(s) }
}

/// A text in small letters.
pub open spec fn lowercased(s: Seq<char>) -> Seq<char> {
    if all_ascii(s) { ascii_lowercased(s) } else { lowercased_beyond(s) }
}

/// A character as a large letter.
pub open spec fn upper_of(c: char) -> Seq<char> {
    if ascii(c) { seq![ascii_upper(c)] } else { upper_of_beyond(c) }
}

/// A character as a small letter.
pub open spec fn lower_of(c: char) -> Seq<char> {
    if ascii(c) { seq![ascii_lower(c)] } else { lower_of_beyond(c) }
}

/// `str::to_uppercase` depends on the string alone. One of ASCII alone has
/// each of its small letters made large.
#[verifier::external_body]
pub(crate) fn uppercase(s: &str) -> (r: String)
    ensures
        all_ascii(s@) ==> r@ == ascii_uppercased(s@),
        !all_ascii(s@) ==> r@ == uppercased_beyond(s@),
{
    s.to_uppercase()
}

/// `str::to_lowercase` depends on the string alone. One of ASCII alone has
/// each of its large letters made small.
#[verifier::external_body]
pub(crate) fn lowercase(s: &str) -> (r: String)
    ensures
        all_ascii(s@) ==> r@ == ascii_lowercased(s@),
        !all_ascii(s@) ==> r@ == lowercased_beyond(s@),
{
    s.to_lowercase()
}

/// `char::to_uppercase` depends on the character alone. One of ASCII is made
/// one character, a small letter of it the large one.
#[verifier::external_body]
pub(crate) fn uppercase_char(c: char) -> (r: String)
    ensures
        ascii(c) ==> r@ == seq![ascii_upper(c)],
        !ascii(c) ==> r@ == upper_of_beyond(c),
{
    c.to_uppercase().to_string()
}

/// `char::to_lowercase` depends on the character alone. One of ASCII is made
/// one character, a large letter of it the small one.
#[verifier::external_body]
pub(crate) fn lowercase_char(c: char) -> (r: String)
    ensures
        ascii(c) ==> r@ == seq![ascii_lower(c)],
        !ascii(c) ==> r@ == lower_of_beyond(c),
{
    c.to_lowercase().to_string()
}

/// Whether a character stands for itself in a quoted text.
pub open spec fn unescaped(c: char) -> bool {
    0x20 <= (c as u32) <= 0x7e && c != '"' && c != '\\'
}

/// How `str` is written by its `Debug`.
pub uninterp spec fn debug_text(s: Seq<char>) -> Seq<char>;

/// `str`'s `Debug` depends on the string alone. A text that needs no escape
/// stands between quotes as it is.
#[verifier::external_body]
pub(crate) fn debugged(s: &str) -> (r: String)
    ensures
        r@ == debug_text(s@),
        (forall|i: int| 0 <= i < s@.len() ==> unescaped(#[trigger] s@[i])) ==> r@ == seq!['"'] + s@
            + seq!['"'],
{
    format!("{s:?}")
}

/// Whether two strings hold the same characters.
pub(crate) fn same(a: &str, b: &str) -> (yes: bool)
    ensures
        yes == (a@ == b@),
{
    let (v, w) = (chars_of(a), chars_of(b));
    if v.len() != w.len() {
        return false;
    }
    let mut i: usize = 0;
    while i < v.len()
        invariant
            i <= v@.len() == w@.len(),
            v@ == a@,
            w@ == b@,
            forall|k: int| 0 <= k < i ==> v@[k] == w@[k],
        decreases v@.len() - i,
    {
        if v[i] != w[i] {
            return false;
        }
        i = i + 1;
    }
    assert(v@ =~= w@);
    true
}

/// The characters of a string, one by one.
pub fn chars_of(s: &str) -> (v: Vec<char>)
    ensures
        v@ == s@,
{
    let mut v: Vec<char> = Vec::new();
    for c in it: s.chars()
        invariant
            it.seq() == s@,
            v@ == s@.take(it.index() as int),
    {
        v.push(c);
    }
    v
}

/// The string made of the characters from `from` up to `to`.
pub fn string_of(v: &Vec<char>, from: usize, to: usize) -> (s: String)
    requires
        from <= to <= v@.len(),
    ensures
        s@ == v@.subrange(from as int, to as int),
{
    let mut s: String = String::new();
    let mut at: usize = from;
    while at < to
        invariant
            from <= at <= to <= v@.len(),
            s@ == v@.subrange(from as int, at as int),
        decreases to - at,
    {
        s.push(v[at]);
        at = at + 1;
    }
    s
}

// ---------------------------------------------------------------------------
// Line endings
// ---------------------------------------------------------------------------

/// Whether a line ends anywhere the way lines do on Windows.
pub open spec fn has_crlf(t: Seq<char>) -> bool {
    exists|i: int| 0 <= i < t.len() - 1 && #[trigger] t[i] == '\r' && t[i + 1] == '\n'
}

/// A text with every carriage return and line feed made a line feed.
pub open spec fn unix(t: Seq<char>) -> Seq<char>
    decreases t.len(),
{
    if t.len() == 0 {
        t
    } else if t.len() > 1 && t[t.len() - 2] == '\r' && t.last() == '\n' {
        unix(t.take(t.len() - 2)).push('\n')
    } else {
        unix(t.drop_last()).push(t.last())
    }
}

/// A text with every line feed made a carriage return and a line feed.
pub open spec fn dos(t: Seq<char>) -> Seq<char>
    decreases t.len(),
{
    if t.len() == 0 {
        t
    } else if t.last() == '\n' {
        dos(t.drop_last()).push('\r').push('\n')
    } else {
        dos(t.drop_last()).push(t.last())
    }
}

/// Line feeds written the way Windows does read back as line feeds.
pub proof fn lemma_unix_of_dos(t: Seq<char>)
    ensures
        unix(dos(t)) == t,
    decreases t.len(),
{
    if t.len() > 0 {
        lemma_unix_of_dos(t.drop_last());
        let d = dos(t.drop_last());
        if t.last() == '\n' {
            assert(d.push('\r').push('\n').take(d.len() as int) =~= d);
        } else {
            assert(d.push(t.last()).drop_last() =~= d);
        }
        assert(t.drop_last().push(t.last()) =~= t);
    }
}

/// A text without them is left as it is.
pub proof fn lemma_unix_of_unix(t: Seq<char>)
    requires
        !has_crlf(t),
    ensures
        unix(t) == t,
    decreases t.len(),
{
    if t.len() > 0 {
        let less = t.drop_last();
        if t.len() > 1 && t[t.len() - 2] == '\r' && t.last() == '\n' {
            assert(t[t.len() - 2] == '\r' && t[t.len() - 2 + 1] == '\n');
        }
        assert(!has_crlf(less)) by {
            if has_crlf(less) {
                let i = choose|i: int|
                    0 <= i < less.len() - 1 && #[trigger] less[i] == '\r' && less[i + 1] == '\n';
                assert(t[i] == '\r' && t[i + 1] == '\n');
            }
        }
        lemma_unix_of_unix(less);
        assert(less.push(t.last()) =~= t);
    }
}

/// Whether a line ends anywhere the way lines do on Windows.
pub fn contains_crlf(v: &Vec<char>) -> (yes: bool)
    ensures
        yes == has_crlf(v@),
{
    let mut i: usize = 0;
    while i < v.len()
        invariant
            i <= v@.len(),
            forall|j: int| 0 <= j < i && j < v@.len() - 1 ==> !(#[trigger] v@[j] == '\r' && v@[j + 1] == '\n'),
        decreases v@.len() - i,
    {
        if v[i] == '\r' && i < v.len() - 1 && v[i + 1] == '\n' {
            return true;
        }
        i = i + 1;
    }
    false
}

/// Make every carriage return and line feed a line feed.
pub fn to_unix(v: &Vec<char>) -> (s: String)
    ensures
        s@ == unix(v@),
{
    let mut s: String = String::new();
    let mut i: usize = 0;
    let n = v.len();
    while i < n
        invariant
            n == v@.len(),
            i <= n,
            s@ == unix(v@.take(i as int)),
            !(0 < i < n && v@[i - 1] == '\r' && v@[i as int] == '\n'),
        decreases n - i,
    {
        if v[i] == '\r' && i < n - 1 && v[i + 1] == '\n' {
            proof {
                let u = v@.take(i + 2);
                assert(u.take(u.len() - 2) =~= v@.take(i as int));
            }
            s.push('\n');
            i = i + 2;
        } else {
            proof {
                let u = v@.take(i + 1);
                assert(u.drop_last() =~= v@.take(i as int));
            }
            s.push(v[i]);
            i = i + 1;
        }
    }
    assert(v@.take(i as int) =~= v@);
    s
}

/// Make every line feed a carriage return and a line feed.
pub fn to_dos(v: &Vec<char>) -> (s: String)
    ensures
        s@ == dos(v@),
{
    let mut s: String = String::new();
    let mut i: usize = 0;
    while i < v.len()
        invariant
            i <= v@.len(),
            s@ == dos(v@.take(i as int)),
        decreases v@.len() - i,
    {
        assert(v@.take(i + 1).drop_last() =~= v@.take(i as int));
        if v[i] == '\n' {
            s.push('\r');
            s.push('\n');
        } else {
            s.push(v[i]);
        }
        i = i + 1;
    }
    assert(v@.take(i as int) =~= v@);
    s
}

/// A small letter of ASCII stays one, and is as blank as the large one: not at
/// all.
pub proof fn lemma_ascii_lower(c: char)
    requires
        ascii(c),
    ensures
        ascii(ascii_lower(c)),
        ascii_lower(ascii_lower(c)) == ascii_lower(c),
        whitespace(ascii_lower(c)) == whitespace(c),
{
}

/// A text of ASCII in small letters stays as it is when it is put in small
/// letters again.
pub proof fn law_small_letters_stay_small(s: Seq<char>)
    requires
        all_ascii(s),
    ensures
        all_ascii(lowercased(s)),
        lowercased(lowercased(s)) == lowercased(s),
        lowercased(s).len() == s.len(),
{
    let low = lowercased(s);
    assert forall|i: int| 0 <= i < low.len() implies ascii(#[trigger] low[i]) && ascii_lower(low[i])
        == low[i] by {
        lemma_ascii_lower(s[i]);
    }
    assert(lowercased(low) =~= low);
}

} // verus!
