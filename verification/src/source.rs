//! What a program is called by the files that make it: the class a source
//! file declares, the package a manifest names, and the address somebody
//! writes down.
use vstd::prelude::*;

use crate::chars::{alphanumeric, chars_of, whitespace};
use crate::numbers::{parse_number, read_number};
use crate::path::{last_name, stem, stem_of};
use crate::split::{copy_line, cut, cut_at, deep, lemma_cut_some, lines_of, split_lines};
use crate::strings::{
    find_last, halves, last_of, piece, reads, split_once, strip, stripped, text_of, trim, trimmed,
};

verus! {

// ---------------------------------------------------------------------------
// The class that a file declares
// ---------------------------------------------------------------------------

/// Where in a source file one is.
#[derive(Clone, Copy, PartialEq, Eq, Structural, Debug)]
pub enum Inside {
    Code,
    /// A comment that ends with a star and a slash.
    Block,
    /// A comment that ends with its line.
    Line,
}

/// A source text from `i` on without its comments. Line feeds are kept.
pub open spec fn uncommented(s: Seq<char>, i: int, inside: Inside) -> Seq<char>
    decreases s.len() - i,
{
    if i < 0 || i >= s.len() {
        Seq::empty()
    } else {
        let c = s[i];
        let next = |d: char| i + 1 < s.len() && s[i + 1] == d;
        match inside {
            Inside::Block => if c == '*' && next('/') {
                uncommented(s, i + 2, Inside::Code)
            } else if c == '\n' {
                seq![c] + uncommented(s, i + 1, Inside::Block)
            } else {
                uncommented(s, i + 1, Inside::Block)
            },
            Inside::Line => if c == '\n' {
                seq![c] + uncommented(s, i + 1, Inside::Code)
            } else {
                uncommented(s, i + 1, Inside::Line)
            },
            Inside::Code => if c == '/' && next('*') {
                uncommented(s, i + 2, Inside::Block)
            } else if c == '/' && next('/') {
                uncommented(s, i + 2, Inside::Line)
            } else {
                seq![c] + uncommented(s, i + 1, Inside::Code)
            },
        }
    }
}

/// A source text without its comments.
pub fn without_comments(v: &Vec<char>) -> (code: Vec<char>)
    ensures
        code@ == uncommented(v@, 0, Inside::Code),
{
    let len = v.len();
    let mut code: Vec<char> = Vec::new();
    let mut inside = Inside::Code;
    let mut i: usize = 0;
    let ghost all = uncommented(v@, 0, Inside::Code);
    assert(code@ + all =~= all);
    while i < len
        invariant
            len == v@.len(),
            i <= len,
            code@ + uncommented(v@, i as int, inside) == all,
        decreases len - i,
    {
        let c = v[i];
        let ghost had = code@;
        let ghost was = inside;
        let ghost start = i as int;
        let slash = i + 1 < len && v[i + 1] == '/';
        let star = i + 1 < len && v[i + 1] == '*';
        match inside {
            Inside::Block => {
                if c == '*' && slash {
                    inside = Inside::Code;
                    i = i + 2;
                } else {
                    if c == '\n' {
                        code.push(c);
                    }
                    i = i + 1;
                }
            },
            Inside::Line => {
                if c == '\n' {
                    code.push(c);
                    inside = Inside::Code;
                }
                i = i + 1;
            },
            Inside::Code => {
                if c == '/' && star {
                    inside = Inside::Block;
                    i = i + 2;
                } else if c == '/' && slash {
                    inside = Inside::Line;
                    i = i + 2;
                } else {
                    code.push(c);
                    i = i + 1;
                }
            },
        }
        assert(code@ + uncommented(v@, i as int, inside) =~= had + uncommented(v@, start, was));
    }
    assert(code@ =~= code@ + uncommented(v@, i as int, inside));
    code
}

/// Whether a character can stand in the name of a package.
pub open spec fn names_package(c: char) -> bool {
    alphanumeric(c) || c == '.' || c == '_' || c == '$'
}

/// The name on the `package` line of a source text, which is its first
/// statement if it has one.
pub open spec fn declared_package(text: Seq<char>) -> Option<Seq<char>> {
    let first = trimmed(cut(cut(uncommented(text, 0, Inside::Code), '{')[0], ';')[0]);
    match stripped(first, "package"@) {
        Some(rest) => {
            let name = trimmed(rest);
            if rest.len() > 0 && whitespace(rest[0]) && name.len() > 0 && (forall|i: int|
                0 <= i < name.len() ==> names_package(#[trigger] name[i])) {
                Some(name)
            } else {
                None
            }
        },
        None => None,
    }
}

/// The name on the `package` line, if there is one.
pub fn package_of(text: &str) -> (r: Option<String>)
    ensures
        match declared_package(text@) {
            Some(name) => r is Some && r->0@ == name,
            None => r is None,
        },
{
    let v = chars_of(text);
    let code = without_comments(&v);
    let before = cut_at(&code, '{');
    proof {
        lemma_cut_some(code@, '{');
        assert(deep(before@).len() == before@.len());
        assert(deep(before@)[0] == before@[0]@);
    }
    let statements = cut_at(&before[0], ';');
    proof {
        lemma_cut_some(before@[0]@, ';');
        assert(deep(statements@).len() == statements@.len());
        assert(deep(statements@)[0] == statements@[0]@);
    }
    let first = trim(&statements[0]);
    match strip(&first, "package") {
        Some(rest) => {
            if rest.len() == 0 || !rest[0].is_whitespace() {
                return None;
            }
            let name = trim(&rest);
            if name.len() == 0 {
                return None;
            }
            let mut i: usize = 0;
            while i < name.len()
                invariant
                    i <= name@.len(),
                    declared_package(text@) == (if forall|k: int|
                        0 <= k < name@.len() ==> names_package(#[trigger] name@[k]) {
                        Some(name@)
                    } else {
                        None
                    }),
                    forall|k: int| 0 <= k < i ==> names_package(#[trigger] name@[k]),
                decreases name@.len() - i,
            {
                let c = name[i];
                if !(c.is_alphanumeric() || c == '.' || c == '_' || c == '$') {
                    assert(!names_package(name@[i as int]));
                    return None;
                }
                i = i + 1;
            }
            Some(text_of(&name))
        },
        None => None,
    }
}

/// The class that a file declares: its name, behind the package it is in.
pub open spec fn class_of(file: Seq<char>, text: Seq<char>) -> Option<Seq<char>> {
    match last_name(file) {
        Some(name) => match declared_package(text) {
            Some(package) => Some(package.push('.') + stem_of(name)),
            None => Some(stem_of(name)),
        },
        None => None,
    }
}

/// The class a file declares, qualified by the package it is in.
pub fn declared_class(file: &str, text: &str) -> (r: Option<String>)
    ensures
        match class_of(file@, text@) {
            Some(name) => r is Some && r->0@ == name,
            None => r is None,
        },
{
    match stem(file) {
        Some(base) => match package_of(text) {
            Some(package) => {
                let mut name: String = package;
                name.push('.');
                let rest = text_of(&base);
                name.append(rest.as_str());
                Some(name)
            },
            None => Some(text_of(&base)),
        },
        None => None,
    }
}

// ---------------------------------------------------------------------------
// The package that a manifest names
// ---------------------------------------------------------------------------

/// Whether a character is a quotation mark.
pub open spec fn quotes(c: char) -> bool {
    c == '"' || c == '\''
}

/// Where the first quotation mark from `i` on is, or the end.
pub open spec fn quote_place(s: Seq<char>, i: int) -> int
    decreases s.len() - i,
{
    if 0 <= i < s.len() && !quotes(s[i]) { quote_place(s, i + 1) } else { i }
}

/// What stands between quotation marks at the front of a text.
pub open spec fn between_quotes(s: Seq<char>) -> Option<Seq<char>> {
    if s.len() > 0 && quotes(s[0]) {
        let end = quote_place(s, 1);
        if 1 < end < s.len() { Some(s.subrange(1, end)) } else { None }
    } else {
        None
    }
}

/// The name that a manifest gives the package, from the `i`th of its lines
/// on, with whether that line is in the part about the package.
pub open spec fn named_package(ls: Seq<Seq<char>>, i: int, inside: bool) -> Option<Seq<char>>
    decreases ls.len() - i,
{
    if i < 0 || i >= ls.len() {
        None
    } else {
        let line = trimmed(ls[i]);
        if line.len() > 0 && line[0] == '[' {
            named_package(ls, i + 1, line == "[package]"@)
        } else {
            match halves(line, '=') {
                Some(p) => if inside && trimmed(p.0) == "name"@ {
                    between_quotes(trimmed(p.1))
                } else {
                    named_package(ls, i + 1, inside)
                },
                None => named_package(ls, i + 1, inside),
            }
        }
    }
}

fn quoted_name(v: &Vec<char>) -> (r: Option<String>)
    ensures
        match between_quotes(v@) {
            Some(s) => r is Some && r->0@ == s,
            None => r is None,
        },
{
    let len = v.len();
    if len == 0 || !(v[0] == '"' || v[0] == '\'') {
        return None;
    }
    let mut end: usize = 1;
    while end < len && !(v[end] == '"' || v[end] == '\'')
        invariant
            1 <= end <= len == v@.len(),
            quote_place(v@, 1) == quote_place(v@, end as int),
        decreases len - end,
    {
        end = end + 1;
    }
    if end > 1 && end < len {
        let name = piece(v, 1, end);
        Some(text_of(&name))
    } else {
        None
    }
}

/// The package name in a `Cargo.toml`, which is what the binary it builds is
/// called. A manifest without a part about the package has none.
pub fn package_name(text: &str) -> (r: Option<String>)
    ensures
        match named_package(lines_of(text@), 0, false) {
            Some(name) => r is Some && r->0@ == name,
            None => r is None,
        },
{
    let ls = split_lines(text);
    let ghost all = deep(ls@);
    let mut inside = false;
    let mut i: usize = 0;
    while i < ls.len()
        invariant
            i <= ls@.len(),
            all == deep(ls@),
            all == lines_of(text@),
            named_package(all, 0, false) == named_package(all, i as int, inside),
        decreases ls@.len() - i,
    {
        assert(all[i as int] == ls@[i as int]@);
        let line = trim(&ls[i]);
        if line.len() > 0 && line[0] == '[' {
            inside = reads(&line, "[package]");
        } else if inside {
            if let Some((key, value)) = split_once(&line, '=') {
                let key = trim(&key);
                if reads(&key, "name") {
                    let value = trim(&value);
                    return quoted_name(&value);
                }
            }
        }
        i = i + 1;
    }
    None
}

// ---------------------------------------------------------------------------
// An address
// ---------------------------------------------------------------------------

/// Whether a character is a square bracket.
pub open spec fn bracket(c: char) -> bool {
    c == '[' || c == ']'
}

/// A text without the square brackets at either end.
pub open spec fn unbracketed(s: Seq<char>) -> Seq<char>
    decreases s.len(),
{
    if s.len() > 0 && bracket(s[0]) {
        unbracketed(s.skip(1))
    } else if s.len() > 0 && bracket(s.last()) {
        unbracketed(s.drop_last())
    } else {
        s
    }
}

/// The host and the port that an address names: a port alone is one on this
/// machine.
pub open spec fn address(said: Seq<char>) -> Option<(Seq<char>, nat)> {
    let s = trimmed(said);
    let (host, port) = match last_of(s, ':') {
        Some(i) => (unbracketed(trimmed(s.take(i))), s.skip(i + 1)),
        None => ("127.0.0.1"@, s),
    };
    if s.len() == 0 {
        None
    } else {
        match read_number(trimmed(port), u16::MAX as nat) {
            Some(n) => Some((if host.len() == 0 { "127.0.0.1"@ } else { host }, n)),
            None => None,
        }
    }
}

fn unbracket(v: &Vec<char>) -> (r: Vec<char>)
    ensures
        r@ == unbracketed(v@),
{
    let mut lo: usize = 0;
    let mut hi: usize = v.len();
    assert(v@.subrange(0, hi as int) =~= v@);
    while lo < hi && (v[lo] == '[' || v[lo] == ']')
        invariant
            lo <= hi == v@.len(),
            unbracketed(v@) == unbracketed(v@.subrange(lo as int, hi as int)),
        decreases hi - lo,
    {
        assert(v@.subrange(lo as int, hi as int).skip(1) =~= v@.subrange(lo + 1, hi as int));
        lo = lo + 1;
    }
    while lo < hi && (v[hi - 1] == '[' || v[hi - 1] == ']')
        invariant
            lo <= hi <= v@.len(),
            lo < hi ==> !bracket(v@[lo as int]),
            unbracketed(v@) == unbracketed(v@.subrange(lo as int, hi as int)),
        decreases hi - lo,
    {
        assert(v@.subrange(lo as int, hi as int).drop_last() =~= v@.subrange(lo as int, hi - 1));
        hi = hi - 1;
    }
    piece(v, lo, hi)
}

/// An address as somebody writes one, as a host and a port. A host without a
/// port is not one.
pub fn read_address(said: &str) -> (r: Option<(String, u16)>)
    ensures
        match address(said@) {
            Some(a) => r is Some && (r->0).0@ == a.0 && (r->0).1 == a.1,
            None => r is None,
        },
{
    let v = chars_of(said);
    let s = trim(&v);
    let len = s.len();
    if len == 0 {
        return None;
    }
    let (host, port): (Vec<char>, Vec<char>) = match find_last(&s, ':') {
        Some(i) => {
            assert(s@.take(i as int) =~= s@.subrange(0, i as int));
            assert(s@.skip(i + 1) =~= s@.subrange(i + 1, len as int));
            (unbracket(&trim(&piece(&s, 0, i))), piece(&s, i + 1, len))
        },
        None => (chars_of("127.0.0.1"), copy_line(&s)),
    };
    match parse_number(&trim(&port), u16::MAX as u64) {
        Some(n) => {
            let name = if host.len() == 0 { "127.0.0.1".to_owned() } else { text_of(&host) };
            Some((name, n as u16))
        },
        None => None,
    }
}

} // verus!
