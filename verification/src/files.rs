//! Documents and the files that they stand for.
use vstd::prelude::*;
use vstd::utf8::*;

use crate::chars::{chars_of, contains_crlf, has_crlf, to_unix};
use crate::doc::{closed, opened_text, DocId, Document, OnDisk, Stamp};
use crate::indent::{detect_indent, indentation, Indent};
use crate::lang::{detect, detected, get, LangId, Languages};
use crate::numbers::{decimal, parse_number, read_number, write_number};
use crate::path::{
    above, file_name, is_rooted, is_same, join, joined, last_name, names, names_of, parent, rooted,
    same_path,
};
use crate::split::deep;
use crate::strings::{maybe_text, piece, text_of};

verus! {

// ---------------------------------------------------------------------------
// Paths
// ---------------------------------------------------------------------------

/// A directory, and the first `n` names below it.
pub open spec fn names_below(base: Seq<char>, ns: Seq<Seq<char>>, n: int) -> Seq<char>
    decreases n,
{
    if n <= 0 { base } else { joined(names_below(base, ns, n - 1), ns[n - 1]) }
}

/// The names of a path without a dot at the front.
pub open spec fn plain_names(p: Seq<char>) -> Seq<Seq<char>> {
    let ns = names(p);
    if ns.len() > 0 && ns[0] == seq!['.'] { ns.skip(1) } else { ns }
}

/// Where a path begins, as an absolute one: at the root, which two slashes and
/// no more name otherwise than one, or in the directory that one is in.
pub open spec fn beginning(p: Seq<char>, here: Seq<char>) -> Seq<char> {
    if !rooted(p) {
        here
    } else if p.len() >= 2 && p[1] == '/' && !(p.len() >= 3 && p[2] == '/') {
        seq!['/', '/']
    } else {
        seq!['/']
    }
}

/// A path as an absolute one: from where one is, without dots that say nothing,
/// and with a slash at the end where it has one. No path, or a path from
/// nowhere, stays as it is.
pub open spec fn made_absolute(p: Seq<char>, here: Option<Seq<char>>) -> Seq<char> {
    if p.len() == 0 || (!rooted(p) && here is None) {
        p
    } else {
        let ns = plain_names(p);
        let whole = names_below(beginning(p, here->0), ns, ns.len() as int);
        if p.last() == '/' { joined(whole, Seq::empty()) } else { whole }
    }
}

/// A path as an absolute one, where `here` is the directory that one is in.
pub fn absolute(path: &str, here: &Option<String>) -> (s: String)
    ensures
        s@ == made_absolute(path@, maybe_text(*here)),
{
    let v = chars_of(path);
    if v.len() == 0 {
        return path.to_owned();
    }
    let begin: String = if is_rooted(path) {
        let two = v.len() >= 2 && v[1] == '/' && !(v.len() >= 3 && v[2] == '/');
        let mut s: String = String::new();
        s.push('/');
        if two {
            s.push('/');
            assert(s@ =~= seq!['/', '/']);
        } else {
            assert(s@ =~= seq!['/']);
        }
        s
    } else {
        match here {
            Some(here) => here.clone(),
            None => {
                return path.to_owned();
            },
        }
    };
    let ns = names_of(path);
    let ghost all = deep(ns@);
    assert(all.len() == ns@.len());
    let mut first: usize = 0;
    if ns.len() > 0 {
        assert(all[0] == ns@[0]@);
        if ns[0].len() == 1 && ns[0][0] == '.' {
            assert(all[0] =~= seq!['.']);
            first = 1;
        } else {
            assert(all[0] != seq!['.']) by {
                if all[0] == seq!['.'] {
                    assert(all[0].len() == 1 && all[0][0] == '.');
                }
            }
        }
    }
    let ghost plain = plain_names(path@);
    assert(plain =~= all.skip(first as int));
    let mut s = begin;
    let ghost base = s@;
    let mut n: usize = first;
    while n < ns.len()
        invariant
            first <= n <= ns@.len(),
            all == deep(ns@),
            plain == all.skip(first as int),
            s@ == names_below(base, plain, n - first),
        decreases ns@.len() - n,
    {
        assert(all[n as int] == ns@[n as int]@);
        assert(plain[n - first] == all[n as int]);
        s = join(s.as_str(), text_of(&ns[n]).as_str());
        n = n + 1;
    }
    if v[v.len() - 1] == '/' {
        let none: String = String::new();
        assert(none@ =~= Seq::<char>::empty());
        s = join(s.as_str(), none.as_str());
    }
    s
}

/// What a document is called that stands for a file.
pub open spec fn shown_name(path: Seq<char>) -> Seq<char> {
    match last_name(path) {
        Some(name) => name,
        None => path,
    }
}

fn name_of(path: &str) -> (s: String)
    ensures
        s@ == shown_name(path@),
{
    match file_name(path) {
        Some(name) => text_of(&name),
        None => path.to_owned(),
    }
}

/// Where a file is written before it takes the place of the one that it is to
/// be: beside it, hidden, and under the number of the process.
pub open spec fn beside(path: Seq<char>, process: u32) -> Seq<char> {
    let dir = match above(path) {
        Some(up) => up,
        None => "."@,
    };
    let name = match last_name(path) {
        Some(name) => name,
        None => "buffer"@,
    };
    joined(dir, "."@ + name + ".textfold-"@ + decimal(process as nat))
}

/// Where a file is written before it takes the place of the one that it is to
/// be.
pub fn temporary(path: &str, process: u32) -> (s: String)
    ensures
        s@ == beside(path@, process),
{
    let dir = match parent(path) {
        Some(up) => up,
        None => ".".to_owned(),
    };
    let mut name = ".".to_owned();
    match file_name(path) {
        Some(own) => {
            name.append(text_of(&own).as_str());
        },
        None => {
            name.append("buffer");
        },
    }
    name.append(".textfold-");
    write_number(&mut name, process as u64);
    join(dir.as_str(), name.as_str())
}

/// How often a file that does not sit still is read.
pub const READ_TRIES: usize = 3;

/// What a file looked like when it was read, where it looked the same before and
/// after. Otherwise what was read is not a whole file.
pub fn read_whole(before: Option<Stamp>, after: Option<Stamp>) -> (r: Option<Stamp>)
    ensures
        r == if before == after { after } else { None },
{
    match (before, after) {
        (Some(b), Some(a)) => if b == a {
            Some(a)
        } else {
            None
        },
        _ => None,
    }
}

/// What comes of reading a file once more.
#[derive(Clone, Copy, PartialEq, Eq, Debug, Structural)]
pub enum Attempt {
    /// It sat still: what was read is the whole file, under this stamp.
    Whole(Stamp),
    /// It moved, and is read again.
    Again,
    /// It moved each time, and is not read any more.
    Moving,
}

/// What comes of the reading of a file that makes it `tries` in all, from what
/// the file looked like before and after.
pub open spec fn attempt(tries: usize, before: Option<Stamp>, after: Option<Stamp>) -> Attempt {
    match after {
        Some(stamp) if before == after => Attempt::Whole(stamp),
        _ => if tries < READ_TRIES { Attempt::Again } else { Attempt::Moving },
    }
}

/// Whether what was read is a whole file, and else whether to read it again.
/// `tries` counts the readings, this one among them.
pub fn attempted(tries: usize, before: Option<Stamp>, after: Option<Stamp>) -> (r: Attempt)
    ensures
        r == attempt(tries, before, after),
{
    match read_whole(before, after) {
        Some(stamp) => Attempt::Whole(stamp),
        None => if tries < READ_TRIES {
            Attempt::Again
        } else {
            Attempt::Moving
        },
    }
}

// ---------------------------------------------------------------------------
// Documents
// ---------------------------------------------------------------------------

/// What was read for a document: the text, and what the file looked like, where
/// it sat still.
#[derive(Debug)]
pub struct Read {
    pub text: String,
    pub stamp: Option<Stamp>,
}

/// What `String::from_utf8_lossy` makes of bytes that are not UTF-8.
pub uninterp spec fn lossy_beyond(bytes: Seq<u8>) -> Seq<char>;

/// The text that bytes are, whatever they are.
pub open spec fn lossy(bytes: Seq<u8>) -> Seq<char> {
    if valid_utf8(bytes) { decode_utf8(bytes) } else { lossy_beyond(bytes) }
}

/// `String::from_utf8_lossy` depends on the bytes alone. Those that are UTF-8 are
/// the text that they encode.
#[verifier::external_body]
fn decoded(bytes: &Vec<u8>) -> (s: String)
    ensures
        valid_utf8(bytes@) ==> s@ == decode_utf8(bytes@),
        !valid_utf8(bytes@) ==> s@ == lossy_beyond(bytes@),
{
    String::from_utf8_lossy(bytes).into_owned()
}

impl Read {
    /// What was read, from the bytes that the file holds.
    pub fn of(bytes: &Vec<u8>, stamp: Option<Stamp>) -> (r: Read)
        ensures
            r.text@ == lossy(bytes@),
            r.stamp == stamp,
    {
        Read { text: decoded(bytes), stamp }
    }
}

/// The text of a file that may not be there.
pub open spec fn text_read(found: Option<Read>) -> Seq<char> {
    match found {
        Some(read) => read.text@,
        None => Seq::empty(),
    }
}

/// Whether a language has a grammar.
pub open spec fn coloured(languages: Languages, id: LangId) -> bool {
    let ts = languages@.langs;
    (if id.0 < ts.len() { ts[id.0 as int] } else { ts[0] }).grammar is Some
}

impl Document {
    /// A document for the file at an absolute path. One that is not there is
    /// empty, and is there once it is saved. `parsed` says whether a grammar got
    /// through the text, where its language has one.
    pub fn open(
        id: DocId,
        path: String,
        found: &Option<Read>,
        read_only: bool,
        fallback: Indent,
        languages: &Languages,
        parsed: bool,
        now: u64,
    ) -> (d: Document)
        requires
            languages.langs@.len() > 0,
        ensures
            d.id == id,
            d.path == Some(path),
            d.name@ == shown_name(path@),
            ({
                let raw = text_read(*found);
                let text = opened_text(raw);
                let stamp = match found {
                    Some(read) => read.stamp,
                    None => None,
                };
                let bare = Document {
                    coloured: false,
                    colours_off: None,
                    recolour: None,
                    ..d
                };
                &&& d.content() == text
                &&& d.crlf == has_crlf(raw)
                &&& d.had_final_newline == (text.len() == 0 || text.last() == '\n')
                &&& d.indent == match indentation(text) {
                    Some(indent) => indent,
                    None => fallback,
                }
                &&& d.language == detected(languages@.langs, path@, text)
                &&& !d.language_chosen
                &&& d.read_only == (found is Some && read_only)
                &&& d.stamp == stamp && d.seen == stamp && d.told == stamp
                &&& d.settled == stamp is Some
                &&& d.on_disk == OnDisk::Same
                &&& d.version == 0
                &&& d.origin is None && d.panel is None && d.hint is None
                &&& d.diagnostics@.len() == 0 && d.breakpoints@.len() == 0
                &&& d.done@.len() == 0 && d.undone@.len() == 0 && d.pending@.len() == 0
                &&& !d.unsaved()
                &&& d.recolour_tries == 0
                &&& d == bare.after_parse(false, coloured(*languages, d.language), parsed, now)
            }),
    {
        let raw: Vec<char> = match found {
            Some(read) => chars_of(read.text.as_str()),
            None => Vec::new(),
        };
        assert(raw@ =~= text_read(*found));
        let crlf = contains_crlf(&raw);
        let text: String = if crlf {
            to_unix(&raw)
        } else {
            text_of(&raw)
        };
        let stamp: Option<Stamp> = match found {
            Some(read) => read.stamp,
            None => None,
        };
        let name = name_of(path.as_str());
        let mut d = Document::scratch(id, name, fallback);
        d.rope = ropey::Rope::from_str(text.as_str());
        let v = chars_of(text.as_str());
        d.had_final_newline = v.len() == 0 || v[v.len() - 1] == '\n';
        d.crlf = crlf;
        d.indent = match detect_indent(&d.rope) {
            Some(indent) => indent,
            None => fallback,
        };
        d.language = detect(languages, path.as_str(), &d.rope);
        d.path = Some(path);
        d.read_only = found.is_some() && read_only;
        d.stamp = stamp;
        d.seen = stamp;
        d.told = stamp;
        d.settled = stamp.is_some();
        let has_grammar = get(languages, d.language).has_grammar();
        d.reparse(has_grammar, parsed, now);
        d
    }

    /// Take note that `text` has been written to `path`. A document that stood
    /// for another file, or for none, stands for this one. `here` is the
    /// directory that one is in.
    pub fn save_to(
        &mut self,
        text: &str,
        path: &str,
        here: &Option<String>,
        languages: &Languages,
        stamp: Option<Stamp>,
    )
        ensures
            ({
                let mid = Document {
                    done: final(self).done,
                    saved_at: final(self).saved_at,
                    ..*old(self)
                };
                let same = old(self).path is Some && same_path(old(self).path->0@, path@);
                let full = made_absolute(path@, maybe_text(*here));
                &&& final(self).saved_at == Some(old(self).done@.len() as usize)
                &&& closed(Document { saved_at: final(self).saved_at, ..*old(self) }, mid)
                &&& *final(self) == (Document {
                    had_final_newline: text@.len() == 0 || text@.last() == '\n',
                    path: final(self).path,
                    name: final(self).name,
                    language: final(self).language,
                    read_only: false,
                    stamp,
                    on_disk: OnDisk::Same,
                    ..mid
                })
                &&& if same {
                    &&& final(self).path == old(self).path
                    &&& final(self).name == old(self).name
                    &&& final(self).language == old(self).language
                } else {
                    &&& maybe_text(final(self).path) == Some(full)
                    &&& final(self).name@ == shown_name(full)
                    &&& final(self).language == detected(
                        languages@.langs,
                        full,
                        old(self).content(),
                    )
                }
            }),
            !final(self).unsaved(),
    {
        let chars = chars_of(text);
        self.had_final_newline = chars.len() == 0 || chars[chars.len() - 1] == '\n';
        self.saved_at = Some(self.done.len());
        self.close_revision();
        let same = match &self.path {
            Some(at) => is_same(at.as_str(), path),
            None => false,
        };
        if !same {
            let full = absolute(path, here);
            self.name = name_of(full.as_str());
            self.language = detect(languages, full.as_str(), &self.rope);
            self.path = Some(full);
        }
        self.read_only = false;
        self.stamp = stamp;
        self.on_disk = OnDisk::Same;
    }

    /// The file has been moved, and the document goes with it.
    pub fn rename_to(
        &mut self,
        path: &str,
        here: &Option<String>,
        languages: &Languages,
        stamp: Option<Stamp>,
    )
        ensures
            ({
                let full = made_absolute(path@, maybe_text(*here));
                &&& *final(self) == (Document {
                    path: final(self).path,
                    name: final(self).name,
                    language: detected(languages@.langs, full, old(self).content()),
                    stamp,
                    on_disk: OnDisk::Same,
                    ..*old(self)
                })
                &&& maybe_text(final(self).path) == Some(full)
                &&& final(self).name@ == shown_name(full)
            }),
    {
        let full = absolute(path, here);
        self.name = name_of(full.as_str());
        self.language = detect(languages, full.as_str(), &self.rope);
        self.stamp = stamp;
        self.on_disk = OnDisk::Same;
        self.path = Some(full);
    }

    /// Work out the language again, after what is known of languages has
    /// changed, and colour the text anew. What a person chose stays, and so does
    /// what has no file.
    pub fn redetect_language(&mut self, languages: &Languages, parsed: bool, now: u64)
        requires
            languages.langs@.len() > 0,
        ensures
            *final(self) == match old(self).path {
                Some(path) => if old(self).language_chosen {
                    *old(self)
                } else {
                    let language = detected(languages@.langs, path@, old(self).content());
                    (Document { language, recolour: None, recolour_tries: 0, ..*old(self) }).after_parse(
                        false,
                        coloured(*languages, language),
                        parsed,
                        now,
                    )
                },
                None => *old(self),
            },
    {
        if self.language_chosen {
            return;
        }
        let language = match &self.path {
            Some(path) => detect(languages, path.as_str(), &self.rope),
            None => {
                return;
            },
        };
        self.language = language;
        let has_grammar = get(languages, self.language).has_grammar();
        self.reparse(has_grammar, parsed, now);
    }
}

// ---------------------------------------------------------------------------
// A place in a file
// ---------------------------------------------------------------------------

/// What comes before the last colon, where there is one.
pub open spec fn before_colon(s: Seq<char>) -> Option<Seq<char>>
    decreases s.len(),
{
    if s.len() == 0 {
        None
    } else if s.last() == ':' {
        Some(s.drop_last())
    } else {
        before_colon(s.drop_last())
    }
}

/// What comes after the last colon, or all there is.
pub open spec fn after_colon(s: Seq<char>) -> Seq<char>
    decreases s.len(),
{
    if s.len() == 0 || s.last() == ':' {
        Seq::empty()
    } else {
        after_colon(s.drop_last()).push(s.last())
    }
}

/// A number that a person counts from one, counted from nought.
pub open spec fn from_nought(n: nat) -> usize {
    if n == 0 { 0 } else { (n - 1) as usize }
}

/// A name as a path and a place in it: `path:line:column`, `path:line`, or just
/// a path. One that is there as it is written is just a path.
pub open spec fn place_in(name: Seq<char>, is_there: bool) -> (Seq<char>, Option<(usize, usize)>) {
    let last = read_number(after_colon(name), usize::MAX as nat);
    match (is_there, before_colon(name), last) {
        (false, Some(front), Some(n)) => match before_colon(front) {
            Some(path) => match read_number(after_colon(front), usize::MAX as nat) {
                Some(line) => (path, Some((from_nought(line), from_nought(n)))),
                None => (name, None),
            },
            None => (front, Some((from_nought(n), 0usize))),
        },
        _ => (name, None),
    }
}

fn last_colon(v: &Vec<char>) -> (r: Option<usize>)
    ensures
        match before_colon(v@) {
            Some(front) => r is Some && r->0 < v@.len() && front == v@.take(r->0 as int)
                && after_colon(v@) == v@.skip(r->0 + 1),
            None => r is None && after_colon(v@) == v@,
        },
{
    let mut i: usize = v.len();
    assert(v@.take(i as int) =~= v@);
    assert(v@.skip(i as int) =~= Seq::<char>::empty());
    while i > 0
        invariant
            i <= v@.len(),
            before_colon(v@) == before_colon(v@.take(i as int)),
            after_colon(v@) == after_colon(v@.take(i as int)) + v@.skip(i as int),
        decreases i,
    {
        let ghost head = v@.take(i as int);
        assert(head.drop_last() =~= v@.take(i - 1));
        if v[i - 1] == ':' {
            assert(before_colon(head) == Some(head.drop_last()));
            assert(after_colon(v@) =~= v@.skip(i as int));
            return Some(i - 1);
        }
        assert(after_colon(head.drop_last()).push(v@[i - 1]) + v@.skip(i as int) =~= after_colon(
            head.drop_last(),
        ) + v@.skip(i - 1));
        i = i - 1;
    }
    assert(v@.take(0) =~= Seq::<char>::empty());
    assert(after_colon(v@) =~= v@);
    None
}

fn less_one(n: u64) -> (r: usize)
    requires
        n <= usize::MAX,
    ensures
        r == from_nought(n as nat),
{
    if n == 0 {
        0
    } else {
        (n - 1) as usize
    }
}

/// What a compiler prints, as a path and a place in it. `is_there` is whether
/// there is a file of that whole name.
pub fn split_place(name: &str, is_there: bool) -> (r: (String, Option<(usize, usize)>))
    ensures
        (r.0@, r.1) == place_in(name@, is_there),
{
    if is_there {
        return (name.to_owned(), None);
    }
    let v = chars_of(name);
    let len = v.len();
    if let Some(at) = last_colon(&v) {
        let tail = piece(&v, at + 1, len);
        assert(tail@ =~= v@.skip(at + 1));
        let front = piece(&v, 0, at);
        assert(front@ =~= v@.take(at as int));
        if let Some(n) = parse_number(&tail, usize::MAX as u64) {
            return match last_colon(&front) {
                Some(mid) => {
                    let middle = piece(&front, mid + 1, front.len());
                    assert(middle@ =~= front@.skip(mid + 1));
                    match parse_number(&middle, usize::MAX as u64) {
                        Some(line) => {
                            let path = piece(&front, 0, mid);
                            assert(path@ =~= front@.take(mid as int));
                            (text_of(&path), Some((less_one(line), less_one(n))))
                        },
                        None => (name.to_owned(), None),
                    }
                },
                None => (text_of(&front), Some((less_one(n), 0))),
            };
        }
    }
    (name.to_owned(), None)
}

// ---------------------------------------------------------------------------
// Places that are read
// ---------------------------------------------------------------------------

proof fn lemma_no_colon(n: nat)
    ensures
        forall|i: int| 0 <= i < decimal(n).len() ==> #[trigger] decimal(n)[i] != ':',
    decreases n,
{
    if n >= 10 {
        lemma_no_colon(n / 10);
        let (less, all) = (decimal(n / 10), decimal(n));
        assert forall|i: int| 0 <= i < all.len() implies #[trigger] all[i] != ':' by {
            if i < less.len() {
                assert(all[i] == less[i]);
            }
        }
    }
}

proof fn lemma_last_colon(p: Seq<char>, s: Seq<char>)
    requires
        forall|i: int| 0 <= i < s.len() ==> #[trigger] s[i] != ':',
    ensures
        before_colon(p.push(':') + s) == Some(p),
        after_colon(p.push(':') + s) == s,
    decreases s.len(),
{
    let all = p.push(':') + s;
    if s.len() == 0 {
        assert(all =~= p.push(':'));
        assert(all.drop_last() =~= p);
        assert(after_colon(all) =~= s);
    } else {
        let less = s.drop_last();
        assert forall|i: int| 0 <= i < less.len() implies #[trigger] less[i] != ':' by {
            assert(less[i] == s[i]);
        }
        lemma_last_colon(p, less);
        assert(all.drop_last() =~= p.push(':') + less);
        assert(all.last() == s[s.len() - 1]);
        assert(after_colon(all) =~= s);
    }
}

/// A path with a line and a column behind it, counted from one, is that path and that
/// place, counted from nought. One with a line alone is the beginning of that line,
/// where the path has no colon in it. A name that is there as it is written is just a
/// path.
pub proof fn law_a_place_reads_back(path: Seq<char>, line: usize, column: usize)
    requires
        line < usize::MAX,
        column < usize::MAX,
    ensures
        ({
            let at = path.push(':') + decimal((line + 1) as nat);
            let place = at.push(':') + decimal((column + 1) as nat);
            &&& place_in(place, false) == (path, Some((line, column)))
            &&& !path.contains(':') ==> place_in(at, false) == (path, Some((line, 0usize)))
            &&& place_in(place, true) == (place, None::<(usize, usize)>)
        }),
{
    let (l, c) = ((line + 1) as nat, (column + 1) as nat);
    let at = path.push(':') + decimal(l);
    lemma_no_colon(l);
    lemma_no_colon(c);
    lemma_last_colon(path, decimal(l));
    lemma_last_colon(at, decimal(c));
    crate::numbers::law_a_number_reads_back(l, usize::MAX as nat);
    crate::numbers::law_a_number_reads_back(c, usize::MAX as nat);
    if !path.contains(':') {
        lemma_none_before(path);
    }
}

proof fn lemma_none_before(s: Seq<char>)
    requires
        !s.contains(':'),
    ensures
        before_colon(s) is None,
    decreases s.len(),
{
    if s.len() > 0 {
        assert(s[s.len() - 1] != ':');
        assert forall|i: int| 0 <= i < s.drop_last().len() implies s.drop_last()[i] != ':' by {
            assert(s.drop_last()[i] == s[i]);
        }
        lemma_none_before(s.drop_last());
    }
}

} // verus!
