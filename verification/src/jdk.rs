//! Which Java to run a server with, and which Javas a project can be built
//! against.
use vstd::prelude::*;

use crate::chars::{chars_of, same};
use crate::json::{add_field, add_item, each, fields, list, object, string, Json, Value};
use crate::numbers::{decimal, digit_worth, parse_number, read_number, worth, write_number};
use crate::path::{
    above, file_name_on, is_before, is_same, join, joined, last_name_on, parent, path_before,
    place_below, put_below, same_path,
};
use crate::split::{deep, lines_of, split_lines};
use crate::strings::{maybe_text, piece, strip, stripped, text_of, texts, trim, trimmed};

verus! {

/// The oldest JDK that can run the server.
pub const RUNS_THE_SERVER: u32 = 17;

/// One JDK on this machine.
#[derive(Debug, PartialEq, Eq)]
pub struct Jdk {
    /// The top of it: the directory with `bin/java` in it.
    pub home: String,
    /// The number people say out loud, so that `1.8.0_392` is 8.
    pub version: u32,
    /// Whether it can compile as well as run.
    pub compiles: bool,
}

/// What Eclipse calls a version.
pub open spec fn environment_name(version: u32) -> Seq<char> {
    if version <= 8 {
        "JavaSE-1."@ + decimal(if version < 1 { 1 } else { version as nat })
    } else {
        "JavaSE-"@ + decimal(version as nat)
    }
}

/// What a program is called.
pub open spec fn program(name: Seq<char>, windows: bool) -> Seq<char> {
    if windows { name + ".exe"@ } else { name }
}

/// `java.exe` where that is what it is called.
pub fn exe(name: &str, windows: bool) -> (s: String)
    ensures
        s@ == program(name@, windows),
{
    let mut s: String = name.to_owned();
    if windows {
        s.append(".exe");
    }
    s
}

/// Where the `java` of a JDK is.
pub open spec fn java_in(home: Seq<char>, windows: bool) -> Seq<char> {
    put_below(put_below(home, "bin"@, windows), program("java"@, windows), windows)
}

impl Jdk {
    /// What Eclipse calls this version: `JavaSE-1.8` for 8, and `JavaSE-21`
    /// for everything since 9.
    pub fn execution_environment(&self) -> (s: String)
        ensures
            s@ == environment_name(self.version),
    {
        if self.version <= 8 {
            let mut s: String = "JavaSE-1.".to_owned();
            write_number(&mut s, if self.version < 1 { 1 } else { self.version as u64 });
            s
        } else {
            let mut s: String = "JavaSE-".to_owned();
            write_number(&mut s, self.version as u64);
            s
        }
    }

    /// The program itself.
    pub fn java(&self, windows: bool) -> (s: String)
        ensures
            s@ == java_in(self.home@, windows),
    {
        let bin = place_below(self.home.as_str(), "bin", windows);
        let name = exe("java", windows);
        place_below(bin.as_str(), name.as_str(), windows)
    }
}

// ---------------------------------------------------------------------------
// Versions
// ---------------------------------------------------------------------------

/// Where the digits that begin at `i` end.
pub open spec fn digits_end(s: Seq<char>, i: int) -> int
    decreases s.len() - i,
{
    if 0 <= i < s.len() && worth(s[i]) is Some { digits_end(s, i + 1) } else { i }
}

/// The numbers in a text from `i` on: each stretch of digits that is not too
/// great to be one.
pub open spec fn numbers_in(s: Seq<char>, i: int) -> Seq<nat>
    decreases s.len() - i,
    via numbers_in_ends
{
    if i < 0 || i >= s.len() {
        Seq::empty()
    } else if worth(s[i]) is Some {
        let end = digits_end(s, i);
        let rest = numbers_in(s, end);
        match read_number(s.subrange(i, end), u32::MAX as nat) {
            Some(n) => seq![n] + rest,
            None => rest,
        }
    } else {
        numbers_in(s, i + 1)
    }
}

#[via_fn]
proof fn numbers_in_ends(s: Seq<char>, i: int) {
    if 0 <= i < s.len() && worth(s[i]) is Some {
        lemma_digits_end(s, i + 1);
    }
}

proof fn lemma_digits_end(s: Seq<char>, i: int)
    requires
        0 <= i <= s.len(),
    ensures
        i <= digits_end(s, i) <= s.len(),
    decreases s.len() - i,
{
    if i < s.len() && worth(s[i]) is Some {
        lemma_digits_end(s, i + 1);
    }
}

/// The version that a text is talking about: the first number in it, or the
/// second where the first is one.
pub open spec fn version_in(s: Seq<char>) -> Option<nat> {
    let ns = numbers_in(s, 0);
    if ns.len() == 0 {
        None
    } else if ns[0] == 1 {
        if ns.len() > 1 { Some(ns[1]) } else { None }
    } else {
        Some(ns[0])
    }
}

/// The version a string like `21.0.5`, `1.8.0_392`, `java-17-openjdk` or
/// `temurin-21.jdk` is talking about.
pub fn number_in(text: &str) -> (r: Option<u32>)
    ensures
        match version_in(text@) {
            Some(n) => r == Some(n as u32) && n <= u32::MAX,
            None => r is None,
        },
{
    let v = chars_of(text);
    let len = v.len();
    let mut first: Option<u32> = None;
    let mut i: usize = 0;
    let ghost all = numbers_in(v@, 0);
    while i < len
        invariant
            i <= len == v@.len(),
            v@ == text@,
            all == numbers_in(v@, 0),
            match first {
                Some(n) => n == 1 && all == seq![1nat] + numbers_in(v@, i as int),
                None => all == numbers_in(v@, i as int),
            },
        decreases len - i,
    {
        if digit_worth(v[i]).is_some() {
            let start = i;
            let mut end: usize = i + 1;
            while end < len && digit_worth(v[end]).is_some()
                invariant
                    start < end <= len == v@.len(),
                    digits_end(v@, start as int) == digits_end(v@, end as int),
                decreases len - end,
            {
                end = end + 1;
            }
            let one = piece(&v, start, end);
            let ghost rest = numbers_in(v@, end as int);
            assert(digits_end(v@, start as int) == end);
            let read = parse_number(&one, u32::MAX as u64);
            match read {
                Some(n) => {
                    let n = n as u32;
                    match first {
                        Some(_) => {
                            assert(all == seq![1nat] + (seq![n as nat] + rest));
                            assert(all[1] == n);
                            return Some(n);
                        },
                        None => {
                            if n != 1 {
                                assert(all[0] == n);
                                return Some(n);
                            }
                            first = Some(1);
                        },
                    }
                },
                None => {},
            }
            i = end;
        } else {
            i = i + 1;
        }
    }
    assert(numbers_in(v@, i as int) =~= Seq::<nat>::empty());
    None
}

/// A text without the double quotes at either end.
pub open spec fn unquoted(s: Seq<char>) -> Seq<char>
    decreases s.len(),
{
    if s.len() > 0 && s[0] == '"' {
        unquoted(s.skip(1))
    } else if s.len() > 0 && s.last() == '"' {
        unquoted(s.drop_last())
    } else {
        s
    }
}

fn unquote(v: &Vec<char>) -> (r: Vec<char>)
    ensures
        r@ == unquoted(v@),
{
    let mut lo: usize = 0;
    let mut hi: usize = v.len();
    assert(v@.subrange(0, hi as int) =~= v@);
    while lo < hi && v[lo] == '"'
        invariant
            lo <= hi == v@.len(),
            unquoted(v@) == unquoted(v@.subrange(lo as int, hi as int)),
        decreases hi - lo,
    {
        assert(v@.subrange(lo as int, hi as int).skip(1) =~= v@.subrange(lo + 1, hi as int));
        lo = lo + 1;
    }
    while lo < hi && v[hi - 1] == '"'
        invariant
            lo <= hi <= v@.len(),
            lo < hi ==> v@[lo as int] != '"',
            unquoted(v@) == unquoted(v@.subrange(lo as int, hi as int)),
        decreases hi - lo,
    {
        assert(v@.subrange(lo as int, hi as int).drop_last() =~= v@.subrange(lo as int, hi - 1));
        hi = hi - 1;
    }
    piece(v, lo, hi)
}

/// What the first line of a `release` file that says so says the version is.
pub open spec fn released(ls: Seq<Seq<char>>, i: int) -> Option<Seq<char>>
    decreases ls.len() - i,
{
    if i < 0 || i >= ls.len() {
        None
    } else {
        match stripped(trimmed(ls[i]), "JAVA_VERSION="@) {
            Some(rest) => Some(rest),
            None => released(ls, i + 1),
        }
    }
}

/// Which Java a directory holds: by the `release` file at the top of it, and
/// else by its own name.
pub open spec fn version_at(
    home: Seq<char>,
    release: Option<Seq<char>>,
    windows: bool,
) -> Option<nat> {
    let said = match release {
        Some(text) => match released(lines_of(text), 0) {
            Some(rest) => version_in(unquoted(trimmed(rest))),
            None => None,
        },
        None => None,
    };
    match said {
        Some(n) => Some(n),
        None => match last_name_on(home, windows) {
            Some(name) => version_in(name),
            None => None,
        },
    }
}

/// Which Java a directory holds.
pub fn version_of(home: &str, release: &Option<String>, windows: bool) -> (r: Option<u32>)
    ensures
        match version_at(home@, maybe_text(*release), windows) {
            Some(n) => r == Some(n as u32) && n <= u32::MAX,
            None => r is None,
        },
{
    if let Some(text) = release {
        let ls = split_lines(text.as_str());
        let ghost all = deep(ls@);
        let mut i: usize = 0;
        while i < ls.len()
            invariant_except_break
                released(all, 0) == released(all, i as int),
            invariant
                i <= ls@.len(),
                all == deep(ls@),
                all == lines_of(text@),
                *release == Some(*text),
            ensures
                match released(all, 0) {
                    Some(rest) => version_in(unquoted(trimmed(rest))) is None,
                    None => true,
                },
            decreases ls@.len() - i,
        {
            assert(all[i as int] == ls@[i as int]@);
            let line = trim(&ls[i]);
            if let Some(rest) = strip(&line, "JAVA_VERSION=") {
                let bare = unquote(&trim(&rest));
                let said = text_of(&bare);
                match number_in(said.as_str()) {
                    Some(n) => {
                        return Some(n);
                    },
                    None => {
                        break;
                    },
                }
            }
            i = i + 1;
        }
    }
    match file_name_on(home, windows) {
        Some(name) => {
            let said = text_of(&name);
            number_in(said.as_str())
        },
        None => None,
    }
}

// ---------------------------------------------------------------------------
// Looking
// ---------------------------------------------------------------------------

/// A directory that may be a JDK, followed to where it really is.
#[derive(Debug)]
pub struct Candidate {
    pub home: String,
    /// Whether it has the program.
    pub runs: bool,
    /// Whether it has the compiler.
    pub compiles: bool,
    /// What its `release` file says.
    pub release: Option<String>,
    /// Whether its path is one of a Windows machine.
    pub windows: bool,
}

/// The Java that a directory holds, as it is kept.
pub ghost struct Found {
    pub home: Seq<char>,
    pub version: nat,
    pub compiles: bool,
}

/// What is kept of a JDK.
pub open spec fn found_in(j: Jdk) -> Found {
    Found { home: j.home@, version: j.version as nat, compiles: j.compiles }
}

/// What is kept of JDKs.
pub open spec fn found(js: Seq<Jdk>) -> Seq<Found> {
    js.map_values(|j: Jdk| found_in(j))
}

/// A directory read as a JDK, if it is one.
pub open spec fn reads_as(c: Candidate) -> Option<Found> {
    if c.runs {
        match version_at(c.home@, maybe_text(c.release), c.windows) {
            Some(version) => Some(Found { home: c.home@, version, compiles: c.compiles }),
            None => None,
        }
    } else {
        None
    }
}

/// Read one directory as a JDK, or none if it is not one.
pub fn read(c: &Candidate) -> (r: Option<Jdk>)
    ensures
        match reads_as(*c) {
            Some(f) => r is Some && found_in(r->0) == f,
            None => r is None,
        },
{
    if !c.runs {
        return None;
    }
    match version_of(c.home.as_str(), &c.release, c.windows) {
        Some(version) => Some(Jdk { home: c.home.clone(), version, compiles: c.compiles }),
        None => None,
    }
}

/// Whether one JDK is offered before another: newest first, and one that
/// compiles before one that does not.
pub open spec fn offered_before(a: Found, b: Found) -> bool {
    if a.version != b.version {
        a.version > b.version
    } else if a.compiles != b.compiles {
        a.compiles
    } else {
        path_before(a.home, b.home)
    }
}

/// JDKs with one more, behind all those that it is not offered before.
pub open spec fn ranked_with(js: Seq<Found>, j: Found) -> Seq<Found>
    decreases js.len(),
{
    if js.len() > 0 && offered_before(j, js.last()) {
        ranked_with(js.drop_last(), j).push(js.last())
    } else {
        js.push(j)
    }
}

/// Whether one of the JDKs is in a place.
pub open spec fn is_known(js: Seq<Found>, home: Seq<char>) -> bool {
    exists|i: int| 0 <= i < js.len() && same_path((#[trigger] js[i]).home, home)
}

/// The JDKs among directories, the first found in each place, newest first.
pub open spec fn looked(cs: Seq<Candidate>) -> Seq<Found>
    decreases cs.len(),
{
    if cs.len() == 0 {
        Seq::empty()
    } else {
        let less = looked(cs.drop_last());
        match reads_as(cs.last()) {
            Some(f) => if is_known(less, f.home) { less } else { ranked_with(less, f) },
            None => less,
        }
    }
}

fn comes_first(a: &Jdk, b: &Jdk) -> (yes: bool)
    ensures
        yes == offered_before(found_in(*a), found_in(*b)),
{
    if a.version != b.version {
        a.version > b.version
    } else if a.compiles != b.compiles {
        a.compiles
    } else {
        is_before(a.home.as_str(), b.home.as_str())
    }
}

proof fn lemma_ranked_at(js: Seq<Found>, j: Found, n: int)
    requires
        0 <= n <= js.len(),
        n > 0 ==> !offered_before(j, js[n - 1]),
        forall|i: int| n <= i < js.len() ==> offered_before(j, #[trigger] js[i]),
    ensures
        ranked_with(js, j) == js.insert(n, j),
    decreases js.len(),
{
    if n < js.len() {
        assert(offered_before(j, js[js.len() - 1]));
        assert forall|i: int| n <= i < js.len() - 1 implies offered_before(
            j,
            #[trigger] js.drop_last()[i],
        ) by {
            assert(js.drop_last()[i] == js[i]);
        }
        lemma_ranked_at(js.drop_last(), j, n);
        assert(ranked_with(js, j) =~= js.insert(n, j));
    } else {
        assert(js.push(j) =~= js.insert(n, j));
    }
}

/// The JDKs among directories, newest first.
pub fn look(cs: &Vec<Candidate>) -> (js: Vec<Jdk>)
    ensures
        found(js@) == looked(cs@),
{
    let mut js: Vec<Jdk> = Vec::new();
    let mut n: usize = 0;
    assert(found(js@) =~= looked(cs@.take(0)));
    while n < cs.len()
        invariant
            n <= cs@.len(),
            found(js@) == looked(cs@.take(n as int)),
        decreases cs@.len() - n,
    {
        assert(cs@.take(n + 1).drop_last() =~= cs@.take(n as int));
        if let Some(jdk) = read(&cs[n]) {
            let ghost had = js@;
            let ghost f = found_in(jdk);
            let mut known = false;
            let mut i: usize = 0;
            while i < js.len()
                invariant
                    i <= js@.len(),
                    js@ == had,
                    f == found_in(jdk),
                    known == exists|k: int|
                        0 <= k < i && same_path((#[trigger] found(had)[k]).home, f.home),
                decreases js@.len() - i,
            {
                assert(found(had)[i as int] == found_in(js@[i as int]));
                if is_same(js[i].home.as_str(), jdk.home.as_str()) {
                    known = true;
                }
                i = i + 1;
            }
            if !known {
                let mut at: usize = js.len();
                while at > 0
                    invariant_except_break
                        forall|i: int|
                            at <= i < js@.len() ==> offered_before(f, #[trigger] found(had)[i]),
                    invariant
                        at <= js@.len(),
                        js@ == had,
                        f == found_in(jdk),
                    ensures
                        at <= js@.len(),
                        forall|i: int|
                            at <= i < js@.len() ==> offered_before(f, #[trigger] found(had)[i]),
                        at > 0 ==> !offered_before(f, found(had)[at - 1]),
                    decreases at,
                {
                    assert(found(had)[at - 1] == found_in(js@[at - 1]));
                    if !comes_first(&jdk, &js[at - 1]) {
                        break;
                    }
                    at = at - 1;
                }
                proof {
                    lemma_ranked_at(found(had), f, at as int);
                }
                js.insert(at, jdk);
                assert(found(js@) =~= found(had).insert(at as int, f));
            }
        }
        n = n + 1;
    }
    assert(cs@.take(n as int) =~= cs@);
    js
}

// ---------------------------------------------------------------------------
// What is kept
// ---------------------------------------------------------------------------

/// What settings said, and what was found.
#[derive(Debug)]
pub struct Javas {
    pub said: Option<String>,
    /// Every JDK found, newest first, once somebody has looked.
    pub found: Option<Vec<Jdk>>,
}

/// `~/…` the way a person writes it in a settings file.
pub open spec fn expanded(path: Seq<char>, home: Option<Seq<char>>) -> Seq<char> {
    match (stripped(path, "~/"@), home) {
        (Some(rest), Some(home)) => joined(home, rest),
        _ => path,
    }
}

/// What a setting says, where it says something.
pub open spec fn setting(said: Option<Seq<char>>, home: Option<Seq<char>>) -> Option<Seq<char>> {
    match said {
        Some(text) => if trimmed(text).len() == 0 {
            None
        } else {
            Some(expanded(trimmed(text), home))
        },
        None => None,
    }
}

/// `~/…` the way a person writes it in a settings file, below the home
/// directory where there is one.
pub fn expand(path: &str, home: &Option<String>) -> (r: String)
    ensures
        r@ == expanded(path@, maybe_text(*home)),
{
    let v = chars_of(path);
    match (strip(&v, "~/"), home) {
        (Some(rest), Some(home)) => {
            let below = text_of(&rest);
            join(home.as_str(), below.as_str())
        },
        _ => path.to_owned(),
    }
}

/// Take note of the setting that says where Java is. What has been found is
/// thrown away where the setting has changed.
pub fn configure(javas: &mut Javas, home: Option<&str>, home_dir: &Option<String>)
    ensures
        ({
            let now = setting(
                match home {
                    Some(h) => Some(h@),
                    None => None,
                },
                maybe_text(*home_dir),
            );
            let same = match (maybe_text(old(javas).said), now) {
                (Some(a), Some(b)) => same_path(a, b),
                (None, None) => true,
                _ => false,
            };
            if same {
                *final(javas) == *old(javas)
            } else {
                maybe_text(final(javas).said) == now && final(javas).found is None
            }
        }),
{
    let now: Option<String> = match home {
        Some(h) => {
            let v = chars_of(h);
            let t = trim(&v);
            if t.len() == 0 {
                None
            } else {
                let said = text_of(&t);
                Some(expand(said.as_str(), home_dir))
            }
        },
        None => None,
    };
    let same = match (&javas.said, &now) {
        (Some(a), Some(b)) => is_same(a.as_str(), b.as_str()),
        (None, None) => true,
        _ => false,
    };
    if same {
        return;
    }
    javas.said = now;
    javas.found = None;
}

/// Every JDK on this machine, newest first: what was found when somebody last
/// looked, or else what there is among the directories to look in.
pub fn all<'a>(javas: &'a mut Javas, cs: &Vec<Candidate>) -> (r: &'a Vec<Jdk>)
    ensures
        match old(javas).found {
            Some(js) => r@ == js@,
            None => found(r@) == looked(cs@),
        },
        final(javas).said == old(javas).said,
        final(javas).found == Some(*r),
{
    if javas.found.is_none() {
        javas.found = Some(look(cs));
    }
    javas.found.as_ref().unwrap()
}

/// The first JDK of at least a version from `i` on.
pub open spec fn new_enough(js: Seq<Found>, least: nat, i: int) -> Option<Found>
    decreases js.len() - i,
{
    if i < 0 || i >= js.len() {
        None
    } else if js[i].version >= least {
        Some(js[i])
    } else {
        new_enough(js, least, i + 1)
    }
}

/// The JDK in a place, the first from `i` on.
pub open spec fn in_place(js: Seq<Found>, home: Seq<char>, i: int) -> Option<Found>
    decreases js.len() - i,
{
    if i < 0 || i >= js.len() {
        None
    } else if same_path(js[i].home, home) {
        Some(js[i])
    } else {
        in_place(js, home, i + 1)
    }
}

/// The JDK that the settings name, where one was found there that is of at least
/// a version.
pub open spec fn named_outright(
    js: Seq<Found>,
    said: Option<Seq<char>>,
    least: nat,
) -> Option<Found> {
    match said {
        Some(home) => match in_place(js, home, 0) {
            Some(f) => if f.version >= least { Some(f) } else { None },
            None => None,
        },
        None => None,
    }
}

/// The JDK for a program that needs at least a version. Of those that are new
/// enough it is the one that the settings name, or else the first. Where none is,
/// it is the first there is.
pub open spec fn best_for(js: Seq<Found>, said: Option<Seq<char>>, least: nat) -> Option<Found> {
    match named_outright(js, said, least) {
        Some(f) => Some(f),
        None => match new_enough(js, least, 0) {
            Some(f) => Some(f),
            None => if js.len() > 0 { Some(js[0]) } else { None },
        },
    }
}

fn find_place<'a>(js: &'a Vec<Jdk>, home: &str) -> (r: Option<&'a Jdk>)
    ensures
        match in_place(found(js@), home@, 0) {
            Some(f) => r is Some && found_in(*r->0) == f,
            None => r is None,
        },
{
    let ghost fs = found(js@);
    let mut i: usize = 0;
    while i < js.len()
        invariant
            i <= js@.len(),
            fs == found(js@),
            in_place(fs, home@, 0) == in_place(fs, home@, i as int),
        decreases js@.len() - i,
    {
        assert(fs[i as int] == found_in(js@[i as int]));
        if is_same(js[i].home.as_str(), home) {
            return Some(&js[i]);
        }
        i = i + 1;
    }
    None
}

/// The JDK to run a program that needs at least `least`. One that the settings
/// name wins over any other that would do, however new that is. One that is too
/// old to run the program is passed over all the same: a program started under it
/// would not start. Where nothing is new enough it is the newest there is, and
/// Java says what it wanted. `said` is where the directory that the settings name
/// really is.
pub fn newest<'a>(js: &'a Vec<Jdk>, said: &Option<String>, least: u32) -> (r: Option<&'a Jdk>)
    ensures
        match best_for(found(js@), maybe_text(*said), least as nat) {
            Some(f) => r is Some && found_in(*r->0) == f,
            None => r is None,
        },
{
    let ghost fs = found(js@);
    if let Some(home) = said {
        if let Some(jdk) = find_place(js, home.as_str()) {
            if jdk.version >= least {
                return Some(jdk);
            }
        }
    }
    let mut i: usize = 0;
    while i < js.len()
        invariant
            i <= js@.len(),
            fs == found(js@),
            named_outright(fs, maybe_text(*said), least as nat) is None,
            new_enough(fs, least as nat, 0) == new_enough(fs, least as nat, i as int),
        decreases js@.len() - i,
    {
        assert(fs[i as int] == found_in(js@[i as int]));
        if js[i].version >= least {
            return Some(&js[i]);
        }
        i = i + 1;
    }
    if js.len() > 0 {
        assert(fs[0] == found_in(js@[0]));
        Some(&js[0])
    } else {
        None
    }
}

/// What a placeholder stands for, where it is one about Java that has an
/// answer.
pub open spec fn answer(
    js: Seq<Found>,
    said: Option<Seq<char>>,
    name: Seq<char>,
    windows: bool,
) -> Option<Seq<char>> {
    let best = best_for(js, said, RUNS_THE_SERVER as nat);
    if name == "java_home"@ {
        match best {
            Some(f) => Some(f.home),
            None => None,
        }
    } else if name == "java"@ {
        match best {
            Some(f) => Some(java_in(f.home, windows)),
            None => None,
        }
    } else {
        None
    }
}

/// What a placeholder in a manifest means, where it is one about Java. None
/// for a name that is not known, and for one that is and has no answer.
pub fn var(js: &Vec<Jdk>, said: &Option<String>, name: &str, windows: bool) -> (r: Option<String>)
    ensures
        match answer(found(js@), maybe_text(*said), name@, windows) {
            Some(s) => r is Some && r->0@ == s,
            None => r is None,
        },
{
    if same(name, "java_home") {
        match newest(js, said, RUNS_THE_SERVER) {
            Some(jdk) => Some(jdk.home.clone()),
            None => None,
        }
    } else if same(name, "java") {
        match newest(js, said, RUNS_THE_SERVER) {
            Some(jdk) => Some(jdk.java(windows)),
            None => None,
        }
    } else {
        None
    }
}

/// Whether one of the runtimes has a name.
pub open spec fn is_named(rs: Seq<Value>, name: Seq<char>) -> bool {
    exists|i: int|
        0 <= i < rs.len() && crate::json::field(#[trigger] rs[i], "name"@) == Some(Value::Text(name))
}

/// One runtime.
pub open spec fn runtime(f: Found, first: bool) -> Value {
    Value::Object(
        seq![
            ("name"@, Value::Text(environment_name(f.version as u32))),
            ("path"@, Value::Text(f.home)),
            ("default"@, Value::Bool(first)),
        ],
    )
}

/// The runtimes among the first `n` JDKs: those that compile, one of each
/// version, with the first as what is taken where nothing is said.
pub open spec fn runtimes_of(js: Seq<Found>, n: int) -> Seq<Value>
    decreases n,
{
    if n <= 0 {
        Seq::empty()
    } else {
        let less = runtimes_of(js, n - 1);
        let f = js[n - 1];
        if !f.compiles || is_named(less, environment_name(f.version as u32)) {
            less
        } else {
            less.push(runtime(f, less.len() == 0))
        }
    }
}

fn has_name(rs: &Vec<Json>, name: &str) -> (yes: bool)
    ensures
        yes == is_named(each(rs@), name@),
{
    let mut i: usize = 0;
    while i < rs.len()
        invariant
            i <= rs@.len(),
            forall|k: int|
                0 <= k < i ==> crate::json::field(#[trigger] each(rs@)[k], "name"@) != Some(
                    Value::Text(name@),
                ),
        decreases rs@.len() - i,
    {
        assert(each(rs@)[i as int] == rs@[i as int]@);
        let field = rs[i].get("name");
        match crate::json::as_str(field) {
            Some(s) => {
                if same(s, name) {
                    return true;
                }
            },
            None => {},
        }
        i = i + 1;
    }
    false
}

/// The JDKs, in the shape that the server's `java.configuration.runtimes` is
/// written in. None where there are none, so that the setting disappears.
pub fn runtimes(js: &Vec<Jdk>) -> (r: Option<Json>)
    ensures
        ({
            let rs = runtimes_of(found(js@), js@.len() as int);
            match r {
                Some(j) => rs.len() > 0 && j@ == Value::List(rs),
                None => rs.len() == 0,
            }
        }),
{
    let ghost fs = found(js@);
    let mut out: Vec<Json> = Vec::new();
    let mut n: usize = 0;
    assert(each(out@) =~= runtimes_of(fs, 0));
    while n < js.len()
        invariant
            n <= js@.len(),
            fs == found(js@),
            each(out@) == runtimes_of(fs, n as int),
        decreases js@.len() - n,
    {
        assert(fs[n as int] == found_in(js@[n as int]));
        assert(each(out@).len() == out@.len());
        let jdk = &js[n];
        let name = jdk.execution_environment();
        if jdk.compiles && !has_name(&out, name.as_str()) {
            let mut fields: Vec<(String, Json)> = Vec::new();
            add_field(&mut fields, "name", string(name.as_str()));
            add_field(&mut fields, "path", string(jdk.home.as_str()));
            add_field(&mut fields, "default", Json::Bool(out.len() == 0));
            let one = object(fields);
            assert(one@ == runtime(fs[n as int], out@.len() == 0)) by {
                assert(one@->Object_0 =~= runtime(fs[n as int], out@.len() == 0)->Object_0);
            }
            add_item(&mut out, one);
        }
        n = n + 1;
    }
    assert(each(out@).len() == out@.len());
    if out.len() == 0 {
        None
    } else {
        Some(list(out))
    }
}

/// What a placeholder means whose answer is not a string.
pub fn value(js: &Vec<Jdk>, name: &str) -> (r: Option<Json>)
    ensures
        ({
            let rs = runtimes_of(found(js@), js@.len() as int);
            match r {
                Some(j) => name@ == "java_runtimes"@ && rs.len() > 0 && j@ == Value::List(rs),
                None => name@ != "java_runtimes"@ || rs.len() == 0,
            }
        }),
{
    if same(name, "java_runtimes") {
        runtimes(js)
    } else {
        None
    }
}

// ---------------------------------------------------------------------------
// Where to look
// ---------------------------------------------------------------------------

/// What kind of machine it is.
#[derive(Clone, Copy, PartialEq, Eq, Structural, Debug)]
pub enum System {
    Mac,
    Windows,
    Unix,
}

/// The directories where Java is put on a kind of machine, below no home.
pub open spec fn usual_dirs(system: System) -> Seq<Seq<char>> {
    match system {
        System::Mac => seq!["/Library/Java/JavaVirtualMachines"@],
        System::Windows => seq![
            "C:\\Program Files\\Java"@,
            "C:\\Program Files\\Eclipse Adoptium"@,
        ],
        System::Unix => seq!["/usr/lib/jvm"@, "/usr/java"@, "/opt/java"@, "/opt/jdk"@],
    }
}

/// The directories where Java is put below a home, by those who keep more than
/// one of it.
pub open spec fn home_dirs() -> Seq<Seq<char>> {
    seq![
        ".sdkman/candidates/java"@,
        ".asdf/installs/java"@,
        ".jenv/versions"@,
        ".jabba/jdk"@,
        ".jdks"@,
        "Library/Java/JavaVirtualMachines"@,
    ]
}

/// Paths below a directory.
pub open spec fn all_below(home: Seq<char>, ds: Seq<Seq<char>>, windows: bool) -> Seq<Seq<char>> {
    ds.map_values(|d: Seq<char>| put_below(home, d, windows))
}

/// The directories to look for Java in.
pub open spec fn dirs_searched(system: System, home: Option<Seq<char>>) -> Seq<Seq<char>> {
    let usual = match (system, home) {
        (System::Mac, Some(h)) => usual_dirs(system).push(
            joined(h, "Library/Java/JavaVirtualMachines"@),
        ),
        _ => usual_dirs(system),
    };
    match home {
        Some(h) => usual + all_below(h, home_dirs(), system == System::Windows),
        None => usual,
    }
}

/// The directories to look for Java in, on a kind of machine.
pub fn searched(system: System, home: &Option<String>) -> (v: Vec<String>)
    ensures
        texts(v@) == dirs_searched(system, maybe_text(*home)),
{
    let mut v: Vec<String> = Vec::new();
    match system {
        System::Mac => {
            v.push("/Library/Java/JavaVirtualMachines".to_owned());
        },
        System::Windows => {
            v.push("C:\\Program Files\\Java".to_owned());
            v.push("C:\\Program Files\\Eclipse Adoptium".to_owned());
        },
        System::Unix => {
            v.push("/usr/lib/jvm".to_owned());
            v.push("/usr/java".to_owned());
            v.push("/opt/java".to_owned());
            v.push("/opt/jdk".to_owned());
        },
    }
    assert(texts(v@) =~= usual_dirs(system));
    let windows = system == System::Windows;
    if let Some(h) = home {
        if system == System::Mac {
            v.push(join(h.as_str(), "Library/Java/JavaVirtualMachines"));
            assert(texts(v@) =~= usual_dirs(system).push(
                joined(h@, "Library/Java/JavaVirtualMachines"@),
            ));
        }
        let ghost had = texts(v@);
        v.push(place_below(h.as_str(), ".sdkman/candidates/java", windows));
        v.push(place_below(h.as_str(), ".asdf/installs/java", windows));
        v.push(place_below(h.as_str(), ".jenv/versions", windows));
        v.push(place_below(h.as_str(), ".jabba/jdk", windows));
        v.push(place_below(h.as_str(), ".jdks", windows));
        v.push(place_below(h.as_str(), "Library/Java/JavaVirtualMachines", windows));
        assert(texts(v@) =~= had + all_below(h@, home_dirs(), windows));
    }
    v
}

/// The first of the directories from `i` on in which a program is a file.
pub open spec fn first_file(
    dirs: Seq<Seq<char>>,
    command: Seq<char>,
    windows: bool,
    is_file: Seq<bool>,
    i: int,
) -> Option<Seq<char>>
    decreases dirs.len() - i,
{
    if i < 0 || i >= dirs.len() {
        None
    } else if is_file[i] {
        Some(put_below(dirs[i], program(command, windows), windows))
    } else {
        first_file(dirs, command, windows, is_file, i + 1)
    }
}

/// Where a program is, by its name, along the directories that programs are looked
/// for in.
/// `is_file` says of each whether the program is a file in it.
pub fn which(command: &str, dirs: &Vec<String>, windows: bool, is_file: &Vec<bool>) -> (r: Option<
    String,
>)
    requires
        is_file@.len() == dirs@.len(),
    ensures
        maybe_text(r) == first_file(texts(dirs@), command@, windows, is_file@, 0),
{
    let ghost ds = texts(dirs@);
    let mut i: usize = 0;
    while i < dirs.len()
        invariant
            i <= dirs@.len() == is_file@.len(),
            ds == texts(dirs@),
            first_file(ds, command@, windows, is_file@, 0) == first_file(
                ds,
                command@,
                windows,
                is_file@,
                i as int,
            ),
        decreases dirs@.len() - i,
    {
        assert(ds[i as int] == dirs@[i as int]@);
        if is_file[i] {
            return Some(place_below(dirs[i].as_str(), exe(command, windows).as_str(), windows));
        }
        i = i + 1;
    }
    None
}

/// Directories with the first `n` of those that lie where Java is put, and where
/// it is put inside them on a Mac.
pub open spec fn with_lying(ds: Seq<Seq<char>>, lying: Seq<Seq<char>>, n: int) -> Seq<Seq<char>>
    decreases n,
{
    if n <= 0 {
        ds
    } else {
        with_lying(ds, lying, n - 1).push(lying[n - 1]).push(
            joined(joined(lying[n - 1], "Contents"@), "Home"@),
        )
    }
}

/// The directories that may hold Java, in the order in which they are tried: what
/// somebody said, what the environment says, what lies where it is put, and where
/// the program is.
pub open spec fn dirs_tried(
    said: Option<Seq<char>>,
    java_home: Option<Seq<char>>,
    lying: Seq<Seq<char>>,
    java: Option<Seq<char>>,
) -> Seq<Seq<char>> {
    let first = match said {
        Some(d) => seq![d],
        None => Seq::empty(),
    };
    let second = match java_home {
        Some(d) => if d.len() > 0 { first.push(d) } else { first },
        None => first,
    };
    let third = with_lying(second, lying, lying.len() as int);
    let up = match java {
        Some(p) => above(p),
        None => None,
    };
    match up {
        Some(bin) => match above(bin) {
            Some(home) => third.push(home),
            None => third,
        },
        None => third,
    }
}

/// The directories that may hold Java, in the order in which they are tried.
/// `java` is where the program really is that is run by that name.
pub fn tried(
    said: &Option<String>,
    java_home: &Option<String>,
    lying: &Vec<String>,
    java: &Option<String>,
) -> (v: Vec<String>)
    ensures
        texts(v@) == dirs_tried(
            maybe_text(*said),
            maybe_text(*java_home),
            texts(lying@),
            maybe_text(*java),
        ),
{
    let mut v: Vec<String> = Vec::new();
    assert(texts(v@) =~= Seq::<Seq<char>>::empty());
    if let Some(d) = said {
        v.push(d.clone());
        assert(texts(v@) =~= seq![d@]);
    }
    if let Some(d) = java_home {
        if chars_of(d.as_str()).len() > 0 {
            let ghost had = v@;
            v.push(d.clone());
            assert(texts(v@) =~= texts(had).push(d@));
        }
    }
    let ghost base = texts(v@);
    let ghost ls = texts(lying@);
    let mut n: usize = 0;
    while n < lying.len()
        invariant
            n <= lying@.len(),
            ls == texts(lying@),
            texts(v@) == with_lying(base, ls, n as int),
        decreases lying@.len() - n,
    {
        assert(ls[n as int] == lying@[n as int]@);
        let ghost had = v@;
        v.push(lying[n].clone());
        let inside = join(join(lying[n].as_str(), "Contents").as_str(), "Home");
        let ghost is = inside@;
        v.push(inside);
        assert(texts(v@) =~= texts(had).push(ls[n as int]).push(is));
        n = n + 1;
    }
    if let Some(p) = java {
        if let Some(bin) = parent(p.as_str()) {
            if let Some(home) = parent(bin.as_str()) {
                let ghost had = v@;
                let ghost is = home@;
                v.push(home);
                assert(texts(v@) =~= texts(had).push(is));
            }
        }
    }
    v
}
/// Whether one JDK may come before another: a newer one, or one of the same
/// version that compiles no less.
pub open spec fn no_worse(a: Found, b: Found) -> bool {
    a.version > b.version || (a.version == b.version && (b.compiles ==> a.compiles))
}

proof fn lemma_ranked_with(js: Seq<Found>, j: Found)
    requires
        forall|i: int, k: int|
            0 <= i < k < js.len() ==> no_worse(#[trigger] js[i], #[trigger] js[k]),
    ensures
        ({
            let r = ranked_with(js, j);
            &&& r.len() == js.len() + 1
            &&& forall|i: int, k: int|
                0 <= i < k < r.len() ==> no_worse(#[trigger] r[i], #[trigger] r[k])
            &&& forall|i: int| 0 <= i < r.len() ==> #[trigger] r[i] == j || js.contains(r[i])
        }),
    decreases js.len(),
{
    let r = ranked_with(js, j);
    if js.len() > 0 && offered_before(j, js.last()) {
        let less = js.drop_last();
        assert forall|i: int, k: int| 0 <= i < k < less.len() implies no_worse(
            #[trigger] less[i],
            #[trigger] less[k],
        ) by {
            assert(no_worse(js[i], js[k]));
        }
        lemma_ranked_with(less, j);
        let rest = ranked_with(less, j);
        assert forall|i: int| 0 <= i < r.len() implies #[trigger] r[i] == j || js.contains(r[i]) by {
            if i < rest.len() {
                assert(r[i] == rest[i]);
                if rest[i] != j {
                    let m = choose|m: int| 0 <= m < less.len() && less[m] == rest[i];
                    assert(js[m] == rest[i]);
                }
            } else {
                assert(js[js.len() - 1] == r[i]);
            }
        }
        assert forall|i: int, k: int| 0 <= i < k < r.len() implies no_worse(
            #[trigger] r[i],
            #[trigger] r[k],
        ) by {
            if k < rest.len() {
                assert(r[i] == rest[i] && r[k] == rest[k]);
            } else {
                assert(r[i] == rest[i]);
                if rest[i] != j {
                    let m = choose|m: int| 0 <= m < less.len() && less[m] == rest[i];
                    assert(no_worse(js[m], js[js.len() - 1]));
                }
            }
        }
    } else {
        assert forall|i: int| 0 <= i < r.len() implies #[trigger] r[i] == j || js.contains(r[i]) by {
            if i < js.len() {
                assert(js[i] == r[i]);
            }
        }
        assert forall|i: int, k: int| 0 <= i < k < r.len() implies no_worse(
            #[trigger] r[i],
            #[trigger] r[k],
        ) by {
            if k < js.len() {
                assert(no_worse(js[i], js[k]));
            } else if i < js.len() - 1 {
                assert(no_worse(js[i], js[js.len() - 1]));
            }
        }
    }
}

/// What is found is offered newest first, and one that compiles before one of
/// the same version that only runs.
pub proof fn law_the_newest_comes_first(cs: Seq<Candidate>)
    ensures
        forall|i: int, k: int|
            0 <= i < k < looked(cs).len() ==> no_worse(
                #[trigger] looked(cs)[i],
                #[trigger] looked(cs)[k],
            ),
    decreases cs.len(),
{
    if cs.len() > 0 {
        law_the_newest_comes_first(cs.drop_last());
        match reads_as(cs.last()) {
            Some(j) => {
                lemma_ranked_with(looked(cs.drop_last()), j);
            },
            None => {},
        }
    }
}

// ---------------------------------------------------------------------------
// What holds of what was found
// ---------------------------------------------------------------------------

/// Whether no two JDKs are in one place.
pub open spec fn homes_differ(js: Seq<Found>) -> bool {
    forall|i: int, k: int|
        0 <= i < k < js.len() ==> !same_path((#[trigger] js[i]).home, (#[trigger] js[k]).home)
}

proof fn lemma_ranked_is_insertion(js: Seq<Found>, j: Found)
    ensures
        exists|n: int| 0 <= n <= js.len() && ranked_with(js, j) == #[trigger] js.insert(n, j),
    decreases js.len(),
{
    if js.len() > 0 && offered_before(j, js.last()) {
        let less = js.drop_last();
        lemma_ranked_is_insertion(less, j);
        let n = choose|n: int|
            0 <= n <= less.len() && ranked_with(less, j) == #[trigger] less.insert(n, j);
        assert(ranked_with(js, j) =~= js.insert(n, j));
    } else {
        assert(ranked_with(js, j) =~= js.insert(js.len() as int, j));
    }
}

/// No two JDKs that were found are in one place.
pub proof fn law_no_home_comes_twice(cs: Seq<Candidate>)
    ensures
        homes_differ(looked(cs)),
    decreases cs.len(),
{
    if cs.len() > 0 {
        let less = looked(cs.drop_last());
        law_no_home_comes_twice(cs.drop_last());
        if let Some(f) = reads_as(cs.last()) {
            if !is_known(less, f.home) {
                lemma_ranked_is_insertion(less, f);
                let n = choose|n: int|
                    0 <= n <= less.len() && ranked_with(less, f) == #[trigger] less.insert(n, f);
                let js = less.insert(n, f);
                assert forall|i: int, k: int| 0 <= i < k < js.len() implies !same_path(
                    (#[trigger] js[i]).home,
                    (#[trigger] js[k]).home,
                ) by {
                    let a = if i < n { i } else { i - 1 };
                    let b = if k < n { k } else { k - 1 };
                    if i == n {
                        assert(!same_path(less[b].home, f.home));
                    } else if k == n {
                        assert(!same_path(less[a].home, f.home));
                    } else {
                        assert(!same_path(less[a].home, less[b].home));
                    }
                }
            }
        }
    }
}

/// Every directory that is a JDK is found, under its home or one that is the
/// same place.
pub proof fn law_every_jdk_is_found(cs: Seq<Candidate>, i: int)
    requires
        0 <= i < cs.len(),
        reads_as(cs[i]) is Some,
    ensures
        is_known(looked(cs), (reads_as(cs[i])->0).home),
    decreases cs.len(),
{
    let less = looked(cs.drop_last());
    let home = (reads_as(cs[i])->0).home;
    if i < cs.len() - 1 {
        law_every_jdk_is_found(cs.drop_last(), i);
    }
    if let Some(f) = reads_as(cs.last()) {
        if !is_known(less, f.home) {
            lemma_ranked_is_insertion(less, f);
            let n = choose|n: int|
                0 <= n <= less.len() && ranked_with(less, f) == #[trigger] less.insert(n, f);
            let js = less.insert(n, f);
            if i < cs.len() - 1 {
                let k = choose|k: int|
                    0 <= k < less.len() && same_path((#[trigger] less[k]).home, home);
                assert(js[if k < n { k } else { k + 1 }] == less[k]);
            } else {
                assert(js[n] == f);
            }
        }
    }
}

proof fn lemma_in_place(js: Seq<Found>, home: Seq<char>, from: int, i: int)
    requires
        homes_differ(js),
        0 <= from <= i < js.len(),
        same_path(js[i].home, home),
    ensures
        in_place(js, home, from) == Some(js[i]),
    decreases i - from,
{
    if same_path(js[from].home, home) {
        assert(from == i || !same_path(js[from].home, js[i].home));
    } else {
        lemma_in_place(js, home, from + 1, i);
    }
}

/// The JDK that the settings name wins over anything found by looking, whatever
/// else there is and however new, as long as it can run the program.
pub proof fn law_what_the_settings_name_wins(
    js: Seq<Found>,
    home: Seq<char>,
    least: nat,
    i: int,
)
    requires
        homes_differ(js),
        0 <= i < js.len(),
        same_path(js[i].home, home),
        js[i].version >= least,
    ensures
        best_for(js, Some(home), least) == Some(js[i]),
{
    lemma_in_place(js, home, 0, i);
}

proof fn lemma_new_enough(js: Seq<Found>, least: nat, i: int)
    requires
        0 <= i <= js.len(),
    ensures
        new_enough(js, least, i) is Some ==> (new_enough(js, least, i)->0).version >= least,
        new_enough(js, least, i) is None ==> forall|k: int|
            i <= k < js.len() ==> (#[trigger] js[k]).version < least,
    decreases js.len() - i,
{
    if i < js.len() && js[i].version < least {
        lemma_new_enough(js, least, i + 1);
    }
}

/// Where any JDK is new enough for a program, the one that is chosen is, whatever
/// the settings name.
pub proof fn law_what_is_chosen_is_new_enough(
    js: Seq<Found>,
    said: Option<Seq<char>>,
    least: nat,
    i: int,
)
    requires
        0 <= i < js.len(),
        js[i].version >= least,
    ensures
        best_for(js, said, least) is Some,
        (best_for(js, said, least)->0).version >= least,
{
    lemma_new_enough(js, least, 0);
}

} // verus!
