//! How much of the log is kept.
use vstd::prelude::*;

use crate::path::{join, joined};
use crate::strings::maybe_text;

verus! {

/// How big the file is allowed to get before the start of it is dropped.
pub const KEEP_UNDER: u64 = 4194304;

/// How much of the end is kept when that happens.
pub const KEEP: usize = 1048576;

/// Where the first line feed from `i` on is, or the end.
pub open spec fn line_feed(text: Seq<u8>, i: int) -> int
    decreases text.len() - i,
{
    if 0 <= i < text.len() && text[i] != 10 { line_feed(text, i + 1) } else { i }
}

/// What is kept of a log: all of it, or the end, cut at a line break so that
/// what is left starts with a whole line.
pub open spec fn kept(text: Seq<u8>) -> Seq<u8> {
    if text.len() <= KEEP_UNDER {
        text
    } else {
        let from = text.len() - KEEP;
        let at = line_feed(text, from);
        if at < text.len() { text.skip(at + 1) } else { text.skip(from) }
    }
}

/// Where what is kept of a log begins. None where all of it is kept.
pub fn trim(text: &Vec<u8>) -> (r: Option<usize>)
    ensures
        match r {
            Some(from) => text@.len() > KEEP_UNDER && from <= text@.len() && text@.skip(
                from as int,
            ) == kept(text@),
            None => text@.len() <= KEEP_UNDER && kept(text@) == text@,
        },
{
    if text.len() as u64 <= KEEP_UNDER {
        return None;
    }
    let from = text.len() - KEEP;
    let mut at: usize = from;
    while at < text.len() && text[at] != 10
        invariant
            from <= at <= text@.len(),
            line_feed(text@, from as int) == line_feed(text@, at as int),
        decreases text@.len() - at,
    {
        at = at + 1;
    }
    if at < text.len() {
        Some(at + 1)
    } else {
        Some(from)
    }
}

proof fn lemma_line_feed(text: Seq<u8>, i: int)
    requires
        0 <= i <= text.len(),
    ensures
        i <= line_feed(text, i) <= text.len(),
        line_feed(text, i) < text.len() ==> text[line_feed(text, i)] == 10,
    decreases text.len() - i,
{
    if i < text.len() && text[i] != 10 {
        lemma_line_feed(text, i + 1);
    }
}

/// A log that has grown too big keeps no more than its end, and starts with a
/// whole line wherever that end has a line break in it.
pub proof fn law_a_log_keeps_its_end(text: Seq<u8>)
    ensures
        kept(text).is_suffix_of(text),
        text.len() > KEEP_UNDER ==> kept(text).len() <= KEEP,
        text.len() > KEEP_UNDER && line_feed(text, text.len() - KEEP) < text.len() ==> text[text.len()
            - kept(text).len() - 1] == 10,
{
    if text.len() > KEEP_UNDER {
        lemma_line_feed(text, text.len() - KEEP);
    }
    assert(kept(text) =~= text.subrange(text.len() - kept(text).len(), text.len() as int));
}

/// The lines that something said comes to in the log, each with the time and
/// the name of whoever is saying it in front.
pub open spec fn stamped(now: Seq<char>, name: Seq<char>, ls: Seq<Seq<char>>) -> Seq<Seq<char>> {
    ls.map_values(|l: Seq<char>| now + " ["@ + name + "] "@ + l)
}

/// The lines to write for something said.
pub fn say(now: &str, name: &str, line: &str) -> (out: Vec<String>)
    ensures
        out@.map_values(|s: String| s@) == stamped(now@, name@, crate::split::lines_of(line@)),
{
    let ls = crate::split::split_lines(line);
    let ghost ds = crate::split::deep(ls@);
    let mut out: Vec<String> = Vec::new();
    let mut i: usize = 0;
    assert(out@.map_values(|s: String| s@) =~= stamped(now@, name@, ds).take(0));
    while i < ls.len()
        invariant
            i <= ls@.len(),
            ds == crate::split::deep(ls@),
            out@.map_values(|s: String| s@) == stamped(now@, name@, ds).take(i as int),
        decreases ls@.len() - i,
    {
        let mut s: String = now.to_owned();
        s.append(" [");
        s.append(name);
        s.append("] ");
        let said = crate::strings::text_of(&ls[i]);
        s.append(said.as_str());
        let ghost had = out@;
        let ghost one = s@;
        assert(ds[i as int] == ls@[i as int]@);
        assert(one == stamped(now@, name@, ds)[i as int]);
        out.push(s);
        assert(out@.map_values(|s: String| s@) =~= had.map_values(|s: String| s@).push(one));
        i = i + 1;
        assert(out@.map_values(|s: String| s@) =~= stamped(now@, name@, ds).take(i as int));
    }
    assert(stamped(now@, name@, ds).take(i as int) =~= stamped(now@, name@, ds));
    out
}

/// Where the log is: below the directory for state, or else for what may be
/// thrown away.
pub open spec fn log_place(state: Option<Seq<char>>, cache: Option<Seq<char>>) -> Option<Seq<char>> {
    match (state, cache) {
        (Some(d), _) => Some(joined(joined(d, "textfold"@), "textfold.log"@)),
        (None, Some(d)) => Some(joined(joined(d, "textfold"@), "textfold.log"@)),
        _ => None,
    }
}

/// Where the log is.
pub fn path(state: &Option<String>, cache: &Option<String>) -> (r: Option<String>)
    ensures
        maybe_text(r) == log_place(maybe_text(*state), maybe_text(*cache)),
{
    let dir = match (state, cache) {
        (Some(d), _) => d,
        (None, Some(d)) => d,
        _ => {
            return None;
        },
    };
    Some(join(join(dir.as_str(), "textfold").as_str(), "textfold.log"))
}

/// What is said when a session starts, which tells one run from the one before.
pub fn started(version: &str, date: &str, dir: &str) -> (s: String)
    ensures
        s@ == "---- textfold "@ + version@ + " started "@ + date@ + " in "@ + dir@ + " ----"@,
{
    let mut s = "---- textfold ".to_owned();
    s.append(version);
    s.append(" started ");
    s.append(date);
    s.append(" in ");
    s.append(dir);
    s.append(" ----");
    s
}

} // verus!
