//! What git knows about the file you are looking at: which branch you are on,
//! and which lines you have touched since the last commit.
use std::collections::HashMap;
use vstd::prelude::*;

use crate::align::{
    climbs, law_lined_up_lines_say_the_same, law_lining_up_leaves_nothing, left_over, line_up, lined_up,
    Stretch,
};
use crate::chars::{chars_of, string_of, to_unix, unix, utf8_width};
use crate::doc::{DocId, Document};
use crate::lines::whole;
use crate::path::{is_in, join, joined, lies_in, names, names_of};
use crate::split::{deep, lines_of, split_lines};
use crate::strings::{
    find_last, last_of, maybe_text, string_up, strip, stripped, strung, text_of, texts, trim, trimmed,
};

verus! {

// ---------------------------------------------------------------------------
// The repository
// ---------------------------------------------------------------------------

/// A repository, found by walking up from a file.
#[derive(Debug)]
pub struct Repo {
    pub root: String,
    /// `.git` itself, which for a worktree or a submodule is not in the root
    /// but wherever the file there points.
    pub dir: String,
}

/// Where a `.git` file points. A path that does not begin at the root is
/// taken from the directory the file is in.
pub open spec fn points_to(root: Seq<char>, text: Seq<char>) -> Option<Seq<char>> {
    match stripped(trimmed(text), "gitdir:"@) {
        Some(rest) => Some(joined(root, trimmed(rest))),
        None => None,
    }
}

/// How many bytes the first `n` characters take.
pub open spec fn bytes_in(s: Seq<char>, n: int) -> nat
    decreases n,
{
    if n <= 0 {
        0
    } else {
        bytes_in(s, n - 1) + utf8_width(s[n - 1])
    }
}

/// The characters that make up the first seven bytes, where some do.
pub open spec fn abbreviation(s: Seq<char>, n: int) -> Option<Seq<char>>
    decreases s.len() - n,
{
    if bytes_in(s, n) == 7 {
        Some(s.take(n))
    } else if n < 0 || n >= s.len() {
        None
    } else {
        abbreviation(s, n + 1)
    }
}

/// What a `HEAD` file says is checked out: the last name of a branch, or the
/// first seven bytes of a commit.
pub open spec fn checked_out(text: Seq<char>) -> Option<Seq<char>> {
    let t = trimmed(text);
    match stripped(t, "ref: "@) {
        Some(reference) => Some(after_slash(reference)),
        None => abbreviation(t, 0),
    }
}

/// Whether the first seven bytes of what a `HEAD` file says, where it names a
/// commit and is as long as that, end where a character does.
pub open spec fn head_reads(text: Seq<char>) -> bool {
    let t = trimmed(text);
    stripped(t, "ref: "@) is None && bytes_in(t, t.len() as int) >= 7 ==> abbreviation(
        t,
        0,
    ) is Some
}

/// What comes after the last slash, or all of it.
pub open spec fn after_slash(s: Seq<char>) -> Seq<char> {
    match last_of(s, '/') {
        Some(i) => s.skip(i + 1),
        None => s,
    }
}

proof fn lemma_bytes_in(s: Seq<char>, i: int, j: int)
    requires
        0 <= i <= j,
    ensures
        i <= bytes_in(s, i),
        bytes_in(s, i) + (j - i) <= bytes_in(s, j),
    decreases j,
{
    if i < j {
        lemma_bytes_in(s, i, j - 1);
    } else if j > 0 {
        lemma_bytes_in(s, i - 1, j - 1);
    }
}

proof fn lemma_no_abbreviation(s: Seq<char>, n: int)
    requires
        n >= 0,
        bytes_in(s, n) > 7,
    ensures
        abbreviation(s, n) is None,
    decreases s.len() - n,
{
    if n < s.len() {
        lemma_bytes_in(s, n, n + 1);
        lemma_no_abbreviation(s, n + 1);
    }
}

/// The repository whose root a directory is, as its root and its `.git`: by
/// there being a `.git` directory in it, or a `.git` file that says where that
/// is.
pub open spec fn rooted_at(root: Seq<char>, has_dir: bool, file: Option<Seq<char>>) -> Option<
    (Seq<char>, Seq<char>),
> {
    if has_dir {
        Some((root, joined(root, ".git"@)))
    } else {
        match file {
            Some(text) => match points_to(root, text) {
                Some(dir) => Some((root, dir)),
                None => None,
            },
            None => None,
        }
    }
}

/// The first repository from `i` on that directories are the roots of. Of each
/// is known whether it has a `.git` directory, and what a `.git` file in it says.
pub open spec fn first_repo(
    dirs: Seq<Seq<char>>,
    seen: Seq<(bool, Option<String>)>,
    i: int,
) -> Option<(Seq<char>, Seq<char>)>
    decreases dirs.len() - i,
{
    if i < 0 || i >= dirs.len() || i >= seen.len() {
        None
    } else {
        match rooted_at(dirs[i], seen[i].0, maybe_text(seen[i].1)) {
            Some(repo) => Some(repo),
            None => first_repo(dirs, seen, i + 1),
        }
    }
}

/// A repository as its root and its `.git`.
pub open spec fn maybe_repo(r: Option<Repo>) -> Option<(Seq<char>, Seq<char>)> {
    match r {
        Some(repo) => Some((repo.root@, repo.dir@)),
        None => None,
    }
}

impl Repo {
    /// The repository that a file is in: the first that one of the directories
    /// from it upwards is the root of. A `.git` file that says nothing of where
    /// the directory is leaves the search to go on above it.
    pub fn find(dirs: &Vec<String>, seen: &Vec<(bool, Option<String>)>) -> (r: Option<Repo>)
        ensures
            maybe_repo(r) == first_repo(texts(dirs@), seen@, 0),
    {
        let ghost ds = texts(dirs@);
        let mut i: usize = 0;
        while i < dirs.len() && i < seen.len()
            invariant
                i <= dirs@.len(),
                i <= seen@.len(),
                ds == texts(dirs@),
                first_repo(ds, seen@, 0) == first_repo(ds, seen@, i as int),
            decreases dirs@.len() - i,
        {
            assert(ds[i as int] == dirs@[i as int]@);
            let one = Repo::at(dirs[i].as_str(), seen[i].0, &seen[i].1);
            if one.is_some() {
                return one;
            }
            i = i + 1;
        }
        None
    }

    /// The repository whose root a directory is, if it is one: by there being
    /// a `.git` directory in it, or a `.git` file that says where that is.
    pub fn at(root: &str, has_dir: bool, file: &Option<String>) -> (r: Option<Repo>)
        ensures
            maybe_repo(r) == rooted_at(root@, has_dir, maybe_text(*file)),
    {
        if has_dir {
            return Some(Repo { root: root.to_owned(), dir: join(root, ".git") });
        }
        match file {
            Some(text) => {
                let v = chars_of(text.as_str());
                let t = trim(&v);
                match strip(&t, "gitdir:") {
                    Some(rest) => {
                        let to = text_of(&trim(&rest));
                        Some(Repo { root: root.to_owned(), dir: join(root, to.as_str()) })
                    },
                    None => None,
                }
            },
            None => None,
        }
    }

    /// The branch that is checked out, or the start of the commit where none
    /// is, from what the `HEAD` file says.
    pub fn head(text: &str) -> (r: Option<String>)
        requires
            head_reads(text@),
        ensures
            match checked_out(text@) {
                Some(name) => r is Some && r->0@ == name,
                None => r is None,
            },
    {
        let v = chars_of(text);
        let t = trim(&v);
        if let Some(reference) = strip(&t, "ref: ") {
            return match find_last(&reference, '/') {
                Some(i) => {
                    let end = reference.len();
                    assert(reference@.skip(i + 1) =~= reference@.subrange(i + 1, end as int));
                    Some(string_of(&reference, i + 1, end))
                },
                None => Some(text_of(&reference)),
            };
        }
        let mut n: usize = 0;
        let mut bytes: usize = 0;
        while n < t.len() && bytes < 7
            invariant
                n <= t@.len(),
                bytes == bytes_in(t@, n as int),
                bytes <= 10,
                abbreviation(t@, 0) == abbreviation(t@, n as int),
            decreases t@.len() - n,
        {
            let code = t[n] as u32;
            let wide: usize = if code < 0x80 {
                1
            } else if code < 0x800 {
                2
            } else if code < 0x10000 {
                3
            } else {
                4
            };
            n = n + 1;
            bytes = bytes + wide;
        }
        if bytes == 7 {
            assert(t@.take(n as int) =~= t@.subrange(0, n as int));
            Some(string_of(&t, 0, n))
        } else {
            proof {
                if bytes > 7 {
                    lemma_no_abbreviation(t@, n as int);
                }
            }
            None
        }
    }

    /// When the head last moved: the latest of when the three places that
    /// say so were written.
    pub fn head_moved(head: Option<u128>, refs: Option<u128>, packed: Option<u128>) -> (r: Option<
        u128,
    >)
        ensures
            r is None <==> head is None && refs is None && packed is None,
            r is Some ==> r == head || r == refs || r == packed,
            head is Some ==> r is Some && head->0 <= r->0,
            refs is Some ==> r is Some && refs->0 <= r->0,
            packed is Some ==> r is Some && packed->0 <= r->0,
    {
        later(later(head, refs), packed)
    }

    /// What `git show` is asked for to get the committed text of a file: its
    /// path from the root, below the head. A file that is not in the
    /// repository has none.
    pub fn object_of(&self, file: &str) -> (r: Option<String>)
        ensures
            if lies_in(file@, self.root@) {
                r is Some && r->0@ == "HEAD:"@ + strung(
                    names(file@).skip(names(self.root@).len() as int),
                    "/"@,
                )
            } else {
                r is None
            },
    {
        if !is_in(file, self.root.as_str()) {
            return None;
        }
        let mut mine = names_of(file);
        let its = names_of(self.root.as_str());
        let ghost all = deep(mine@);
        assert(deep(its@).len() == its@.len());
        assert(all.len() == mine@.len());
        let rest = mine.split_off(its.len());
        assert(deep(rest@) =~= all.skip(its@.len() as int));
        let mut name: String = "HEAD:".to_owned();
        let path = text_of(&string_up(&rest, "/"));
        name.append(path.as_str());
        Some(name)
    }

    /// The committed text of a file, from what `git show` printed: with line
    /// feeds alone at the ends of lines.
    pub fn committed(text: &str) -> (r: String)
        ensures
            r@ == unix(text@),
    {
        to_unix(&chars_of(text))
    }
}

fn later(a: Option<u128>, b: Option<u128>) -> (r: Option<u128>)
    ensures
        r is None <==> a is None && b is None,
        r is Some ==> r == a || r == b,
        a is Some ==> r is Some && a->0 <= r->0,
        b is Some ==> r is Some && b->0 <= r->0,
{
    match (a, b) {
        (Some(x), Some(y)) => if x < y { Some(y) } else { Some(x) },
        (Some(x), None) => Some(x),
        (None, y) => y,
    }
}

// ---------------------------------------------------------------------------
// Marks
// ---------------------------------------------------------------------------

/// What happened to a line.
#[derive(Clone, Copy, PartialEq, Eq, Structural, Debug)]
pub enum Mark {
    Added,
    Changed,
    /// Something was taken out here.
    Removed,
}

impl Mark {
    /// What stands for it beside the line.
    pub fn glyph(&self) -> (c: char)
        ensures
            c == match self {
                Mark::Added => '\u{2503}',
                Mark::Changed => '\u{2503}',
                Mark::Removed => '\u{2581}',
            },
    {
        match self {
            Mark::Added => '\u{2503}',
            Mark::Changed => '\u{2503}',
            Mark::Removed => '\u{2581}',
        }
    }
}

/// Lines from `from` up to `to`, all marked alike.
pub open spec fn all_marked(from: int, to: int, mark: Mark) -> Seq<(int, Mark)> {
    Seq::new((if to > from { to - from } else { 0 }) as nat, |i: int| (from + i, mark))
}

/// The marks for what lies between two lines that the texts share: from
/// `at` up to `end`, in the old text and in the new.
pub open spec fn marks_between(at: (int, int), end: (int, int)) -> Seq<(int, Mark)> {
    if at.0 == end.0 {
        all_marked(at.1, end.1, Mark::Added)
    } else if at.1 == end.1 {
        seq![(at.1, Mark::Removed)]
    } else {
        all_marked(at.1, end.1, Mark::Changed)
    }
}

/// What comes after the `k`th shared line: the lines of the two texts there.
pub open spec fn after_pair(pairs: Seq<(int, int)>, k: int) -> (int, int) {
    if k <= 0 { (0, 0) } else { (pairs[k - 1].0 + 1, pairs[k - 1].1 + 1) }
}

/// The marks up to the `k`th shared line.
pub open spec fn marks_to(pairs: Seq<(int, int)>, k: int) -> Seq<(int, Mark)>
    decreases k,
{
    if k <= 0 {
        Seq::empty()
    } else {
        marks_to(pairs, k - 1) + marks_between(after_pair(pairs, k - 1), pairs[k - 1])
    }
}

/// The marks of a text whose lines are lined up with those of an older one.
pub open spec fn marks_along(pairs: Seq<(int, int)>, before: int, after: int) -> Seq<(int, Mark)> {
    marks_to(pairs, pairs.len() as int) + marks_between(
        after_pair(pairs, pairs.len() as int),
        (before, after),
    )
}

/// A line that a text of `lines` lines has: the last one, for one below it.
pub open spec fn shown_at(line: int, lines: int) -> int {
    if line < lines {
        line
    } else if lines > 0 {
        lines - 1
    } else {
        0
    }
}

/// Marks on lines that there are, the first of those on one line.
pub open spec fn shown(ms: Seq<(int, Mark)>, lines: int) -> Seq<(int, Mark)>
    decreases ms.len(),
{
    if ms.len() == 0 {
        ms
    } else {
        let r = shown(ms.drop_last(), lines);
        let line = shown_at(ms.last().0, lines);
        if r.len() > 0 && r.last().0 == line { r } else { r.push((line, ms.last().1)) }
    }
}

/// Which lines of a text are not what they were in an older one, and how.
pub open spec fn marked(before: Seq<char>, after: Seq<char>) -> Seq<(int, Mark)> {
    let a = lines_of(before);
    let b = lines_of(after);
    shown(marks_along(lined_up(a, b), a.len() as int, b.len() as int), b.len() as int)
}

/// Marks with whole numbers for lines.
pub open spec fn int_marks(v: Seq<(usize, Mark)>) -> Seq<(int, Mark)> {
    v.map_values(|m: (usize, Mark)| (m.0 as int, m.1))
}

/// Whether marks go up from line to line.
pub open spec fn in_order(ms: Seq<(int, Mark)>) -> bool {
    forall|i: int, j: int| 0 <= i < j < ms.len() ==> (#[trigger] ms[i]).0 < (#[trigger] ms[j]).0
}

/// Whether marks go up from line to line or stay.
pub open spec fn not_back(ms: Seq<(int, Mark)>) -> bool {
    forall|i: int, j: int| 0 <= i < j < ms.len() ==> (#[trigger] ms[i]).0 <= (#[trigger] ms[j]).0
}

proof fn lemma_marks_between(at: (int, int), end: (int, int))
    requires
        at.0 <= end.0,
        at.1 <= end.1,
    ensures
        ({
            let ms = marks_between(at, end);
            &&& not_back(ms)
            &&& forall|i: int| 0 <= i < ms.len() ==> at.1 <= (#[trigger] ms[i]).0 <= end.1
        }),
{
}

proof fn lemma_marks_to(pairs: Seq<(int, int)>, s: Stretch, k: int)
    requires
        climbs(pairs, s),
        s.a == 0,
        s.c == 0,
        0 <= k <= pairs.len(),
    ensures
        not_back(marks_to(pairs, k)),
        forall|i: int|
            0 <= i < marks_to(pairs, k).len() ==> 0 <= (#[trigger] marks_to(pairs, k)[i]).0 < after_pair(
                pairs,
                k,
            ).1,
    decreases k,
{
    if k > 0 {
        lemma_marks_to(pairs, s, k - 1);
        let at = after_pair(pairs, k - 1);
        assert(pairs[k - 1].0 >= 0 && pairs[k - 1].1 >= 0);
        if k > 1 {
            assert(pairs[k - 2].0 < pairs[k - 1].0 && pairs[k - 2].1 < pairs[k - 1].1);
        }
        lemma_marks_between(at, pairs[k - 1]);
        let first = marks_to(pairs, k - 1);
        let second = marks_between(at, pairs[k - 1]);
        let m = marks_to(pairs, k);
        assert forall|i: int| 0 <= i < m.len() implies (#[trigger] m[i]) == if i < first.len() {
            first[i]
        } else {
            second[i - first.len()]
        } by {}
    }
}

proof fn lemma_shown(ms: Seq<(int, Mark)>, lines: int)
    requires
        not_back(ms),
        lines >= 0,
        forall|i: int| 0 <= i < ms.len() ==> 0 <= (#[trigger] ms[i]).0,
    ensures
        in_order(shown(ms, lines)),
        forall|i: int|
            0 <= i < shown(ms, lines).len() ==> 0 <= (#[trigger] shown(ms, lines)[i]).0 && (
            shown(ms, lines)[i].0 < lines || shown(ms, lines)[i].0 == 0),
        ms.len() > 0 ==> shown(ms, lines).len() > 0 && shown(ms, lines).last().0 == shown_at(
            ms.last().0,
            lines,
        ),
    decreases ms.len(),
{
    if ms.len() > 0 {
        let less = ms.drop_last();
        assert forall|i: int, j: int| 0 <= i < j < less.len() implies (#[trigger] less[i]).0 <= (
        #[trigger] less[j]).0 by {
            assert(ms[i].0 <= ms[j].0);
        }
        assert forall|i: int| 0 <= i < less.len() implies 0 <= (#[trigger] less[i]).0 by {
            assert(less[i] == ms[i]);
        }
        lemma_shown(less, lines);
        if less.len() > 0 {
            assert(ms[ms.len() - 2].0 <= ms[ms.len() - 1].0);
            assert(less.last() == ms[ms.len() - 2]);
        }
    }
}

/// The marks of a text go up from line to line, on lines that it has. An
/// empty text has its one mark on the line it would begin with.
pub proof fn law_marks_are_in_order(before: Seq<char>, after: Seq<char>)
    requires
        lines_of(before).len() + lines_of(after).len() <= usize::MAX,
    ensures
        in_order(marked(before, after)),
        forall|i: int|
            0 <= i < marked(before, after).len() ==> 0 <= (#[trigger] marked(before, after)[i]).0 && (
            marked(before, after)[i].0 < lines_of(after).len() || marked(before, after)[i].0 == 0),
{
    let a = lines_of(before);
    let b = lines_of(after);
    let pairs = lined_up(a, b);
    let s = Stretch { a: 0, b: a.len() as int, c: 0, d: b.len() as int };
    law_lined_up_lines_say_the_same(a, b);
    let k = pairs.len() as int;
    lemma_marks_to(pairs, s, k);
    if k > 0 {
        assert(pairs[k - 1].0 < a.len() && pairs[k - 1].1 < b.len());
        assert(pairs[k - 1].0 >= 0 && pairs[k - 1].1 >= 0);
    }
    let at = after_pair(pairs, k);
    lemma_marks_between(at, (a.len() as int, b.len() as int));
    let ms = marks_along(pairs, a.len() as int, b.len() as int);
    let first = marks_to(pairs, k);
    let second = marks_between(at, (a.len() as int, b.len() as int));
    assert forall|i: int| 0 <= i < ms.len() implies (#[trigger] ms[i]) == if i < first.len() {
        first[i]
    } else {
        second[i - first.len()]
    } by {}
    lemma_shown(ms, b.len() as int);
}

proof fn lemma_lined_up_with_itself(ids: Seq<usize>, s: Stretch)
    requires
        s.a <= s.b,
        s.c <= s.d,
        s.b - s.a == s.d - s.c,
        s.a == s.c,
    ensures
        crate::align::alignment(ids, ids, s) == Seq::new(
            (s.b - s.a) as nat,
            |i: int| (s.a + i, s.a + i),
        ),
    decreases s.b - s.a,
{
    if s.a < s.b {
        let next = Stretch { a: s.a + 1, c: s.c + 1, ..s };
        lemma_lined_up_with_itself(ids, next);
        assert(crate::align::alignment(ids, ids, s) =~= Seq::new(
            (s.b - s.a) as nat,
            |i: int| (s.a + i, s.a + i),
        ));
    }
}

proof fn lemma_nothing_to_mark(n: int, k: int)
    requires
        0 <= k <= n,
    ensures
        marks_to(Seq::new(n as nat, |i: int| (i, i)), k) == Seq::<(int, Mark)>::empty(),
    decreases k,
{
    if k > 0 {
        lemma_nothing_to_mark(n, k - 1);
        let pairs = Seq::new(n as nat, |i: int| (i, i));
        assert(marks_between(after_pair(pairs, k - 1), pairs[k - 1]) =~= Seq::empty());
        assert(marks_to(pairs, k) =~= Seq::empty());
    }
}

/// A text that nobody touched has no marks.
pub proof fn law_the_same_text_has_no_marks(text: Seq<char>)
    requires
        lines_of(text).len() * 2 <= usize::MAX,
    ensures
        marked(text, text) == Seq::<(int, Mark)>::empty(),
{
    let ls = lines_of(text);
    let m = ls.len() as int;
    let all = ls + ls;
    let ids = crate::align::numbered(all);
    assert(ids.take(m) =~= ids.skip(m)) by {
        assert forall|i: int| 0 <= i < m implies ids.take(m)[i] == #[trigger] ids.skip(m)[i] by {
            assert(all[i] == ls[i] && all[m + i] == ls[i]);
        }
    }
    lemma_lined_up_with_itself(ids.take(m), Stretch { a: 0, b: m, c: 0, d: m });
    let pairs = lined_up(ls, ls);
    assert(pairs =~= Seq::new(m as nat, |i: int| (i, i)));
    lemma_nothing_to_mark(m, m);
    assert(marks_between(after_pair(pairs, m), (m, m)) =~= Seq::empty());
    assert(marks_along(pairs, m, m) =~= Seq::empty());
}

fn show(out: &mut Vec<(usize, Mark)>, line: usize, mark: Mark, lines: usize, Ghost(ms): Ghost<Seq<(int, Mark)>>)
    requires
        int_marks(old(out)@) == shown(ms, lines as int),
    ensures
        int_marks(final(out)@) == shown(ms.push((line as int, mark)), lines as int),
{
    let at: usize = if line < lines {
        line
    } else if lines > 0 {
        lines - 1
    } else {
        0
    };
    let ghost had = out@;
    assert(ms.push((line as int, mark)).drop_last() =~= ms);
    if out.len() > 0 && out[out.len() - 1].0 == at {
        assert(int_marks(had).last() == (had.last().0 as int, had.last().1));
        return;
    }
    proof {
        if had.len() > 0 {
            assert(int_marks(had).last() == (had.last().0 as int, had.last().1));
        }
    }
    out.push((at, mark));
    assert(int_marks(out@) =~= int_marks(had).push((at as int, mark)));
}

fn show_gap(
    out: &mut Vec<(usize, Mark)>,
    at: (usize, usize),
    end: (usize, usize),
    lines: usize,
    Ghost(ms): Ghost<Seq<(int, Mark)>>,
)
    requires
        int_marks(old(out)@) == shown(ms, lines as int),
        at.0 <= end.0,
        at.1 <= end.1,
    ensures
        int_marks(final(out)@) == shown(
            ms + marks_between((at.0 as int, at.1 as int), (end.0 as int, end.1 as int)),
            lines as int,
        ),
{
    if at.0 != end.0 && at.1 == end.1 {
        show(out, at.1, Mark::Removed, lines, Ghost(ms));
        assert(ms.push((at.1 as int, Mark::Removed)) =~= ms + marks_between(
            (at.0 as int, at.1 as int),
            (end.0 as int, end.1 as int),
        ));
        return;
    }
    let mark = if at.0 == end.0 { Mark::Added } else { Mark::Changed };
    let mut n: usize = at.1;
    assert(ms + all_marked(at.1 as int, at.1 as int, mark) =~= ms);
    while n < end.1
        invariant
            at.1 <= n <= end.1,
            int_marks(out@) == shown(ms + all_marked(at.1 as int, n as int, mark), lines as int),
        decreases end.1 - n,
    {
        show(out, n, mark, lines, Ghost(ms + all_marked(at.1 as int, n as int, mark)));
        assert((ms + all_marked(at.1 as int, n as int, mark)).push((n as int, mark)) =~= ms
            + all_marked(at.1 as int, n + 1, mark));
        n = n + 1;
    }
}

/// Which lines of `new` are not what they were in `old`, and how.
pub fn marks(old: &str, new: &str) -> (r: Vec<(usize, Mark)>)
    ensures
        int_marks(r@) == marked(old@, new@),
        in_order(int_marks(r@)),
        forall|i: int| 0 <= i < r@.len() ==> (#[trigger] r@[i]).0 < usize::MAX,
{
    let a = split_lines(old);
    let b = split_lines(new);
    let ghost x = lines_of(old@);
    let ghost y = lines_of(new@);
    assert(x.len() == deep(a@).len() && y.len() == deep(b@).len());
    let lines = b.len();
    let before = a.len();
    let pairs = line_up(&a, &b);
    let ghost ps = whole(pairs@);
    proof {
        law_lined_up_lines_say_the_same(x, y);
        law_marks_are_in_order(old@, new@);
    }
    let mut out: Vec<(usize, Mark)> = Vec::new();
    let mut at: (usize, usize) = (0, 0);
    let mut k: usize = 0;
    assert(int_marks(out@) =~= shown(marks_to(ps, 0), lines as int));
    while k < pairs.len()
        invariant
            k <= pairs@.len(),
            ps == whole(pairs@),
            climbs(ps, (Stretch { a: 0, b: a@.len() as int, c: 0, d: b@.len() as int })),
            lines == b@.len(),
            before == a@.len(),
            (at.0 as int, at.1 as int) == after_pair(ps, k as int),
            int_marks(out@) == shown(marks_to(ps, k as int), lines as int),
        decreases pairs@.len() - k,
    {
        let end = pairs[k];
        assert(ps[k as int] == (end.0 as int, end.1 as int));
        proof {
            if k > 0 {
                assert(ps[k - 1].0 < ps[k as int].0 && ps[k - 1].1 < ps[k as int].1);
            }
        }
        show_gap(&mut out, at, end, lines, Ghost(marks_to(ps, k as int)));
        at = (end.0 + 1, end.1 + 1);
        k = k + 1;
    }
    proof {
        if k > 0 {
            assert(ps[k - 1].0 < a@.len() && ps[k - 1].1 < b@.len());
        }
    }
    show_gap(&mut out, at, (before, lines), lines, Ghost(marks_to(ps, k as int)));
    assert forall|i: int| 0 <= i < out@.len() implies (#[trigger] out@[i]).0 < usize::MAX by {
        assert(int_marks(out@)[i] == (out@[i].0 as int, out@[i].1));
        assert(marked(old@, new@)[i].0 < usize::MAX);
    }
    out
}

/// The lines that two texts are lined up on, in each one's own numbering.
pub fn aligned(old: &str, new: &str) -> (r: Vec<(usize, usize)>)
    ensures
        whole(r@) == lined_up(lines_of(old@), lines_of(new@)),
        climbs(
            whole(r@),
            (Stretch {
                a: 0,
                b: lines_of(old@).len() as int,
                c: 0,
                d: lines_of(new@).len() as int,
            }),
        ),
        lines_of(old@).len() + lines_of(new@).len() <= usize::MAX,
{
    let a = split_lines(old);
    let b = split_lines(new);
    assert(lines_of(old@).len() == deep(a@).len() && lines_of(new@).len() == deep(b@).len());
    let pairs = line_up(&a, &b);
    proof {
        law_lined_up_lines_say_the_same(lines_of(old@), lines_of(new@));
    }
    pairs
}

// ---------------------------------------------------------------------------
// Reading marks
// ---------------------------------------------------------------------------

/// Whether marks can be looked into: they go up from line to line, and no
/// line is the very last number there is.
pub open spec fn ready_marks(ms: Seq<(usize, Mark)>) -> bool {
    &&& in_order(int_marks(ms))
    &&& forall|i: int| 0 <= i < ms.len() ==> (#[trigger] ms[i]).0 < usize::MAX
}

/// The mark on a line.
pub fn mark_at(ms: &Vec<(usize, Mark)>, line: usize) -> (r: Option<Mark>)
    requires
        ready_marks(ms@),
    ensures
        match r {
            Some(mark) => ms@.contains((line, mark)),
            None => forall|i: int| 0 <= i < ms@.len() ==> (#[trigger] ms@[i]).0 != line,
        },
{
    let mut lo: usize = 0;
    let mut hi: usize = ms.len();
    while lo < hi
        invariant
            lo <= hi <= ms@.len(),
            ready_marks(ms@),
            forall|i: int| 0 <= i < lo ==> (#[trigger] ms@[i]).0 < line,
            forall|i: int| hi <= i < ms@.len() ==> (#[trigger] ms@[i]).0 > line,
        decreases hi - lo,
    {
        let mid = lo + (hi - lo) / 2;
        let at = ms[mid].0;
        proof {
            assert forall|i: int| 0 <= i < ms@.len() && i < mid implies (#[trigger] ms@[i]).0 < at by {
                assert(int_marks(ms@)[i].0 < int_marks(ms@)[mid as int].0);
            }
            assert forall|i: int| mid < i < ms@.len() implies (#[trigger] ms@[i]).0 > at by {
                assert(int_marks(ms@)[mid as int].0 < int_marks(ms@)[i].0);
            }
        }
        if at == line {
            assert(ms@[mid as int] == (line, ms@[mid as int].1));
            return Some(ms[mid].1);
        } else if at < line {
            lo = mid + 1;
        } else {
            hi = mid;
        }
    }
    None
}

/// Whether the `n`th mark begins a block: it is not on the line after the one
/// before it.
pub open spec fn begins_block(ms: Seq<(usize, Mark)>, n: int) -> bool {
    n == 0 || ms[n - 1].0 + 1 != ms[n].0
}

/// Whether a block of marked lines begins on a line.
pub open spec fn block_at(ms: Seq<(usize, Mark)>, line: int) -> bool {
    exists|n: int| 0 <= n < ms.len() && #[trigger] begins_block(ms, n) && ms[n].0 == line
}

/// Whether a line is where the next block begins, going forwards: the first
/// after `from`, or, where none comes after it, the first of all.
pub open spec fn next_block(ms: Seq<(usize, Mark)>, from: int, line: int) -> bool {
    &&& block_at(ms, line)
    &&& if exists|other: int| other > from && #[trigger] block_at(ms, other) {
        line > from && forall|other: int| other > from && #[trigger] block_at(ms, other) ==> line <= other
    } else {
        forall|other: int| #[trigger] block_at(ms, other) ==> line <= other
    }
}

/// Whether a line is where the next block begins, going backwards: the last
/// before `from`, or, where none comes before it, the last of all.
pub open spec fn last_block(ms: Seq<(usize, Mark)>, from: int, line: int) -> bool {
    &&& block_at(ms, line)
    &&& if exists|other: int| other < from && #[trigger] block_at(ms, other) {
        line < from && forall|other: int| other < from && #[trigger] block_at(ms, other) ==> line >= other
    } else {
        forall|other: int| #[trigger] block_at(ms, other) ==> line >= other
    }
}

/// The line where the next block of marked lines begins.
pub fn step_change(ms: &Vec<(usize, Mark)>, from: usize, forwards: bool) -> (r: Option<usize>)
    requires
        ready_marks(ms@),
    ensures
        match r {
            Some(line) => if forwards {
                next_block(ms@, from as int, line as int)
            } else {
                last_block(ms@, from as int, line as int)
            },
            None => ms@.len() == 0,
        },
{
    if forwards { step_on(ms, from) } else { step_back(ms, from) }
}

proof fn lemma_order(ms: Seq<(usize, Mark)>, i: int, j: int)
    requires
        ready_marks(ms),
        0 <= i < j < ms.len(),
    ensures
        ms[i].0 < ms[j].0,
{
    assert(int_marks(ms)[i].0 < int_marks(ms)[j].0);
}

proof fn lemma_first_block(ms: Seq<(usize, Mark)>, from: int, n: int)
    requires
        ready_marks(ms),
        0 <= n < ms.len(),
        begins_block(ms, n),
        ms[n].0 > from,
        forall|i: int| 0 <= i < n && #[trigger] begins_block(ms, i) ==> ms[i].0 <= from,
    ensures
        next_block(ms, from, ms[n].0 as int),
{
    let line = ms[n].0 as int;
    assert(block_at(ms, line));
    assert forall|other: int| other > from && #[trigger] block_at(ms, other) implies line
        <= other by {
        let i = choose|i: int| 0 <= i < ms.len() && #[trigger] begins_block(ms, i) && ms[i].0
            == other;
        if n < i {
            lemma_order(ms, n, i);
        }
    }
}

fn step_on(ms: &Vec<(usize, Mark)>, from: usize) -> (r: Option<usize>)
    requires
        ready_marks(ms@),
    ensures
        match r {
            Some(line) => next_block(ms@, from as int, line as int),
            None => ms@.len() == 0,
        },
{
    if ms.len() == 0 {
        return None;
    }
    let mut n: usize = 0;
    while n < ms.len()
        invariant
            n <= ms@.len(),
            ready_marks(ms@),
            forall|i: int| 0 <= i < n && #[trigger] begins_block(ms@, i) ==> ms@[i].0 <= from,
        decreases ms@.len() - n,
    {
        let line = ms[n].0;
        if (n == 0 || ms[n - 1].0 + 1 != line) && line > from {
            proof {
                lemma_first_block(ms@, from as int, n as int);
            }
            return Some(line);
        }
        n = n + 1;
    }
    proof {
        assert(begins_block(ms@, 0));
        assert(block_at(ms@, ms@[0].0 as int));
        assert forall|other: int| #[trigger] block_at(ms@, other) implies ms@[0].0 <= other && other
            <= from by {
            let i = choose|i: int|
                0 <= i < ms@.len() && #[trigger] begins_block(ms@, i) && ms@[i].0 == other;
            if 0 < i {
                lemma_order(ms@, 0, i);
            }
        }
    }
    Some(ms[0].0)
}

fn step_back(ms: &Vec<(usize, Mark)>, from: usize) -> (r: Option<usize>)
    requires
        ready_marks(ms@),
    ensures
        match r {
            Some(line) => last_block(ms@, from as int, line as int),
            None => ms@.len() == 0,
        },
{
    if ms.len() == 0 {
        return None;
    }
    // The last block there is, once one has been passed.
    let mut last: Option<usize> = None;
    let mut n: usize = ms.len();
    while n > 0
        invariant
            n <= ms@.len(),
            ms@.len() > 0,
            ready_marks(ms@),
            match last {
                Some(k) => n <= k < ms@.len() && begins_block(ms@, k as int) && forall|i: int|
                    k < i < ms@.len() ==> !#[trigger] begins_block(ms@, i),
                None => forall|i: int| n <= i < ms@.len() ==> !#[trigger] begins_block(ms@, i),
            },
            forall|i: int|
                n <= i < ms@.len() && #[trigger] begins_block(ms@, i) ==> ms@[i].0 >= from,
        decreases n,
    {
        n = n - 1;
        let line = ms[n].0;
        if n == 0 || ms[n - 1].0 + 1 != line {
            assert(begins_block(ms@, n as int));
            if line < from {
                proof {
                    assert(block_at(ms@, line as int));
                    assert forall|other: int| other < from && #[trigger] block_at(ms@, other) implies line
                        >= other by {
                        let i = choose|i: int|
                            0 <= i < ms@.len() && #[trigger] begins_block(ms@, i) && ms@[i].0 == other;
                        if i < n {
                            lemma_order(ms@, i, n as int);
                        }
                    }
                }
                return Some(line);
            }
            if last.is_none() {
                last = Some(n);
            }
        }
    }
    assert(begins_block(ms@, 0));
    let k = last.unwrap();
    proof {
        assert(block_at(ms@, ms@[k as int].0 as int));
        assert forall|other: int| #[trigger] block_at(ms@, other) implies ms@[k as int].0 >= other
            && other >= from by {
            let i = choose|i: int|
                0 <= i < ms@.len() && #[trigger] begins_block(ms@, i) && ms@[i].0 == other;
            if i < k {
                lemma_order(ms@, i, k as int);
            }
        }
    }
    Some(ms[k].0)
}

proof fn lemma_marks_stay_empty(pairs: Seq<(int, int)>, s: Stretch, k: int)
    requires
        climbs(pairs, s),
        s.a == 0,
        s.c == 0,
        0 <= k <= pairs.len(),
        marks_to(pairs, k).len() == 0,
    ensures
        after_pair(pairs, k) == (k, k),
        forall|i: int| 0 <= i < k ==> (#[trigger] pairs[i]) == (i, i),
    decreases k,
{
    if k > 0 {
        let first = marks_to(pairs, k - 1);
        let second = marks_between(after_pair(pairs, k - 1), pairs[k - 1]);
        assert(marks_to(pairs, k).len() == first.len() + second.len());
        lemma_marks_stay_empty(pairs, s, k - 1);
        if k > 1 {
            assert(pairs[k - 2].1 < pairs[k - 1].1);
        }
        assert(pairs[k - 1].1 >= 0);
        assert(pairs[k - 1] == (k - 1, k - 1));
    }
}

proof fn lemma_shown_empty(ms: Seq<(int, Mark)>, lines: int)
    requires
        shown(ms, lines).len() == 0,
    ensures
        ms.len() == 0,
    decreases ms.len(),
{
    if ms.len() > 0 && shown(ms.drop_last(), lines).len() == 0 {
        lemma_shown_empty(ms.drop_last(), lines);
    }
}

/// A text has no marks just where it has the lines that the other has.
pub proof fn law_no_marks_means_the_same_lines(before: Seq<char>, after: Seq<char>)
    requires
        lines_of(before).len() + lines_of(after).len() <= usize::MAX,
    ensures
        marked(before, after).len() == 0 <==> lines_of(before) == lines_of(after),
{
    let a = lines_of(before);
    let b = lines_of(after);
    if a == b {
        law_the_same_text_has_no_marks(before);
    }
    if marked(before, after).len() == 0 {
        let pairs = lined_up(a, b);
        let s = Stretch { a: 0, b: a.len() as int, c: 0, d: b.len() as int };
        law_lined_up_lines_say_the_same(a, b);
        let ms = marks_along(pairs, a.len() as int, b.len() as int);
        lemma_shown_empty(ms, b.len() as int);
        let k = pairs.len() as int;
        let first = marks_to(pairs, k);
        let second = marks_between(after_pair(pairs, k), (a.len() as int, b.len() as int));
        assert(ms.len() == first.len() + second.len());
        lemma_marks_stay_empty(pairs, s, k);
        if k > 0 {
            assert(pairs[k - 1].0 < a.len() && pairs[k - 1].1 < b.len());
        }
        assert(a.len() == k && b.len() == k);
        assert forall|i: int| 0 <= i < k implies a[i] == b[i] by {
            assert(pairs[i] == (i, i));
        }
        assert(a =~= b);
    }
}

// ---------------------------------------------------------------------------
// The files that are open
// ---------------------------------------------------------------------------

/// What is kept of one file.
#[derive(Debug)]
pub struct Watched {
    /// The file as it was committed. None for one git has never seen, which
    /// is what leaves a brand new file unmarked.
    pub base: Option<String>,
    pub marks: Vec<(usize, Mark)>,
    /// The version of the document that the marks were worked out from.
    pub at: i32,
}

/// What the editor keeps about git, for the files it has open.
#[derive(Debug)]
pub struct Tracker {
    pub repo: Option<Repo>,
    pub head: Option<String>,
    /// When the head last moved, so that a commit elsewhere throws the
    /// committed texts away.
    pub moved: Option<u128>,
    /// What is kept of each document, by its number.
    pub files: HashMap<u32, Watched>,
}

/// Whether a document is one that a repository has something to say about.
pub open spec fn concerns(repo: Option<Repo>, doc: Document) -> bool {
    &&& repo is Some
    &&& doc.path is Some
    &&& lies_in(doc.path->0@, repo->0.root@)
}

/// What is kept of a file with that committed text: its marks against it, or
/// none.
pub open spec fn watches(w: Watched, base: Option<Seq<char>>, text: Seq<char>, version: i32) -> bool {
    &&& w.at == version
    &&& match base {
        Some(b) => w.base is Some && w.base->0@ == b && int_marks(w.marks@) == marked(b, text),
        None => w.base is None && w.marks@.len() == 0,
    }
}

/// What a committed text says, where there is one.
pub open spec fn base_text(base: Option<String>) -> Option<Seq<char>> {
    match base {
        Some(b) => Some(b@),
        None => None,
    }
}

impl Default for Tracker {
    /// Nothing is being watched.
    fn default() -> (t: Tracker)
        ensures
            t.wf(),
            t.repo is None && t.head is None && t.moved is None,
            t.files@ == Map::<u32, Watched>::empty(),
    {
        Tracker { repo: None, head: None, moved: None, files: HashMap::new() }
    }
}

impl Tracker {
    /// Whether the marks of every file can be looked into.
    pub open spec fn wf(self) -> bool {
        forall|id: u32|
            self.files@.contains_key(id) ==> ready_marks((#[trigger] self.files@[id]).marks@)
    }

    /// Point it at a project: the repository that it is in, with what is
    /// checked out there and when that last moved. Answers whether there is
    /// one.
    pub fn open(&mut self, found: Option<Repo>, head: Option<String>, moved: Option<u128>) -> (yes: bool)
        ensures
            final(self).wf(),
            final(self).repo == found,
            yes == found is Some,
            final(self).head == (if found is Some { head } else { None }),
            final(self).moved == (if found is Some { moved } else { None }),
            final(self).files@ == Map::<u32, Watched>::empty(),
    {
        let yes = found.is_some();
        self.repo = found;
        self.head = if yes { head } else { None };
        self.moved = if yes { moved } else { None };
        self.files.clear();
        yes
    }

    /// The branch, for the status bar.
    pub fn head(&self) -> (r: Option<&str>)
        ensures
            match self.head {
                Some(name) => r is Some && r->0@ == name@,
                None => r is None,
            },
    {
        match &self.head {
            Some(name) => Some(name.as_str()),
            None => None,
        }
    }

    /// Whether there is a repository.
    pub fn watching(&self) -> (yes: bool)
        ensures
            yes == self.repo is Some,
    {
        self.repo.is_some()
    }

    /// Whether a file has a committed version to be compared against.
    pub fn tracking(&self, doc: DocId) -> (yes: bool)
        ensures
            yes == (self.files@.contains_key(doc.0) && self.files@[doc.0].base is Some),
    {
        broadcast use vstd::std_specs::hash::group_hash_axioms;

        match self.files.get(&doc.0) {
            Some(file) => file.base.is_some(),
            None => false,
        }
    }

    /// The mark on a line of a file.
    pub fn mark(&self, doc: DocId, line: usize) -> (r: Option<Mark>)
        requires
            self.wf(),
        ensures
            match r {
                Some(mark) => self.files@.contains_key(doc.0) && self.files@[doc.0].marks@.contains(
                    (line, mark),
                ),
                None => self.files@.contains_key(doc.0) ==> forall|i: int|
                    0 <= i < self.files@[doc.0].marks@.len() ==> (
                    #[trigger] self.files@[doc.0].marks@[i]).0 != line,
            },
    {
        broadcast use vstd::std_specs::hash::group_hash_axioms;

        match self.files.get(&doc.0) {
            Some(file) => {
                assert(*file == self.files@[doc.0]);
                mark_at(&file.marks, line)
            },
            None => None,
        }
    }

    /// The line where the next block of lines begins that differ from the
    /// commit.
    pub fn next_change(&self, doc: DocId, from: usize, forwards: bool) -> (r: Option<usize>)
        requires
            self.wf(),
        ensures
            match r {
                Some(line) => self.files@.contains_key(doc.0) && if forwards {
                    next_block(self.files@[doc.0].marks@, from as int, line as int)
                } else {
                    last_block(self.files@[doc.0].marks@, from as int, line as int)
                },
                None => self.files@.contains_key(doc.0) ==> self.files@[doc.0].marks@.len() == 0,
            },
    {
        broadcast use vstd::std_specs::hash::group_hash_axioms;

        match self.files.get(&doc.0) {
            Some(file) => {
                assert(*file == self.files@[doc.0]);
                step_change(&file.marks, from, forwards)
            },
            None => None,
        }
    }

    /// How many lines of a file differ from the commit.
    pub fn changed_lines(&self, doc: DocId) -> (n: usize)
        ensures
            n == if self.files@.contains_key(doc.0) { self.files@[doc.0].marks@.len() } else { 0 },
    {
        broadcast use vstd::std_specs::hash::group_hash_axioms;

        match self.files.get(&doc.0) {
            Some(file) => file.marks.len(),
            None => 0,
        }
    }

    /// Forget a file that has been closed.
    pub fn forget(&mut self, doc: DocId)
        requires
            old(self).wf(),
        ensures
            final(self).wf(),
            final(self).files@ == old(self).files@.remove(doc.0),
            final(self).repo == old(self).repo,
            final(self).head == old(self).head,
            final(self).moved == old(self).moved,
    {
        broadcast use vstd::std_specs::hash::group_hash_axioms;

        self.files.remove(&doc.0);
    }

    /// Notice a commit, a checkout or a rebase in another window, from when
    /// the head last moved and what is checked out. Every committed text is
    /// then the old head's. Answers whether anything moved.
    pub fn poll_head(&mut self, moved: Option<u128>, head: Option<String>) -> (yes: bool)
        requires
            old(self).wf(),
        ensures
            final(self).wf(),
            yes == (old(self).repo is Some && moved != old(self).moved),
            !yes ==> *final(self) == *old(self),
            yes ==> final(self).repo == old(self).repo && final(self).moved == moved
                && final(self).head == head && final(self).files@ == Map::<u32, Watched>::empty(),
    {
        if self.repo.is_none() {
            return false;
        }
        let same = match (moved, self.moved) {
            (Some(a), Some(b)) => a == b,
            (None, None) => true,
            _ => false,
        };
        if same {
            return false;
        }
        self.moved = moved;
        self.head = head;
        self.files.clear();
        true
    }

    /// Whether a file is one to be marked whose committed text is not known
    /// yet.
    pub fn wants_baseline(&self, doc: &Document) -> (yes: bool)
        ensures
            yes == (concerns(self.repo, *doc) && !self.files@.contains_key(doc.id.0)),
    {
        broadcast use vstd::std_specs::hash::group_hash_axioms;

        self.concern(doc) && !self.files.contains_key(&doc.id.0)
    }

    fn concern(&self, doc: &Document) -> (yes: bool)
        ensures
            yes == concerns(self.repo, *doc),
    {
        match (&self.repo, &doc.path) {
            (Some(repo), Some(path)) => is_in(path.as_str(), repo.root.as_str()),
            _ => false,
        }
    }

    /// Bring one file up to date: keep its committed text if this is the
    /// first sight of it, and work out the marks if it has been edited since
    /// the last time. Answers whether anything changed.
    pub fn refresh(&mut self, doc: &Document, committed: Option<String>) -> (yes: bool)
        requires
            old(self).wf(),
        ensures
            final(self).wf(),
            yes == (concerns(old(self).repo, *doc) && !(old(self).files@.contains_key(doc.id.0)
                && old(self).files@[doc.id.0].at == doc.version)),
            !yes ==> *final(self) == *old(self),
            yes ==> {
                let base = if old(self).files@.contains_key(doc.id.0) {
                    base_text(old(self).files@[doc.id.0].base)
                } else {
                    base_text(committed)
                };
                &&& final(self).files@.contains_key(doc.id.0)
                &&& watches(final(self).files@[doc.id.0], base, doc.content(), doc.version)
                &&& final(self).files@.remove(doc.id.0) == old(self).files@.remove(doc.id.0)
                &&& final(self).repo == old(self).repo
                &&& final(self).head == old(self).head
                &&& final(self).moved == old(self).moved
            },
    {
        broadcast use vstd::std_specs::hash::group_hash_axioms;

        if !self.concern(doc) {
            return false;
        }
        let base: Option<String> = match self.files.get(&doc.id.0) {
            Some(file) => {
                assert(*file == self.files@[doc.id.0]);
                if file.at == doc.version {
                    return false;
                }
                match &file.base {
                    Some(text) => Some(text.clone()),
                    None => None,
                }
            },
            None => committed,
        };
        let marks: Vec<(usize, Mark)> = match &base {
            Some(text) => marks(text.as_str(), doc.text().as_str()),
            None => Vec::new(),
        };
        assert(ready_marks(marks@));
        let ghost was = self.files@;
        self.files.insert(doc.id.0, Watched { base, marks, at: doc.version });
        assert(self.files@.remove(doc.id.0) =~= was.remove(doc.id.0));
        true
    }

    /// Read the committed text again, for a file that has just been saved or
    /// re-read.
    pub fn forget_baseline(&mut self, doc: DocId)
        requires
            old(self).wf(),
        ensures
            final(self).wf(),
            final(self).files@ == old(self).files@.remove(doc.0),
            final(self).repo == old(self).repo,
            final(self).head == old(self).head,
            final(self).moved == old(self).moved,
    {
        broadcast use vstd::std_specs::hash::group_hash_axioms;

        self.files.remove(&doc.0);
    }
}

// ---------------------------------------------------------------------------
// What the marks say
// ---------------------------------------------------------------------------

/// The marks up to a shared line are among those of the whole text, in place.
proof fn lemma_marks_begin(pairs: Seq<(int, int)>, before: int, after: int, k: int, n: int)
    requires
        0 <= k <= n <= pairs.len(),
    ensures
        marks_to(pairs, k).len() <= marks_to(pairs, n).len(),
        forall|i: int|
            0 <= i < marks_to(pairs, k).len() ==> #[trigger] marks_to(pairs, k)[i] == marks_to(
                pairs,
                n,
            )[i],
    decreases n,
{
    if k < n {
        lemma_marks_begin(pairs, before, after, k, n - 1);
    }
}

/// The first mark on a line that there is is shown.
proof fn lemma_shown_holds(ms: Seq<(int, Mark)>, lines: int, i: int)
    requires
        0 <= i < ms.len(),
        forall|h: int|
            0 <= h < i ==> shown_at((#[trigger] ms[h]).0, lines) != shown_at(ms[i].0, lines),
    ensures
        shown(ms, lines).contains((shown_at(ms[i].0, lines), ms[i].1)),
    decreases ms.len(),
{
    let less = ms.drop_last();
    let r = shown(less, lines);
    let m = (shown_at(ms[i].0, lines), ms[i].1);
    if i < ms.len() - 1 {
        assert forall|h: int| 0 <= h < i implies shown_at((#[trigger] less[h]).0, lines) != shown_at(
            less[i].0,
            lines,
        ) by {
            assert(less[h] == ms[h]);
        }
        lemma_shown_holds(less, lines, i);
        let k = choose|k: int| 0 <= k < r.len() && r[k] == m;
        assert(shown(ms, lines)[k] == m);
    } else {
        if r.len() > 0 {
            lemma_shown_comes_from(less, lines, r.len() - 1);
            let h = choose|h: int|
                0 <= h < less.len() && r[r.len() - 1] == (
                    shown_at((#[trigger] less[h]).0, lines),
                    less[h].1,
                );
            assert(less[h] == ms[h]);
        }
        assert(shown(ms, lines)[r.len() as int] == m);
    }
}

/// What is shown is one of the marks.
proof fn lemma_shown_comes_from(ms: Seq<(int, Mark)>, lines: int, k: int)
    requires
        0 <= k < shown(ms, lines).len(),
    ensures
        exists|h: int|
            0 <= h < ms.len() && shown(ms, lines)[k] == (
                shown_at((#[trigger] ms[h]).0, lines),
                ms[h].1,
            ),
    decreases ms.len(),
{
    let less = ms.drop_last();
    let r = shown(less, lines);
    if k < r.len() {
        lemma_shown_comes_from(less, lines, k);
        let h = choose|h: int|
            0 <= h < less.len() && r[k] == (shown_at((#[trigger] less[h]).0, lines), less[h].1);
        assert(ms[h] == less[h]);
        assert(shown(ms, lines)[k] == r[k]);
    } else {
        assert(ms[ms.len() - 1] == ms.last());
    }
}

/// Whether a line has a mark.
pub open spec fn has_mark(ms: Seq<(int, Mark)>, line: int) -> bool {
    exists|i: int| 0 <= i < ms.len() && (#[trigger] ms[i]).0 == line
}

/// What the marks say of what two texts are not lined up on. Every new line
/// between two neighbouring pairs, before the first or after the last is marked:
/// as added where no old line lies there, and as changed where one does. Where
/// only old lines lie there, the line that took their place has a mark.
#[verifier::rlimit(40)]
pub proof fn law_what_is_not_lined_up_is_marked(before: Seq<char>, after: Seq<char>, k: int, j: int)
    requires
        lines_of(before).len() + lines_of(after).len() <= usize::MAX,
        0 <= k <= lined_up(lines_of(before), lines_of(after)).len(),
    ensures
        ({
            let (a, b) = (lines_of(before), lines_of(after));
            let s = Stretch { a: 0, b: a.len() as int, c: 0, d: b.len() as int };
            let g = left_over(s, lined_up(a, b), k);
            let ms = marked(before, after);
            &&& g.c <= j < g.d ==> ms.contains(
                (j, if g.a == g.b { Mark::Added } else { Mark::Changed }),
            )
            &&& g.a < g.b && g.c == g.d < b.len() ==> ms.contains((g.c, Mark::Removed))
            &&& g.a < g.b && g.c == g.d == b.len() ==> has_mark(ms, if g.c > 0 { g.c - 1 } else { 0 })
        }),
{
    let (a, b) = (lines_of(before), lines_of(after));
    let s = Stretch { a: 0, b: a.len() as int, c: 0, d: b.len() as int };
    let pairs = lined_up(a, b);
    let n = pairs.len() as int;
    let lines = b.len() as int;
    law_lined_up_lines_say_the_same(a, b);
    law_lining_up_leaves_nothing(a, b, k);
    let g = left_over(s, pairs, k);
    let ms = marks_along(pairs, a.len() as int, lines);
    let base = marks_to(pairs, k);
    let more = marks_between((g.a, g.c), (g.b, g.d));
    lemma_marks_in_place(pairs, s, k);
    lemma_marks_to(pairs, s, k);
    assert(after_pair(pairs, k).1 == g.c);
    if g.c <= j < g.d {
        let at = base.len() + (j - g.c);
        let m = if g.a == g.b { Mark::Added } else { Mark::Changed };
        assert(more[j - g.c] == (j, m));
        assert(ms[base.len() + (j - g.c)] == more[j - g.c]);
        assert forall|h: int| 0 <= h < at implies shown_at((#[trigger] ms[h]).0, lines) != shown_at(
            ms[at].0,
            lines,
        ) by {
            if h < base.len() {
                assert(ms[h] == base[h]);
            } else {
                assert(ms[base.len() + (h - base.len())] == more[h - base.len()]);
            }
        }
        lemma_shown_holds(ms, lines, at);
    }
    if g.a < g.b && g.c == g.d {
        let at = base.len() as int;
        assert(ms[base.len() + 0int] == more[0]);
        if g.c < lines {
            assert forall|h: int| 0 <= h < at implies shown_at((#[trigger] ms[h]).0, lines)
                != shown_at(ms[at].0, lines) by {
                assert(ms[h] == base[h]);
            }
            lemma_shown_holds(ms, lines, at);
        } else {
            lemma_last_shown(ms, lines, at);
        }
    }
}

/// The marks for what lies before a shared line stand where the marks before them
/// end.
proof fn lemma_marks_in_place(pairs: Seq<(int, int)>, s: Stretch, k: int)
    requires
        s.a == 0,
        s.c == 0,
        0 <= k <= pairs.len(),
    ensures
        ({
            let g = left_over(s, pairs, k);
            let ms = marks_along(pairs, s.b, s.d);
            let base = marks_to(pairs, k);
            let more = marks_between((g.a, g.c), (g.b, g.d));
            &&& ms.len() >= base.len() + more.len()
            &&& forall|i: int| 0 <= i < base.len() ==> #[trigger] ms[i] == base[i]
            &&& forall|i: int| 0 <= i < more.len() ==> ms[base.len() + i] == #[trigger] more[i]
        }),
{
    let n = pairs.len() as int;
    let g = left_over(s, pairs, k);
    let ms = marks_along(pairs, s.b, s.d);
    let base = marks_to(pairs, k);
    let more = marks_between((g.a, g.c), (g.b, g.d));
    assert(after_pair(pairs, k) == (g.a, g.c));
    if k < n {
        lemma_marks_begin(pairs, s.b, s.d, k + 1, n);
        let next = marks_to(pairs, k + 1);
        assert(next == base + more);
        assert forall|i: int| 0 <= i < base.len() implies #[trigger] ms[i] == base[i] by {
            assert(next[i] == marks_to(pairs, n)[i]);
        }
        assert forall|i: int| 0 <= i < more.len() implies ms[base.len() + i] == #[trigger] more[i] by {
            assert(next[base.len() + i] == marks_to(pairs, n)[base.len() + i]);
        }
    }
}

/// A mark below the last line is shown as one on it.
proof fn lemma_last_shown(ms: Seq<(int, Mark)>, lines: int, at: int)
    requires
        0 <= at < ms.len(),
        ms[at].0 == lines,
        lines >= 0,
    ensures
        has_mark(shown(ms, lines), if lines > 0 { lines - 1 } else { 0 }),
{
    lemma_first_shown(ms, lines, at);
    let h = choose|h: int|
        0 <= h <= at && shown_at((#[trigger] ms[h]).0, lines) == shown_at(ms[at].0, lines) && shown(
            ms,
            lines,
        ).contains((shown_at(ms[h].0, lines), ms[h].1));
    let r = shown(ms, lines);
    let i = choose|i: int| 0 <= i < r.len() && r[i] == (shown_at(ms[h].0, lines), ms[h].1);
    assert(r[i].0 == shown_at(ms[at].0, lines));
}

/// Some mark on the line of each mark is shown.
proof fn lemma_first_shown(ms: Seq<(int, Mark)>, lines: int, i: int)
    requires
        0 <= i < ms.len(),
    ensures
        exists|h: int|
            0 <= h <= i && shown_at((#[trigger] ms[h]).0, lines) == shown_at(ms[i].0, lines) && shown(
                ms,
                lines,
            ).contains((shown_at(ms[h].0, lines), ms[h].1)),
    decreases i,
{
    if forall|h: int|
        0 <= h < i ==> shown_at((#[trigger] ms[h]).0, lines) != shown_at(ms[i].0, lines) {
        lemma_shown_holds(ms, lines, i);
        assert(shown_at(ms[i].0, lines) == shown_at(ms[i].0, lines));
    } else {
        let h = choose|h: int|
            0 <= h < i && shown_at((#[trigger] ms[h]).0, lines) == shown_at(ms[i].0, lines);
        lemma_first_shown(ms, lines, h);
        let g = choose|g: int|
            0 <= g <= h && shown_at((#[trigger] ms[g]).0, lines) == shown_at(ms[h].0, lines)
                && shown(ms, lines).contains((shown_at(ms[g].0, lines), ms[g].1));
        assert(0 <= g <= i);
    }
}

/// A line that is lined up with an old one is not marked as added or changed.
#[verifier::rlimit(40)]
pub proof fn law_what_is_lined_up_is_not_changed(before: Seq<char>, after: Seq<char>, k: int, m: Mark)
    requires
        lines_of(before).len() + lines_of(after).len() <= usize::MAX,
        0 <= k < lined_up(lines_of(before), lines_of(after)).len(),
        marked(before, after).contains((lined_up(lines_of(before), lines_of(after))[k].1, m)),
    ensures
        m == Mark::Removed,
{
    let (a, b) = (lines_of(before), lines_of(after));
    let s = Stretch { a: 0, b: a.len() as int, c: 0, d: b.len() as int };
    let pairs = lined_up(a, b);
    let n = pairs.len() as int;
    let lines = b.len() as int;
    law_lined_up_lines_say_the_same(a, b);
    let ms = marks_along(pairs, a.len() as int, lines);
    let line = pairs[k].1;
    assert(0 <= pairs[k].1 < lines);
    let i = choose|i: int| 0 <= i < shown(ms, lines).len() && shown(ms, lines)[i] == (line, m);
    lemma_shown_comes_from(ms, lines, i);
    let h = choose|h: int|
        0 <= h < ms.len() && shown(ms, lines)[i] == (shown_at((#[trigger] ms[h]).0, lines), ms[h].1);
    lemma_marked_lines(pairs, s, n);
    let base = marks_to(pairs, n);
    assert(0 <= pairs[n - 1].0 < a.len() && 0 <= pairs[n - 1].1 < lines);
    if h < base.len() {
        assert(ms[h] == base[h]);
        assert(base[h].0 < lines) by {
            lemma_marks_to(pairs, s, n);
        }
        assert(base[h].1 == Mark::Removed || base[h].0 != pairs[k].1);
    } else {
        let more = marks_between(after_pair(pairs, n), (a.len() as int, lines));
        assert(ms[h] == more[h - base.len()]);
        if k < n - 1 {
            assert(pairs[k].1 < pairs[n - 1].1);
        }
    }
}

/// None of the marks up to a shared line says that a shared line was added or
/// changed.
proof fn lemma_marked_lines(pairs: Seq<(int, int)>, s: Stretch, k: int)
    requires
        climbs(pairs, s),
        s.a == 0,
        s.c == 0,
        0 <= k <= pairs.len(),
    ensures
        forall|i: int, p: int|
            0 <= i < marks_to(pairs, k).len() && 0 <= p < pairs.len() ==> (#[trigger] marks_to(
                pairs,
                k,
            )[i]).1 == Mark::Removed || marks_to(pairs, k)[i].0 != (#[trigger] pairs[p]).1,
    decreases k,
{
    if k > 0 {
        lemma_marked_lines(pairs, s, k - 1);
        let at = after_pair(pairs, k - 1);
        let first = marks_to(pairs, k - 1);
        let second = marks_between(at, pairs[k - 1]);
        let m = marks_to(pairs, k);
        assert forall|i: int, p: int| 0 <= i < m.len() && 0 <= p < pairs.len() implies (
        #[trigger] m[i]).1 == Mark::Removed || m[i].0 != (#[trigger] pairs[p]).1 by {
            if i < first.len() {
                assert(m[i] == first[i]);
            } else {
                assert(m[i] == second[i - first.len()]);
                if p < k - 1 {
                    assert(p == k - 2 || pairs[p].1 < pairs[k - 2].1);
                } else if p > k - 1 {
                    assert(pairs[k - 1].1 < pairs[p].1);
                }
            }
        }
    }
}

/// The marks kept of a file say of the document what has changed since the commit: a line
/// of the document that is lined up with none that was committed is marked as added or as
/// changed, and no other is.
pub proof fn law_kept_marks_are_those_of_the_document(
    w: Watched,
    base: Seq<char>,
    text: Seq<char>,
    version: i32,
    j: int,
)
    requires
        watches(w, Some(base), text, version),
        lines_of(base).len() + lines_of(text).len() <= usize::MAX,
        0 <= j < lines_of(text).len(),
    ensures
        ({
            let pairs = lined_up(lines_of(base), lines_of(text));
            let ms = int_marks(w.marks@);
            (exists|k: int| 0 <= k < pairs.len() && (#[trigger] pairs[k]).1 == j) <==> !(ms.contains(
                (j, Mark::Added),
            ) || ms.contains((j, Mark::Changed)))
        }),
{
    let (a, b) = (lines_of(base), lines_of(text));
    let s = Stretch { a: 0, b: a.len() as int, c: 0, d: b.len() as int };
    let pairs = lined_up(a, b);
    let ms = marked(base, text);
    law_lined_up_lines_say_the_same(a, b);
    if exists|k: int| 0 <= k < pairs.len() && (#[trigger] pairs[k]).1 == j {
        let k = choose|k: int| 0 <= k < pairs.len() && (#[trigger] pairs[k]).1 == j;
        if ms.contains((j, Mark::Added)) {
            law_what_is_lined_up_is_not_changed(base, text, k, Mark::Added);
        }
        if ms.contains((j, Mark::Changed)) {
            law_what_is_lined_up_is_not_changed(base, text, k, Mark::Changed);
        }
    } else {
        lemma_in_some_gap(pairs, s, j, pairs.len() as int);
        let k = choose|k: int|
            0 <= k <= pairs.len() && (#[trigger] left_over(s, pairs, k)).c <= j < left_over(
                s,
                pairs,
                k,
            ).d;
        law_what_is_not_lined_up_is_marked(base, text, k, j);
    }
}

proof fn lemma_in_some_gap(pairs: Seq<(int, int)>, s: Stretch, j: int, n: int)
    requires
        climbs(pairs, s),
        s.c <= j < s.d,
        0 <= n <= pairs.len(),
        n < pairs.len() ==> j < pairs[n].1,
        forall|k: int| 0 <= k < pairs.len() ==> (#[trigger] pairs[k]).1 != j,
    ensures
        exists|k: int|
            0 <= k <= pairs.len() && (#[trigger] left_over(s, pairs, k)).c <= j < left_over(
                s,
                pairs,
                k,
            ).d,
    decreases n,
{
    if n > 0 && j < pairs[n - 1].1 {
        lemma_in_some_gap(pairs, s, j, n - 1);
    } else {
        assert(n > 0 ==> pairs[n - 1].1 != j);
        let g = left_over(s, pairs, n);
        assert(g.c <= j < g.d);
    }
}

} // verus!
