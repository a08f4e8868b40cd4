//! What the command line asks for, and what is said there.
use vstd::prelude::*;

use crate::numbers::{decimal, write_number};
use crate::pack::strung_up;
use crate::plan::{idle, plan_lines, Plan, Scheme};
use crate::strings::{maybe_text, strung, texts};

verus! {

/// What was asked for besides opening files.
#[derive(Debug)]
pub struct Asked {
    pub list_themes: bool,
    pub list_plugins: bool,
    pub refresh: bool,
    pub update: bool,
    pub list_packages: bool,
    pub install: bool,
    pub uninstall: bool,
    pub list_languages: bool,
    pub log_path: bool,
}

/// What is done, which is one thing however many were asked for.
#[derive(Clone, Copy, PartialEq, Eq, Structural, Debug)]
pub enum Errand {
    ListThemes,
    ListPlugins,
    Refresh,
    Update,
    ListPackages,
    Install,
    Uninstall,
    ListLanguages,
    LogPath,
    Edit,
}

/// The first of the things asked for, and editing where there is none.
pub open spec fn errand_for(a: Asked) -> Errand {
    if a.list_themes {
        Errand::ListThemes
    } else if a.list_plugins {
        Errand::ListPlugins
    } else if a.refresh {
        Errand::Refresh
    } else if a.update {
        Errand::Update
    } else if a.list_packages {
        Errand::ListPackages
    } else if a.install {
        Errand::Install
    } else if a.uninstall {
        Errand::Uninstall
    } else if a.list_languages {
        Errand::ListLanguages
    } else if a.log_path {
        Errand::LogPath
    } else {
        Errand::Edit
    }
}

impl Asked {
    /// What is to be done.
    pub fn errand(&self) -> (e: Errand)
        ensures
            e == errand_for(*self),
    {
        if self.list_themes {
            Errand::ListThemes
        } else if self.list_plugins {
            Errand::ListPlugins
        } else if self.refresh {
            Errand::Refresh
        } else if self.update {
            Errand::Update
        } else if self.list_packages {
            Errand::ListPackages
        } else if self.install {
            Errand::Install
        } else if self.uninstall {
            Errand::Uninstall
        } else if self.list_languages {
            Errand::ListLanguages
        } else if self.log_path {
            Errand::LogPath
        } else {
            Errand::Edit
        }
    }
}

// ---------------------------------------------------------------------------
// Plugins and languages
// ---------------------------------------------------------------------------

/// How a plugin stands: off, on, or on with something still to get.
pub open spec fn standing(on: bool, ready: bool) -> Seq<char> {
    if !on {
        "off"@
    } else if ready {
        "on "@
    } else {
        "get"@
    }
}

/// How a plugin stands, in three letters.
pub fn state_of(on: bool, ready: bool) -> (s: &'static str)
    ensures
        s@ == standing(on, ready),
{
    if !on {
        "off"
    } else if ready {
        "on "
    } else {
        "get"
    }
}

/// What to do about a plugin that lacks something.
pub open spec fn remedy(id: Seq<char>, can_install: bool, see: Option<Seq<char>>) -> Seq<char> {
    if can_install {
        "textfold --install "@ + id
    } else {
        match see {
            Some(place) => "see "@ + place,
            None => "install it yourself and textfold will find it"@,
        }
    }
}

/// What to do about a plugin that lacks something: one that knows how to fetch
/// it, one that only knows where it lives, and one that knows neither.
pub fn what_to_do(id: &str, can_install: bool, see: &Option<String>) -> (s: String)
    ensures
        s@ == remedy(id@, can_install, maybe_text(*see)),
{
    if can_install {
        let mut s: String = "textfold --install ".to_owned();
        s.append(id);
        return s;
    }
    match see {
        Some(place) => {
            let mut s: String = "see ".to_owned();
            s.append(place.as_str());
            s
        },
        None => "install it yourself and textfold will find it".to_owned(),
    }
}

/// What there is to say of a language: whether it is coloured, and what runs
/// for it.
pub open spec fn equipment(coloured: bool, commands: Seq<Seq<char>>) -> Seq<Seq<char>> {
    if coloured {
        seq!["coloured"@] + commands
    } else {
        commands
    }
}

/// What there is to say of a language, on one line.
pub fn about_language(coloured: bool, commands: &Vec<String>) -> (s: String)
    ensures
        s@ == strung(equipment(coloured, texts(commands@)), ", "@),
{
    let ghost all = texts(commands@);
    let ghost want = equipment(coloured, all);
    let ghost from: int = if coloured { 1 } else { 0 };
    let mut v: Vec<String> = Vec::new();
    if coloured {
        v.push("coloured".to_owned());
    }
    assert(texts(v@) =~= want.take(from));
    let mut i: usize = 0;
    while i < commands.len()
        invariant
            i <= commands@.len(),
            all == texts(commands@),
            want == equipment(coloured, all),
            from == if coloured { 1int } else { 0int },
            texts(v@) == want.take(from + i),
        decreases commands@.len() - i,
    {
        let ghost had = v@;
        v.push(commands[i].clone());
        assert(want[from + i] == commands@[i as int]@);
        assert(texts(v@) =~= texts(had).push(commands@[i as int]@));
        i = i + 1;
        assert(texts(v@) =~= want.take(from + i));
    }
    assert(want.take(from + i) =~= want);
    strung_up(&v, ", ")
}

// ---------------------------------------------------------------------------
// Packages
// ---------------------------------------------------------------------------

/// What is said before a plan is carried out.
pub open spec fn announcement(p: Scheme, tools: Option<Seq<char>>) -> Seq<Seq<char>> {
    if idle(p) {
        seq![p.name + " has nothing to do — it is already here"@]
    } else {
        seq![p.name + ":"@] + plan_lines(p, tools).map_values(|l: Seq<char>| "  "@ + l) + (
        if p.removing {
            Seq::empty()
        } else if exists|i: int| 0 <= i < p.steps.len() && (#[trigger] p.steps[i]).system {
            seq![
                Seq::empty(),
                "Some of this installs system-wide — the lines that say so above."@,
            ]
        } else {
            match tools {
                Some(dir) => seq![Seq::empty(), "Into "@ + dir],
                None => Seq::empty(),
            }
        }) + seq![Seq::empty()]
    }
}

/// The lines that are printed before a plan is carried out: what it will do,
/// and where what it fetches goes. Of a plan that does nothing, that.
pub fn announce(plan: &Plan, tools: &Option<String>) -> (v: Vec<String>)
    ensures
        texts(v@) == announcement(plan@, maybe_text(*tools)),
{
    let ghost p = plan@;
    let ghost dir = maybe_text(*tools);
    let mut v: Vec<String> = Vec::new();
    let mut first: String = plan.name.clone();
    if plan.is_empty() {
        first.append(" has nothing to do — it is already here");
        v.push(first);
        assert(texts(v@) =~= announcement(p, dir));
        return v;
    }
    first.append(":");
    v.push(first);
    let lines = plan.lines(tools);
    let ghost ls = plan_lines(p, dir);
    let ghost put = ls.map_values(|l: Seq<char>| "  "@ + l);
    let mut i: usize = 0;
    assert(texts(v@) =~= seq![p.name + ":"@] + put.take(0));
    while i < lines.len()
        invariant
            i <= lines@.len(),
            ls == texts(lines@),
            put == ls.map_values(|l: Seq<char>| "  "@ + l),
            texts(v@) == seq![p.name + ":"@] + put.take(i as int),
        decreases lines@.len() - i,
    {
        let ghost had = v@;
        let mut line: String = "  ".to_owned();
        line.append(lines[i].as_str());
        assert(line@ == put[i as int]);
        let ghost one = line@;
        v.push(line);
        assert(texts(v@) =~= texts(had).push(one));
        i = i + 1;
        assert(texts(v@) =~= seq![p.name + ":"@] + put.take(i as int));
    }
    assert(put.take(i as int) =~= put);
    let ghost shown = v@;
    let mut more: Vec<String> = Vec::new();
    if !plan.removing {
        if plan.touches_system() {
            more.push(String::new());
            more.push("Some of this installs system-wide — the lines that say so above.".to_owned());
        } else if let Some(dir) = tools {
            more.push(String::new());
            let mut into: String = "Into ".to_owned();
            into.append(dir.as_str());
            more.push(into);
        }
    }
    more.push(String::new());
    let ghost rest = more@;
    v.append(&mut more);
    assert(texts(v@) =~= texts(shown) + texts(rest));
    assert(texts(v@) =~= announcement(p, dir));
    v
}

/// What is said where there is nothing newer: of the one package that was
/// named, or of all of them.
pub open spec fn up_to_date(what: Seq<char>) -> Seq<char> {
    if what.len() == 0 {
        "everything is at the newest version there is"@
    } else {
        what + " is already at the newest version there is"@
    }
}

/// What is said where there is nothing newer.
pub fn nothing_newer(what: &str) -> (s: String)
    ensures
        s@ == up_to_date(what@),
{
    if what.is_empty() {
        return "everything is at the newest version there is".to_owned();
    }
    let mut s: String = what.to_owned();
    s.append(" is already at the newest version there is");
    s
}

// ---------------------------------------------------------------------------
// Opening files
// ---------------------------------------------------------------------------

/// Whether what was open last time is opened again: only where nothing was
/// named and nobody said otherwise.
pub fn wants_session(named: usize, no_session: bool, restores: bool) -> (yes: bool)
    ensures
        yes == (named == 0 && !no_session && restores),
{
    named == 0 && !no_session && restores
}

/// What is said of the files that were opened again.
pub open spec fn welcome_back(count: nat) -> Option<Seq<char>> {
    if count == 0 {
        None
    } else {
        Some(
            decimal(count) + " "@ + (if count == 1 { "file"@ } else { "files"@ })
                + " from last time — --no-session starts empty"@,
        )
    }
}

/// What is said of the files that were opened again.
pub fn restored(count: u64) -> (r: Option<String>)
    ensures
        maybe_text(r) == welcome_back(count as nat),
{
    if count == 0 {
        return None;
    }
    let mut s: String = String::new();
    write_number(&mut s, count);
    s.append(" ");
    s.append(if count == 1 { "file" } else { "files" });
    s.append(" from last time — --no-session starts empty");
    assert(s@ =~= welcome_back(count as nat)->0);
    Some(s)
}

/// Where to go once the files are open: the line that was asked for, counted
/// from one, and else the place that came with the last file.
pub open spec fn destination(
    places: Seq<Option<(usize, usize)>>,
    line: Option<usize>,
) -> Option<(usize, usize)> {
    match line {
        Some(n) => Some((if n == 0 { 0 } else { (n - 1) as usize }, 0)),
        None => if places.len() == 0 {
            None
        } else {
            places.last()
        },
    }
}

/// Where to go once the files are open.
pub fn go_to(places: &Vec<Option<(usize, usize)>>, line: Option<usize>) -> (r: Option<(usize, usize)>)
    ensures
        r == destination(places@, line),
{
    match line {
        Some(n) => Some((if n == 0 { 0 } else { n - 1 }, 0)),
        None => if places.len() == 0 {
            None
        } else {
            places[places.len() - 1]
        },
    }
}

} // verus!
