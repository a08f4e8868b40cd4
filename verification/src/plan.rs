//! Installing and removing: what is going to be done, worked out before any of
//! it happens, and then done one thing at a time.
use vstd::prelude::*;

use crate::chars::same;
use crate::offers::Known;
use crate::pack::{
    fill, put_extension, strung_up, with_extension, with_tools, Entry, From, Listing, Origin, Package,
    Parcel, Remote, Shop,
};
use crate::path::{join, joined};
use crate::rpc::views;
use crate::strings::{copy_maybe, copy_texts, is_one_of, maybe_text, strung, texts};

verus! {

// ---------------------------------------------------------------------------
// Steps and plans
// ---------------------------------------------------------------------------

/// One program to run.
#[derive(Debug)]
pub struct Step {
    pub about: String,
    /// The program and its arguments.
    pub run: Vec<String>,
    /// Nothing to do where this program is here.
    pub unless: Option<String>,
    /// Nothing to do where this file is not there.
    pub when: Option<String>,
    /// The systems that it is for; all, where none is named.
    pub os: Vec<String>,
    /// The processors that it is for; all, where none is named.
    pub arch: Vec<String>,
    /// Whether it reaches outside the editor's own directory.
    pub system: bool,
}

/// One program to run.
#[verifier::ext_equal]
pub ghost struct Task {
    pub about: Seq<char>,
    pub run: Seq<Seq<char>>,
    pub unless: Option<Seq<char>>,
    pub when: Option<Seq<char>>,
    pub os: Seq<Seq<char>>,
    pub arch: Seq<Seq<char>>,
    pub system: bool,
}

impl View for Step {
    type V = Task;

    open spec fn view(&self) -> Task {
        Task {
            about: self.about@,
            run: texts(self.run@),
            unless: maybe_text(self.unless),
            when: maybe_text(self.when),
            os: texts(self.os@),
            arch: texts(self.arch@),
            system: self.system,
        }
    }
}

/// Whether a step is for this machine.
pub open spec fn for_machine(t: Task, os: Seq<char>, arch: Seq<char>) -> bool {
    (t.os.len() == 0 || t.os.contains(os)) && (t.arch.len() == 0 || t.arch.contains(arch))
}

/// A step, as it would be typed.
pub open spec fn task_line(t: Task) -> Seq<char> {
    strung(t.run, " "@)
}

impl Step {
    /// Whether it is for this machine.
    pub fn here(&self, os: &str, arch: &str) -> (yes: bool)
        ensures
            yes == for_machine(self@, os@, arch@),
    {
        assert(texts(self.os@).len() == self.os@.len());
        assert(texts(self.arch@).len() == self.arch@.len());
        (self.os.len() == 0 || is_one_of(&self.os, os)) && (self.arch.len() == 0 || is_one_of(
            &self.arch,
            arch,
        ))
    }

    /// The step, as it would be typed.
    pub fn line(&self) -> (s: String)
        ensures
            s@ == task_line(self@),
    {
        strung_up(&self.run, " ")
    }

    /// The same once more.
    pub fn copy(&self) -> (s: Step)
        ensures
            s@ == self@,
    {
        let s = Step {
            about: self.about.clone(),
            run: copy_texts(&self.run),
            unless: copy_maybe(&self.unless),
            when: copy_maybe(&self.when),
            os: copy_texts(&self.os),
            arch: copy_texts(&self.arch),
            system: self.system,
        };
        assert(s@ =~= self@);
        s
    }
}

/// The steps among the first `n` that are for this machine.
pub open spec fn tasks_here(ts: Seq<Task>, os: Seq<char>, arch: Seq<char>, n: int) -> Seq<Task>
    decreases n,
{
    if n <= 0 {
        Seq::empty()
    } else if for_machine(ts[n - 1], os, arch) {
        tasks_here(ts, os, arch, n - 1).push(ts[n - 1])
    } else {
        tasks_here(ts, os, arch, n - 1)
    }
}

/// The steps that are for this machine.
pub fn steps_here(steps: &Vec<Step>, os: &str, arch: &str) -> (v: Vec<Step>)
    ensures
        views(v@) == tasks_here(views(steps@), os@, arch@, steps@.len() as int),
{
    let ghost all = views(steps@);
    let mut v: Vec<Step> = Vec::new();
    let mut n: usize = 0;
    assert(views(v@) =~= tasks_here(all, os@, arch@, 0));
    while n < steps.len()
        invariant
            n <= steps@.len(),
            all == views(steps@),
            views(v@) == tasks_here(all, os@, arch@, n as int),
        decreases steps@.len() - n,
    {
        assert(all[n as int] == steps@[n as int]@);
        if steps[n].here(os, arch) {
            let ghost had = v@;
            v.push(steps[n].copy());
            assert(views(v@) =~= views(had).push(all[n as int]));
        }
        n = n + 1;
    }
    v
}

/// What has to happen to the files.
#[derive(Debug)]
pub enum Files {
    /// Nothing.
    Leave,
    /// Copy a package in, and leave a receipt.
    Copy { from: String, to: String },
    /// Fetch a package from a repository and unpack it.
    Fetch { remote: Remote, to: String },
    /// Take away what was put there.
    Remove(String),
}

/// What has to happen to the files.
pub ghost enum Filing {
    Leave,
    Copy(Seq<char>, Seq<char>),
    Fetch((Shop, Listing), Seq<char>),
    Remove(Seq<char>),
}

impl View for Files {
    type V = Filing;

    open spec fn view(&self) -> Filing {
        match self {
            Files::Leave => Filing::Leave,
            Files::Copy { from, to } => Filing::Copy(from@, to@),
            Files::Fetch { remote, to } => Filing::Fetch(remote@, to@),
            Files::Remove(dir) => Filing::Remove(dir@),
        }
    }
}

/// Everything that an installation or a removal is going to do.
#[derive(Debug)]
pub struct Plan {
    pub id: String,
    pub name: String,
    /// Whether something is taken away.
    pub removing: bool,
    pub files: Files,
    pub steps: Vec<Step>,
    /// What has to be there when it has finished.
    pub needs: Vec<String>,
    /// Where to go when none of the steps could manage it.
    pub see: Option<String>,
    /// Where the manifest that says what to run will be, for a package that is
    /// being fetched.
    pub steps_from: Option<String>,
}

/// Everything that an installation or a removal is going to do.
#[verifier::ext_equal]
pub ghost struct Scheme {
    pub id: Seq<char>,
    pub name: Seq<char>,
    pub removing: bool,
    pub files: Filing,
    pub steps: Seq<Task>,
    pub needs: Seq<Seq<char>>,
    pub see: Option<Seq<char>>,
    pub steps_from: Option<Seq<char>>,
}

impl View for Plan {
    type V = Scheme;

    open spec fn view(&self) -> Scheme {
        Scheme {
            id: self.id@,
            name: self.name@,
            removing: self.removing,
            files: self.files@,
            steps: views(self.steps@),
            needs: texts(self.needs@),
            see: maybe_text(self.see),
            steps_from: maybe_text(self.steps_from),
        }
    }
}

/// Whether there is nothing in a plan at all.
pub open spec fn idle(p: Scheme) -> bool {
    p.files is Leave && p.steps.len() == 0 && p.steps_from is None
}

/// What a plan does to the files, in words.
pub open spec fn filing_line(f: Filing) -> Option<Seq<char>> {
    match f {
        Filing::Leave => None,
        Filing::Copy(from, to) => Some("copy "@ + from + " to "@ + to),
        Filing::Fetch(remote, to) => Some(
            "fetch "@ + remote.1.id + " "@ + remote.1.version + " from "@ + remote.0.name + " into "@
                + to,
        ),
        Filing::Remove(dir) => Some("remove "@ + dir),
    }
}

/// A step, in words: as it will run, and whether it reaches further than the
/// editor's own directory.
pub open spec fn step_line(t: Task, tools: Option<Seq<char>>) -> Seq<char> {
    let line = with_tools(task_line(t), tools);
    if t.system { line + " (installs system-wide)"@ } else { line }
}

/// The first `n` steps in words, behind what comes before.
pub open spec fn step_lines(
    before: Seq<Seq<char>>,
    ts: Seq<Task>,
    tools: Option<Seq<char>>,
    n: int,
) -> Seq<Seq<char>>
    decreases n,
{
    if n <= 0 {
        before
    } else {
        step_lines(before, ts, tools, n - 1).push(step_line(ts[n - 1], tools))
    }
}

/// What a plan will do, in words.
pub open spec fn plan_lines(p: Scheme, tools: Option<Seq<char>>) -> Seq<Seq<char>> {
    let files = match filing_line(p.files) {
        Some(line) => seq![line],
        None => Seq::empty(),
    };
    let more = if p.steps_from is Some {
        files.push("then whatever its manifest says it needs, once it is here"@)
    } else {
        files
    };
    step_lines(more, p.steps, tools, p.steps.len() as int)
}

fn line_of_files(f: &Files) -> (r: Option<String>)
    ensures
        maybe_text(r) == filing_line(f@),
{
    match f {
        Files::Leave => None,
        Files::Copy { from, to } => {
            let mut s = "copy ".to_owned();
            s.append(from.as_str());
            s.append(" to ");
            s.append(to.as_str());
            Some(s)
        },
        Files::Fetch { remote, to } => {
            let mut s = "fetch ".to_owned();
            s.append(remote.entry.id.as_str());
            s.append(" ");
            s.append(remote.entry.version.as_str());
            s.append(" from ");
            s.append(remote.repository.name.as_str());
            s.append(" into ");
            s.append(to.as_str());
            Some(s)
        },
        Files::Remove(dir) => {
            let mut s = "remove ".to_owned();
            s.append(dir.as_str());
            Some(s)
        },
    }
}

impl Plan {
    /// Whether there is nothing in it at all.
    pub fn is_empty(&self) -> (yes: bool)
        ensures
            yes == idle(self@),
    {
        assert(views(self.steps@).len() == self.steps@.len());
        matches!(self.files, Files::Leave) && self.steps.len() == 0 && self.steps_from.is_none()
    }

    /// The lines to show somebody who wants to know what this will do. `tools`
    /// is the editor's own directory.
    pub fn lines(&self, tools: &Option<String>) -> (v: Vec<String>)
        ensures
            texts(v@) == plan_lines(self@, maybe_text(*tools)),
    {
        let mut v: Vec<String> = Vec::new();
        assert(texts(v@) =~= Seq::<Seq<char>>::empty());
        if let Some(line) = line_of_files(&self.files) {
            let ghost is = line@;
            v.push(line);
            assert(texts(v@) =~= seq![is]);
        }
        if self.steps_from.is_some() {
            let ghost had = v@;
            let line = "then whatever its manifest says it needs, once it is here".to_owned();
            let ghost is = line@;
            v.push(line);
            assert(texts(v@) =~= texts(had).push(is));
        }
        let ghost before = texts(v@);
        let ghost ts = views(self.steps@);
        let ghost own = maybe_text(*tools);
        let mut n: usize = 0;
        while n < self.steps.len()
            invariant
                n <= self.steps@.len(),
                ts == views(self.steps@),
                own == maybe_text(*tools),
                texts(v@) == step_lines(before, ts, own, n as int),
            decreases self.steps@.len() - n,
        {
            assert(ts[n as int] == self.steps@[n as int]@);
            let mut line = fill(self.steps[n].line().as_str(), tools);
            if self.steps[n].system {
                line.append(" (installs system-wide)");
            }
            let ghost had = v@;
            let ghost is = line@;
            v.push(line);
            assert(texts(v@) =~= texts(had).push(is));
            n = n + 1;
        }
        v
    }

    /// Whether any of it reaches outside the editor's own directory.
    pub fn touches_system(&self) -> (yes: bool)
        ensures
            yes == exists|i: int| 0 <= i < self@.steps.len() && (#[trigger] self@.steps[i]).system,
    {
        let ghost ts = self@.steps;
        let mut i: usize = 0;
        while i < self.steps.len()
            invariant
                i <= self.steps@.len(),
                ts == views(self.steps@),
                forall|k: int| 0 <= k < i ==> !(#[trigger] ts[k]).system,
            decreases self.steps@.len() - i,
        {
            assert(ts[i as int] == self.steps@[i as int]@);
            if self.steps[i].system {
                return true;
            }
            i = i + 1;
        }
        false
    }
}

// ---------------------------------------------------------------------------
// Making one
// ---------------------------------------------------------------------------

/// What a manifest says of installing and removing.
#[derive(Debug)]
pub struct Instructions {
    pub name: String,
    pub install: Vec<Step>,
    pub uninstall: Vec<Step>,
    pub needs: Vec<String>,
    pub see: Option<String>,
}

/// Where the files of a package go. What somebody made by hand is not written
/// over.
pub open spec fn place_for(
    id: Seq<char>,
    plugins: Option<Seq<char>>,
    is_there: bool,
    removable: bool,
) -> Result<Seq<char>, Seq<char>> {
    match plugins {
        Some(dir) => {
            let to = joined(dir, id);
            if is_there && !removable {
                Err(to + " is already there and textfold did not put it there"@)
            } else {
                Ok(to)
            }
        },
        None => Err("there is nowhere to install plugins on this machine"@),
    }
}

/// What an answer says.
pub open spec fn said_text(r: Result<String, String>) -> Result<Seq<char>, Seq<char>> {
    match r {
        Ok(s) => Ok(s@),
        Err(s) => Err(s@),
    }
}

/// Where the files of a package go, by whether something is there already and
/// may be taken away.
pub fn install_to(id: &str, plugins: &Option<String>, is_there: bool, removable: bool) -> (r: Result<
    String,
    String,
>)
    ensures
        said_text(r) == place_for(id@, maybe_text(*plugins), is_there, removable),
{
    match plugins {
        Some(dir) => {
            let to = join(dir.as_str(), id);
            if is_there && !removable {
                let mut why = to;
                why.append(" is already there and textfold did not put it there");
                Err(why)
            } else {
                Ok(to)
            }
        },
        None => Err("there is nowhere to install plugins on this machine".to_owned()),
    }
}

/// What a manifest that was read says, but for one with something wrong in it.
pub open spec fn first_problem(problems: Seq<Seq<char>>) -> Option<Seq<char>> {
    if problems.len() > 0 { Some(problems[0]) } else { None }
}

/// What a manifest says that has not been loaded as a plugin. One with something
/// wrong in it says nothing.
pub fn from_manifest(read: Instructions, problems: &Vec<String>) -> (r: Result<
    Instructions,
    String,
>)
    ensures
        match first_problem(texts(problems@)) {
            Some(why) => r is Err && r->Err_0@ == why,
            None => r == Ok::<Instructions, String>(read),
        },
{
    assert(texts(problems@).len() == problems@.len());
    if problems.len() > 0 {
        assert(texts(problems@)[0] == problems@[0]@);
        Err(problems[0].clone())
    } else {
        Ok(read)
    }
}

/// What installing a package would do: one from a path is copied and one from a
/// repository fetched, and then what its manifest says is run. That of one from
/// a repository is not here to be read yet.
pub open spec fn installation(
    p: Parcel,
    said: Option<Instructions>,
    to: Result<Seq<char>, Seq<char>>,
    os: Seq<char>,
    arch: Seq<char>,
) -> Result<Scheme, Seq<char>> {
    let files = match (p.origin, to) {
        (From::Path(from), Ok(to)) => Ok(Filing::Copy(from, to)),
        (From::Remote(shop, listing), Ok(to)) => Ok(Filing::Fetch((shop, listing), to)),
        (From::Path(_), Err(why)) => Err(why),
        (From::Remote(_, _), Err(why)) => Err(why),
        _ => Ok(Filing::Leave),
    };
    match (p.origin is Remote, said, files) {
        (false, None, _) => Err(p.id + " is not here to install"@),
        (_, _, Err(why)) => Err(why),
        (true, _, Ok(files)) => Ok(
            Scheme {
                id: p.id,
                name: p.name,
                removing: false,
                files,
                steps: Seq::empty(),
                needs: p.missing,
                see: None,
                steps_from: Some(to->Ok_0),
            },
        ),
        (false, Some(s), Ok(files)) => Ok(
            Scheme {
                id: p.id,
                name: s.name@,
                removing: false,
                files,
                steps: tasks_here(views(s.install@), os, arch, s.install@.len() as int),
                needs: texts(s.needs@),
                see: maybe_text(s.see),
                steps_from: None,
            },
        ),
    }
}

/// What an answer says.
pub open spec fn said_plan(r: Result<Plan, String>) -> Result<Scheme, Seq<char>> {
    match r {
        Ok(p) => Ok(p@),
        Err(s) => Err(s@),
    }
}

/// Work out what installing a package would do. `said` is what its manifest says,
/// and `to` where its files go, which is asked where there are files.
pub fn install(
    package: &Package,
    said: &Option<Instructions>,
    to: &Result<String, String>,
    os: &str,
    arch: &str,
) -> (r: Result<Plan, String>)
    ensures
        said_plan(r) == installation(package@, *said, said_text(*to), os@, arch@),
{
    let remote = matches!(package.origin, Origin::Remote(_));
    if !remote && said.is_none() {
        let mut why = package.id.clone();
        why.append(" is not here to install");
        return Err(why);
    }
    let files = match &package.origin {
        Origin::Path(from) => match to {
            Ok(to) => Files::Copy { from: from.clone(), to: to.clone() },
            Err(why) => {
                return Err(why.clone());
            },
        },
        Origin::Remote(remote) => match to {
            Ok(to) => Files::Fetch { remote: remote.copy(), to: to.clone() },
            Err(why) => {
                return Err(why.clone());
            },
        },
        _ => Files::Leave,
    };
    if remote {
        let fetched: Option<String> = match to {
            Ok(to) => Some(to.clone()),
            Err(_) => None,
        };
        let p = Plan {
            id: package.id.clone(),
            name: package.name.clone(),
            removing: false,
            files,
            steps: Vec::new(),
            needs: copy_texts(&package.missing),
            see: None,
            steps_from: fetched,
        };
        assert(views(p.steps@) =~= Seq::<Task>::empty());
        assert(p@ =~= installation(package@, *said, said_text(*to), os@, arch@)->Ok_0);
        return Ok(p);
    }
    match said {
        Some(s) => {
            let p = Plan {
                id: package.id.clone(),
                name: s.name.clone(),
                removing: false,
                files,
                steps: steps_here(&s.install, os, arch),
                needs: copy_texts(&s.needs),
                see: copy_maybe(&s.see),
                steps_from: None,
            };
            assert(p@ =~= installation(package@, *said, said_text(*to), os@, arch@)->Ok_0);
            Ok(p)
        },
        None => {
            let mut why = package.id.clone();
            why.append(" is not here to install");
            Err(why)
        },
    }
}

/// What removing a plugin would do.
pub open spec fn removal(
    id: Seq<char>,
    k: Option<Known>,
    undo: Seq<Task>,
    os: Seq<char>,
    arch: Seq<char>,
) -> Result<Scheme, Seq<char>> {
    match k {
        None => Err("there is no plugin called "@ + id),
        Some(k) => {
            let files = match k.removable {
                Some(dir) => Filing::Remove(dir@),
                None => Filing::Leave,
            };
            if files is Leave && undo.len() == 0 {
                Err(
                    if k.built_in {
                        id
                            + " is built in and says nothing about undoing an install — switch it off instead"@
                    } else {
                        id
                            + " was not installed by textfold, so it is not textfold's to remove"@
                    },
                )
            } else {
                Ok(
                    Scheme {
                        id: k.id@,
                        name: k.name@,
                        removing: true,
                        files,
                        steps: tasks_here(undo, os, arch, undo.len() as int),
                        needs: Seq::empty(),
                        see: None,
                        steps_from: None,
                    },
                )
            }
        },
    }
}

/// Work out what removing a plugin would do. `undo` is what it says of undoing an
/// installation.
pub fn uninstall(id: &str, k: &Option<Known>, undo: &Vec<Step>, os: &str, arch: &str) -> (r: Result<
    Plan,
    String,
>)
    ensures
        said_plan(r) == removal(id@, *k, views(undo@), os@, arch@),
{
    assert(views(undo@).len() == undo@.len());
    match k {
        None => {
            let mut why = "there is no plugin called ".to_owned();
            why.append(id);
            Err(why)
        },
        Some(k) => {
            let files = match &k.removable {
                Some(dir) => Files::Remove(dir.clone()),
                None => {
                    if undo.len() == 0 {
                        let mut why = id.to_owned();
                        if k.built_in {
                            why.append(
                                " is built in and says nothing about undoing an install — switch it off instead",
                            );
                        } else {
                            why.append(
                                " was not installed by textfold, so it is not textfold's to remove",
                            );
                        }
                        return Err(why);
                    }
                    Files::Leave
                },
            };
            let ghost done = files@;
            let p = Plan {
                id: k.id.clone(),
                name: k.name.clone(),
                removing: true,
                files,
                steps: steps_here(undo, os, arch),
                needs: Vec::new(),
                see: None,
                steps_from: None,
            };
            assert(texts(p.needs@) =~= Seq::<Seq<char>>::empty());
            assert(p@ =~= (Scheme {
                id: k.id@,
                name: k.name@,
                removing: true,
                files: done,
                steps: tasks_here(views(undo@), os@, arch@, undo@.len() as int),
                needs: Seq::empty(),
                see: None,
                steps_from: None,
            }));
            Ok(p)
        },
    }
}

/// What was put here, and where it came from.
#[derive(Debug)]
pub struct Receipt {
    pub from: String,
    pub repository: Option<String>,
    pub version: Option<String>,
}

/// What is left behind to say what was put somewhere: where it came from, and its
/// version, which for a package that was copied its manifest says.
pub fn receipt_for(files: &Files, version: &Option<String>) -> (r: Option<Receipt>)
    ensures
        match files@ {
            Filing::Copy(from, _) => {
                &&& r is Some
                &&& r->0.from@ == from
                &&& r->0.repository is None
                &&& maybe_text(r->0.version) == maybe_text(*version)
            },
            Filing::Fetch(remote, _) => {
                &&& r is Some
                &&& r->0.from@ == remote.1.url
                &&& maybe_text(r->0.repository) == Some(remote.0.name)
                &&& maybe_text(r->0.version) == Some(remote.1.version)
            },
            _ => r is None,
        },
{
    match files {
        Files::Copy { from, .. } => Some(
            Receipt { from: from.clone(), repository: None, version: copy_maybe(version) },
        ),
        Files::Fetch { remote, .. } => Some(
            Receipt {
                from: remote.entry.url.clone(),
                repository: Some(remote.repository.name.clone()),
                version: Some(remote.entry.version.clone()),
            },
        ),
        _ => None,
    }
}

/// Whether something that lies in a package goes along when it is copied: not
/// somebody's history of it, and not what Python leaves behind.
pub fn is_copied(name: &str) -> (yes: bool)
    ensures
        yes == (name@ != ".git"@ && name@ != "__pycache__"@),
{
    !same(name, ".git") && !same(name, "__pycache__")
}

/// Where a package is held that is being fetched, until all of it is there: beside
/// where it goes.
pub fn holding_place(to: &str) -> (r: String)
    ensures
        r@ == with_extension(to@, "fetching"@),
{
    put_extension(to, "fetching")
}

/// Whether a download is what the index of its repository says it is: as large,
/// where that gives a size, and of the same digest, where that gives one.
pub open spec fn as_listed(entry: Listing, size: u64, digest: Seq<char>) -> bool {
    &&& entry.size is Some ==> entry.size == Some(size)
    &&& entry.sha256 is Some ==> entry.sha256 == Some(digest)
}

/// What is said of a download that is not what the index says it is.
pub open spec fn not_as_listed(entry: Listing, size: u64) -> Seq<char> {
    if entry.size is Some && entry.size != Some(size) {
        entry.id + " is not the size that its repository gives for it"@
    } else {
        entry.id + " does not match the digest that its repository gives for it"@
    }
}

/// Hold a download against what the index of its repository says of it, before
/// anything of it is unpacked.
pub fn checked(entry: &Entry, size: u64, digest: &str) -> (r: Result<(), String>)
    ensures
        r is Ok <==> as_listed(entry@, size, digest@),
        r is Err ==> (r->Err_0)@ == not_as_listed(entry@, size),
{
    if let Some(n) = entry.size {
        if n != size {
            let mut why = entry.id.clone();
            why.append(" is not the size that its repository gives for it");
            return Err(why);
        }
    }
    if let Some(said) = &entry.sha256 {
        if !same(said.as_str(), digest) {
            let mut why = entry.id.clone();
            why.append(" does not match the digest that its repository gives for it");
            return Err(why);
        }
    }
    Ok(())
}

/// Where the package is in what was unpacked: at the top, or one directory down,
/// where that is all there is.
pub open spec fn unpacked_root(
    top: Seq<char>,
    manifest_at_top: bool,
    dirs: Seq<(Seq<char>, bool)>,
) -> Option<Seq<char>> {
    if manifest_at_top {
        Some(top)
    } else if dirs.len() == 1 && dirs[0].1 {
        Some(dirs[0].0)
    } else {
        None
    }
}

/// Directories, and whether there is a manifest in each.
pub open spec fn dirs_of(v: Seq<(String, bool)>) -> Seq<(Seq<char>, bool)> {
    v.map_values(|p: (String, bool)| (p.0@, p.1))
}

/// Where the package is in what was unpacked. `dirs` are the directories in it,
/// with whether each holds a manifest.
pub fn root_of_unpacked(top: &str, manifest_at_top: bool, dirs: &Vec<(String, bool)>) -> (r: Option<
    String,
>)
    ensures
        maybe_text(r) == unpacked_root(top@, manifest_at_top, dirs_of(dirs@)),
{
    assert(dirs_of(dirs@).len() == dirs@.len());
    if manifest_at_top {
        return Some(top.to_owned());
    }
    if dirs.len() == 1 {
        assert(dirs_of(dirs@)[0] == (dirs@[0].0@, dirs@[0].1));
        if dirs[0].1 {
            return Some(dirs[0].0.clone());
        }
    }
    None
}

// ---------------------------------------------------------------------------
// What a plan comes to
// ---------------------------------------------------------------------------

proof fn lemma_tasks_here(ts: Seq<Task>, os: Seq<char>, arch: Seq<char>, n: int, x: Task)
    requires
        0 <= n <= ts.len(),
    ensures
        tasks_here(ts, os, arch, n).contains(x) <==> exists|i: int|
            0 <= i < n && #[trigger] ts[i] == x && for_machine(x, os, arch),
    decreases n,
{
    if n > 0 {
        lemma_tasks_here(ts, os, arch, n - 1, x);
        let (less, all) = (tasks_here(ts, os, arch, n - 1), tasks_here(ts, os, arch, n));
        if all.contains(x) {
            let k = choose|k: int| 0 <= k < all.len() && all[k] == x;
            if k < less.len() {
                assert(less[k] == x);
            } else {
                assert(ts[n - 1] == x);
            }
        }
        if less.contains(x) {
            let k = choose|k: int| 0 <= k < less.len() && less[k] == x;
            assert(all[k] == x);
        }
        if ts[n - 1] == x && for_machine(x, os, arch) {
            assert(all[less.len() as int] == x);
        }
    }
}

/// The steps that are run are those that name this machine or none, and every one of
/// them.
pub proof fn law_the_steps_run_are_those_for_this_machine(
    ts: Seq<Task>,
    os: Seq<char>,
    arch: Seq<char>,
    x: Task,
)
    ensures
        tasks_here(ts, os, arch, ts.len() as int).contains(x) <==> ts.contains(x) && (x.os.len() == 0
            || x.os.contains(os)) && (x.arch.len() == 0 || x.arch.contains(arch)),
{
    lemma_tasks_here(ts, os, arch, ts.len() as int, x);
    if ts.contains(x) {
        let i = choose|i: int| 0 <= i < ts.len() && ts[i] == x;
        assert(ts[i] == x);
    }
}

/// What is installed from a directory is copied from there to the directory of its
/// own name among the plugins, and what is offered by a repository is fetched to it.
/// What lies there and was not put there by the editor is not written over.
pub proof fn law_files_go_to_a_place_of_their_own(
    p: Parcel,
    said: Option<Instructions>,
    dir: Seq<char>,
    is_there: bool,
    removable: bool,
    os: Seq<char>,
    arch: Seq<char>,
)
    requires
        p.origin is Path || p.origin is Remote,
        p.origin is Path ==> said is Some,
    ensures
        ({
            let to = joined(dir, p.id);
            let plan = installation(p, said, place_for(p.id, Some(dir), is_there, removable), os, arch);
            if is_there && !removable {
                plan is Err
            } else {
                &&& plan is Ok
                &&& plan->Ok_0.id == p.id
                &&& !plan->Ok_0.removing
                &&& match p.origin {
                    From::Path(from) => plan->Ok_0.files == Filing::Copy(from, to),
                    From::Remote(shop, listing) => plan->Ok_0.files == Filing::Fetch(
                        (shop, listing),
                        to,
                    ),
                    _ => true,
                }
            }
        }),
{
}

/// Only what the editor put there itself is removed.
pub proof fn law_only_what_was_put_there_is_removed(
    id: Seq<char>,
    k: Known,
    undo: Seq<Task>,
    os: Seq<char>,
    arch: Seq<char>,
)
    ensures
        ({
            let plan = removal(id, Some(k), undo, os, arch);
            match k.removable {
                Some(dir) => plan is Ok && plan->Ok_0.files == Filing::Remove(dir@)
                    && plan->Ok_0.removing,
                None => plan is Ok ==> plan->Ok_0.files is Leave,
            }
        }),
{
}

} // verus!
