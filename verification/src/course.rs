//! Carrying out a plan, one thing at a time. Whoever carries it out asks what is
//! to be done next, does it, and says how it went.
use vstd::prelude::*;

use crate::numbers::{decimal, write_number};
use crate::pack::{fill, strung_up, with_tools};
use crate::plan::{task_line, Files, Filing, Plan, Scheme, Step, Task};
use crate::rpc::views;
use crate::strings::{copy_maybe, copy_texts, is_one_of, maybe_text, strung, texts};

verus! {

/// What an installation says as it goes.
#[derive(Debug)]
pub enum Note {
    /// About to do something: which of how many, and what it is.
    Doing { at: usize, of: usize, about: String },
    /// It has been done, and this is what it printed.
    Did { about: String, ok: bool, output: String },
    /// Nothing to do, and why not.
    Skipped { about: String, why: String },
    /// The last word.
    Done { ok: bool, why: String },
}

/// What an installation says as it goes.
pub ghost enum Remark {
    Doing(int, int, Seq<char>),
    Did(Seq<char>, bool, Seq<char>),
    Skipped(Seq<char>, Seq<char>),
    Done(bool, Seq<char>),
}

impl View for Note {
    type V = Remark;

    open spec fn view(&self) -> Remark {
        match self {
            Note::Doing { at, of, about } => Remark::Doing(*at as int, *of as int, about@),
            Note::Did { about, ok, output } => Remark::Did(about@, *ok, output@),
            Note::Skipped { about, why } => Remark::Skipped(about@, why@),
            Note::Done { ok, why } => Remark::Done(*ok, why@),
        }
    }
}

/// One thing that an installation said, and which one.
#[derive(Debug)]
pub struct Progress {
    pub id: String,
    pub note: Note,
}

/// How far along it is.
#[derive(Clone, Copy, PartialEq, Eq, Structural, Debug)]
pub enum Stage {
    /// The files are to be put here.
    Files,
    /// What was fetched is to be read.
    Manifest,
    /// It is to be seen whether a step is to be run.
    Judging,
    /// A step is to be run.
    Working,
    /// The files are to be taken away.
    Undoing,
    /// It is to be seen whether what is needed is here.
    Checking,
    /// It is over, and whether it worked.
    Over(bool),
}

/// A plan that is being carried out.
#[derive(Debug)]
pub struct Run {
    pub id: String,
    pub name: String,
    pub removing: bool,
    pub files: Files,
    /// How many steps the plan had from the first.
    pub planned: usize,
    pub steps_from: Option<String>,
    pub steps: Vec<Step>,
    pub needs: Vec<String>,
    pub see: Option<String>,
    /// The editor's own directory.
    pub tools: Option<String>,
    pub stage: Stage,
    /// The step that it is at.
    pub at: usize,
    /// What has been said.
    pub said: Vec<Note>,
}

/// A plan that is being carried out.
#[verifier::ext_equal]
pub ghost struct Course {
    pub id: Seq<char>,
    pub name: Seq<char>,
    pub removing: bool,
    pub files: Filing,
    pub planned: int,
    pub steps_from: Option<Seq<char>>,
    pub steps: Seq<Task>,
    pub needs: Seq<Seq<char>>,
    pub see: Option<Seq<char>>,
    pub tools: Option<Seq<char>>,
    pub stage: Stage,
    pub at: int,
    pub said: Seq<Remark>,
}

impl View for Run {
    type V = Course;

    open spec fn view(&self) -> Course {
        Course {
            id: self.id@,
            name: self.name@,
            removing: self.removing,
            files: self.files@,
            planned: self.planned as int,
            steps_from: maybe_text(self.steps_from),
            steps: views(self.steps@),
            needs: texts(self.needs@),
            see: maybe_text(self.see),
            tools: maybe_text(self.tools),
            stage: self.stage,
            at: self.at as int,
            said: views(self.said@),
        }
    }
}

/// Whether every step names a program.
pub open spec fn all_named(ts: Seq<Task>) -> bool {
    forall|i: int| 0 <= i < ts.len() ==> (#[trigger] ts[i]).run.len() > 0
}

/// Whether a course is at one of its steps, where it is at a step at all.
pub open spec fn on_course(c: Course) -> bool {
    &&& all_named(c.steps)
    &&& 0 <= c.at <= c.steps.len()
    &&& c.stage is Judging || c.stage is Working ==> c.at < c.steps.len()
    &&& c.stage is Manifest ==> c.steps_from is Some
}

/// With one more thing said.
pub open spec fn saying(c: Course, r: Remark) -> Course {
    Course { said: c.said.push(r), ..c }
}

/// Over, with the last word said.
pub open spec fn over(c: Course, ok: bool, why: Seq<char>) -> Course {
    Course { stage: Stage::Over(ok), ..saying(c, Remark::Done(ok, why)) }
}

/// What is said before anything happens to the files.
pub open spec fn filing_remark(c: Course) -> Remark {
    match c.files {
        Filing::Copy(_, to) => Remark::Doing(0, c.planned, "copying it to "@ + to),
        Filing::Fetch(remote, _) => Remark::Doing(
            0,
            c.planned,
            "fetching "@ + remote.1.id + " "@ + remote.1.version + " from "@ + remote.0.name,
        ),
        Filing::Remove(dir) => Remark::Doing(c.planned, c.planned, "removing "@ + dir),
        Filing::Leave => Remark::Doing(0, c.planned, ""@),
    }
}

/// Once the steps have run: the files are taken away, where that is what it is
/// about, and then it is seen whether what is needed is here.
pub open spec fn after_steps(c: Course) -> Course {
    if c.removing && !(c.files is Leave) {
        Course { stage: Stage::Undoing, ..saying(c, filing_remark(c)) }
    } else {
        Course { stage: Stage::Checking, ..c }
    }
}

/// At a step, or past the last one.
pub open spec fn at_step(c: Course, at: int) -> Course {
    let there = Course { at, ..c };
    if at < c.steps.len() { Course { stage: Stage::Judging, ..there } } else { after_steps(there) }
}

/// Once the files are here: what was fetched is read, or the steps begin.
pub open spec fn after_files(c: Course) -> Course {
    if c.steps_from is Some { Course { stage: Stage::Manifest, ..c } } else { at_step(c, 0) }
}

/// The beginning: the files come first when something is put here.
pub open spec fn begun(p: Scheme, tools: Option<Seq<char>>) -> Course {
    let c = Course {
        id: p.id,
        name: p.name,
        removing: p.removing,
        files: p.files,
        planned: p.steps.len() as int,
        steps_from: p.steps_from,
        steps: p.steps,
        needs: p.needs,
        see: p.see,
        tools,
        stage: Stage::Files,
        at: 0,
        said: Seq::empty(),
    };
    if p.removing || p.files is Leave { after_files(c) } else { saying(c, filing_remark(c)) }
}

/// What was read in the manifest of a package that was fetched: its steps for
/// this machine, what it needs, and where to go.
#[derive(Debug)]
pub struct Fetched {
    pub steps: Vec<Step>,
    pub needs: Vec<String>,
    pub see: Option<String>,
}

/// How something went.
#[derive(Debug)]
pub enum Event {
    /// The files were seen to, or could not be.
    Filed(Result<(), String>),
    /// The manifest was read, or could not be.
    Read(Result<Fetched, String>),
    /// Of a step: whether the program that makes it needless is here, whether
    /// the file that it waits for is there, and whether its own program is.
    Facts { needless: bool, waited: bool, program: bool },
    /// A step was run.
    Worked { ok: bool, output: String },
    /// What is needed was looked for, and these programs were not there.
    Looked(Vec<String>),
}

/// Why a step is not run, where it is not.
pub open spec fn skipping(
    t: Task,
    tools: Option<Seq<char>>,
    needless: bool,
    waited: bool,
    program: bool,
) -> Option<Seq<char>> {
    if t.unless is Some && needless {
        Some(t.unless->0 + " is already here"@)
    } else if t.when is Some && !waited {
        Some("there is no "@ + with_tools(t.when->0, tools))
    } else if !program {
        Some("no "@ + with_tools(t.run[0], tools))
    } else {
        None
    }
}

/// Why it did not work, where something is still not there.
pub open spec fn still_missing(missing: Seq<Seq<char>>, see: Option<Seq<char>>) -> Seq<char> {
    let why = "still no "@ + strung(missing, ", "@);
    match see {
        Some(see) => why + " — see "@ + see,
        None => why,
    }
}

/// The programs among the first `n` that are not there.
pub open spec fn not_here(needs: Seq<Seq<char>>, lacking: Seq<Seq<char>>, n: int) -> Seq<Seq<char>>
    decreases n,
{
    if n <= 0 {
        Seq::empty()
    } else if lacking.contains(needs[n - 1]) {
        not_here(needs, lacking, n - 1).push(needs[n - 1])
    } else {
        not_here(needs, lacking, n - 1)
    }
}

/// What comes of how something went. What does not belong to the stage that it
/// is at changes nothing.
pub open spec fn after(c: Course, e: Event) -> Course {
    match (c.stage, e) {
        (Stage::Files, Event::Filed(Ok(_))) => after_files(c),
        (Stage::Files, Event::Filed(Err(why))) => over(c, false, why@),
        (Stage::Manifest, Event::Read(Ok(read))) => at_step(
            Course {
                steps: views(read.steps@),
                needs: texts(read.needs@),
                see: maybe_text(read.see),
                ..c
            },
            0,
        ),
        (Stage::Manifest, Event::Read(Err(why))) => over(c, false, why@),
        (Stage::Judging, Event::Facts { needless, waited, program }) => {
            let t = c.steps[c.at];
            match skipping(t, c.tools, needless, waited, program) {
                Some(why) => at_step(saying(c, Remark::Skipped(t.about, why)), c.at + 1),
                None => Course {
                    stage: Stage::Working,
                    ..saying(
                        c,
                        Remark::Doing(
                            c.at + 1,
                            c.steps.len() as int,
                            with_tools(t.about, c.tools),
                        ),
                    )
                },
            }
        },
        (Stage::Working, Event::Worked { ok, output }) => {
            let t = c.steps[c.at];
            let told = saying(
                c,
                Remark::Did(with_tools(task_line(t), c.tools), ok, output@),
            );
            if ok { at_step(told, c.at + 1) } else { over(told, false, task_line(t) + " failed"@) }
        },
        (Stage::Undoing, Event::Filed(Ok(_))) => Course { stage: Stage::Checking, ..c },
        (Stage::Undoing, Event::Filed(Err(why))) => over(c, false, why@),
        (Stage::Checking, Event::Looked(lacking)) => {
            let missing = not_here(c.needs, texts(lacking@), c.needs.len() as int);
            if missing.len() > 0 {
                over(c, false, still_missing(missing, c.see))
            } else {
                over(c, true, c.name + if c.removing { " removed"@ } else { " installed"@ })
            }
        },
        _ => c,
    }
}

/// What is to be done next.
#[derive(Debug)]
pub enum Act {
    /// See to the files.
    Files,
    /// Read the manifest in a directory.
    ReadManifest(String),
    /// Look for the program that makes a step needless, the file that it waits
    /// for, and its own program.
    Judge { unless: Option<String>, when: Option<String>, program: String },
    /// Run a program.
    Work { program: String, args: Vec<String> },
    /// Look for programs.
    Look(Vec<String>),
    /// Nothing: it is over, and whether it worked.
    Nothing(bool),
}

/// What is to be done next.
pub ghost enum Chore {
    Files,
    ReadManifest(Seq<char>),
    Judge(Option<Seq<char>>, Option<Seq<char>>, Seq<char>),
    Work(Seq<char>, Seq<Seq<char>>),
    Look(Seq<Seq<char>>),
    Nothing(bool),
}

impl View for Act {
    type V = Chore;

    open spec fn view(&self) -> Chore {
        match self {
            Act::Files => Chore::Files,
            Act::ReadManifest(dir) => Chore::ReadManifest(dir@),
            Act::Judge { unless, when, program } => Chore::Judge(
                maybe_text(*unless),
                maybe_text(*when),
                program@,
            ),
            Act::Work { program, args } => Chore::Work(program@, texts(args@)),
            Act::Look(programs) => Chore::Look(texts(programs@)),
            Act::Nothing(ok) => Chore::Nothing(*ok),
        }
    }
}

/// Texts with the editor's own directories put in.
pub open spec fn all_with_tools(ts: Seq<Seq<char>>, tools: Option<Seq<char>>) -> Seq<Seq<char>> {
    ts.map_values(|t: Seq<char>| with_tools(t, tools))
}

/// What is to be done next.
pub open spec fn next_chore(c: Course) -> Chore {
    match c.stage {
        Stage::Files => Chore::Files,
        Stage::Undoing => Chore::Files,
        Stage::Manifest => Chore::ReadManifest(c.steps_from->0),
        Stage::Judging => {
            let t = c.steps[c.at];
            Chore::Judge(
                t.unless,
                match t.when {
                    Some(w) => Some(with_tools(w, c.tools)),
                    None => None,
                },
                with_tools(t.run[0], c.tools),
            )
        },
        Stage::Working => {
            let t = c.steps[c.at];
            Chore::Work(with_tools(t.run[0], c.tools), all_with_tools(t.run.skip(1), c.tools))
        },
        Stage::Checking => Chore::Look(c.needs),
        Stage::Over(ok) => Chore::Nothing(ok),
    }
}

impl Plan {
    /// Begin to carry it out. `tools` is the editor's own directory.
    pub fn run(self, tools: Option<String>) -> (r: Run)
        requires
            all_named(self@.steps),
        ensures
            r@ == begun(self@, maybe_text(tools)),
            on_course(r@),
    {
        let ghost p = self@;
        let planned = self.steps.len();
        let mut r = Run {
            id: self.id,
            name: self.name,
            removing: self.removing,
            files: self.files,
            planned,
            steps_from: self.steps_from,
            steps: self.steps,
            needs: self.needs,
            see: self.see,
            tools,
            stage: Stage::Files,
            at: 0,
            said: Vec::new(),
        };
        assert(views(r.said@) =~= Seq::<Remark>::empty());
        let ghost c = r@;
        assert(c.planned == p.steps.len());
        if r.removing || matches!(r.files, Files::Leave) {
            r.go_on_from_files();
        } else {
            r.say_filing();
        }
        r
    }
}

impl Run {
    fn say(&mut self, n: Note)
        ensures
            final(self)@ == saying(old(self)@, n@),
    {
        let ghost was = self@;
        let ghost had = self.said@;
        let ghost is = n@;
        self.said.push(n);
        assert(views(self.said@) =~= views(had).push(is));
        assert(self@ =~= saying(was, is));
    }

    fn finish(&mut self, ok: bool, why: String)
        ensures
            final(self)@ == over(old(self)@, ok, why@),
    {
        let ghost was = self@;
        let ghost w = why@;
        self.say(Note::Done { ok, why });
        self.stage = Stage::Over(ok);
        assert(self@ =~= over(was, ok, w));
    }

    fn say_filing(&mut self)
        ensures
            final(self)@ == saying(old(self)@, filing_remark(old(self)@)),
    {
        let planned = self.planned;
        let note = match &self.files {
            Files::Copy { to, .. } => {
                let mut about = "copying it to ".to_owned();
                about.append(to.as_str());
                Note::Doing { at: 0, of: planned, about }
            },
            Files::Fetch { remote, .. } => {
                let mut about = "fetching ".to_owned();
                about.append(remote.entry.id.as_str());
                about.append(" ");
                about.append(remote.entry.version.as_str());
                about.append(" from ");
                about.append(remote.repository.name.as_str());
                Note::Doing { at: 0, of: planned, about }
            },
            Files::Remove(dir) => {
                let mut about = "removing ".to_owned();
                about.append(dir.as_str());
                Note::Doing { at: planned, of: planned, about }
            },
            Files::Leave => Note::Doing { at: 0, of: planned, about: "".to_owned() },
        };
        self.say(note);
    }

    fn go_on_from_steps(&mut self)
        ensures
            final(self)@ == after_steps(old(self)@),
    {
        let ghost was = self@;
        if self.removing && !matches!(self.files, Files::Leave) {
            self.say_filing();
            self.stage = Stage::Undoing;
        } else {
            self.stage = Stage::Checking;
        }
        assert(self@ =~= after_steps(was));
    }

    fn go_to_step(&mut self, at: usize)
        ensures
            final(self)@ == at_step(old(self)@, at as int),
    {
        let ghost was = self@;
        assert(was.steps.len() == self.steps@.len());
        self.at = at;
        assert(self@ =~= (Course { at: at as int, ..was }));
        if at < self.steps.len() {
            self.stage = Stage::Judging;
            assert(self@ =~= at_step(was, at as int));
        } else {
            self.go_on_from_steps();
        }
    }

    fn go_on_from_files(&mut self)
        ensures
            final(self)@ == after_files(old(self)@),
    {
        let ghost was = self@;
        if self.steps_from.is_some() {
            self.stage = Stage::Manifest;
            assert(self@ =~= after_files(was));
        } else {
            self.go_to_step(0);
        }
    }

    fn judge(&mut self, needless: bool, waited: bool, program: bool)
        requires
            on_course(old(self)@),
            old(self)@.stage is Judging,
        ensures
            final(self)@ == after(old(self)@, Event::Facts { needless, waited, program }),
    {
        let ghost was = self@;
        let at = self.at;
        let of = self.steps.len();
        assert(was.steps.len() == of);
        assert(was.steps[at as int] == self.steps@[at as int]@);
        let ghost t = was.steps[at as int];
        assert(t.run[0] == self.steps@[at as int].run@[0]@);
        let why: Option<String> = match (&self.steps[at].unless, &self.steps[at].when) {
            (Some(already), _) if needless => {
                let mut why = already.clone();
                why.append(" is already here");
                Some(why)
            },
            (_, Some(needed)) if !waited => {
                let mut why = "there is no ".to_owned();
                why.append(fill(needed.as_str(), &self.tools).as_str());
                Some(why)
            },
            _ => if !program {
                let mut why = "no ".to_owned();
                why.append(fill(self.steps[at].run[0].as_str(), &self.tools).as_str());
                Some(why)
            } else {
                None
            },
        };
        assert(maybe_text(why) == skipping(t, was.tools, needless, waited, program));
        match why {
            Some(why) => {
                let about = self.steps[at].about.clone();
                self.say(Note::Skipped { about, why });
                self.go_to_step(at + 1);
            },
            None => {
                let about = fill(self.steps[at].about.as_str(), &self.tools);
                self.say(Note::Doing { at: at + 1, of, about });
                self.stage = Stage::Working;
                assert(self@ =~= after(was, Event::Facts { needless, waited, program }));
            },
        }
    }

    fn hear(&mut self, ok: bool, output: String)
        requires
            on_course(old(self)@),
            old(self)@.stage is Working,
        ensures
            final(self)@ == after(old(self)@, Event::Worked { ok, output }),
    {
        let ghost was = self@;
        let at = self.at;
        let of = self.steps.len();
        assert(was.steps.len() == of);
        assert(was.steps[at as int] == self.steps@[at as int]@);
        let line = self.steps[at].line();
        let about = fill(line.as_str(), &self.tools);
        self.say(Note::Did { about, ok, output });
        if ok {
            self.go_to_step(at + 1);
        } else {
            let mut why = line;
            why.append(" failed");
            self.finish(false, why);
        }
    }

    fn check(&mut self, lacking: &Vec<String>)
        ensures
            ({
                let c = old(self)@;
                let missing = not_here(c.needs, texts(lacking@), c.needs.len() as int);
                final(self)@ == if missing.len() > 0 {
                    over(c, false, still_missing(missing, c.see))
                } else {
                    over(c, true, c.name + if c.removing { " removed"@ } else { " installed"@ })
                }
            }),
    {
        let missing = gone(&self.needs, lacking);
        assert(texts(missing@).len() == missing@.len());
        assert(self@.needs.len() == self.needs@.len());
        if missing.len() > 0 {
            let mut why = "still no ".to_owned();
            why.append(strung_up(&missing, ", ").as_str());
            if let Some(see) = &self.see {
                why.append(" — see ");
                why.append(see.as_str());
            }
            self.finish(false, why);
        } else {
            let mut why = self.name.clone();
            if self.removing {
                why.append(" removed");
            } else {
                why.append(" installed");
            }
            self.finish(true, why);
        }
    }

    /// What is to be done next.
    pub fn next(&self) -> (a: Act)
        requires
            on_course(self@),
        ensures
            a@ == next_chore(self@),
    {
        assert(self@.steps.len() == self.steps@.len());
        match self.stage {
            Stage::Files => Act::Files,
            Stage::Undoing => Act::Files,
            Stage::Manifest => match &self.steps_from {
                Some(dir) => Act::ReadManifest(dir.clone()),
                None => Act::ReadManifest("".to_owned()),
            },
            Stage::Judging => {
                let s = &self.steps[self.at];
                assert(self@.steps[self.at as int] == s@);
                assert(s@.run[0] == s.run@[0]@);
                let when = match &s.when {
                    Some(w) => Some(fill(w.as_str(), &self.tools)),
                    None => None,
                };
                Act::Judge {
                    unless: copy_maybe(&s.unless),
                    when,
                    program: fill(s.run[0].as_str(), &self.tools),
                }
            },
            Stage::Working => {
                let s = &self.steps[self.at];
                assert(self@.steps[self.at as int] == s@);
                assert(s@.run[0] == s.run@[0]@);
                Act::Work {
                    program: fill(s.run[0].as_str(), &self.tools),
                    args: fill_rest(&s.run, &self.tools),
                }
            },
            Stage::Checking => Act::Look(copy_texts(&self.needs)),
            Stage::Over(ok) => Act::Nothing(ok),
        }
    }

    /// Say how something went. What it has to say of that is kept in `said`.
    pub fn on(&mut self, event: Event)
        requires
            on_course(old(self)@),
            match event {
                Event::Read(Ok(read)) => all_named(views(read.steps@)),
                _ => true,
            },
        ensures
            final(self)@ == after(old(self)@, event),
            on_course(final(self)@),
    {
        let ghost was = self@;
        match event {
            Event::Filed(Ok(_)) => {
                if self.stage == Stage::Files {
                    self.go_on_from_files();
                } else if self.stage == Stage::Undoing {
                    self.stage = Stage::Checking;
                    assert(self@ =~= (Course { stage: Stage::Checking, ..was }));
                }
            },
            Event::Filed(Err(why)) => {
                if self.stage == Stage::Files || self.stage == Stage::Undoing {
                    self.finish(false, why);
                }
            },
            Event::Read(Ok(read)) => {
                if self.stage == Stage::Manifest {
                    let ghost more = Course {
                        steps: views(read.steps@),
                        needs: texts(read.needs@),
                        see: maybe_text(read.see),
                        ..was
                    };
                    self.steps = read.steps;
                    self.needs = read.needs;
                    self.see = read.see;
                    assert(self@ =~= more);
                    self.go_to_step(0);
                }
            },
            Event::Read(Err(why)) => {
                if self.stage == Stage::Manifest {
                    self.finish(false, why);
                }
            },
            Event::Facts { needless, waited, program } => {
                if self.stage == Stage::Judging {
                    self.judge(needless, waited, program);
                }
            },
            Event::Worked { ok, output } => {
                if self.stage == Stage::Working {
                    self.hear(ok, output);
                }
            },
            Event::Looked(lacking) => {
                if self.stage == Stage::Checking {
                    self.check(&lacking);
                }
            },
        }
    }
}

fn gone(needs: &Vec<String>, lacking: &Vec<String>) -> (v: Vec<String>)
    ensures
        texts(v@) == not_here(texts(needs@), texts(lacking@), needs@.len() as int),
{
    let ghost all = texts(needs@);
    let ghost out = texts(lacking@);
    let mut v: Vec<String> = Vec::new();
    let mut n: usize = 0;
    assert(texts(v@) =~= not_here(all, out, 0));
    while n < needs.len()
        invariant
            n <= needs@.len(),
            all == texts(needs@),
            out == texts(lacking@),
            texts(v@) == not_here(all, out, n as int),
        decreases needs@.len() - n,
    {
        assert(all[n as int] == needs@[n as int]@);
        if is_one_of(lacking, needs[n].as_str()) {
            let ghost had = v@;
            v.push(needs[n].clone());
            assert(texts(v@) =~= texts(had).push(all[n as int]));
        }
        n = n + 1;
    }
    v
}

fn fill_rest(run: &Vec<String>, tools: &Option<String>) -> (v: Vec<String>)
    requires
        run@.len() > 0,
    ensures
        texts(v@) == all_with_tools(texts(run@).skip(1), maybe_text(*tools)),
{
    let ghost want = all_with_tools(texts(run@).skip(1), maybe_text(*tools));
    let mut v: Vec<String> = Vec::new();
    let mut n: usize = 1;
    assert(texts(v@) =~= want.take(0));
    while n < run.len()
        invariant
            1 <= n <= run@.len(),
            want == all_with_tools(texts(run@).skip(1), maybe_text(*tools)),
            texts(v@) == want.take(n - 1),
        decreases run@.len() - n,
    {
        let ghost had = v@;
        let one = fill(run[n].as_str(), tools);
        let ghost is = one@;
        v.push(one);
        assert(texts(v@) =~= texts(had).push(is));
        assert(want[n - 1] == is);
        assert(want.take(n as int) =~= want.take(n - 1).push(is));
        n = n + 1;
    }
    assert(want.take(n - 1) =~= want);
    v
}

// ---------------------------------------------------------------------------
// What holds of carrying out a plan
// ---------------------------------------------------------------------------

/// It worked only where nothing that is needed is still missing, however cheerful
/// the steps were.
pub proof fn law_it_worked_only_if_nothing_is_missing(c: Course, e: Event)
    requires
        !(c.stage is Over),
        after(c, e).stage == Stage::Over(true),
    ensures
        c.stage is Checking,
        e matches Event::Looked(lacking) && not_here(
            c.needs,
            texts(lacking@),
            c.needs.len() as int,
        ).len() == 0,
{
}

/// A step that runs and fails stops the rest.
pub proof fn law_a_step_that_fails_stops_the_rest(c: Course, output: String, e: Event)
    requires
        c.stage is Working,
    ensures
        ({
            let stopped = after(c, Event::Worked { ok: false, output });
            stopped.stage == Stage::Over(false) && after(stopped, e) == stopped
        }),
{
}

/// A step that cannot be run is not a step that failed: it goes on with the next
/// one.
pub proof fn law_a_step_that_cannot_be_run_is_passed_over(c: Course, needless: bool, waited: bool)
    requires
        on_course(c),
        c.stage is Judging,
    ensures
        ({
            let next = after(c, Event::Facts { needless, waited, program: false });
            next.at == c.at + 1 && !(next.stage is Over) && !(next.stage is Working)
        }),
{
}

/// A step that is needless is not run, whatever else is there.
pub proof fn law_what_is_done_is_not_done_again(c: Course, waited: bool, program: bool)
    requires
        on_course(c),
        c.stage is Judging,
        c.steps[c.at].unless is Some,
    ensures
        after(c, Event::Facts { needless: true, waited, program }).stage != Stage::Working,
{
}

/// Nothing comes after the last word, and nothing is over without one.
pub proof fn law_the_last_word_comes_last(c: Course, e: Event)
    ensures
        c.stage is Over ==> after(c, e) == c,
        !(c.stage is Over) && after(c, e).stage is Over ==> after(c, e).said.len() > 0 && after(
            c,
            e,
        ).said.last() is Done,
{
}

// ---------------------------------------------------------------------------
// On a command line
// ---------------------------------------------------------------------------

/// What is printed of a remark: to those who read, and to those who watch for
/// trouble.
pub open spec fn printed(r: Remark) -> (Seq<char>, Seq<char>) {
    match r {
        Remark::Doing(at, of, about) => if of > 0 {
            (
                "["@ + decimal(at as nat) + "/"@ + decimal(of as nat) + "] "@ + about + "\n"@,
                Seq::empty(),
            )
        } else {
            (about + "\n"@, Seq::empty())
        },
        Remark::Skipped(about, why) => ("  "@ + about + " — skipped, "@ + why + "\n"@, Seq::empty()),
        Remark::Did(about, ok, output) => (
            output,
            if ok { Seq::empty() } else { about + " failed\n"@ },
        ),
        Remark::Done(ok, why) => if ok {
            ("\n"@ + why + "\n"@, Seq::empty())
        } else {
            (Seq::empty(), "\n"@ + why + "\n"@)
        },
    }
}

impl Note {
    /// What is printed of it on a command line: what goes where one reads, and
    /// what goes where one looks for trouble.
    pub fn print(&self) -> (r: (String, String))
        ensures
            (r.0@, r.1@) == printed(self@),
    {
        let mut out: String = String::new();
        let mut err: String = String::new();
        assert(out@ =~= Seq::<char>::empty() && err@ =~= Seq::<char>::empty());
        match self {
            Note::Doing { at, of, about } => {
                if *of > 0 {
                    out = "[".to_owned();
                    write_number(&mut out, *at as u64);
                    out.append("/");
                    write_number(&mut out, *of as u64);
                    out.append("] ");
                    out.append(about.as_str());
                } else {
                    out = about.clone();
                }
                out.append("\n");
            },
            Note::Skipped { about, why } => {
                out = "  ".to_owned();
                out.append(about.as_str());
                out.append(" — skipped, ");
                out.append(why.as_str());
                out.append("\n");
            },
            Note::Did { about, ok, output } => {
                out = output.clone();
                if !*ok {
                    err = about.clone();
                    err.append(" failed\n");
                }
            },
            Note::Done { ok, why } => {
                let mut s = "\n".to_owned();
                s.append(why.as_str());
                s.append("\n");
                if *ok {
                    out = s;
                } else {
                    err = s;
                }
            },
        }
        (out, err)
    }
}

} // verus!
