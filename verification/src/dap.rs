//! A debugging session: what has been asked of the adapter, what it has said,
//! and where the program has got to.
//!
//! A session does not talk to the adapter itself: what it has to say is put on
//! a list.
use std::collections::{BTreeMap, HashSet};
use vstd::prelude::*;

use crate::attach::{merge, merged_value};
use crate::chars::{chars_of, same};
use crate::json::{
    add_field, add_item, as_array, as_bool, as_i64, as_str, bool_in, each, field, field_in, fields,
    int_in, int_value, list, list_in, maybe, number, object, signed, string, text_in,
    write_signed, Json, Value,
};
use crate::launch::{request_in, Adapter};
use crate::numbers::{decimal, write_number};
use crate::path::{file_name, is_before, is_same, last_name, path_before, same_path};
use crate::rpc::{
    asked, claimed, outcome, silence, spoken, views, waiting_place, Incoming, Peer, Sending, Sent, Talk,
};
use crate::split::{cut, cut_at, deep};
use crate::strings::{
    copy_maybe, copy_texts, halves, piece, split_once, string_up, strung, text_of, texts, trim,
    trimmed,
};

verus! {

// ---------------------------------------------------------------------------
// What is kept
// ---------------------------------------------------------------------------

/// Which session a message belongs to.
#[derive(Clone, Copy, PartialEq, Eq, Structural, Debug)]
pub struct SessionId(pub usize);

/// What was asked for, so that the answer knows what it is an answer to.
#[derive(Debug)]
pub enum Ask {
    Initialize,
    /// The request that starts the program.
    Start,
    /// Breakpoints for one file.
    Breakpoints { path: String },
    Threads,
    Stack,
    Scopes,
    /// The contents of one scope or one structured value.
    Variables { reference: i64 },
    /// Something typed into the panel.
    Evaluate { what: String },
    /// Continue, step, pause.
    Control { what: &'static str },
}

/// What was asked for.
pub ghost enum Asked {
    Initialize,
    Start,
    Breakpoints(Seq<char>),
    Threads,
    Stack,
    Scopes,
    Variables(i64),
    Evaluate(Seq<char>),
    Control(Seq<char>),
}

impl View for Ask {
    type V = Asked;

    open spec fn view(&self) -> Asked {
        match self {
            Ask::Initialize => Asked::Initialize,
            Ask::Start => Asked::Start,
            Ask::Breakpoints { path } => Asked::Breakpoints(path@),
            Ask::Threads => Asked::Threads,
            Ask::Stack => Asked::Stack,
            Ask::Scopes => Asked::Scopes,
            Ask::Variables { reference } => Asked::Variables(*reference),
            Ask::Evaluate { what } => Asked::Evaluate(what@),
            Ask::Control { what } => Asked::Control(what@),
        }
    }
}

/// Where a session has got to.
#[derive(PartialEq, Eq, Debug)]
pub enum State {
    /// The adapter is up and has been asked to initialize.
    Starting,
    /// The program is running and nothing is stopped.
    Running,
    /// Stopped, and why.
    Stopped(String),
    /// Over, and why.
    Ended(String),
}

/// Where a session has got to.
pub ghost enum Standing {
    Starting,
    Running,
    Stopped(Seq<char>),
    Ended(Seq<char>),
}

impl View for State {
    type V = Standing;

    open spec fn view(&self) -> Standing {
        match self {
            State::Starting => Standing::Starting,
            State::Running => Standing::Running,
            State::Stopped(why) => Standing::Stopped(why@),
            State::Ended(why) => Standing::Ended(why@),
        }
    }
}

impl State {
    /// The word for the status line.
    pub fn label(&self) -> (s: &str)
        ensures
            s@ == match self@ {
                Standing::Starting => "starting"@,
                Standing::Running => "running"@,
                Standing::Stopped(why) => why,
                Standing::Ended(why) => why,
            },
    {
        match self {
            State::Starting => "starting",
            State::Running => "running",
            State::Stopped(why) => why.as_str(),
            State::Ended(why) => why.as_str(),
        }
    }

    /// Whether the program is stopped.
    pub fn is_stopped(&self) -> (yes: bool)
        ensures
            yes == self@ is Stopped,
    {
        matches!(self, State::Stopped(_))
    }

    /// Whether it is over.
    pub fn is_over(&self) -> (yes: bool)
        ensures
            yes == self@ is Ended,
    {
        matches!(self, State::Ended(_))
    }
}

/// One line of a call stack.
#[derive(Debug)]
pub struct Frame {
    pub id: i64,
    pub name: String,
    /// Where its code is, where the adapter named a file.
    pub path: Option<String>,
    /// Counted from nought.
    pub line: usize,
    pub column: usize,
}

/// One line of a call stack.
pub ghost struct FrameAt {
    pub id: i64,
    pub name: Seq<char>,
    pub path: Option<Seq<char>>,
    pub line: usize,
    pub column: usize,
}

impl View for Frame {
    type V = FrameAt;

    open spec fn view(&self) -> FrameAt {
        FrameAt {
            id: self.id,
            name: self.name@,
            path: crate::strings::maybe_text(self.path),
            line: self.line,
            column: self.column,
        }
    }
}

/// One thread of the program being debugged.
#[derive(Debug)]
pub struct Thread {
    pub id: i64,
    pub name: String,
}

impl View for Thread {
    type V = (i64, Seq<char>);

    open spec fn view(&self) -> (i64, Seq<char>) {
        (self.id, self.name@)
    }
}

/// One name and value in view at a frame.
#[derive(Debug)]
pub struct Variable {
    pub name: String,
    pub value: String,
    /// What it holds, where the adapter can say.
    pub kind: Option<String>,
    /// Not nought for something that can be opened up.
    pub reference: i64,
}

/// One name and value.
pub ghost struct Named {
    pub name: Seq<char>,
    pub value: Seq<char>,
    pub kind: Option<Seq<char>>,
    pub reference: i64,
}

impl View for Variable {
    type V = Named;

    open spec fn view(&self) -> Named {
        Named {
            name: self.name@,
            value: self.value@,
            kind: crate::strings::maybe_text(self.kind),
            reference: self.reference,
        }
    }
}

/// A group of variables at a frame.
#[derive(Debug)]
pub struct Scope {
    pub name: String,
    pub reference: i64,
    /// Whether the adapter says fetching it is slow.
    pub expensive: bool,
    /// What the adapter calls this kind of scope.
    pub hint: Option<String>,
}

/// A group of variables.
pub ghost struct Group {
    pub name: Seq<char>,
    pub reference: i64,
    pub expensive: bool,
    pub hint: Option<Seq<char>>,
}

impl View for Scope {
    type V = Group;

    open spec fn view(&self) -> Group {
        Group {
            name: self.name@,
            reference: self.reference,
            expensive: self.expensive,
            hint: crate::strings::maybe_text(self.hint),
        }
    }
}

/// What a message from the adapter means to the editor, beyond a redraw.
#[derive(Clone, Copy, PartialEq, Eq, Structural, Debug)]
pub enum Change {
    /// Nothing the editor has to do beyond drawing.
    Nothing,
    /// It has stopped somewhere.
    Stopped,
    /// The program is going again.
    Resumed,
    /// It is over.
    Ended,
}

/// How many lines of output are kept.
pub const OUTPUT_KEPT: usize = 400;

/// One line that was printed, and who printed it.
#[derive(Debug)]
pub struct Printed {
    pub text: String,
    pub from: Printer,
}

impl View for Printed {
    type V = (Seq<char>, Printer);

    open spec fn view(&self) -> (Seq<char>, Printer) {
        (self.text@, self.from)
    }
}

/// Whose line it was.
#[derive(Clone, Copy, PartialEq, Eq, Structural, Debug)]
pub enum Printer {
    /// The program, on its standard output.
    Out,
    /// The program, on its standard error.
    Stderr,
    /// The editor or the adapter, about the run rather than in it.
    Note,
}

/// Whether a line is the program's own.
pub open spec fn by_program(p: Printer) -> bool {
    p is Out || p is Stderr
}

impl Printer {
    /// Whether this is the program's own output.
    pub fn is_the_program(&self) -> (yes: bool)
        ensures
            yes == by_program(*self),
    {
        matches!(self, Printer::Out | Printer::Stderr)
    }
}

/// One debugging session: the adapter, the program, and where it has got to.
#[derive(Debug)]
pub struct Session {
    pub id: SessionId,
    /// The adapter's short name.
    pub name: String,
    /// What is being debugged, in the words to show.
    pub what: String,
    pub state: State,
    /// What the adapter said it can do.
    pub caps: Json,
    /// The request that starts the program, held until the adapter is there.
    pub start: (&'static str, Json),
    /// Whether the adapter has said it is ready for breakpoints.
    pub configured: bool,
    /// Whether it ever answered.
    pub answered: bool,
    /// What the manifest says to do about it not being there.
    pub see: Option<String>,
    /// The adapter's full name.
    pub adapter: String,
    /// The command line, exactly as it was run.
    pub ran: String,
    /// Where its interpreter came from, for one that asked for one.
    pub from: Option<String>,
    pub threads: Vec<Thread>,
    /// The thread that stopped.
    pub thread: Option<i64>,
    pub frames: Vec<Frame>,
    /// The frame being looked at.
    pub frame: Option<i64>,
    pub scopes: Vec<Scope>,
    /// What is inside each reference the adapter has been asked about.
    pub values: BTreeMap<i64, Vec<Variable>>,
    /// Which structured values have been opened up.
    pub open: HashSet<i64>,
    pub output: Vec<Printed>,
    /// Which lines the adapter managed to set a breakpoint on, by file, in
    /// the order of the paths.
    pub verified: Vec<(String, Vec<usize>)>,
    /// What the adapter has printed on its standard error.
    pub complaints: Vec<String>,
    /// What has been said to the adapter and asked of it.
    pub peer: Peer<Ask>,
}

/// What is kept of a session.
#[verifier::ext_equal]
pub ghost struct Sess {
    pub id: SessionId,
    pub name: Seq<char>,
    pub what: Seq<char>,
    pub state: Standing,
    pub caps: Value,
    pub start: (Seq<char>, Value),
    pub configured: bool,
    pub answered: bool,
    pub see: Option<Seq<char>>,
    pub adapter: Seq<char>,
    pub ran: Seq<char>,
    pub from: Option<Seq<char>>,
    pub threads: Seq<(i64, Seq<char>)>,
    pub thread: Option<i64>,
    pub frames: Seq<FrameAt>,
    pub frame: Option<i64>,
    pub scopes: Seq<Group>,
    pub values: Map<i64, Seq<Named>>,
    pub open: Set<i64>,
    pub output: Seq<(Seq<char>, Printer)>,
    pub verified: Seq<(Seq<char>, Seq<usize>)>,
    pub complaints: Seq<Seq<char>>,
    pub peer: Talk<Asked>,
}

/// The lines of each file.
pub open spec fn lines_by_file(v: Seq<(String, Vec<usize>)>) -> Seq<(Seq<char>, Seq<usize>)> {
    v.map_values(|p: (String, Vec<usize>)| (p.0@, p.1@))
}

/// What is inside each reference.
pub open spec fn insides(m: Map<i64, Vec<Variable>>) -> Map<i64, Seq<Named>> {
    m.map_values(|v: Vec<Variable>| views(v@))
}

impl View for Session {
    type V = Sess;

    open spec fn view(&self) -> Sess {
        Sess {
            id: self.id,
            name: self.name@,
            what: self.what@,
            state: self.state@,
            caps: self.caps@,
            start: (self.start.0@, self.start.1@),
            configured: self.configured,
            answered: self.answered,
            see: crate::strings::maybe_text(self.see),
            adapter: self.adapter@,
            ran: self.ran@,
            from: crate::strings::maybe_text(self.from),
            threads: views(self.threads@),
            thread: self.thread,
            frames: views(self.frames@),
            frame: self.frame,
            scopes: views(self.scopes@),
            values: insides(self.values@),
            open: self.open@,
            output: views(self.output@),
            verified: lines_by_file(self.verified@),
            complaints: texts(self.complaints@),
            peer: self.peer@,
        }
    }
}

// ---------------------------------------------------------------------------
// Saying things
// ---------------------------------------------------------------------------

/// A session that has asked for something.
pub open spec fn requested(s: Sess, command: Seq<char>, arguments: Value, ask: Asked) -> Sess {
    Sess { peer: asked(s.peer, command, arguments, ask), ..s }
}

/// A session that has told the adapter something.
pub open spec fn notified(s: Sess, command: Seq<char>, arguments: Value) -> Sess {
    Sess { peer: spoken(s.peer, Sent::Notify(command, arguments)), ..s }
}

/// The end of what was printed, as much of it as is kept.
pub open spec fn tail_of(out: Seq<(Seq<char>, Printer)>) -> Seq<(Seq<char>, Printer)> {
    if out.len() > OUTPUT_KEPT { out.skip(out.len() - OUTPUT_KEPT) } else { out }
}

/// A session with a line printed.
pub open spec fn with_line(s: Sess, line: Seq<char>, from: Printer) -> Sess {
    Sess { output: tail_of(s.output.push((line, from))), ..s }
}

/// A session with lines printed, the first `n` of them.
pub open spec fn with_lines(s: Sess, ls: Seq<Seq<char>>, from: Printer, n: int) -> Sess
    decreases n,
{
    if n <= 0 { s } else { with_line(with_lines(s, ls, from, n - 1), ls[n - 1], from) }
}

/// A session that has forgotten what it was told about where the program was
/// standing. What was opened up is kept.
pub open spec fn forgotten(s: Sess) -> Sess {
    Sess {
        frames: Seq::empty(),
        frame: None,
        scopes: Seq::empty(),
        values: Map::empty(),
        thread: None,
        ..s
    }
}

impl Session {
    fn request(&mut self, command: &str, arguments: Json, ask: Ask)
        ensures
            final(self)@ == requested(old(self)@, command@, arguments@, ask@),
    {
        let ghost was = self@;
        self.peer.request(command, arguments, ask);
        assert(self@ =~= requested(was, command@, arguments@, ask@));
    }

    fn notify(&mut self, command: &str, arguments: Json)
        ensures
            final(self)@ == notified(old(self)@, command@, arguments@),
    {
        let ghost was = self@;
        self.peer.notify(command, arguments);
        assert(self@ =~= notified(was, command@, arguments@));
    }

    fn printed(&mut self, line: &str, from: Printer)
        ensures
            final(self)@ == with_line(old(self)@, line@, from),
    {
        let ghost was = self@;
        let ghost had = self.output@;
        self.output.push(Printed { text: line.to_owned(), from });
        assert(views(self.output@) =~= views(had).push((line@, from)));
        let ghost full = self.output@;
        if self.output.len() > OUTPUT_KEPT {
            let over = self.output.len() - OUTPUT_KEPT;
            let kept = self.output.split_off(over);
            self.output = kept;
            assert(views(self.output@) =~= views(full).skip(over as int));
        }
        assert(self@ =~= with_line(was, line@, from));
    }

    fn say(&mut self, line: &str)
        ensures
            final(self)@ == with_line(old(self)@, line@, Printer::Note),
    {
        self.printed(line, Printer::Note);
    }

    fn print_lines(&mut self, ls: &Vec<Vec<char>>, from: Printer)
        ensures
            final(self)@ == with_lines(old(self)@, deep(ls@), from, ls@.len() as int),
    {
        let ghost was = self@;
        let ghost ds = deep(ls@);
        let mut n: usize = 0;
        while n < ls.len()
            invariant
                n <= ls@.len(),
                ds == deep(ls@),
                self@ == with_lines(was, ds, from, n as int),
            decreases ls@.len() - n,
        {
            assert(ds[n as int] == ls@[n as int]@);
            let line = text_of(&ls[n]);
            self.printed(line.as_str(), from);
            n = n + 1;
        }
    }

    fn forget_values(&mut self)
        ensures
            final(self)@ == forgotten(old(self)@),
    {
        broadcast use vstd::std_specs::hash::group_hash_axioms;

        let ghost was = self@;
        self.frames.clear();
        self.frame = None;
        self.scopes.clear();
        self.values.clear();
        self.thread = None;
        assert(views(self.frames@) =~= Seq::<FrameAt>::empty());
        assert(views(self.scopes@) =~= Seq::<Group>::empty());
        assert(insides(self.values@) =~= Map::<i64, Seq<Named>>::empty());
        assert(self@ =~= forgotten(was));
    }
}

// ---------------------------------------------------------------------------
// Reading what the adapter says
// ---------------------------------------------------------------------------

/// How much of a value is worth showing on its own row.
pub const VALUE_SHOWN: usize = 160;

/// A value on one row: with blanks for line feeds, and cut to a length that
/// somebody can read.
pub open spec fn shortened(s: Seq<char>) -> Seq<char> {
    let flat = s.map_values(|c: char| if c == '\n' { ' ' } else { c });
    if flat.len() > VALUE_SHOWN { flat.take(VALUE_SHOWN - 1).push('…') } else { flat }
}

fn shorten(value: &str) -> (r: String)
    ensures
        r@ == shortened(value@),
{
    let v = chars_of(value);
    let ghost flat = v@.map_values(|c: char| if c == '\n' { ' ' } else { c });
    let cut = v.len() > VALUE_SHOWN;
    let end: usize = if cut { VALUE_SHOWN - 1 } else { v.len() };
    let mut r: String = String::new();
    let mut i: usize = 0;
    assert(r@ =~= flat.take(0));
    while i < end
        invariant
            i <= end <= v@.len(),
            flat == v@.map_values(|c: char| if c == '\n' { ' ' } else { c }),
            r@ == flat.take(i as int),
        decreases end - i,
    {
        r.push(if v[i] == '\n' { ' ' } else { v[i] });
        i = i + 1;
        assert(r@ =~= flat.take(i as int));
    }
    if cut {
        r.push('…');
    } else {
        assert(flat.take(end as int) =~= flat);
    }
    r
}

/// A line or a column, counted from nought, from what the protocol says, which
/// counts from one.
pub open spec fn counted(n: Option<i64>) -> usize {
    match n {
        Some(n) => if n < 1 { 0 } else { (n - 1) as usize },
        None => 0,
    }
}

fn count(n: Option<i64>) -> (at: usize)
    ensures
        at == counted(n),
{
    match n {
        Some(n) => if n < 1 { 0 } else { (n - 1) as usize },
        None => 0,
    }
}

/// A text, or another where there is none.
pub open spec fn text_or(v: Option<Value>, other: Seq<char>) -> Seq<char> {
    match text_in(v) {
        Some(s) => s,
        None => other,
    }
}

fn str_or(j: Option<&Json>, other: &str) -> (s: String)
    ensures
        s@ == text_or(maybe(j), other@),
{
    match as_str(j) {
        Some(s) => s.to_owned(),
        None => other.to_owned(),
    }
}

/// A text that is not empty.
pub open spec fn some_text(v: Option<Value>) -> Option<Seq<char>> {
    match text_in(v) {
        Some(s) => if s.len() > 0 { Some(s) } else { None },
        None => None,
    }
}

fn str_if_any(j: Option<&Json>) -> (r: Option<String>)
    ensures
        crate::strings::maybe_text(r) == some_text(maybe(j)),
{
    match as_str(j) {
        Some(s) => {
            let v = chars_of(s);
            if v.len() > 0 {
                Some(s.to_owned())
            } else {
                None
            }
        },
        None => None,
    }
}

/// What lists a field holds: none where it is not there.
pub open spec fn items_in(v: Value, key: Seq<char>) -> Seq<Value> {
    match list_in(field(v, key)) {
        Some(l) => l,
        None => Seq::empty(),
    }
}

/// A frame, where it has a number.
pub open spec fn frame_of(v: Value) -> Option<FrameAt> {
    match int_in(field(v, "id"@)) {
        Some(id) => Some(
            FrameAt {
                id,
                name: text_or(field(v, "name"@), "frame"@),
                path: some_text(field_in(field(v, "source"@), "path"@)),
                line: counted(int_in(field(v, "line"@))),
                column: counted(int_in(field(v, "column"@))),
            },
        ),
        None => None,
    }
}

/// The first `n` of a list that are frames.
pub open spec fn frames_of(l: Seq<Value>, n: int) -> Seq<FrameAt>
    decreases n,
{
    if n <= 0 {
        Seq::empty()
    } else {
        match frame_of(l[n - 1]) {
            Some(f) => frames_of(l, n - 1).push(f),
            None => frames_of(l, n - 1),
        }
    }
}

/// The stack in an answer.
pub open spec fn stack_in(v: Value) -> Seq<FrameAt> {
    let l = items_in(v, "stackFrames"@);
    frames_of(l, l.len() as int)
}

fn get_in<'a>(j: Option<&'a Json>, key: &str) -> (r: Option<&'a Json>)
    ensures
        maybe(r) == field_in(maybe(j), key@),
{
    match j {
        Some(j) => j.get(key),
        None => None,
    }
}

fn read_frame(j: &Json) -> (r: Option<Frame>)
    ensures
        match frame_of(j@) {
            Some(f) => r is Some && r->0@ == f,
            None => r is None,
        },
{
    match as_i64(j.get("id")) {
        Some(id) => Some(
            Frame {
                id,
                name: str_or(j.get("name"), "frame"),
                path: str_if_any(get_in(j.get("source"), "path")),
                line: count(as_i64(j.get("line"))),
                column: count(as_i64(j.get("column"))),
            },
        ),
        None => None,
    }
}

/// A stack as the protocol writes it, in the editor's own counting.
pub fn read_frames(value: &Json) -> (r: Vec<Frame>)
    ensures
        views(r@) == stack_in(value@),
{
    let mut r: Vec<Frame> = Vec::new();
    assert(views(r@) =~= Seq::<FrameAt>::empty());
    if let Some(v) = as_array(value.get("stackFrames")) {
        let ghost l = each(v@);
        let mut n: usize = 0;
        while n < v.len()
            invariant
                n <= v@.len(),
                l == each(v@),
                views(r@) == frames_of(l, n as int),
            decreases v@.len() - n,
        {
            assert(l[n as int] == v@[n as int]@);
            if let Some(f) = read_frame(&v[n]) {
                let ghost had = r@;
                let ghost is = f@;
                r.push(f);
                assert(views(r@) =~= views(had).push(is));
            }
            n = n + 1;
        }
    }
    r
}

/// A variable, where it has a name.
pub open spec fn variable_of(v: Value) -> Option<Named> {
    match text_in(field(v, "name"@)) {
        Some(name) => Some(
            Named {
                name,
                value: shortened(text_or(field(v, "value"@), Seq::empty())),
                kind: some_text(field(v, "type"@)),
                reference: match int_in(field(v, "variablesReference"@)) {
                    Some(n) => n,
                    None => 0,
                },
            },
        ),
        None => None,
    }
}

/// The first `n` of a list that are variables.
pub open spec fn variables_of(l: Seq<Value>, n: int) -> Seq<Named>
    decreases n,
{
    if n <= 0 {
        Seq::empty()
    } else {
        match variable_of(l[n - 1]) {
            Some(f) => variables_of(l, n - 1).push(f),
            None => variables_of(l, n - 1),
        }
    }
}

/// The variables in an answer.
pub open spec fn variables_in(v: Value) -> Seq<Named> {
    let l = items_in(v, "variables"@);
    variables_of(l, l.len() as int)
}

fn read_variable(j: &Json) -> (r: Option<Variable>)
    ensures
        match variable_of(j@) {
            Some(f) => r is Some && r->0@ == f,
            None => r is None,
        },
{
    match as_str(j.get("name")) {
        Some(name) => {
            let nothing: String = String::new();
            assert(nothing@ =~= Seq::<char>::empty());
            let value = str_or(j.get("value"), nothing.as_str());
            let reference: i64 = match as_i64(j.get("variablesReference")) {
                Some(n) => n,
                None => 0,
            };
            Some(
                Variable {
                    name: name.to_owned(),
                    value: shorten(value.as_str()),
                    kind: str_if_any(j.get("type")),
                    reference,
                },
            )
        },
        None => None,
    }
}

/// The variables in one scope or one value.
pub fn read_variables(value: &Json) -> (r: Vec<Variable>)
    ensures
        views(r@) == variables_in(value@),
{
    let mut r: Vec<Variable> = Vec::new();
    assert(views(r@) =~= Seq::<Named>::empty());
    if let Some(v) = as_array(value.get("variables")) {
        let ghost l = each(v@);
        let mut n: usize = 0;
        while n < v.len()
            invariant
                n <= v@.len(),
                l == each(v@),
                views(r@) == variables_of(l, n as int),
            decreases v@.len() - n,
        {
            assert(l[n as int] == v@[n as int]@);
            if let Some(f) = read_variable(&v[n]) {
                let ghost had = r@;
                let ghost is = f@;
                r.push(f);
                assert(views(r@) =~= views(had).push(is));
            }
            n = n + 1;
        }
    }
    r
}

/// The first `n` of a list that are threads.
pub open spec fn threads_of(l: Seq<Value>, n: int) -> Seq<(i64, Seq<char>)>
    decreases n,
{
    if n <= 0 {
        Seq::empty()
    } else {
        match int_in(field(l[n - 1], "id"@)) {
            Some(id) => threads_of(l, n - 1).push(
                (id, text_or(field(l[n - 1], "name"@), "thread"@)),
            ),
            None => threads_of(l, n - 1),
        }
    }
}

/// The threads in an answer.
pub open spec fn threads_in(v: Value) -> Seq<(i64, Seq<char>)> {
    let l = items_in(v, "threads"@);
    threads_of(l, l.len() as int)
}

fn read_threads(value: &Json) -> (r: Vec<Thread>)
    ensures
        views(r@) == threads_in(value@),
{
    let mut r: Vec<Thread> = Vec::new();
    assert(views(r@) =~= Seq::<(i64, Seq<char>)>::empty());
    if let Some(v) = as_array(value.get("threads")) {
        let ghost l = each(v@);
        let mut n: usize = 0;
        while n < v.len()
            invariant
                n <= v@.len(),
                l == each(v@),
                views(r@) == threads_of(l, n as int),
            decreases v@.len() - n,
        {
            assert(l[n as int] == v@[n as int]@);
            if let Some(id) = as_i64(v[n].get("id")) {
                let ghost had = r@;
                let name = str_or(v[n].get("name"), "thread");
                let ghost is = name@;
                r.push(Thread { id, name });
                assert(views(r@) =~= views(had).push((id, is)));
            }
            n = n + 1;
        }
    }
    r
}

/// A scope, where it has something to open.
pub open spec fn scope_of(v: Value) -> Option<Group> {
    match int_in(field(v, "variablesReference"@)) {
        Some(reference) => Some(
            Group {
                name: text_or(field(v, "name"@), "scope"@),
                reference,
                expensive: bool_in(field(v, "expensive"@)) == Some(true),
                hint: text_in(field(v, "presentationHint"@)),
            },
        ),
        None => None,
    }
}

/// The first `n` of a list that are scopes.
pub open spec fn scopes_of(l: Seq<Value>, n: int) -> Seq<Group>
    decreases n,
{
    if n <= 0 {
        Seq::empty()
    } else {
        match scope_of(l[n - 1]) {
            Some(f) => scopes_of(l, n - 1).push(f),
            None => scopes_of(l, n - 1),
        }
    }
}

/// The scopes in an answer.
pub open spec fn scopes_in(v: Value) -> Seq<Group> {
    let l = items_in(v, "scopes"@);
    scopes_of(l, l.len() as int)
}

fn is_true(j: Option<&Json>) -> (yes: bool)
    ensures
        yes == (bool_in(maybe(j)) == Some(true)),
{
    match as_bool(j) {
        Some(b) => b,
        None => false,
    }
}

fn read_scope(j: &Json) -> (r: Option<Scope>)
    ensures
        match scope_of(j@) {
            Some(f) => r is Some && r->0@ == f,
            None => r is None,
        },
{
    match as_i64(j.get("variablesReference")) {
        Some(reference) => {
            let hint: Option<String> = match as_str(j.get("presentationHint")) {
                Some(s) => Some(s.to_owned()),
                None => None,
            };
            Some(
                Scope {
                    name: str_or(j.get("name"), "scope"),
                    reference,
                    expensive: is_true(j.get("expensive")),
                    hint,
                },
            )
        },
        None => None,
    }
}

fn read_scopes(value: &Json) -> (r: Vec<Scope>)
    ensures
        views(r@) == scopes_in(value@),
{
    let mut r: Vec<Scope> = Vec::new();
    assert(views(r@) =~= Seq::<Group>::empty());
    if let Some(v) = as_array(value.get("scopes")) {
        let ghost l = each(v@);
        let mut n: usize = 0;
        while n < v.len()
            invariant
                n <= v@.len(),
                l == each(v@),
                views(r@) == scopes_of(l, n as int),
            decreases v@.len() - n,
        {
            assert(l[n as int] == v@[n as int]@);
            if let Some(f) = read_scope(&v[n]) {
                let ghost had = r@;
                let ghost is = f@;
                r.push(f);
                assert(views(r@) =~= views(had).push(is));
            }
            n = n + 1;
        }
    }
    r
}

/// The line a breakpoint was put on, counted from nought, where it was.
pub open spec fn line_taken(v: Value) -> Option<usize> {
    match int_in(field(v, "line"@)) {
        Some(n) => if bool_in(field(v, "verified"@)) == Some(true) {
            Some(if n as usize == 0 { 0 } else { (n as usize - 1) as usize })
        } else {
            None
        },
        None => None,
    }
}

/// The lines of the first `n` breakpoints of a list that were put somewhere.
pub open spec fn lines_taken(l: Seq<Value>, n: int) -> Seq<usize>
    decreases n,
{
    if n <= 0 {
        Seq::empty()
    } else {
        match line_taken(l[n - 1]) {
            Some(line) => lines_taken(l, n - 1).push(line),
            None => lines_taken(l, n - 1),
        }
    }
}

/// The lines that breakpoints were put on, in an answer.
pub open spec fn taken_in(v: Value) -> Seq<usize> {
    let l = items_in(v, "breakpoints"@);
    lines_taken(l, l.len() as int)
}

fn read_taken(value: &Json) -> (r: Vec<usize>)
    ensures
        r@ == taken_in(value@),
{
    let mut r: Vec<usize> = Vec::new();
    if let Some(v) = as_array(value.get("breakpoints")) {
        let ghost l = each(v@);
        let mut n: usize = 0;
        while n < v.len()
            invariant
                n <= v@.len(),
                l == each(v@),
                r@ == lines_taken(l, n as int),
            decreases v@.len() - n,
        {
            assert(l[n as int] == v@[n as int]@);
            if is_true(v[n].get("verified")) {
                if let Some(line) = as_i64(v[n].get("line")) {
                    let line = line as usize;
                    r.push(if line == 0 { 0 } else { line - 1 });
                }
            }
            n = n + 1;
        }
    }
    r
}

// ---------------------------------------------------------------------------
// When it would not start
// ---------------------------------------------------------------------------

/// How to point an adapter somewhere else, in words.
pub open spec fn way_out(adapter: Seq<char>, ran: Seq<char>) -> Seq<char> {
    let (plugin, name) = match halves(adapter, '/') {
        Some(p) => p,
        None => (adapter, adapter),
    };
    if trimmed(ran).len() == 0 {
        "to change what it is asked for: {\"debuggers\": {\""@ + name
            + "\": {\"launch\": {…}}}} in your settings for the "@ + plugin + " plugin"@
    } else {
        "to run something else: {\"debuggers\": {\""@ + name
            + "\": {\"command\": \"…\"}}} in your settings for the "@ + plugin + " plugin"@
    }
}

/// A session with the editor's own word about it.
pub open spec fn noted(s: Sess, line: Seq<char>) -> Sess {
    with_line(s, line, Printer::Note)
}

/// A session that says what the adapter printed, what was run, where that
/// came from, what to do about it, and how to run something else.
pub open spec fn blamed(s: Sess) -> Sess {
    let a = if s.complaints.len() == 0 {
        noted(s, "it stopped without saying anything"@)
    } else {
        with_lines(s, s.complaints, Printer::Note, s.complaints.len() as int)
    };
    let b = if trimmed(s.ran).len() > 0 { noted(a, "textfold ran: "@ + s.ran) } else { a };
    let c = match s.from {
        Some(from) => noted(b, "from "@ + from),
        None => b,
    };
    let d = match s.see {
        Some(see) => noted(c, see),
        None => c,
    };
    noted(d, way_out(s.adapter, s.ran))
}

/// Two texts, one after the other.
fn and(a: &str, b: &str) -> (s: String)
    ensures
        s@ == a@ + b@,
{
    let mut s: String = a.to_owned();
    s.append(b);
    s
}

fn is_blank(s: &str) -> (yes: bool)
    ensures
        yes == (trimmed(s@).len() == 0),
{
    let t = trim(&chars_of(s));
    t.len() == 0
}

fn show_way_out(adapter: &str, ran: &str) -> (s: String)
    ensures
        s@ == way_out(adapter@, ran@),
{
    let v = chars_of(adapter);
    let (plugin, name): (String, String) = match split_once(&v, '/') {
        Some((plugin, name)) => (text_of(&plugin), text_of(&name)),
        None => (adapter.to_owned(), adapter.to_owned()),
    };
    let mut s: String = if is_blank(ran) {
        "to change what it is asked for: {\"debuggers\": {\"".to_owned()
    } else {
        "to run something else: {\"debuggers\": {\"".to_owned()
    };
    s.append(name.as_str());
    if is_blank(ran) {
        s.append("\": {\"launch\": {…}}}} in your settings for the ");
    } else {
        s.append("\": {\"command\": \"…\"}}} in your settings for the ");
    }
    s.append(plugin.as_str());
    s.append(" plugin");
    s
}

impl Session {
    fn complain(&mut self)
        ensures
            final(self)@ == (if old(self)@.complaints.len() == 0 {
                noted(old(self)@, "it stopped without saying anything"@)
            } else {
                with_lines(
                    old(self)@,
                    old(self)@.complaints,
                    Printer::Note,
                    old(self)@.complaints.len() as int,
                )
            }),
    {
        let ghost was = self@;
        assert(was.complaints.len() == self.complaints@.len());
        if self.complaints.len() == 0 {
            self.say("it stopped without saying anything");
            return;
        }
        let said = copy_texts(&self.complaints);
        let ghost all = texts(said@);
        let mut n: usize = 0;
        while n < said.len()
            invariant
                n <= said@.len(),
                all == texts(said@),
                self@ == with_lines(was, all, Printer::Note, n as int),
            decreases said@.len() - n,
        {
            assert(all[n as int] == said@[n as int]@);
            self.say(said[n].as_str());
            n = n + 1;
        }
    }

    /// Put what the adapter printed, and what it was, where somebody will
    /// read it.
    fn blame(&mut self)
        ensures
            final(self)@ == blamed(old(self)@),
    {
        let ghost was = self@;
        let ran = self.ran.clone();
        let from = copy_maybe(&self.from);
        let see = copy_maybe(&self.see);
        let adapter = self.adapter.clone();
        self.complain();
        if !is_blank(ran.as_str()) {
            let line = and("textfold ran: ", ran.as_str());
            self.say(line.as_str());
        }
        if let Some(from) = &from {
            let line = and("from ", from.as_str());
            self.say(line.as_str());
        }
        if let Some(see) = &see {
            self.say(see.as_str());
        }
        let line = show_way_out(adapter.as_str(), ran.as_str());
        self.say(line.as_str());
    }
}

// ---------------------------------------------------------------------------
// Breakpoints
// ---------------------------------------------------------------------------

/// The place of a file, or the end.
pub open spec fn file_place(vs: Seq<(Seq<char>, Seq<usize>)>, path: Seq<char>, i: int) -> int
    decreases vs.len() - i,
{
    if 0 <= i < vs.len() && !same_path(vs[i].0, path) { file_place(vs, path, i + 1) } else { i }
}

/// The place where a file goes that is not there: before the first that
/// comes after it.
pub open spec fn file_slot(vs: Seq<(Seq<char>, Seq<usize>)>, path: Seq<char>, i: int) -> int
    decreases vs.len() - i,
{
    if 0 <= i < vs.len() && !path_before(path, vs[i].0) { file_slot(vs, path, i + 1) } else { i }
}

/// The lines of a file, where it is there.
pub open spec fn lines_at(vs: Seq<(Seq<char>, Seq<usize>)>, path: Seq<char>) -> Option<Seq<usize>> {
    let at = file_place(vs, path, 0);
    if at < vs.len() { Some(vs[at].1) } else { None }
}

/// Files with the lines of one set.
pub open spec fn with_file(
    vs: Seq<(Seq<char>, Seq<usize>)>,
    path: Seq<char>,
    lines: Seq<usize>,
) -> Seq<(Seq<char>, Seq<usize>)> {
    let at = file_place(vs, path, 0);
    if at < vs.len() {
        vs.update(at, (vs[at].0, lines))
    } else {
        vs.insert(file_slot(vs, path, 0), (path, lines))
    }
}

/// Every line but one.
pub open spec fn all_but(line: usize) -> spec_fn(usize) -> bool {
    |had: usize| had != line
}

/// The lines of a file with one that the adapter has taken, or that it has
/// not.
pub open spec fn adjusted(lines: Seq<usize>, line: usize, ok: bool) -> Seq<usize> {
    if ok && !lines.contains(line) {
        lines.push(line)
    } else if !ok && lines.contains(line) {
        lines.filter(all_but(line))
    } else {
        lines
    }
}

/// One breakpoint.
pub open spec fn breakpoint_value(line: usize) -> Value {
    Value::Object(seq![("line"@, Value::Natural((line + 1) as u64))])
}

/// What is said about the breakpoints of one file.
pub open spec fn breakpoints_value(path: Seq<char>, lines: Seq<usize>) -> Value {
    Value::Object(
        seq![
            (
                "source"@,
                Value::Object(
                    seq![
                        ("path"@, Value::Text(path)),
                        (
                            "name"@,
                            match last_name(path) {
                                Some(name) => Value::Text(name),
                                None => Value::Null,
                            },
                        ),
                    ],
                ),
            ),
            ("breakpoints"@, Value::List(lines.map_values(|l: usize| breakpoint_value(l)))),
            ("sourceModified"@, Value::Bool(false)),
        ],
    )
}

/// The files among the first `n` that are not among others, with no lines.
pub open spec fn gone(
    vs: Seq<(Seq<char>, Seq<usize>)>,
    bs: Seq<(Seq<char>, Seq<usize>)>,
    n: int,
) -> Seq<(Seq<char>, Seq<usize>)>
    decreases n,
{
    if n <= 0 {
        Seq::empty()
    } else {
        let less = gone(vs, bs, n - 1);
        if file_place(bs, vs[n - 1].0, 0) < bs.len() {
            less
        } else {
            less.push((vs[n - 1].0, Seq::empty()))
        }
    }
}

/// A session that has said where the breakpoints of the first `n` files are.
pub open spec fn placed(s: Sess, bs: Seq<(Seq<char>, Seq<usize>)>, n: int) -> Sess
    decreases n,
{
    if n <= 0 {
        s
    } else {
        requested(
            placed(s, bs, n - 1),
            "setBreakpoints"@,
            breakpoints_value(bs[n - 1].0, bs[n - 1].1),
            Asked::Breakpoints(bs[n - 1].0),
        )
    }
}

/// A session that has told the adapter where the breakpoints are: those of
/// every file that has some, and of every file that had some. Nothing is said
/// before the adapter is ready, nor once it is over.
pub open spec fn with_breakpoints(s: Sess, bs: Seq<(Seq<char>, Seq<usize>)>) -> Sess {
    if !s.configured || s.state is Ended {
        s
    } else {
        let all = bs + gone(s.verified, bs, s.verified.len() as int);
        placed(s, all, all.len() as int)
    }
}

/// Whether lines can be said to an adapter, which counts from one.
pub open spec fn sayable(bs: Seq<(Seq<char>, Seq<usize>)>) -> bool {
    forall|i: int, j: int|
        0 <= i < bs.len() && 0 <= j < bs[i].1.len() ==> #[trigger] bs[i].1[j] < usize::MAX
}

fn find_file(vs: &Vec<(String, Vec<usize>)>, path: &str) -> (at: usize)
    ensures
        at == file_place(lines_by_file(vs@), path@, 0),
        at <= vs@.len(),
{
    let mut at: usize = 0;
    while at < vs.len()
        invariant
            at <= vs@.len(),
            file_place(lines_by_file(vs@), path@, 0) == file_place(
                lines_by_file(vs@),
                path@,
                at as int,
            ),
        decreases vs@.len() - at,
    {
        assert(lines_by_file(vs@)[at as int] == (vs@[at as int].0@, vs@[at as int].1@));
        if is_same(vs[at].0.as_str(), path) {
            return at;
        }
        at = at + 1;
    }
    at
}

fn set_file(vs: &mut Vec<(String, Vec<usize>)>, path: &str, lines: Vec<usize>)
    ensures
        lines_by_file(final(vs)@) == with_file(lines_by_file(old(vs)@), path@, lines@),
{
    let ghost had = lines_by_file(vs@);
    let ghost is = lines@;
    let at = find_file(vs, path);
    assert(had.len() == vs@.len());
    if at < vs.len() {
        let name = vs[at].0.clone();
        assert(had[at as int].0 == name@);
        vs.set(at, (name, lines));
        assert(lines_by_file(vs@) =~= had.update(at as int, (had[at as int].0, is)));
        return;
    }
    let mut slot: usize = 0;
    while slot < vs.len() && !is_before(path, vs[slot].0.as_str())
        invariant
            slot <= vs@.len(),
            had == lines_by_file(vs@),
            file_slot(had, path@, 0) == file_slot(had, path@, slot as int),
        decreases vs@.len() - slot,
    {
        assert(had[slot as int] == (vs@[slot as int].0@, vs@[slot as int].1@));
        slot = slot + 1;
    }
    if slot < vs.len() {
        assert(had[slot as int] == (vs@[slot as int].0@, vs@[slot as int].1@));
    }
    vs.insert(slot, (path.to_owned(), lines));
    assert(lines_by_file(vs@) =~= had.insert(slot as int, (path@, is)));
}

fn adjust(lines: &Vec<usize>, line: usize, ok: bool) -> (r: Vec<usize>)
    ensures
        r@ == adjusted(lines@, line, ok),
{
    let mut kept: Vec<usize> = Vec::new();
    let mut seen = false;
    let mut i: usize = 0;
    proof {
        reveal(Seq::filter);
    }
    assert(kept@ =~= lines@.take(0).filter(all_but(line)));
    while i < lines.len()
        invariant
            i <= lines@.len(),
            seen == lines@.take(i as int).contains(line),
            kept@ == lines@.take(i as int).filter(all_but(line)),
        decreases lines@.len() - i,
    {
        proof {
            reveal(Seq::filter);
            assert(lines@.take(i + 1).drop_last() =~= lines@.take(i as int));
            assert(lines@.take(i + 1) =~= lines@.take(i as int).push(lines@[i as int]));
        }
        if lines[i] == line {
            seen = true;
            assert(lines@.take(i + 1)[i as int] == line);
        } else {
            kept.push(lines[i]);
        }
        proof {
            if lines@.take(i as int).contains(line) {
                let k = choose|k: int| 0 <= k < i && lines@.take(i as int)[k] == line;
                assert(lines@.take(i + 1)[k] == line);
            }
            if lines@.take(i + 1).contains(line) && lines@[i as int] != line {
                let next = lines@.take(i + 1);
                let k = choose|k: int| 0 <= k < next.len() && next[k] == line;
                assert(lines@.take(i as int)[k] == line);
            }
        }
        i = i + 1;
    }
    assert(lines@.take(i as int) =~= lines@);
    if ok && !seen {
        let mut r = copy_lines(lines);
        r.push(line);
        r
    } else if !ok && seen {
        kept
    } else {
        copy_lines(lines)
    }
}

fn has_line(lines: &Vec<usize>, line: usize) -> (yes: bool)
    ensures
        yes == lines@.contains(line),
{
    let mut i: usize = 0;
    while i < lines.len()
        invariant
            i <= lines@.len(),
            forall|k: int| 0 <= k < i ==> #[trigger] lines@[k] != line,
        decreases lines@.len() - i,
    {
        if lines[i] == line {
            assert(lines@[i as int] == line);
            return true;
        }
        i = i + 1;
    }
    false
}

fn copy_lines(lines: &Vec<usize>) -> (r: Vec<usize>)
    ensures
        r@ == lines@,
{
    let mut r: Vec<usize> = Vec::new();
    let mut i: usize = 0;
    while i < lines.len()
        invariant
            i <= lines@.len(),
            r@ == lines@.take(i as int),
        decreases lines@.len() - i,
    {
        r.push(lines[i]);
        i = i + 1;
        assert(r@ =~= lines@.take(i as int));
    }
    assert(lines@.take(i as int) =~= lines@);
    r
}

fn say_breakpoints(path: &str, lines: &Vec<usize>) -> (j: Json)
    requires
        forall|i: int| 0 <= i < lines@.len() ==> #[trigger] lines@[i] < usize::MAX,
    ensures
        j@ == breakpoints_value(path@, lines@),
{
    let mut wanted: Vec<Json> = Vec::new();
    let ghost want = lines@.map_values(|l: usize| breakpoint_value(l));
    let mut i: usize = 0;
    assert(each(wanted@) =~= want.take(0));
    while i < lines.len()
        invariant
            i <= lines@.len(),
            forall|i: int| 0 <= i < lines@.len() ==> #[trigger] lines@[i] < usize::MAX,
            want == lines@.map_values(|l: usize| breakpoint_value(l)),
            each(wanted@) == want.take(i as int),
        decreases lines@.len() - i,
    {
        let mut one: Vec<(String, Json)> = Vec::new();
        add_field(&mut one, "line", Json::Natural((lines[i] + 1) as u64));
        let one = object(one);
        assert(one@->Object_0 =~= breakpoint_value(lines@[i as int])->Object_0);
        add_item(&mut wanted, one);
        i = i + 1;
        assert(each(wanted@) =~= want.take(i as int));
    }
    assert(want.take(i as int) =~= want);
    let mut source: Vec<(String, Json)> = Vec::new();
    add_field(&mut source, "path", string(path));
    let name = match file_name(path) {
        Some(name) => {
            let name = text_of(&name);
            string(name.as_str())
        },
        None => Json::Null,
    };
    add_field(&mut source, "name", name);
    let mut fs: Vec<(String, Json)> = Vec::new();
    let ghost inner = fields(source@);
    add_field(&mut fs, "source", object(source));
    add_field(&mut fs, "breakpoints", list(wanted));
    add_field(&mut fs, "sourceModified", Json::Bool(false));
    let j = object(fs);
    proof {
        let b = breakpoints_value(path@, lines@);
        assert(inner =~= b->Object_0[0].1->Object_0);
        assert(j@->Object_0 =~= b->Object_0);
    }
    j
}

impl Session {
    /// Tell the adapter where the breakpoints are.
    fn send_breakpoints(&mut self, bs: &Vec<(String, Vec<usize>)>)
        requires
            sayable(lines_by_file(bs@)),
        ensures
            final(self)@ == with_breakpoints(old(self)@, lines_by_file(bs@)),
    {
        if !self.configured || self.state.is_over() {
            return;
        }
        let ghost was = self@;
        let ghost given = lines_by_file(bs@);
        let mut past: Vec<String> = Vec::new();
        let ghost vs = lines_by_file(self.verified@);
        let mut i: usize = 0;
        assert(gone(vs, given, 0) =~= texts(past@).map_values(
            |p: Seq<char>| (p, Seq::<usize>::empty()),
        ));
        while i < self.verified.len()
            invariant
                i <= self.verified@.len(),
                self@ == was,
                vs == lines_by_file(self.verified@),
                given == lines_by_file(bs@),
                gone(vs, given, i as int) == texts(past@).map_values(
                    |p: Seq<char>| (p, Seq::<usize>::empty()),
                ),
            decreases self.verified@.len() - i,
        {
            assert(vs[i as int] == (self.verified@[i as int].0@, self.verified@[i as int].1@));
            let at = find_file(bs, self.verified[i].0.as_str());
            if at >= bs.len() {
                let ghost had = past@;
                past.push(self.verified[i].0.clone());
                assert(texts(past@) =~= texts(had).push(vs[i as int].0));
                assert(texts(past@).map_values(|p: Seq<char>| (p, Seq::<usize>::empty())) =~= texts(
                    had,
                ).map_values(|p: Seq<char>| (p, Seq::<usize>::empty())).push(
                    (vs[i as int].0, Seq::empty()),
                ));
            }
            i = i + 1;
        }
        let ghost more = gone(vs, given, vs.len() as int);
        let ghost all = given + more;
        assert(was.verified == vs);
        let mut n: usize = 0;
        while n < bs.len()
            invariant
                n <= bs@.len(),
                sayable(given),
                given == lines_by_file(bs@),
                all == given + more,
                self@ == placed(was, all, n as int),
            decreases bs@.len() - n,
        {
            assert(given[n as int] == (bs@[n as int].0@, bs@[n as int].1@));
            assert(all[n as int] == given[n as int]);
            assert forall|k: int| 0 <= k < bs@[n as int].1@.len() implies #[trigger] bs@[n as int].1@[k]
                < usize::MAX by {
                assert(given[n as int].1[k] < usize::MAX);
            }
            let arguments = say_breakpoints(bs[n].0.as_str(), &bs[n].1);
            let path = bs[n].0.clone();
            self.request("setBreakpoints", arguments, Ask::Breakpoints { path });
            n = n + 1;
        }
        let none: Vec<usize> = Vec::new();
        let mut m: usize = 0;
        while m < past.len()
            invariant
                m <= past@.len(),
                n == bs@.len(),
                given.len() == n,
                none@.len() == 0,
                all == given + more,
                more == texts(past@).map_values(|p: Seq<char>| (p, Seq::<usize>::empty())),
                self@ == placed(was, all, n + m),
            decreases past@.len() - m,
        {
            assert(texts(past@)[m as int] == past@[m as int]@);
            assert(all[n + m] == more[m as int]);
            assert(none@ =~= Seq::<usize>::empty());
            let arguments = say_breakpoints(past[m].as_str(), &none);
            let path = past[m].clone();
            self.request("setBreakpoints", arguments, Ask::Breakpoints { path });
            m = m + 1;
        }
    }
}

// ---------------------------------------------------------------------------
// What the adapter volunteers
// ---------------------------------------------------------------------------

/// An object without fields.
pub open spec fn nothing() -> Value {
    Value::Object(Seq::empty())
}

fn no_arguments() -> (j: Json)
    ensures
        j@ == nothing(),
{
    let fs: Vec<(String, Json)> = Vec::new();
    let j = object(fs);
    assert(j@->Object_0 =~= Seq::<(Seq<char>, Value)>::empty());
    j
}

/// The arguments of a request for the stack of a thread.
pub open spec fn stack_arguments(thread: i64) -> Value {
    Value::Object(
        seq![
            ("threadId"@, int_value(thread)),
            ("startFrame"@, Value::Natural(0)),
            ("levels"@, Value::Natural(40)),
        ],
    )
}

/// An object with one number.
pub open spec fn one_number(key: Seq<char>, n: i64) -> Value {
    Value::Object(seq![(key, int_value(n))])
}

fn with_number(key: &str, n: i64) -> (j: Json)
    ensures
        j@ == one_number(key@, n),
{
    let mut fs: Vec<(String, Json)> = Vec::new();
    add_field(&mut fs, key, number(n));
    let j = object(fs);
    assert(j@->Object_0 =~= one_number(key@, n)->Object_0);
    j
}

/// A session in which the program has stopped: the threads are asked for, and
/// the stack of the one that stopped.
pub open spec fn on_stop(s: Sess, body: Value) -> Sess {
    let said = match text_in(field(body, "text"@)) {
        Some(text) => noted(s, text),
        None => s,
    };
    let thread = int_in(field(body, "threadId"@));
    let stopped = Sess {
        state: Standing::Stopped(text_or(field(body, "reason"@), "stopped"@)),
        thread,
        ..forgotten(said)
    };
    let asked = requested(stopped, "threads"@, nothing(), Asked::Threads);
    match thread {
        Some(id) => requested(asked, "stackTrace"@, stack_arguments(id), Asked::Stack),
        None => asked,
    }
}

/// Without the line feeds at the end.
pub open spec fn unended(s: Seq<char>) -> Seq<char>
    decreases s.len(),
{
    if s.len() > 0 && s.last() == '\n' { unended(s.drop_last()) } else { s }
}

/// A session in which something was printed. What an adapter says to its own
/// authors is not, nor what it says before it has answered anything.
pub open spec fn on_print(s: Sess, body: Value) -> Sess {
    let category = text_or(field(body, "category"@), Seq::empty());
    if category == "telemetry"@ || !s.answered {
        s
    } else {
        let from = if category == "stderr"@ { Printer::Stderr } else { Printer::Out };
        match text_in(field(body, "output"@)) {
            Some(text) => {
                let ls = cut(unended(text), '\n');
                with_lines(s, ls, from, ls.len() as int)
            },
            None => s,
        }
    }
}

/// A session that is over.
pub open spec fn over(s: Sess, why: Seq<char>) -> Sess {
    Sess { state: Standing::Ended(why), ..forgotten(s) }
}

/// How a program ended that exited with a code.
pub open spec fn exit_words(code: i64) -> Seq<char> {
    if code == 0 { "finished"@ } else { "exited "@ + signed(code as int) }
}

/// A session in which the adapter has changed its mind about a breakpoint.
pub open spec fn on_verify(s: Sess, body: Value) -> Sess {
    let about = field(body, "breakpoint"@);
    let path = text_in(field_in(field_in(about, "source"@), "path"@));
    let line = int_in(field_in(about, "line"@));
    let ok = bool_in(field_in(about, "verified"@)) == Some(true);
    match (path, line) {
        (Some(path), Some(n)) => {
            let had = match lines_at(s.verified, path) {
                Some(lines) => lines,
                None => Seq::empty(),
            };
            Sess {
                verified: with_file(s.verified, path, adjusted(had, counted(Some(n)), ok)),
                ..s
            }
        },
        _ => s,
    }
}

/// Whether the adapter says it can do something.
pub open spec fn able(s: Sess, what: Seq<char>) -> bool {
    bool_in(field(s.caps, what)) == Some(true)
}

/// A session that has said its configuration is finished, where the adapter
/// wants to hear it.
pub open spec fn configured(s: Sess) -> Sess {
    if able(s, "supportsConfigurationDoneRequest"@) {
        notified(s, "configurationDone"@, nothing())
    } else {
        s
    }
}

/// What an event makes of a session.
pub open spec fn after_event(
    s: Sess,
    event: Seq<char>,
    body: Value,
    bs: Seq<(Seq<char>, Seq<usize>)>,
) -> (Sess, Change) {
    if event == "initialized"@ {
        (configured(with_breakpoints(Sess { configured: true, ..s }, bs)), Change::Nothing)
    } else if event == "stopped"@ {
        (on_stop(s, body), Change::Nothing)
    } else if event == "continued"@ {
        (Sess { state: Standing::Running, ..forgotten(s) }, Change::Resumed)
    } else if event == "output"@ {
        (on_print(s, body), Change::Nothing)
    } else if event == "terminated"@ {
        if s.state is Ended { (s, Change::Nothing) } else { (over(s, "finished"@), Change::Ended) }
    } else if event == "exited"@ {
        let code = match int_in(field(body, "exitCode"@)) {
            Some(n) => n,
            None => 0,
        };
        if s.state is Ended {
            (s, Change::Nothing)
        } else {
            (over(s, exit_words(code)), Change::Ended)
        }
    } else if event == "thread"@ {
        (requested(s, "threads"@, nothing(), Asked::Threads), Change::Nothing)
    } else if event == "breakpoint"@ {
        (on_verify(s, body), Change::Nothing)
    } else if event == "capabilities"@ {
        match field(body, "capabilities"@) {
            Some(more) => (Sess { caps: merged_value(s.caps, more), ..s }, Change::Nothing),
            None => (s, Change::Nothing),
        }
    } else {
        (s, Change::Nothing)
    }
}

fn trim_line_feeds(v: &Vec<char>) -> (r: Vec<char>)
    ensures
        r@ == unended(v@),
{
    let mut n: usize = v.len();
    assert(v@.take(n as int) =~= v@);
    while n > 0 && v[n - 1] == '\n'
        invariant
            n <= v@.len(),
            unended(v@) == unended(v@.take(n as int)),
        decreases n,
    {
        assert(v@.take(n as int).drop_last() =~= v@.take(n - 1));
        n = n - 1;
    }
    assert(v@.take(n as int) =~= v@.subrange(0, n as int));
    piece(v, 0, n)
}

impl Session {
    fn ask_threads(&mut self)
        ensures
            final(self)@ == requested(old(self)@, "threads"@, nothing(), Asked::Threads),
    {
        self.request("threads", no_arguments(), Ask::Threads);
    }

    fn stopped(&mut self, body: &Json)
        ensures
            final(self)@ == on_stop(old(self)@, body@),
    {
        let why = str_or(body.get("reason"), "stopped");
        if let Some(text) = as_str(body.get("text")) {
            self.say(text);
        }
        self.forget_values();
        let ghost mid = self@;
        self.state = State::Stopped(why);
        let thread = as_i64(body.get("threadId"));
        self.thread = thread;
        assert(self@ =~= (Sess { state: Standing::Stopped(why@), thread, ..mid }));
        self.ask_threads();
        if let Some(id) = thread {
            let mut fs: Vec<(String, Json)> = Vec::new();
            add_field(&mut fs, "threadId", number(id));
            add_field(&mut fs, "startFrame", Json::Natural(0));
            add_field(&mut fs, "levels", Json::Natural(40));
            let arguments = object(fs);
            assert(arguments@->Object_0 =~= stack_arguments(id)->Object_0);
            self.request("stackTrace", arguments, Ask::Stack);
        }
    }

    fn output_said(&mut self, body: &Json)
        ensures
            final(self)@ == on_print(old(self)@, body@),
    {
        let none: String = String::new();
        assert(none@ =~= Seq::<char>::empty());
        let category = str_or(body.get("category"), none.as_str());
        if same(category.as_str(), "telemetry") || !self.answered {
            return;
        }
        let from = if same(category.as_str(), "stderr") { Printer::Stderr } else { Printer::Out };
        if let Some(text) = as_str(body.get("output")) {
            let v = trim_line_feeds(&chars_of(text));
            let ls = cut_at(&v, '\n');
            assert(deep(ls@).len() == ls@.len());
            self.print_lines(&ls, from);
        }
    }

    fn end(&mut self, why: String)
        ensures
            final(self)@ == over(old(self)@, why@),
    {
        self.forget_values();
        let ghost mid = self@;
        self.state = State::Ended(why);
        assert(self@ =~= (Sess { state: Standing::Ended(why@), ..mid }));
    }

    fn exited(&mut self, body: &Json) -> (c: Change)
        ensures
            (final(self)@, c) == (if old(self)@.state is Ended {
                (old(self)@, Change::Nothing)
            } else {
                (
                    over(
                        old(self)@,
                        exit_words(
                            match int_in(field(body@, "exitCode"@)) {
                                Some(n) => n,
                                None => 0,
                            },
                        ),
                    ),
                    Change::Ended,
                )
            }),
    {
        if self.state.is_over() {
            return Change::Nothing;
        }
        let code: i64 = match as_i64(body.get("exitCode")) {
            Some(n) => n,
            None => 0,
        };
        let why: String = if code == 0 {
            "finished".to_owned()
        } else {
            let mut s: String = "exited ".to_owned();
            write_signed(&mut s, code);
            s
        };
        self.end(why);
        Change::Ended
    }

    fn verify(&mut self, body: &Json)
        ensures
            final(self)@ == on_verify(old(self)@, body@),
    {
        let about = body.get("breakpoint");
        let path = as_str(get_in(get_in(about, "source"), "path"));
        let line = as_i64(get_in(about, "line"));
        let ok = is_true(get_in(about, "verified"));
        if let (Some(path), Some(n)) = (path, line) {
            let ghost was = self@;
            let at = find_file(&self.verified, path);
            assert(lines_by_file(self.verified@).len() == self.verified@.len());
            let taken = if at < self.verified.len() {
                assert(lines_by_file(self.verified@)[at as int].1 == self.verified@[at as int].1@);
                adjust(&self.verified[at].1, count(Some(n)), ok)
            } else {
                let none: Vec<usize> = Vec::new();
                assert(none@ =~= Seq::<usize>::empty());
                adjust(&none, count(Some(n)), ok)
            };
            let ghost now = taken@;
            set_file(&mut self.verified, path, taken);
            assert(self@ =~= (Sess { verified: with_file(was.verified, path@, now), ..was }));
        }
    }

    /// Whether the adapter says it can do something.
    pub fn can(&self, what: &str) -> (yes: bool)
        ensures
            yes == able(self@, what@),
    {
        is_true(self.caps.get(what))
    }

    fn configuration_done(&mut self)
        ensures
            final(self)@ == configured(old(self)@),
    {
        if self.can("supportsConfigurationDoneRequest") {
            self.notify("configurationDone", no_arguments());
        }
    }

    /// Something the adapter volunteered.
    fn on_event(&mut self, event: &str, body: &Json, bs: &Vec<(String, Vec<usize>)>) -> (c: Change)
        requires
            sayable(lines_by_file(bs@)),
        ensures
            (final(self)@, c) == after_event(old(self)@, event@, body@, lines_by_file(bs@)),
    {
        let ghost was = self@;
        if same(event, "initialized") {
            self.configured = true;
            assert(self@ =~= (Sess { configured: true, ..was }));
            self.send_breakpoints(bs);
            self.configuration_done();
            Change::Nothing
        } else if same(event, "stopped") {
            self.stopped(body);
            Change::Nothing
        } else if same(event, "continued") {
            self.forget_values();
            let ghost mid = self@;
            self.state = State::Running;
            assert(self@ =~= (Sess { state: Standing::Running, ..mid }));
            Change::Resumed
        } else if same(event, "output") {
            self.output_said(body);
            Change::Nothing
        } else if same(event, "terminated") {
            if self.state.is_over() {
                return Change::Nothing;
            }
            self.end("finished".to_owned());
            Change::Ended
        } else if same(event, "exited") {
            self.exited(body)
        } else if same(event, "thread") {
            self.ask_threads();
            Change::Nothing
        } else if same(event, "breakpoint") {
            self.verify(body);
            Change::Nothing
        } else if same(event, "capabilities") {
            if let Some(more) = body.get("capabilities") {
                merge(&mut self.caps, more);
                assert(self@ =~= (Sess { caps: merged_value(was.caps, more@), ..was }));
            }
            Change::Nothing
        } else {
            Change::Nothing
        }
    }
}

// ---------------------------------------------------------------------------
// Answers
// ---------------------------------------------------------------------------

/// A session that has heard what it can do, and asks for the program.
pub open spec fn on_ready(s: Sess, value: Value) -> Sess {
    requested(Sess { answered: true, caps: value, ..s }, s.start.0, s.start.1, Asked::Start)
}

/// A session that has the stack, and asks for what is in view at its top.
pub open spec fn on_stack(s: Sess, value: Value) -> Sess {
    let frames = stack_in(value);
    let top = if frames.len() > 0 { Some(frames[0].id) } else { None };
    let shown = Sess { frames, frame: top, ..s };
    match top {
        Some(id) => requested(shown, "scopes"@, one_number("frameId"@, id), Asked::Scopes),
        None => shown,
    }
}

/// Whether a scope is one that opens itself, by what the adapter calls it.
pub open spec fn hinted(g: Group) -> bool {
    g.hint == Some("arguments"@) || g.hint == Some("locals"@)
}

/// The references of the first `n` scopes that open themselves.
pub open spec fn hinted_in(gs: Seq<Group>, n: int) -> Seq<i64>
    decreases n,
{
    if n <= 0 {
        Seq::empty()
    } else if hinted(gs[n - 1]) {
        hinted_in(gs, n - 1).push(gs[n - 1].reference)
    } else {
        hinted_in(gs, n - 1)
    }
}

/// The reference of the first scope from `i` on that is not slow to fetch.
pub open spec fn first_cheap(gs: Seq<Group>, i: int) -> Seq<i64>
    decreases gs.len() - i,
{
    if i < 0 || i >= gs.len() {
        Seq::empty()
    } else if !gs[i].expensive {
        seq![gs[i].reference]
    } else {
        first_cheap(gs, i + 1)
    }
}

/// The scopes that are opened without being asked for: those that the adapter
/// hints at, or else the first that is not slow to fetch.
pub open spec fn wanted(gs: Seq<Group>) -> Seq<i64> {
    let h = hinted_in(gs, gs.len() as int);
    if h.len() > 0 { h } else { first_cheap(gs, 0) }
}

/// A session that has opened the first `n` references and asked what is in
/// them.
pub open spec fn opened(s: Sess, rs: Seq<i64>, n: int) -> Sess
    decreases n,
{
    if n <= 0 {
        s
    } else {
        let less = opened(s, rs, n - 1);
        requested(
            Sess { open: less.open.insert(rs[n - 1]), ..less },
            "variables"@,
            one_number("variablesReference"@, rs[n - 1]),
            Asked::Variables(rs[n - 1]),
        )
    }
}

/// A session that has the scopes.
pub open spec fn on_scopes(s: Sess, value: Value) -> Sess {
    let gs = scopes_in(value);
    let rs = wanted(gs);
    opened(Sess { scopes: gs, ..s }, rs, rs.len() as int)
}

/// Whether a command lets the program go on.
pub open spec fn lets_go(what: Seq<char>) -> bool {
    what == "continue"@ || what == "next"@ || what == "stepIn"@ || what == "stepOut"@
}

/// What an answer to something makes of a session.
pub open spec fn after_answer(s: Sess, ask: Asked, value: Value) -> (Sess, Change) {
    match ask {
        Asked::Initialize => (on_ready(s, value), Change::Nothing),
        Asked::Start => (
            if s.state is Starting { Sess { state: Standing::Running, ..s } } else { s },
            Change::Nothing,
        ),
        Asked::Breakpoints(path) => (
            Sess { verified: with_file(s.verified, path, taken_in(value)), ..s },
            Change::Nothing,
        ),
        Asked::Threads => (Sess { threads: threads_in(value), ..s }, Change::Nothing),
        Asked::Stack => (on_stack(s, value), Change::Stopped),
        Asked::Scopes => (on_scopes(s, value), Change::Nothing),
        Asked::Variables(reference) => (
            Sess { values: s.values.insert(reference, variables_in(value)), ..s },
            Change::Nothing,
        ),
        Asked::Evaluate(what) => (
            noted(s, what + " = "@ + text_or(field(value, "result"@), "(nothing)"@)),
            Change::Nothing,
        ),
        Asked::Control(what) => if lets_go(what) {
            (Sess { state: Standing::Running, ..forgotten(s) }, Change::Resumed)
        } else {
            (s, Change::Nothing)
        },
    }
}

/// What a refusal of something makes of a session. One of the program ends
/// it. One of a question about a moment that has passed is not worth a word.
pub open spec fn after_refusal(s: Sess, ask: Asked, why: Seq<char>) -> (Sess, Change) {
    match ask {
        Asked::Initialize | Asked::Start => (
            blamed(Sess { state: Standing::Ended(why), ..noted(s, why) }),
            Change::Ended,
        ),
        Asked::Control(_) => if s.state is Ended {
            (s, Change::Nothing)
        } else {
            (noted(s, why), Change::Nothing)
        },
        Asked::Stack | Asked::Scopes | Asked::Variables(_) | Asked::Threads => if !(
        s.state is Stopped) {
            (s, Change::Nothing)
        } else {
            (noted(s, why), Change::Nothing)
        },
        _ => (noted(s, why), Change::Nothing),
    }
}

/// What an answer with a number makes of a session: each is taken once.
pub open spec fn after_response(s: Sess, id: i64, result: Result<Value, Seq<char>>) -> (Sess, Change) {
    let at = waiting_place(s.peer.waiting, id, 0);
    if at >= s.peer.waiting.len() {
        (s, Change::Nothing)
    } else {
        let ask = s.peer.waiting[at].1;
        let taken = Sess { peer: claimed(s.peer, at), ..s };
        match result {
            Ok(value) => after_answer(taken, ask, value),
            Err(why) => after_refusal(taken, ask, why),
        }
    }
}

impl Session {
    fn ready(&mut self, value: Json)
        ensures
            final(self)@ == on_ready(old(self)@, value@),
    {
        let ghost was = self@;
        let ghost v = value@;
        self.answered = true;
        self.caps = value;
        assert(self@ =~= (Sess { answered: true, caps: v, ..was }));
        let command = self.start.0;
        let arguments = self.start.1.clone();
        self.request(command, arguments, Ask::Start);
    }

    fn stack_came(&mut self, value: &Json)
        ensures
            final(self)@ == on_stack(old(self)@, value@),
    {
        let ghost was = self@;
        let frames = read_frames(value);
        let ghost fs = views(frames@);
        let top: Option<i64> = if frames.len() > 0 {
            assert(fs[0] == frames@[0]@);
            Some(frames[0].id)
        } else {
            None
        };
        self.frames = frames;
        self.frame = top;
        assert(self@ =~= (Sess { frames: fs, frame: top, ..was }));
        if let Some(id) = top {
            self.request("scopes", with_number("frameId", id), Ask::Scopes);
        }
    }

    fn open_reference(&mut self, reference: i64)
        ensures
            final(self)@ == requested(
                (Sess { open: old(self)@.open.insert(reference), ..old(self)@ }),
                "variables"@,
                one_number("variablesReference"@, reference),
                Asked::Variables(reference),
            ),
    {
        broadcast use vstd::std_specs::hash::group_hash_axioms;

        let ghost was = self@;
        self.open.insert(reference);
        assert(self@ =~= (Sess { open: was.open.insert(reference), ..was }));
        self.request(
            "variables",
            with_number("variablesReference", reference),
            Ask::Variables { reference },
        );
    }

    fn scopes_came(&mut self, value: &Json)
        ensures
            final(self)@ == on_scopes(old(self)@, value@),
    {
        let ghost was = self@;
        let scopes = read_scopes(value);
        let ghost gs = views(scopes@);
        let rs = references_wanted(&scopes);
        self.scopes = scopes;
        assert(self@ =~= (Sess { scopes: gs, ..was }));
        let ghost base = self@;
        let mut n: usize = 0;
        while n < rs.len()
            invariant
                n <= rs@.len(),
                self@ == opened(base, rs@, n as int),
            decreases rs@.len() - n,
        {
            self.open_reference(rs[n]);
            n = n + 1;
        }
    }

    fn values_came(&mut self, reference: i64, value: &Json)
        ensures
            final(self)@ == (Sess {
                values: old(self)@.values.insert(reference, variables_in(value@)),
                ..old(self)@
            }),
    {
        broadcast use vstd::std_specs::hash::group_hash_axioms;

        let ghost was = self@;
        let ghost m = self.values@;
        let inside = read_variables(value);
        let ghost is = views(inside@);
        self.values.insert(reference, inside);
        assert(insides(self.values@) =~= insides(m).insert(reference, is));
        assert(self@ =~= (Sess { values: was.values.insert(reference, is), ..was }));
    }

    fn go_on(&mut self)
        ensures
            final(self)@ == (Sess { state: Standing::Running, ..forgotten(old(self)@) }),
    {
        self.forget_values();
        let ghost mid = self@;
        self.state = State::Running;
        assert(self@ =~= (Sess { state: Standing::Running, ..mid }));
    }

    fn answer(&mut self, ask: Ask, value: Json) -> (c: Change)
        ensures
            (final(self)@, c) == after_answer(old(self)@, ask@, value@),
    {
        let ghost was = self@;
        match ask {
            Ask::Initialize => {
                self.ready(value);
                Change::Nothing
            },
            Ask::Start => {
                if matches!(self.state, State::Starting) {
                    self.state = State::Running;
                    assert(self@ =~= (Sess { state: Standing::Running, ..was }));
                }
                Change::Nothing
            },
            Ask::Breakpoints { path } => {
                let lines = read_taken(&value);
                let ghost now = lines@;
                set_file(&mut self.verified, path.as_str(), lines);
                assert(self@ =~= (Sess { verified: with_file(was.verified, path@, now), ..was }));
                Change::Nothing
            },
            Ask::Threads => {
                self.threads = read_threads(&value);
                assert(self@ =~= (Sess { threads: threads_in(value@), ..was }));
                Change::Nothing
            },
            Ask::Stack => {
                self.stack_came(&value);
                Change::Stopped
            },
            Ask::Scopes => {
                self.scopes_came(&value);
                Change::Nothing
            },
            Ask::Variables { reference } => {
                self.values_came(reference, &value);
                Change::Nothing
            },
            Ask::Evaluate { what } => {
                let said = str_or(value.get("result"), "(nothing)");
                let mut line: String = what;
                line.append(" = ");
                line.append(said.as_str());
                self.say(line.as_str());
                Change::Nothing
            },
            Ask::Control { what } => {
                if same(what, "continue") || same(what, "next") || same(what, "stepIn") || same(
                    what,
                    "stepOut",
                ) {
                    self.go_on();
                    return Change::Resumed;
                }
                Change::Nothing
            },
        }
    }

    /// The adapter said no.
    fn refused(&mut self, ask: Ask, why: String) -> (c: Change)
        ensures
            (final(self)@, c) == after_refusal(old(self)@, ask@, why@),
    {
        match ask {
            Ask::Initialize | Ask::Start => {
                self.say(why.as_str());
                let ghost mid = self@;
                self.state = State::Ended(why);
                assert(self@ =~= (Sess { state: Standing::Ended(why@), ..mid }));
                self.blame();
                Change::Ended
            },
            Ask::Control { .. } => {
                if !self.state.is_over() {
                    self.say(why.as_str());
                }
                Change::Nothing
            },
            Ask::Stack | Ask::Scopes | Ask::Variables { .. } | Ask::Threads => {
                if self.state.is_stopped() {
                    self.say(why.as_str());
                }
                Change::Nothing
            },
            _ => {
                self.say(why.as_str());
                Change::Nothing
            },
        }
    }

    /// An answer to something that was asked.
    fn on_response(&mut self, id: i64, result: Result<Json, String>) -> (c: Change)
        ensures
            (final(self)@, c) == after_response(old(self)@, id, outcome(result)),
    {
        let ghost was = self@;
        match self.peer.claim(id) {
            Some(ask) => {
                assert(self@ =~= (Sess {
                    peer: claimed(was.peer, waiting_place(was.peer.waiting, id, 0)),
                    ..was
                }));
                match result {
                    Ok(value) => self.answer(ask, value),
                    Err(why) => self.refused(ask, why),
                }
            },
            None => {
                assert(self@ =~= was);
                Change::Nothing
            },
        }
    }
}

fn is_hinted(s: &Scope) -> (yes: bool)
    ensures
        yes == hinted(s@),
{
    match &s.hint {
        Some(hint) => same(hint.as_str(), "arguments") || same(hint.as_str(), "locals"),
        None => false,
    }
}

fn references_wanted(scopes: &Vec<Scope>) -> (rs: Vec<i64>)
    ensures
        rs@ == wanted(views(scopes@)),
{
    let ghost gs = views(scopes@);
    let mut rs: Vec<i64> = Vec::new();
    let mut n: usize = 0;
    while n < scopes.len()
        invariant
            n <= scopes@.len(),
            gs == views(scopes@),
            rs@ == hinted_in(gs, n as int),
        decreases scopes@.len() - n,
    {
        assert(gs[n as int] == scopes@[n as int]@);
        if is_hinted(&scopes[n]) {
            rs.push(scopes[n].reference);
        }
        n = n + 1;
    }
    if rs.len() > 0 {
        return rs;
    }
    let mut i: usize = 0;
    while i < scopes.len()
        invariant
            i <= scopes@.len(),
            gs == views(scopes@),
            rs@.len() == 0,
            wanted(gs) == first_cheap(gs, i as int),
        decreases scopes@.len() - i,
    {
        assert(gs[i as int] == scopes@[i as int]@);
        if !scopes[i].expensive {
            rs.push(scopes[i].reference);
            assert(rs@ =~= seq![gs[i as int].reference]);
            return rs;
        }
        i = i + 1;
    }
    assert(rs@ =~= Seq::<i64>::empty());
    rs
}

// ---------------------------------------------------------------------------
// Looking at a session
// ---------------------------------------------------------------------------

/// The first frame from `i` on with a number.
pub open spec fn frame_with(fs: Seq<FrameAt>, id: i64, i: int) -> Option<FrameAt>
    decreases fs.len() - i,
{
    if i < 0 || i >= fs.len() {
        None
    } else if fs[i].id == id {
        Some(fs[i])
    } else {
        frame_with(fs, id, i + 1)
    }
}

/// The frame being looked at.
pub open spec fn looked_at(s: Sess) -> Option<FrameAt> {
    match s.frame {
        Some(id) => frame_with(s.frames, id, 0),
        None => None,
    }
}

/// The last complaint of the first `n` that says something.
pub open spec fn last_word(cs: Seq<Seq<char>>, n: int) -> Option<Seq<char>>
    decreases n,
{
    if n <= 0 {
        None
    } else if trimmed(cs[n - 1]).len() > 0 {
        Some(cs[n - 1])
    } else {
        last_word(cs, n - 1)
    }
}

/// What the program printed among the first `n` lines.
pub open spec fn program_lines(out: Seq<(Seq<char>, Printer)>, n: int) -> Seq<Seq<char>>
    decreases n,
{
    if n <= 0 {
        Seq::empty()
    } else if by_program(out[n - 1].1) {
        program_lines(out, n - 1).push(out[n - 1].0)
    } else {
        program_lines(out, n - 1)
    }
}

impl Session {
    /// The frame being looked at.
    pub fn selected(&self) -> (r: Option<&Frame>)
        ensures
            match looked_at(self@) {
                Some(f) => r is Some && r->0@ == f,
                None => r is None,
            },
    {
        let wanted = match self.frame {
            Some(id) => id,
            None => {
                return None;
            },
        };
        let ghost fs = views(self.frames@);
        let mut i: usize = 0;
        while i < self.frames.len()
            invariant
                i <= self.frames@.len(),
                self.frame == Some(wanted),
                fs == views(self.frames@),
                frame_with(fs, wanted, 0) == frame_with(fs, wanted, i as int),
            decreases self.frames@.len() - i,
        {
            assert(fs[i as int] == self.frames@[i as int]@);
            if self.frames[i].id == wanted {
                return Some(&self.frames[i]);
            }
            i = i + 1;
        }
        None
    }

    /// Where the program is stopped, as a file and a line and a column
    /// counted from nought.
    pub fn here(&self) -> (r: Option<(String, usize, usize)>)
        ensures
            match looked_at(self@) {
                Some(f) => match f.path {
                    Some(path) => r is Some && (r->0).0@ == path && (r->0).1 == f.line && (r->0).2
                        == f.column,
                    None => r is None,
                },
                None => r is None,
            },
    {
        match self.selected() {
            Some(frame) => match &frame.path {
                Some(path) => Some((path.clone(), frame.line, frame.column)),
                None => None,
            },
            None => None,
        }
    }

    /// The one line worth putting in the status bar when it would not start:
    /// the last thing it said.
    pub fn why_not(&self) -> (r: Option<&str>)
        ensures
            match last_word(self@.complaints, self@.complaints.len() as int) {
                Some(s) => r is Some && r->0@ == s,
                None => r is None,
            },
    {
        let ghost cs = texts(self.complaints@);
        let mut n: usize = self.complaints.len();
        while n > 0
            invariant
                n <= self.complaints@.len(),
                cs == texts(self.complaints@),
                last_word(cs, cs.len() as int) == last_word(cs, n as int),
            decreases n,
        {
            assert(cs[n - 1] == self.complaints@[n - 1]@);
            if !is_blank(self.complaints[n - 1].as_str()) {
                return Some(self.complaints[n - 1].as_str());
            }
            n = n - 1;
        }
        None
    }

    /// Whether it ever got as far as being a debugger.
    pub fn ever_started(&self) -> (yes: bool)
        ensures
            yes == self@.answered,
    {
        self.answered
    }

    fn lines_of_program(&self) -> (ls: Vec<Vec<char>>)
        ensures
            deep(ls@) == program_lines(self@.output, self@.output.len() as int),
    {
        let ghost out = views(self.output@);
        let mut ls: Vec<Vec<char>> = Vec::new();
        let mut n: usize = 0;
        assert(deep(ls@) =~= program_lines(out, 0));
        while n < self.output.len()
            invariant
                n <= self.output@.len(),
                out == views(self.output@),
                deep(ls@) == program_lines(out, n as int),
            decreases self.output@.len() - n,
        {
            assert(out[n as int] == self.output@[n as int]@);
            if self.output[n].from.is_the_program() {
                let ghost had = ls@;
                ls.push(chars_of(self.output[n].text.as_str()));
                assert(deep(ls@) =~= deep(had).push(out[n as int].0));
            }
            n = n + 1;
        }
        ls
    }

    /// Whether the program itself has printed anything yet.
    pub fn has_printed(&self) -> (yes: bool)
        ensures
            yes == (program_lines(self@.output, self@.output.len() as int).len() > 0),
    {
        let ls = self.lines_of_program();
        assert(deep(ls@).len() == ls@.len());
        ls.len() > 0
    }

    /// Everything the program printed, in one piece.
    pub fn program_printed(&self) -> (s: String)
        ensures
            s@ == strung(program_lines(self@.output, self@.output.len() as int), "\n"@),
    {
        let ls = self.lines_of_program();
        text_of(&string_up(&ls, "\n"))
    }
}

// ---------------------------------------------------------------------------
// The debugger
// ---------------------------------------------------------------------------

/// The debugger: at most one session.
#[derive(Debug)]
pub struct Debugger {
    pub session: Option<Session>,
    /// How many sessions there have been, which is where the next one's
    /// number comes from.
    pub started: usize,
    /// Things worth telling somebody.
    pub problems: Vec<String>,
}

/// What is kept of the session there is.
pub open spec fn kept(d: Debugger) -> Option<Sess> {
    match d.session {
        Some(s) => Some(s@),
        None => None,
    }
}

/// What is said to an adapter first.
pub open spec fn hello(name: Seq<char>) -> Value {
    Value::Object(
        seq![
            ("clientID"@, Value::Text("textfold"@)),
            ("clientName"@, Value::Text("textfold"@)),
            ("adapterID"@, Value::Text(name)),
            ("locale"@, Value::Text("en"@)),
            ("linesStartAt1"@, Value::Bool(true)),
            ("columnsStartAt1"@, Value::Bool(true)),
            ("pathFormat"@, Value::Text("path"@)),
            ("supportsVariableType"@, Value::Bool(true)),
            ("supportsVariablePaging"@, Value::Bool(false)),
            ("supportsRunInTerminalRequest"@, Value::Bool(false)),
            ("supportsStartDebuggingRequest"@, Value::Bool(false)),
            ("supportsMemoryReferences"@, Value::Bool(false)),
            ("supportsProgressReporting"@, Value::Bool(false)),
        ],
    )
}

/// A session that has just been made, with nothing said.
pub open spec fn fresh(
    id: SessionId,
    config: Adapter,
    filled: Adapter,
    file: Seq<char>,
    resolved: Option<Seq<char>>,
    from: Option<Seq<char>>,
) -> Sess {
    let command = match resolved {
        Some(at) => at,
        None => filled.command@,
    };
    Sess {
        id,
        name: filled.name@,
        what: match last_name(file) {
            Some(name) => name,
            None => filled.name@,
        },
        state: Standing::Starting,
        caps: Value::Null,
        start: (request_in(config.launch@), filled.launch@),
        configured: false,
        answered: false,
        see: crate::strings::maybe_text(config.see),
        adapter: config.id@,
        ran: strung(seq![command] + texts(filled.args@), " "@),
        from,
        threads: Seq::empty(),
        thread: None,
        frames: Seq::empty(),
        frame: None,
        scopes: Seq::empty(),
        values: Map::empty(),
        open: Set::empty(),
        output: Seq::empty(),
        verified: Seq::empty(),
        complaints: Seq::empty(),
        peer: silence(),
    }
}

/// The thread everything is asked about: the one that stopped, or the first
/// there is.
pub open spec fn thread_of(s: Option<Sess>) -> i64 {
    match s {
        Some(s) => match s.thread {
            Some(id) => id,
            None => if s.threads.len() > 0 { s.threads[0].0 } else { 1 },
        },
        None => 1,
    }
}

/// A session that has been told to do something with the program.
pub open spec fn controlled(s: Option<Sess>, what: Seq<char>, thread: i64) -> Option<Sess> {
    match s {
        Some(s) => if s.state is Ended {
            Some(s)
        } else {
            Some(requested(s, what, one_number("threadId"@, thread), Asked::Control(what)))
        },
        None => None,
    }
}

/// What a message makes of a session. One of another session is not for it.
pub open spec fn after_message(
    s: Option<Sess>,
    id: SessionId,
    message: Incoming,
    bs: Seq<(Seq<char>, Seq<usize>)>,
) -> (Option<Sess>, Change) {
    match s {
        Some(s) => if s.id != id {
            (Some(s), Change::Nothing)
        } else {
            match message {
                Incoming::Notification { method, params } => {
                    let r = after_event(s, method@, params@, bs);
                    (Some(r.0), r.1)
                },
                Incoming::Response { id, result } => {
                    let r = after_response(s, id, outcome(result));
                    (Some(r.0), r.1)
                },
                Incoming::Request { id, method, .. } => (
                    Some(
                        Sess {
                            peer: spoken(
                                s.peer,
                                Sent::Refuse(id@, -32601, "textfold cannot "@ + method@),
                            ),
                            ..s
                        },
                    ),
                    Change::Nothing,
                ),
                Incoming::Exited(why) => if s.state is Ended {
                    (Some(s), Change::Nothing)
                } else if !s.answered {
                    (
                        Some(
                            forgotten(
                                blamed(
                                    Sess { state: Standing::Ended("would not start"@), ..s },
                                ),
                            ),
                        ),
                        Change::Ended,
                    )
                } else {
                    (Some(over(s, why@)), Change::Ended)
                },
            }
        },
        None => (None, Change::Nothing),
    }
}

/// Which way to step.
#[derive(Clone, Copy, PartialEq, Eq, Structural, Debug)]
pub enum Step {
    /// Over the next line, calls and all.
    Over,
    /// Into the call on it.
    Into,
    /// Out of this function, back to whoever called it.
    Out,
}

/// What a step is called.
pub open spec fn step_word(s: Step) -> Seq<char> {
    match s {
        Step::Over => "next"@,
        Step::Into => "stepIn"@,
        Step::Out => "stepOut"@,
    }
}

impl Step {
    fn command(&self) -> (s: &'static str)
        ensures
            s@ == step_word(*self),
    {
        match self {
            Step::Over => "next",
            Step::Into => "stepIn",
            Step::Out => "stepOut",
        }
    }
}

fn say_hello(name: &str) -> (j: Json)
    ensures
        j@ == hello(name@),
{
    let mut fs: Vec<(String, Json)> = Vec::new();
    add_field(&mut fs, "clientID", string("textfold"));
    add_field(&mut fs, "clientName", string("textfold"));
    add_field(&mut fs, "adapterID", string(name));
    add_field(&mut fs, "locale", string("en"));
    add_field(&mut fs, "linesStartAt1", Json::Bool(true));
    add_field(&mut fs, "columnsStartAt1", Json::Bool(true));
    add_field(&mut fs, "pathFormat", string("path"));
    add_field(&mut fs, "supportsVariableType", Json::Bool(true));
    add_field(&mut fs, "supportsVariablePaging", Json::Bool(false));
    add_field(&mut fs, "supportsRunInTerminalRequest", Json::Bool(false));
    add_field(&mut fs, "supportsStartDebuggingRequest", Json::Bool(false));
    add_field(&mut fs, "supportsMemoryReferences", Json::Bool(false));
    add_field(&mut fs, "supportsProgressReporting", Json::Bool(false));
    let j = object(fs);
    assert(j@->Object_0 =~= hello(name@)->Object_0);
    j
}

fn command_line(filled: &Adapter, resolved: &Option<String>) -> (s: String)
    ensures
        s@ == strung(
            seq![
                match *resolved {
                    Some(at) => at@,
                    None => filled.command@,
                },
            ] + texts(filled.args@),
            " "@,
        ),
{
    let mut parts: Vec<Vec<char>> = Vec::new();
    let first = match resolved {
        Some(at) => chars_of(at.as_str()),
        None => chars_of(filled.command.as_str()),
    };
    let ghost command = first@;
    parts.push(first);
    let ghost args = texts(filled.args@);
    let mut i: usize = 0;
    assert(deep(parts@) =~= seq![command] + args.take(0));
    while i < filled.args.len()
        invariant
            i <= filled.args@.len(),
            args == texts(filled.args@),
            deep(parts@) == seq![command] + args.take(i as int),
        decreases filled.args@.len() - i,
    {
        let ghost had = parts@;
        parts.push(chars_of(filled.args[i].as_str()));
        assert(deep(parts@) =~= deep(had).push(args[i as int]));
        i = i + 1;
        assert(deep(parts@) =~= seq![command] + args.take(i as int));
    }
    assert(args.take(i as int) =~= args);
    text_of(&string_up(&parts, " "))
}

fn make_session(
    id: SessionId,
    config: &Adapter,
    filled: &Adapter,
    file: &str,
    resolved: &Option<String>,
    from: Option<String>,
) -> (s: Session)
    ensures
        s@ == fresh(
            id,
            *config,
            *filled,
            file@,
            crate::strings::maybe_text(*resolved),
            crate::strings::maybe_text(from),
        ),
{
    broadcast use vstd::std_specs::hash::group_hash_axioms;

    let what = match file_name(file) {
        Some(name) => text_of(&name),
        None => filled.name.clone(),
    };
    let ghost whence = crate::strings::maybe_text(from);
    let s = Session {
        id,
        name: filled.name.clone(),
        what,
        state: State::Starting,
        caps: Json::Null,
        start: (config.request(), filled.launch.clone()),
        configured: false,
        answered: false,
        see: copy_maybe(&config.see),
        adapter: config.id.clone(),
        ran: command_line(filled, resolved),
        from,
        threads: Vec::new(),
        thread: None,
        frames: Vec::new(),
        frame: None,
        scopes: Vec::new(),
        values: BTreeMap::new(),
        open: HashSet::new(),
        output: Vec::new(),
        verified: Vec::new(),
        complaints: Vec::new(),
        peer: Peer::new(),
    };
    proof {
        let f = fresh(
            id,
            *config,
            *filled,
            file@,
            crate::strings::maybe_text(*resolved),
            whence,
        );
        assert(s@.threads =~= f.threads);
        assert(s@.frames =~= f.frames);
        assert(s@.scopes =~= f.scopes);
        assert(s@.values =~= f.values);
        assert(s@.open =~= f.open);
        assert(s@.output =~= f.output);
        assert(s@.verified =~= f.verified);
        assert(s@.complaints =~= f.complaints);
        assert(s@ =~= f);
    }
    s
}

impl Session {
    fn refuse(&mut self, id: Json, method: &str)
        ensures
            final(self)@ == (Sess {
                peer: spoken(
                    old(self)@.peer,
                    Sent::Refuse(id@, -32601, "textfold cannot "@ + method@),
                ),
                ..old(self)@
            }),
    {
        let ghost was = self@;
        let message = and("textfold cannot ", method);
        self.peer.refuse(id, -32601, message.as_str());
        assert(self@ =~= (Sess {
            peer: spoken(was.peer, Sent::Refuse(id@, -32601, message@)),
            ..was
        }));
    }

    fn gone_away(&mut self, why: String) -> (c: Change)
        ensures
            ({
                let s = old(self)@;
                (final(self)@, c) == if s.state is Ended {
                    (s, Change::Nothing)
                } else if !s.answered {
                    (
                        forgotten(
                            blamed((Sess { state: Standing::Ended("would not start"@), ..s })),
                        ),
                        Change::Ended,
                    )
                } else {
                    (over(s, why@), Change::Ended)
                }
            }),
    {
        if self.state.is_over() {
            return Change::Nothing;
        }
        if !self.answered {
            let ghost was = self@;
            self.state = State::Ended("would not start".to_owned());
            assert(self@ =~= (Sess { state: Standing::Ended("would not start"@), ..was }));
            self.blame();
            self.forget_values();
        } else {
            self.end(why);
        }
        Change::Ended
    }

    /// Everything an adapter says.
    fn hear(&mut self, message: Incoming, bs: &Vec<(String, Vec<usize>)>) -> (c: Change)
        requires
            sayable(lines_by_file(bs@)),
        ensures
            (Some(final(self)@), c) == after_message(
                Some(old(self)@),
                old(self)@.id,
                message,
                lines_by_file(bs@),
            ),
    {
        match message {
            Incoming::Notification { method, params } => self.on_event(
                method.as_str(),
                &params,
                bs,
            ),
            Incoming::Response { id, result } => self.on_response(id, result),
            Incoming::Request { id, method, .. } => {
                self.refuse(id, method.as_str());
                Change::Nothing
            },
            Incoming::Exited(why) => self.gone_away(why),
        }
    }
}

impl Debugger {
    /// No session yet.
    pub fn new() -> (d: Debugger)
        ensures
            kept(d) is None,
            d.started == 0,
            d.problems@.len() == 0,
    {
        Debugger { session: None, started: 0, problems: Vec::new() }
    }

    /// The session there is.
    pub fn session(&self) -> (r: Option<&Session>)
        ensures
            match self.session {
                Some(s) => r is Some && *r->0 == s,
                None => r is None,
            },
    {
        self.session.as_ref()
    }

    /// Whether there is a session that has not finished.
    pub fn is_running(&self) -> (yes: bool)
        ensures
            yes == (kept(*self) is Some && !(kept(*self)->0.state is Ended)),
    {
        match &self.session {
            Some(s) => !s.state.is_over(),
            None => false,
        }
    }

    /// Whether the adapter managed to put a breakpoint on a line. None where
    /// nobody has been asked yet.
    pub fn is_verified(&self, path: &str, line: usize) -> (r: Option<bool>)
        ensures
            r == match kept(*self) {
                Some(s) => if s.state is Ended {
                    None
                } else {
                    match lines_at(s.verified, path@) {
                        Some(lines) => Some(lines.contains(line)),
                        None => None,
                    }
                },
                None => None,
            },
    {
        match &self.session {
            Some(s) => {
                if s.state.is_over() {
                    return None;
                }
                let at = find_file(&s.verified, path);
                assert(lines_by_file(s.verified@).len() == s.verified@.len());
                if at >= s.verified.len() {
                    return None;
                }
                assert(lines_by_file(s.verified@)[at as int].1 == s.verified@[at as int].1@);
                Some(has_line(&s.verified[at].1, line))
            },
            None => None,
        }
    }

    /// End it, and take the program with it where it was started here.
    /// Whoever holds the connection sends what the session that is handed
    /// back has left to say.
    pub fn stop(&mut self) -> (r: Option<Session>)
        ensures
            kept(*final(self)) is None,
            final(self).started == old(self).started,
            final(self).problems == old(self).problems,
            match kept(*old(self)) {
                Some(s) => r is Some && r->0@ == (Sess {
                    peer: spoken(s.peer, Sent::Disconnect(s.start.0 == "launch"@)),
                    ..s
                }),
                None => r is None,
            },
    {
        match self.session.take() {
            Some(session) => {
                let mut session = session;
                let ghost was = session@;
                let ours = same(session.start.0, "launch");
                session.peer.send(Sending::Disconnect { ours });
                assert(session@ =~= (Sess {
                    peer: spoken(was.peer, Sent::Disconnect(ours)),
                    ..was
                }));
                Some(session)
            },
            None => None,
        }
    }

    /// Make room for a session: the one there is is stopped, and the next one
    /// gets a number of its own.
    pub fn start(&mut self) -> (r: (SessionId, Option<Session>))
        requires
            old(self).started < usize::MAX,
        ensures
            kept(*final(self)) is None,
            final(self).started == old(self).started + 1,
            final(self).problems == old(self).problems,
            r.0 == SessionId(final(self).started),
            match kept(*old(self)) {
                Some(s) => r.1 is Some && (r.1->0)@ == (Sess {
                    peer: spoken(s.peer, Sent::Disconnect(s.start.0 == "launch"@)),
                    ..s
                }),
                None => r.1 is None,
            },
    {
        let past = self.stop();
        self.started = self.started + 1;
        (SessionId(self.started), past)
    }

    /// Make the session and say hello. `resolved` is the file that a shell
    /// would have found for the command.
    pub fn begin(
        &mut self,
        id: SessionId,
        config: &Adapter,
        filled: &Adapter,
        file: &str,
        resolved: &Option<String>,
        from: Option<String>,
    )
        ensures
            kept(*final(self)) == Some(
                requested(
                    fresh(
                        id,
                        *config,
                        *filled,
                        file@,
                        crate::strings::maybe_text(*resolved),
                        crate::strings::maybe_text(from),
                    ),
                    "initialize"@,
                    hello(filled.name@),
                    Asked::Initialize,
                ),
            ),
            final(self).started == old(self).started,
            final(self).problems == old(self).problems,
    {
        let mut session = make_session(id, config, filled, file, resolved, from);
        session.request("initialize", say_hello(filled.name.as_str()), Ask::Initialize);
        self.session = Some(session);
    }

    /// Everything an adapter says. `bs` is where the breakpoints are now.
    pub fn on(&mut self, id: SessionId, message: Incoming, bs: &Vec<(String, Vec<usize>)>) -> (c:
        Change)
        requires
            sayable(lines_by_file(bs@)),
        ensures
            (kept(*final(self)), c) == after_message(
                kept(*old(self)),
                id,
                message,
                lines_by_file(bs@),
            ),
            final(self).started == old(self).started,
            final(self).problems == old(self).problems,
    {
        match &mut self.session {
            Some(session) => {
                if session.id != id {
                    return Change::Nothing;
                }
                session.hear(message, bs)
            },
            None => Change::Nothing,
        }
    }

    /// Tell the adapter where the breakpoints are: all of those of each file,
    /// and that there are none in a file that had some.
    pub fn send_breakpoints(&mut self, bs: &Vec<(String, Vec<usize>)>)
        requires
            sayable(lines_by_file(bs@)),
        ensures
            kept(*final(self)) == (match kept(*old(self)) {
                Some(s) => Some(with_breakpoints(s, lines_by_file(bs@))),
                None => None,
            }),
            final(self).started == old(self).started,
            final(self).problems == old(self).problems,
    {
        if let Some(session) = &mut self.session {
            session.send_breakpoints(bs);
        }
    }

    /// Say the configuration is finished, where the adapter wants to hear it.
    pub fn configuration_done(&mut self)
        ensures
            kept(*final(self)) == (match kept(*old(self)) {
                Some(s) => Some(configured(s)),
                None => None,
            }),
            final(self).started == old(self).started,
            final(self).problems == old(self).problems,
    {
        if let Some(session) = &mut self.session {
            session.configuration_done();
        }
    }

    fn thread(&self) -> (id: i64)
        ensures
            id == thread_of(kept(*self)),
    {
        match &self.session {
            Some(s) => match s.thread {
                Some(id) => id,
                None => if s.threads.len() > 0 {
                    assert(views(s.threads@)[0] == s.threads@[0]@);
                    s.threads[0].id
                } else {
                    1
                },
            },
            None => 1,
        }
    }

    fn control(&mut self, what: &'static str)
        ensures
            kept(*final(self)) == controlled(
                kept(*old(self)),
                what@,
                thread_of(kept(*old(self))),
            ),
            final(self).started == old(self).started,
            final(self).problems == old(self).problems,
    {
        let thread = self.thread();
        if let Some(session) = &mut self.session {
            if !session.state.is_over() {
                session.request(what, with_number("threadId", thread), Ask::Control { what });
            }
        }
    }

    /// Let it go again.
    pub fn resume(&mut self)
        ensures
            kept(*final(self)) == controlled(
                kept(*old(self)),
                "continue"@,
                thread_of(kept(*old(self))),
            ),
            final(self).started == old(self).started,
            final(self).problems == old(self).problems,
    {
        self.control("continue");
    }

    /// Over the next line, into the call on it, or out of the function.
    pub fn step(&mut self, what: Step)
        ensures
            kept(*final(self)) == controlled(
                kept(*old(self)),
                step_word(what),
                thread_of(kept(*old(self))),
            ),
            final(self).started == old(self).started,
            final(self).problems == old(self).problems,
    {
        self.control(what.command());
    }

    /// Stop the program where it is.
    pub fn pause(&mut self)
        ensures
            kept(*final(self)) == controlled(
                kept(*old(self)),
                "pause"@,
                thread_of(kept(*old(self))),
            ),
            final(self).started == old(self).started,
            final(self).problems == old(self).problems,
    {
        self.control("pause");
    }

    /// Ask what an expression comes to, at the frame being looked at.
    pub fn evaluate(&mut self, what: &str)
        ensures
            kept(*final(self)) == (match kept(*old(self)) {
                Some(s) => Some(
                    requested(s, "evaluate"@, question(what@, s.frame), Asked::Evaluate(what@)),
                ),
                None => None,
            }),
            final(self).started == old(self).started,
            final(self).problems == old(self).problems,
    {
        if let Some(session) = &mut self.session {
            let mut fs: Vec<(String, Json)> = Vec::new();
            add_field(&mut fs, "expression", string(what));
            let frame = match session.frame {
                Some(id) => number(id),
                None => Json::Null,
            };
            add_field(&mut fs, "frameId", frame);
            add_field(&mut fs, "context", string("repl"));
            let arguments = object(fs);
            assert(arguments@->Object_0 =~= question(what@, session.frame)->Object_0);
            session.request("evaluate", arguments, Ask::Evaluate { what: what.to_owned() });
        }
    }

    /// Look at a different frame: its variables become the ones shown.
    pub fn select_frame(&mut self, id: i64)
        ensures
            kept(*final(self)) == (match kept(*old(self)) {
                Some(s) => Some(
                    if s.frame == Some(id) || frame_with(s.frames, id, 0) is None {
                        s
                    } else {
                        requested(
                            Sess {
                                frame: Some(id),
                                scopes: Seq::empty(),
                                values: Map::empty(),
                                ..s
                            },
                            "scopes"@,
                            one_number("frameId"@, id),
                            Asked::Scopes,
                        )
                    },
                ),
                None => None,
            }),
            final(self).started == old(self).started,
            final(self).problems == old(self).problems,
    {
        if let Some(session) = &mut self.session {
            session.look_at(id);
        }
    }

    /// Open a structured value up, or close it again.
    pub fn toggle_value(&mut self, reference: i64)
        ensures
            kept(*final(self)) == (match kept(*old(self)) {
                Some(s) => Some(toggled(s, reference)),
                None => None,
            }),
            final(self).started == old(self).started,
            final(self).problems == old(self).problems,
    {
        if let Some(session) = &mut self.session {
            session.toggle(reference);
        }
    }
}

/// What is asked about an expression.
pub open spec fn question(what: Seq<char>, frame: Option<i64>) -> Value {
    Value::Object(
        seq![
            ("expression"@, Value::Text(what)),
            (
                "frameId"@,
                match frame {
                    Some(id) => int_value(id),
                    None => Value::Null,
                },
            ),
            ("context"@, Value::Text("repl"@)),
        ],
    )
}

/// A session in which a value was opened up, or closed again. What is in it
/// is asked for the first time it is opened.
pub open spec fn toggled(s: Sess, reference: i64) -> Sess {
    if reference == 0 {
        s
    } else if s.open.contains(reference) {
        Sess { open: s.open.remove(reference), ..s }
    } else {
        let opened = Sess { open: s.open.insert(reference), ..s };
        if s.values.contains_key(reference) {
            opened
        } else {
            requested(
                opened,
                "variables"@,
                one_number("variablesReference"@, reference),
                Asked::Variables(reference),
            )
        }
    }
}

impl Session {
    fn look_at(&mut self, id: i64)
        ensures
            final(self)@ == (if old(self)@.frame == Some(id) || frame_with(
                old(self)@.frames,
                id,
                0,
            ) is None {
                old(self)@
            } else {
                requested(
                    (Sess {
                        frame: Some(id),
                        scopes: Seq::empty(),
                        values: Map::empty(),
                        ..old(self)@
                    }),
                    "scopes"@,
                    one_number("frameId"@, id),
                    Asked::Scopes,
                )
            }),
    {
        broadcast use vstd::std_specs::hash::group_hash_axioms;

        let ghost was = self@;
        if let Some(had) = self.frame {
            if had == id {
                return;
            }
        }
        let ghost fs = views(self.frames@);
        let mut i: usize = 0;
        while i < self.frames.len() && self.frames[i].id != id
            invariant
                i <= self.frames@.len(),
                self@ == was,
                fs == views(self.frames@),
                frame_with(fs, id, 0) == frame_with(fs, id, i as int),
            decreases self.frames@.len() - i,
        {
            assert(fs[i as int] == self.frames@[i as int]@);
            i = i + 1;
        }
        if i >= self.frames.len() {
            return;
        }
        assert(fs[i as int] == self.frames@[i as int]@);
        self.frame = Some(id);
        self.scopes.clear();
        self.values.clear();
        assert(views(self.scopes@) =~= Seq::<Group>::empty());
        assert(insides(self.values@) =~= Map::<i64, Seq<Named>>::empty());
        assert(self@ =~= (Sess {
            frame: Some(id),
            scopes: Seq::empty(),
            values: Map::empty(),
            ..was
        }));
        self.request("scopes", with_number("frameId", id), Ask::Scopes);
    }

    fn toggle(&mut self, reference: i64)
        ensures
            final(self)@ == toggled(old(self)@, reference),
    {
        broadcast use vstd::std_specs::hash::group_hash_axioms;

        let ghost was = self@;
        if reference == 0 {
            return;
        }
        if self.open.contains(&reference) {
            self.open.remove(&reference);
            assert(self@ =~= (Sess { open: was.open.remove(reference), ..was }));
            return;
        }
        assert(was.values.contains_key(reference) == self.values@.contains_key(reference));
        if self.values.contains_key(&reference) {
            self.open.insert(reference);
            assert(self@ =~= (Sess { open: was.open.insert(reference), ..was }));
        } else {
            self.open_reference(reference);
        }
    }
}

/// What is said where an adapter is not installed.
pub fn not_installed(command: &str) -> (s: String)
    ensures
        s@ == command@ + " is not installed, so there is nothing here that can debug this"@,
{
    and(command, " is not installed, so there is nothing here that can debug this")
}

/// What is said where nothing is listening.
pub fn not_listening(port: u16) -> (s: String)
    ensures
        s@ == "nothing is listening on port "@ + decimal(port as nat),
{
    let mut s: String = "nothing is listening on port ".to_owned();
    write_number(&mut s, port as u64);
    s
}

// ---------------------------------------------------------------------------
// Laws
// ---------------------------------------------------------------------------

/// A message of another session changes nothing: the session before this one
/// cannot end it.
pub proof fn law_another_session_is_not_heard(
    s: Sess,
    id: SessionId,
    message: Incoming,
    bs: Seq<(Seq<char>, Seq<usize>)>,
)
    requires
        id != s.id,
    ensures
        after_message(Some(s), id, message, bs) == (Some(s), Change::Nothing),
{
}

/// A session that is over keeps the reason it ended for, whatever it is told
/// about ending.
pub proof fn law_the_first_reason_stays(
    s: Sess,
    event: Seq<char>,
    body: Value,
    bs: Seq<(Seq<char>, Seq<usize>)>,
    why: String,
)
    requires
        s.state is Ended,
        event == "terminated"@ || event == "exited"@,
    ensures
        after_event(s, event, body, bs) == (s, Change::Nothing),
        after_message(Some(s), s.id, Incoming::Exited(why), bs) == (Some(s), Change::Nothing),
{
    reveal_strlit("initialized");
    reveal_strlit("stopped");
    reveal_strlit("continued");
    reveal_strlit("output");
    reveal_strlit("terminated");
    reveal_strlit("exited");
    assert("initialized"@.len() == 11 && "stopped"@.len() == 7 && "continued"@.len() == 9);
    assert("terminated"@.len() == 10 && "exited"@.len() == 6 && "output"@.len() == 6);
    assert("output"@[0] == 'o' && "exited"@[0] == 'e');
}

/// Nothing that was learned of where the program was standing is kept once it
/// has moved on.
pub proof fn law_values_go_when_the_program_moves(
    s: Sess,
    body: Value,
    bs: Seq<(Seq<char>, Seq<usize>)>,
)
    ensures
        ({
            let r = after_event(s, "continued"@, body, bs).0;
            &&& r.frames.len() == 0
            &&& r.scopes.len() == 0
            &&& r.values == Map::<i64, Seq<Named>>::empty()
            &&& r.open == s.open
        }),
{
    reveal_strlit("initialized");
    reveal_strlit("stopped");
    reveal_strlit("continued");
    assert("initialized"@.len() == 11 && "stopped"@.len() == 7 && "continued"@.len() == 9);
}
proof fn lemma_lines_keep(s: Sess, ls: Seq<Seq<char>>, from: Printer, n: int)
    ensures
        with_lines(s, ls, from, n).configured == s.configured,
        s.output.len() <= OUTPUT_KEPT ==> with_lines(s, ls, from, n).output.len() <= OUTPUT_KEPT,
    decreases n,
{
    if n > 0 {
        lemma_lines_keep(s, ls, from, n - 1);
    }
}

proof fn lemma_opened_keeps(s: Sess, rs: Seq<i64>, n: int)
    ensures
        opened(s, rs, n).configured == s.configured,
        opened(s, rs, n).output == s.output,
    decreases n,
{
    if n > 0 {
        lemma_opened_keeps(s, rs, n - 1);
    }
}

proof fn lemma_placed_keeps(s: Sess, bs: Seq<(Seq<char>, Seq<usize>)>, n: int)
    ensures
        placed(s, bs, n).output == s.output,
    decreases n,
{
    if n > 0 {
        lemma_placed_keeps(s, bs, n - 1);
    }
}

proof fn lemma_blamed_keeps(s: Sess)
    ensures
        blamed(s).configured == s.configured,
        s.output.len() <= OUTPUT_KEPT ==> blamed(s).output.len() <= OUTPUT_KEPT,
{
    lemma_lines_keep(s, s.complaints, Printer::Note, s.complaints.len() as int);
}

proof fn lemma_event_keeps(
    s: Sess,
    event: Seq<char>,
    body: Value,
    bs: Seq<(Seq<char>, Seq<usize>)>,
)
    ensures
        event != "initialized"@ ==> after_event(s, event, body, bs).0.configured == s.configured,
        s.output.len() <= OUTPUT_KEPT ==> after_event(s, event, body, bs).0.output.len()
            <= OUTPUT_KEPT,
{
    match text_in(field(body, "output"@)) {
        Some(text) => {
            let ls = cut(unended(text), '\n');
            lemma_lines_keep(s, ls, Printer::Stderr, ls.len() as int);
            lemma_lines_keep(s, ls, Printer::Out, ls.len() as int);
        },
        None => {},
    }
    let ready = Sess { configured: true, ..s };
    let all = bs + gone(s.verified, bs, s.verified.len() as int);
    lemma_placed_keeps(ready, all, all.len() as int);
}

proof fn lemma_response_keeps(s: Sess, id: i64, result: Result<Value, Seq<char>>)
    ensures
        after_response(s, id, result).0.configured == s.configured,
        s.output.len() <= OUTPUT_KEPT ==> after_response(s, id, result).0.output.len()
            <= OUTPUT_KEPT,
{
    let at = waiting_place(s.peer.waiting, id, 0);
    let taken = Sess { peer: claimed(s.peer, at), ..s };
    match result {
        Ok(value) => {
            let gs = scopes_in(value);
            let rs = wanted(gs);
            lemma_opened_keeps(Sess { scopes: gs, ..taken }, rs, rs.len() as int);
        },
        Err(why) => {
            lemma_blamed_keeps(Sess { state: Standing::Ended(why), ..noted(taken, why) });
        },
    }
}

/// Breakpoints wait for the adapter: none is told to one that has not said it
/// is ready, and nothing but its own word for it makes it so.
pub proof fn law_breakpoints_wait_for_the_adapter(
    s: Sess,
    id: SessionId,
    message: Incoming,
    bs: Seq<(Seq<char>, Seq<usize>)>,
)
    requires
        !s.configured,
        message matches Incoming::Notification { method, .. } ==> method@ != "initialized"@,
    ensures
        with_breakpoints(s, bs) == s,
        !(after_message(Some(s), id, message, bs).0->0).configured,
{
    match message {
        Incoming::Notification { method, params } => {
            lemma_event_keeps(s, method@, params@, bs);
        },
        Incoming::Response { id, result } => {
            lemma_response_keeps(s, id, outcome(result));
        },
        Incoming::Request { .. } => {},
        Incoming::Exited(_) => {
            lemma_blamed_keeps(Sess { state: Standing::Ended("would not start"@), ..s });
        },
    }
}

/// No more of what was printed is kept than somebody reads, whatever the
/// adapter says.
pub proof fn law_output_is_bounded(
    s: Sess,
    id: SessionId,
    message: Incoming,
    bs: Seq<(Seq<char>, Seq<usize>)>,
)
    requires
        s.output.len() <= OUTPUT_KEPT,
    ensures
        (after_message(Some(s), id, message, bs).0->0).output.len() <= OUTPUT_KEPT,
{
    match message {
        Incoming::Notification { method, params } => {
            lemma_event_keeps(s, method@, params@, bs);
        },
        Incoming::Response { id, result } => {
            lemma_response_keeps(s, id, outcome(result));
        },
        Incoming::Request { .. } => {},
        Incoming::Exited(_) => {
            lemma_blamed_keeps(Sess { state: Standing::Ended("would not start"@), ..s });
        },
    }
}

} // verus!
