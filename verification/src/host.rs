//! Plugins that are programs: when each is started and when it is left alone,
//! and what it is told.
use vstd::prelude::*;

use crate::chars::{lowercase, lowercased, same};
use crate::client::{only, say_only};
use crate::doc::{AppliedEdit, Document};
use crate::json::{add_field, add_item, each, int_value, list, number, object, string, Json, Value};
use crate::lsp::{maybe_json, take_out, without};
use crate::path::{among, is_among, is_same, same_path};
use crate::rpc::{asked, claimed, silence, spoken, views, waiting_place, Peer, Sending, Sent, Talk};
use crate::servers::put_path;
use crate::strings::texts;

verus! {

// ---------------------------------------------------------------------------
// One host
// ---------------------------------------------------------------------------

/// Which host, as everything outside holds onto one.
#[derive(Clone, Copy, PartialEq, Eq, Structural, Hash, Debug, PartialOrd, Ord)]
pub struct HostId(pub usize);

/// What was asked for, so that the answer knows what it is an answer to.
#[derive(Debug)]
pub enum Ask {
    Initialize,
    /// A command that it was told to run, named so that a refusal can say
    /// which.
    Command(String),
}

/// What was asked for.
pub ghost enum Asked {
    Initialize,
    Command(Seq<char>),
}

impl View for Ask {
    type V = Asked;

    open spec fn view(&self) -> Asked {
        match self {
            Ask::Initialize => Asked::Initialize,
            Ask::Command(name) => Asked::Command(name@),
        }
    }
}

/// How far along a host is.
#[derive(PartialEq, Eq, Debug)]
pub enum State {
    /// Asked to initialize, waiting for the answer.
    Starting,
    Ready,
    /// It died, or would not start. The words say which.
    Dead(String),
}

/// How far along a host is.
pub ghost enum Standing {
    Starting,
    Ready,
    Dead(Seq<char>),
}

impl View for State {
    type V = Standing;

    open spec fn view(&self) -> Standing {
        match self {
            State::Starting => Standing::Starting,
            State::Ready => Standing::Ready,
            State::Dead(why) => Standing::Dead(why@),
        }
    }
}

/// Something to be said to a host once it is ready.
#[derive(Debug)]
pub struct Queued {
    pub method: String,
    pub params: Json,
    /// What its answer will mean, where one is wanted.
    pub ask: Option<Ask>,
}

/// Something to be said to a host once it is ready.
pub ghost struct Held {
    pub method: Seq<char>,
    pub params: Value,
    pub ask: Option<Asked>,
}

/// What was asked for, where something was.
pub open spec fn maybe_asked(ask: Option<Ask>) -> Option<Asked> {
    match ask {
        Some(ask) => Some(ask@),
        None => None,
    }
}

impl View for Queued {
    type V = Held;

    open spec fn view(&self) -> Held {
        Held { method: self.method@, params: self.params@, ask: maybe_asked(self.ask) }
    }
}

/// How many times a host may fall over before it is left alone.
pub const GIVE_UP_AFTER: u32 = 3;

/// The nanoseconds in which that has to happen.
pub const CRASH_WINDOW: u64 = 60_000_000_000;

/// One running plugin.
#[derive(Debug)]
pub struct Host {
    /// Which plugin it is running for.
    pub plugin: String,
    pub root: String,
    pub state: State,
    /// The languages whose text it asked to be told.
    pub wants: Vec<String>,
    /// Files it has been told about, each once.
    pub open: Vec<String>,
    pub peer: Peer<Ask>,
    /// What was asked for before it was ready.
    pub queued: Vec<Queued>,
}

/// One running plugin.
#[verifier::ext_equal]
pub ghost struct Hosting {
    pub plugin: Seq<char>,
    pub root: Seq<char>,
    pub state: Standing,
    pub wants: Seq<Seq<char>>,
    pub open: Seq<Seq<char>>,
    pub peer: Talk<Asked>,
    pub queued: Seq<Held>,
}

impl View for Host {
    type V = Hosting;

    open spec fn view(&self) -> Hosting {
        Hosting {
            plugin: self.plugin@,
            root: self.root@,
            state: self.state@,
            wants: texts(self.wants@),
            open: texts(self.open@),
            peer: self.peer@,
            queued: views(self.queued@),
        }
    }
}

/// A host that has been told something.
pub open spec fn told(h: Hosting, method: Seq<char>, params: Value) -> Hosting {
    Hosting { peer: spoken(h.peer, Sent::Notify(method, params)), ..h }
}

/// A host that has been asked or told something.
pub open spec fn addressed(
    h: Hosting,
    method: Seq<char>,
    params: Value,
    ask: Option<Asked>,
) -> Hosting {
    match ask {
        Some(ask) => Hosting { peer: asked(h.peer, method, params, ask), ..h },
        None => told(h, method, params),
    }
}

/// Whether a host asked for the text of files in a language.
pub open spec fn is_wanted(h: Hosting, language: Seq<char>) -> bool {
    h.wants.contains(lowercased(language))
}

/// The number by which a refusal says that there is no such method.
pub const NO_SUCH_METHOD: i64 = -32601;

impl Host {
    /// Whether it is ready.
    pub fn is_ready(&self) -> (yes: bool)
        ensures
            yes == self@.state is Ready,
    {
        matches!(self.state, State::Ready)
    }

    fn is_dead(&self) -> (yes: bool)
        ensures
            yes == self@.state is Dead,
    {
        matches!(self.state, State::Dead(_))
    }

    /// Take note that what was sent could not be.
    pub fn note_failure(&mut self, why: String)
        ensures
            final(self)@ == (Hosting { state: Standing::Dead(why@), ..old(self)@ }),
    {
        let ghost was = self@;
        self.state = State::Dead(why);
        assert(self@ =~= (Hosting { state: Standing::Dead(why@), ..was }));
    }

    /// Tell it something, expecting no answer.
    pub fn notify_out(&mut self, method: &str, params: Json)
        ensures
            final(self)@ == told(old(self)@, method@, params@),
    {
        let ghost was = self@;
        self.peer.notify(method, params);
        assert(self@ =~= told(was, method@, params@));
    }

    fn address(&mut self, method: &str, params: Json, ask: Option<Ask>)
        ensures
            final(self)@ == addressed(old(self)@, method@, params@, maybe_asked(ask)),
    {
        let ghost was = self@;
        match ask {
            Some(ask) => {
                self.peer.request(method, params, ask);
            },
            None => {
                self.peer.notify(method, params);
            },
        }
        assert(self@ =~= addressed(was, method@, params@, maybe_asked(ask)));
    }

    /// Answer it.
    pub fn answer(&mut self, id: Json, result: Json)
        ensures
            final(self)@ == (Hosting {
                peer: spoken(old(self)@.peer, Sent::Answer(id@, result@)),
                ..old(self)@
            }),
    {
        let ghost was = self@;
        self.peer.answer(id, result);
        assert(self@ =~= (Hosting {
            peer: spoken(was.peer, Sent::Answer(id@, result@)),
            ..was
        }));
    }

    /// Refuse something that it asked for, which is an answer too.
    pub fn refuse(&mut self, id: Json, message: &str)
        ensures
            final(self)@ == (Hosting {
                peer: spoken(
                    old(self)@.peer,
                    Sent::Refuse(id@, NO_SUCH_METHOD as int, message@),
                ),
                ..old(self)@
            }),
    {
        let ghost was = self@;
        self.peer.refuse(id, NO_SUCH_METHOD, message);
        assert(self@ =~= (Hosting {
            peer: spoken(was.peer, Sent::Refuse(id@, NO_SUCH_METHOD as int, message@)),
            ..was
        }));
    }

    /// Take back what an answer was for. Each is handed out once.
    pub fn claim(&mut self, id: i64) -> (r: Option<Ask>)
        ensures
            ({
                let h = old(self)@;
                let at = waiting_place(h.peer.waiting, id, 0);
                match r {
                    Some(ask) => at < h.peer.waiting.len() && ask@ == h.peer.waiting[at].1
                        && final(self)@ == (Hosting { peer: claimed(h.peer, at), ..h }),
                    None => at >= h.peer.waiting.len() && final(self)@ == h,
                }
            }),
    {
        let ghost was = self@;
        let r = self.peer.claim(id);
        assert(self@ =~= (Hosting { peer: self.peer@, ..was }));
        r
    }

    /// Whether it asked to be told the text of files in a language. One that
    /// named no languages hears of no file.
    pub fn wants(&self, language: &str) -> (yes: bool)
        ensures
            yes == is_wanted(self@, language@),
    {
        if self.wants.len() == 0 {
            return false;
        }
        let name = lowercase(language);
        let ghost ws = texts(self.wants@);
        let mut i: usize = 0;
        while i < self.wants.len()
            invariant
                i <= self.wants@.len(),
                ws == texts(self.wants@),
                name@ == lowercased(language@),
                forall|k: int| 0 <= k < i ==> #[trigger] ws[k] != name@,
            decreases self.wants@.len() - i,
        {
            assert(ws[i as int] == self.wants@[i as int]@);
            if same(self.wants[i].as_str(), name.as_str()) {
                assert(ws[i as int] == name@);
                return true;
            }
            i = i + 1;
        }
        false
    }
}

// ---------------------------------------------------------------------------
// Every host
// ---------------------------------------------------------------------------

/// How often a plugin has fallen over in a project, and when it last did, in
/// nanoseconds on a clock that does not go back.
#[derive(Debug)]
pub struct Crash {
    pub plugin: String,
    pub root: String,
    pub count: u32,
    pub at: u64,
}

/// How often a plugin has fallen over in a project, and when it last did.
pub ghost struct Fall {
    pub plugin: Seq<char>,
    pub root: Seq<char>,
    pub count: u32,
    pub at: u64,
}

impl View for Crash {
    type V = Fall;

    open spec fn view(&self) -> Fall {
        Fall { plugin: self.plugin@, root: self.root@, count: self.count, at: self.at }
    }
}

/// Every host there is.
#[derive(Debug)]
pub struct Hosts {
    pub hosts: Vec<Host>,
    pub crashes: Vec<Crash>,
    /// Things worth telling somebody.
    pub problems: Vec<String>,
}

/// What is kept of the hosts.
pub open spec fn running(h: Hosts) -> Seq<Hosting> {
    views(h.hosts@)
}

/// What is kept of how they fell over.
pub open spec fn falls(h: Hosts) -> Seq<Fall> {
    views(h.crashes@)
}

/// Whether only the hosts themselves differ.
pub open spec fn rest_kept(a: Hosts, b: Hosts) -> bool {
    a.crashes == b.crashes && a.problems == b.problems
}

/// How long ago something was: not at all, where it is still to come.
pub open spec fn since(now: u64, at: u64) -> int {
    if now >= at { now - at } else { 0 }
}

fn elapsed(now: u64, at: u64) -> (n: u64)
    ensures
        n == since(now, at),
{
    if now >= at {
        now - at
    } else {
        0
    }
}

/// Whether a plugin fell over often enough, and not too long ago, to be left
/// alone.
pub open spec fn hopeless(f: Fall, now: u64) -> bool {
    f.count >= GIVE_UP_AFTER && since(now, f.at) < CRASH_WINDOW
}

/// The place of the falls of a plugin in a project, or the end.
pub open spec fn fall_place(fs: Seq<Fall>, plugin: Seq<char>, root: Seq<char>, i: int) -> int
    decreases fs.len() - i,
{
    if 0 <= i < fs.len() && !(fs[i].plugin == plugin && same_path(fs[i].root, root)) {
        fall_place(fs, plugin, root, i + 1)
    } else {
        i
    }
}

/// How often a plugin has fallen over in a project.
pub open spec fn fall_count(fs: Seq<Fall>, plugin: Seq<char>, root: Seq<char>) -> int {
    let at = fall_place(fs, plugin, root, 0);
    if at < fs.len() { fs[at].count as int } else { 0 }
}

/// A fall counted. One that comes long after the last one is the first again.
pub open spec fn fallen(f: Fall, now: u64) -> Fall {
    let count = if since(now, f.at) > CRASH_WINDOW { 0 } else { f.count as int };
    Fall { count: (count + 1) as u32, at: now, ..f }
}

/// Falls with one more.
pub open spec fn with_fall(
    fs: Seq<Fall>,
    plugin: Seq<char>,
    root: Seq<char>,
    now: u64,
) -> Seq<Fall> {
    let at = fall_place(fs, plugin, root, 0);
    if at < fs.len() {
        fs.update(at, fallen(fs[at], now))
    } else {
        fs.push(Fall { plugin, root, count: 1, at: now })
    }
}

/// Whether a plugin has been given up on, in any project.
pub open spec fn given_up(fs: Seq<Fall>, plugin: Seq<char>, now: u64) -> bool {
    exists|i: int| 0 <= i < fs.len() && (#[trigger] fs[i]).plugin == plugin && hopeless(fs[i], now)
}

/// Whether a plugin has been given up on in a project.
pub open spec fn left_alone(
    fs: Seq<Fall>,
    plugin: Seq<char>,
    root: Seq<char>,
    now: u64,
) -> bool {
    let at = fall_place(fs, plugin, root, 0);
    at < fs.len() && hopeless(fs[at], now)
}

/// The place of the live host of a plugin for a project, or the end.
pub open spec fn host_place(hs: Seq<Hosting>, plugin: Seq<char>, root: Seq<char>, i: int) -> int
    decreases hs.len() - i,
{
    if 0 <= i < hs.len() && !(hs[i].plugin == plugin && same_path(hs[i].root, root)
        && !(hs[i].state is Dead)) {
        host_place(hs, plugin, root, i + 1)
    } else {
        i
    }
}

/// What activates a plugin.
#[derive(Debug)]
pub enum Activate {
    Language(String),
    /// A file that a pattern matches.
    File(String),
    Command,
}

/// Whether opening a file is a reason to start a plugin: it is in a language
/// that activates it, or one of its patterns matches.
pub open spec fn activates(
    whens: Seq<Activate>,
    language: Seq<char>,
    matching: Seq<bool>,
) -> bool {
    exists|i: int|
        0 <= i < whens.len() && match #[trigger] whens[i] {
            Activate::Language(name) => name@ == language,
            Activate::File(_) => matching[i],
            Activate::Command => false,
        }
}

/// Whether opening a file in a language is a reason to start a plugin. For each
/// of the things that activate it, `matching` says whether its pattern matches
/// the file.
pub fn wanted(whens: &Vec<Activate>, language: &str, matching: &Vec<bool>) -> (yes: bool)
    requires
        matching@.len() == whens@.len(),
    ensures
        yes == activates(whens@, language@, matching@),
{
    let mut i: usize = 0;
    while i < whens.len()
        invariant
            i <= whens@.len() == matching@.len(),
            forall|k: int|
                0 <= k < i ==> !(match #[trigger] whens@[k] {
                    Activate::Language(name) => name@ == language@,
                    Activate::File(_) => matching@[k],
                    Activate::Command => false,
                }),
        decreases whens@.len() - i,
    {
        let yes = match &whens[i] {
            Activate::Language(name) => same(name.as_str(), language),
            Activate::File(_) => matching[i],
            Activate::Command => false,
        };
        if yes {
            assert(whens@[i as int] == whens[i as int]);
            return true;
        }
        i = i + 1;
    }
    false
}

/// What a plugin is told can be done.
pub open spec fn host_capabilities() -> Value {
    Value::Object(
        seq![
            ("status"@, Value::Bool(true)),
            ("buffers"@, only("show"@, Value::Bool(true))),
        ],
    )
}

/// What is said to a plugin first.
pub open spec fn host_hello(
    process: u32,
    version: Seq<char>,
    root: Seq<char>,
    settings: Option<Value>,
) -> Value {
    Value::Object(
        seq![
            ("processId"@, Value::Natural(process as u64)),
            (
                "client"@,
                Value::Object(
                    seq![
                        ("name"@, Value::Text("textfold"@)),
                        ("version"@, Value::Text(version)),
                    ],
                ),
            ),
            ("root"@, Value::Text(root)),
            ("capabilities"@, host_capabilities()),
            (
                "settings"@,
                match settings {
                    Some(v) => v,
                    None => Value::Null,
                },
            ),
        ],
    )
}

fn capabilities() -> (j: Json)
    ensures
        j@ == host_capabilities(),
{
    let mut fs: Vec<(String, Json)> = Vec::new();
    add_field(&mut fs, "status", Json::Bool(true));
    add_field(&mut fs, "buffers", say_only("show", Json::Bool(true)));
    let j = object(fs);
    assert(j@->Object_0 =~= host_capabilities()->Object_0);
    j
}

fn say_host_hello(process: u32, version: &str, root: &str, settings: &Option<Json>) -> (j: Json)
    ensures
        j@ == host_hello(process, version@, root@, maybe_json(*settings)),
{
    let ghost want = host_hello(process, version@, root@, maybe_json(*settings));
    let mut who: Vec<(String, Json)> = Vec::new();
    add_field(&mut who, "name", string("textfold"));
    add_field(&mut who, "version", string(version));
    let client = object(who);
    assert(client@->Object_0 =~= want->Object_0[1].1->Object_0);
    let mut fs: Vec<(String, Json)> = Vec::new();
    add_field(&mut fs, "processId", Json::Natural(process as u64));
    add_field(&mut fs, "client", client);
    add_field(&mut fs, "root", string(root));
    add_field(&mut fs, "capabilities", capabilities());
    let given = match settings {
        Some(v) => v.clone(),
        None => Json::Null,
    };
    add_field(&mut fs, "settings", given);
    let j = object(fs);
    assert(j@->Object_0 =~= want->Object_0);
    j
}

/// A host that has just been started and been said hello to.
pub open spec fn new_host(
    plugin: Seq<char>,
    root: Seq<char>,
    wants: Seq<Seq<char>>,
    hello: Value,
) -> Hosting {
    Hosting {
        plugin,
        root,
        state: Standing::Starting,
        wants,
        open: Seq::empty(),
        peer: asked(silence(), "initialize"@, hello, Asked::Initialize),
        queued: Seq::empty(),
    }
}

/// Hosts after something was said to the live one of a plugin for a project.
/// One that is not ready keeps it.
pub open spec fn sent_to(
    hs: Seq<Hosting>,
    plugin: Seq<char>,
    root: Seq<char>,
    said: Held,
) -> Seq<Hosting> {
    let at = host_place(hs, plugin, root, 0);
    if at >= hs.len() {
        hs
    } else if hs[at].state is Ready {
        hs.update(at, addressed(hs[at], said.method, said.params, said.ask))
    } else {
        hs.update(at, Hosting { queued: hs[at].queued.push(said), ..hs[at] })
    }
}

/// A command of a plugin.
#[derive(Debug)]
pub struct Command {
    pub id: String,
    pub plugin: String,
    /// Whether running it opens a panel, which the plugin fills.
    pub opens_panel: bool,
}

/// What is said to a plugin when one of its commands is run.
pub open spec fn command_said(c: Command, context: Value) -> Held {
    if c.opens_panel {
        Held {
            method: "panel/opened"@,
            params: Value::Object(seq![("panel"@, Value::Text(c.id@)), ("context"@, context)]),
            ask: None,
        }
    } else {
        Held {
            method: "command/run"@,
            params: Value::Object(seq![("id"@, Value::Text(c.id@)), ("context"@, context)]),
            ask: Some(Asked::Command(c.id@)),
        }
    }
}

/// A host that has been said the first `n` of what it was to be told.
pub open spec fn released(h: Hosting, held: Seq<Held>, n: int) -> Hosting
    decreases n,
{
    if n <= 0 {
        h
    } else {
        addressed(
            released(h, held, n - 1),
            held[n - 1].method,
            held[n - 1].params,
            held[n - 1].ask,
        )
    }
}

/// A host that has answered, and been told what was held back for that.
pub open spec fn host_ready(h: Hosting) -> Hosting {
    let up = told(
        Hosting { state: Standing::Ready, queued: Seq::empty(), ..h },
        "initialized"@,
        Value::Object(Seq::empty()),
    );
    released(up, h.queued, h.queued.len() as int)
}

impl Host {
    fn take_queue(&mut self) -> (q: Vec<Queued>)
        ensures
            views(q@) == old(self)@.queued,
            final(self)@ == (Hosting { queued: Seq::empty(), ..old(self)@ }),
    {
        let ghost was = self@;
        let mut q: Vec<Queued> = Vec::new();
        std::mem::swap(&mut q, &mut self.queued);
        assert(views(self.queued@) =~= Seq::<Held>::empty());
        assert(self@ =~= (Hosting { queued: Seq::empty(), ..was }));
        q
    }

    fn make_ready(&mut self)
        ensures
            final(self)@ == host_ready(old(self)@),
    {
        let ghost was = self@;
        let mut q = self.take_queue();
        let ghost held = views(q@);
        let ghost none = self@;
        self.state = State::Ready;
        assert(self@ =~= (Hosting { state: Standing::Ready, ..none }));
        self.notify_out("initialized", crate::client::nothing());
        let ghost up = self@;
        let ghost mut n: int = 0;
        while q.len() > 0
            invariant
                0 <= n,
                n + q@.len() == held.len(),
                views(q@) == held.skip(n),
                self@ == released(up, held, n),
            decreases q@.len(),
        {
            let ghost before = q@;
            let one = q.remove(0);
            assert(one@ == views(before)[0]);
            assert(held[n] == held.skip(n)[0]);
            assert(views(q@) =~= views(before).skip(1));
            assert(held.skip(n).skip(1) =~= held.skip(n + 1));
            self.address(one.method.as_str(), one.params, one.ask);
            proof {
                n = n + 1;
            }
        }
        assert(up =~= told(
            Hosting { state: Standing::Ready, queued: Seq::empty(), ..was },
            "initialized"@,
            Value::Object(Seq::empty()),
        ));
    }

    fn hold(&mut self, said: Queued)
        ensures
            final(self)@ == (Hosting { queued: old(self)@.queued.push(said@), ..old(self)@ }),
    {
        let ghost was = self@;
        let ghost had = self.queued@;
        let ghost is = said@;
        self.queued.push(said);
        assert(views(self.queued@) =~= views(had).push(is));
        assert(self@ =~= (Hosting { queued: was.queued.push(is), ..was }));
    }

    fn die(&mut self, why: String)
        ensures
            final(self)@ == (Hosting {
                state: Standing::Dead(why@),
                queued: Seq::empty(),
                ..old(self)@
            }),
    {
        let ghost was = self@;
        let ghost w = why@;
        self.state = State::Dead(why);
        self.queued.clear();
        assert(views(self.queued@) =~= Seq::<Held>::empty());
        assert(self@ =~= (Hosting {
            state: Standing::Dead(w),
            queued: Seq::empty(),
            ..was
        }));
    }
}

impl Hosts {
    /// No host yet.
    pub fn new() -> (h: Hosts)
        ensures
            running(h).len() == 0,
            falls(h).len() == 0,
            h.problems@.len() == 0,
    {
        Hosts { hosts: Vec::new(), crashes: Vec::new(), problems: Vec::new() }
    }

    /// All of them.
    pub fn all(&self) -> (v: &Vec<Host>)
        ensures
            *v == self.hosts,
    {
        &self.hosts
    }

    /// One of them.
    pub fn get(&self, id: HostId) -> (r: Option<&Host>)
        ensures
            match r {
                Some(h) => id.0 < running(*self).len() && h@ == running(*self)[id.0 as int],
                None => id.0 >= running(*self).len(),
            },
    {
        if id.0 < self.hosts.len() {
            Some(&self.hosts[id.0])
        } else {
            None
        }
    }

    fn find(&self, plugin: &str, root: &str) -> (at: usize)
        ensures
            at == host_place(running(*self), plugin@, root@, 0),
            at <= self.hosts@.len(),
            at < self.hosts@.len() ==> running(*self)[at as int] == self.hosts@[at as int]@,
    {
        let ghost hs = running(*self);
        let mut at: usize = 0;
        while at < self.hosts.len() && !(same(self.hosts[at].plugin.as_str(), plugin) && is_same(
            self.hosts[at].root.as_str(),
            root,
        ) && !self.hosts[at].is_dead())
            invariant
                at <= self.hosts@.len(),
                hs == running(*self),
                host_place(hs, plugin@, root@, 0) == host_place(hs, plugin@, root@, at as int),
            decreases self.hosts@.len() - at,
        {
            assert(hs[at as int] == self.hosts@[at as int]@);
            at = at + 1;
        }
        if at < self.hosts.len() {
            assert(hs[at as int] == self.hosts@[at as int]@);
        }
        at
    }

    fn find_crash(&self, plugin: &str, root: &str) -> (at: usize)
        ensures
            at == fall_place(falls(*self), plugin@, root@, 0),
            at <= self.crashes@.len(),
            at < self.crashes@.len() ==> falls(*self)[at as int] == self.crashes@[at as int]@,
    {
        let ghost fs = falls(*self);
        let mut at: usize = 0;
        while at < self.crashes.len() && !(same(self.crashes[at].plugin.as_str(), plugin)
            && is_same(self.crashes[at].root.as_str(), root))
            invariant
                at <= self.crashes@.len(),
                fs == falls(*self),
                fall_place(fs, plugin@, root@, 0) == fall_place(fs, plugin@, root@, at as int),
            decreases self.crashes@.len() - at,
        {
            assert(fs[at as int] == self.crashes@[at as int]@);
            at = at + 1;
        }
        if at < self.crashes.len() {
            assert(fs[at as int] == self.crashes@[at as int]@);
        }
        at
    }

    /// Whether a host of a plugin is to be started for a project: none is
    /// running there, and it has not been given up on.
    pub fn wake(&self, plugin: &str, root: &str, now: u64) -> (start: bool)
        ensures
            start == (host_place(running(*self), plugin@, root@, 0) >= running(*self).len()
                && !left_alone(falls(*self), plugin@, root@, now)),
    {
        if self.find(plugin, root) < self.hosts.len() {
            return false;
        }
        let at = self.find_crash(plugin, root);
        !(at < self.crashes.len() && self.crashes[at].count >= GIVE_UP_AFTER && elapsed(
            now,
            self.crashes[at].at,
        ) < CRASH_WINDOW)
    }

    /// A host that was run for a project: it joins the list, and is said hello
    /// to.
    pub fn started(
        &mut self,
        plugin: &str,
        root: &str,
        wants: &Vec<String>,
        settings: &Option<Json>,
        process: u32,
        version: &str,
    ) -> (id: HostId)
        ensures
            id == HostId(old(self).hosts@.len() as usize),
            running(*final(self)) == running(*old(self)).push(
                new_host(
                    plugin@,
                    root@,
                    texts(wants@),
                    host_hello(process, version@, root@, maybe_json(*settings)),
                ),
            ),
            rest_kept(*final(self), *old(self)),
    {
        let id = HostId(self.hosts.len());
        let mut host = Host {
            plugin: plugin.to_owned(),
            root: root.to_owned(),
            state: State::Starting,
            wants: crate::strings::copy_texts(wants),
            open: Vec::new(),
            peer: Peer::new(),
            queued: Vec::new(),
        };
        assert(host@.open =~= Seq::<Seq<char>>::empty());
        assert(host@.queued =~= Seq::<Held>::empty());
        let hello = say_host_hello(process, version, root, settings);
        host.address("initialize", hello, Some(Ask::Initialize));
        let ghost had = self.hosts@;
        let ghost is = host@;
        self.hosts.push(host);
        assert(running(*self) =~= views(had).push(is));
        id
    }

    /// A host that could not be run for a project. That counts as a fall, so
    /// that it is said a few times and then no more.
    pub fn not_started(&mut self, plugin: &str, root: &str, why: String, now: u64)
        requires
            fall_count(falls(*old(self)), plugin@, root@) < u32::MAX,
        ensures
            running(*final(self)) == running(*old(self)),
            falls(*final(self)) == with_fall(falls(*old(self)), plugin@, root@, now),
            texts(final(self).problems@) == texts(old(self).problems@).push(why@),
    {
        self.note_crash(plugin, root, now);
        let ghost had = self.problems@;
        let ghost is = why@;
        self.problems.push(why);
        assert(texts(self.problems@) =~= texts(had).push(is));
    }

    /// Say one thing to the host of a plugin for a project, where one is
    /// alive. One that is still coming up is told when it is ready.
    pub fn send(&mut self, plugin: &str, root: &str, said: Queued)
        ensures
            running(*final(self)) == sent_to(running(*old(self)), plugin@, root@, said@),
            rest_kept(*final(self), *old(self)),
    {
        let ghost hs = running(*self);
        let at = self.find(plugin, root);
        if at >= self.hosts.len() {
            return;
        }
        let ghost is = said@;
        if self.hosts[at].is_ready() {
            self.hosts[at].address(said.method.as_str(), said.params, said.ask);
            assert(running(*self) =~= hs.update(
                at as int,
                addressed(hs[at as int], is.method, is.params, is.ask),
            ));
        } else {
            self.hosts[at].hold(said);
            assert(running(*self) =~= hs.update(
                at as int,
                Hosting { queued: hs[at as int].queued.push(is), ..hs[at as int] },
            ));
        }
    }

    /// Run one of a plugin's commands for a project. Opening a panel is a
    /// statement; anything else wants an answer.
    pub fn run(&mut self, command: &Command, root: &str, context: Json)
        ensures
            running(*final(self)) == sent_to(
                running(*old(self)),
                command.plugin@,
                root@,
                command_said(*command, context@),
            ),
            rest_kept(*final(self), *old(self)),
    {
        let ghost want = command_said(*command, context@);
        let mut fs: Vec<(String, Json)> = Vec::new();
        let said = if command.opens_panel {
            add_field(&mut fs, "panel", string(command.id.as_str()));
            add_field(&mut fs, "context", context);
            Queued { method: "panel/opened".to_owned(), params: object(fs), ask: None }
        } else {
            add_field(&mut fs, "id", string(command.id.as_str()));
            add_field(&mut fs, "context", context);
            Queued {
                method: "command/run".to_owned(),
                params: object(fs),
                ask: Some(Ask::Command(command.id.clone())),
            }
        };
        assert(said@.params->Object_0 =~= want.params->Object_0);
        assert(said@ == want);
        self.send(command.plugin.as_str(), root, said);
    }

    /// A host has answered. Anything held back while it started goes out now.
    pub fn ready(&mut self, id: HostId)
        ensures
            running(*final(self)) == if id.0 < running(*old(self)).len() {
                running(*old(self)).update(
                    id.0 as int,
                    host_ready(running(*old(self))[id.0 as int]),
                )
            } else {
                running(*old(self))
            },
            rest_kept(*final(self), *old(self)),
    {
        let ghost hs = running(*self);
        if id.0 < self.hosts.len() {
            self.hosts[id.0].make_ready();
            assert(running(*self) =~= hs.update(id.0 as int, host_ready(hs[id.0 as int])));
        }
    }

    /// Mark a host as gone, and remember that it went.
    pub fn died(&mut self, id: HostId, why: String, now: u64)
        requires
            id.0 < running(*old(self)).len() ==> fall_count(
                falls(*old(self)),
                running(*old(self))[id.0 as int].plugin,
                running(*old(self))[id.0 as int].root,
            ) < u32::MAX,
        ensures
            ({
                let hs = running(*old(self));
                let i = id.0 as int;
                if i < hs.len() {
                    &&& running(*final(self)) == hs.update(
                        i,
                        (Hosting {
                            state: Standing::Dead(why@),
                            queued: Seq::empty(),
                            ..hs[i]
                        }),
                    )
                    &&& falls(*final(self)) == with_fall(
                        falls(*old(self)),
                        hs[i].plugin,
                        hs[i].root,
                        now,
                    )
                } else {
                    *final(self) == *old(self)
                }
            }),
            final(self).problems == old(self).problems,
    {
        let ghost hs = running(*self);
        if id.0 < self.hosts.len() {
            let ghost w = why@;
            let plugin = self.hosts[id.0].plugin.clone();
            let root = self.hosts[id.0].root.clone();
            self.hosts[id.0].die(why);
            assert(running(*self) =~= hs.update(
                id.0 as int,
                Hosting { state: Standing::Dead(w), queued: Seq::empty(), ..hs[id.0 as int] },
            ));
            self.note_crash(plugin.as_str(), root.as_str(), now);
        }
    }

    /// Count a fall of a plugin in a project.
    pub fn note_crash(&mut self, plugin: &str, root: &str, now: u64)
        requires
            fall_count(falls(*old(self)), plugin@, root@) < u32::MAX,
        ensures
            running(*final(self)) == running(*old(self)),
            falls(*final(self)) == with_fall(falls(*old(self)), plugin@, root@, now),
            final(self).problems == old(self).problems,
    {
        let ghost fs = falls(*self);
        let at = self.find_crash(plugin, root);
        if at < self.crashes.len() {
            let count: u32 = if elapsed(now, self.crashes[at].at) > CRASH_WINDOW {
                0
            } else {
                self.crashes[at].count
            };
            let crash = Crash {
                plugin: self.crashes[at].plugin.clone(),
                root: self.crashes[at].root.clone(),
                count: count + 1,
                at: now,
            };
            assert(crash@ == fallen(fs[at as int], now));
            self.crashes.set(at, crash);
            assert(falls(*self) =~= fs.update(at as int, fallen(fs[at as int], now)));
        } else {
            self.crashes.push(
                Crash { plugin: plugin.to_owned(), root: root.to_owned(), count: 1, at: now },
            );
            assert(falls(*self) =~= fs.push(
                Fall { plugin: plugin@, root: root@, count: 1, at: now },
            ));
        }
    }

    /// Whether a plugin has been given up on for now.
    pub fn given_up_on(&self, plugin: &str, now: u64) -> (yes: bool)
        ensures
            yes == given_up(falls(*self), plugin@, now),
    {
        let ghost fs = falls(*self);
        let mut i: usize = 0;
        while i < self.crashes.len()
            invariant
                i <= self.crashes@.len(),
                fs == falls(*self),
                forall|k: int|
                    0 <= k < i ==> !((#[trigger] fs[k]).plugin == plugin@ && hopeless(fs[k], now)),
            decreases self.crashes@.len() - i,
        {
            assert(fs[i as int] == self.crashes@[i as int]@);
            if same(self.crashes[i].plugin.as_str(), plugin) && self.crashes[i].count
                >= GIVE_UP_AFTER && elapsed(now, self.crashes[i].at) < CRASH_WINDOW {
                return true;
            }
            i = i + 1;
        }
        false
    }
}

// ---------------------------------------------------------------------------
// Telling plugins about the text
// ---------------------------------------------------------------------------

/// What is said of an opened file.
pub open spec fn opened_value(doc: Document, path: Seq<char>, language: Seq<char>) -> Value {
    Value::Object(
        seq![
            ("path"@, Value::Text(path)),
            ("language"@, Value::Text(language)),
            ("version"@, int_value(doc.version as i64)),
            ("text"@, Value::Text(doc.content())),
        ],
    )
}

/// A host that has been told of an open file: one that is ready, asked for its
/// language and has not been told yet.
pub open spec fn with_opened(h: Hosting, doc: Document, path: Seq<char>, language: Seq<char>) -> Hosting {
    if h.state is Ready && is_wanted(h, language) && !among(h.open, path) {
        told(
            Hosting { open: h.open.push(path), ..h },
            "buffer/opened"@,
            opened_value(doc, path, language),
        )
    } else {
        h
    }
}

/// One edit, by the characters of the text as it was.
pub open spec fn edit_value(e: AppliedEdit) -> Value {
    Value::Object(
        seq![
            ("from"@, Value::Natural(e.from as u64)),
            ("to"@, Value::Natural(e.to as u64)),
            ("text"@, Value::Text(e.text@)),
        ],
    )
}

/// The edits in the order in which they happened.
pub open spec fn edit_values(edits: Seq<AppliedEdit>) -> Seq<Value> {
    edits.map_values(|e: AppliedEdit| edit_value(e))
}

/// What is said of a change.
pub open spec fn changed_value(path: Seq<char>, version: i32, edits: Seq<AppliedEdit>) -> Value {
    Value::Object(
        seq![
            ("path"@, Value::Text(path)),
            ("version"@, int_value(version as i64)),
            ("changes"@, Value::List(edit_values(edits))),
        ],
    )
}

/// What is said of a save.
pub open spec fn saved_value(path: Seq<char>, version: i32) -> Value {
    Value::Object(
        seq![("path"@, Value::Text(path)), ("version"@, int_value(version as i64))],
    )
}

/// A host that has been told something of a file, if it is ready and knows it.
pub open spec fn told_of(
    h: Hosting,
    path: Seq<char>,
    method: Seq<char>,
    params: Value,
) -> Hosting {
    if h.state is Ready && among(h.open, path) { told(h, method, params) } else { h }
}

/// A host that has been told something of a file, if it also asked for its
/// language.
pub open spec fn told_if_wanted(
    h: Hosting,
    path: Seq<char>,
    language: Seq<char>,
    method: Seq<char>,
    params: Value,
) -> Hosting {
    if is_wanted(h, language) { told_of(h, path, method, params) } else { h }
}

/// A host that has been told that a file is closed, if it knew it. It does not
/// any more.
pub open spec fn with_closed(h: Hosting, path: Seq<char>) -> Hosting {
    if among(h.open, path) {
        told(
            Hosting { open: without(h.open, path), ..h },
            "buffer/closed"@,
            only("path"@, Value::Text(path)),
        )
    } else {
        h
    }
}

fn say_edit(e: &AppliedEdit) -> (j: Json)
    ensures
        j@ == edit_value(*e),
{
    let mut fs: Vec<(String, Json)> = Vec::new();
    add_field(&mut fs, "from", Json::Natural(e.from as u64));
    add_field(&mut fs, "to", Json::Natural(e.to as u64));
    add_field(&mut fs, "text", string(e.text.as_str()));
    let j = object(fs);
    assert(j@->Object_0 =~= edit_value(*e)->Object_0);
    j
}

fn say_changed(path: &str, version: i32, edits: &Vec<AppliedEdit>) -> (j: Json)
    ensures
        j@ == changed_value(path@, version, edits@),
{
    let ghost want = edit_values(edits@);
    let mut v: Vec<Json> = Vec::new();
    let mut i: usize = 0;
    assert(each(v@) =~= want.take(0));
    while i < edits.len()
        invariant
            i <= edits@.len(),
            want == edit_values(edits@),
            each(v@) == want.take(i as int),
        decreases edits@.len() - i,
    {
        add_item(&mut v, say_edit(&edits[i]));
        assert(want.take(i + 1) =~= want.take(i as int).push(want[i as int]));
        i = i + 1;
    }
    assert(want.take(i as int) =~= want);
    let mut fs: Vec<(String, Json)> = Vec::new();
    add_field(&mut fs, "path", string(path));
    add_field(&mut fs, "version", number(version as i64));
    add_field(&mut fs, "changes", list(v));
    let j = object(fs);
    assert(j@->Object_0 =~= changed_value(path@, version, edits@)->Object_0);
    j
}

fn say_saved(path: &str, version: i32) -> (j: Json)
    ensures
        j@ == saved_value(path@, version),
{
    let mut fs: Vec<(String, Json)> = Vec::new();
    add_field(&mut fs, "path", string(path));
    add_field(&mut fs, "version", number(version as i64));
    let j = object(fs);
    assert(j@->Object_0 =~= saved_value(path@, version)->Object_0);
    j
}

fn say_opened(doc: &Document, path: &str, language: &str) -> (j: Json)
    ensures
        j@ == opened_value(*doc, path@, language@),
{
    let text = doc.text();
    let mut fs: Vec<(String, Json)> = Vec::new();
    add_field(&mut fs, "path", string(path));
    add_field(&mut fs, "language", string(language));
    add_field(&mut fs, "version", number(doc.version as i64));
    add_field(&mut fs, "text", string(text.as_str()));
    let j = object(fs);
    assert(j@->Object_0 =~= opened_value(*doc, path@, language@)->Object_0);
    j
}

impl Host {
    fn tell_opened(&mut self, doc: &Document, path: &str, language: &str)
        ensures
            final(self)@ == with_opened(old(self)@, *doc, path@, language@),
    {
        let ghost was = self@;
        if self.is_ready() && self.wants(language) && put_path(&mut self.open, path) {
            assert(self@ =~= (Hosting { open: was.open.push(path@), ..was }));
            self.notify_out("buffer/opened", say_opened(doc, path, language));
        } else {
            assert(self@ =~= was);
        }
    }

    fn tell_of(&mut self, path: &str, method: &str, params: &Json)
        ensures
            final(self)@ == told_of(old(self)@, path@, method@, params@),
    {
        if self.is_ready() && is_among(&self.open, path) {
            self.notify_out(method, params.clone());
        }
    }

    fn tell_closed(&mut self, path: &str)
        ensures
            final(self)@ == with_closed(old(self)@, path@),
    {
        let ghost was = self@;
        if is_among(&self.open, path) {
            take_out(&mut self.open, path);
            assert(self@ =~= (Hosting { open: without(was.open, path@), ..was }));
            self.notify_out("buffer/closed", say_only("path", string(path)));
        }
    }

    fn stop(&mut self)
        ensures
            final(self)@ == with_stop(old(self)@),
    {
        let ghost was = self@;
        if !self.is_dead() {
            self.peer.send(Sending::Stop);
            assert(self@ =~= (Hosting { peer: spoken(was.peer, Sent::Stop), ..was }));
        }
    }
}

/// A host that has been told to stop.
pub open spec fn with_stop(h: Hosting) -> Hosting {
    if h.state is Dead { h } else { Hosting { peer: spoken(h.peer, Sent::Stop), ..h } }
}

/// Hosts that have each been told something of a file, if they know it.
pub open spec fn all_told_of(
    hs: Seq<Hosting>,
    path: Seq<char>,
    method: Seq<char>,
    params: Value,
) -> Seq<Hosting> {
    hs.map_values(|h: Hosting| told_of(h, path, method, params))
}

/// Hosts after a file was opened.
pub open spec fn all_opened(hs: Seq<Hosting>, doc: Document, language: Seq<char>) -> Seq<Hosting> {
    match doc.path {
        Some(path) => hs.map_values(|h: Hosting| with_opened(h, doc, path@, language)),
        None => hs,
    }
}

/// Hosts after the cursor moved.
pub open spec fn all_told_if_wanted(
    hs: Seq<Hosting>,
    path: Seq<char>,
    language: Seq<char>,
    method: Seq<char>,
    params: Value,
) -> Seq<Hosting> {
    hs.map_values(|h: Hosting| told_if_wanted(h, path, language, method, params))
}

/// Hosts after a file was closed.
pub open spec fn all_closed(hs: Seq<Hosting>, path: Seq<char>) -> Seq<Hosting> {
    hs.map_values(|h: Hosting| with_closed(h, path))
}

/// Hosts that have all been told to stop.
pub open spec fn all_stopped(hs: Seq<Hosting>) -> Seq<Hosting> {
    hs.map_values(|h: Hosting| with_stop(h))
}

/// The hosts among the first `n` that are of a plugin, each told to stop and
/// gone, or that are not, as they are.
pub open spec fn of_plugin(hs: Seq<Hosting>, plugin: Seq<char>, n: int) -> Seq<Hosting>
    decreases n,
{
    if n <= 0 {
        Seq::empty()
    } else if hs[n - 1].plugin == plugin {
        of_plugin(hs, plugin, n - 1).push(switched_off(hs[n - 1]))
    } else {
        of_plugin(hs, plugin, n - 1)
    }
}

/// The hosts among the first `n` that are not of a plugin.
pub open spec fn of_others(hs: Seq<Hosting>, plugin: Seq<char>, n: int) -> Seq<Hosting>
    decreases n,
{
    if n <= 0 {
        Seq::empty()
    } else if hs[n - 1].plugin == plugin {
        of_others(hs, plugin, n - 1)
    } else {
        of_others(hs, plugin, n - 1).push(hs[n - 1])
    }
}

/// The falls among the first `n` that are not of a plugin.
pub open spec fn falls_of_others(fs: Seq<Fall>, plugin: Seq<char>, n: int) -> Seq<Fall>
    decreases n,
{
    if n <= 0 {
        Seq::empty()
    } else if fs[n - 1].plugin == plugin {
        falls_of_others(fs, plugin, n - 1)
    } else {
        falls_of_others(fs, plugin, n - 1).push(fs[n - 1])
    }
}

/// A host that has been switched off.
pub open spec fn switched_off(h: Hosting) -> Hosting {
    if h.state is Dead {
        h
    } else {
        Hosting { state: Standing::Dead("switched off"@), ..with_stop(h) }
    }
}

impl Hosts {
    /// Tell whoever asked for its language that a file is open, and what is in
    /// it.
    pub fn opened_buffer(&mut self, doc: &Document, language: &str)
        ensures
            running(*final(self)) == all_opened(running(*old(self)), *doc, language@),
            rest_kept(*final(self), *old(self)),
    {
        if let Some(path) = &doc.path {
            let ghost hs = running(*self);
            let ghost want = all_opened(hs, *doc, language@);
            let mut i: usize = 0;
            while i < self.hosts.len()
                invariant
                    i <= self.hosts@.len() == hs.len(),
                    doc.path == Some(*path),
                    want == all_opened(hs, *doc, language@),
                    rest_kept(*self, *old(self)),
                    forall|k: int| 0 <= k < i ==> (#[trigger] self.hosts@[k])@ == want[k],
                    forall|k: int|
                        i <= k < self.hosts@.len() ==> (#[trigger] self.hosts@[k])@ == hs[k],
                decreases self.hosts@.len() - i,
            {
                self.hosts[i].tell_opened(doc, path.as_str(), language);
                i = i + 1;
            }
            assert(running(*self) =~= want);
        }
    }

    fn tell_all_of(&mut self, path: &str, method: &str, params: &Json)
        ensures
            running(*final(self)) == all_told_of(running(*old(self)), path@, method@, params@),
            rest_kept(*final(self), *old(self)),
    {
        let ghost hs = running(*self);
        let ghost want = all_told_of(hs, path@, method@, params@);
        let mut i: usize = 0;
        while i < self.hosts.len()
            invariant
                i <= self.hosts@.len() == hs.len(),
                want == all_told_of(hs, path@, method@, params@),
                rest_kept(*self, *old(self)),
                forall|k: int| 0 <= k < i ==> (#[trigger] self.hosts@[k])@ == want[k],
                forall|k: int|
                    i <= k < self.hosts@.len() ==> (#[trigger] self.hosts@[k])@ == hs[k],
            decreases self.hosts@.len() - i,
        {
            self.hosts[i].tell_of(path, method, params);
            i = i + 1;
        }
        assert(running(*self) =~= want);
    }

    /// Tell those who know a file what changed in it, by the characters of the
    /// text as it was.
    pub fn changed(&mut self, doc: &Document, edits: &Vec<AppliedEdit>)
        ensures
            running(*final(self)) == match doc.path {
                Some(path) => if edits@.len() == 0 {
                    running(*old(self))
                } else {
                    all_told_of(
                        running(*old(self)),
                        path@,
                        "buffer/changed"@,
                        changed_value(path@, doc.version, edits@),
                    )
                },
                None => running(*old(self)),
            },
            rest_kept(*final(self), *old(self)),
    {
        if edits.len() == 0 {
            return;
        }
        if let Some(path) = &doc.path {
            let params = say_changed(path.as_str(), doc.version, edits);
            self.tell_all_of(path.as_str(), "buffer/changed", &params);
        }
    }

    /// Tell those who know a file and asked for its language where the cursor
    /// is.
    pub fn selection_changed(&mut self, doc: &Document, language: &str, params: &Json)
        ensures
            running(*final(self)) == match doc.path {
                Some(path) => all_told_if_wanted(
                    running(*old(self)),
                    path@,
                    language@,
                    "selection/changed"@,
                    params@,
                ),
                None => running(*old(self)),
            },
            rest_kept(*final(self), *old(self)),
    {
        if let Some(path) = &doc.path {
            let ghost hs = running(*self);
            let ghost want = all_told_if_wanted(
                hs,
                path@,
                language@,
                "selection/changed"@,
                params@,
            );
            let mut i: usize = 0;
            while i < self.hosts.len()
                invariant
                    i <= self.hosts@.len() == hs.len(),
                    want == all_told_if_wanted(
                        hs,
                        path@,
                        language@,
                        "selection/changed"@,
                        params@,
                    ),
                    rest_kept(*self, *old(self)),
                    forall|k: int| 0 <= k < i ==> (#[trigger] self.hosts@[k])@ == want[k],
                    forall|k: int|
                        i <= k < self.hosts@.len() ==> (#[trigger] self.hosts@[k])@ == hs[k],
                decreases self.hosts@.len() - i,
            {
                if self.hosts[i].wants(language) {
                    self.hosts[i].tell_of(path.as_str(), "selection/changed", params);
                }
                i = i + 1;
            }
            assert(running(*self) =~= want);
        }
    }

    /// Tell those who know a file that it was saved.
    pub fn saved(&mut self, doc: &Document)
        ensures
            running(*final(self)) == match doc.path {
                Some(path) => all_told_of(
                    running(*old(self)),
                    path@,
                    "buffer/saved"@,
                    saved_value(path@, doc.version),
                ),
                None => running(*old(self)),
            },
            rest_kept(*final(self), *old(self)),
    {
        if let Some(path) = &doc.path {
            let params = say_saved(path.as_str(), doc.version);
            self.tell_all_of(path.as_str(), "buffer/saved", &params);
        }
    }

    /// Tell those who know a file that it is closed.
    pub fn closed(&mut self, path: &str)
        ensures
            running(*final(self)) == all_closed(running(*old(self)), path@),
            rest_kept(*final(self), *old(self)),
    {
        let ghost hs = running(*self);
        let ghost want = all_closed(hs, path@);
        let mut i: usize = 0;
        while i < self.hosts.len()
            invariant
                i <= self.hosts@.len() == hs.len(),
                want == all_closed(hs, path@),
                rest_kept(*self, *old(self)),
                forall|k: int| 0 <= k < i ==> (#[trigger] self.hosts@[k])@ == want[k],
                forall|k: int|
                    i <= k < self.hosts@.len() ==> (#[trigger] self.hosts@[k])@ == hs[k],
            decreases self.hosts@.len() - i,
        {
            self.hosts[i].tell_closed(path);
            i = i + 1;
        }
        assert(running(*self) =~= want);
    }

    /// Where a program is run for a plugin: where it said, or in the project of
    /// its host, or here.
    pub fn place_to_run(&self, id: HostId, cwd: Option<String>) -> (s: String)
        ensures
            s@ == match cwd {
                Some(dir) => dir@,
                None => if id.0 < running(*self).len() {
                    running(*self)[id.0 as int].root
                } else {
                    "."@
                },
            },
    {
        match cwd {
            Some(dir) => dir,
            None => match self.get(id) {
                Some(h) => h.root.clone(),
                None => ".".to_owned(),
            },
        }
    }

    /// Stop everything that one plugin is running, and forget how often it
    /// fell over. The hosts that were stopped are handed back.
    pub fn stop_plugin(&mut self, plugin: &str) -> (gone: Vec<Host>)
        ensures
            views(gone@) == of_plugin(
                running(*old(self)),
                plugin@,
                running(*old(self)).len() as int,
            ),
            running(*final(self)) == of_others(
                running(*old(self)),
                plugin@,
                running(*old(self)).len() as int,
            ),
            falls(*final(self)) == falls_of_others(
                falls(*old(self)),
                plugin@,
                falls(*old(self)).len() as int,
            ),
            final(self).problems == old(self).problems,
    {
        let ghost hs = running(*self);
        let ghost fs = falls(*self);
        let mut all: Vec<Host> = Vec::new();
        std::mem::swap(&mut all, &mut self.hosts);
        let mut gone: Vec<Host> = Vec::new();
        let ghost mut n: int = 0;
        assert(hs.skip(0) =~= hs);
        assert(views(gone@) =~= of_plugin(hs, plugin@, 0));
        assert(views(self.hosts@) =~= of_others(hs, plugin@, 0));
        while all.len() > 0
            invariant
                0 <= n,
                n + all@.len() == hs.len(),
                views(all@) == hs.skip(n),
                views(gone@) == of_plugin(hs, plugin@, n),
                views(self.hosts@) == of_others(hs, plugin@, n),
                self.crashes == old(self).crashes,
                self.problems == old(self).problems,
            decreases all@.len(),
        {
            let ghost before = all@;
            let mut one = all.remove(0);
            assert(one@ == views(before)[0]);
            assert(hs[n] == hs.skip(n)[0]);
            assert(views(all@) =~= views(before).skip(1));
            assert(hs.skip(n).skip(1) =~= hs.skip(n + 1));
            if same(one.plugin.as_str(), plugin) {
                one.switch_off();
                let ghost had = gone@;
                let ghost is = one@;
                gone.push(one);
                assert(views(gone@) =~= views(had).push(is));
            } else {
                let ghost had = self.hosts@;
                let ghost is = one@;
                self.hosts.push(one);
                assert(views(self.hosts@) =~= views(had).push(is));
            }
            proof {
                n = n + 1;
            }
        }
        self.forget_crashes(plugin);
        gone
    }

    fn forget_crashes(&mut self, plugin: &str)
        ensures
            final(self).hosts == old(self).hosts,
            final(self).problems == old(self).problems,
            falls(*final(self)) == falls_of_others(
                falls(*old(self)),
                plugin@,
                falls(*old(self)).len() as int,
            ),
    {
        let ghost fs = falls(*self);
        let mut all: Vec<Crash> = Vec::new();
        std::mem::swap(&mut all, &mut self.crashes);
        let ghost mut n: int = 0;
        assert(fs.skip(0) =~= fs);
        assert(views(self.crashes@) =~= falls_of_others(fs, plugin@, 0));
        while all.len() > 0
            invariant
                0 <= n,
                n + all@.len() == fs.len(),
                views(all@) == fs.skip(n),
                views(self.crashes@) == falls_of_others(fs, plugin@, n),
                self.hosts == old(self).hosts,
                self.problems == old(self).problems,
            decreases all@.len(),
        {
            let ghost before = all@;
            let one = all.remove(0);
            assert(one@ == views(before)[0]);
            assert(fs[n] == fs.skip(n)[0]);
            assert(views(all@) =~= views(before).skip(1));
            assert(fs.skip(n).skip(1) =~= fs.skip(n + 1));
            if !same(one.plugin.as_str(), plugin) {
                let ghost had = self.crashes@;
                let ghost is = one@;
                self.crashes.push(one);
                assert(views(self.crashes@) =~= views(had).push(is));
            }
            proof {
                n = n + 1;
            }
        }
    }

    /// Stop everything, on the way out.
    pub fn shutdown_all(&mut self)
        ensures
            running(*final(self)) == all_stopped(running(*old(self))),
            rest_kept(*final(self), *old(self)),
    {
        let ghost hs = running(*self);
        let ghost want = all_stopped(hs);
        let mut i: usize = 0;
        while i < self.hosts.len()
            invariant
                i <= self.hosts@.len() == hs.len(),
                want == all_stopped(hs),
                rest_kept(*self, *old(self)),
                forall|k: int| 0 <= k < i ==> (#[trigger] self.hosts@[k])@ == want[k],
                forall|k: int|
                    i <= k < self.hosts@.len() ==> (#[trigger] self.hosts@[k])@ == hs[k],
            decreases self.hosts@.len() - i,
        {
            self.hosts[i].stop();
            i = i + 1;
        }
        assert(running(*self) =~= want);
    }
}

impl Host {
    fn switch_off(&mut self)
        ensures
            final(self)@ == switched_off(old(self)@),
    {
        let ghost was = self@;
        if !self.is_dead() {
            self.stop();
            self.state = State::Dead("switched off".to_owned());
            assert(self@ =~= switched_off(was));
        }
    }
}

/// The words for a plugin whose program is not there to be run.
pub fn not_installed(plugin: &str, command: &str) -> (s: String)
    ensures
        s@ == plugin@ + ": "@ + command@ + " is not installed — the plugin is off until it is"@,
{
    let mut s = plugin.to_owned();
    s.append(": ");
    s.append(command);
    s.append(" is not installed — the plugin is off until it is");
    s
}

/// The words for a plugin whose program would not start.
pub fn not_starting(plugin: &str, why: &str) -> (s: String)
    ensures
        s@ == plugin@ + ": "@ + why@,
{
    let mut s = plugin.to_owned();
    s.append(": ");
    s.append(why);
    s
}

// ---------------------------------------------------------------------------
// What holds of giving up
// ---------------------------------------------------------------------------

proof fn lemma_fall_place(fs: Seq<Fall>, plugin: Seq<char>, root: Seq<char>, i: int)
    requires
        0 <= i <= fs.len(),
    ensures
        ({
            let at = fall_place(fs, plugin, root, i);
            &&& i <= at <= fs.len()
            &&& at < fs.len() ==> fs[at].plugin == plugin && same_path(fs[at].root, root)
        }),
    decreases fs.len() - i,
{
    if i < fs.len() && !(fs[i].plugin == plugin && same_path(fs[i].root, root)) {
        lemma_fall_place(fs, plugin, root, i + 1);
    }
}

/// The falls of a plugin in a project are found where they were counted.
proof fn lemma_counted(fs: Seq<Fall>, plugin: Seq<char>, root: Seq<char>, now: u64)
    ensures
        ({
            let at = fall_place(fs, plugin, root, 0);
            let more = with_fall(fs, plugin, root, now);
            &&& 0 <= at < more.len()
            &&& fall_place(more, plugin, root, 0) == at
            &&& more[at].plugin == plugin
            &&& more[at].at == now
        }),
{
    lemma_fall_place(fs, plugin, root, 0);
    lemma_still_there(fs, with_fall(fs, plugin, root, now), plugin, root, 0);
}

proof fn lemma_still_there(
    fs: Seq<Fall>,
    more: Seq<Fall>,
    plugin: Seq<char>,
    root: Seq<char>,
    i: int,
)
    requires
        0 <= i <= fall_place(fs, plugin, root, 0),
        fall_place(fs, plugin, root, 0) == fall_place(fs, plugin, root, i),
        fall_place(fs, plugin, root, 0) <= fs.len(),
        more == with_fall(fs, plugin, root, more[fall_place(fs, plugin, root, 0)].at),
        fall_place(fs, plugin, root, 0) < fs.len() ==> fs[fall_place(
            fs,
            plugin,
            root,
            0,
        )].plugin == plugin && same_path(fs[fall_place(fs, plugin, root, 0)].root, root),
    ensures
        fall_place(more, plugin, root, i) == fall_place(fs, plugin, root, 0),
    decreases fs.len() - i,
{
    let at = fall_place(fs, plugin, root, 0);
    if i < at {
        assert(more[i] == fs[i]);
        assert(!(fs[i].plugin == plugin && same_path(fs[i].root, root)));
        lemma_still_there(fs, more, plugin, root, i + 1);
    } else if at == fs.len() {
        assert(same_path(root, root));
    }
}

/// A plugin that falls over as often as is too often, each time within the
/// window of the time before, is given up on, and is not started again until
/// the window has gone by.
pub proof fn law_a_plugin_that_keeps_falling_is_left_alone(
    fs: Seq<Fall>,
    plugin: Seq<char>,
    root: Seq<char>,
    first: u64,
    second: u64,
    third: u64,
    now: u64,
)
    requires
        fall_count(fs, plugin, root) < u32::MAX - 3,
        since(second, first) <= CRASH_WINDOW,
        since(third, second) <= CRASH_WINDOW,
        since(now, third) < CRASH_WINDOW,
    ensures
        ({
            let after = with_fall(
                with_fall(with_fall(fs, plugin, root, first), plugin, root, second),
                plugin,
                root,
                third,
            );
            &&& given_up(after, plugin, now)
            &&& left_alone(after, plugin, root, now)
        }),
{
    let one = with_fall(fs, plugin, root, first);
    let two = with_fall(one, plugin, root, second);
    let three = with_fall(two, plugin, root, third);
    lemma_counted(fs, plugin, root, first);
    lemma_counted(one, plugin, root, second);
    lemma_counted(two, plugin, root, third);
    let at = fall_place(fs, plugin, root, 0);
    assert(one[at].count >= 1);
    assert(two[at].count >= 2);
    assert(three[at].count >= 3);
    assert(hopeless(three[at], now));
}

/// A fall that comes long after the one before is the first again.
pub proof fn law_one_bad_day_is_forgotten(
    fs: Seq<Fall>,
    plugin: Seq<char>,
    root: Seq<char>,
    now: u64,
)
    requires
        ({
            let at = fall_place(fs, plugin, root, 0);
            at < fs.len() && since(now, fs[at].at) > CRASH_WINDOW
        }),
    ensures
        fall_count(with_fall(fs, plugin, root, now), plugin, root) == 1,
{
    lemma_counted(fs, plugin, root, now);
}

/// Switching a plugin off gives it another chance.
pub proof fn law_switching_off_forgets_the_falls(
    fs: Seq<Fall>,
    plugin: Seq<char>,
    root: Seq<char>,
    now: u64,
)
    ensures
        ({
            let rest = falls_of_others(fs, plugin, fs.len() as int);
            !given_up(rest, plugin, now) && !left_alone(rest, plugin, root, now)
        }),
{
    lemma_others(fs, plugin, fs.len() as int);
    lemma_fall_place(falls_of_others(fs, plugin, fs.len() as int), plugin, root, 0);
}

proof fn lemma_others(fs: Seq<Fall>, plugin: Seq<char>, n: int)
    ensures
        forall|i: int|
            0 <= i < falls_of_others(fs, plugin, n).len() ==> (#[trigger] falls_of_others(
                fs,
                plugin,
                n,
            )[i]).plugin != plugin,
    decreases n,
{
    if n > 0 {
        lemma_others(fs, plugin, n - 1);
        let less = falls_of_others(fs, plugin, n - 1);
        assert forall|i: int| 0 <= i < falls_of_others(fs, plugin, n).len() implies (
        #[trigger] falls_of_others(fs, plugin, n)[i]).plugin != plugin by {
            if i < less.len() {
                assert(less[i].plugin != plugin);
            }
        }
    }
}
// ---------------------------------------------------------------------------
// Running a program for a plugin
// ---------------------------------------------------------------------------

/// What a program did that was run to its end.
#[derive(Debug)]
pub struct Output {
    pub ok: bool,
    pub code: Option<i32>,
    pub out: String,
    pub err: String,
}

/// A program that the editor ran for a plugin, on its way back to it.
#[derive(Debug)]
pub struct Ran {
    pub host: HostId,
    /// The plugin's own number for its question.
    pub request: Json,
    pub ok: bool,
    pub code: Option<i32>,
    pub out: String,
    pub err: String,
}

/// What to tell a plugin of a program that was started for it: what it did, or
/// why that could not be found out.
pub fn ran(host: HostId, request: Json, done: Result<Output, String>) -> (r: Ran)
    ensures
        r.host == host,
        r.request == request,
        match done {
            Ok(did) => r.ok == did.ok && r.code == did.code && r.out@ == did.out@ && r.err@
                == did.err@,
            Err(why) => !r.ok && r.code is None && r.out@ == Seq::<char>::empty() && r.err@ == why@,
        },
{
    match done {
        Ok(did) => Ran {
            host,
            request,
            ok: did.ok,
            code: did.code,
            out: did.out,
            err: did.err,
        },
        Err(why) => Ran { host, request, ok: false, code: None, out: String::new(), err: why },
    }
}

/// What is said of a program that could not be started.
pub fn would_not_run(command: &str, missing: bool, why: &str) -> (s: String)
    ensures
        s@ == if missing {
            command@ + " is not installed"@
        } else {
            command@ + ": "@ + why@
        },
{
    let mut s: String = command.to_owned();
    if missing {
        s.append(" is not installed");
    } else {
        s.append(": ");
        s.append(why);
    }
    s
}

/// The root that a project goes by: the whole of where it is, where that could
/// be made out, so that a project reached two ways is one project.
pub fn settle(root: String, resolved: Option<String>) -> (r: String)
    ensures
        r@ == match resolved {
            Some(whole) => whole@,
            None => root@,
        },
{
    match resolved {
        Some(whole) => whole,
        None => root,
    }
}

} // verus!
